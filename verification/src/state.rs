//! The state of the server.

use std::collections::{HashMap, VecDeque};
use vstd::hash_map::StringHashMap;
use vstd::prelude::*;
use vstd::string::*;

use crate::color::Rgb;
use crate::coords::{WorldCoords, WorldRect};
use crate::model::{
    Action, ActionView, EventView, SegmentEvent, StoredChunk, StoredChunkCell, StoredRegion,
    UserAccount,
};
use crate::msg::CellUpdateEntry;
use crate::text::{dec, push_dec};
use crate::world::{lists_chunks, look, slot_of, Slot, World};

verus! {

/// Number of recent actions kept in memory.
pub const MAX_HOT_ACTIONS: usize = 16_384;

/// Cells that an account may write at once after a pause.
pub const CELL_BUCKET_MAX: u64 = 200;

/// Cells that an account may write in a second, in the long run.
pub const CELL_REFILL_PER_SEC: u64 = 40;

/// What the server knows of one connection.
pub struct ConnInfo {
    pub viewport: Option<WorldRect>,
    pub cursor: Option<WorldCoords>,
    pub color: Rgb,
    pub user_id: u32,
    pub name: String,
}

/// The state of the server. Events for the log are left in `outbox`.
pub struct AppState {
    pub world: World,
    pub users: Vec<Option<UserAccount>>,
    pub authors_count: Vec<u32>,
    pub name_to_id: StringHashMap<u32>,
    pub sessions: StringHashMap<u32>,
    pub regions: HashMap<u32, StoredRegion>,
    pub next_rid: u32,
    pub next_uid: u32,
    pub next_action_id: u64,
    pub total_cells: u32,
    pub connections: HashMap<u64, ConnInfo>,
    pub login_throttle: StringHashMap<(u32, u64)>,
    pub cell_update_buffer: Vec<(CellUpdateEntry, String)>,
    pub hot_buffer: VecDeque<Action>,
    pub cell_rate: HashMap<u32, (u64, u64)>,
    pub outbox: Vec<SegmentEvent>,
}

/// The name of an account that nobody has registered.
pub open spec fn anonymous_name(uid: u32) -> Seq<char> {
    "anonymous#"@ + dec(uid as nat)
}

pub(crate) fn anonymous_name_of(uid: u32) -> (r: String)
    ensures
        r@ == anonymous_name(uid),
{
    let mut s = "anonymous#".to_string();
    push_dec(&mut s, uid as u64);
    s
}

/// The account with number `uid`.
pub open spec fn account(users: Seq<Option<UserAccount>>, uid: u32) -> Option<UserAccount> {
    if uid < users.len() {
        users[uid as int]
    } else {
        None
    }
}

impl AppState {
    /// The board is well formed, and the recent actions are no more than are
    /// kept.
    pub open spec fn wf(&self) -> bool {
        &&& self.world.wf()
        &&& self.hot_buffer@.len() <= MAX_HOT_ACTIONS
    }

    /// Every account is stored under its own number.
    pub open spec fn ids_match(&self) -> bool {
        forall|i: int|
            0 <= i < self.users@.len() && (#[trigger] self.users@[i]) is Some ==> self.users@[i]->0.user_id
                == i
    }

    /// The recent actions, oldest first.
    pub open spec fn hot(&self) -> Seq<ActionView> {
        self.hot_buffer@.map_values(|a: Action| a@)
    }

    /// The events waiting for the log, oldest first.
    pub open spec fn events(&self) -> Seq<EventView> {
        self.outbox@.map_values(|e: SegmentEvent| e@)
    }

    /// The name of account `uid`, or its anonymous name where there is none.
    pub open spec fn name_of(&self, uid: u32) -> Seq<char> {
        match account(self.users@, uid) {
            Some(u) => u.username@,
            None => anonymous_name(uid),
        }
    }

    /// The account called `name`.
    pub open spec fn account_named(&self, name: Seq<char>) -> Option<UserAccount> {
        if self.name_to_id@.contains_key(name) {
            account(self.users@, self.name_to_id@[name])
        } else {
            None
        }
    }

    /// A server with an empty board.
    pub fn new() -> (r: Self)
        ensures
            r.wf(),
            r.ids_match(),
            r.world@ == Map::<Slot, StoredChunkCell>::empty(),
            r.users@.len() == 0,
            r.authors_count@.len() == 0,
            r.name_to_id@ == Map::<Seq<char>, u32>::empty(),
            r.sessions@ == Map::<Seq<char>, u32>::empty(),
            r.regions@ == Map::<u32, StoredRegion>::empty(),
            r.next_rid == 1,
            r.next_uid == 1,
            r.next_action_id == 0,
            r.total_cells == 0,
            r.connections@ == Map::<u64, ConnInfo>::empty(),
            r.login_throttle@ == Map::<Seq<char>, (u32, u64)>::empty(),
            r.cell_update_buffer@.len() == 0,
            r.hot_buffer@.len() == 0,
            r.cell_rate@ == Map::<u32, (u64, u64)>::empty(),
            r.outbox@.len() == 0,
    {
        AppState {
            world: World::new(),
            users: Vec::new(),
            authors_count: Vec::new(),
            name_to_id: StringHashMap::new(),
            sessions: StringHashMap::new(),
            regions: HashMap::new(),
            next_rid: 1,
            next_uid: 1,
            next_action_id: 0,
            total_cells: 0,
            connections: HashMap::new(),
            login_throttle: StringHashMap::new(),
            cell_update_buffer: Vec::new(),
            hot_buffer: VecDeque::new(),
            cell_rate: HashMap::new(),
            outbox: Vec::new(),
        }
    }

    /// What is written at `pos`.
    pub fn current_cell(&self, pos: WorldCoords) -> (r: Option<StoredChunkCell>)
        requires
            self.wf(),
        ensures
            r == look(self.world@, slot_of(pos)),
    {
        let (chunk, local) = pos.to_chunk();
        self.world.get_cell(chunk, local.to_index())
    }

    pub fn username_of(&self, uid: u32) -> (r: String)
        ensures
            r@ == self.name_of(uid),
    {
        match self.get_user_by_id(uid) {
            Some(u) => u.username,
            None => anonymous_name_of(uid),
        }
    }

    pub fn get_session(&self, token: &str) -> (r: Option<u32>)
        ensures
            r == (if self.sessions@.contains_key(token@) {
                Some(self.sessions@[token@])
            } else {
                None
            }),
    {
        match self.sessions.get(token) {
            Some(uid) => Some(*uid),
            None => None,
        }
    }

    pub fn get_user_by_name(&self, name: &str) -> (r: Option<UserAccount>)
        ensures
            r == self.account_named(name@),
    {
        match self.name_to_id.get(name) {
            Some(uid) => self.get_user_by_id(*uid),
            None => None,
        }
    }

    pub fn get_user_by_id(&self, uid: u32) -> (r: Option<UserAccount>)
        ensures
            r == account(self.users@, uid),
    {
        if (uid as usize) < self.users.len() {
            match &self.users[uid as usize] {
                Some(u) => Some(u.duplicate()),
                None => None,
            }
        } else {
            None
        }
    }

    /// Every chunk in which something is written, once, in no particular
    /// order.
    pub fn snapshot_all_shards(&self) -> (r: Vec<StoredChunk>)
        requires
            self.wf(),
        ensures
            lists_chunks(r@, self.world@),
    {
        self.world.snapshot()
    }

    /// Remembers `entry` for the next round of news.
    pub fn queue_cell_update(&mut self, entry: CellUpdateEntry, author: String)
        ensures
            *final(self) == (AppState {
                cell_update_buffer: final(self).cell_update_buffer,
                ..*old(self)
            }),
            final(self).cell_update_buffer@ == old(self).cell_update_buffer@.push((entry, author)),
    {
        self.cell_update_buffer.push((entry, author));
    }
}

} // verus!
