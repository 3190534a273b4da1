//! What the server does with each message of a client.

use std::collections::{HashMap, HashSet};
use vstd::prelude::*;
use vstd::std_specs::hash::*;
use vstd::string::*;

use crate::access::olds_countable;
use crate::auth::failures;
use crate::color::Rgb;
use crate::coords::{ChunkCoords, WorldCoords, WorldRect};
use crate::edit::countable;
use crate::model::{StoredChunkCell, StoredRegion};
use crate::msg::{ChunkCell, ClientMsg, LodCell, OnlineUser, ServerMsg};
use crate::query::{lod_of, sent_cell, top_writers};
use crate::session::{
    is_record, lemma_sent_all, lemma_sent_step, says_auth_fail, says_left, sees, sent_to_first,
    delivers, Outgoing, Session,
};
use crate::state::{AppState, ConnInfo};
use crate::table::keys_of;
use crate::text::{first_chars, first_chars_of};
use crate::world::chunk_cells;

verus! {

/// What is known at the moment a message comes in: the time in seconds since
/// the epoch, a clock that only goes forward, what is in the sender's bucket by
/// now, and a token for a session that may be needed.
pub struct Moment {
    pub now: u64,
    pub instant: u64,
    pub refilled: u64,
    pub token: String,
}

/// The accounts that are connected.
pub open spec fn present(conns: Map<u64, ConnInfo>) -> Set<u32> {
    Set::new(
        |u: u32| exists|id: u64| #[trigger] conns.contains_key(id) && conns[id].user_id == u,
    )
}

/// `o` tells of `c`.
pub open spec fn is_online_user(c: ConnInfo, o: OnlineUser) -> bool {
    o.user_id == c.user_id && o.name == c.name && o.color == c.color && o.pos == c.cursor
}

/// `users` tell of all connections but `conn_id`, each once.
pub open spec fn tells_online(
    users: Seq<OnlineUser>,
    conns: Map<u64, ConnInfo>,
    conn_id: u64,
) -> bool {
    exists|ids: Seq<u64>| #[trigger] tells_online_as(users, conns, conn_id, ids)
}

/// `users` tell of the connections `ids`, which are all but `conn_id`.
pub open spec fn tells_online_as(
    users: Seq<OnlineUser>,
    conns: Map<u64, ConnInfo>,
    conn_id: u64,
    ids: Seq<u64>,
) -> bool {
    &&& ids.no_duplicates()
    &&& forall|id: u64| #[trigger] ids.contains(id) <==> conns.contains_key(id) && id != conn_id
    &&& users.len() == ids.len()
    &&& forall|i: int| 0 <= i < ids.len() ==> is_online_user(conns[ids[i]], #[trigger] users[i])
}

/// `m` says where the cursor of `user_id` is.
pub open spec fn says_cursor(
    m: ServerMsg,
    user_id: u32,
    name: Seq<char>,
    pos: WorldCoords,
    color: Rgb,
) -> bool {
    m matches ServerMsg::CursorUpdate { user_id: u, name: n, pos: p, color: c } && u == user_id
        && n@ == name && p == pos && c == color
}

/// `old` was in sight of the connection.
pub open spec fn saw(c: ConnInfo, old: Option<WorldCoords>) -> bool {
    old matches Some(p) && sees(c, p)
}

/// `conns` with connection `conn_id`, if it is there, changed by `f`.
pub open spec fn with_connection(
    conns: Map<u64, ConnInfo>,
    conn_id: u64,
    f: spec_fn(ConnInfo) -> ConnInfo,
) -> Map<u64, ConnInfo> {
    if conns.contains_key(conn_id) {
        conns.insert(conn_id, f(conns[conn_id]))
    } else {
        conns
    }
}

impl AppState {
    /// `m` holds the chunks asked for, and the names of those who wrote in
    /// them.
    pub open spec fn tells_chunks(self, chunks: Seq<ChunkCoords>, m: ServerMsg) -> bool {
        m matches ServerMsg::ChunkDataBatch { chunks: cs, authors } && {
            &&& cs@.len() == chunks.len()
            &&& forall|i: int|
                0 <= i < chunks.len() ==> (#[trigger] cs@[i]).0 == chunks[i] && cs@[i].1@
                    == chunk_cells(self.world@, chunks[i]).map_values(
                    |c: StoredChunkCell| sent_cell(c),
                )
            &&& forall|uid: u32| #[trigger]
                authors@.contains_key(uid) <==> wrote_in(uid, cs@)
            &&& forall|uid: u32| #[trigger]
                authors@.contains_key(uid) ==> authors@[uid]@ == self.name_of(uid)
        }
    }

    /// Answers a request for chunks.
    pub fn fetch_chunks(&self, chunks: &Vec<ChunkCoords>) -> (m: ServerMsg)
        requires
            self.wf(),
        ensures
            self.tells_chunks(chunks@, m),
    {
        broadcast use group_hash_axioms;

        let mut all: Vec<(ChunkCoords, Vec<ChunkCell>)> = Vec::new();
        let mut names: HashMap<u32, String> = HashMap::new();
        let mut i: usize = 0;
        while i < chunks.len()
            invariant
                i <= chunks@.len(),
                self.wf(),
                all@.len() == i,
                forall|k: int|
                    0 <= k < i ==> (#[trigger] all@[k]).0 == chunks@[k] && all@[k].1@
                        == chunk_cells(self.world@, chunks@[k]).map_values(
                        |c: StoredChunkCell| sent_cell(c),
                    ),
                forall|uid: u32| #[trigger] names@.contains_key(uid) <==> wrote_in(uid, all@),
                forall|uid: u32| #[trigger]
                    names@.contains_key(uid) ==> names@[uid]@ == self.name_of(uid),
            decreases chunks@.len() - i,
        {
            let (cells, authors) = self.get_chunk_with_authors(chunks[i]);
            let ghost before = all@;
            let ghost names0 = names@;
            let added = keys_of(&authors);
            let mut j: usize = 0;
            while j < added.len()
                invariant
                    j <= added@.len(),
                    forall|k: u32| #[trigger] added@.contains(k) <==> authors@.contains_key(k),
                    forall|uid: u32| #[trigger]
                        authors@.contains_key(uid) ==> authors@[uid]@ == self.name_of(uid),
                    forall|uid: u32| #[trigger]
                        names@.contains_key(uid) <==> names0.contains_key(uid) || added@.take(
                            j as int,
                        ).contains(uid),
                    forall|uid: u32| #[trigger]
                        names@.contains_key(uid) ==> names@[uid]@ == self.name_of(uid),
                decreases added@.len() - j,
            {
                let ghost before_names = names@;
                assert(added@.contains(added@[j as int]));
                if let Some(n) = authors.get(&added[j]) {
                    names.insert(added[j], n.clone());
                }
                proof {
                    assert(added@.take(j + 1) =~= added@.take(j as int).push(added@[j as int]));
                    assert forall|uid: u32| #[trigger]
                        names@.contains_key(uid) <==> names0.contains_key(uid) || added@.take(
                            j + 1,
                        ).contains(uid) by {
                        vstd::seq_lib::lemma_seq_contains_after_push(
                            added@.take(j as int),
                            added@[j as int],
                            uid,
                        );
                        assert(before_names.contains_key(uid) <==> names0.contains_key(uid)
                            || added@.take(j as int).contains(uid));
                    }
                }
                j = j + 1;
            }
            assert(added@.take(j as int) =~= added@);
            all.push((chunks[i], cells));
            proof {
                assert forall|uid: u32| #[trigger]
                    names@.contains_key(uid) <==> wrote_in(uid, all@) by {
                    lemma_wrote_in_push(uid, before, all@[i as int]);
                    assert(all@ =~= before.push(all@[i as int]));
                    assert(added@.contains(uid) <==> authors@.contains_key(uid));
                    assert(names0.contains_key(uid) <==> wrote_in(uid, before));
                    assert(names@.contains_key(uid) <==> names0.contains_key(uid)
                        || added@.contains(uid));
                    assert(all@[i as int].1@ == cells@);
                    let c = all@[i as int];
                    assert(authors@.contains_key(uid) <==> exists|j: int|
                        0 <= j < c.1@.len() && (#[trigger] c.1@[j]).author_id == uid);
                }
            }
            i = i + 1;
        }
        ServerMsg::ChunkDataBatch { chunks: all, authors: names }
    }

    /// `m` holds the chunks asked for as seen from afar.
    pub open spec fn tells_lod(self, entries: Seq<(ChunkCoords, u8)>, m: ServerMsg) -> bool {
        m matches ServerMsg::LodDataBatch { entries: es } && {
            &&& es@.len() == entries.len()
            &&& forall|i: int|
                0 <= i < entries.len() ==> (#[trigger] es@[i]).0 == entries[i].0 && es@[i].1
                    == entries[i].1 && es@[i].2@ == lod_of(
                    entries[i].0,
                    entries[i].1,
                    chunk_cells(self.world@, entries[i].0),
                )
        }
    }

    /// Answers a request for chunks as seen from afar.
    pub fn fetch_lod(&self, entries: &Vec<(ChunkCoords, u8)>) -> (m: ServerMsg)
        requires
            self.wf(),
            forall|i: int| 0 <= i < entries@.len() ==> (#[trigger] entries@[i]).1 != 0,
        ensures
            self.tells_lod(entries@, m),
    {
        let mut all: Vec<(ChunkCoords, u8, Vec<LodCell>)> = Vec::new();
        let mut i: usize = 0;
        while i < entries.len()
            invariant
                i <= entries@.len(),
                self.wf(),
                forall|k: int| 0 <= k < entries@.len() ==> (#[trigger] entries@[k]).1 != 0,
                all@.len() == i,
                forall|k: int|
                    0 <= k < i ==> (#[trigger] all@[k]).0 == entries@[k].0 && all@[k].1
                        == entries@[k].1 && all@[k].2@ == lod_of(
                        entries@[k].0,
                        entries@[k].1,
                        chunk_cells(self.world@, entries@[k].0),
                    ),
            decreases entries@.len() - i,
        {
            let (chunk, step) = entries[i];
            assert(entries@[i as int].1 != 0);
            let cells = self.get_lod_colors(chunk, step);
            all.push((chunk, step, cells));
            i = i + 1;
        }
        ServerMsg::LodDataBatch { entries: all }
    }

    /// `m` holds the statistics: cells on the board, accounts that are
    /// connected, and the ten who have written most.
    pub open spec fn tells_stats(self, m: ServerMsg) -> bool {
        m matches ServerMsg::Stats { total_cells, online, top_authors } && {
            let top = top_writers(self.authors_count@, 10);
            &&& total_cells == self.total_cells
            &&& online == present(self.connections@).len() as u16
            &&& top_authors@.len() == top.len()
            &&& forall|i: int|
                0 <= i < top.len() ==> (#[trigger] top_authors@[i]).count == top[i].1
                    && top_authors@[i].name@ == self.name_of(top[i].0)
        }
    }

    fn online_count(&self) -> (r: u16)
        ensures
            r == present(self.connections@).len() as u16,
    {
        broadcast use group_hash_axioms;

        let ids = keys_of(&self.connections);
        let mut seen: HashSet<u32> = HashSet::new();
        let mut i: usize = 0;
        while i < ids.len()
            invariant
                i <= ids@.len(),
                forall|k: u64| #[trigger] ids@.contains(k) <==> self.connections@.contains_key(k),
                forall|u: u32| #[trigger]
                    seen@.contains(u) <==> exists|k: int|
                        0 <= k < i && self.connections@[#[trigger] ids@[k]].user_id == u,
            decreases ids@.len() - i,
        {
            let ghost before = seen@;
            assert(ids@.contains(ids@[i as int]));
            if let Some(c) = self.connections.get(&ids[i]) {
                seen.insert(c.user_id);
            }
            proof {
                assert forall|u: u32| #[trigger]
                    seen@.contains(u) <==> exists|k: int|
                        0 <= k < i + 1 && self.connections@[#[trigger] ids@[k]].user_id == u by {
                    if before.contains(u) {
                        let k = choose|k: int|
                            0 <= k < i && self.connections@[#[trigger] ids@[k]].user_id == u;
                        assert(self.connections@[ids@[k]].user_id == u);
                    }
                    if self.connections@[ids@[i as int]].user_id == u {
                        assert(seen@.contains(u));
                    }
                }
            }
            i = i + 1;
        }
        proof {
            let p = present(self.connections@);
            assert forall|u: u32| seen@.contains(u) <==> p.contains(u) by {
                if seen@.contains(u) {
                    let k = choose|k: int|
                        0 <= k < i && self.connections@[#[trigger] ids@[k]].user_id == u;
                    assert(ids@.contains(ids@[k]));
                }
                if p.contains(u) {
                    let id = choose|id: u64| #[trigger]
                        self.connections@.contains_key(id) && self.connections@[id].user_id == u;
                    assert(ids@.contains(id));
                    let k = choose|k: int| 0 <= k < ids@.len() && ids@[k] == id;
                    assert(self.connections@[ids@[k]].user_id == u);
                }
            }
            assert(seen@ =~= p);
        }
        #[verifier::truncate]
        (seen.len() as u16)
    }

    /// The statistics, as everybody is told of them.
    pub fn stats(&self) -> (m: ServerMsg)
        ensures
            self.tells_stats(m),
    {
        ServerMsg::Stats {
            total_cells: self.total_cells,
            online: self.online_count(),
            top_authors: self.top_authors(10),
        }
    }
}

/// `uid` wrote one of the cells.
pub open spec fn wrote_in(uid: u32, chunks: Seq<(ChunkCoords, Vec<ChunkCell>)>) -> bool {
    exists|i: int, j: int|
        0 <= i < chunks.len() && 0 <= j < chunks[i].1@.len() && (
        #[trigger] chunks[i].1@[j]).author_id == uid
}

proof fn lemma_wrote_in_push(
    uid: u32,
    chunks: Seq<(ChunkCoords, Vec<ChunkCell>)>,
    c: (ChunkCoords, Vec<ChunkCell>),
)
    ensures
        wrote_in(uid, chunks.push(c)) <==> wrote_in(uid, chunks) || exists|j: int|
            0 <= j < c.1@.len() && (#[trigger] c.1@[j]).author_id == uid,
{
    let all = chunks.push(c);
    let n = chunks.len() as int;
    assert(all[n] == c);
    if wrote_in(uid, chunks) {
        let (i, j) = choose|i: int, j: int|
            0 <= i < chunks.len() && 0 <= j < chunks[i].1@.len() && (
            #[trigger] chunks[i].1@[j]).author_id == uid;
        assert(all[i].1@[j].author_id == uid);
    }
    if exists|j: int| 0 <= j < c.1@.len() && (#[trigger] c.1@[j]).author_id == uid {
        let j = choose|j: int| 0 <= j < c.1@.len() && (#[trigger] c.1@[j]).author_id == uid;
        assert(all[n].1@[j].author_id == uid);
    }
    if wrote_in(uid, all) {
        let (i, j) = choose|i: int, j: int|
            0 <= i < all.len() && 0 <= j < all[i].1@.len() && (#[trigger] all[i].1@[j]).author_id
                == uid;
        if i < n {
            assert(chunks[i].1@[j].author_id == uid);
        } else {
            assert(c.1@[j].author_id == uid);
        }
    }
}

/// `out` sends each of `ms` back, in order.
pub open spec fn sends_back(out: Seq<Outgoing>, ms: Seq<ServerMsg>) -> bool {
    &&& out.len() == ms.len()
    &&& forall|i: int| 0 <= i < out.len() ==> #[trigger] out[i] == Outgoing::Back(ms[i])
}

/// `out` sends each of `notes` to its connection, in order.
pub open spec fn sends_to(out: Seq<Outgoing>, notes: Seq<(u64, ServerMsg)>) -> bool {
    &&& out.len() == notes.len()
    &&& forall|i: int|
        0 <= i < out.len() ==> #[trigger] out[i] == Outgoing::To(notes[i].0, notes[i].1)
}

fn back_all(ms: Vec<ServerMsg>) -> (out: Vec<Outgoing>)
    ensures
        sends_back(out@, ms@),
{
    let ghost all = ms@;
    let mut out: Vec<Outgoing> = Vec::new();
    for m in iter: ms
        invariant
            iter.seq() == all,
            out@.len() == iter.index(),
            forall|k: int| 0 <= k < out@.len() ==> #[trigger] out@[k] == Outgoing::Back(all[k]),
    {
        out.push(Outgoing::Back(m));
    }
    out
}

fn to_all(notes: Vec<(u64, ServerMsg)>) -> (out: Vec<Outgoing>)
    ensures
        sends_to(out@, notes@),
{
    let ghost all = notes@;
    let mut out: Vec<Outgoing> = Vec::new();
    for n in iter: notes
        invariant
            iter.seq() == all,
            out@.len() == iter.index(),
            forall|k: int|
                0 <= k < out@.len() ==> #[trigger] out@[k] == Outgoing::To(all[k].0, all[k].1),
    {
        out.push(Outgoing::To(n.0, n.1));
    }
    out
}

fn one(o: Outgoing) -> (out: Vec<Outgoing>)
    ensures
        out@ == seq![o],
{
    let mut out: Vec<Outgoing> = Vec::new();
    out.push(o);
    assert(out@ =~= seq![o]);
    out
}

impl AppState {
    /// `r` is the region that `user_id` asks for.
    pub open spec fn asks_for(bounds: WorldRect, label: Seq<char>, user_id: u32, r: StoredRegion) -> bool {
        r.id == 0 && r.bounds == bounds && r.label@ == first_chars(label, 32) && r.owner_id
            == user_id
    }

    /// `after` is `self` once session `s` has asked for a region to be
    /// protected, and `out` is sent: to everybody the new region, to somebody
    /// anonymous a refusal, and nothing where the region is not admitted.
    pub open spec fn protects(
        self,
        s: Session,
        bounds: WorldRect,
        label: Seq<char>,
        out: Seq<Outgoing>,
        after: AppState,
    ) -> bool {
        if s.is_anon {
            &&& after == self
            &&& out.len() == 1
            &&& out[0] matches Outgoing::Back(m) && says_auth_fail(m, "login required"@)
        } else {
            exists|r: StoredRegion|
                {
                    &&& #[trigger] Self::asks_for(bounds, label, s.user_id, r)
                    &&& if self.admits(r) {
                        let id = self.next_rid;
                        let saved = StoredRegion { id, ..r };
                        &&& self.takes_region(r, after)
                        &&& out.len() == 1
                        &&& out[0] matches Outgoing::All(ServerMsg::RegionAdded(rec)) && is_record(
                            after,
                            saved,
                            rec,
                        )
                    } else {
                        after == self && out.len() == 0
                    }
                }
        }
    }

    /// Protects a part of the board for a client that is logged in.
    pub fn protect(&mut self, s: &Session, bounds: WorldRect, label: &str) -> (out: Vec<Outgoing>)
        ensures
            old(self).protects(*s, bounds, label@, out@, *final(self)),
    {
        broadcast use group_hash_axioms;

        if s.is_anon {
            return one(
                Outgoing::Back(ServerMsg::AuthFail { reason: "login required".to_string() }),
            );
        }
        let r = StoredRegion {
            id: 0,
            bounds,
            label: first_chars_of(label, 32),
            owner_id: s.user_id,
        };
        assert(Self::asks_for(bounds, label@, s.user_id, r));
        match self.add_region(r) {
            Ok(id) => match self.regions.get(&id) {
                Some(saved) => {
                    let rec = self.region_to_record(saved);
                    one(Outgoing::All(ServerMsg::RegionAdded(rec)))
                },
                None => Vec::new(),
            },
            Err(_) => Vec::new(),
        }
    }

    /// `after` is `self` once `user_id` has asked to give up region `id`, and
    /// `out` is sent.
    pub open spec fn gives_up(
        self,
        id: u32,
        user_id: u32,
        out: Seq<Outgoing>,
        after: AppState,
    ) -> bool {
        if self.regions@.contains_key(id) && self.regions@[id].owner_id == user_id {
            &&& self.releases_region(id, after)
            &&& out.len() == 1
            &&& out[0] matches Outgoing::All(ServerMsg::RegionRemoved { id: i }) && i == id
        } else {
            after == self && out.len() == 0
        }
    }

    /// Gives up region `id`, if it belongs to whoever asks.
    pub fn give_up(&mut self, id: u32, user_id: u32) -> (out: Vec<Outgoing>)
        ensures
            old(self).gives_up(id, user_id, out@, *final(self)),
    {
        match self.remove_region(id, user_id) {
            Ok(done) => if done {
                one(Outgoing::All(ServerMsg::RegionRemoved { id }))
            } else {
                Vec::new()
            },
            Err(_) => Vec::new(),
        }
    }

    /// `after` is `self` once connection `conn_id` shows `rect`, and `out` tells
    /// it who else is there.
    pub open spec fn shows(
        self,
        conn_id: u64,
        rect: WorldRect,
        out: Seq<Outgoing>,
        after: AppState,
    ) -> bool {
        &&& after.connections@ == with_connection(
            self.connections@,
            conn_id,
            |c: ConnInfo| ConnInfo { viewport: Some(rect), ..c },
        )
        &&& after == (AppState { connections: after.connections, ..self })
        &&& out.len() == 1
        &&& out[0] matches Outgoing::Back(ServerMsg::OnlineList { users }) && tells_online(
            users@,
            after.connections@,
            conn_id,
        )
    }

    fn online_list(&self, conn_id: u64) -> (users: Vec<OnlineUser>)
        ensures
            tells_online(users@, self.connections@, conn_id),
    {
        broadcast use group_hash_axioms;

        let ids = keys_of(&self.connections);
        let mut users: Vec<OnlineUser> = Vec::new();
        let ghost mut told: Seq<u64> = Seq::empty();
        let mut i: usize = 0;
        while i < ids.len()
            invariant
                i <= ids@.len(),
                ids@.no_duplicates(),
                forall|k: u64| #[trigger] ids@.contains(k) <==> self.connections@.contains_key(k),
                told.no_duplicates(),
                forall|id: u64| #[trigger]
                    told.contains(id) <==> ids@.take(i as int).contains(id) && id != conn_id,
                users@.len() == told.len(),
                forall|k: int|
                    0 <= k < told.len() ==> is_online_user(
                        self.connections@[told[k]],
                        #[trigger] users@[k],
                    ),
            decreases ids@.len() - i,
        {
            let id: u64 = ids[i];
            let ghost t = ids@.take(i as int);
            let ghost told0 = told;
            proof {
                assert(ids@.contains(id));
                assert(ids@.take(i + 1) =~= t.push(id));
                assert(!t.contains(id)) by {
                    if t.contains(id) {
                        let k = choose|k: int| 0 <= k < t.len() && t[k] == id;
                        assert(ids@[k] != ids@[i as int]);
                    }
                }
                assert(!told.contains(id));
                assert(told.push(id).no_duplicates()) by {
                    assert forall|a: int, b: int|
                        0 <= a < told.push(id).len() && 0 <= b < told.push(id).len() && a
                            != b implies told.push(id)[a] != told.push(id)[b] by {
                        if a < told.len() {
                            assert(told.contains(told[a]));
                        }
                        if b < told.len() {
                            assert(told.contains(told[b]));
                        }
                    }
                }
            }
            if id != conn_id {
                if let Some(c) = self.connections.get(&id) {
                    users.push(
                        OnlineUser {
                            user_id: c.user_id,
                            name: c.name.clone(),
                            color: c.color,
                            pos: c.cursor,
                        },
                    );
                }
                proof {
                    told = told.push(id);
                }
            }
            proof {
                assert forall|x: u64| #[trigger]
                    told.contains(x) <==> ids@.take(i + 1).contains(x) && x != conn_id by {
                    vstd::seq_lib::lemma_seq_contains_after_push(t, id, x);
                    vstd::seq_lib::lemma_seq_contains_after_push(told0, id, x);
                    assert(told0.contains(x) <==> t.contains(x) && x != conn_id);
                }
            }
            i = i + 1;
        }
        assert(ids@.take(i as int) =~= ids@);
        assert(tells_online_as(users@, self.connections@, conn_id, told));
        users
    }

    /// Notes what a connection shows, and tells it who else is there.
    pub fn show(&mut self, conn_id: u64, rect: WorldRect) -> (out: Vec<Outgoing>)
        ensures
            old(self).shows(conn_id, rect, out@, *final(self)),
    {
        broadcast use group_hash_axioms;

        if let Some(mut info) = self.connections.remove(&conn_id) {
            info.viewport = Some(rect);
            self.connections.insert(conn_id, info);
        }
        assert(self.connections@ =~= with_connection(
            old(self).connections@,
            conn_id,
            |c: ConnInfo| ConnInfo { viewport: Some(rect), ..c },
        ));
        one(Outgoing::Back(ServerMsg::OnlineList { users: self.online_list(conn_id) }))
    }

    /// Where the cursor of connection `conn_id` was.
    pub open spec fn old_cursor(self, conn_id: u64) -> Option<WorldCoords> {
        if self.connections@.contains_key(conn_id) {
            self.connections@[conn_id].cursor
        } else {
            None
        }
    }

    /// `after` is `self` once the cursor of session `s` has moved, and `out`
    /// tells the others: those who see it now where it is, those who saw it
    /// before that it has left.
    pub open spec fn points(
        self,
        s: Session,
        pos: WorldCoords,
        color: Rgb,
        out: Seq<Outgoing>,
        after: AppState,
    ) -> bool {
        let old = self.old_cursor(s.conn_id);
        &&& after.connections@ == with_connection(
            self.connections@,
            s.conn_id,
            |c: ConnInfo| ConnInfo { cursor: Some(pos), color, ..c },
        )
        &&& after == (AppState { connections: after.connections, ..self })
        &&& exists|notes: Seq<(u64, ServerMsg)>|
            {
                &&& #[trigger] sends_to(out, notes)
                &&& delivers(
                    notes,
                    after.connections@,
                    |id: u64, c: ConnInfo| id != s.conn_id && (sees(c, pos) || saw(c, old)),
                    |c: ConnInfo, m: ServerMsg|
                        if sees(c, pos) {
                            says_cursor(m, s.user_id, self.name_of(s.user_id), pos, color)
                        } else {
                            says_left(m, s.user_id)
                        },
                )
            }
    }

    /// Notes where a cursor is, and tells those whom it concerns.
    pub fn point(&mut self, s: &Session, pos: WorldCoords, color: Rgb) -> (out: Vec<Outgoing>)
        ensures
            old(self).points(*s, pos, color, out@, *final(self)),
    {
        broadcast use group_hash_axioms;

        let conn_id: u64 = s.conn_id;
        let mut old_pos: Option<WorldCoords> = None;
        if let Some(mut info) = self.connections.remove(&conn_id) {
            old_pos = info.cursor;
            info.cursor = Some(pos);
            info.color = color;
            self.connections.insert(conn_id, info);
        }
        assert(self.connections@ =~= with_connection(
            old(self).connections@,
            conn_id,
            |c: ConnInfo| ConnInfo { cursor: Some(pos), color, ..c },
        ));
        let name = self.username_of(s.user_id);
        let ghost want = |id: u64, c: ConnInfo|
            id != s.conn_id && (sees(c, pos) || saw(c, old_pos));
        let ghost says = |c: ConnInfo, m: ServerMsg|
            if sees(c, pos) {
                says_cursor(m, s.user_id, name@, pos, color)
            } else {
                says_left(m, s.user_id)
            };
        let ids = keys_of(&self.connections);
        let mut notes: Vec<(u64, ServerMsg)> = Vec::new();
        let mut i: usize = 0;
        while i < ids.len()
            invariant
                i <= ids@.len(),
                conn_id == s.conn_id,
                ids@.no_duplicates(),
                forall|k: u64| #[trigger] ids@.contains(k) <==> self.connections@.contains_key(k),
                want == (|id: u64, c: ConnInfo|
                    id != s.conn_id && (sees(c, pos) || saw(c, old_pos))),
                says == (|c: ConnInfo, m: ServerMsg|
                    if sees(c, pos) {
                        says_cursor(m, s.user_id, name@, pos, color)
                    } else {
                        says_left(m, s.user_id)
                    }),
                sent_to_first(notes@, self.connections@, ids@, i as int, want, says),
            decreases ids@.len() - i,
        {
            let ghost before = notes@;
            let id: u64 = ids[i];
            assert(ids@.contains(ids@[i as int]));
            if id != conn_id {
                if let Some(c) = self.connections.get(&id) {
                    let now_visible = sees_at(c, pos);
                    let was_visible = match old_pos {
                        Some(p) => sees_at(c, p),
                        None => false,
                    };
                    if now_visible {
                        notes.push(
                            (
                                id,
                                ServerMsg::CursorUpdate {
                                    user_id: s.user_id,
                                    name: name.clone(),
                                    pos,
                                    color,
                                },
                            ),
                        );
                    } else if was_visible {
                        notes.push((id, ServerMsg::CursorLeft { user_id: s.user_id }));
                    }
                }
            }
            proof {
                lemma_sent_step(before, notes@, self.connections@, ids@, i as int, want, says);
            }
            i = i + 1;
        }
        proof {
            lemma_sent_all(notes@, self.connections@, ids@, want, says);
        }
        let out = to_all(notes);
        proof {
            assert(sends_to(out@, notes@));
            assert(old_pos == old(self).old_cursor(conn_id));
            assert(name@ == old(self).name_of(s.user_id));
        }
        out
    }
}

/// Every step of the chunks that are asked for from afar is at least one.
pub open spec fn steps_positive(entries: Seq<(ChunkCoords, u8)>) -> bool {
    forall|i: int| 0 <= i < entries.len() ==> (#[trigger] entries[i]).1 != 0
}

impl AppState {
    /// The message can be worked on: there is a number for what it brings, and
    /// it asks for nothing that there is not.
    pub open spec fn can_handle(self, s: Session, msg: ClientMsg, at: Moment) -> bool {
        match msg {
            ClientMsg::SetCellBatch { commit, .. } => commit ==> {
                &&& self.can_act()
                &&& countable(self.authors_count@, s.user_id)
            },
            ClientMsg::RestoreCellBatch { cells } => {
                &&& self.can_act()
                &&& olds_countable(self.authors_count@, self.hot(), cells@)
            },
            ClientMsg::FetchLodBatch { entries } => steps_positive(entries@),
            ClientMsg::Login { .. } => {
                &&& self.number_in_range(s.anon_name@)
                &&& failures(self.login_throttle@, s.ip@).0 < u32::MAX
                &&& at.now + 60 <= u64::MAX
            },
            ClientMsg::Logout => self.next_uid < u32::MAX,
            _ => true,
        }
    }

    /// `after` is `self` once a message of session `s`, that becomes `s2`, has
    /// been worked on, and `out` is sent.
    pub open spec fn handles(
        self,
        s: Session,
        msg: ClientMsg,
        at: Moment,
        out: Seq<Outgoing>,
        s2: Session,
        after: AppState,
    ) -> bool {
        match msg {
            ClientMsg::SetCellBatch { cells, commit } => {
                &&& s2 == s
                &&& exists|ms: Seq<ServerMsg>|
                    {
                        &&& #[trigger] sends_back(out, ms)
                        &&& self.answers_set(
                            s.user_id,
                            cells@,
                            commit,
                            at.refilled,
                            at.instant,
                            at.now,
                            ms,
                            after,
                        )
                    }
            },
            ClientMsg::RestoreCellBatch { cells } => {
                &&& s2 == s
                &&& exists|ms: Seq<ServerMsg>|
                    {
                        &&& #[trigger] sends_back(out, ms)
                        &&& self.restores_cells(s.user_id, cells@, at.now, ms, after)
                    }
            },
            ClientMsg::FetchChunkBatch { chunks } => {
                &&& s2 == s
                &&& after == self
                &&& out.len() == 1
                &&& out[0] matches Outgoing::Back(m) && self.tells_chunks(chunks@, m)
            },
            ClientMsg::FetchLodBatch { entries } => {
                &&& s2 == s
                &&& after == self
                &&& out.len() == 1
                &&& out[0] matches Outgoing::Back(m) && self.tells_lod(entries@, m)
            },
            ClientMsg::FetchStats => {
                &&& s2 == s
                &&& after == self
                &&& out.len() == 1
                &&& out[0] matches Outgoing::All(m) && self.tells_stats(m)
            },
            ClientMsg::FetchRegions => s2 == s && after == self && out.len() == 0,
            ClientMsg::AddRegion { bounds, label } => s2 == s && self.protects(
                s,
                bounds,
                label@,
                out,
                after,
            ),
            ClientMsg::RemoveRegion { id } => s2 == s && self.gives_up(id, s.user_id, out, after),
            ClientMsg::Login { username, password } => {
                &&& out.len() == 1
                &&& out[0] matches Outgoing::Back(m) && self.logs_in(
                    s,
                    username@,
                    password@,
                    at.now,
                    m,
                    s2,
                    after,
                )
            },
            ClientMsg::Logout => exists|m: Option<ServerMsg>|
                {
                    &&& #[trigger] self.logs_out(s, at.token@, m, s2, after)
                    &&& match m {
                        Some(w) => out == seq![Outgoing::Back(w)],
                        None => out.len() == 0,
                    }
                },
            ClientMsg::UpdateViewport(rect) => s2 == s && self.shows(s.conn_id, rect, out, after),
            ClientMsg::UpdateCursor { pos, color } => s2 == s && self.points(
                s,
                pos,
                color,
                out,
                after,
            ),
        }
    }

    /// Works on one message of a client.
    pub fn handle_message(&mut self, s: &mut Session, msg: ClientMsg, at: Moment) -> (out: Vec<
        Outgoing,
    >)
        requires
            old(self).wf(),
            old(self).can_handle(*old(s), msg, at),
        ensures
            final(self).wf(),
            old(self).handles(*old(s), msg, at, out@, *final(s), *final(self)),
    {
        match msg {
            ClientMsg::SetCellBatch { cells, commit } => {
                let ms = self.apply_set_cell_batch(
                    s.user_id,
                    &cells,
                    commit,
                    at.refilled,
                    at.instant,
                    at.now,
                );
                let out = back_all(ms);
                assert(sends_back(out@, ms@));
                out
            },
            ClientMsg::RestoreCellBatch { cells } => {
                let ms = self.apply_restore_cell_batch(s.user_id, &cells, at.now);
                let out = back_all(ms);
                assert(sends_back(out@, ms@));
                out
            },
            ClientMsg::FetchChunkBatch { chunks } => one(
                Outgoing::Back(self.fetch_chunks(&chunks)),
            ),
            ClientMsg::FetchLodBatch { entries } => one(Outgoing::Back(self.fetch_lod(&entries))),
            ClientMsg::FetchStats => one(Outgoing::All(self.stats())),
            ClientMsg::FetchRegions => Vec::new(),
            ClientMsg::AddRegion { bounds, label } => self.protect(s, bounds, label.as_str()),
            ClientMsg::RemoveRegion { id } => self.give_up(id, s.user_id),
            ClientMsg::Login { username, password } => {
                let m = self.log_in(s, username.as_str(), password.as_str(), at.now);
                one(Outgoing::Back(m))
            },
            ClientMsg::Logout => {
                let m = self.log_out(s, at.token);
                match m {
                    Some(w) => one(Outgoing::Back(w)),
                    None => Vec::new(),
                }
            },
            ClientMsg::UpdateViewport(rect) => self.show(s.conn_id, rect),
            ClientMsg::UpdateCursor { pos, color } => self.point(s, pos, color),
        }
    }
}

fn sees_at(c: &ConnInfo, pos: WorldCoords) -> (r: bool)
    ensures
        r == sees(*c, pos),
{
    match c.viewport {
        Some(r) => r.contains(pos),
        None => true,
    }
}

} // verus!
