//! What the server stores: cells, regions, accounts, and the actions that
//! change them.

use std::collections::HashMap;
use vstd::prelude::*;

use crate::color::Rgb;
use crate::coords::{ChunkCoords, ChunkLocalCoords, WorldCoords, WorldRect};
use crate::msg::CellUpdateEntry;

verus! {

/// A character on the board.
#[derive(Debug, Clone, Copy, PartialEq, Eq, Structural)]
pub struct StoredChunkCell {
    pub local: ChunkLocalCoords,
    pub ch: char,
    pub color: Rgb,
    pub author_id: u32,
    pub ts: i64,
}

/// A protected part of the board.
#[derive(Debug, Clone)]
pub struct StoredRegion {
    pub id: u32,
    pub bounds: WorldRect,
    pub label: String,
    pub owner_id: u32,
}

#[derive(Debug, Clone)]
pub struct UserAccount {
    pub user_id: u32,
    pub username: String,
    pub original_anon_name: String,
    pub password_hash: Option<String>,
    pub session_token: String,
    pub is_anonymous: bool,
    pub protected_cells: u32,
}

/// The cells of one chunk.
#[derive(Debug, Clone)]
pub struct StoredChunk {
    pub coords: ChunkCoords,
    pub cells: Vec<StoredChunkCell>,
}

/// The whole board at one moment.
#[derive(Debug, Clone)]
pub struct WorldSnapshot {
    pub based_on_segment_id: u64,
    pub next_rid: u32,
    pub next_uid: u32,
    pub total_cells: u32,
    pub users: Vec<UserAccount>,
    pub regions: Vec<StoredRegion>,
    pub authors_count: Vec<u32>,
    pub chunks: Vec<StoredChunk>,
}

/// What one cell was, and what it became.
#[derive(Debug, Clone, Copy, PartialEq, Eq, Structural)]
pub struct CellChange {
    pub pos: WorldCoords,
    pub old: Option<StoredChunkCell>,
    pub new: Option<StoredChunkCell>,
}

/// Changes that one author made together.
#[derive(Debug, Clone)]
pub struct Action {
    pub action_id: u64,
    pub author_id: u32,
    pub ts: i64,
    pub changes: Vec<CellChange>,
}

/// A stretch of the log, as it is written to disk.
#[derive(Debug, Clone)]
pub struct Segment {
    pub segment_id: u64,
    pub prev_segment_id: Option<u64>,
    pub new_users: HashMap<u32, UserAccount>,
    pub new_regions: HashMap<u32, StoredRegion>,
    pub actions: Vec<Action>,
}

/// What the log is told of.
pub enum SegmentEvent {
    Action(Action),
    UserUpsert(UserAccount),
    RegionUpsert(StoredRegion),
    RegionRemove(u32),
}

impl StoredRegion {
    pub fn duplicate(&self) -> (r: Self)
        ensures
            r == *self,
    {
        StoredRegion {
            id: self.id,
            bounds: self.bounds,
            label: self.label.clone(),
            owner_id: self.owner_id,
        }
    }
}

impl UserAccount {
    pub fn duplicate(&self) -> (r: Self)
        ensures
            r == *self,
    {
        UserAccount {
            user_id: self.user_id,
            username: self.username.clone(),
            original_anon_name: self.original_anon_name.clone(),
            password_hash: match &self.password_hash {
                Some(h) => Some(h.clone()),
                None => None,
            },
            session_token: self.session_token.clone(),
            is_anonymous: self.is_anonymous,
            protected_cells: self.protected_cells,
        }
    }
}

/// What an action says, with its changes as a sequence.
#[verifier::ext_equal]
pub struct ActionView {
    pub action_id: u64,
    pub author_id: u32,
    pub ts: i64,
    pub changes: Seq<CellChange>,
}

impl View for Action {
    type V = ActionView;

    open spec fn view(&self) -> ActionView {
        ActionView {
            action_id: self.action_id,
            author_id: self.author_id,
            ts: self.ts,
            changes: self.changes@,
        }
    }
}

impl Action {
    pub fn duplicate(&self) -> (r: Self)
        ensures
            r@ == self@,
    {
        let mut changes: Vec<CellChange> = Vec::new();
        changes.extend_from_slice(self.changes.as_slice());
        assert(changes@ =~= self.changes@);
        Action { action_id: self.action_id, author_id: self.author_id, ts: self.ts, changes }
    }
}

/// What the log is told of, with actions as their views.
pub enum EventView {
    Action(ActionView),
    UserUpsert(UserAccount),
    RegionUpsert(StoredRegion),
    RegionRemove(u32),
}

impl View for SegmentEvent {
    type V = EventView;

    open spec fn view(&self) -> EventView {
        match self {
            SegmentEvent::Action(a) => EventView::Action(a@),
            SegmentEvent::UserUpsert(u) => EventView::UserUpsert(*u),
            SegmentEvent::RegionUpsert(r) => EventView::RegionUpsert(*r),
            SegmentEvent::RegionRemove(id) => EventView::RegionRemove(*id),
        }
    }
}

impl CellChange {
    /// The news of the change: the new cell where there is one, else a cleared
    /// place in the name of the action's author.
    pub open spec fn update_entry(self, author_id: u32, ts: i64) -> CellUpdateEntry {
        match self.new {
            Some(c) => CellUpdateEntry {
                pos: self.pos,
                ch: Some(c.ch),
                color: c.color,
                ts: c.ts,
                author_id: c.author_id,
            },
            None => CellUpdateEntry {
                pos: self.pos,
                ch: None,
                color: Rgb(0, 0, 0),
                ts,
                author_id,
            },
        }
    }

    pub fn to_update_entry(&self, action: &Action) -> (r: CellUpdateEntry)
        ensures
            r == self.update_entry(action.author_id, action.ts),
    {
        match &self.new {
            Some(c) => CellUpdateEntry {
                pos: self.pos,
                ch: Some(c.ch),
                color: c.color,
                ts: c.ts,
                author_id: c.author_id,
            },
            None => CellUpdateEntry {
                pos: self.pos,
                ch: None,
                color: Rgb(0, 0, 0),
                ts: action.ts,
                author_id: action.author_id,
            },
        }
    }
}

} // verus!
