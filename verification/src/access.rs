//! Edits that clients ask for.

use vstd::prelude::*;
use vstd::string::*;

use crate::color::Rgb;
use crate::coords::{board_clamp, WorldCoords};
use crate::edit::{authors_countable, countable, Update};
use crate::model::{Action, ActionView, CellChange, StoredChunkCell, StoredRegion};
use crate::msg::{CellUpdateEntry, CellWrite, RestoreCoord, ServerMsg};
use crate::rate::capped;
use crate::state::AppState;

verus! {

/// The cell of the board nearest to `p`.
pub open spec fn on_board(p: WorldCoords) -> WorldCoords {
    WorldCoords { x: board_clamp(p.x as int) as i16, y: board_clamp(p.y as int) as i16 }
}

/// Why an edit in `r` is refused.
pub open spec fn refusal(r: StoredRegion) -> Seq<char> {
    "Can't edit protected region: "@ + r.label@
}

/// Some region with `pos` in it belongs to `user_id`, or no region has `pos` in
/// it.
pub open spec fn may_edit(regions: Map<u32, StoredRegion>, user_id: u32, pos: WorldCoords) -> bool {
    ||| forall|id: u32| #[trigger] regions.contains_key(id) ==> !regions[id].bounds.has(pos)
    ||| exists|id: u32| #[trigger]
        regions.contains_key(id) && regions[id].bounds.has(pos) && regions[id].owner_id == user_id
}

/// `m` refuses an edit at `pos`, because it lies in somebody else's region.
pub open spec fn refuses(
    regions: Map<u32, StoredRegion>,
    user_id: u32,
    pos: WorldCoords,
    m: ServerMsg,
) -> bool {
    exists|id: u32| #[trigger]
        regions.contains_key(id) && regions[id].bounds.has(pos) && regions[id].owner_id != user_id
            && (m matches ServerMsg::Denied { pos: p, reason } && p == pos && reason@ == refusal(
            regions[id],
        ))
}

/// What `user_id` writes for `c` at `now`.
pub open spec fn written(user_id: u32, now: u64, c: CellWrite) -> Update {
    let pos = on_board(c.pos);
    (
        pos,
        match c.ch {
            Some(ch) => Some(
                StoredChunkCell {
                    local: pos.local(),
                    ch,
                    color: c.color,
                    author_id: user_id,
                    ts: now as i64,
                },
            ),
            None => None,
        },
    )
}

/// Of `cells`, those that may be written are in `updates`, and for the others
/// there is a refusal in `denials`, both in order. Where regions overlap,
/// either may happen.
pub open spec fn sifted(
    regions: Map<u32, StoredRegion>,
    user_id: u32,
    now: u64,
    cells: Seq<CellWrite>,
    updates: Seq<Update>,
    denials: Seq<ServerMsg>,
) -> bool
    decreases cells.len(),
{
    if cells.len() == 0 {
        updates.len() == 0 && denials.len() == 0
    } else {
        let c = cells.last();
        let rest = cells.drop_last();
        ||| {
            &&& may_edit(regions, user_id, on_board(c.pos))
            &&& updates.len() > 0
            &&& updates.last() == written(user_id, now, c)
            &&& sifted(regions, user_id, now, rest, updates.drop_last(), denials)
        }
        ||| {
            &&& denials.len() > 0
            &&& refuses(regions, user_id, on_board(c.pos), denials.last())
            &&& sifted(regions, user_id, now, rest, updates, denials.drop_last())
        }
    }
}

/// The last change at `pos` that is still in memory; of several in one action,
/// the first.
pub open spec fn latest_change(hot: Seq<ActionView>, pos: WorldCoords) -> Option<CellChange>
    decreases hot.len(),
{
    if hot.len() == 0 {
        None
    } else {
        match first_change(hot.last().changes, pos) {
            Some(c) => Some(c),
            None => latest_change(hot.drop_last(), pos),
        }
    }
}

/// The first of `changes` at `pos`.
pub open spec fn first_change(changes: Seq<CellChange>, pos: WorldCoords) -> Option<CellChange>
    decreases changes.len(),
{
    if changes.len() == 0 {
        None
    } else if changes[0].pos == pos {
        Some(changes[0])
    } else {
        first_change(changes.drop_first(), pos)
    }
}

/// Of `cells`, those that may be written and have a change in memory are in
/// `updates` with what they held before that change; for those that may not
/// there is a refusal in `denials`, both in order.
pub open spec fn restored(
    regions: Map<u32, StoredRegion>,
    hot: Seq<ActionView>,
    user_id: u32,
    cells: Seq<RestoreCoord>,
    updates: Seq<Update>,
    denials: Seq<ServerMsg>,
) -> bool
    decreases cells.len(),
{
    if cells.len() == 0 {
        updates.len() == 0 && denials.len() == 0
    } else {
        let pos = on_board(cells.last().pos);
        let rest = cells.drop_last();
        ||| {
            &&& may_edit(regions, user_id, pos)
            &&& match latest_change(hot, pos) {
                Some(c) => {
                    &&& updates.len() > 0
                    &&& updates.last() == (pos, c.old)
                    &&& restored(regions, hot, user_id, rest, updates.drop_last(), denials)
                },
                None => restored(regions, hot, user_id, rest, updates, denials),
            }
        }
        ||| {
            &&& denials.len() > 0
            &&& refuses(regions, user_id, pos, denials.last())
            &&& restored(regions, hot, user_id, rest, updates, denials.drop_last())
        }
    }
}

/// The news of an update that is shown but not kept.
pub open spec fn passing_entry(u: Update, author_id: u32, now: u64) -> CellUpdateEntry {
    CellUpdateEntry {
        pos: u.0,
        ch: match u.1 {
            Some(c) => Some(c.ch),
            None => None,
        },
        color: match u.1 {
            Some(c) => c.color,
            None => Rgb(0, 0, 0),
        },
        ts: now as i64,
        author_id,
    }
}

proof fn lemma_sifted_update(
    regions: Map<u32, StoredRegion>,
    user_id: u32,
    now: u64,
    cells: Seq<CellWrite>,
    c: CellWrite,
    updates: Seq<Update>,
    denials: Seq<ServerMsg>,
)
    requires
        sifted(regions, user_id, now, cells, updates, denials),
        may_edit(regions, user_id, on_board(c.pos)),
    ensures
        sifted(
            regions,
            user_id,
            now,
            cells.push(c),
            updates.push(written(user_id, now, c)),
            denials,
        ),
{
    assert(cells.push(c).drop_last() =~= cells);
    assert(updates.push(written(user_id, now, c)).drop_last() =~= updates);
}

proof fn lemma_sifted_denial(
    regions: Map<u32, StoredRegion>,
    user_id: u32,
    now: u64,
    cells: Seq<CellWrite>,
    c: CellWrite,
    updates: Seq<Update>,
    denials: Seq<ServerMsg>,
    m: ServerMsg,
)
    requires
        sifted(regions, user_id, now, cells, updates, denials),
        refuses(regions, user_id, on_board(c.pos), m),
    ensures
        sifted(regions, user_id, now, cells.push(c), updates, denials.push(m)),
{
    assert(cells.push(c).drop_last() =~= cells);
    assert(denials.push(m).drop_last() =~= denials);
}

impl AppState {
    /// The news waiting for the next round, oldest first.
    pub open spec fn queue(&self) -> Seq<(CellUpdateEntry, Seq<char>)> {
        self.cell_update_buffer@.map_values(|e: (CellUpdateEntry, String)| (e.0, e.1@))
    }

    /// The queue aside, the states are the same.
    pub open spec fn same_but_queue(self, other: AppState) -> bool {
        self == (AppState { cell_update_buffer: self.cell_update_buffer, ..other })
    }

    /// Whether `user_id` may write at `pos`; if not, the refusal. Where regions
    /// overlap, any of them decides.
    pub fn check_region_access(&self, user_id: u32, pos: WorldCoords) -> (r: Option<ServerMsg>)
        ensures
            match r {
                None => may_edit(self.regions@, user_id, pos),
                Some(m) => refuses(self.regions@, user_id, pos, m),
            },
    {
        match self.find_region_at(pos) {
            Some(region) => {
                if region.owner_id != user_id {
                    let mut s = "Can't edit protected region: ".to_string();
                    s.append(region.label.as_str());
                    let m = ServerMsg::Denied { pos, reason: s };
                    proof {
                        let id = choose|id: u32| #[trigger]
                            self.regions@.contains_key(id) && self.regions@[id] == region;
                        assert(self.regions@.contains_key(id));
                        assert(refuses(self.regions@, user_id, pos, m));
                    }
                    Some(m)
                } else {
                    None
                }
            },
            None => None,
        }
    }

    /// Queues the news of an action in the name of `author`.
    pub fn queue_action_for_broadcast(&mut self, action: &Action, author: &str)
        ensures
            final(self).same_but_queue(*old(self)),
            final(self).queue() == old(self).queue() + action.changes@.map_values(
                |c: CellChange| (c.update_entry(action.author_id, action.ts), author@),
            ),
    {
        let ghost news = action.changes@.map_values(
            |c: CellChange| (c.update_entry(action.author_id, action.ts), author@),
        );
        let mut i: usize = 0;
        assert(self.queue() =~= old(self).queue() + news.take(0));
        while i < action.changes.len()
            invariant
                i <= action.changes@.len(),
                news == action.changes@.map_values(
                    |c: CellChange| (c.update_entry(action.author_id, action.ts), author@),
                ),
                self.same_but_queue(*old(self)),
                self.queue() == old(self).queue() + news.take(i as int),
            decreases action.changes@.len() - i,
        {
            let ghost before = *self;
            self.queue_cell_update(action.changes[i].to_update_entry(action), author.to_string());
            assert(self.queue() =~= before.queue().push(news[i as int]));
            assert(news.take(i + 1) =~= news.take(i as int).push(news[i as int]));
            i = i + 1;
        }
        assert(news.take(i as int) =~= news);
    }

    /// Queues the news of updates that are shown but not kept.
    pub fn broadcast_transient_updates(
        &mut self,
        author_id: u32,
        updates: &Vec<(WorldCoords, Option<StoredChunkCell>)>,
        author: &str,
        now: u64,
    )
        ensures
            final(self).same_but_queue(*old(self)),
            final(self).queue() == old(self).queue() + updates@.map_values(
                |u: Update| (passing_entry(u, author_id, now), author@),
            ),
    {
        let ghost news = updates@.map_values(
            |u: Update| (passing_entry(u, author_id, now), author@),
        );
        let mut i: usize = 0;
        assert(self.queue() =~= old(self).queue() + news.take(0));
        while i < updates.len()
            invariant
                i <= updates@.len(),
                news == updates@.map_values(
                    |u: Update| (passing_entry(u, author_id, now), author@),
                ),
                self.same_but_queue(*old(self)),
                self.queue() == old(self).queue() + news.take(i as int),
            decreases updates@.len() - i,
        {
            let ghost before = *self;
            let (pos, cell) = updates[i];
            let entry = CellUpdateEntry {
                pos,
                ch: match cell {
                    Some(c) => Some(c.ch),
                    None => None,
                },
                color: match cell {
                    Some(c) => c.color,
                    None => Rgb(0, 0, 0),
                },
                ts: now as i64,
                author_id,
            };
            self.queue_cell_update(entry, author.to_string());
            assert(self.queue() =~= before.queue().push(news[i as int]));
            assert(news.take(i + 1) =~= news.take(i as int).push(news[i as int]));
            i = i + 1;
        }
        assert(news.take(i as int) =~= news);
    }

    /// Of `cells`, what may be written, and the refusals for the rest.
    fn sift(&self, user_id: u32, cells: &Vec<CellWrite>, now: u64) -> (r: (
        Vec<(WorldCoords, Option<StoredChunkCell>)>,
        Vec<ServerMsg>,
    ))
        ensures
            sifted(self.regions@, user_id, now, cells@, r.0@, r.1@),
            forall|i: int|
                0 <= i < r.0@.len() && (#[trigger] r.0@[i]).1 is Some ==> r.0@[i].1->0.author_id
                    == user_id,
    {
        let mut updates: Vec<(WorldCoords, Option<StoredChunkCell>)> = Vec::new();
        let mut denials: Vec<ServerMsg> = Vec::new();
        let mut i: usize = 0;
        assert(cells@.take(0) =~= Seq::<CellWrite>::empty());
        while i < cells.len()
            invariant
                i <= cells@.len(),
                sifted(self.regions@, user_id, now, cells@.take(i as int), updates@, denials@),
                forall|k: int|
                    0 <= k < updates@.len() && (#[trigger] updates@[k]).1 is Some
                        ==> updates@[k].1->0.author_id == user_id,
            decreases cells@.len() - i,
        {
            let c = cells[i];
            let pos = c.pos.clamped();
            let ghost done = cells@.take(i as int);
            let ghost u0 = updates@;
            let ghost d0 = denials@;
            match self.check_region_access(user_id, pos) {
                Some(m) => {
                    denials.push(m);
                    proof {
                        lemma_sifted_denial(self.regions@, user_id, now, done, c, u0, d0, m);
                    }
                },
                None => {
                    let (_, local) = pos.to_chunk();
                    let new_cell = match c.ch {
                        Some(ch) => Some(
                            StoredChunkCell {
                                local,
                                ch,
                                color: c.color,
                                author_id: user_id,
                                ts: now as i64,
                            },
                        ),
                        None => None,
                    };
                    updates.push((pos, new_cell));
                    proof {
                        lemma_sifted_update(self.regions@, user_id, now, done, c, u0, d0);
                    }
                },
            }
            assert(cells@.take(i + 1) =~= done.push(c));
            i = i + 1;
        }
        assert(cells@.take(i as int) =~= cells@);
        (updates, denials)
    }

    /// `after` is this state once `user_id` has asked for `cells` to be written,
    /// and is answered `out`.
    pub open spec fn sets_cells(
        self,
        user_id: u32,
        cells: Seq<CellWrite>,
        commit: bool,
        now: u64,
        out: Seq<ServerMsg>,
        after: AppState,
    ) -> bool {
        exists|updates: Seq<Update>|
            {
                &&& #[trigger] sifted(self.regions@, user_id, now, cells, updates, out)
                &&& if commit {
                    exists|action: ActionView, mid: AppState|
                        {
                            &&& #[trigger] self.performs(user_id, updates, now, action, mid)
                            &&& after.same_but_queue(mid)
                            &&& after.queue() == self.queue() + action.changes.map_values(
                                |c: CellChange|
                                    (c.update_entry(user_id, now as i64), self.name_of(user_id)),
                            )
                        }
                } else {
                    &&& after.same_but_queue(self)
                    &&& after.queue() == self.queue() + updates.map_values(
                        |u: Update|
                            (passing_entry(u, user_id, now), self.name_of(user_id)),
                    )
                }
            }
    }

    /// Writes what `user_id` asks for, as far as it may. With `commit`, it is
    /// kept; else it is only shown to the others.
    pub fn set_cells(
        &mut self,
        user_id: u32,
        cells: &Vec<CellWrite>,
        commit: bool,
        now: u64,
    ) -> (out: Vec<ServerMsg>)
        requires
            old(self).wf(),
            commit ==> old(self).can_act() && countable(old(self).authors_count@, user_id),
        ensures
            final(self).wf(),
            old(self).sets_cells(user_id, cells@, commit, now, out@, *final(self)),
    {
        let (updates, denials) = self.sift(user_id, cells, now);
        let author = self.username_of(user_id);
        let ghost us = updates@;
        if commit {
            let action = self.apply_action_batch(user_id, updates, now);
            let ghost mid = *self;
            self.queue_action_for_broadcast(&action, author.as_str());
            proof {
                assert(old(self).performs(user_id, us, now, action@, mid));
                assert(action@.changes.map_values(
                    |c: CellChange|
                        (c.update_entry(user_id, now as i64), old(self).name_of(user_id)),
                ) =~= action.changes@.map_values(
                    |c: CellChange| (c.update_entry(action.author_id, action.ts), author@),
                ));
            }
        } else {
            self.broadcast_transient_updates(user_id, &updates, author.as_str(), now);
            assert(us.map_values(
                |u: Update| (passing_entry(u, user_id, now), old(self).name_of(user_id)),
            ) =~= us.map_values(|u: Update| (passing_entry(u, user_id, now), author@)));
        }
        assert(sifted(old(self).regions@, user_id, now, cells@, us, denials@));
        denials
    }

    /// Answers a request to write `cells`: refused as a whole if they are too
    /// many for the bucket of `user_id`, else written as far as they may be.
    pub fn apply_set_cell_batch(
        &mut self,
        user_id: u32,
        cells: &Vec<CellWrite>,
        commit: bool,
        refilled: u64,
        instant: u64,
        now: u64,
    ) -> (out: Vec<ServerMsg>)
        requires
            old(self).wf(),
            commit ==> old(self).can_act() && countable(old(self).authors_count@, user_id),
        ensures
            final(self).wf(),
            old(self).answers_set(user_id, cells@, commit, refilled, instant, now, out@, *final(self)),
    {
        match self.check_cell_rate(user_id, cells.len() as u64, refilled, instant) {
            Err(e) => {
                let mut positions: Vec<WorldCoords> = Vec::new();
                let mut i: usize = 0;
                while i < cells.len()
                    invariant
                        i <= cells@.len(),
                        positions@.len() == i,
                        forall|k: int|
                            0 <= k < i ==> #[trigger] positions@[k] == on_board(cells@[k].pos),
                    decreases cells@.len() - i,
                {
                    positions.push(cells[i].pos.clamped());
                    i = i + 1;
                }
                assert(positions@ =~= cells@.map_values(|c: CellWrite| on_board(c.pos)));
                let mut out: Vec<ServerMsg> = Vec::new();
                out.push(ServerMsg::DeniedBatch { positions, reason: e.to_text() });
                out
            },
            Ok(_) => {
                let ghost mid = *self;
                let out = self.set_cells(user_id, cells, commit, now);
                assert(mid.sets_cells(user_id, cells@, commit, now, out@, *self));
                out
            },
        }
    }

    /// `after` is this state once a request of `user_id` to write `cells` has
    /// been answered `out`.
    pub open spec fn answers_set(
        self,
        user_id: u32,
        cells: Seq<CellWrite>,
        commit: bool,
        refilled: u64,
        instant: u64,
        now: u64,
        out: Seq<ServerMsg>,
        after: AppState,
    ) -> bool {
        let free = user_id == 0 || cells.len() == 0;
        if free || capped(refilled) >= cells.len() {
            exists|mid: AppState|
                {
                    &&& #[trigger] mid.sets_cells(user_id, cells, commit, now, out, after)
                    &&& mid == (AppState { cell_rate: mid.cell_rate, ..self })
                    &&& mid.cell_rate@ == (if free {
                        self.cell_rate@
                    } else {
                        self.cell_rate@.insert(
                            user_id,
                            ((capped(refilled) - cells.len()) as u64, instant),
                        )
                    })
                }
        } else {
            &&& after == (AppState { cell_rate: after.cell_rate, ..self })
            &&& after.cell_rate@ == self.cell_rate@.insert(user_id, (capped(refilled), instant))
            &&& out.len() == 1
            &&& out[0] matches ServerMsg::DeniedBatch { positions, reason } && positions@
                == cells.map_values(|c: CellWrite| on_board(c.pos)) && reason@
                == "rate limited: slow down"@
        }
    }
}

proof fn lemma_restored_step(
    regions: Map<u32, StoredRegion>,
    hot: Seq<ActionView>,
    user_id: u32,
    cells: Seq<RestoreCoord>,
    c: RestoreCoord,
    updates: Seq<Update>,
    denials: Seq<ServerMsg>,
)
    requires
        restored(regions, hot, user_id, cells, updates, denials),
    ensures
        may_edit(regions, user_id, on_board(c.pos)) ==> restored(
            regions,
            hot,
            user_id,
            cells.push(c),
            match latest_change(hot, on_board(c.pos)) {
                Some(ch) => updates.push((on_board(c.pos), ch.old)),
                None => updates,
            },
            denials,
        ),
        forall|m: ServerMsg| #[trigger]
            refuses(regions, user_id, on_board(c.pos), m) ==> restored(
                regions,
                hot,
                user_id,
                cells.push(c),
                updates,
                denials.push(m),
            ),
{
    assert(cells.push(c).drop_last() =~= cells);
    match latest_change(hot, on_board(c.pos)) {
        Some(ch) => {
            assert(updates.push((on_board(c.pos), ch.old)).drop_last() =~= updates);
        },
        None => {},
    }
    assert forall|m: ServerMsg| #[trigger] refuses(regions, user_id, on_board(c.pos), m) implies restored(
        regions,
        hot,
        user_id,
        cells.push(c),
        updates,
        denials.push(m),
    ) by {
        assert(denials.push(m).drop_last() =~= denials);
    }
}

proof fn lemma_first_change(changes: Seq<CellChange>, pos: WorldCoords, k: int)
    requires
        0 <= k <= changes.len(),
        forall|j: int| 0 <= j < k ==> (#[trigger] changes[j]).pos != pos,
    ensures
        k < changes.len() && changes[k].pos == pos ==> first_change(changes, pos) == Some(
            changes[k],
        ),
        k == changes.len() ==> first_change(changes, pos) is None,
    decreases k,
{
    if k > 0 {
        assert(changes[0].pos != pos);
        let rest = changes.drop_first();
        assert forall|j: int| 0 <= j < k - 1 implies (#[trigger] rest[j]).pos != pos by {
            assert(rest[j] == changes[j + 1]);
        }
        lemma_first_change(rest, pos, k - 1);
    }
}

fn find_change(changes: &Vec<CellChange>, pos: WorldCoords) -> (r: Option<CellChange>)
    ensures
        r == first_change(changes@, pos),
{
    let mut j: usize = 0;
    while j < changes.len()
        invariant
            j <= changes@.len(),
            forall|k: int| 0 <= k < j ==> (#[trigger] changes@[k]).pos != pos,
        decreases changes@.len() - j,
    {
        proof {
            lemma_first_change(changes@, pos, j as int);
        }
        if changes[j].pos == pos {
            return Some(changes[j]);
        }
        j = j + 1;
    }
    proof {
        lemma_first_change(changes@, pos, j as int);
    }
    None
}

/// What is put back at `cells` is by accounts that can be counted.
pub open spec fn olds_countable(
    counts: Seq<u32>,
    hot: Seq<ActionView>,
    cells: Seq<RestoreCoord>,
) -> bool {
    forall|i: int|
        0 <= i < cells.len() ==> old_countable(
            counts,
            latest_change(hot, on_board((#[trigger] cells[i]).pos)),
        )
}

/// What the change took the place of is by an account that can be counted.
pub open spec fn old_countable(counts: Seq<u32>, change: Option<CellChange>) -> bool {
    match change {
        Some(c) => c.old matches Some(cell) ==> countable(counts, cell.author_id),
        None => true,
    }
}

impl AppState {
    /// The last change at `pos` that is still in memory.
    pub fn last_change_at(&self, pos: WorldCoords) -> (r: Option<CellChange>)
        ensures
            r == latest_change(self.hot(), pos),
    {
        let ghost hot = self.hot();
        let mut n: usize = self.hot_buffer.len();
        assert(hot.take(n as int) =~= hot);
        while n > 0
            invariant
                n <= hot.len(),
                hot == self.hot(),
                latest_change(hot, pos) == latest_change(hot.take(n as int), pos),
            decreases n,
        {
            assert(hot.take(n as int).drop_last() =~= hot.take(n - 1));
            assert(hot.take(n as int).last() == self.hot_buffer@[n - 1]@);
            if let Some(c) = find_change(&self.hot_buffer[n - 1].changes, pos) {
                return Some(c);
            }
            n = n - 1;
        }
        assert(hot.take(0) =~= Seq::<ActionView>::empty());
        None
    }

    /// `after` is this state once `user_id` has asked for the last changes at
    /// `cells` to be undone, and is answered `out`.
    pub open spec fn restores_cells(
        self,
        user_id: u32,
        cells: Seq<RestoreCoord>,
        now: u64,
        out: Seq<ServerMsg>,
        after: AppState,
    ) -> bool {
        exists|updates: Seq<Update>|
            {
                &&& #[trigger] restored(self.regions@, self.hot(), user_id, cells, updates, out)
                &&& if updates.len() == 0 {
                    after == self
                } else {
                    exists|action: ActionView, mid: AppState|
                        {
                            &&& #[trigger] self.performs(user_id, updates, now, action, mid)
                            &&& after.same_but_queue(mid)
                            &&& after.queue() == self.queue() + action.changes.map_values(
                                |c: CellChange|
                                    {
                                        let e = c.update_entry(user_id, now as i64);
                                        (e, self.name_of(e.author_id))
                                    },
                            )
                        }
                }
            }
    }

    /// Of `cells`, what is to be put back, and the refusals.
    fn sift_restores(&self, user_id: u32, cells: &Vec<RestoreCoord>) -> (r: (
        Vec<(WorldCoords, Option<StoredChunkCell>)>,
        Vec<ServerMsg>,
    ))
        requires
            olds_countable(self.authors_count@, self.hot(), cells@),
        ensures
            restored(self.regions@, self.hot(), user_id, cells@, r.0@, r.1@),
            authors_countable(self.authors_count@, r.0@),
    {
        let mut updates: Vec<(WorldCoords, Option<StoredChunkCell>)> = Vec::new();
        let mut denials: Vec<ServerMsg> = Vec::new();
        let mut i: usize = 0;
        assert(cells@.take(0) =~= Seq::<RestoreCoord>::empty());
        while i < cells.len()
            invariant
                i <= cells@.len(),
                olds_countable(self.authors_count@, self.hot(), cells@),
                restored(self.regions@, self.hot(), user_id, cells@.take(i as int), updates@, denials@),
                authors_countable(self.authors_count@, updates@),
            decreases cells@.len() - i,
        {
            let c = cells[i];
            let pos = c.pos.clamped();
            proof {
                lemma_restored_step(
                    self.regions@,
                    self.hot(),
                    user_id,
                    cells@.take(i as int),
                    c,
                    updates@,
                    denials@,
                );
                assert(cells@.take(i + 1) =~= cells@.take(i as int).push(c));
            }
            match self.check_region_access(user_id, pos) {
                Some(m) => {
                    denials.push(m);
                },
                None => {
                    if let Some(change) = self.last_change_at(pos) {
                        updates.push((pos, change.old));
                    }
                },
            }
            i = i + 1;
        }
        assert(cells@.take(i as int) =~= cells@);
        (updates, denials)
    }

    /// Undoes the last changes at `cells`, as far as `user_id` may. The places
    /// get back what they held, with who wrote it and when.
    pub fn apply_restore_cell_batch(
        &mut self,
        user_id: u32,
        cells: &Vec<RestoreCoord>,
        now: u64,
    ) -> (out: Vec<ServerMsg>)
        requires
            old(self).wf(),
            old(self).can_act(),
            olds_countable(old(self).authors_count@, old(self).hot(), cells@),
        ensures
            final(self).wf(),
            old(self).restores_cells(user_id, cells@, now, out@, *final(self)),
    {
        let (updates, denials) = self.sift_restores(user_id, cells);
        let ghost us = updates@;
        assert(restored(self.regions@, self.hot(), user_id, cells@, us, denials@));
        if updates.len() > 0 {
            let action = self.apply_action_batch(user_id, updates, now);
            let ghost mid = *self;
            let ghost news = action@.changes.map_values(
                |c: CellChange|
                    {
                        let e = c.update_entry(user_id, now as i64);
                        (e, old(self).name_of(e.author_id))
                    },
            );
            let mut i: usize = 0;
            assert(self.queue() =~= old(self).queue() + news.take(0));
            while i < action.changes.len()
                invariant
                    i <= action.changes@.len(),
                    action.author_id == user_id,
                    action.ts == now as i64,
                    news == action@.changes.map_values(
                        |c: CellChange|
                            {
                                let e = c.update_entry(user_id, now as i64);
                                (e, old(self).name_of(e.author_id))
                            },
                    ),
                    mid.users == old(self).users,
                    mid.wf(),
                    self.same_but_queue(mid),
                    self.queue() == old(self).queue() + news.take(i as int),
                decreases action.changes@.len() - i,
            {
                let ghost before = *self;
                let entry = action.changes[i].to_update_entry(&action);
                let author = self.username_of(entry.author_id);
                self.queue_cell_update(entry, author);
                assert(self.queue() =~= before.queue().push(news[i as int]));
                assert(news.take(i + 1) =~= news.take(i as int).push(news[i as int]));
                i = i + 1;
            }
            assert(news.take(i as int) =~= news);
            assert(old(self).performs(user_id, us, now, action@, mid));
        }
        denials
    }
}

/// Undoing a change just made puts back what was there, with who wrote it and
/// when.
pub proof fn law_restore_finds_what_was_replaced(
    hot: Seq<ActionView>,
    action: ActionView,
    pos: WorldCoords,
    k: int,
)
    requires
        0 <= k < action.changes.len(),
        action.changes[k].pos == pos,
        forall|j: int| 0 <= j < k ==> (#[trigger] action.changes[j]).pos != pos,
    ensures
        latest_change(hot.push(action), pos) == Some(action.changes[k]),
{
    lemma_first_change(action.changes, pos, k);
    assert(hot.push(action).last() == action);
}

} // verus!
