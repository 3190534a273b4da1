//! What holds of those who ask the server for something: what is done for them,
//! what they are answered, and who else is told.

use vstd::prelude::*;

use crate::access::{first_change, latest_change, on_board, refuses, restored, sifted, written};
use crate::coords::{ChunkCoords, WorldCoords, WorldRect};
use crate::edit::{changes_of, law_last_update_wins, law_other_places_keep, updated, Update};
use crate::model::{ActionView, CellChange, StoredChunkCell, StoredRegion};
use crate::msg::{CellWrite, ClientMsg, RestoreCoord, ServerMsg};
use crate::protocol::{sends_back, Moment};
use crate::session::{Outgoing, Session};
use crate::state::AppState;
use crate::typing::{held, is_place};
use crate::world::{look, slot_of, Slot};

verus! {

/// The place lies between the two corners.
pub open spec fn within(r: WorldRect, p: WorldCoords) -> bool {
    r.a.x <= p.x && p.x <= r.b.x && r.a.y <= p.y && p.y <= r.b.y
}

/// The place is number `i` of the chunk, counted row by row.
pub open spec fn numbered(p: WorldCoords, chunk: ChunkCoords, i: int) -> bool {
    0 <= i < 1024 && p.x == 64 * chunk.x + i % 64 && p.y == 16 * chunk.y + i / 64
}

/// Somebody else protects the place.
pub open spec fn foreign(regions: Map<u32, StoredRegion>, user_id: u32, p: WorldCoords) -> bool {
    exists|id: u32| #[trigger]
        regions.contains_key(id) && within(regions[id].bounds, p) && regions[id].owner_id != user_id
}

/// The user protects the place.
pub open spec fn own(regions: Map<u32, StoredRegion>, user_id: u32, p: WorldCoords) -> bool {
    exists|id: u32| #[trigger]
        regions.contains_key(id) && within(regions[id].bounds, p) && regions[id].owner_id == user_id
}

/// The write is meant for the place: it names it, or a place off the board to
/// which it is the nearest.
pub open spec fn meant_for(c: CellWrite, p: WorldCoords) -> bool {
    p.x == held(c.pos.x as int) && p.y == held(c.pos.y as int)
}

/// The request is for more cells than are left in the bucket, which holds 200.
/// The system may write as many as it likes.
pub open spec fn too_many(user_id: u32, cells: Seq<CellWrite>, left: u64) -> bool {
    user_id != 0 && cells.len() > 0 && (cells.len() > left || cells.len() > 200)
}

/// `m` says that the place cannot be written, as it lies in the region.
pub open spec fn denies(m: Outgoing, p: WorldCoords, r: StoredRegion) -> bool {
    m matches Outgoing::Back(ServerMsg::Denied { pos, reason }) && pos == p && reason@
        == "Can't edit protected region: "@ + r.label@
}

/// The update does what the write asks for.
spec fn does(u: Update, user_id: u32, now: u64, c: CellWrite) -> bool {
    &&& meant_for(c, u.0)
    &&& u.1 is Some <==> c.ch is Some
    &&& u.1 is Some ==> u.1->0.ch == c.ch->0 && u.1->0.color == c.color && u.1->0.author_id
        == user_id && u.1->0.ts == now as i64
}

spec fn from_some(
    regions: Map<u32, StoredRegion>,
    user_id: u32,
    now: u64,
    cells: Seq<CellWrite>,
    u: Update,
) -> bool {
    &&& own(regions, user_id, u.0) || !foreign(regions, user_id, u.0)
    &&& exists|i: int| 0 <= i < cells.len() && does(u, user_id, now, #[trigger] cells[i])
}

spec fn denied_some(
    regions: Map<u32, StoredRegion>,
    user_id: u32,
    cells: Seq<CellWrite>,
    m: ServerMsg,
) -> bool {
    exists|i: int, id: u32|
        0 <= i < cells.len() && meant_for(#[trigger] cells[i], m->Denied_pos)
            && #[trigger] regions.contains_key(id) && within(regions[id].bounds, m->Denied_pos)
            && regions[id].owner_id != user_id && denies(
            Outgoing::Back(m),
            m->Denied_pos,
            regions[id],
        )
}

proof fn lemma_may_edit(regions: Map<u32, StoredRegion>, user_id: u32, p: WorldCoords)
    ensures
        crate::access::may_edit(regions, user_id, p) ==> own(regions, user_id, p) || !foreign(
            regions,
            user_id,
            p,
        ),
{
}

proof fn lemma_sources(
    regions: Map<u32, StoredRegion>,
    user_id: u32,
    now: u64,
    cells: Seq<CellWrite>,
    updates: Seq<Update>,
    denials: Seq<ServerMsg>,
)
    requires
        sifted(regions, user_id, now, cells, updates, denials),
    ensures
        forall|k: int|
            0 <= k < updates.len() ==> from_some(regions, user_id, now, cells, #[trigger] updates[k]),
        forall|k: int|
            0 <= k < denials.len() ==> (#[trigger] denials[k]) is Denied && denied_some(
                regions,
                user_id,
                cells,
                denials[k],
            ),
    decreases cells.len(),
{
    if cells.len() > 0 {
        let n = cells.len() - 1;
        let c = cells.last();
        let rest = cells.drop_last();
        let at = on_board(c.pos);
        let kept = crate::access::may_edit(regions, user_id, at) && updates.len() > 0
            && updates.last() == written(user_id, now, c) && sifted(
            regions,
            user_id,
            now,
            rest,
            updates.drop_last(),
            denials,
        );
        let (us, ds) = if kept {
            (updates.drop_last(), denials)
        } else {
            (updates, denials.drop_last())
        };
        lemma_sources(regions, user_id, now, rest, us, ds);
        lemma_may_edit(regions, user_id, at);
        assert forall|k: int| 0 <= k < updates.len() implies from_some(
            regions,
            user_id,
            now,
            cells,
            #[trigger] updates[k],
        ) by {
            if k < us.len() {
                assert(us[k] == updates[k]);
                let i = choose|i: int|
                    0 <= i < rest.len() && does(us[k], user_id, now, #[trigger] rest[i]);
                assert(does(updates[k], user_id, now, cells[i]));
            } else {
                assert(does(updates[k], user_id, now, cells[n]));
            }
        }
        assert forall|k: int| 0 <= k < denials.len() implies (#[trigger] denials[k]) is Denied
            && denied_some(regions, user_id, cells, denials[k]) by {
            if k < ds.len() {
                assert(ds[k] == denials[k]);
                let (i, id) = choose|i: int, id: u32|
                    0 <= i < rest.len() && meant_for(#[trigger] rest[i], ds[k]->Denied_pos)
                        && #[trigger] regions.contains_key(id) && within(
                        regions[id].bounds,
                        ds[k]->Denied_pos,
                    ) && regions[id].owner_id != user_id && denies(
                        Outgoing::Back(ds[k]),
                        ds[k]->Denied_pos,
                        regions[id],
                    );
                assert(meant_for(cells[i], denials[k]->Denied_pos));
            } else {
                assert(refuses(regions, user_id, at, denials[k]));
                assert(meant_for(cells[n], denials[k]->Denied_pos));
            }
        }
    }
}

proof fn lemma_kept(
    regions: Map<u32, StoredRegion>,
    user_id: u32,
    now: u64,
    cells: Seq<CellWrite>,
    updates: Seq<Update>,
    denials: Seq<ServerMsg>,
    p: WorldCoords,
    i: int,
) -> (k: int)
    requires
        sifted(regions, user_id, now, cells, updates, denials),
        0 <= i < cells.len(),
        meant_for(cells[i], p),
        !foreign(regions, user_id, p),
    ensures
        0 <= k < updates.len(),
        does(updates[k], user_id, now, cells[i]),
        (forall|j: int| i < j < cells.len() ==> !meant_for(#[trigger] cells[j], p)) ==> forall|j: int|
            k < j < updates.len() ==> (#[trigger] updates[j]).0 != p,
    decreases cells.len(),
{
    let n = cells.len() - 1;
    let c = cells.last();
    let rest = cells.drop_last();
    let at = on_board(c.pos);
    let kept = crate::access::may_edit(regions, user_id, at) && updates.len() > 0 && updates.last()
        == written(user_id, now, c) && sifted(
        regions,
        user_id,
        now,
        rest,
        updates.drop_last(),
        denials,
    );
    if i == n {
        assert(cells[n] == c);
        assert(kept);
        updates.len() - 1
    } else if kept {
        let k = lemma_kept(regions, user_id, now, rest, updates.drop_last(), denials, p, i);
        if forall|j: int| i < j < cells.len() ==> !meant_for(#[trigger] cells[j], p) {
            assert(!meant_for(cells[n], p));
            assert forall|j: int| i < j < rest.len() implies !meant_for(#[trigger] rest[j], p) by {
                assert(rest[j] == cells[j]);
            }
            assert forall|j: int| k < j < updates.len() implies (#[trigger] updates[j]).0 != p by {
                if j < updates.len() - 1 {
                    assert(updates.drop_last()[j] == updates[j]);
                }
            }
        }
        k
    } else {
        if forall|j: int| i < j < cells.len() ==> !meant_for(#[trigger] cells[j], p) {
            assert forall|j: int| i < j < rest.len() implies !meant_for(#[trigger] rest[j], p) by {
                assert(rest[j] == cells[j]);
            }
        }
        lemma_kept(regions, user_id, now, rest, updates, denials.drop_last(), p, i)
    }
}

proof fn lemma_denied(
    regions: Map<u32, StoredRegion>,
    user_id: u32,
    now: u64,
    cells: Seq<CellWrite>,
    updates: Seq<Update>,
    denials: Seq<ServerMsg>,
    p: WorldCoords,
    i: int,
) -> (k: int)
    requires
        sifted(regions, user_id, now, cells, updates, denials),
        0 <= i < cells.len(),
        meant_for(cells[i], p),
        foreign(regions, user_id, p),
        !own(regions, user_id, p),
    ensures
        0 <= k < denials.len(),
        denials[k] is Denied,
        denials[k]->Denied_pos == p,
    decreases cells.len(),
{
    let c = cells.last();
    let rest = cells.drop_last();
    let at = on_board(c.pos);
    lemma_may_edit(regions, user_id, p);
    let kept = crate::access::may_edit(regions, user_id, at) && updates.len() > 0 && updates.last()
        == written(user_id, now, c) && sifted(
        regions,
        user_id,
        now,
        rest,
        updates.drop_last(),
        denials,
    );
    if i == cells.len() - 1 {
        assert(at == p);
        denials.len() - 1
    } else if kept {
        lemma_denied(regions, user_id, now, rest, updates.drop_last(), denials, p, i)
    } else {
        lemma_denied(regions, user_id, now, rest, updates, denials.drop_last(), p, i)
    }
}

pub(crate) proof fn lemma_numbered(p: WorldCoords, chunk: ChunkCoords, i: int)
    requires
        numbered(p, chunk, i),
    ensures
        slot_of(p) == (chunk, i),
{
    assert(p.x as int / 64 == chunk.x) by (nonlinear_arith)
        requires
            p.x == 64 * chunk.x + i % 64,
    ;
    assert(p.y as int / 16 == chunk.y) by (nonlinear_arith)
        requires
            p.y == 16 * chunk.y + i / 64,
            0 <= i < 1024,
    ;
}

/// The state in which a request that is not for too many cells is sifted, and
/// what it comes to.
proof fn lemma_set(
    before: AppState,
    user_id: u32,
    cells: Seq<CellWrite>,
    commit: bool,
    at: Moment,
    ms: Seq<ServerMsg>,
    after: AppState,
) -> (updates: Seq<Update>)
    requires
        before.answers_set(user_id, cells, commit, at.refilled, at.instant, at.now, ms, after),
        !too_many(user_id, cells, at.refilled),
    ensures
        sifted(before.regions@, user_id, at.now, cells, updates, ms),
        after.world@ == (if commit {
            updated(before.world@, updates)
        } else {
            before.world@
        }),
        after.regions@ == before.regions@,
        after.connections@ == before.connections@,
        after.cell_rate@ == (if user_id == 0 || cells.len() == 0 {
            before.cell_rate@
        } else {
            before.cell_rate@.insert(
                user_id,
                (
                    ((if at.refilled < 200 {
                        at.refilled as int
                    } else {
                        200
                    }) - cells.len()) as u64,
                    at.instant,
                ),
            )
        }),
        after.queue().len() == before.queue().len() + updates.len(),
        after.queue().take(before.queue().len() as int) == before.queue(),
        forall|k: int|
            0 <= k < updates.len() ==> {
                let (e, name) = #[trigger] after.queue()[before.queue().len() + k];
                let u = updates[k];
                &&& e.pos == u.0
                &&& u.1 is None ==> e.ch is None && e.author_id == user_id && e.ts == at.now as i64
                &&& u.1 is Some ==> e.ch == Some(u.1->0.ch) && e.color == u.1->0.color
                &&& u.1 is Some && u.1->0.author_id == user_id ==> e.author_id == user_id
                &&& u.1 is Some && u.1->0.ts == at.now as i64 ==> e.ts == at.now as i64
                &&& name == before.name_of(user_id)
            },
{
    let mid = choose|mid: AppState|
        {
            &&& #[trigger] mid.sets_cells(user_id, cells, commit, at.now, ms, after)
            &&& mid == (AppState { cell_rate: mid.cell_rate, ..before })
            &&& mid.cell_rate@ == (if user_id == 0 || cells.len() == 0 {
                before.cell_rate@
            } else {
                before.cell_rate@.insert(
                    user_id,
                    ((crate::rate::capped(at.refilled) - cells.len()) as u64, at.instant),
                )
            })
        };
    assert(mid.queue() == before.queue());
    let n = before.queue().len() as int;
    if commit {
        let (updates, action, last) = choose|
            updates: Seq<Update>,
            action: ActionView,
            last: AppState,
        |
            {
                &&& #[trigger] sifted(mid.regions@, user_id, at.now, cells, updates, ms)
                &&& #[trigger] mid.performs(user_id, updates, at.now, action, last)
                &&& after.same_but_queue(last)
                &&& after.queue() == mid.queue() + action.changes.map_values(
                    |c: CellChange|
                        (c.update_entry(user_id, at.now as i64), mid.name_of(user_id)),
                )
            };
        let cs = changes_of(mid.world@, updates);
        assert forall|k: int| 0 <= k < updates.len() implies #[trigger] after.queue()[n + k] == (
            cs[k].update_entry(user_id, at.now as i64),
            before.name_of(user_id),
        ) by {}
        assert(after.queue().take(n) =~= before.queue());
        updates
    } else {
        let updates = choose|updates: Seq<Update>|
            {
                &&& #[trigger] sifted(mid.regions@, user_id, at.now, cells, updates, ms)
                &&& after.same_but_queue(mid)
                &&& after.queue() == mid.queue() + updates.map_values(
                    |u: Update|
                        (
                            crate::access::passing_entry(u, user_id, at.now),
                            mid.name_of(user_id),
                        ),
                )
            };
        assert(after.queue().take(n) =~= before.queue());
        updates
    }
}

/// A request to write, and a place of the board: where the request is for too
/// many cells, nothing is written, and it is refused with every place it was for;
/// else the place holds what the last write for it says, with who wrote it and
/// when. If somebody else protects the place, it keeps what it holds, and the
/// write is refused; and it keeps what it holds if no write is for it, or if
/// what is written is not to be kept.
pub proof fn law_write_reaches_the_board(
    before: AppState,
    s: Session,
    cells: Vec<CellWrite>,
    commit: bool,
    at: Moment,
    out: Seq<Outgoing>,
    s2: Session,
    after: AppState,
    p: WorldCoords,
    chunk: ChunkCoords,
    i: int,
    k: int,
)
    requires
        before.handles(s, ClientMsg::SetCellBatch { cells, commit }, at, out, s2, after),
        is_place(p),
        numbered(p, chunk, i),
    ensures
        s2 == s,
        after.regions@ == before.regions@,
        too_many(s.user_id, cells@, at.refilled) ==> {
            &&& after.world@ == before.world@
            &&& after.queue() == before.queue()
            &&& out.len() == 1
            &&& out[0] matches Outgoing::Back(ServerMsg::DeniedBatch { positions, reason }) && {
                &&& reason@ == "rate limited: slow down"@
                &&& positions@.len() == cells@.len()
                &&& forall|j: int|
                    0 <= j < cells@.len() ==> meant_for(cells@[j], #[trigger] positions@[j])
            }
        },
        !too_many(s.user_id, cells@, at.refilled) ==> {
            let held_before = before.world@.contains_key((chunk, i));
            let holds = after.world@.contains_key((chunk, i));
            let c = after.world@[(chunk, i)];
            let same = holds == held_before && (holds ==> c == before.world@[(chunk, i)]);
            let last = 0 <= k < cells@.len() && meant_for(cells@[k], p) && forall|j: int|
                k < j < cells@.len() ==> !meant_for(#[trigger] cells@[j], p);
            &&& !commit ==> same
            &&& (forall|j: int| 0 <= j < cells@.len() ==> !meant_for(#[trigger] cells@[j], p))
                ==> same
            &&& foreign(before.regions@, s.user_id, p) && !own(before.regions@, s.user_id, p) ==> {
                &&& same
                &&& last ==> exists|j: int|
                    0 <= j < out.len() && ((#[trigger] out[j]) matches Outgoing::Back(
                        ServerMsg::Denied { pos, .. },
                    ) && pos == p)
            }
            &&& commit && last && !foreign(before.regions@, s.user_id, p) ==> {
                &&& holds <==> cells@[k].ch is Some
                &&& holds ==> c.ch == cells@[k].ch->0 && c.color == cells@[k].color && c.author_id
                    == s.user_id && c.ts == at.now as i64 && c.local.x == i % 64 && c.local.y == i / 64
            }
            &&& forall|j: int|
                0 <= j < out.len() ==> exists|l: int, id: u32|
                    0 <= l < cells@.len() && #[trigger] before.regions@.contains_key(id)
                        && before.regions@[id].owner_id != s.user_id && (#[trigger] out[j]) is Back
                        && meant_for(#[trigger] cells@[l], out[j]->Back_0->Denied_pos) && within(
                        before.regions@[id].bounds,
                        out[j]->Back_0->Denied_pos,
                    ) && denies(out[j], out[j]->Back_0->Denied_pos, before.regions@[id])
        },
{
    lemma_numbered(p, chunk, i);
    let cs = cells@;
    let ms = choose|ms: Seq<ServerMsg>|
        {
            &&& #[trigger] sends_back(out, ms)
            &&& before.answers_set(
                s.user_id,
                cs,
                commit,
                at.refilled,
                at.instant,
                at.now,
                ms,
                after,
            )
        };
    let regions = before.regions@;
    if !too_many(s.user_id, cs, at.refilled) {
        let updates = lemma_set(before, s.user_id, cs, commit, at, ms, after);
        lemma_sources(regions, s.user_id, at.now, cs, updates, ms);
        assert forall|j: int| 0 <= j < updates.len() && slot_of((#[trigger] updates[j]).0) == slot_of(
            p,
        ) implies updates[j].0 == p by {
            let l = choose|l: int|
                0 <= l < cs.len() && does(updates[j], s.user_id, at.now, #[trigger] cs[l]);
            crate::coords::law_index_injective(updates[j].0.local(), p.local());
            crate::coords::law_chunk_injective(updates[j].0, p);
        }
        let skips = forall|j: int| 0 <= j < updates.len() ==> (#[trigger] updates[j]).0 != p;
        if skips {
            law_other_places_keep(before.world@, updates, slot_of(p));
        }
        if forall|j: int| 0 <= j < cs.len() ==> !meant_for(#[trigger] cs[j], p) {
            assert forall|j: int| 0 <= j < updates.len() implies (#[trigger] updates[j]).0 != p by {
                let l = choose|l: int|
                    0 <= l < cs.len() && does(updates[j], s.user_id, at.now, #[trigger] cs[l]);
            }
        }
        if foreign(regions, s.user_id, p) && !own(regions, s.user_id, p) {
            assert forall|j: int| 0 <= j < updates.len() implies (#[trigger] updates[j]).0 != p by {
                assert(from_some(regions, s.user_id, at.now, cs, updates[j]));
            }
            if 0 <= k < cs.len() && meant_for(cs[k], p) {
                let j = lemma_denied(regions, s.user_id, at.now, cs, updates, ms, p, k);
                assert(out[j] == Outgoing::Back(ms[j]));
            }
        }
        let last = 0 <= k < cs.len() && meant_for(cs[k], p) && forall|j: int|
            k < j < cs.len() ==> !meant_for(#[trigger] cs[j], p);
        if commit && last && !foreign(regions, s.user_id, p) {
            let u = lemma_kept(regions, s.user_id, at.now, cs, updates, ms, p, k);
            assert(updates[u].0 == p);
            assert forall|j: int| u < j < updates.len() implies slot_of((#[trigger] updates[j]).0)
                != slot_of(updates[u].0) by {}
            law_last_update_wins(before.world@, updates, u);
        }
        assert forall|j: int| 0 <= j < out.len() implies exists|l: int, id: u32|
            0 <= l < cs.len() && #[trigger] before.regions@.contains_key(id)
                && before.regions@[id].owner_id != s.user_id && (#[trigger] out[j]) is Back
                && meant_for(#[trigger] cs[l], out[j]->Back_0->Denied_pos) && within(
                before.regions@[id].bounds,
                out[j]->Back_0->Denied_pos,
            ) && denies(out[j], out[j]->Back_0->Denied_pos, before.regions@[id]) by {
            assert(out[j] == Outgoing::Back(ms[j]));
            assert(denied_some(regions, s.user_id, cs, ms[j]));
        }
    }
}

/// Writing empties the bucket of whoever writes by one for each cell, and no
/// other; the system's requests, and empty ones, cost nothing. A request for too
/// many cells costs nothing but that the bucket was looked at.
pub proof fn law_writing_costs_what_is_written(
    before: AppState,
    s: Session,
    cells: Vec<CellWrite>,
    commit: bool,
    at: Moment,
    out: Seq<Outgoing>,
    s2: Session,
    after: AppState,
    other: u32,
)
    requires
        before.handles(s, ClientMsg::SetCellBatch { cells, commit }, at, out, s2, after),
    ensures
        s.user_id == 0 || cells@.len() == 0 ==> after.cell_rate@ == before.cell_rate@,
        s.user_id != 0 && cells@.len() > 0 ==> {
            let full = if at.refilled < 200 {
                at.refilled as int
            } else {
                200
            };
            &&& after.cell_rate@.contains_key(s.user_id)
            &&& after.cell_rate@[s.user_id].1 == at.instant
            &&& after.cell_rate@[s.user_id].0 == (if cells@.len() <= full {
                full - cells@.len()
            } else {
                full
            })
            &&& other != s.user_id ==> after.cell_rate@.contains_key(other)
                == before.cell_rate@.contains_key(other) && after.cell_rate@[other]
                == before.cell_rate@[other]
        },
{
    let ms = choose|ms: Seq<ServerMsg>|
        {
            &&& #[trigger] sends_back(out, ms)
            &&& before.answers_set(
                s.user_id,
                cells@,
                commit,
                at.refilled,
                at.instant,
                at.now,
                ms,
                after,
            )
        };
    if !too_many(s.user_id, cells@, at.refilled) {
        let updates = lemma_set(before, s.user_id, cells@, commit, at, ms, after);
    }
}

/// What is written becomes news, whether it is kept or only shown: the place, the
/// character, the color, who wrote it and when. A write to a place that nobody
/// else protects is among the news; and all the news there is comes of a write.
pub proof fn law_writes_become_news(
    before: AppState,
    s: Session,
    cells: Vec<CellWrite>,
    commit: bool,
    at: Moment,
    out: Seq<Outgoing>,
    s2: Session,
    after: AppState,
    p: WorldCoords,
    k: int,
)
    requires
        before.handles(s, ClientMsg::SetCellBatch { cells, commit }, at, out, s2, after),
        !too_many(s.user_id, cells@, at.refilled),
    ensures
        ({
            let n = before.queue().len() as int;
            &&& after.queue().len() >= n
            &&& after.queue().take(n) == before.queue()
            &&& forall|q: int|
                n <= q < after.queue().len() ==> exists|l: int|
                    {
                        let (e, name) = #[trigger] after.queue()[q];
                        &&& 0 <= l < cells@.len()
                        &&& meant_for(#[trigger] cells@[l], e.pos)
                        &&& e.ch == cells@[l].ch
                        &&& e.ch is Some ==> e.color == cells@[l].color
                        &&& e.author_id == s.user_id
                        &&& e.ts == at.now as i64
                        &&& name == before.name_of(s.user_id)
                    }
            &&& 0 <= k < cells@.len() && meant_for(cells@[k], p) && !foreign(
                before.regions@,
                s.user_id,
                p,
            ) ==> exists|q: int|
                n <= q < after.queue().len() && {
                    let (e, name) = #[trigger] after.queue()[q];
                    &&& e.pos == p
                    &&& e.ch == cells@[k].ch
                    &&& e.ch is Some ==> e.color == cells@[k].color
                }
        }),
{
    let cs = cells@;
    let ms = choose|ms: Seq<ServerMsg>|
        {
            &&& #[trigger] sends_back(out, ms)
            &&& before.answers_set(
                s.user_id,
                cs,
                commit,
                at.refilled,
                at.instant,
                at.now,
                ms,
                after,
            )
        };
    let updates = lemma_set(before, s.user_id, cs, commit, at, ms, after);
    lemma_sources(before.regions@, s.user_id, at.now, cs, updates, ms);
    let n = before.queue().len() as int;
    assert forall|q: int| n <= q < after.queue().len() implies exists|l: int|
        {
            let (e, name) = #[trigger] after.queue()[q];
            &&& 0 <= l < cs.len()
            &&& meant_for(#[trigger] cs[l], e.pos)
            &&& e.ch == cs[l].ch
            &&& e.ch is Some ==> e.color == cs[l].color
            &&& e.author_id == s.user_id
            &&& e.ts == at.now as i64
            &&& name == before.name_of(s.user_id)
        } by {
        let u = q - n;
        let (e, name) = after.queue()[n + u];
        assert(from_some(before.regions@, s.user_id, at.now, cs, updates[u]));
        let l = choose|l: int|
            0 <= l < cs.len() && does(updates[u], s.user_id, at.now, #[trigger] cs[l]);
        assert(meant_for(cs[l], e.pos));
    }
    if 0 <= k < cs.len() && meant_for(cs[k], p) && !foreign(before.regions@, s.user_id, p) {
        let u = lemma_kept(before.regions@, s.user_id, at.now, cs, updates, ms, p, k);
        let (e, name) = after.queue()[n + u];
        assert(e.pos == p);
    }
}

/// The last change of the place that is still remembered is change `j` of action
/// `h`; of several in one action, the first.
pub open spec fn last_remembered(hot: Seq<ActionView>, h: int, j: int, p: WorldCoords) -> bool {
    &&& 0 <= h < hot.len()
    &&& 0 <= j < hot[h].changes.len()
    &&& hot[h].changes[j].pos == p
    &&& forall|n: int| 0 <= n < j ==> (#[trigger] hot[h].changes[n]).pos != p
    &&& forall|g: int| h < g < hot.len() ==> !changes_place(#[trigger] hot[g], p)
}

/// One of the changes of the action is at the place.
pub open spec fn changes_place(a: ActionView, p: WorldCoords) -> bool {
    exists|n: int| 0 <= n < a.changes.len() && (#[trigger] a.changes[n]).pos == p
}

proof fn lemma_first_change(changes: Seq<CellChange>, p: WorldCoords)
    ensures
        match first_change(changes, p) {
            Some(c) => exists|n: int|
                0 <= n < changes.len() && #[trigger] changes[n] == c && c.pos == p && forall|k: int|
                    0 <= k < n ==> (#[trigger] changes[k]).pos != p,
            None => forall|n: int| 0 <= n < changes.len() ==> (#[trigger] changes[n]).pos != p,
        },
    decreases changes.len(),
{
    if changes.len() > 0 {
        if changes[0].pos == p {
            assert(changes[0] == changes[0]);
        } else {
            let rest = changes.drop_first();
            lemma_first_change(rest, p);
            match first_change(rest, p) {
                Some(c) => {
                    let n = choose|n: int|
                        0 <= n < rest.len() && #[trigger] rest[n] == c && c.pos == p && forall|
                            k: int,
                        |
                            0 <= k < n ==> (#[trigger] rest[k]).pos != p;
                    assert(changes[n + 1] == c);
                    assert forall|k: int| 0 <= k < n + 1 implies (#[trigger] changes[k]).pos
                        != p by {
                        if k > 0 {
                            assert(rest[k - 1] == changes[k]);
                        }
                    }
                },
                None => {
                    assert forall|n: int| 0 <= n < changes.len() implies (#[trigger] changes[n]).pos
                        != p by {
                        if n > 0 {
                            assert(rest[n - 1] == changes[n]);
                        }
                    }
                },
            }
        }
    }
}

proof fn lemma_latest(hot: Seq<ActionView>, p: WorldCoords, h: int, j: int)
    ensures
        last_remembered(hot, h, j, p) ==> latest_change(hot, p) == Some(hot[h].changes[j]),
        (forall|g: int| 0 <= g < hot.len() ==> !changes_place(#[trigger] hot[g], p))
            ==> latest_change(hot, p) is None,
    decreases hot.len(),
{
    if hot.len() > 0 {
        let n = hot.len() - 1;
        let rest = hot.drop_last();
        let last = hot.last();
        assert(hot[n] == last);
        lemma_first_change(last.changes, p);
        lemma_latest(rest, p, h, j);
        if last_remembered(hot, h, j, p) {
            if h == n {
                let k = choose|k: int|
                    0 <= k < last.changes.len() && #[trigger] last.changes[k] == first_change(
                        last.changes,
                        p,
                    )->0 && last.changes[k].pos == p && forall|i: int|
                        0 <= i < k ==> (#[trigger] last.changes[i]).pos != p;
                assert(first_change(last.changes, p) is Some) by {
                    if first_change(last.changes, p) is None {
                        assert(last.changes[j].pos != p);
                    }
                }
                assert(k == j) by {
                    if k < j {
                        assert(hot[h].changes[k].pos != p);
                    }
                    if j < k {
                        assert(last.changes[j].pos != p);
                    }
                }
            } else {
                assert(!changes_place(hot[n], p));
                if first_change(last.changes, p) is Some {
                    let k = choose|k: int|
                        0 <= k < last.changes.len() && #[trigger] last.changes[k] == first_change(
                            last.changes,
                            p,
                        )->0 && last.changes[k].pos == p && forall|i: int|
                            0 <= i < k ==> (#[trigger] last.changes[i]).pos != p;
                    assert(changes_place(hot[n], p));
                }
                assert(last_remembered(rest, h, j, p)) by {
                    assert forall|g: int| h < g < rest.len() implies !changes_place(
                        #[trigger] rest[g],
                        p,
                    ) by {
                        assert(rest[g] == hot[g]);
                    }
                }
            }
        }
        if forall|g: int| 0 <= g < hot.len() ==> !changes_place(#[trigger] hot[g], p) {
            assert(!changes_place(hot[n], p));
            if first_change(last.changes, p) is Some {
                let k = choose|k: int|
                    0 <= k < last.changes.len() && #[trigger] last.changes[k] == first_change(
                        last.changes,
                        p,
                    )->0 && last.changes[k].pos == p && forall|i: int|
                        0 <= i < k ==> (#[trigger] last.changes[i]).pos != p;
                assert(changes_place(hot[n], p));
            }
            assert forall|g: int| 0 <= g < rest.len() implies !changes_place(#[trigger] rest[g], p) by {
                assert(rest[g] == hot[g]);
            }
        }
    }
}

/// The undoing is meant for the place.
pub open spec fn undo_meant_for(c: RestoreCoord, p: WorldCoords) -> bool {
    p.x == held(c.pos.x as int) && p.y == held(c.pos.y as int)
}

proof fn lemma_restored(
    regions: Map<u32, StoredRegion>,
    hot: Seq<ActionView>,
    user_id: u32,
    cells: Seq<RestoreCoord>,
    updates: Seq<Update>,
    denials: Seq<ServerMsg>,
    p: WorldCoords,
)
    requires
        restored(regions, hot, user_id, cells, updates, denials),
        is_place(p),
    ensures
        forall|k: int|
            0 <= k < updates.len() ==> is_place((#[trigger] updates[k]).0) && latest_change(
                hot,
                updates[k].0,
            ) is Some && updates[k].1 == latest_change(hot, updates[k].0)->0.old && (own(
                regions,
                user_id,
                updates[k].0,
            ) || !foreign(regions, user_id, updates[k].0)),
        (exists|k: int| 0 <= k < updates.len() && (#[trigger] updates[k]).0 == p) ==> exists|i: int|
            0 <= i < cells.len() && undo_meant_for(#[trigger] cells[i], p),
        !foreign(regions, user_id, p) && latest_change(hot, p) is Some && (exists|i: int|
            0 <= i < cells.len() && undo_meant_for(#[trigger] cells[i], p)) ==> exists|k: int|
            0 <= k < updates.len() && (#[trigger] updates[k]).0 == p,
        foreign(regions, user_id, p) && !own(regions, user_id, p) && (exists|i: int|
            0 <= i < cells.len() && undo_meant_for(#[trigger] cells[i], p)) ==> exists|k: int|
            0 <= k < denials.len() && (#[trigger] denials[k]) is Denied && denials[k]->Denied_pos
                == p,
    decreases cells.len(),
{
    if cells.len() > 0 {
        let n = cells.len() - 1;
        let at = on_board(cells.last().pos);
        let rest = cells.drop_last();
        assert(cells[n] == cells.last());
        lemma_may_edit(regions, user_id, at);
        let may = crate::access::may_edit(regions, user_id, at);
        let put = may && latest_change(hot, at) is Some && updates.len() > 0 && updates.last() == (
            at,
            latest_change(hot, at)->0.old,
        ) && restored(regions, hot, user_id, rest, updates.drop_last(), denials);
        let skip = may && latest_change(hot, at) is None && restored(
            regions,
            hot,
            user_id,
            rest,
            updates,
            denials,
        );
        let (us, ds) = if put {
            (updates.drop_last(), denials)
        } else if skip {
            (updates, denials)
        } else {
            (updates, denials.drop_last())
        };
        lemma_restored(regions, hot, user_id, rest, us, ds, p);
        assert forall|k: int| 0 <= k < updates.len() implies is_place((#[trigger] updates[k]).0)
            && latest_change(hot, updates[k].0) is Some && updates[k].1 == latest_change(
            hot,
            updates[k].0,
        )->0.old && (own(regions, user_id, updates[k].0) || !foreign(
            regions,
            user_id,
            updates[k].0,
        )) by {
            if k < us.len() {
                assert(us[k] == updates[k]);
            }
        }
        if exists|k: int| 0 <= k < updates.len() && (#[trigger] updates[k]).0 == p {
            let k = choose|k: int| 0 <= k < updates.len() && (#[trigger] updates[k]).0 == p;
            if k < us.len() {
                assert(us[k].0 == p);
                let i = choose|i: int|
                    0 <= i < rest.len() && undo_meant_for(#[trigger] rest[i], p);
                assert(undo_meant_for(cells[i], p));
            } else {
                assert(undo_meant_for(cells[n], p));
            }
        }
        if exists|i: int| 0 <= i < cells.len() && undo_meant_for(#[trigger] cells[i], p) {
            let i = choose|i: int| 0 <= i < cells.len() && undo_meant_for(#[trigger] cells[i], p);
            if i < n {
                assert(undo_meant_for(rest[i], p));
            } else {
                assert(at == p);
            }
            if !foreign(regions, user_id, p) && latest_change(hot, p) is Some {
                if i < n {
                    let k = choose|k: int| 0 <= k < us.len() && (#[trigger] us[k]).0 == p;
                    assert(updates[k].0 == p);
                } else {
                    assert(put) by {
                        if !put && !skip {
                            assert(refuses(regions, user_id, at, denials.last()));
                        }
                    }
                    assert(updates[updates.len() - 1].0 == p);
                }
            }
            if foreign(regions, user_id, p) && !own(regions, user_id, p) {
                if i < n {
                    let k = choose|k: int|
                        0 <= k < ds.len() && (#[trigger] ds[k]) is Denied && ds[k]->Denied_pos == p;
                    assert(denials[k] == ds[k]);
                } else {
                    assert(denials[denials.len() - 1] is Denied);
                }
            }
        }
    }
}

proof fn lemma_same_updates(
    m: Map<Slot, StoredChunkCell>,
    updates: Seq<Update>,
    p: WorldCoords,
    cell: Option<StoredChunkCell>,
    k: int,
)
    requires
        0 <= k < updates.len(),
        updates[k].0 == p,
        is_place(p),
        forall|i: int| 0 <= i < updates.len() ==> is_place((#[trigger] updates[i]).0),
        forall|i: int| 0 <= i < updates.len() && (#[trigger] updates[i]).0 == p ==> updates[i].1 == cell,
    ensures
        look(updated(m, updates), slot_of(p)) == crate::edit::stamped(p, cell),
    decreases updates.len() - k,
{
    if exists|j: int| k < j < updates.len() && (#[trigger] updates[j]).0 == p {
        let j = choose|j: int| k < j < updates.len() && (#[trigger] updates[j]).0 == p;
        lemma_same_updates(m, updates, p, cell, j);
    } else {
        assert forall|j: int| k < j < updates.len() implies slot_of((#[trigger] updates[j]).0)
            != slot_of(updates[k].0) by {
            let q = updates[j].0;
            if slot_of(q) == slot_of(p) {
                crate::coords::law_index_injective(q.local(), p.local());
                crate::coords::law_chunk_injective(q, p);
            }
        }
        law_last_update_wins(m, updates, k);
    }
}

/// A request to undo, and a place of the board: it gets back what its last change
/// that is still remembered took the place of, with who wrote it and when. If
/// somebody else protects the place, it keeps what it holds, and the request is
/// refused; and it keeps what it holds if no part of the request is for it, or no
/// change of it is remembered.
pub proof fn law_undo_reaches_the_board(
    before: AppState,
    s: Session,
    cells: Vec<RestoreCoord>,
    at: Moment,
    out: Seq<Outgoing>,
    s2: Session,
    after: AppState,
    p: WorldCoords,
    chunk: ChunkCoords,
    i: int,
    h: int,
    j: int,
)
    requires
        before.handles(s, ClientMsg::RestoreCellBatch { cells }, at, out, s2, after),
        is_place(p),
        numbered(p, chunk, i),
    ensures
        s2 == s,
        after.regions@ == before.regions@,
        ({
            let held_before = before.world@.contains_key((chunk, i));
            let holds = after.world@.contains_key((chunk, i));
            let c = after.world@[(chunk, i)];
            let same = holds == held_before && (holds ==> c == before.world@[(chunk, i)]);
            let asked = exists|k: int| 0 <= k < cells@.len() && undo_meant_for(#[trigger] cells@[k], p);
            let old = before.hot()[h].changes[j].old;
            &&& !asked ==> same
            &&& (forall|g: int| 0 <= g < before.hot().len() ==> !changes_place(
                #[trigger] before.hot()[g],
                p,
            )) ==> same
            &&& foreign(before.regions@, s.user_id, p) && !own(before.regions@, s.user_id, p) ==> {
                &&& same
                &&& asked ==> exists|k: int|
                    0 <= k < out.len() && ((#[trigger] out[k]) matches Outgoing::Back(
                        ServerMsg::Denied { pos, .. },
                    ) && pos == p)
            }
            &&& asked && !foreign(before.regions@, s.user_id, p) && last_remembered(
                before.hot(),
                h,
                j,
                p,
            ) ==> {
                &&& holds <==> old is Some
                &&& holds ==> c.ch == old->0.ch && c.color == old->0.color && c.author_id
                    == old->0.author_id && c.ts == old->0.ts
            }
        }),
{
    lemma_numbered(p, chunk, i);
    let cs = cells@;
    let ms = choose|ms: Seq<ServerMsg>|
        {
            &&& #[trigger] sends_back(out, ms)
            &&& before.restores_cells(s.user_id, cs, at.now, ms, after)
        };
    let updates = choose|updates: Seq<Update>|
        {
            &&& #[trigger] restored(before.regions@, before.hot(), s.user_id, cs, updates, ms)
            &&& after.world@ == updated(before.world@, updates)
            &&& after.regions@ == before.regions@
        };
    assert(restored(before.regions@, before.hot(), s.user_id, cs, updates, ms) && after.world@
        == updated(before.world@, updates) && after.regions@ == before.regions@) by {
        let us = choose|us: Seq<Update>|
            {
                &&& #[trigger] restored(before.regions@, before.hot(), s.user_id, cs, us, ms)
                &&& if us.len() == 0 {
                    after == before
                } else {
                    exists|action: ActionView, mid: AppState|
                        {
                            &&& #[trigger] before.performs(s.user_id, us, at.now, action, mid)
                            &&& after.same_but_queue(mid)
                        }
                }
            };
        assert(restored(before.regions@, before.hot(), s.user_id, cs, us, ms));
        assert(after.world@ == updated(before.world@, us));
    }
    lemma_restored(before.regions@, before.hot(), s.user_id, cs, updates, ms, p);
    lemma_latest(before.hot(), p, h, j);
    let named = exists|k: int| 0 <= k < updates.len() && (#[trigger] updates[k]).0 == p;
    if !named {
        assert forall|k: int| 0 <= k < updates.len() implies slot_of((#[trigger] updates[k]).0)
            != slot_of(p) by {
            let q = updates[k].0;
            if slot_of(q) == slot_of(p) {
                crate::coords::law_index_injective(q.local(), p.local());
                crate::coords::law_chunk_injective(q, p);
            }
        }
        law_other_places_keep(before.world@, updates, slot_of(p));
    } else {
        let k = choose|k: int| 0 <= k < updates.len() && (#[trigger] updates[k]).0 == p;
        lemma_same_updates(
            before.world@,
            updates,
            p,
            latest_change(before.hot(), p)->0.old,
            k,
        );
    }
    let asked = exists|k: int| 0 <= k < cs.len() && undo_meant_for(#[trigger] cs[k], p);
    if asked && foreign(before.regions@, s.user_id, p) && !own(before.regions@, s.user_id, p) {
        let k = choose|k: int|
            0 <= k < ms.len() && (#[trigger] ms[k]) is Denied && ms[k]->Denied_pos == p;
        assert(out[k] == Outgoing::Back(ms[k]));
    }
}

/// Who has not written yet may write 200 cells at once.
pub proof fn law_new_buckets_are_full(rates: Map<u32, (u64, u64)>, user_id: u32, now: u64)
    ensures
        !rates.contains_key(user_id) ==> crate::rate::bucket(rates, user_id, now).0 == 200
            && crate::rate::bucket(rates, user_id, now).1 == now,
        rates.contains_key(user_id) ==> crate::rate::bucket(rates, user_id, now) == rates[user_id],
{
}

} // verus!
