//! What a place of the board keeps and shows when people write.

use vstd::prelude::*;

use crate::access::{
    latest_change, law_restore_finds_what_was_replaced, may_edit, on_board, refuses, restored, sifted,
    written,
};
use crate::coords::{law_chunk_injective, law_index_injective, WorldCoords};
use crate::edit::{law_last_update_wins, law_other_places_keep, stamped, updated, Update};
use crate::model::{ActionView, StoredChunkCell, StoredRegion};
use crate::msg::{CellWrite, RestoreCoord, ServerMsg};
use crate::rate::capped;
use crate::state::AppState;
use crate::world::{look, slot_of};

verus! {

proof fn lemma_slot_injective(p: WorldCoords, q: WorldCoords)
    requires
        p.on_board(),
        q.on_board(),
        slot_of(p) == slot_of(q),
    ensures
        p == q,
{
    law_index_injective(p.local(), q.local());
    law_chunk_injective(p, q);
}

proof fn lemma_sifted_skips(
    regions: Map<u32, StoredRegion>,
    user_id: u32,
    now: u64,
    cells: Seq<CellWrite>,
    updates: Seq<Update>,
    denials: Seq<ServerMsg>,
    pos: WorldCoords,
)
    requires
        sifted(regions, user_id, now, cells, updates, denials),
        pos.on_board(),
        !may_edit(regions, user_id, pos),
    ensures
        forall|j: int| 0 <= j < updates.len() ==> slot_of((#[trigger] updates[j]).0) != slot_of(pos),
        forall|i: int|
            0 <= i < cells.len() && on_board((#[trigger] cells[i]).pos) == pos
                ==> refused_among(regions, user_id, pos, denials),
    decreases cells.len(),
{
    if cells.len() > 0 {
        let c = cells.last();
        let rest = cells.drop_last();
        let at = on_board(c.pos);
        if may_edit(regions, user_id, at) && updates.len() > 0 && updates.last() == written(
            user_id,
            now,
            c,
        ) && sifted(regions, user_id, now, rest, updates.drop_last(), denials) {
            lemma_sifted_skips(regions, user_id, now, rest, updates.drop_last(), denials, pos);
            if slot_of(at) == slot_of(pos) {
                lemma_slot_injective(at, pos);
            }
            assert forall|j: int| 0 <= j < updates.len() implies slot_of((#[trigger] updates[j]).0)
                != slot_of(pos) by {
                if j < updates.len() - 1 {
                    assert(updates.drop_last()[j] == updates[j]);
                }
            }
        } else {
            let before = denials.drop_last();
            lemma_sifted_skips(regions, user_id, now, rest, updates, before, pos);
            if at == pos {
                assert(refuses(regions, user_id, pos, denials[denials.len() - 1]));
            }
            if refused_among(regions, user_id, pos, before) {
                let k = choose|k: int|
                    0 <= k < before.len() && refuses(regions, user_id, pos, #[trigger] before[k]);
                assert(refuses(regions, user_id, pos, denials[k]));
            }
        }
        assert forall|i: int|
            0 <= i < cells.len() && on_board((#[trigger] cells[i]).pos)
                == pos implies refused_among(regions, user_id, pos, denials) by {
            if i < cells.len() - 1 {
                assert(rest[i] == cells[i]);
            }
        }
    }
}

/// Among `denials` is the refusal of an edit at `pos`.
pub open spec fn refused_among(
    regions: Map<u32, StoredRegion>,
    user_id: u32,
    pos: WorldCoords,
    denials: Seq<ServerMsg>,
) -> bool {
    exists|k: int| 0 <= k < denials.len() && refuses(regions, user_id, pos, #[trigger] denials[k])
}

/// A place that lies in somebody else's region, and in none of one's own, is
/// safe: whatever is asked to be written, it keeps what it holds; and whoever
/// asks to write there, and is not too fast, is refused.
pub proof fn law_protected_place_is_safe(
    before: AppState,
    user_id: u32,
    cells: Seq<CellWrite>,
    commit: bool,
    refilled: u64,
    instant: u64,
    now: u64,
    out: Seq<ServerMsg>,
    after: AppState,
    pos: WorldCoords,
)
    requires
        before.answers_set(user_id, cells, commit, refilled, instant, now, out, after),
        pos.on_board(),
        !may_edit(before.regions@, user_id, pos),
    ensures
        look(after.world@, slot_of(pos)) == look(before.world@, slot_of(pos)),
        forall|i: int|
            0 <= i < cells.len() && on_board((#[trigger] cells[i]).pos) == pos && (user_id == 0
                || capped(refilled) >= cells.len()) ==> refused_among(
                before.regions@,
                user_id,
                pos,
                out,
            ),
{
    if user_id == 0 || cells.len() == 0 || capped(refilled) >= cells.len() {
        let mid = choose|mid: AppState|
            {
                &&& #[trigger] mid.sets_cells(user_id, cells, commit, now, out, after)
                &&& mid == (AppState { cell_rate: mid.cell_rate, ..before })
            };
        let updates = choose|updates: Seq<Update>|
            {
                &&& #[trigger] sifted(mid.regions@, user_id, now, cells, updates, out)
                &&& if commit {
                    after.world@ == updated(mid.world@, updates)
                } else {
                    after.world@ == mid.world@
                }
            };
        lemma_sifted_skips(mid.regions@, user_id, now, cells, updates, out, pos);
        law_other_places_keep(mid.world@, updates, slot_of(pos));
    }
}

proof fn lemma_restored_skips(
    regions: Map<u32, StoredRegion>,
    hot: Seq<ActionView>,
    user_id: u32,
    cells: Seq<RestoreCoord>,
    updates: Seq<Update>,
    denials: Seq<ServerMsg>,
    pos: WorldCoords,
)
    requires
        restored(regions, hot, user_id, cells, updates, denials),
        pos.on_board(),
        !may_edit(regions, user_id, pos),
    ensures
        forall|j: int| 0 <= j < updates.len() ==> slot_of((#[trigger] updates[j]).0) != slot_of(pos),
        forall|i: int|
            0 <= i < cells.len() && on_board((#[trigger] cells[i]).pos) == pos ==> refused_among(
                regions,
                user_id,
                pos,
                denials,
            ),
    decreases cells.len(),
{
    if cells.len() > 0 {
        let at = on_board(cells.last().pos);
        let rest = cells.drop_last();
        let before = denials.drop_last();
        if denials.len() > 0 && refuses(regions, user_id, at, denials.last()) && restored(
            regions,
            hot,
            user_id,
            rest,
            updates,
            before,
        ) {
            lemma_restored_skips(regions, hot, user_id, rest, updates, before, pos);
            if at == pos {
                assert(refuses(regions, user_id, pos, denials[denials.len() - 1]));
            }
            if refused_among(regions, user_id, pos, before) {
                let k = choose|k: int|
                    0 <= k < before.len() && refuses(regions, user_id, pos, #[trigger] before[k]);
                assert(refuses(regions, user_id, pos, denials[k]));
            }
        } else if latest_change(hot, at) is Some {
            lemma_restored_skips(regions, hot, user_id, rest, updates.drop_last(), denials, pos);
            if slot_of(at) == slot_of(pos) {
                lemma_slot_injective(at, pos);
            }
            assert forall|j: int| 0 <= j < updates.len() implies slot_of((#[trigger] updates[j]).0)
                != slot_of(pos) by {
                if j < updates.len() - 1 {
                    assert(updates.drop_last()[j] == updates[j]);
                }
            }
        } else {
            lemma_restored_skips(regions, hot, user_id, rest, updates, denials, pos);
        }
        assert forall|i: int|
            0 <= i < cells.len() && on_board((#[trigger] cells[i]).pos) == pos implies refused_among(
            regions,
            user_id,
            pos,
            denials,
        ) by {
            if i < cells.len() - 1 {
                assert(rest[i] == cells[i]);
            }
        }
    }
}

/// A place that lies in somebody else's region, and in none of one's own, is
/// safe from undoing too: it keeps what it holds, and whoever asks for what it
/// held before is refused.
pub proof fn law_protected_place_is_not_undone(
    before: AppState,
    user_id: u32,
    cells: Seq<RestoreCoord>,
    now: u64,
    out: Seq<ServerMsg>,
    after: AppState,
    pos: WorldCoords,
)
    requires
        before.restores_cells(user_id, cells, now, out, after),
        pos.on_board(),
        !may_edit(before.regions@, user_id, pos),
    ensures
        look(after.world@, slot_of(pos)) == look(before.world@, slot_of(pos)),
        forall|i: int|
            0 <= i < cells.len() && on_board((#[trigger] cells[i]).pos) == pos ==> refused_among(
                before.regions@,
                user_id,
                pos,
                out,
            ),
{
    let updates = choose|updates: Seq<Update>|
        {
            &&& #[trigger] restored(before.regions@, before.hot(), user_id, cells, updates, out)
            &&& if updates.len() == 0 {
                after == before
            } else {
                after.world@ == updated(before.world@, updates)
            }
        };
    lemma_restored_skips(before.regions@, before.hot(), user_id, cells, updates, out, pos);
    law_other_places_keep(before.world@, updates, slot_of(pos));
}

/// Every region with `pos` in it belongs to `user_id`.
pub open spec fn all_theirs(
    regions: Map<u32, StoredRegion>,
    user_id: u32,
    pos: WorldCoords,
) -> bool {
    forall|id: u32| #[trigger]
        regions.contains_key(id) && regions[id].bounds.has(pos) ==> regions[id].owner_id == user_id
}

proof fn lemma_sifted_keeps(
    regions: Map<u32, StoredRegion>,
    user_id: u32,
    now: u64,
    cells: Seq<CellWrite>,
    updates: Seq<Update>,
    denials: Seq<ServerMsg>,
    i: int,
) -> (k: int)
    requires
        sifted(regions, user_id, now, cells, updates, denials),
        0 <= i < cells.len(),
        all_theirs(regions, user_id, on_board(cells[i].pos)),
        forall|j: int|
            i < j < cells.len() ==> on_board((#[trigger] cells[j]).pos) != on_board(cells[i].pos),
    ensures
        0 <= k < updates.len(),
        updates[k] == written(user_id, now, cells[i]),
        forall|j: int|
            k < j < updates.len() ==> slot_of((#[trigger] updates[j]).0) != slot_of(updates[k].0),
    decreases cells.len(),
{
    let n = cells.len() - 1;
    let at = on_board(cells[n].pos);
    let rest = cells.drop_last();
    let kept = may_edit(regions, user_id, at) && updates.len() > 0 && updates.last() == written(
        user_id,
        now,
        cells[n],
    ) && sifted(regions, user_id, now, rest, updates.drop_last(), denials);
    if i == n {
        assert(kept);
        updates.len() - 1
    } else {
        assert forall|j: int| i < j < rest.len() implies on_board((#[trigger] rest[j]).pos)
            != on_board(rest[i].pos) by {
            assert(rest[j] == cells[j]);
        }
        assert(rest[i] == cells[i]);
        assert(at != on_board(cells[i].pos)) by {
            assert(cells[n] == cells.last());
        }
        if kept {
            let k = lemma_sifted_keeps(
                regions,
                user_id,
                now,
                rest,
                updates.drop_last(),
                denials,
                i,
            );
            if slot_of(at) == slot_of(updates[k].0) {
                lemma_slot_injective(at, updates[k].0);
            }
            assert forall|j: int| k < j < updates.len() implies slot_of((#[trigger] updates[j]).0)
                != slot_of(updates[k].0) by {
                if j < updates.len() - 1 {
                    assert(updates.drop_last()[j] == updates[j]);
                }
            }
            k
        } else {
            lemma_sifted_keeps(regions, user_id, now, rest, updates, denials.drop_last(), i)
        }
    }
}

/// What somebody writes is read back: a place that nobody else protects holds,
/// after a request that is kept and not too fast, what the last write to it in
/// that request says, with who wrote it and when.
pub proof fn law_write_is_read_back(
    before: AppState,
    user_id: u32,
    cells: Seq<CellWrite>,
    refilled: u64,
    instant: u64,
    now: u64,
    out: Seq<ServerMsg>,
    after: AppState,
    i: int,
)
    requires
        before.answers_set(user_id, cells, true, refilled, instant, now, out, after),
        user_id == 0 || capped(refilled) >= cells.len(),
        0 <= i < cells.len(),
        all_theirs(before.regions@, user_id, on_board(cells[i].pos)),
        forall|j: int|
            i < j < cells.len() ==> on_board((#[trigger] cells[j]).pos) != on_board(cells[i].pos),
    ensures
        look(after.world@, slot_of(on_board(cells[i].pos))) == (match cells[i].ch {
            Some(ch) => Some(
                StoredChunkCell {
                    local: on_board(cells[i].pos).local(),
                    ch,
                    color: cells[i].color,
                    author_id: user_id,
                    ts: now as i64,
                },
            ),
            None => None,
        }),
{
    let mid = choose|mid: AppState|
        {
            &&& #[trigger] mid.sets_cells(user_id, cells, true, now, out, after)
            &&& mid == (AppState { cell_rate: mid.cell_rate, ..before })
        };
    let updates = choose|updates: Seq<Update>|
        {
            &&& #[trigger] sifted(mid.regions@, user_id, now, cells, updates, out)
            &&& after.world@ == updated(mid.world@, updates)
        };
    let k = lemma_sifted_keeps(mid.regions@, user_id, now, cells, updates, out, i);
    law_last_update_wins(mid.world@, updates, k);
}

/// Undoing a write just made puts back what the place held, with who wrote it
/// and when.
pub proof fn law_undone_write_is_gone(
    before: AppState,
    user_id: u32,
    w: CellWrite,
    refilled: u64,
    instant: u64,
    now: u64,
    out: Seq<ServerMsg>,
    mid: AppState,
    undo: RestoreCoord,
    later: u64,
    answer: Seq<ServerMsg>,
    after: AppState,
)
    requires
        before.answers_set(user_id, seq![w], true, refilled, instant, now, out, mid),
        mid.restores_cells(user_id, seq![undo], later, answer, after),
        user_id == 0 || capped(refilled) >= 1,
        on_board(undo.pos) == on_board(w.pos),
        all_theirs(before.regions@, user_id, on_board(w.pos)),
    ensures
        answer.len() == 0,
        look(after.world@, slot_of(on_board(w.pos))) == stamped(
            on_board(w.pos),
            look(before.world@, slot_of(on_board(w.pos))),
        ),
{
    let pos = on_board(w.pos);
    let cells = seq![w];
    let undos = seq![undo];
    assert(cells.drop_last() =~= Seq::empty());
    assert(undos.drop_last() =~= Seq::empty());
    let start = choose|start: AppState|
        {
            &&& #[trigger] start.sets_cells(user_id, cells, true, now, out, mid)
            &&& start == (AppState { cell_rate: start.cell_rate, ..before })
        };
    let (updates, action, end) = choose|updates: Seq<Update>, action: ActionView, end: AppState|
        {
            &&& #[trigger] sifted(start.regions@, user_id, now, cells, updates, out)
            &&& #[trigger] start.performs(user_id, updates, now, action, end)
            &&& mid.same_but_queue(end)
        };
    reveal_with_fuel(sifted, 2);
    reveal_with_fuel(restored, 2);
    assert(updates =~= seq![written(user_id, now, w)]);
    assert(updates.take(0) =~= Seq::empty());
    assert(action.changes[0].pos == pos);
    law_restore_finds_what_was_replaced(before.hot(), action, pos, 0);
    assert(latest_change(mid.hot(), pos) == Some(action.changes[0]));
    let back = choose|back: Seq<Update>|
        {
            &&& #[trigger] restored(mid.regions@, mid.hot(), user_id, undos, back, answer)
            &&& back.len() > 0 ==> after.world@ == updated(mid.world@, back)
        };
    assert(back =~= seq![(pos, action.changes[0].old)]);
    law_last_update_wins(mid.world@, back, 0);
}

} // verus!
