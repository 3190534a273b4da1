//! Writing down what a revert does, and telling of it.

use std::collections::HashMap;
use vstd::prelude::*;
use vstd::utf8::encode_utf8;

use crate::admin::{
    cell_in, cells_left, logged, no_cutoff, reverts, rewinds, touched_after, Board,
};
use crate::coords::WorldCoords;
use crate::history::by_id;
use crate::model::{Action, ActionView, CellChange, Segment, StoredChunk, StoredChunkCell};
use crate::revert::{
    before_cutoff, cells_written, changes_written, law_last_write_before_cutoff_counts,
    lemma_before_cutoff, lemma_filter_push, looks_same, outcome_is,
    rewind_is, settle, state_as_of, targeted_at, touch, touches, touches_at, PointInTimeCutoff,
    RevertFilter, RevertOutcome, SkipReason, Touch, Write,
};
use crate::segment::{hex_u64, parse_hex_u64};
use crate::sort::sort_by;

verus! {

/// The changes that give every place to be restored its new value.
pub open spec fn corrections(
    outcomes: Seq<RevertOutcome>,
    cells: Map<WorldCoords, Option<StoredChunkCell>>,
) -> Seq<CellChange>
    decreases outcomes.len(),
{
    if outcomes.len() == 0 {
        Seq::empty()
    } else {
        let before = corrections(outcomes.drop_last(), cells);
        match outcomes.last() {
            RevertOutcome::Restore { pos, restore_to, .. } => before.push(
                CellChange { pos, old: cell_in(cells, pos), new: restore_to },
            ),
            RevertOutcome::Skipped { .. } => before,
        }
    }
}

/// The number after the highest that an action bears.
pub open spec fn next_id(actions: Seq<Action>) -> nat
    decreases actions.len(),
{
    if actions.len() == 0 {
        0
    } else {
        let before = next_id(actions.drop_last());
        let id = actions.last().action_id as nat;
        if id + 1 > before {
            id + 1
        } else {
            before
        }
    }
}

/// The highest number that a segment's name writes.
pub open spec fn last_segment(stems: Seq<String>) -> u64
    decreases stems.len(),
{
    if stems.len() == 0 {
        0
    } else {
        let before = last_segment(stems.drop_last());
        match hex_u64(encode_utf8(stems.last()@)) {
            Some(n) => if n > before {
                n
            } else {
                before
            },
            None => before,
        }
    }
}

fn correct(outcomes: &Vec<RevertOutcome>, board: &Board) -> (r: Vec<CellChange>)
    ensures
        r@ == corrections(outcomes@, board.cells@),
{
    let mut out: Vec<CellChange> = Vec::new();
    let mut i: usize = 0;
    assert(outcomes@.take(0) =~= Seq::<RevertOutcome>::empty());
    while i < outcomes.len()
        invariant
            i <= outcomes@.len(),
            out@ == corrections(outcomes@.take(i as int), board.cells@),
        decreases outcomes@.len() - i,
    {
        assert(outcomes@.take(i + 1).drop_last() =~= outcomes@.take(i as int));
        assert(outcomes@.take(i + 1).last() == outcomes@[i as int]);
        if let RevertOutcome::Restore { pos, restore_to, .. } = &outcomes[i] {
            out.push(CellChange { pos: *pos, old: board.cell_at(*pos), new: *restore_to });
        }
        i = i + 1;
    }
    assert(outcomes@.take(i as int) =~= outcomes@);
    out
}

proof fn lemma_next_id(actions: Seq<Action>, i: int)
    requires
        0 <= i <= actions.len(),
    ensures
        next_id(actions.take(i)) <= next_id(actions),
    decreases actions.len() - i,
{
    if i < actions.len() {
        lemma_next_id(actions, i + 1);
        assert(actions.take(i + 1).drop_last() =~= actions.take(i));
    } else {
        assert(actions.take(i) =~= actions);
    }
}

fn next_action_id(actions: &Vec<Action>) -> (r: u64)
    requires
        next_id(actions@) <= u64::MAX,
    ensures
        r == next_id(actions@),
{
    let mut next: u64 = 0;
    let mut i: usize = 0;
    assert(actions@.take(0) =~= Seq::<Action>::empty());
    while i < actions.len()
        invariant
            i <= actions@.len(),
            next == next_id(actions@.take(i as int)),
            next_id(actions@) <= u64::MAX,
        decreases actions@.len() - i,
    {
        let id: u64 = actions[i].action_id;
        proof {
            assert(actions@.take(i + 1).drop_last() =~= actions@.take(i as int));
            assert(actions@.take(i + 1).last() == actions@[i as int]);
            lemma_next_id(actions@, i + 1);
        }
        if id >= next {
            next = id + 1;
        }
        i = i + 1;
    }
    assert(actions@.take(i as int) =~= actions@);
    next
}

fn last_segment_id(stems: &Vec<String>) -> (r: u64)
    ensures
        r == last_segment(stems@),
{
    let mut last: u64 = 0;
    let mut i: usize = 0;
    assert(stems@.take(0) =~= Seq::<String>::empty());
    while i < stems.len()
        invariant
            i <= stems@.len(),
            last == last_segment(stems@.take(i as int)),
        decreases stems@.len() - i,
    {
        assert(stems@.take(i + 1).drop_last() =~= stems@.take(i as int));
        assert(stems@.take(i + 1).last() == stems@[i as int]);
        if let Some(n) = parse_hex_u64(stems[i].as_str()) {
            if n > last {
                last = n;
            }
        }
        i = i + 1;
    }
    assert(stems@.take(i as int) =~= stems@);
    last
}

/// The segment that sets right what a revert found, after those whose names
/// are given; none, where there is nothing to set right.
pub fn apply_offline(
    board: &Board,
    outcomes: &Vec<RevertOutcome>,
    stems: &Vec<String>,
    now: i64,
) -> (r: Option<Segment>)
    requires
        next_id(board.actions@) <= u64::MAX,
        last_segment(stems@) < u64::MAX,
    ensures
        r is None <==> corrections(outcomes@, board.cells@).len() == 0,
        r matches Some(s) ==> {
            let last = last_segment(stems@);
            &&& s.segment_id == last + 1
            &&& s.prev_segment_id == (if last == 0 {
                None
            } else {
                Some(last)
            })
            &&& s.new_users@ == Map::<u32, crate::model::UserAccount>::empty()
            &&& s.new_regions@ == Map::<u32, crate::model::StoredRegion>::empty()
            &&& s.actions@.len() == 1
            &&& s.actions@[0]@ == (ActionView {
                action_id: next_id(board.actions@) as u64,
                author_id: 0,
                ts: now,
                changes: corrections(outcomes@, board.cells@),
            })
        },
{
    let changes = correct(outcomes, board);
    if changes.len() == 0 {
        return None;
    }
    let action = Action {
        action_id: next_action_id(&board.actions),
        author_id: 0,
        ts: now,
        changes,
    };
    let last: u64 = last_segment_id(stems);
    let mut actions: Vec<Action> = Vec::new();
    actions.push(action);
    Some(
        Segment {
            segment_id: last + 1,
            prev_segment_id: if last == 0 {
                None
            } else {
                Some(last)
            },
            new_users: HashMap::new(),
            new_regions: HashMap::new(),
            actions,
        },
    )
}

/// One of the outcomes gives the place another value.
pub open spec fn is_restored(outcomes: Seq<RevertOutcome>, p: WorldCoords) -> bool {
    exists|i: int|
        0 <= i < outcomes.len() && (#[trigger] outcomes[i]) is Restore && outcomes[i].place() == p
}

/// No place has two outcomes.
pub open spec fn one_each(outcomes: Seq<RevertOutcome>) -> bool {
    forall|i: int, j: int|
        0 <= i < j < outcomes.len() ==> (#[trigger] outcomes[i]).place()
            != (#[trigger] outcomes[j]).place()
}

/// `after` is `before` with the outcomes carried out.
pub open spec fn carried_out(
    outcomes: Seq<RevertOutcome>,
    before: Map<WorldCoords, Option<StoredChunkCell>>,
    after: Map<WorldCoords, Option<StoredChunkCell>>,
) -> bool {
    &&& forall|i: int|
        0 <= i < outcomes.len() && (#[trigger] outcomes[i]) is Restore ==> cell_in(
            after,
            outcomes[i].place(),
        ) == outcomes[i]->restore_to
    &&& forall|p: WorldCoords|
        !is_restored(outcomes, p) ==> #[trigger] cell_in(after, p) == cell_in(before, p)
}

spec fn writes_of(changes: Seq<CellChange>) -> Seq<Write> {
    changes.map_values(|c: CellChange| (c.pos, c.new))
}

proof fn lemma_corrections_settle(
    w: Seq<Write>,
    outcomes: Seq<RevertOutcome>,
    cells: Map<WorldCoords, Option<StoredChunkCell>>,
)
    requires
        one_each(outcomes),
    ensures
        carried_out(
            outcomes,
            settle(no_cutoff(), w),
            settle(no_cutoff(), w + writes_of(corrections(outcomes, cells))),
        ),
    decreases outcomes.len(),
{
    let before = settle(no_cutoff(), w);
    let after = settle(no_cutoff(), w + writes_of(corrections(outcomes, cells)));
    if outcomes.len() == 0 {
        assert(w + writes_of(corrections(outcomes, cells)) =~= w);
    } else {
        let d = outcomes.drop_last();
        lemma_corrections_settle(w, d, cells);
        let o = outcomes.last();
        let pc = corrections(d, cells);
        let mid = settle(no_cutoff(), w + writes_of(pc));
        assert(outcomes =~= d.push(o));
        assert forall|p: WorldCoords| is_restored(outcomes, p) <==> is_restored(d, p) || (o is Restore
            && o.place() == p) by {
            if is_restored(d, p) {
                let i = choose|i: int|
                    0 <= i < d.len() && (#[trigger] d[i]) is Restore && d[i].place() == p;
                assert(outcomes[i] is Restore);
            }
            if o is Restore && o.place() == p {
                assert(outcomes[outcomes.len() - 1] is Restore);
            }
            if is_restored(outcomes, p) {
                let i = choose|i: int|
                    0 <= i < outcomes.len() && (#[trigger] outcomes[i]) is Restore
                        && outcomes[i].place() == p;
                if i < d.len() {
                    assert(d[i] is Restore);
                }
            }
        }
        if o is Restore {
            let c = CellChange {
                pos: o.place(),
                old: cell_in(cells, o.place()),
                new: o->restore_to,
            };
            assert(corrections(outcomes, cells) == pc.push(c));
            let ws = w + writes_of(pc.push(c));
            assert(ws.drop_last() =~= w + writes_of(pc));
            assert(ws.last() == (c.pos, c.new));
            assert(after == mid.insert(c.pos, c.new));
            assert forall|i: int|
                0 <= i < outcomes.len() && (#[trigger] outcomes[i]) is Restore implies cell_in(
                after,
                outcomes[i].place(),
            ) == outcomes[i]->restore_to by {
                if i < d.len() {
                    assert(d[i] is Restore);
                    assert(outcomes[i].place() != outcomes[outcomes.len() - 1].place());
                }
            }
            assert forall|p: WorldCoords| !is_restored(outcomes, p) implies #[trigger] cell_in(
                after,
                p,
            ) == cell_in(before, p) by {
                assert(cell_in(mid, p) == cell_in(before, p));
            }
        } else {
            assert(corrections(outcomes, cells) == pc);
            assert forall|i: int|
                0 <= i < outcomes.len() && (#[trigger] outcomes[i]) is Restore implies cell_in(
                after,
                outcomes[i].place(),
            ) == outcomes[i]->restore_to by {
                assert(d[i] is Restore);
            }
        }
    }
}

proof fn lemma_next_id_is_above(actions: Seq<Action>, i: int)
    requires
        0 <= i < actions.len(),
    ensures
        actions[i].action_id < next_id(actions),
    decreases actions.len(),
{
    if i < actions.len() - 1 {
        lemma_next_id_is_above(actions.drop_last(), i);
    }
}

/// A segment that sets a revert's findings right is read back: loaded with the
/// segments before it, every place to be restored holds the value it was to
/// have, and every other place what it held.
pub proof fn law_correction_is_read_back(
    chunks: Seq<StoredChunk>,
    segments: Seq<Segment>,
    outcomes: Seq<RevertOutcome>,
    correction: Segment,
)
    requires
        one_each(outcomes),
        correction.actions@.len() == 1,
        ({
            let actions = sort_by(logged(segments), by_id());
            let a = correction.actions@[0];
            &&& a.action_id == next_id(actions)
            &&& a.changes@ == corrections(outcomes, cells_left(chunks, actions))
        }),
    ensures
        carried_out(
            outcomes,
            cells_left(chunks, sort_by(logged(segments), by_id())),
            cells_left(chunks, sort_by(logged(segments.push(correction)), by_id())),
        ),
{
    let actions = sort_by(logged(segments), by_id());
    let a = correction.actions@[0];
    let cells = cells_left(chunks, actions);
    assert(segments.push(correction).drop_last() =~= segments);
    assert(logged(segments.push(correction)) =~= logged(segments).push(a));
    assert(logged(segments).push(a).drop_last() =~= logged(segments));
    if actions.len() > 0 {
        lemma_next_id_is_above(actions, actions.len() - 1);
    }
    let more = sort_by(logged(segments.push(correction)), by_id());
    assert(more =~= actions.push(a));
    assert(more.drop_last() =~= actions);
    let w = cells_written(chunks) + changes_written(actions);
    assert(changes_written(more) == changes_written(actions) + writes_of(a.changes@));
    assert(cells_written(chunks) + changes_written(more) =~= w + writes_of(a.changes@));
    lemma_corrections_settle(w, outcomes, cells);
}

spec fn written(w: Seq<Write>, p: WorldCoords) -> bool {
    exists|k: int| 0 <= k < w.len() && (#[trigger] w[k]).0 == p
}

proof fn lemma_settle_keys(cutoff: PointInTimeCutoff, w: Seq<Write>, p: WorldCoords)
    ensures
        settle(cutoff, w).contains_key(p) <==> cutoff.covers(p) && written(w, p),
    decreases w.len(),
{
    if w.len() > 0 {
        let d = w.drop_last();
        lemma_settle_keys(cutoff, d, p);
        if written(d, p) {
            let k = choose|k: int| 0 <= k < d.len() && (#[trigger] d[k]).0 == p;
            assert(w[k].0 == p);
        }
        if w.last().0 == p {
            assert(w[w.len() - 1].0 == p);
        }
        if written(w, p) {
            let k = choose|k: int| 0 <= k < w.len() && (#[trigger] w[k]).0 == p;
            if k < d.len() {
                assert(d[k].0 == p);
            }
        }
    }
}

proof fn lemma_written_join(a: Seq<Write>, b: Seq<Write>, p: WorldCoords)
    ensures
        written(a + b, p) <==> written(a, p) || written(b, p),
{
    let w = a + b;
    if written(a, p) {
        let k = choose|k: int| 0 <= k < a.len() && (#[trigger] a[k]).0 == p;
        assert(w[k].0 == p);
    }
    if written(b, p) {
        let k = choose|k: int| 0 <= k < b.len() && (#[trigger] b[k]).0 == p;
        assert(w[a.len() + k].0 == p);
    }
    if written(w, p) {
        let k = choose|k: int| 0 <= k < w.len() && (#[trigger] w[k]).0 == p;
        if k < a.len() {
            assert(a[k].0 == p);
        } else {
            assert(b[k - a.len()].0 == p);
        }
    }
}

/// An action of `actions` wrote at `p`.
spec fn action_wrote(actions: Seq<Action>, i: int, p: WorldCoords) -> bool {
    exists|j: int| 0 <= j < actions[i].changes@.len() && (#[trigger] actions[i].changes@[j]).pos == p
}

proof fn lemma_changes_written(actions: Seq<Action>, p: WorldCoords)
    ensures
        written(changes_written(actions), p) <==> exists|i: int|
            0 <= i < actions.len() && #[trigger] action_wrote(actions, i, p),
    decreases actions.len(),
{
    if actions.len() > 0 {
        let d = actions.drop_last();
        let n = actions.len() - 1;
        let b = writes_of(actions.last().changes@);
        lemma_changes_written(d, p);
        lemma_written_join(changes_written(d), b, p);
        assert(changes_written(actions) == changes_written(d) + b);
        if written(b, p) {
            let k = choose|k: int| 0 <= k < b.len() && (#[trigger] b[k]).0 == p;
            assert(actions[n].changes@[k].pos == p);
            assert(action_wrote(actions, n, p));
        }
        if action_wrote(actions, n, p) {
            let j = choose|j: int|
                0 <= j < actions[n].changes@.len() && (#[trigger] actions[n].changes@[j]).pos == p;
            assert(b[j].0 == p);
        }
        assert forall|i: int| 0 <= i < d.len() implies #[trigger] action_wrote(d, i, p)
            == action_wrote(actions, i, p) by {
            assert(d[i] == actions[i]);
        }
        if written(changes_written(d), p) {
            let i = choose|i: int| 0 <= i < d.len() && #[trigger] action_wrote(d, i, p);
            assert(action_wrote(actions, i, p));
        }
        if exists|i: int| 0 <= i < actions.len() && #[trigger] action_wrote(actions, i, p) {
            let i = choose|i: int| 0 <= i < actions.len() && #[trigger] action_wrote(actions, i, p);
            if i < n {
                assert(action_wrote(d, i, p));
            }
        }
    }
}

/// What came after an action past the cutoff is past the cutoff too.
pub open spec fn past_stays_past(cutoff: PointInTimeCutoff, actions: Seq<Action>) -> bool {
    forall|i: int, j: int|
        0 <= i <= j < actions.len() && cutoff.past(
            (#[trigger] actions[i]).ts,
            actions[i].action_id,
        ) ==> cutoff.past((#[trigger] actions[j]).ts, actions[j].action_id)
}

proof fn lemma_before_or_past(cutoff: PointInTimeCutoff, actions: Seq<Action>, i: int)
    requires
        past_stays_past(cutoff, actions),
        0 <= i < actions.len(),
        !cutoff.past(actions[i].ts, actions[i].action_id),
    ensures
        i < before_cutoff(cutoff, actions).len(),
        before_cutoff(cutoff, actions)[i] == actions[i],
    decreases actions.len(),
{
    assert(!cutoff.past(actions[0].ts, actions[0].action_id));
    let rest = actions.drop_first();
    assert forall|a: int, b: int|
        0 <= a <= b < rest.len() && cutoff.past((#[trigger] rest[a]).ts, rest[a].action_id) implies
        cutoff.past((#[trigger] rest[b]).ts, rest[b].action_id) by {
        assert(rest[a] == actions[a + 1]);
        assert(rest[b] == actions[b + 1]);
    }
    if i > 0 {
        assert(rest[i - 1] == actions[i]);
        lemma_before_or_past(cutoff, rest, i - 1);
    }
}

proof fn lemma_unnamed_place_is_empty(
    cutoff: PointInTimeCutoff,
    chunks: Seq<StoredChunk>,
    actions: Seq<Action>,
    p: WorldCoords,
)
    requires
        past_stays_past(cutoff, actions),
        cutoff.covers(p),
        !state_as_of(cutoff, chunks, actions).contains_key(p),
        !touched_after(cutoff, actions, p),
    ensures
        !cells_left(chunks, actions).contains_key(p),
{
    let early = before_cutoff(cutoff, actions);
    lemma_settle_keys(cutoff, cells_written(chunks) + changes_written(early), p);
    lemma_settle_keys(no_cutoff(), cells_written(chunks) + changes_written(actions), p);
    lemma_written_join(cells_written(chunks), changes_written(early), p);
    lemma_written_join(cells_written(chunks), changes_written(actions), p);
    lemma_changes_written(early, p);
    lemma_changes_written(actions, p);
    if written(changes_written(actions), p) {
        let i = choose|i: int| 0 <= i < actions.len() && #[trigger] action_wrote(actions, i, p);
        let j = choose|j: int|
            0 <= j < actions[i].changes@.len() && (#[trigger] actions[i].changes@[j]).pos == p;
        if cutoff.past(actions[i].ts, actions[i].action_id) {
            assert(actions[i].changes@[j].pos == p);
        } else {
            lemma_before_or_past(cutoff, actions, i);
            assert(early[i].changes@[j].pos == p);
            assert(action_wrote(early, i, p));
        }
    }
}

/// Carrying out a revert to a point in time brings that moment back: every
/// place that the cutoff covers looks as it did then, and every other place
/// holds what it held. This is so wherever everything that came after an action
/// past the cutoff is past the cutoff too.
pub proof fn law_rollback_brings_back_the_past(
    cutoff: PointInTimeCutoff,
    chunks: Seq<StoredChunk>,
    actions: Seq<Action>,
    outcomes: Seq<RevertOutcome>,
    after: Map<WorldCoords, Option<StoredChunkCell>>,
    p: WorldCoords,
)
    requires
        rewinds(cutoff, chunks, actions, cells_left(chunks, actions), outcomes),
        carried_out(outcomes, cells_left(chunks, actions), after),
        past_stays_past(cutoff, actions),
    ensures
        cutoff.covers(p) ==> looks_same(
            cell_in(state_as_of(cutoff, chunks, actions), p),
            cell_in(after, p),
        ),
        !cutoff.covers(p) ==> cell_in(after, p) == cell_in(cells_left(chunks, actions), p),
{
    let target = state_as_of(cutoff, chunks, actions);
    let before = cells_left(chunks, actions);
    let early = before_cutoff(cutoff, actions);
    lemma_settle_keys(cutoff, cells_written(chunks) + changes_written(early), p);
    if exists|i: int| 0 <= i < outcomes.len() && (#[trigger] outcomes[i]).place() == p {
        let i = choose|i: int| 0 <= i < outcomes.len() && (#[trigger] outcomes[i]).place() == p;
        assert(rewind_is(outcomes[i], target, cell_in(before, p)));
        if outcomes[i] is Skipped {
            if is_restored(outcomes, p) {
                let j = choose|j: int|
                    0 <= j < outcomes.len() && (#[trigger] outcomes[j]) is Restore
                        && outcomes[j].place() == p;
                assert(outcomes[i].place() == outcomes[j].place());
                assert(i == j);
            }
        }
    } else {
        assert(!target.contains_key(p));
        assert(!touched_after(cutoff, actions, p));
        assert(!is_restored(outcomes, p));
        assert(cell_in(after, p) == cell_in(before, p));
        if cutoff.covers(p) {
            lemma_unnamed_place_is_empty(cutoff, chunks, actions, p);
        }
    }
}

/// Carrying out a filtered revert takes the filter's edits back, and nothing
/// else: a place whose last change is one of them looks as it did before the
/// first of them; every other place holds what it held.
pub proof fn law_revert_takes_edits_back(
    filter: RevertFilter,
    actions: Seq<Action>,
    outcomes: Seq<RevertOutcome>,
    before: Map<WorldCoords, Option<StoredChunkCell>>,
    after: Map<WorldCoords, Option<StoredChunkCell>>,
    p: WorldCoords,
)
    requires
        reverts(filter, actions, before, outcomes),
        carried_out(outcomes, before, after),
    ensures
        ({
            let here = touches_at(touches(actions), p);
            let mine = targeted_at(filter, touches(actions), p);
            if mine.len() > 0 && filter.targets(here.last()) {
                looks_same(mine[0].change.old, cell_in(after, p))
            } else {
                cell_in(after, p) == cell_in(before, p)
            }
        }),
{
    let here = touches_at(touches(actions), p);
    let mine = targeted_at(filter, touches(actions), p);
    if exists|i: int| 0 <= i < outcomes.len() && (#[trigger] outcomes[i]).place() == p {
        let i = choose|i: int| 0 <= i < outcomes.len() && (#[trigger] outcomes[i]).place() == p;
        assert(outcome_is(outcomes[i], p, filter, here, cell_in(before, p)));
        assert(mine == here.filter(|t: Touch| filter.targets(t)));
        if outcomes[i] is Skipped {
            if is_restored(outcomes, p) {
                let j = choose|j: int|
                    0 <= j < outcomes.len() && (#[trigger] outcomes[j]) is Restore
                        && outcomes[j].place() == p;
                assert(outcomes[i].place() == outcomes[j].place());
                assert(i == j);
            }
        }
    } else {
        assert(mine.len() == 0);
        assert(!is_restored(outcomes, p));
    }
}

/// Number of changes that the first `i` actions made.
spec fn flat_start(actions: Seq<Action>, i: int) -> nat {
    touches(actions.take(i)).len()
}

proof fn lemma_flat_start(actions: Seq<Action>, i: int, k: int)
    requires
        0 <= i < k <= actions.len(),
    ensures
        flat_start(actions, i) + actions[i].changes@.len() <= flat_start(actions, k),
        flat_start(actions, actions.len() as int) == touches(actions).len(),
    decreases k,
{
    assert(actions.take(actions.len() as int) =~= actions);
    assert(actions.take(k).drop_last() =~= actions.take(k - 1));
    if k > i + 1 {
        lemma_flat_start(actions, i, k - 1);
    }
}

proof fn lemma_flat(actions: Seq<Action>, i: int, j: int)
    requires
        0 <= i < actions.len(),
        0 <= j < actions[i].changes@.len(),
    ensures
        0 <= flat_start(actions, i) + j < touches(actions).len(),
        touches(actions)[flat_start(actions, i) + j] == touch(actions[i], actions[i].changes@[j]),
    decreases actions.len(),
{
    let d = actions.drop_last();
    if i < d.len() {
        assert(d.take(i) =~= actions.take(i));
        lemma_flat(d, i, j);
    } else {
        assert(actions.take(i) =~= d);
    }
}

proof fn lemma_unflat(actions: Seq<Action>, k: int) -> (r: (int, int))
    requires
        0 <= k < touches(actions).len(),
    ensures
        0 <= r.0 < actions.len(),
        0 <= r.1 < actions[r.0].changes@.len(),
        k == flat_start(actions, r.0) + r.1,
        touches(actions)[k] == touch(actions[r.0], actions[r.0].changes@[r.1]),
    decreases actions.len(),
{
    let d = actions.drop_last();
    let n = actions.len() - 1;
    if k < touches(d).len() {
        let (i, j) = lemma_unflat(d, k);
        assert(d.take(i) =~= actions.take(i));
        (i, j)
    } else {
        assert(actions.take(n) =~= d);
        (n, k - touches(d).len())
    }
}

proof fn lemma_filter_ends<A>(s: Seq<A>, f: spec_fn(A) -> bool, k: int)
    requires
        0 <= k < s.len(),
        f(s[k]),
    ensures
        s.filter(f).len() > 0,
        (forall|m: int| 0 <= m < k ==> !f(#[trigger] s[m])) ==> s.filter(f)[0] == s[k],
        (forall|m: int| k < m < s.len() ==> !f(#[trigger] s[m])) ==> s.filter(f).last() == s[k],
    decreases s.len(),
{
    let d = s.drop_last();
    let n = s.len() - 1;
    assert(d.push(s[n]) =~= s);
    lemma_filter_push(d, s[n], f);
    if k < n {
        lemma_filter_ends(d, f, k);
        assert(d[k] == s[k]);
        if forall|m: int| 0 <= m < k ==> !f(#[trigger] s[m]) {
            assert forall|m: int| 0 <= m < k implies !f(#[trigger] d[m]) by {
                assert(d[m] == s[m]);
            }
        }
        if forall|m: int| k < m < s.len() ==> !f(#[trigger] s[m]) {
            assert(!f(s[n]));
            assert forall|m: int| k < m < d.len() implies !f(#[trigger] d[m]) by {
                assert(d[m] == s[m]);
            }
        }
    } else if forall|m: int| 0 <= m < k ==> !f(#[trigger] s[m]) {
        assert forall|m: int| 0 <= m < d.len() implies !f(#[trigger] d[m]) by {
            assert(d[m] == s[m]);
        }
        lemma_filter_none(d, f);
    }
}

proof fn lemma_filter_none<A>(s: Seq<A>, f: spec_fn(A) -> bool)
    requires
        forall|m: int| 0 <= m < s.len() ==> !f(#[trigger] s[m]),
    ensures
        s.filter(f).len() == 0,
    decreases s.len(),
{
    reveal(Seq::filter);
    if s.len() > 0 {
        let d = s.drop_last();
        assert forall|m: int| 0 <= m < d.len() implies !f(#[trigger] d[m]) by {
            assert(d[m] == s[m]);
        }
        lemma_filter_none(d, f);
        assert(!f(s[s.len() - 1]));
    }
}

proof fn lemma_filter_twice<A>(s: Seq<A>, f: spec_fn(A) -> bool, g: spec_fn(A) -> bool)
    ensures
        s.filter(f).filter(g) == s.filter(|x: A| f(x) && g(x)),
    decreases s.len(),
{
    let both = |x: A| f(x) && g(x);
    reveal(Seq::filter);
    if s.len() > 0 {
        let d = s.drop_last();
        lemma_filter_twice(d, f, g);
        if f(s.last()) {
            lemma_filter_push(d.filter(f), s.last(), g);
        }
    } else {
        assert(s.filter(f) =~= s);
        assert(s.filter(f).filter(g) =~= s.filter(both));
    }
}

/// Change `j` of action `i` is at `p`.
pub open spec fn change_at(actions: Seq<Action>, i: int, j: int, p: WorldCoords) -> bool {
    0 <= i < actions.len() && 0 <= j < actions[i].changes@.len() && actions[i].changes@[j].pos == p
}

/// What is at `(i, j)` comes before what is at `(m, n)`.
pub open spec fn comes_before(i: int, j: int, m: int, n: int) -> bool {
    i < m || (i == m && j < n)
}

/// Two cells that are both empty, or bear the same character in the same color.
pub open spec fn alike(a: Option<StoredChunkCell>, b: Option<StoredChunkCell>) -> bool {
    &&& a is None <==> b is None
    &&& a is Some ==> a->0.ch == b->0.ch && a->0.color.0 == b->0.color.0 && a->0.color.1
        == b->0.color.1 && a->0.color.2 == b->0.color.2
}

/// An edit that was made before or after the time that a filter asks for, or has
/// a number below or above the ones asked for, or is by another author, or lies
/// left of, right of, above or below the region, is not taken back: a place with
/// no other edits has no outcome, and keeps what it holds.
pub proof fn law_edits_outside_the_filter_stay(
    filter: RevertFilter,
    actions: Seq<Action>,
    outcomes: Seq<RevertOutcome>,
    before: Map<WorldCoords, Option<StoredChunkCell>>,
    after: Map<WorldCoords, Option<StoredChunkCell>>,
    p: WorldCoords,
)
    requires
        reverts(filter, actions, before, outcomes),
        carried_out(outcomes, before, after),
        forall|i: int, j: int| #[trigger]
            change_at(actions, i, j, p) ==> {
                ||| filter.ts_range is Some && actions[i].ts < (filter.ts_range->0).0
                ||| filter.ts_range is Some && actions[i].ts > (filter.ts_range->0).1
                ||| filter.action_id_range is Some && actions[i].action_id
                    < (filter.action_id_range->0).0
                ||| filter.action_id_range is Some && actions[i].action_id
                    > (filter.action_id_range->0).1
                ||| filter.author_id is Some && actions[i].author_id != filter.author_id->0
                ||| filter.region is Some && p.x < filter.region->0.a.x
                ||| filter.region is Some && p.x > filter.region->0.b.x
                ||| filter.region is Some && p.y < filter.region->0.a.y
                ||| filter.region is Some && p.y > filter.region->0.b.y
            },
    ensures
        forall|k: int| 0 <= k < outcomes.len() ==> (#[trigger] outcomes[k]).place() != p,
        cell_in(after, p) == cell_in(before, p),
{
    let all = touches(actions);
    let here = touches_at(all, p);
    let mine = targeted_at(filter, all, p);
    lemma_filter_twice(all, |t: Touch| t.change.pos == p, |t: Touch| filter.targets(t));
    let both = |t: Touch|
        (|t: Touch| t.change.pos == p)(t) && (|t: Touch| filter.targets(t))(t);
    assert forall|k: int| 0 <= k < all.len() implies !both(#[trigger] all[k]) by {
        let (i, j) = lemma_unflat(actions, k);
        if all[k].change.pos == p {
            assert(change_at(actions, i, j, p));
        }
    }
    lemma_filter_none(all, both);
    assert(mine.len() == 0);
    assert forall|k: int| 0 <= k < outcomes.len() implies (#[trigger] outcomes[k]).place() != p by {
        if outcomes[k].place() == p {
            assert(outcome_is(outcomes[k], p, filter, here, cell_in(before, p)));
        }
    }
    assert(!is_restored(outcomes, p));
}

/// The edit was made in the time asked for, has one of the numbers and is by the
/// author asked for, and lies between the corners of the region.
pub open spec fn meets(filter: RevertFilter, a: Action, p: WorldCoords) -> bool {
    &&& filter.ts_range is Some ==> (filter.ts_range->0).0 <= a.ts && a.ts <= (filter.ts_range->0).1
    &&& filter.action_id_range is Some ==> (filter.action_id_range->0).0 <= a.action_id
        && a.action_id <= (filter.action_id_range->0).1
    &&& filter.author_id is Some ==> a.author_id == filter.author_id->0
    &&& filter.region is Some ==> filter.region->0.a.x <= p.x && p.x <= filter.region->0.b.x
        && filter.region->0.a.y <= p.y && p.y <= filter.region->0.b.y
}

/// Where the last edit of a place is one to take back, the place gets what it
/// held before the first edit to take back; where the last edit is another, the
/// place keeps what it holds, and the outcome says whose edit it is.
pub proof fn law_edits_in_the_filter_are_taken_back(
    filter: RevertFilter,
    actions: Seq<Action>,
    outcomes: Seq<RevertOutcome>,
    before: Map<WorldCoords, Option<StoredChunkCell>>,
    after: Map<WorldCoords, Option<StoredChunkCell>>,
    p: WorldCoords,
    first: (int, int),
    last: (int, int),
)
    requires
        reverts(filter, actions, before, outcomes),
        carried_out(outcomes, before, after),
        change_at(actions, first.0, first.1, p),
        meets(filter, actions[first.0], p),
        forall|i: int, j: int| #[trigger]
            change_at(actions, i, j, p) && comes_before(i, j, first.0, first.1) ==> !meets(
                filter,
                actions[i],
                p,
            ),
        change_at(actions, last.0, last.1, p),
        forall|i: int, j: int| #[trigger]
            change_at(actions, i, j, p) ==> !comes_before(last.0, last.1, i, j),
    ensures
        meets(filter, actions[last.0], p) ==> alike(
            actions[first.0].changes@[first.1].old,
            cell_in(after, p),
        ),
        !meets(filter, actions[last.0], p) ==> cell_in(after, p) == cell_in(before, p),
        exists|k: int|
            {
                &&& 0 <= k < outcomes.len()
                &&& (#[trigger] outcomes[k]).place() == p
                &&& match outcomes[k] {
                    RevertOutcome::Restore {
                        restore_to,
                        current,
                        earliest_targeted_action_id,
                        ..
                    } => {
                        &&& meets(filter, actions[last.0], p)
                        &&& restore_to == actions[first.0].changes@[first.1].old
                        &&& current == cell_in(before, p)
                        &&& !alike(restore_to, current)
                        &&& earliest_targeted_action_id == actions[first.0].action_id
                    },
                    RevertOutcome::Skipped {
                        reason: SkipReason::OverwrittenByOther { by_author, at_action_id },
                        ..
                    } => {
                        &&& !meets(filter, actions[last.0], p)
                        &&& by_author == actions[last.0].author_id
                        &&& at_action_id == actions[last.0].action_id
                    },
                    RevertOutcome::Skipped { reason: SkipReason::NoChange, .. } => {
                        &&& meets(filter, actions[last.0], p)
                        &&& alike(
                            actions[first.0].changes@[first.1].old,
                            cell_in(before, p),
                        )
                    },
                }
            },
{
    let all = touches(actions);
    let here = touches_at(all, p);
    let mine = targeted_at(filter, all, p);
    let at_p = |t: Touch| t.change.pos == p;
    let goal = |t: Touch| filter.targets(t);
    let both = |t: Touch| at_p(t) && goal(t);
    let kf = flat_start(actions, first.0) + first.1;
    let kl = flat_start(actions, last.0) + last.1;
    lemma_flat(actions, first.0, first.1);
    lemma_flat(actions, last.0, last.1);
    lemma_filter_twice(all, at_p, goal);
    assert forall|k: int| 0 <= k < kf implies !both(#[trigger] all[k]) by {
        let (i, j) = lemma_unflat(actions, k);
        if at_p(all[k]) {
            assert(change_at(actions, i, j, p));
            if i > first.0 {
                lemma_flat_start(actions, first.0, i);
            }
            assert(comes_before(i, j, first.0, first.1));
        }
    }
    lemma_filter_ends(all, both, kf);
    assert forall|k: int| kl < k < all.len() implies !at_p(#[trigger] all[k]) by {
        let (i, j) = lemma_unflat(actions, k);
        if at_p(all[k]) {
            assert(change_at(actions, i, j, p));
            if i < last.0 {
                lemma_flat_start(actions, i, last.0);
            }
        }
    }
    lemma_filter_ends(all, at_p, kl);
    assert(mine == all.filter(both));
    assert(mine[0] == touch(actions[first.0], actions[first.0].changes@[first.1]));
    assert(here.last() == touch(actions[last.0], actions[last.0].changes@[last.1]));
    let k = choose|k: int| 0 <= k < outcomes.len() && (#[trigger] outcomes[k]).place() == p;
    assert(outcome_is(outcomes[k], p, filter, here, cell_in(before, p)));
    assert(here.filter(|t: Touch| filter.targets(t)) == mine);
    law_revert_takes_edits_back(filter, actions, outcomes, before, after, p);
}

proof fn lemma_flat_writes(actions: Seq<Action>, k: int)
    requires
        0 <= k < touches(actions).len(),
    ensures
        changes_written(actions).len() == touches(actions).len(),
        changes_written(actions)[k] == (
            touches(actions)[k].change.pos,
            touches(actions)[k].change.new,
        ),
    decreases actions.len(),
{
    let d = actions.drop_last();
    lemma_flat_writes_len(actions);
    lemma_flat_writes_len(d);
    if k < touches(d).len() {
        lemma_flat_writes(d, k);
    }
}

proof fn lemma_flat_writes_len(actions: Seq<Action>)
    ensures
        changes_written(actions).len() == touches(actions).len(),
    decreases actions.len(),
{
    if actions.len() > 0 {
        lemma_flat_writes_len(actions.drop_last());
    }
}

/// Cell `n` of chunk `c` of a snapshot stands at `p`.
pub open spec fn stored_at(chunks: Seq<StoredChunk>, c: int, n: int, p: WorldCoords) -> bool {
    &&& 0 <= c < chunks.len()
    &&& 0 <= n < chunks[c].cells@.len()
    &&& p.x == 64 * chunks[c].coords.x + chunks[c].cells@[n].local.x
    &&& p.y == 16 * chunks[c].coords.y + chunks[c].cells@[n].local.y
}

/// Place `k` of `w` is the last write at its place.
spec fn last_write(w: Seq<Write>, k: int) -> bool {
    0 <= k < w.len() && forall|m: int| k < m < w.len() ==> (#[trigger] w[m]).0 != w[k].0
}

proof fn lemma_last_stored(chunks: Seq<StoredChunk>, c: int, n: int, p: WorldCoords) -> (k: int)
    requires
        stored_at(chunks, c, n, p),
        forall|i: int, j: int| #[trigger]
            stored_at(chunks, i, j, p) ==> !comes_before(c, n, i, j),
    ensures
        last_write(cells_written(chunks), k),
        cells_written(chunks)[k] == (p, Some(chunks[c].cells@[n])),
    decreases chunks.len(),
{
    let d = chunks.drop_last();
    let x = chunks.last();
    let last = chunks.len() - 1;
    let b = x.cells@.map_values(
        |y: StoredChunkCell| (WorldCoords::spec_from_chunk(x.coords, y.local), Some(y)),
    );
    let w = cells_written(chunks);
    assert(w == cells_written(d) + b);
    assert forall|m: int|
        cells_written(d).len() <= m < w.len() && (#[trigger] w[m]).0 == p implies stored_at(
        chunks,
        last,
        m - cells_written(d).len(),
        p,
    ) by {
        assert(w[m] == b[m - cells_written(d).len()]);
    }
    if c < last {
        assert forall|i: int, j: int| #[trigger] stored_at(d, i, j, p) implies !comes_before(
            c,
            n,
            i,
            j,
        ) by {
            assert(d[i] == chunks[i]);
            assert(stored_at(chunks, i, j, p));
        }
        assert(d[c] == chunks[c]);
        let k = lemma_last_stored(d, c, n, p);
        assert forall|m: int| k < m < w.len() implies (#[trigger] w[m]).0 != w[k].0 by {
            if m < cells_written(d).len() {
                assert(w[m] == cells_written(d)[m]);
            } else if w[m].0 == p {
                assert(stored_at(chunks, last, m - cells_written(d).len(), p));
            }
        }
        k
    } else {
        let k = cells_written(d).len() + n;
        assert(w[k] == b[n]);
        assert forall|m: int| k < m < w.len() implies (#[trigger] w[m]).0 != w[k].0 by {
            if w[m].0 == p {
                assert(stored_at(chunks, last, m - cells_written(d).len(), p));
            }
        }
        k
    }
}

proof fn lemma_none_stored(chunks: Seq<StoredChunk>, p: WorldCoords)
    requires
        forall|i: int, j: int| !(#[trigger] stored_at(chunks, i, j, p)),
    ensures
        !written(cells_written(chunks), p),
    decreases chunks.len(),
{
    if chunks.len() > 0 {
        let d = chunks.drop_last();
        let x = chunks.last();
        let b = x.cells@.map_values(
            |y: StoredChunkCell| (WorldCoords::spec_from_chunk(x.coords, y.local), Some(y)),
        );
        assert forall|i: int, j: int| !(#[trigger] stored_at(d, i, j, p)) by {
            if stored_at(d, i, j, p) {
                assert(stored_at(chunks, i, j, p));
            }
        }
        lemma_none_stored(d, p);
        lemma_written_join(cells_written(d), b, p);
        if written(b, p) {
            let k = choose|k: int| 0 <= k < b.len() && (#[trigger] b[k]).0 == p;
            assert(stored_at(chunks, chunks.len() - 1, k, p));
        }
    }
}

/// What is at `p` once a snapshot has been read and then actions replayed: what
/// the last change there wrote; without one, what the snapshot has there; without
/// that, nothing.
pub open spec fn written_last(
    chunks: Seq<StoredChunk>,
    actions: Seq<Action>,
    p: WorldCoords,
    cell: Option<StoredChunkCell>,
) -> bool {
    ||| exists|i: int, j: int|
        {
            &&& #[trigger] change_at(actions, i, j, p)
            &&& cell == actions[i].changes@[j].new
            &&& forall|m: int, n: int| #[trigger]
                change_at(actions, m, n, p) ==> !comes_before(i, j, m, n)
        }
    ||| {
        &&& forall|m: int, n: int| !(#[trigger] change_at(actions, m, n, p))
        &&& exists|c: int, n: int|
            {
                &&& #[trigger] stored_at(chunks, c, n, p)
                &&& cell == Some(chunks[c].cells@[n])
                &&& forall|i: int, j: int| #[trigger]
                    stored_at(chunks, i, j, p) ==> !comes_before(c, n, i, j)
            }
    }
    ||| {
        &&& forall|m: int, n: int| !(#[trigger] change_at(actions, m, n, p))
        &&& forall|c: int, n: int| !(#[trigger] stored_at(chunks, c, n, p))
        &&& cell is None
    }
}

proof fn lemma_settled_value(
    cutoff: PointInTimeCutoff,
    chunks: Seq<StoredChunk>,
    actions: Seq<Action>,
    p: WorldCoords,
    cell: Option<StoredChunkCell>,
)
    requires
        cutoff.covers(p),
        written_last(chunks, actions, p, cell),
    ensures
        cell_in(settle(cutoff, cells_written(chunks) + changes_written(actions)), p) == cell,
{
    let a = cells_written(chunks);
    let b = changes_written(actions);
    let w = a + b;
    lemma_flat_writes_len(actions);
    lemma_settle_keys(cutoff, w, p);
    lemma_written_join(a, b, p);
    assert forall|k: int| 0 <= k < b.len() && (#[trigger] b[k]).0 == p implies exists|
        i: int,
        j: int,
    |
        #[trigger] change_at(actions, i, j, p) && k == flat_start(actions, i) + j && b[k].1
            == actions[i].changes@[j].new by {
        let (i, j) = lemma_unflat(actions, k);
        lemma_flat_writes(actions, k);
        assert(change_at(actions, i, j, p));
    }
    if exists|i: int, j: int|
        {
            &&& #[trigger] change_at(actions, i, j, p)
            &&& cell == actions[i].changes@[j].new
            &&& forall|m: int, n: int| #[trigger]
                change_at(actions, m, n, p) ==> !comes_before(i, j, m, n)
        } {
        let (i, j) = choose|i: int, j: int|
            {
                &&& #[trigger] change_at(actions, i, j, p)
                &&& cell == actions[i].changes@[j].new
                &&& forall|m: int, n: int| #[trigger]
                    change_at(actions, m, n, p) ==> !comes_before(i, j, m, n)
            };
        let k = flat_start(actions, i) + j;
        lemma_flat(actions, i, j);
        lemma_flat_writes(actions, k);
        assert(w[a.len() + k] == b[k]);
        assert forall|m: int| a.len() + k < m < w.len() implies (#[trigger] w[m]).0 != p by {
            let q = m - a.len();
            assert(w[m] == b[q]);
            if b[q].0 == p {
                let (x, y) = choose|x: int, y: int| #[trigger]
                    change_at(actions, x, y, p) && q == flat_start(actions, x) + y && b[q].1
                        == actions[x].changes@[y].new;
                if x < i {
                    lemma_flat_start(actions, x, i);
                }
            }
        }
        law_last_write_before_cutoff_counts(cutoff, w, a.len() + k);
    } else {
        assert(!written(b, p)) by {
            if written(b, p) {
                let k = choose|k: int| 0 <= k < b.len() && (#[trigger] b[k]).0 == p;
                let (x, y) = choose|x: int, y: int| #[trigger]
                    change_at(actions, x, y, p) && k == flat_start(actions, x) + y && b[k].1
                        == actions[x].changes@[y].new;
                assert(change_at(actions, x, y, p));
            }
        }
        if exists|c: int, n: int|
            {
                &&& #[trigger] stored_at(chunks, c, n, p)
                &&& cell == Some(chunks[c].cells@[n])
                &&& forall|i: int, j: int| #[trigger]
                    stored_at(chunks, i, j, p) ==> !comes_before(c, n, i, j)
            } {
            let (c, n) = choose|c: int, n: int|
                {
                    &&& #[trigger] stored_at(chunks, c, n, p)
                    &&& cell == Some(chunks[c].cells@[n])
                    &&& forall|i: int, j: int| #[trigger]
                        stored_at(chunks, i, j, p) ==> !comes_before(c, n, i, j)
                };
            let k = lemma_last_stored(chunks, c, n, p);
            assert(w[k] == a[k]);
            assert forall|m: int| k < m < w.len() implies (#[trigger] w[m]).0 != p by {
                if m < a.len() {
                    assert(w[m] == a[m]);
                } else if w[m].0 == p {
                    assert(b[m - a.len()].0 == p);
                }
            }
            law_last_write_before_cutoff_counts(cutoff, w, k);
        } else {
            lemma_none_stored(chunks, p);
        }
    }
}

/// A board that is loaded from a snapshot and the log holds at every place what
/// was written there last.
pub proof fn law_loaded_board_holds_what_was_written_last(
    board: Board,
    p: WorldCoords,
    cell: Option<StoredChunkCell>,
)
    requires
        board.wf(),
        written_last(board.snapshot_chunks@, board.actions@, p, cell),
    ensures
        board.cell(p) == cell,
{
    lemma_settled_value(no_cutoff(), board.snapshot_chunks@, board.actions@, p, cell);
}

/// A rollback that is limited to a region changes nothing left of it, right of
/// it, above it or below it: no outcome names a place there, and the place keeps
/// what it holds.
pub proof fn law_rollback_stays_in_its_region(
    cutoff: PointInTimeCutoff,
    chunks: Seq<StoredChunk>,
    actions: Seq<Action>,
    outcomes: Seq<RevertOutcome>,
    before: Map<WorldCoords, Option<StoredChunkCell>>,
    after: Map<WorldCoords, Option<StoredChunkCell>>,
    p: WorldCoords,
)
    requires
        rewinds(cutoff, chunks, actions, before, outcomes),
        carried_out(outcomes, before, after),
        cutoff.region is Some,
        p.x < cutoff.region->0.a.x || p.x > cutoff.region->0.b.x || p.y < cutoff.region->0.a.y
            || p.y > cutoff.region->0.b.y,
    ensures
        forall|k: int| 0 <= k < outcomes.len() ==> (#[trigger] outcomes[k]).place() != p,
        cell_in(after, p) == cell_in(before, p),
{
    let early = before_cutoff(cutoff, actions);
    lemma_settle_keys(cutoff, cells_written(chunks) + changes_written(early), p);
    assert(!state_as_of(cutoff, chunks, actions).contains_key(p));
    assert(!touched_after(cutoff, actions, p));
    assert(!is_restored(outcomes, p));
}

/// A rollback to a time, or to a number of action, shows the board as it was
/// before the first action at that time or with that number, or later: a place
/// in the region looks as what was written there last before. This is so
/// wherever everything that came after such an action is such an action too.
pub proof fn law_rollback_shows_what_was_written_last_before(
    cutoff: PointInTimeCutoff,
    chunks: Seq<StoredChunk>,
    actions: Seq<Action>,
    outcomes: Seq<RevertOutcome>,
    after: Map<WorldCoords, Option<StoredChunkCell>>,
    p: WorldCoords,
    first: int,
    cell: Option<StoredChunkCell>,
)
    requires
        rewinds(cutoff, chunks, actions, cells_left(chunks, actions), outcomes),
        carried_out(outcomes, cells_left(chunks, actions), after),
        cutoff.region is Some ==> cutoff.region->0.a.x <= p.x && p.x <= cutoff.region->0.b.x
            && cutoff.region->0.a.y <= p.y && p.y <= cutoff.region->0.b.y,
        0 <= first <= actions.len(),
        forall|i: int|
            0 <= i < first ==> {
                &&& cutoff.before_ts is Some ==> (#[trigger] actions[i]).ts < cutoff.before_ts->0
                &&& cutoff.before_action_id is Some ==> actions[i].action_id
                    < cutoff.before_action_id->0
            },
        forall|i: int|
            first <= i < actions.len() ==> {
                ||| cutoff.before_ts is Some && (#[trigger] actions[i]).ts >= cutoff.before_ts->0
                ||| cutoff.before_action_id is Some && actions[i].action_id
                    >= cutoff.before_action_id->0
            },
        written_last(chunks, actions.take(first), p, cell),
    ensures
        alike(cell, cell_in(after, p)),
{
    lemma_before_cutoff(cutoff, actions, first);
    lemma_settled_value(cutoff, chunks, actions.take(first), p, cell);
    assert(past_stays_past(cutoff, actions));
    law_rollback_brings_back_the_past(cutoff, chunks, actions, outcomes, after, p);
}

/// Nothing is given another value by a rollback that would look as it did.
pub proof fn law_rollback_restores_only_what_differs(
    cutoff: PointInTimeCutoff,
    chunks: Seq<StoredChunk>,
    actions: Seq<Action>,
    outcomes: Seq<RevertOutcome>,
    before: Map<WorldCoords, Option<StoredChunkCell>>,
    k: int,
)
    requires
        rewinds(cutoff, chunks, actions, before, outcomes),
        0 <= k < outcomes.len(),
        outcomes[k] is Restore,
    ensures
        outcomes[k]->current == cell_in(before, outcomes[k].place()),
        !alike(outcomes[k]->restore_to, outcomes[k]->current),
{
    assert(rewind_is(
        outcomes[k],
        state_as_of(cutoff, chunks, actions),
        cell_in(before, outcomes[k].place()),
    ));
}

} // verus!
