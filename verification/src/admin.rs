//! Taking edits back while the server is down.

use vstd::prelude::*;

use crate::coords::{WorldCoords, WorldRect};
use crate::history::{by_id, sort_actions};
use crate::model::{Action, CellChange, Segment, StoredChunk, StoredChunkCell};
use crate::parse::{bounded_int, read_int, split, split_at};
use crate::revert::{
    lemma_filter_push, before_cutoff, cells_written, changes_written, compute_point_in_time_revert,
    compute_revert, compute_state_as_of, outcome_is, rewind_is, settle, settled, state_as_of,
    targeted_at, touches, touches_at, PointInTimeCutoff, RevertFilter, RevertOutcome,
    MAX_REVERT_POSITIONS,
};
use crate::sort::sort_by;
use crate::table::CoordMap;
use crate::text::{chars_of, string_of, trim, trim_of};

verus! {

/// The number that stands in one part of a region's text.
pub open spec fn region_number(part: Seq<char>) -> Option<int> {
    bounded_int(trim(part), true, i64::MIN as int, i64::MAX as int)
}

/// The rectangle that four numbers with commas between them name.
pub open spec fn region_text(s: Seq<char>) -> Option<WorldRect> {
    let parts = split(s, ',');
    if parts.len() == 4 && region_number(parts[0]) is Some && region_number(parts[1]) is Some
        && region_number(parts[2]) is Some && region_number(parts[3]) is Some {
        Some(
            WorldRect {
                a: WorldCoords::nearest(region_number(parts[0])->0, region_number(parts[1])->0),
                b: WorldCoords::nearest(region_number(parts[2])->0, region_number(parts[3])->0),
            },
        )
    } else {
        None
    }
}

fn read_number(v: &Vec<char>, from: usize, to: usize) -> (r: Option<i64>)
    requires
        from <= to <= v@.len(),
    ensures
        match region_number(v@.subrange(from as int, to as int)) {
            Some(n) => r == Some(n as i64) && i64::MIN <= n <= i64::MAX,
            None => r is None,
        },
{
    let part = string_of(v, from, to);
    let text = trim_of(part.as_str());
    let w = chars_of(text.as_str());
    assert(w@.subrange(0, w@.len() as int) =~= w@);
    read_int(&w, 0, w.len(), true, i64::MIN, i64::MAX)
}

fn region_error() -> (r: String)
    ensures
        r@ == "expected x0,y0,x1,y1"@,
{
    String::from_str("expected x0,y0,x1,y1")
}

pub fn parse_region(s: &str) -> (r: Result<WorldRect, String>)
    ensures
        match region_text(s@) {
            Some(rect) => r == Ok::<WorldRect, String>(rect),
            None => r matches Err(e) && e@ == "expected x0,y0,x1,y1"@,
        },
{
    let v = chars_of(s);
    let parts = split_at(&v, ',');
    if parts.len() != 4 {
        return Err(region_error());
    }
    match (
        read_number(&v, parts[0].0, parts[0].1),
        read_number(&v, parts[1].0, parts[1].1),
        read_number(&v, parts[2].0, parts[2].1),
        read_number(&v, parts[3].0, parts[3].1),
    ) {
        (Some(x0), Some(y0), Some(x1), Some(y1)) => Ok(
            WorldRect::new(WorldCoords::from_i64(x0, y0), WorldCoords::from_i64(x1, y1)),
        ),
        _ => Err(region_error()),
    }
}

/// What the files hold: the last snapshot, the actions since, and the cells
/// that they leave.
pub struct Board {
    pub snapshot_chunks: Vec<StoredChunk>,
    pub actions: Vec<Action>,
    pub cells: CoordMap<WorldCoords, Option<StoredChunkCell>>,
}

/// No cutoff at all.
pub open spec fn no_cutoff() -> PointInTimeCutoff {
    PointInTimeCutoff { before_ts: None, before_action_id: None, region: None }
}

/// The cells that a snapshot and the actions after it leave.
pub open spec fn cells_left(chunks: Seq<StoredChunk>, actions: Seq<Action>) -> Map<
    WorldCoords,
    Option<StoredChunkCell>,
> {
    settle(no_cutoff(), cells_written(chunks) + changes_written(actions))
}

/// All actions of `segments`, in order.
pub open spec fn logged(segments: Seq<Segment>) -> Seq<Action>
    decreases segments.len(),
{
    if segments.len() == 0 {
        Seq::empty()
    } else {
        logged(segments.drop_last()) + segments.last().actions@
    }
}

/// What is written at a place.
pub open spec fn cell_in(
    cells: Map<WorldCoords, Option<StoredChunkCell>>,
    pos: WorldCoords,
) -> Option<StoredChunkCell> {
    if cells.contains_key(pos) {
        cells[pos]
    } else {
        None
    }
}

impl Board {
    /// The cells are those that the snapshot and the actions leave.
    pub open spec fn wf(&self) -> bool {
        self.cells@ == cells_left(self.snapshot_chunks@, self.actions@)
    }

    pub open spec fn cell(&self, pos: WorldCoords) -> Option<StoredChunkCell> {
        cell_in(self.cells@, pos)
    }

    pub fn cell_at(&self, pos: WorldCoords) -> (r: Option<StoredChunkCell>)
        ensures
            r == self.cell(pos),
    {
        match self.cells.get(&pos) {
            Some(c) => *c,
            None => None,
        }
    }
}

proof fn lemma_nothing_cut(actions: Seq<Action>)
    ensures
        before_cutoff(no_cutoff(), actions) == actions,
    decreases actions.len(),
{
    if actions.len() > 0 {
        lemma_nothing_cut(actions.drop_first());
        assert(seq![actions[0]] + actions.drop_first() =~= actions);
    } else {
        assert(actions =~= Seq::<Action>::empty());
    }
}

/// The board that a snapshot's chunks and the segments of the log give.
pub fn load_board(snapshot_chunks: Vec<StoredChunk>, segments: Vec<Segment>) -> (r: Board)
    ensures
        r.wf(),
        r.snapshot_chunks == snapshot_chunks,
        r.actions@ == sort_by(logged(segments@), by_id()),
{
    let ghost all = segments@;
    let mut found: Vec<Action> = Vec::new();
    assert(all.take(0) =~= Seq::<Segment>::empty());
    for segment in iter: segments
        invariant
            iter.seq() == all,
            found@ == logged(all.take(iter.index() as int)),
    {
        let mut more = segment.actions;
        found.append(&mut more);
        assert(all.take(iter.index() + 1).drop_last() =~= all.take(iter.index() as int));
    }
    assert(all.take(all.len() as int) =~= all);
    let actions = sort_actions(found);
    let cutoff = PointInTimeCutoff { before_ts: None, before_action_id: None, region: None };
    let cells = compute_state_as_of(&cutoff, snapshot_chunks.as_slice(), actions.as_slice());
    proof {
        lemma_nothing_cut(actions@);
    }
    Board { snapshot_chunks, actions, cells }
}

/// Why a revert is not made.
#[derive(Debug, Clone, Copy, PartialEq, Eq, Structural)]
pub enum Refusal {
    Unbounded,
    NoCutoff,
    TooMany(usize),
}

/// Number of places that are given another value.
pub open spec fn restore_count(outcomes: Seq<RevertOutcome>) -> nat {
    outcomes.filter(|o: RevertOutcome| o is Restore).len()
}

fn count_restores(outcomes: &Vec<RevertOutcome>) -> (r: usize)
    ensures
        r == restore_count(outcomes@),
{
    let mut n: usize = 0;
    let mut i: usize = 0;
    let ghost is_restore = |o: RevertOutcome| o is Restore;
    assert(outcomes@.take(0).filter(is_restore).len() == 0) by {
        reveal(Seq::filter);
    }
    while i < outcomes.len()
        invariant
            i <= outcomes@.len(),
            n <= i,
            is_restore == (|o: RevertOutcome| o is Restore),
            n == outcomes@.take(i as int).filter(is_restore).len(),
        decreases outcomes@.len() - i,
    {
        proof {
            assert(outcomes@.take(i + 1) =~= outcomes@.take(i as int).push(outcomes@[i as int]));
            lemma_filter_push(outcomes@.take(i as int), outcomes@[i as int], is_restore);
        }
        if let RevertOutcome::Restore { .. } = &outcomes[i] {
            n = n + 1;
        }
        i = i + 1;
    }
    assert(outcomes@.take(i as int) =~= outcomes@);
    n
}

/// `r` says what becomes of every place that the filter's edits touched: one
/// outcome for each of them, in no particular order.
pub open spec fn reverts(
    filter: RevertFilter,
    actions: Seq<Action>,
    cells: Map<WorldCoords, Option<StoredChunkCell>>,
    r: Seq<RevertOutcome>,
) -> bool {
    &&& forall|i: int, j: int|
        0 <= i < j < r.len() ==> (#[trigger] r[i]).place() != (#[trigger] r[j]).place()
    &&& forall|i: int|
        0 <= i < r.len() ==> outcome_is(
            #[trigger] r[i],
            r[i].place(),
            filter,
            touches_at(touches(actions), r[i].place()),
            cell_in(cells, r[i].place()),
        )
    &&& forall|p: WorldCoords|
        (#[trigger] targeted_at(filter, touches(actions), p)).len() > 0 ==> exists|i: int|
            0 <= i < r.len() && (#[trigger] r[i]).place() == p
}

/// What a filtered revert does to the board.
pub fn run_filtered(
    filter: RevertFilter,
    board: &Board,
    force: bool,
    allow_unbounded: bool,
) -> (r: Result<Vec<RevertOutcome>, Refusal>)
    requires
        forall|p: WorldCoords|
            (#[trigger] targeted_at(filter, touches(board.actions@), p)).len() <= u32::MAX,
    ensures
        match r {
            Ok(out) => {
                &&& !filter.limitless() || allow_unbounded
                &&& reverts(filter, board.actions@, board.cells@, out@)
                &&& restore_count(out@) <= MAX_REVERT_POSITIONS || force
            },
            Err(Refusal::Unbounded) => filter.limitless() && !allow_unbounded,
            Err(Refusal::NoCutoff) => false,
            Err(Refusal::TooMany(n)) => {
                &&& !filter.limitless() || allow_unbounded
                &&& !force
                &&& n > MAX_REVERT_POSITIONS
                &&& exists|out: Seq<RevertOutcome>| #[trigger]
                    reverts(filter, board.actions@, board.cells@, out) && restore_count(out) == n
            },
        },
{
    if filter.is_unbounded() && !allow_unbounded {
        return Err(Refusal::Unbounded);
    }
    let current = |pos: WorldCoords| -> (c: Option<StoredChunkCell>)
        ensures
            c == board.cell(pos),
        { board.cell_at(pos) };
    let out = compute_revert(&filter, board.actions.as_slice(), current);
    proof {
        let all = touches(board.actions@);
        assert forall|i: int| 0 <= i < out@.len() implies outcome_is(
            #[trigger] out@[i],
            out@[i].place(),
            filter,
            touches_at(all, out@[i].place()),
            board.cell(out@[i].place()),
        ) by {
            let o = out@[i];
            let cur = choose|cur: Option<StoredChunkCell>|
                settled(o, filter, all, current, cur);
            assert(settled(o, filter, all, current, cur));
        }
        assert(reverts(filter, board.actions@, board.cells@, out@));
    }
    let n: usize = count_restores(&out);
    if n > MAX_REVERT_POSITIONS && !force {
        return Err(Refusal::TooMany(n));
    }
    Ok(out)
}

/// The edits of one author: all, or those in a region, or in a time of which
/// both ends are given.
pub fn author_filter(
    author_id: u32,
    region: Option<WorldRect>,
    ts_from: Option<i64>,
    ts_to: Option<i64>,
) -> (r: RevertFilter)
    ensures
        r == (RevertFilter {
            author_id: Some(author_id),
            region,
            ts_range: match (ts_from, ts_to) {
                (Some(a), Some(b)) => Some((a, b)),
                _ => None,
            },
            action_id_range: None,
        }),
{
    RevertFilter {
        author_id: Some(author_id),
        region,
        ts_range: match (ts_from, ts_to) {
            (Some(a), Some(b)) => Some((a, b)),
            _ => None,
        },
        action_id_range: None,
    }
}

/// The edits in a region: all, or those of one author.
pub fn region_filter(region: WorldRect, author_id: Option<u32>) -> (r: RevertFilter)
    ensures
        r == (RevertFilter {
            author_id,
            region: Some(region),
            ts_range: None,
            action_id_range: None,
        }),
{
    RevertFilter { author_id, region: Some(region), ts_range: None, action_id_range: None }
}

/// An action past the cutoff wrote at a place that the cutoff covers.
pub open spec fn touched_after(
    cutoff: PointInTimeCutoff,
    actions: Seq<Action>,
    p: WorldCoords,
) -> bool {
    cutoff.covers(p) && exists|i: int, j: int|
        #![trigger actions[i].changes@[j]]
        0 <= i < actions.len() && 0 <= j < actions[i].changes@.len() && cutoff.past(
            actions[i].ts,
            actions[i].action_id,
        ) && actions[i].changes@[j].pos == p
}

/// One of the first `n` changes is at `p`.
spec fn writes_at(changes: Seq<CellChange>, n: int, p: WorldCoords) -> bool {
    exists|k: int| 0 <= k < n && (#[trigger] changes[k]).pos == p
}

fn touched_places(cutoff: &PointInTimeCutoff, actions: &Vec<Action>) -> (r: Vec<WorldCoords>)
    ensures
        forall|p: WorldCoords| #[trigger] r@.contains(p) <==> touched_after(*cutoff, actions@, p),
{
    let mut out: Vec<WorldCoords> = Vec::new();
    let mut i: usize = 0;
    while i < actions.len()
        invariant
            i <= actions@.len(),
            forall|p: WorldCoords| #[trigger]
                out@.contains(p) <==> touched_after(*cutoff, actions@.take(i as int), p),
        decreases actions@.len() - i,
    {
        let a = &actions[i];
        let ghost before = out@;
        let past = cutoff.is_past(a);
        let mut j: usize = 0;
        while past && j < a.changes.len()
            invariant
                j <= a.changes@.len(),
                past == cutoff.past(a.ts, a.action_id),
                forall|p: WorldCoords| #[trigger]
                    out@.contains(p) <==> before.contains(p) || (past && cutoff.covers(p)
                        && writes_at(a.changes@, j as int, p)),
            decreases a.changes@.len() - j,
        {
            let pos = a.changes[j].pos;
            let ghost mid = out@;
            if cutoff.in_region(pos) {
                out.push(pos);
                assert forall|p: WorldCoords| #[trigger]
                    out@.contains(p) <==> mid.contains(p) || p == pos by {
                    if mid.contains(p) {
                        let n = choose|n: int| 0 <= n < mid.len() && mid[n] == p;
                        assert(out@[n] == p);
                    }
                    assert(out@[mid.len() as int] == pos);
                }
            }
            proof {
                assert(a.changes@[j as int].pos == pos);
                assert forall|p: WorldCoords| #[trigger]
                    writes_at(a.changes@, j + 1, p) <==> writes_at(a.changes@, j as int, p) || p
                        == pos by {
                    if writes_at(a.changes@, j + 1, p) {
                        let k = choose|k: int|
                            0 <= k < j + 1 && (#[trigger] a.changes@[k]).pos == p;
                        if k < j {
                            assert(a.changes@[k].pos == p);
                        }
                    }
                    if writes_at(a.changes@, j as int, p) {
                        let k = choose|k: int| 0 <= k < j && (#[trigger] a.changes@[k]).pos == p;
                        assert(a.changes@[k].pos == p);
                    }
                }
            }
            j = j + 1;
        }
        proof {
            let t0 = actions@.take(i as int);
            let t1 = actions@.take(i + 1);
            assert forall|p: WorldCoords| #[trigger]
                out@.contains(p) <==> touched_after(*cutoff, t1, p) by {
                if before.contains(p) {
                    assert(touched_after(*cutoff, t0, p));
                    let (m, n) = choose|m: int, n: int|
                        #![trigger t0[m].changes@[n]]
                        0 <= m < t0.len() && 0 <= n < t0[m].changes@.len() && cutoff.past(
                            t0[m].ts,
                            t0[m].action_id,
                        ) && t0[m].changes@[n].pos == p;
                    assert(t1[m].changes@[n].pos == p);
                }
                if past && cutoff.covers(p) && writes_at(a.changes@, a.changes@.len() as int, p) {
                    let k = choose|k: int|
                        0 <= k < a.changes@.len() && (#[trigger] a.changes@[k]).pos == p;
                    assert(t1[i as int].changes@[k].pos == p);
                }
                if touched_after(*cutoff, t1, p) {
                    let (m, n) = choose|m: int, n: int|
                        #![trigger t1[m].changes@[n]]
                        0 <= m < t1.len() && 0 <= n < t1[m].changes@.len() && cutoff.past(
                            t1[m].ts,
                            t1[m].action_id,
                        ) && t1[m].changes@[n].pos == p;
                    if m < i {
                        assert(t0[m].changes@[n].pos == p);
                        assert(touched_after(*cutoff, t0, p));
                    } else {
                        assert(a.changes@[n].pos == p);
                        assert(writes_at(a.changes@, a.changes@.len() as int, p));
                    }
                }
            }
        }
        i = i + 1;
    }
    assert(actions@.take(i as int) =~= actions@);
    out
}

/// `r` says what becomes of every place that the cutoff's board or an action
/// past the cutoff names: one outcome for each, in no particular order.
pub open spec fn rewinds(
    cutoff: PointInTimeCutoff,
    chunks: Seq<StoredChunk>,
    actions: Seq<Action>,
    cells: Map<WorldCoords, Option<StoredChunkCell>>,
    r: Seq<RevertOutcome>,
) -> bool {
    let target = state_as_of(cutoff, chunks, actions);
    &&& forall|i: int, j: int|
        0 <= i < j < r.len() ==> (#[trigger] r[i]).place() != (#[trigger] r[j]).place()
    &&& forall|i: int|
        0 <= i < r.len() ==> rewind_is(#[trigger] r[i], target, cell_in(cells, r[i].place())) && (
        target.contains_key(r[i].place()) || touched_after(cutoff, actions, r[i].place()))
    &&& forall|p: WorldCoords|
        #![trigger target.contains_key(p)]
        #![trigger touched_after(cutoff, actions, p)]
        target.contains_key(p) || touched_after(cutoff, actions, p) ==> exists|i: int|
            0 <= i < r.len() && (#[trigger] r[i]).place() == p
}

/// What a revert to a point in time does to the board.
pub fn run_point_in_time(cutoff: PointInTimeCutoff, board: &Board, force: bool) -> (r: Result<
    Vec<RevertOutcome>,
    Refusal,
>)
    ensures
        match r {
            Ok(out) => {
                &&& cutoff.before_ts is Some || cutoff.before_action_id is Some
                &&& rewinds(cutoff, board.snapshot_chunks@, board.actions@, board.cells@, out@)
                &&& restore_count(out@) <= MAX_REVERT_POSITIONS || force
            },
            Err(Refusal::Unbounded) => false,
            Err(Refusal::NoCutoff) => cutoff.before_ts is None && cutoff.before_action_id is None,
            Err(Refusal::TooMany(n)) => {
                &&& cutoff.before_ts is Some || cutoff.before_action_id is Some
                &&& !force
                &&& n > MAX_REVERT_POSITIONS
                &&& exists|out: Seq<RevertOutcome>| #[trigger]
                    rewinds(cutoff, board.snapshot_chunks@, board.actions@, board.cells@, out)
                        && restore_count(out) == n
            },
        },
{
    if cutoff.before_ts.is_none() && cutoff.before_action_id.is_none() {
        return Err(Refusal::NoCutoff);
    }
    let target = compute_state_as_of(
        &cutoff,
        board.snapshot_chunks.as_slice(),
        board.actions.as_slice(),
    );
    let touched = touched_places(&cutoff, &board.actions);
    let ghost places = touched@;
    let current = |pos: WorldCoords| -> (c: Option<StoredChunkCell>)
        ensures
            c == board.cell(pos),
        { board.cell_at(pos) };
    let out = compute_point_in_time_revert(&target, touched.into_iter(), current);
    proof {
        assert forall|p: WorldCoords|
            #![trigger target@.contains_key(p)]
            #![trigger touched_after(cutoff, board.actions@, p)]
            target@.contains_key(p) || touched_after(cutoff, board.actions@, p) implies exists|
            i: int,
        |
            0 <= i < out@.len() && (#[trigger] out@[i]).place() == p by {
            assert(places.contains(p) <==> touched_after(cutoff, board.actions@, p));
        }
        assert forall|i: int| 0 <= i < out@.len() implies rewind_is(
            #[trigger] out@[i],
            target@,
            cell_in(board.cells@, out@[i].place()),
        ) && (target@.contains_key(out@[i].place()) || touched_after(
            cutoff,
            board.actions@,
            out@[i].place(),
        )) by {
            assert(places.contains(out@[i].place()) <==> touched_after(
                cutoff,
                board.actions@,
                out@[i].place(),
            ));
        }
        assert(rewinds(cutoff, board.snapshot_chunks@, board.actions@, board.cells@, out@));
    }
    let n: usize = count_restores(&out);
    if n > MAX_REVERT_POSITIONS && !force {
        return Err(Refusal::TooMany(n));
    }
    Ok(out)
}

} // verus!
