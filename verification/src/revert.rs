//! Taking back what was done to the board.
//!
//! A revert of some edits gives every place that those edits touched the value
//! that it had before the first of them, unless somebody else has written over
//! them since. A revert to a point in time gives every place the value that it
//! had at that moment.

use vstd::prelude::*;

use crate::coords::{WorldCoords, WorldRect};
use crate::model::{Action, CellChange, StoredChunk, StoredChunkCell};
use crate::table::CoordMap;

verus! {

/// Number of places that one revert may change.
pub const MAX_REVERT_POSITIONS: usize = 250_000;

/// Which edits to take back. A part that is `None` leaves nothing out.
#[derive(Debug, Clone, Copy)]
pub struct RevertFilter {
    pub author_id: Option<u32>,
    pub region: Option<WorldRect>,
    pub ts_range: Option<(i64, i64)>,
    pub action_id_range: Option<(u64, u64)>,
}

impl Default for RevertFilter {
    fn default() -> (r: Self)
        ensures
            r.author_id is None,
            r.region is None,
            r.ts_range is None,
            r.action_id_range is None,
    {
        RevertFilter { author_id: None, region: None, ts_range: None, action_id_range: None }
    }
}

impl RevertFilter {
    /// The action was made in the time and the range of numbers asked for.
    pub open spec fn in_scope(self, ts: i64, action_id: u64) -> bool {
        &&& self.ts_range matches Some(r) ==> r.0 <= ts <= r.1
        &&& self.action_id_range matches Some(r) ==> r.0 <= action_id <= r.1
    }

    /// The change is one of those to take back.
    pub open spec fn targets(self, t: Touch) -> bool {
        &&& self.in_scope(t.ts, t.action_id)
        &&& self.author_id matches Some(aid) ==> t.author_id == aid
        &&& self.region matches Some(rect) ==> rect.has(t.change.pos)
    }

    /// Nothing limits the filter.
    pub open spec fn limitless(self) -> bool {
        &&& self.author_id is None
        &&& self.region is None
        &&& self.ts_range is None
        &&& self.action_id_range is None
    }

    pub fn is_unbounded(&self) -> (r: bool)
        ensures
            r == self.limitless(),
    {
        self.author_id.is_none() && self.region.is_none() && self.ts_range.is_none()
            && self.action_id_range.is_none()
    }

    pub fn action_in_scope(&self, action: &Action) -> (r: bool)
        ensures
            r == self.in_scope(action.ts, action.action_id),
    {
        if let Some((lo, hi)) = self.ts_range {
            if !(lo <= action.ts && action.ts <= hi) {
                return false;
            }
        }
        if let Some((lo, hi)) = self.action_id_range {
            if !(lo <= action.action_id && action.action_id <= hi) {
                return false;
            }
        }
        true
    }

    pub fn change_is_targeted(&self, action: &Action, change: &CellChange) -> (r: bool)
        ensures
            r == self.targets(touch(*action, *change)),
    {
        if !self.action_in_scope(action) {
            return false;
        }
        if let Some(aid) = self.author_id {
            if action.author_id != aid {
                return false;
            }
        }
        if let Some(rect) = self.region {
            if !rect.contains(change.pos) {
                return false;
            }
        }
        true
    }
}

/// One change, with what is known of the action that made it.
pub struct Touch {
    pub action_id: u64,
    pub author_id: u32,
    pub ts: i64,
    pub change: CellChange,
}

pub open spec fn touch(a: Action, c: CellChange) -> Touch {
    Touch { action_id: a.action_id, author_id: a.author_id, ts: a.ts, change: c }
}

/// All changes of `actions`, oldest first.
pub open spec fn touches(actions: Seq<Action>) -> Seq<Touch>
    decreases actions.len(),
{
    if actions.len() == 0 {
        Seq::empty()
    } else {
        let a = actions.last();
        touches(actions.drop_last()) + a.changes@.map_values(|c: CellChange| touch(a, c))
    }
}

/// The changes at `pos`, oldest first.
pub open spec fn touches_at(all: Seq<Touch>, pos: WorldCoords) -> Seq<Touch> {
    all.filter(|t: Touch| t.change.pos == pos)
}

/// The changes at `pos` that are to be taken back, oldest first.
pub open spec fn targeted_at(filter: RevertFilter, all: Seq<Touch>, pos: WorldCoords) -> Seq<Touch> {
    touches_at(all, pos).filter(|t: Touch| filter.targets(t))
}

#[derive(Debug, Clone)]
pub enum SkipReason {
    OverwrittenByOther { by_author: u32, at_action_id: u64 },
    NoChange,
}

#[derive(Debug, Clone)]
pub enum RevertOutcome {
    Restore {
        pos: WorldCoords,
        restore_to: Option<StoredChunkCell>,
        current: Option<StoredChunkCell>,
        earliest_targeted_action_id: u64,
        targeted_touch_count: u32,
    },
    Skipped { pos: WorldCoords, reason: SkipReason },
}

impl RevertOutcome {
    pub open spec fn place(self) -> WorldCoords {
        match self {
            RevertOutcome::Restore { pos, .. } => pos,
            RevertOutcome::Skipped { pos, .. } => pos,
        }
    }
}

/// The two cells look the same.
pub open spec fn looks_same(a: Option<StoredChunkCell>, b: Option<StoredChunkCell>) -> bool {
    match (a, b) {
        (None, None) => true,
        (Some(x), Some(y)) => x.ch == y.ch && x.color == y.color,
        _ => false,
    }
}

pub fn cell_eq(a: &Option<StoredChunkCell>, b: &Option<StoredChunkCell>) -> (r: bool)
    ensures
        r == looks_same(*a, *b),
{
    match (a, b) {
        (None, None) => true,
        (Some(x), Some(y)) => x.ch == y.ch && x.color == y.color,
        _ => false,
    }
}

/// `o` is what becomes of a place that `mine` touched last among `all`
/// changes there, `cur` being what is written there now.
pub open spec fn outcome_is(
    o: RevertOutcome,
    pos: WorldCoords,
    filter: RevertFilter,
    here: Seq<Touch>,
    cur: Option<StoredChunkCell>,
) -> bool {
    let mine = here.filter(|t: Touch| filter.targets(t));
    let last = here.last();
    let before = mine[0].change.old;
    &&& mine.len() > 0
    &&& o.place() == pos
    &&& match o {
        RevertOutcome::Skipped { pos: _, reason: SkipReason::OverwrittenByOther { by_author, at_action_id } } => {
            &&& !filter.targets(last)
            &&& by_author == last.author_id
            &&& at_action_id == last.action_id
        },
        RevertOutcome::Skipped { pos: _, reason: SkipReason::NoChange } => {
            &&& filter.targets(last)
            &&& looks_same(before, cur)
        },
        RevertOutcome::Restore {
            pos: _,
            restore_to,
            current,
            earliest_targeted_action_id,
            targeted_touch_count,
        } => {
            &&& filter.targets(last)
            &&& restore_to == before
            &&& current == cur
            &&& !looks_same(before, cur)
            &&& earliest_targeted_action_id == mine[0].action_id
            &&& targeted_touch_count == mine.len()
        },
    }
}

/// `o` is what becomes of its place after `all` changes, `cur` being what is
/// written there now; what is there now is asked of `current_value` where the
/// last change is one to take back.
pub open spec fn settled<F: Fn(WorldCoords) -> Option<StoredChunkCell>>(
    o: RevertOutcome,
    filter: RevertFilter,
    all: Seq<Touch>,
    current_value: F,
    cur: Option<StoredChunkCell>,
) -> bool {
    let here = touches_at(all, o.place());
    &&& outcome_is(o, o.place(), filter, here, cur)
    &&& filter.targets(here.last()) ==> call_ensures(current_value, (o.place(),), cur)
}

/// `o` is what becomes of its place after `all` changes.
pub open spec fn explained<F: Fn(WorldCoords) -> Option<StoredChunkCell>>(
    o: RevertOutcome,
    filter: RevertFilter,
    all: Seq<Touch>,
    current_value: F,
) -> bool {
    exists|cur: Option<StoredChunkCell>| settled(o, filter, all, current_value, cur)
}

/// What is known of one place, after some of the changes there.
#[derive(Clone, Copy)]
struct PosState {
    earliest_targeted_old: Option<StoredChunkCell>,
    earliest_targeted_action_id: u64,
    targeted_touch_count: u32,
    last_touch_was_targeted: bool,
    last_touch_author: u32,
    last_touch_action_id: u64,
}

impl PosState {
    spec fn sums_up(self, filter: RevertFilter, here: Seq<Touch>) -> bool {
        let mine = here.filter(|t: Touch| filter.targets(t));
        &&& here.len() > 0
        &&& self.targeted_touch_count == mine.len()
        &&& mine.len() > 0 ==> {
            &&& self.earliest_targeted_old == mine[0].change.old
            &&& self.earliest_targeted_action_id == mine[0].action_id
        }
        &&& self.last_touch_was_targeted == filter.targets(here.last())
        &&& self.last_touch_author == here.last().author_id
        &&& self.last_touch_action_id == here.last().action_id
    }
}

pub(crate) proof fn lemma_filter_push<A>(s: Seq<A>, x: A, f: spec_fn(A) -> bool)
    ensures
        s.push(x).filter(f) == (if f(x) {
            s.filter(f).push(x)
        } else {
            s.filter(f)
        }),
{
    reveal(Seq::filter);
    assert(s.push(x).drop_last() =~= s);
}

proof fn lemma_filter_len<A>(s: Seq<A>, f: spec_fn(A) -> bool)
    ensures
        s.filter(f).len() <= s.len(),
{
    s.filter_lemma(f);
}

/// Every place in `m` is summed up, and every place touched is in `m`.
spec fn sums_up_all(
    m: Map<WorldCoords, PosState>,
    filter: RevertFilter,
    done: Seq<Touch>,
) -> bool {
    forall|p: WorldCoords|
        {
            &&& #[trigger] m.contains_key(p) <==> touches_at(done, p).len() > 0
            &&& m.contains_key(p) ==> m[p].sums_up(filter, touches_at(done, p))
        }
}

fn note_touch(
    positions: &mut CoordMap<WorldCoords, PosState>,
    filter: &RevertFilter,
    action: &Action,
    change: &CellChange,
    Ghost(done): Ghost<Seq<Touch>>,
)
    requires
        sums_up_all(old(positions)@, *filter, done),
        targeted_at(*filter, done.push(touch(*action, *change)), change.pos).len() <= u32::MAX,
    ensures
        sums_up_all(final(positions)@, *filter, done.push(touch(*action, *change))),
{
    let targeted = filter.change_is_targeted(action, change);
    let mut st = match positions.get(&change.pos) {
        Some(st) => *st,
        None => PosState {
            earliest_targeted_old: None,
            earliest_targeted_action_id: 0,
            targeted_touch_count: 0,
            last_touch_was_targeted: false,
            last_touch_author: action.author_id,
            last_touch_action_id: action.action_id,
        },
    };
    let ghost t = touch(*action, *change);
    let ghost here = touches_at(done, change.pos);
    let ghost m0 = positions@;
    proof {
        lemma_filter_push(done, t, |t: Touch| t.change.pos == change.pos);
        lemma_filter_push(here, t, |t: Touch| filter.targets(t));
        lemma_filter_len(here, |t: Touch| filter.targets(t));
        assert(m0.contains_key(change.pos) || !m0.contains_key(change.pos));
        if here.len() == 0 {
            assert(here.filter(|t: Touch| filter.targets(t)).len() == 0);
        }
    }
    if targeted {
        if st.targeted_touch_count == 0 {
            st.earliest_targeted_old = change.old;
            st.earliest_targeted_action_id = action.action_id;
        }
        st.targeted_touch_count = st.targeted_touch_count + 1;
    }
    st.last_touch_was_targeted = targeted;
    st.last_touch_author = action.author_id;
    st.last_touch_action_id = action.action_id;
    positions.insert(change.pos, st);
    proof {
        assert forall|p: WorldCoords|
            {
                &&& #[trigger] positions@.contains_key(p) <==> touches_at(done.push(t), p).len() > 0
                &&& positions@.contains_key(p) ==> positions@[p].sums_up(
                    *filter,
                    touches_at(done.push(t), p),
                )
            } by {
            lemma_filter_push(done, t, |t: Touch| t.change.pos == p);
            if p == change.pos {
                lemma_filter_push(here, t, |t: Touch| filter.targets(t));
            } else {
                assert(m0.contains_key(p) || !m0.contains_key(p));
            }
        }
    }
}

proof fn lemma_touches_step(actions: Seq<Action>, i: int)
    requires
        0 <= i < actions.len(),
    ensures
        touches(actions.take(i + 1)) == touches(actions.take(i)) + actions[i].changes@.map_values(
            |c: CellChange| touch(actions[i], c),
        ),
        touches(actions.take(i + 1)).is_prefix_of(touches(actions)),
    decreases actions.len() - i,
{
    assert(actions.take(i + 1).drop_last() =~= actions.take(i));
    if i + 1 < actions.len() {
        lemma_touches_step(actions, i + 1);
        assert(actions.take(i + 2).drop_last() =~= actions.take(i + 1));
    } else {
        assert(actions.take(i + 1) =~= actions);
    }
}

proof fn lemma_targeted_so_far(filter: RevertFilter, all: Seq<Touch>, n: int, pos: WorldCoords)
    requires
        0 <= n <= all.len(),
    ensures
        targeted_at(filter, all.take(n), pos).len() <= targeted_at(filter, all, pos).len(),
    decreases all.len() - n,
{
    if n < all.len() {
        let done = all.take(n);
        lemma_targeted_so_far(filter, all, n + 1, pos);
        assert(all.take(n + 1) =~= done.push(all[n]));
        lemma_filter_push(done, all[n], |t: Touch| t.change.pos == pos);
        lemma_filter_push(touches_at(done, pos), all[n], |t: Touch| filter.targets(t));
    } else {
        assert(all.take(n) =~= all);
    }
}

fn outcome_for<F: Fn(WorldCoords) -> Option<StoredChunkCell>>(
    pos: WorldCoords,
    st: PosState,
    filter: &RevertFilter,
    current_value: &F,
    Ghost(all): Ghost<Seq<Touch>>,
) -> (r: Option<RevertOutcome>)
    requires
        st.sums_up(*filter, touches_at(all, pos)),
        call_requires(*current_value, (pos,)),
    ensures
        r is Some <==> targeted_at(*filter, all, pos).len() > 0,
        r matches Some(o) ==> o.place() == pos && explained(o, *filter, all, *current_value),
{
    if st.targeted_touch_count == 0 {
        return None;
    }
    if !st.last_touch_was_targeted {
        let o = RevertOutcome::Skipped {
            pos,
            reason: SkipReason::OverwrittenByOther {
                by_author: st.last_touch_author,
                at_action_id: st.last_touch_action_id,
            },
        };
        assert(settled(o, *filter, all, *current_value, None));
        return Some(o);
    }
    let current = current_value(pos);
    let restore_to = st.earliest_targeted_old;
    let o = if cell_eq(&restore_to, &current) {
        RevertOutcome::Skipped { pos, reason: SkipReason::NoChange }
    } else {
        RevertOutcome::Restore {
            pos,
            restore_to,
            current,
            earliest_targeted_action_id: st.earliest_targeted_action_id,
            targeted_touch_count: st.targeted_touch_count,
        }
    };
    assert(settled(o, *filter, all, *current_value, current));
    Some(o)
}

/// What becomes of every place that the filter's edits touched: one outcome for
/// each of them, in no particular order.
pub fn compute_revert<F: Fn(WorldCoords) -> Option<StoredChunkCell>>(
    filter: &RevertFilter,
    actions_oldest_first: &[Action],
    current_value: F,
) -> (r: Vec<RevertOutcome>)
    requires
        forall|p: WorldCoords|
            (#[trigger] targeted_at(*filter, touches(actions_oldest_first@), p)).len() <= u32::MAX,
        forall|p: WorldCoords| #[trigger] call_requires(current_value, (p,)),
    ensures
        forall|i: int, j: int|
            0 <= i < j < r@.len() ==> (#[trigger] r@[i]).place() != (#[trigger] r@[j]).place(),
        forall|i: int|
            0 <= i < r@.len() ==> explained(
                #[trigger] r@[i],
                *filter,
                touches(actions_oldest_first@),
                current_value,
            ),
        forall|p: WorldCoords|
            (#[trigger] targeted_at(*filter, touches(actions_oldest_first@), p)).len() > 0
                ==> exists|i: int| 0 <= i < r@.len() && (#[trigger] r@[i]).place() == p,
{
    let ghost actions = actions_oldest_first@;
    let ghost all = touches(actions);
    let mut positions: CoordMap<WorldCoords, PosState> = CoordMap::new();
    let mut i: usize = 0;
    proof {
        assert(actions.take(0) =~= Seq::<Action>::empty());
        assert forall|p: WorldCoords| touches_at(Seq::<Touch>::empty(), p).len() == 0 by {
            lemma_filter_len(Seq::<Touch>::empty(), |t: Touch| t.change.pos == p);
        }
    }
    while i < actions_oldest_first.len()
        invariant
            i <= actions.len(),
            actions == actions_oldest_first@,
            all == touches(actions),
            forall|p: WorldCoords| (#[trigger] targeted_at(*filter, all, p)).len() <= u32::MAX,
            sums_up_all(positions@, *filter, touches(actions.take(i as int))),
        decreases actions.len() - i,
    {
        let action = &actions_oldest_first[i];
        let ghost before = touches(actions.take(i as int));
        let ghost mine = action.changes@.map_values(|c: CellChange| touch(*action, c));
        let mut j: usize = 0;
        proof {
            lemma_touches_step(actions, i as int);
            assert(before + mine.take(0) =~= before);
        }
        while j < action.changes.len()
            invariant
                j <= action.changes@.len(),
                mine == action.changes@.map_values(|c: CellChange| touch(*action, c)),
                (before + mine).is_prefix_of(all),
                forall|p: WorldCoords| (#[trigger] targeted_at(*filter, all, p)).len() <= u32::MAX,
                sums_up_all(positions@, *filter, before + mine.take(j as int)),
            decreases action.changes@.len() - j,
        {
            proof {
                let next = before + mine.take(j + 1);
                let pos = action.changes@[j as int].pos;
                assert((before + mine.take(j as int)).push(mine[j as int]) =~= next);
                assert(next =~= all.take(next.len() as int));
                lemma_targeted_so_far(*filter, all, next.len() as int, pos);
                assert(targeted_at(*filter, all, pos).len() <= u32::MAX);
            }
            note_touch(
                &mut positions,
                filter,
                action,
                &action.changes[j],
                Ghost(before + mine.take(j as int)),
            );
            j = j + 1;
        }
        assert(mine.take(j as int) =~= mine);
        i = i + 1;
    }
    assert(actions.take(i as int) =~= actions);
    let keys = positions.keys();
    let mut out: Vec<RevertOutcome> = Vec::new();
    let mut k: usize = 0;
    while k < keys.len()
        invariant
            k <= keys@.len(),
            keys@.no_duplicates(),
            forall|p: WorldCoords| #[trigger] keys@.contains(p) <==> positions@.contains_key(p),
            all == touches(actions_oldest_first@),
            sums_up_all(positions@, *filter, all),
            forall|p: WorldCoords| #[trigger] call_requires(current_value, (p,)),
            forall|a: int, b: int|
                0 <= a < b < out@.len() ==> (#[trigger] out@[a]).place() != (
                #[trigger] out@[b]).place(),
            forall|a: int|
                0 <= a < out@.len() ==> exists|n: int|
                    0 <= n < k && keys@[n] == (#[trigger] out@[a]).place(),
            forall|a: int|
                0 <= a < out@.len() ==> explained(#[trigger] out@[a], *filter, all, current_value),
            forall|n: int|
                0 <= n < k && targeted_at(*filter, all, #[trigger] keys@[n]).len() > 0 ==> exists|
                    a: int,
                |
                    0 <= a < out@.len() && (#[trigger] out@[a]).place() == keys@[n],
        decreases keys@.len() - k,
    {
        let pos = keys[k];
        let ghost before = out@;
        let ghost here = touches_at(all, pos);
        proof {
            assert(keys@.contains(pos));
            assert forall|a: int| 0 <= a < before.len() implies (#[trigger] before[a]).place()
                != pos by {
                let n = choose|n: int| 0 <= n < k && keys@[n] == before[a].place();
                assert(keys@[n] != keys@[k as int]);
            }
        }
        let st = match positions.get(&pos) {
            Some(st) => *st,
            None => {
                proof {
                    assert(false);
                }
                return out;
            },
        };
        if let Some(o) = outcome_for(pos, st, filter, &current_value, Ghost(all)) {
            out.push(o);
            assert(out@[before.len() as int].place() == pos);
        }
        proof {
            assert forall|n: int|
                0 <= n < k + 1 && targeted_at(*filter, all, #[trigger] keys@[n]).len()
                    > 0 implies exists|a: int|
                0 <= a < out@.len() && (#[trigger] out@[a]).place() == keys@[n] by {
                if n < k {
                    let a = choose|a: int|
                        0 <= a < before.len() && (#[trigger] before[a]).place() == keys@[n];
                    assert(out@[a].place() == keys@[n]);
                } else {
                    assert(out@[before.len() as int].place() == keys@[n]);
                }
            }
        }
        k = k + 1;
    }
    proof {
        assert forall|p: WorldCoords|
            (#[trigger] targeted_at(*filter, all, p)).len() > 0 implies exists|a: int|
            0 <= a < out@.len() && (#[trigger] out@[a]).place() == p by {
            lemma_filter_len(touches_at(all, p), |t: Touch| filter.targets(t));
            assert(positions@.contains_key(p));
            assert(keys@.contains(p));
            let n = choose|n: int| 0 <= n < keys@.len() && keys@[n] == p;
            assert(targeted_at(*filter, all, keys@[n]).len() > 0);
        }
    }
    out
}

/// A filter with several parts takes back what each part alone would take
/// back.
pub proof fn law_filter_parts_combine(f: RevertFilter, g: RevertFilter, both: RevertFilter, t: Touch)
    requires
        f.author_id is None || g.author_id is None,
        f.region is None || g.region is None,
        f.ts_range is None || g.ts_range is None,
        f.action_id_range is None || g.action_id_range is None,
        both.author_id == (if f.author_id is Some { f.author_id } else { g.author_id }),
        both.region == (if f.region is Some { f.region } else { g.region }),
        both.ts_range == (if f.ts_range is Some { f.ts_range } else { g.ts_range }),
        both.action_id_range == (if f.action_id_range is Some { f.action_id_range } else { g.action_id_range }),
    ensures
        both.targets(t) <==> f.targets(t) && g.targets(t),
{
}

/// A place whose last change is not one to take back keeps what it holds: no
/// outcome restores it.
pub proof fn law_overwritten_place_is_kept(
    o: RevertOutcome,
    pos: WorldCoords,
    filter: RevertFilter,
    here: Seq<Touch>,
    cur: Option<StoredChunkCell>,
)
    requires
        outcome_is(o, pos, filter, here, cur),
        !filter.targets(here.last()),
    ensures
        o !is Restore,
{
}

/// A moment in the history, by time or by number of action; and, where only a
/// part of the board is meant, that part.
#[derive(Debug, Clone, Copy)]
pub struct PointInTimeCutoff {
    pub before_ts: Option<i64>,
    pub before_action_id: Option<u64>,
    pub region: Option<WorldRect>,
}

impl Default for PointInTimeCutoff {
    fn default() -> (r: Self)
        ensures
            r.before_ts is None,
            r.before_action_id is None,
            r.region is None,
    {
        PointInTimeCutoff { before_ts: None, before_action_id: None, region: None }
    }
}

impl PointInTimeCutoff {
    /// The action came at the cutoff or later.
    pub open spec fn past(self, ts: i64, action_id: u64) -> bool {
        ||| (self.before_ts matches Some(t) && ts >= t)
        ||| (self.before_action_id matches Some(id) && action_id >= id)
    }

    /// The place lies in the part of the board that is meant.
    pub open spec fn covers(self, pos: WorldCoords) -> bool {
        self.region matches Some(r) ==> r.has(pos)
    }

    pub fn is_past(&self, action: &Action) -> (r: bool)
        ensures
            r == self.past(action.ts, action.action_id),
    {
        if let Some(t) = self.before_ts {
            if action.ts >= t {
                return true;
            }
        }
        if let Some(id) = self.before_action_id {
            if action.action_id >= id {
                return true;
            }
        }
        false
    }

    pub fn in_region(&self, pos: WorldCoords) -> (r: bool)
        ensures
            r == self.covers(pos),
    {
        match self.region {
            Some(r) => r.contains(pos),
            None => true,
        }
    }
}

/// A place, and what was written there.
pub type Write = (WorldCoords, Option<StoredChunkCell>);

/// The cells of `chunks`, in order.
pub open spec fn cells_written(chunks: Seq<StoredChunk>) -> Seq<Write>
    decreases chunks.len(),
{
    if chunks.len() == 0 {
        Seq::empty()
    } else {
        let c = chunks.last();
        cells_written(chunks.drop_last()) + c.cells@.map_values(
            |x: StoredChunkCell| (WorldCoords::spec_from_chunk(c.coords, x.local), Some(x)),
        )
    }
}

/// What `actions` wrote, in order.
pub open spec fn changes_written(actions: Seq<Action>) -> Seq<Write>
    decreases actions.len(),
{
    if actions.len() == 0 {
        Seq::empty()
    } else {
        changes_written(actions.drop_last()) + actions.last().changes@.map_values(
            |c: CellChange| (c.pos, c.new),
        )
    }
}

/// The actions before the first one that is past the cutoff.
pub open spec fn before_cutoff(cutoff: PointInTimeCutoff, actions: Seq<Action>) -> Seq<Action>
    decreases actions.len(),
{
    if actions.len() == 0 || cutoff.past(actions[0].ts, actions[0].action_id) {
        Seq::empty()
    } else {
        seq![actions[0]] + before_cutoff(cutoff, actions.drop_first())
    }
}

/// What the last of `writes` left at each place that the cutoff covers.
pub open spec fn settle(cutoff: PointInTimeCutoff, writes: Seq<Write>) -> Map<
    WorldCoords,
    Option<StoredChunkCell>,
>
    decreases writes.len(),
{
    if writes.len() == 0 {
        Map::empty()
    } else {
        let before = settle(cutoff, writes.drop_last());
        let (pos, cell) = writes.last();
        if cutoff.covers(pos) {
            before.insert(pos, cell)
        } else {
            before
        }
    }
}

/// The board as it was at the cutoff: the snapshot's cells, then what the
/// actions before the cutoff wrote.
pub open spec fn state_as_of(
    cutoff: PointInTimeCutoff,
    chunks: Seq<StoredChunk>,
    actions: Seq<Action>,
) -> Map<WorldCoords, Option<StoredChunkCell>> {
    settle(cutoff, cells_written(chunks) + changes_written(before_cutoff(cutoff, actions)))
}

pub(crate) proof fn lemma_before_cutoff(cutoff: PointInTimeCutoff, actions: Seq<Action>, n: int)
    requires
        0 <= n <= actions.len(),
        forall|i: int|
            0 <= i < n ==> !cutoff.past((#[trigger] actions[i]).ts, actions[i].action_id),
        n == actions.len() || cutoff.past(actions[n].ts, actions[n].action_id),
    ensures
        before_cutoff(cutoff, actions) == actions.take(n),
    decreases n,
{
    if n > 0 {
        let rest = actions.drop_first();
        assert forall|i: int| 0 <= i < n - 1 implies !cutoff.past(
            (#[trigger] rest[i]).ts,
            rest[i].action_id,
        ) by {
            assert(rest[i] == actions[i + 1]);
        }
        lemma_before_cutoff(cutoff, rest, n - 1);
        assert(seq![actions[0]] + rest.take(n - 1) =~= actions.take(n));
    } else {
        assert(actions.take(0) =~= Seq::<Action>::empty());
    }
}

fn note_write(
    board: &mut CoordMap<WorldCoords, Option<StoredChunkCell>>,
    cutoff: &PointInTimeCutoff,
    pos: WorldCoords,
    cell: Option<StoredChunkCell>,
    Ghost(done): Ghost<Seq<Write>>,
)
    requires
        old(board)@ == settle(*cutoff, done),
    ensures
        final(board)@ == settle(*cutoff, done.push((pos, cell))),
{
    assert(done.push((pos, cell)).drop_last() =~= done);
    if cutoff.in_region(pos) {
        board.insert(pos, cell);
    }
}

/// The board as it was at the cutoff. A place that is cleared, or that nothing
/// was ever written to, reads as `None`; the latter is not in the table.
pub fn compute_state_as_of(
    cutoff: &PointInTimeCutoff,
    snapshot_chunks: &[StoredChunk],
    actions_oldest_first: &[Action],
) -> (r: CoordMap<WorldCoords, Option<StoredChunkCell>>)
    ensures
        r@ == state_as_of(*cutoff, snapshot_chunks@, actions_oldest_first@),
{
    let ghost chunks = snapshot_chunks@;
    let ghost actions = actions_oldest_first@;
    let mut board: CoordMap<WorldCoords, Option<StoredChunkCell>> = CoordMap::new();
    let mut i: usize = 0;
    assert(chunks.take(0) =~= Seq::<StoredChunk>::empty());
    while i < snapshot_chunks.len()
        invariant
            i <= chunks.len(),
            chunks == snapshot_chunks@,
            board@ == settle(*cutoff, cells_written(chunks.take(i as int))),
        decreases chunks.len() - i,
    {
        let chunk = &snapshot_chunks[i];
        let ghost before = cells_written(chunks.take(i as int));
        let ghost mine = chunk.cells@.map_values(
            |x: StoredChunkCell| (WorldCoords::spec_from_chunk(chunk.coords, x.local), Some(x)),
        );
        assert(before + mine.take(0) =~= before);
        let mut j: usize = 0;
        while j < chunk.cells.len()
            invariant
                j <= chunk.cells@.len(),
                mine == chunk.cells@.map_values(
                    |x: StoredChunkCell|
                        (WorldCoords::spec_from_chunk(chunk.coords, x.local), Some(x)),
                ),
                board@ == settle(*cutoff, before + mine.take(j as int)),
            decreases chunk.cells@.len() - j,
        {
            let cell = chunk.cells[j];
            let pos = WorldCoords::from_chunk(chunk.coords, cell.local);
            note_write(&mut board, cutoff, pos, Some(cell), Ghost(before + mine.take(j as int)));
            assert((before + mine.take(j as int)).push(mine[j as int]) =~= before + mine.take(
                j + 1,
            ));
            j = j + 1;
        }
        assert(mine.take(j as int) =~= mine);
        assert(chunks.take(i + 1).drop_last() =~= chunks.take(i as int));
        i = i + 1;
    }
    assert(chunks.take(i as int) =~= chunks);
    let ghost base = cells_written(chunks);
    let mut k: usize = 0;
    let mut live = true;
    proof {
        assert(actions.take(0) =~= Seq::<Action>::empty());
        assert(base + changes_written(actions.take(0)) =~= base);
    }
    while live && k < actions_oldest_first.len()
        invariant
            k <= actions.len(),
            actions == actions_oldest_first@,
            board@ == settle(*cutoff, base + changes_written(actions.take(k as int))),
            forall|a: int|
                0 <= a < k ==> !cutoff.past((#[trigger] actions[a]).ts, actions[a].action_id),
            !live ==> k < actions.len() && cutoff.past(
                actions[k as int].ts,
                actions[k as int].action_id,
            ),
        decreases actions.len() - k, (if live { 1int } else { 0 }),
    {
        let action = &actions_oldest_first[k];
        if cutoff.is_past(action) {
            live = false;
        } else {
            let ghost before = base + changes_written(actions.take(k as int));
            let ghost mine = action.changes@.map_values(|c: CellChange| (c.pos, c.new));
            assert(before + mine.take(0) =~= before);
            let mut j: usize = 0;
            while j < action.changes.len()
                invariant
                    j <= action.changes@.len(),
                    mine == action.changes@.map_values(|c: CellChange| (c.pos, c.new)),
                    board@ == settle(*cutoff, before + mine.take(j as int)),
                decreases action.changes@.len() - j,
            {
                let c = action.changes[j];
                note_write(&mut board, cutoff, c.pos, c.new, Ghost(before + mine.take(j as int)));
                assert((before + mine.take(j as int)).push(mine[j as int]) =~= before
                    + mine.take(j + 1));
                j = j + 1;
            }
            assert(mine.take(j as int) =~= mine);
            assert(actions.take(k + 1).drop_last() =~= actions.take(k as int));
            assert(before + mine =~= base + changes_written(actions.take(k + 1)));
            k = k + 1;
        }
    }
    proof {
        lemma_before_cutoff(*cutoff, actions, k as int);
    }
    board
}

/// `o` is what becomes of its place when it is to hold what `target` says,
/// `cur` being what is written there now.
pub open spec fn rewind_is(
    o: RevertOutcome,
    target: Map<WorldCoords, Option<StoredChunkCell>>,
    cur: Option<StoredChunkCell>,
) -> bool {
    let pos = o.place();
    let want = if target.contains_key(pos) {
        target[pos]
    } else {
        None
    };
    match o {
        RevertOutcome::Skipped { pos: _, reason: SkipReason::NoChange } => looks_same(want, cur),
        RevertOutcome::Skipped { .. } => false,
        RevertOutcome::Restore {
            pos: _,
            restore_to,
            current,
            earliest_targeted_action_id,
            targeted_touch_count,
        } => {
            &&& restore_to == want
            &&& current == cur
            &&& !looks_same(want, cur)
            &&& earliest_targeted_action_id == 0
            &&& targeted_touch_count == 0
        },
    }
}

/// `o` is what becomes of its place when it is to hold what `target` says.
pub open spec fn rewound<F: Fn(WorldCoords) -> Option<StoredChunkCell>>(
    o: RevertOutcome,
    target: Map<WorldCoords, Option<StoredChunkCell>>,
    current_value: F,
) -> bool {
    exists|cur: Option<StoredChunkCell>| #[trigger]
        rewind_is(o, target, cur) && call_ensures(current_value, (o.place(),), cur)
}

/// What becomes of every place that `target_state` or the places given name:
/// one outcome for each, in no particular order.
pub fn compute_point_in_time_revert<
    I: Iterator<Item = WorldCoords>,
    F: Fn(WorldCoords) -> Option<StoredChunkCell>,
>(
    target_state: &CoordMap<WorldCoords, Option<StoredChunkCell>>,
    positions_touched_after_cutoff: I,
    current_value: F,
) -> (r: Vec<RevertOutcome>)
    requires
        vstd::std_specs::iter::IteratorSpec::obeys_prophetic_iter_laws(&positions_touched_after_cutoff),
        vstd::std_specs::iter::IteratorSpec::decrease(&positions_touched_after_cutoff) is Some,
        forall|p: WorldCoords| #[trigger] call_requires(current_value, (p,)),
    ensures
        forall|i: int, j: int|
            0 <= i < j < r@.len() ==> (#[trigger] r@[i]).place() != (#[trigger] r@[j]).place(),
        forall|i: int|
            0 <= i < r@.len() ==> rewound(#[trigger] r@[i], target_state@, current_value) && (
            target_state@.contains_key(r@[i].place()) || vstd::std_specs::iter::IteratorSpec::remaining(&positions_touched_after_cutoff).contains(
                r@[i].place(),
            )),
        forall|p: WorldCoords|
            #![trigger target_state@.contains_key(p)]
            #![trigger vstd::std_specs::iter::IteratorSpec::remaining(&positions_touched_after_cutoff).contains(p)]
            target_state@.contains_key(p) || vstd::std_specs::iter::IteratorSpec::remaining(&positions_touched_after_cutoff).contains(p)
                ==> exists|i: int| 0 <= i < r@.len() && (#[trigger] r@[i]).place() == p,
{
    let mut positions: CoordMap<WorldCoords, ()> = CoordMap::new();
    let targets = target_state.keys();
    let ghost more = vstd::std_specs::iter::IteratorSpec::remaining(&positions_touched_after_cutoff);
    let mut rest = positions_touched_after_cutoff;
    let mut i: usize = 0;
    while i < targets.len()
        invariant
            i <= targets@.len(),
            forall|p: WorldCoords| #[trigger]
                positions@.contains_key(p) <==> targets@.take(i as int).contains(p),
        decreases targets@.len() - i,
    {
        positions.insert(targets[i], ());
        assert(targets@.take(i + 1) =~= targets@.take(i as int).push(targets@[i as int]));
        assert forall|p: WorldCoords| #[trigger]
            positions@.contains_key(p) <==> targets@.take(i + 1).contains(p) by {
            lemma_contains_push(targets@.take(i as int), targets@[i as int], p);
        }
        i = i + 1;
    }
    assert(targets@.take(i as int) =~= targets@);
    let ghost mut j: int = 0;
    assert(more.skip(0) =~= more);
    loop
        invariant
            0 <= j <= more.len(),
            vstd::std_specs::iter::IteratorSpec::obeys_prophetic_iter_laws(&rest),
            vstd::std_specs::iter::IteratorSpec::decrease(&rest) is Some,
            vstd::std_specs::iter::IteratorSpec::remaining(&rest) == more.skip(j),
            forall|p: WorldCoords| #[trigger]
                positions@.contains_key(p) <==> targets@.contains(p) || more.take(j).contains(p),
        ensures
            j == more.len(),
        decreases vstd::std_specs::iter::IteratorSpec::decrease(&rest)->0,
    {
        let p = match rest.next() {
            Some(p) => p,
            None => {
                break;
            },
        };
        positions.insert(p, ());
        proof {
            assert(p == more[j]);
            assert(more.skip(j).drop_first() =~= more.skip(j + 1));
            assert(more.take(j + 1) =~= more.take(j).push(more[j]));
            assert forall|p: WorldCoords| #[trigger]
                positions@.contains_key(p) <==> targets@.contains(p) || more.take(j + 1).contains(
                    p,
                ) by {
                lemma_contains_push(more.take(j), more[j], p);
            }
            j = j + 1;
        }
    }
    assert(more.take(j) =~= more);
    let keys = positions.keys();
    let mut out: Vec<RevertOutcome> = Vec::new();
    let mut k: usize = 0;
    while k < keys.len()
        invariant
            k <= keys@.len(),
            forall|p: WorldCoords| #[trigger] call_requires(current_value, (p,)),
            out@.len() == k,
            forall|a: int|
                0 <= a < k ==> (#[trigger] out@[a]).place() == keys@[a] && rewound(
                    out@[a],
                    target_state@,
                    current_value,
                ),
        decreases keys@.len() - k,
    {
        let pos = keys[k];
        let restore_to = match target_state.get(&pos) {
            Some(c) => *c,
            None => None,
        };
        let current = current_value(pos);
        let o = if cell_eq(&restore_to, &current) {
            RevertOutcome::Skipped { pos, reason: SkipReason::NoChange }
        } else {
            RevertOutcome::Restore {
                pos,
                restore_to,
                current,
                earliest_targeted_action_id: 0,
                targeted_touch_count: 0,
            }
        };
        assert(rewind_is(o, target_state@, current));
        out.push(o);
        k = k + 1;
    }
    proof {
        assert forall|a: int, b: int| 0 <= a < b < out@.len() implies (#[trigger] out@[a]).place()
            != (#[trigger] out@[b]).place() by {
            assert(keys@[a] != keys@[b]);
        }
        assert forall|a: int| 0 <= a < out@.len() implies target_state@.contains_key(
            (#[trigger] out@[a]).place(),
        ) || more.contains(out@[a].place()) by {
            assert(keys@.contains(keys@[a]));
        }
        assert forall|p: WorldCoords|
            #![trigger target_state@.contains_key(p)]
            #![trigger more.contains(p)]
            target_state@.contains_key(p) || more.contains(p) implies exists|a: int|
            0 <= a < out@.len() && (#[trigger] out@[a]).place() == p by {
            assert(targets@.contains(p) <==> target_state@.contains_key(p));
            assert(positions@.contains_key(p));
            assert(keys@.contains(p));
            let a = choose|a: int| 0 <= a < keys@.len() && keys@[a] == p;
            assert(out@[a].place() == p);
        }
    }
    out
}

proof fn lemma_contains_push<A>(s: Seq<A>, x: A, y: A)
    ensures
        s.push(x).contains(y) <==> s.contains(y) || x == y,
{
    if s.contains(y) {
        let i = choose|i: int| 0 <= i < s.len() && s[i] == y;
        assert(s.push(x)[i] == y);
    }
    if x == y {
        assert(s.push(x)[s.len() as int] == y);
    }
    if s.push(x).contains(y) && x != y {
        let i = choose|i: int| 0 <= i < s.push(x).len() && s.push(x)[i] == y;
        assert(s[i] == y);
    }
}

/// The value that a revert to a point in time aims at, for a place that is
/// covered: what the last write before the cutoff left there.
pub proof fn law_last_write_before_cutoff_counts(
    cutoff: PointInTimeCutoff,
    writes: Seq<Write>,
    i: int,
)
    requires
        0 <= i < writes.len(),
        cutoff.covers(writes[i].0),
        forall|j: int| i < j < writes.len() ==> (#[trigger] writes[j]).0 != writes[i].0,
    ensures
        settle(cutoff, writes).contains_key(writes[i].0),
        settle(cutoff, writes)[writes[i].0] == writes[i].1,
    decreases writes.len(),
{
    if i < writes.len() - 1 {
        let rest = writes.drop_last();
        assert(rest[i] == writes[i]);
        assert forall|j: int| i < j < rest.len() implies (#[trigger] rest[j]).0 != rest[i].0 by {
            assert(rest[j] == writes[j]);
        }
        law_last_write_before_cutoff_counts(cutoff, rest, i);
        assert(writes[writes.len() - 1].0 != writes[i].0);
    }
}

/// A place outside the part of the board that is meant is not in the target
/// state.
pub proof fn law_uncovered_places_are_left_alone(
    cutoff: PointInTimeCutoff,
    writes: Seq<Write>,
    p: WorldCoords,
)
    requires
        !cutoff.covers(p),
    ensures
        !settle(cutoff, writes).contains_key(p),
    decreases writes.len(),
{
    if writes.len() > 0 {
        law_uncovered_places_are_left_alone(cutoff, writes.drop_last(), p);
    }
}

} // verus!
