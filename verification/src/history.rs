//! The history of the board, put together from memory and disk.

use vstd::prelude::*;

use crate::model::Action;
use crate::sort::{in_order, insert_by, law_sort_by, orders, sort_by};
use crate::state::AppState;

verus! {

/// The older action, or the same.
pub open spec fn by_id() -> spec_fn(Action, Action) -> bool {
    |a: Action, b: Action| a.action_id <= b.action_id
}

fn insert_action(sorted: &mut Vec<Action>, x: Action)
    ensures
        final(sorted)@ == insert_by(old(sorted)@, x, by_id()),
{
    let ghost s = sorted@;
    let mut k: usize = sorted.len();
    assert(s.take(k as int) =~= s);
    assert(insert_by(s.take(k as int), x, by_id()) + s.skip(k as int) =~= insert_by(s, x, by_id()));
    while k > 0 && sorted[k - 1].action_id > x.action_id
        invariant
            k <= s.len(),
            sorted@ == s,
            insert_by(s.take(k as int), x, by_id()) + s.skip(k as int) == insert_by(s, x, by_id()),
        decreases k,
    {
        proof {
            let t = s.take(k as int);
            assert(!by_id()(t.last(), x));
            assert(t.drop_last() =~= s.take(k - 1));
            assert(insert_by(s.take(k - 1), x, by_id()) + s.skip(k - 1) =~= insert_by(
                t,
                x,
                by_id(),
            ) + s.skip(k as int));
        }
        k = k - 1;
    }
    proof {
        let t = s.take(k as int);
        if k > 0 {
            assert(by_id()(t.last(), x));
        }
        assert(insert_by(t, x, by_id()) =~= t.push(x));
        assert(s.insert(k as int, x) =~= insert_by(s, x, by_id()));
    }
    sorted.insert(k, x);
}

/// `actions` by their numbers; equal numbers keep their order.
pub fn sort_actions(actions: Vec<Action>) -> (r: Vec<Action>)
    ensures
        r@ == sort_by(actions@, by_id()),
{
    let ghost all = actions@;
    let mut out: Vec<Action> = Vec::new();
    assert(all.take(0) =~= Seq::<Action>::empty());
    for x in iter: actions
        invariant
            iter.seq() == all,
            out@ == sort_by(all.take(iter.index() as int), by_id()),
    {
        assert(all.take(iter.index() + 1).drop_last() =~= all.take(iter.index() as int));
        insert_action(&mut out, x);
    }
    assert(all.take(all.len() as int) =~= all);
    out
}

/// The number of the oldest of `hot`, or the highest number where there is
/// none.
pub open spec fn oldest_id(hot: Seq<Action>) -> u64 {
    if hot.len() > 0 {
        hot[0].action_id
    } else {
        u64::MAX
    }
}

/// The actions on disk that are older than all of `hot`, in order, and then
/// `hot`.
pub open spec fn merged(disk: Seq<Action>, hot: Seq<Action>) -> Seq<Action> {
    sort_by(disk, by_id()).filter(|a: Action| a.action_id < oldest_id(hot)) + hot
}

/// Puts the history together from the actions on disk and those in memory.
pub fn merge_history(disk: Vec<Action>, hot: Vec<Action>) -> (r: Vec<Action>)
    ensures
        r@ == merged(disk@, hot@),
{
    let oldest: u64 = if hot.len() > 0 {
        hot[0].action_id
    } else {
        u64::MAX
    };
    let ghost keep = |a: Action| a.action_id < oldest_id(hot@);
    let sorted = sort_actions(disk);
    let ghost all = sorted@;
    let mut out: Vec<Action> = Vec::new();
    proof {
        reveal(Seq::filter);
        assert(all.take(0) =~= Seq::<Action>::empty());
        assert(out@ =~= all.take(0).filter(keep));
    }
    for a in iter: sorted
        invariant
            iter.seq() == all,
            oldest == oldest_id(hot@),
            keep == (|a: Action| a.action_id < oldest_id(hot@)),
            out@ == all.take(iter.index() as int).filter(keep),
    {
        proof {
            reveal(Seq::filter);
            assert(all.take(iter.index() + 1).drop_last() =~= all.take(iter.index() as int));
        }
        if a.action_id < oldest {
            out.push(a);
        }
    }
    assert(all.take(all.len() as int) =~= all);
    let mut rest = hot;
    out.append(&mut rest);
    out
}

/// A history put together from actions in memory that are in order is in
/// order.
pub proof fn law_history_is_in_order(disk: Seq<Action>, hot: Seq<Action>)
    requires
        in_order(hot, by_id()),
    ensures
        in_order(merged(disk, hot), by_id()),
{
    let le = by_id();
    assert(orders(le)) by {
        assert forall|a: Action, b: Action| #[trigger] le(a, b) || le(b, a) by {}
    }
    law_sort_by(disk, le);
    let sorted = sort_by(disk, le);
    let keep = |a: Action| a.action_id < oldest_id(hot);
    lemma_filter_in_order(sorted, keep);
    let old = sorted.filter(keep);
    let all = merged(disk, hot);
    assert forall|i: int, j: int| 0 <= i < j < all.len() implies le(
        #[trigger] all[i],
        #[trigger] all[j],
    ) by {
        if i >= old.len() {
            assert(le(hot[i - old.len()], hot[j - old.len()]));
        } else if j < old.len() {
            assert(le(old[i], old[j]));
        } else {
            sorted.filter_lemma(keep);
            assert(keep(old[i]));
            if j > old.len() {
                assert(le(hot[0], hot[j - old.len()]));
            }
        }
    }
}

proof fn lemma_filter_in_order(s: Seq<Action>, keep: spec_fn(Action) -> bool)
    requires
        in_order(s, by_id()),
    ensures
        in_order(s.filter(keep), by_id()),
        forall|x: Action| #[trigger] s.filter(keep).contains(x) ==> s.contains(x),
    decreases s.len(),
{
    reveal(Seq::filter);
    let le = by_id();
    if s.len() > 0 {
        let d = s.drop_last();
        lemma_filter_in_order(d, keep);
        let r = s.filter(keep);
        let f = d.filter(keep);
        assert forall|x: Action| #[trigger] r.contains(x) implies s.contains(x) by {
            let i = choose|i: int| 0 <= i < r.len() && r[i] == x;
            if i < f.len() {
                assert(f[i] == x);
                assert(f.contains(x));
                let k = choose|k: int| 0 <= k < d.len() && d[k] == x;
                assert(s[k] == x);
            } else {
                assert(s[s.len() - 1] == x);
            }
        }
        assert forall|i: int, j: int| 0 <= i < j < r.len() implies le(
            #[trigger] r[i],
            #[trigger] r[j],
        ) by {
            if j < f.len() {
                assert(le(f[i], f[j]));
            } else {
                assert(f[i] == r[i]);
                assert(f.contains(f[i]));
                let k = choose|k: int| 0 <= k < d.len() && d[k] == f[i];
                assert(le(s[k], s[s.len() - 1]));
            }
        }
    }
}

impl AppState {
    /// The actions in memory do not reach back to the one asked for. Without a
    /// lower bound, the whole history is asked for.
    pub fn history_needs_disk(&self, lower_bound_action_id: Option<u64>) -> (r: bool)
        ensures
            r == !(lower_bound_action_id is Some && self.hot_buffer@.len() > 0
                && lower_bound_action_id->0 >= self.hot_buffer@[0].action_id),
    {
        match lower_bound_action_id {
            Some(lo) => if self.hot_buffer.len() > 0 {
                lo < self.hot_buffer[0].action_id
            } else {
                true
            },
            None => true,
        }
    }

    /// A copy of the actions in memory, oldest first.
    pub fn hot_actions(&self) -> (r: Vec<Action>)
        ensures
            r@.map_values(|a: Action| a@) == self.hot(),
    {
        let mut out: Vec<Action> = Vec::new();
        let mut i: usize = 0;
        while i < self.hot_buffer.len()
            invariant
                i <= self.hot_buffer@.len(),
                out@.len() == i,
                forall|j: int| 0 <= j < i ==> (#[trigger] out@[j])@ == self.hot_buffer@[j]@,
            decreases self.hot_buffer@.len() - i,
        {
            out.push(self.hot_buffer[i].duplicate());
            i = i + 1;
        }
        assert(out@.map_values(|a: Action| a@) =~= self.hot());
        out
    }
}

} // verus!
