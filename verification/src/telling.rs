//! What holds of the reports on the log and on what a correction does.

use vstd::prelude::*;

use crate::admin::restore_count;
use crate::model::{Action, CellChange};
use crate::revert::{RevertOutcome, SkipReason};
use crate::serving::within;
use crate::summary::{
    first_outcomes, is_overwritten, is_unchanged, lost_by, outcome_lines, takes_from, Inspected,
    Inspection, Summary,
};

verus! {

/// The places of `s` at which `f` holds.
pub open spec fn places_where<A>(s: Seq<A>, f: spec_fn(A) -> bool) -> Set<int> {
    Set::new(|i: int| 0 <= i < s.len() && f(s[i]))
}

proof fn lemma_filter_counts<A>(s: Seq<A>, f: spec_fn(A) -> bool)
    ensures
        places_where(s, f).finite(),
        s.filter(f).len() == places_where(s, f).len(),
    decreases s.len(),
{
    reveal(Seq::filter);
    let all = places_where(s, f);
    if s.len() == 0 {
        assert(all =~= Set::<int>::empty());
    } else {
        let rest = s.drop_last();
        let n = s.len() - 1;
        lemma_filter_counts(rest, f);
        let before = places_where(rest, f);
        if f(s.last()) {
            assert(all =~= before.insert(n));
            assert(!before.contains(n));
        } else {
            assert(all =~= before);
        }
    }
}

/// The action was made in the time asked for.
pub open spec fn in_time(what: Inspection, a: Action) -> bool {
    &&& what.ts_from is Some ==> what.ts_from->0 <= a.ts
    &&& what.ts_to is Some ==> a.ts <= what.ts_to->0
}

/// Which changes of the action lie in the region asked for.
pub open spec fn changes_in_region(what: Inspection, a: Action) -> Set<int> {
    Set::new(
        |j: int|
            0 <= j < a.changes@.len() && (what.region is None || within(
                what.region->0,
                a.changes@[j].pos,
            )),
    )
}

/// The line tells of the action.
pub open spec fn tells_of(what: Inspection, a: Action, l: Inspected) -> bool {
    &&& in_time(what, a)
    &&& l.action_id == a.action_id
    &&& l.author_id == a.author_id
    &&& l.ts == a.ts
    &&& l.changes == changes_in_region(what, a).len()
    &&& l.changes > 0
}

proof fn lemma_found(what: Inspection, a: Action)
    requires
        a.changes@.len() <= usize::MAX,
    ensures
        what.found(a) == (if in_time(what, a) {
            changes_in_region(what, a).len()
        } else {
            0
        }),
        what.found(a) <= usize::MAX,
        changes_in_region(what, a).finite(),
{
    let f = |c: CellChange| what.has(c);
    lemma_filter_counts(a.changes@, f);
    assert(changes_in_region(what, a) =~= places_where(a.changes@, f));
    vstd::set_lib::lemma_int_range(0, a.changes@.len() as int);
    vstd::set_lib::lemma_len_subset(
        changes_in_region(what, a),
        vstd::set_lib::set_int_range(0, a.changes@.len() as int),
    );
}

spec fn has_action(what: Inspection, actions: Seq<Action>, l: Inspected) -> bool {
    exists|i: int| 0 <= i < actions.len() && tells_of(what, #[trigger] actions[i], l)
}

spec fn has_line(what: Inspection, lines: Seq<Inspected>, a: Action) -> bool {
    exists|k: int| 0 <= k < lines.len() && tells_of(what, a, #[trigger] lines[k])
}

proof fn lemma_lists(what: Inspection, actions: Seq<Action>)
    requires
        forall|i: int| 0 <= i < actions.len() ==> (#[trigger] actions[i]).changes@.len() <= usize::MAX,
    ensures
        forall|k: int|
            0 <= k < what.lists(actions).len() ==> has_action(
                what,
                actions,
                #[trigger] what.lists(actions)[k],
            ),
        forall|i: int|
            0 <= i < actions.len() && in_time(what, #[trigger] actions[i]) && changes_in_region(
                what,
                actions[i],
            ).len() > 0 ==> has_line(what, what.lists(actions), actions[i]),
    decreases actions.len(),
{
    if actions.len() > 0 {
        let rest = actions.drop_last();
        let n = actions.len() - 1;
        let a = actions.last();
        assert(actions[n] == a);
        assert forall|i: int| 0 <= i < rest.len() implies (#[trigger] rest[i]).changes@.len()
            <= usize::MAX by {
            assert(rest[i] == actions[i]);
        }
        lemma_lists(what, rest);
        lemma_found(what, a);
        let before = what.lists(rest);
        let all = what.lists(actions);
        assert forall|k: int| 0 <= k < all.len() implies has_action(
            what,
            actions,
            #[trigger] all[k],
        ) by {
            if k < before.len() {
                assert(all[k] == before[k]);
                assert(has_action(what, rest, before[k]));
                let i = choose|i: int|
                    0 <= i < rest.len() && tells_of(what, #[trigger] rest[i], before[k]);
                assert(tells_of(what, actions[i], all[k]));
            } else {
                assert(tells_of(what, actions[n], all[k]));
            }
        }
        assert forall|i: int|
            0 <= i < actions.len() && in_time(what, #[trigger] actions[i]) && changes_in_region(
                what,
                actions[i],
            ).len() > 0 implies has_line(what, all, actions[i]) by {
            if i < n {
                assert(rest[i] == actions[i]);
                assert(has_line(what, before, rest[i]));
                let k = choose|k: int|
                    0 <= k < before.len() && tells_of(what, rest[i], #[trigger] before[k]);
                assert(tells_of(what, actions[i], all[k]));
            } else {
                assert(tells_of(what, actions[n], all[all.len() - 1]));
            }
        }
    }
}

/// Looking into the log lists the actions of the time asked for that change
/// something in the region asked for, and how much, and no other.
pub proof fn law_inspection_lists_what_is_asked_for(
    what: Inspection,
    actions: Seq<Action>,
    i: int,
    k: int,
)
    requires
        forall|j: int| 0 <= j < actions.len() ==> (#[trigger] actions[j]).changes@.len() <= usize::MAX,
    ensures
        0 <= k < what.lists(actions).len() ==> exists|j: int|
            0 <= j < actions.len() && tells_of(what, #[trigger] actions[j], what.lists(actions)[k]),
        0 <= i < actions.len() && in_time(what, actions[i]) && changes_in_region(
            what,
            actions[i],
        ).len() > 0 ==> exists|j: int|
            0 <= j < what.lists(actions).len() && tells_of(
                what,
                actions[i],
                #[trigger] what.lists(actions)[j],
            ),
{
    lemma_lists(what, actions);
    let all = what.lists(actions);
    if 0 <= k < all.len() {
        assert(has_action(what, actions, all[k]));
    }
    if 0 <= i < actions.len() && in_time(what, actions[i]) && changes_in_region(
        what,
        actions[i],
    ).len() > 0 {
        assert(has_line(what, all, actions[i]));
    }
}

proof fn lemma_lines(outcomes: Seq<RevertOutcome>)
    ensures
        outcome_lines(outcomes).len() == restore_count(outcomes),
    decreases outcomes.len(),
{
    reveal(Seq::filter);
    if outcomes.len() > 0 {
        lemma_lines(outcomes.drop_last());
    }
}

proof fn lemma_parts(outcomes: Seq<RevertOutcome>)
    ensures
        restore_count(outcomes) + outcomes.filter(|o: RevertOutcome| is_overwritten(o)).len()
            + outcomes.filter(|o: RevertOutcome| is_unchanged(o)).len() == outcomes.len(),
    decreases outcomes.len(),
{
    reveal(Seq::filter);
    if outcomes.len() > 0 {
        let rest = outcomes.drop_last();
        lemma_parts(rest);
        let o = outcomes.last();
        match o {
            RevertOutcome::Restore { .. } => {},
            RevertOutcome::Skipped { reason, .. } => match reason {
                SkipReason::OverwrittenByOther { .. } => {},
                SkipReason::NoChange => {},
            },
        }
    }
}

/// A summary counts every outcome once: as given another value, as overwritten by
/// somebody else, or as unchanged. It shows a line for each of the first 20 that
/// are given another value, and tells whose the cells are that are lost, and how
/// many of each.
pub proof fn law_summary_counts_every_outcome(
    s: Summary,
    outcomes: Seq<RevertOutcome>,
    k: int,
    a: u32,
)
    requires
        s.sums_up(outcomes),
    ensures
        s.restored + s.overwritten + s.unchanged == outcomes.len(),
        s.restored == places_where(outcomes, |o: RevertOutcome| o is Restore).len(),
        s.more == (if s.restored > 20 {
            s.restored - 20
        } else {
            0
        }),
        outcomes.len() <= 20 ==> s.lines@.len() == s.restored,
        s.lines@.len() <= 20,
        0 <= k < s.authors@.len() ==> s.authors@[k].1 == places_where(
            outcomes,
            |o: RevertOutcome|
                o is Restore && o->current is Some && o->current->0.author_id == s.authors@[k].0,
        ).len(),
        (exists|i: int|
            0 <= i < outcomes.len() && (#[trigger] outcomes[i]) is Restore && outcomes[i]->current is Some
                && outcomes[i]->current->0.author_id == a) ==> exists|j: int|
            0 <= j < s.authors@.len() && (#[trigger] s.authors@[j]).0 == a,
{
    let first = first_outcomes(outcomes);
    lemma_parts(outcomes);
    lemma_lines(first);
    lemma_filter_counts(outcomes, |o: RevertOutcome| o is Restore);
    assert(s.lines@.len() == s.lines@.map_values(|t: String| t@).len());
    assert(restore_count(first) <= first.len()) by {
        lemma_parts(first);
    }
    if 0 <= k < s.authors@.len() {
        let who = s.authors@[k].0;
        let f = |o: RevertOutcome| takes_from(o, who);
        let g = |o: RevertOutcome|
            o is Restore && o->current is Some && o->current->0.author_id == who;
        lemma_filter_counts(outcomes, f);
        assert(places_where(outcomes, f) =~= places_where(outcomes, g));
    }
    if exists|i: int|
        0 <= i < outcomes.len() && (#[trigger] outcomes[i]) is Restore && outcomes[i]->current is Some
            && outcomes[i]->current->0.author_id == a {
        let i = choose|i: int|
            0 <= i < outcomes.len() && (#[trigger] outcomes[i]) is Restore
                && outcomes[i]->current is Some && outcomes[i]->current->0.author_id == a;
        let f = |o: RevertOutcome| takes_from(o, a);
        lemma_filter_counts(outcomes, f);
        assert(places_where(outcomes, f).contains(i));
        assert(lost_by(outcomes, a) > 0);
    }
}

} // verus!
