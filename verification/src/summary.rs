//! Telling what a revert would do, and what the log holds.

use vstd::prelude::*;

use crate::admin::{restore_count, Board};
use crate::coords::WorldRect;
use crate::model::{Action, CellChange, StoredChunkCell};
use crate::revert::{lemma_filter_push, RevertOutcome, SkipReason};
use crate::text::{dec, dec_int, push_dec, push_dec_int};

verus! {

/// The outcome gives another value to a place that the author wrote.
pub open spec fn takes_from(o: RevertOutcome, author: u32) -> bool {
    o matches RevertOutcome::Restore { current: Some(c), .. } && c.author_id == author
}

/// Number of places that the author loses.
pub open spec fn lost_by(outcomes: Seq<RevertOutcome>, author: u32) -> nat {
    outcomes.filter(|o: RevertOutcome| takes_from(o, author)).len()
}

/// The authors who lose places, by number, each with how many.
pub open spec fn losses(outcomes: Seq<RevertOutcome>, r: Seq<(u32, u32)>) -> bool {
    &&& forall|i: int, j: int| 0 <= i < j < r.len() ==> (#[trigger] r[i]).0 < (#[trigger] r[j]).0
    &&& forall|i: int|
        0 <= i < r.len() ==> (#[trigger] r[i]).1 > 0 && r[i].1 == lost_by(outcomes, r[i].0)
    &&& forall|a: u32|
        (#[trigger] lost_by(outcomes, a)) > 0 ==> exists|i: int|
            0 <= i < r.len() && (#[trigger] r[i]).0 == a
}

proof fn lemma_lost_push(outcomes: Seq<RevertOutcome>, o: RevertOutcome, a: u32)
    ensures
        lost_by(outcomes.push(o), a) == lost_by(outcomes, a) + (if takes_from(o, a) {
            1nat
        } else {
            0nat
        }),
{
    lemma_filter_push(outcomes, o, |o: RevertOutcome| takes_from(o, a));
}

proof fn lemma_lost_so_far(outcomes: Seq<RevertOutcome>, i: int, a: u32)
    requires
        0 <= i <= outcomes.len(),
    ensures
        lost_by(outcomes.take(i), a) <= lost_by(outcomes, a),
    decreases outcomes.len() - i,
{
    if i < outcomes.len() {
        lemma_lost_push(outcomes.take(i), outcomes[i], a);
        assert(outcomes.take(i + 1) =~= outcomes.take(i).push(outcomes[i]));
        lemma_lost_so_far(outcomes, i + 1, a);
    } else {
        assert(outcomes.take(i) =~= outcomes);
    }
}

fn note_loss(
    r: &mut Vec<(u32, u32)>,
    author: u32,
    Ghost(done): Ghost<Seq<RevertOutcome>>,
    Ghost(o): Ghost<RevertOutcome>,
)
    requires
        losses(done, old(r)@),
        takes_from(o, author),
        lost_by(done, author) < u32::MAX,
    ensures
        losses(done.push(o), final(r)@),
{
    let ghost r0 = r@;
    let mut k: usize = 0;
    while k < r.len() && r[k].0 < author
        invariant
            k <= r@.len(),
            r@ == r0,
            forall|i: int| 0 <= i < k ==> (#[trigger] r0[i]).0 < author,
        decreases r@.len() - k,
    {
        k = k + 1;
    }
    proof {
        assert forall|a: u32| #[trigger]
            lost_by(done.push(o), a) == lost_by(done, a) + (if a == author {
                1nat
            } else {
                0nat
            }) by {
            lemma_lost_push(done, o, a);
        }
        lemma_lost_push(done, o, author);
    }
    if k < r.len() && r[k].0 == author {
        let (_, n) = r[k];
        assert(r0[k as int].1 == lost_by(done, author));
        r.set(k, (author, n + 1));
        proof {
            assert forall|a: u32| (#[trigger] lost_by(done.push(o), a)) > 0 implies exists|i: int|
                0 <= i < r@.len() && (#[trigger] r@[i]).0 == a by {
                if a == author {
                    assert(r@[k as int].0 == a);
                } else {
                    let i = choose|i: int| 0 <= i < r0.len() && (#[trigger] r0[i]).0 == a;
                    assert(r@[i].0 == a);
                }
            }
        }
    } else {
        proof {
            if lost_by(done, author) > 0 {
                let i = choose|i: int| 0 <= i < r0.len() && (#[trigger] r0[i]).0 == author;
                assert(i > k ==> r0[k as int].0 < r0[i].0);
                assert(false);
            }
        }
        r.insert(k, (author, 1));
        proof {
            assert forall|i: int, j: int| 0 <= i < j < r@.len() implies (#[trigger] r@[i]).0 < (
            #[trigger] r@[j]).0 by {
                if i < k && j > k {
                    assert(r0[i].0 < r0[j - 1].0);
                } else if i > k {
                    assert(r0[i - 1].0 < r0[j - 1].0);
                } else if i == k {
                    assert(r0[k as int].0 > author);
                    assert(j - 1 > k ==> r0[k as int].0 < r0[j - 1].0);
                } else if j < k {
                    assert(r0[i].0 < r0[j].0);
                }
            }
            assert forall|i: int| 0 <= i < r@.len() implies (#[trigger] r@[i]).1 > 0 && r@[i].1
                == lost_by(done.push(o), r@[i].0) by {
                if i < k {
                    assert(r@[i] == r0[i]);
                } else if i > k {
                    assert(r@[i] == r0[i - 1]);
                    assert(i - 1 > k ==> r0[k as int].0 < r0[i - 1].0);
                }
            }
            assert forall|a: u32| (#[trigger] lost_by(done.push(o), a)) > 0 implies exists|i: int|
                0 <= i < r@.len() && (#[trigger] r@[i]).0 == a by {
                if a == author {
                    assert(r@[k as int].0 == a);
                } else {
                    let i = choose|i: int| 0 <= i < r0.len() && (#[trigger] r0[i]).0 == a;
                    if i < k {
                        assert(r@[i].0 == a);
                    } else {
                        assert(r@[i + 1].0 == a);
                    }
                }
            }
        }
    }
}

/// Number of outcomes of which a line is shown.
pub const SHOWN_OUTCOMES: usize = 20;

/// A revert in numbers, and in lines for the first few places.
pub struct Summary {
    pub restored: usize,
    pub overwritten: usize,
    pub unchanged: usize,
    pub authors: Vec<(u32, u32)>,
    pub lines: Vec<String>,
    pub more: usize,
}

/// A cell, as a line shows it.
pub open spec fn cell_text(c: Option<StoredChunkCell>) -> Seq<char> {
    match c {
        Some(c) => "'"@ + seq![c.ch] + "' (author "@ + dec(c.author_id as nat) + ")"@,
        None => "<empty>"@,
    }
}

/// The line for a place that is given another value.
pub open spec fn outcome_text(o: RevertOutcome) -> Seq<char> {
    "  ("@ + dec_int(o.place().x as int) + ","@ + dec_int(o.place().y as int) + "): "@ + cell_text(
        o->current,
    ) + " -> "@ + cell_text(o->restore_to)
}

/// The lines for those of `outcomes` that give a place another value.
pub open spec fn outcome_lines(outcomes: Seq<RevertOutcome>) -> Seq<Seq<char>>
    decreases outcomes.len(),
{
    if outcomes.len() == 0 {
        Seq::empty()
    } else {
        let before = outcome_lines(outcomes.drop_last());
        if outcomes.last() is Restore {
            before.push(outcome_text(outcomes.last()))
        } else {
            before
        }
    }
}

/// The first outcomes, of which lines are shown.
pub open spec fn first_outcomes(outcomes: Seq<RevertOutcome>) -> Seq<RevertOutcome> {
    if outcomes.len() > SHOWN_OUTCOMES {
        outcomes.take(SHOWN_OUTCOMES as int)
    } else {
        outcomes
    }
}

pub open spec fn is_overwritten(o: RevertOutcome) -> bool {
    o matches RevertOutcome::Skipped { reason: SkipReason::OverwrittenByOther { .. }, .. }
}

pub open spec fn is_unchanged(o: RevertOutcome) -> bool {
    o matches RevertOutcome::Skipped { reason: SkipReason::NoChange, .. }
}

impl Summary {
    pub open spec fn sums_up(self, outcomes: Seq<RevertOutcome>) -> bool {
        &&& self.restored == restore_count(outcomes)
        &&& self.overwritten == outcomes.filter(|o: RevertOutcome| is_overwritten(o)).len()
        &&& self.unchanged == outcomes.filter(|o: RevertOutcome| is_unchanged(o)).len()
        &&& losses(outcomes, self.authors@)
        &&& self.lines@.map_values(|s: String| s@) == outcome_lines(first_outcomes(outcomes))
        &&& self.more == (if restore_count(outcomes) > SHOWN_OUTCOMES {
            restore_count(outcomes) - SHOWN_OUTCOMES
        } else {
            0
        })
    }
}

fn push_cell(s: &mut String, c: &Option<StoredChunkCell>)
    ensures
        final(s)@ == old(s)@ + cell_text(*c),
{
    match c {
        Some(c) => {
            s.append("'");
            s.push(c.ch);
            s.append("' (author ");
            push_dec(s, c.author_id as u64);
            s.append(")");
        },
        None => {
            s.append("<empty>");
        },
    }
    assert(s@ =~= old(s)@ + cell_text(*c));
}

fn outcome_line(o: &RevertOutcome) -> (r: Option<String>)
    ensures
        r is Some <==> *o is Restore,
        r matches Some(s) ==> s@ == outcome_text(*o),
{
    match o {
        RevertOutcome::Restore { pos, restore_to, current, .. } => {
            let mut s = String::new();
            s.append("  (");
            push_dec_int(&mut s, pos.x as i64);
            s.append(",");
            push_dec_int(&mut s, pos.y as i64);
            s.append("): ");
            push_cell(&mut s, current);
            s.append(" -> ");
            push_cell(&mut s, restore_to);
            assert(s@ =~= outcome_text(*o));
            Some(s)
        },
        RevertOutcome::Skipped { .. } => None,
    }
}

fn first_lines(outcomes: &Vec<RevertOutcome>) -> (r: Vec<String>)
    ensures
        r@.map_values(|s: String| s@) == outcome_lines(first_outcomes(outcomes@)),
{
    let mut out: Vec<String> = Vec::new();
    let mut i: usize = 0;
    assert(outcomes@.take(0) =~= Seq::<RevertOutcome>::empty());
    assert(out@.map_values(|s: String| s@) =~= Seq::<Seq<char>>::empty());
    while i < outcomes.len() && i < SHOWN_OUTCOMES
        invariant
            i <= outcomes@.len(),
            i <= SHOWN_OUTCOMES,
            out@.map_values(|s: String| s@) == outcome_lines(outcomes@.take(i as int)),
        decreases outcomes@.len() - i,
    {
        assert(outcomes@.take(i + 1).drop_last() =~= outcomes@.take(i as int));
        assert(outcomes@.take(i + 1).last() == outcomes@[i as int]);
        let ghost before = out@;
        if let Some(line) = outcome_line(&outcomes[i]) {
            out.push(line);
            assert(out@.map_values(|s: String| s@) =~= before.map_values(|s: String| s@).push(
                line@,
            ));
        }
        i = i + 1;
    }
    assert(outcomes@.take(i as int) =~= first_outcomes(outcomes@));
    out
}

/// What a revert does, in short.
pub fn print_summary(outcomes: &Vec<RevertOutcome>) -> (r: Summary)
    requires
        forall|a: u32| (#[trigger] lost_by(outcomes@, a)) <= u32::MAX,
    ensures
        r.sums_up(outcomes@),
{
    let mut restored: usize = 0;
    let mut overwritten: usize = 0;
    let mut unchanged: usize = 0;
    let mut authors: Vec<(u32, u32)> = Vec::new();
    let mut i: usize = 0;
    let ghost none = outcomes@.take(0);
    proof {
        assert(none.filter(|o: RevertOutcome| o is Restore).len() == 0) by {
            reveal(Seq::filter);
        }
        assert(none.filter(|o: RevertOutcome| is_overwritten(o)).len() == 0) by {
            reveal(Seq::filter);
        }
        assert(none.filter(|o: RevertOutcome| is_unchanged(o)).len() == 0) by {
            reveal(Seq::filter);
        }
        assert forall|a: u32| (#[trigger] lost_by(none, a)) == 0 by {
            reveal(Seq::filter);
        }
    }
    while i < outcomes.len()
        invariant
            i <= outcomes@.len(),
            forall|a: u32| (#[trigger] lost_by(outcomes@, a)) <= u32::MAX,
            restored <= i,
            overwritten <= i,
            unchanged <= i,
            restored == restore_count(outcomes@.take(i as int)),
            overwritten == outcomes@.take(i as int).filter(
                |o: RevertOutcome| is_overwritten(o),
            ).len(),
            unchanged == outcomes@.take(i as int).filter(|o: RevertOutcome| is_unchanged(o)).len(),
            losses(outcomes@.take(i as int), authors@),
        decreases outcomes@.len() - i,
    {
        let ghost done = outcomes@.take(i as int);
        let ghost o = outcomes@[i as int];
        proof {
            assert(outcomes@.take(i + 1) =~= done.push(o));
            lemma_filter_push(done, o, |o: RevertOutcome| o is Restore);
            lemma_filter_push(done, o, |o: RevertOutcome| is_overwritten(o));
            lemma_filter_push(done, o, |o: RevertOutcome| is_unchanged(o));
            assert forall|a: u32| !takes_from(o, a) implies #[trigger] lost_by(done.push(o), a)
                == lost_by(done, a) by {
                lemma_lost_push(done, o, a);
            }
        }
        match &outcomes[i] {
            RevertOutcome::Restore { current, .. } => {
                restored = restored + 1;
                if let Some(c) = current {
                    proof {
                        lemma_lost_push(done, o, c.author_id);
                        lemma_lost_so_far(outcomes@, i + 1, c.author_id);
                    }
                    note_loss(&mut authors, c.author_id, Ghost(done), Ghost(o));
                }
            },
            RevertOutcome::Skipped { reason: SkipReason::OverwrittenByOther { .. }, .. } => {
                overwritten = overwritten + 1;
            },
            RevertOutcome::Skipped { reason: SkipReason::NoChange, .. } => {
                unchanged = unchanged + 1;
            },
        }
        i = i + 1;
    }
    assert(outcomes@.take(i as int) =~= outcomes@);
    let more: usize = if restored > SHOWN_OUTCOMES {
        restored - SHOWN_OUTCOMES
    } else {
        0
    };
    Summary { restored, overwritten, unchanged, authors, lines: first_lines(outcomes), more }
}

/// An action, and how many of its changes are in the region asked for.
#[derive(Debug, Clone, Copy, PartialEq, Eq, Structural)]
pub struct Inspected {
    pub action_id: u64,
    pub author_id: u32,
    pub ts: i64,
    pub changes: usize,
}

/// Which actions are asked for.
#[derive(Debug, Clone, Copy)]
pub struct Inspection {
    pub region: Option<WorldRect>,
    pub ts_from: Option<i64>,
    pub ts_to: Option<i64>,
}

impl Inspection {
    /// The change is in the region asked for.
    pub open spec fn has(self, c: CellChange) -> bool {
        self.region matches Some(r) ==> r.has(c.pos)
    }

    /// Number of changes of the action that are asked for.
    pub open spec fn found(self, a: Action) -> nat {
        if (self.ts_from matches Some(t) && a.ts < t) || (self.ts_to matches Some(t) && a.ts > t) {
            0
        } else {
            a.changes@.filter(|c: CellChange| self.has(c)).len()
        }
    }

    /// The actions with a change that is asked for, in order.
    pub open spec fn lists(self, actions: Seq<Action>) -> Seq<Inspected>
        decreases actions.len(),
    {
        if actions.len() == 0 {
            Seq::empty()
        } else {
            let a = actions.last();
            let before = self.lists(actions.drop_last());
            if self.found(a) > 0 {
                before.push(
                    Inspected {
                        action_id: a.action_id,
                        author_id: a.author_id,
                        ts: a.ts,
                        changes: self.found(a) as usize,
                    },
                )
            } else {
                before
            }
        }
    }

    fn count(&self, a: &Action) -> (r: usize)
        ensures
            r == self.found(*a),
    {
        if let Some(t) = self.ts_from {
            if a.ts < t {
                return 0;
            }
        }
        if let Some(t) = self.ts_to {
            if a.ts > t {
                return 0;
            }
        }
        let mut n: usize = 0;
        let mut i: usize = 0;
        assert(a.changes@.take(0).filter(|c: CellChange| self.has(c)).len() == 0) by {
            reveal(Seq::filter);
        }
        while i < a.changes.len()
            invariant
                i <= a.changes@.len(),
                n <= i,
                n == a.changes@.take(i as int).filter(|c: CellChange| self.has(c)).len(),
            decreases a.changes@.len() - i,
        {
            let c = a.changes[i];
            proof {
                assert(a.changes@.take(i + 1) =~= a.changes@.take(i as int).push(c));
                lemma_filter_push(a.changes@.take(i as int), c, |c: CellChange| self.has(c));
            }
            let inside = match &self.region {
                Some(r) => r.contains(c.pos),
                None => true,
            };
            if inside {
                n = n + 1;
            }
            i = i + 1;
        }
        assert(a.changes@.take(i as int) =~= a.changes@);
        n
    }
}

/// The actions that are asked for.
pub fn run_inspect(board: &Board, what: &Inspection) -> (r: Vec<Inspected>)
    ensures
        r@ == what.lists(board.actions@),
{
    let mut out: Vec<Inspected> = Vec::new();
    let mut i: usize = 0;
    assert(board.actions@.take(0) =~= Seq::<Action>::empty());
    while i < board.actions.len()
        invariant
            i <= board.actions@.len(),
            out@ == what.lists(board.actions@.take(i as int)),
        decreases board.actions@.len() - i,
    {
        let a = &board.actions[i];
        assert(board.actions@.take(i + 1).drop_last() =~= board.actions@.take(i as int));
        assert(board.actions@.take(i + 1).last() == board.actions@[i as int]);
        let n: usize = what.count(a);
        if n > 0 {
            out.push(
                Inspected { action_id: a.action_id, author_id: a.author_id, ts: a.ts, changes: n },
            );
        }
        i = i + 1;
    }
    assert(board.actions@.take(i as int) =~= board.actions@);
    out
}

} // verus!
