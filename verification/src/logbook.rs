//! The editor's log of what others write.

use vstd::prelude::*;
use vstd::string::StringExecFns;

use crate::editor::{Editor, EditorView};
use crate::msg::CellUpdateEntry;
use crate::text::{dec, push_dec};
use crate::ui::{Order, OrderView};

verus! {

/// The character that was written, or a space where one was deleted.
pub open spec fn shown_char(u: CellUpdateEntry) -> char {
    match u.ch {
        Some(c) => c,
        None => ' ',
    }
}

/// The cells stand next to each other in one row, from left to right.
pub open spec fn in_a_row(group: Seq<CellUpdateEntry>) -> bool {
    forall|k: int|
        0 <= k < group.len() ==> (#[trigger] group[k]).pos.y == group[0].pos.y && group[k].pos.x
            == group[0].pos.x + k
}

/// The characters that were written; nothing, if one was deleted.
pub open spec fn letters(group: Seq<CellUpdateEntry>) -> Option<Seq<char>>
    decreases group.len(),
{
    if group.len() == 0 {
        Some(Seq::empty())
    } else {
        match (letters(group.drop_last()), group.last().ch) {
            (Some(s), Some(c)) => Some(s.push(c)),
            _ => None,
        }
    }
}

/// The word that the cells make, if they make one.
pub open spec fn word_of_group(group: Seq<CellUpdateEntry>) -> Option<Seq<char>> {
    if in_a_row(group) {
        letters(group)
    } else {
        None
    }
}

pub fn contiguous_word(updates: &Vec<CellUpdateEntry>, from: usize, to: usize) -> (r: Option<String>)
    requires
        from < to <= updates@.len(),
    ensures
        match (r, word_of_group(updates@.subrange(from as int, to as int))) {
            (Some(s), Some(w)) => s@ == w,
            (None, None) => true,
            _ => false,
        },
{
    let ghost group = updates@.subrange(from as int, to as int);
    let y: i16 = updates[from].pos.y;
    let x0: i64 = updates[from].pos.x as i64;
    let mut k: usize = from;
    while k < to
        invariant
            from <= k <= to <= updates@.len(),
            group == updates@.subrange(from as int, to as int),
            group.len() > 0,
            y == group[0].pos.y,
            x0 == group[0].pos.x,
            forall|j: int|
                0 <= j < k - from ==> (#[trigger] group[j]).pos.y == y && group[j].pos.x == x0 + j,
        decreases to - k,
    {
        if updates[k].pos.y != y || updates[k].pos.x as i128 != x0 as i128 + (k - from) as i128 {
            assert(group[k - from] == updates@[k as int]);
            assert(!in_a_row(group));
            return None;
        }
        k = k + 1;
    }
    assert(in_a_row(group));
    let mut out = String::new();
    k = from;
    assert(group.take(0) =~= Seq::<CellUpdateEntry>::empty());
    while k < to
        invariant
            from <= k <= to <= updates@.len(),
            group == updates@.subrange(from as int, to as int),
            in_a_row(group),
            letters(group.take(k - from)) == Some(out@),
        decreases to - k,
    {
        assert(group.take(k - from + 1).drop_last() =~= group.take(k - from));
        assert(group.take(k - from + 1).last() == updates@[k as int]);
        match updates[k].ch {
            Some(c) => {
                out.push(c);
            },
            None => {
                proof {
                    lemma_letters_end(group, k - from + 1);
                }
                return None;
            },
        }
        k = k + 1;
    }
    assert(group.take(k - from) =~= group);
    Some(out)
}

proof fn lemma_letters_end(group: Seq<CellUpdateEntry>, n: int)
    requires
        0 <= n <= group.len(),
        letters(group.take(n)) is None,
    ensures
        letters(group) is None,
    decreases group.len() - n,
{
    if n < group.len() {
        assert(group.take(n + 1).drop_last() =~= group.take(n));
        lemma_letters_end(group, n + 1);
    } else {
        assert(group.take(n) =~= group);
    }
}

/// The line for what one author wrote, without the place.
pub open spec fn log_text(author: Seq<char>, group: Seq<CellUpdateEntry>) -> Seq<char> {
    if group.len() == 1 {
        author + " '"@ + seq![shown_char(group[0])] + "' "@
    } else {
        match word_of_group(group) {
            Some(w) => author + " \""@ + w + "\" "@,
            None => author + " wrote "@ + dec(group.len()) + " cells "@,
        }
    }
}

/// Where the run of updates by one author ends that begins at `i`.
pub open spec fn run_end(updates: Seq<CellUpdateEntry>, i: int, j: int) -> int
    decreases updates.len() - j,
{
    if j < updates.len() && updates[j].author_id == updates[i].author_id {
        run_end(updates, i, j + 1)
    } else {
        j
    }
}

impl EditorView {
    /// What one author wrote is logged, unless nobody wrote it.
    pub open spec fn group_logged(self, group: Seq<CellUpdateEntry>) -> EditorView {
        if group[0].author_id == 0 {
            self
        } else {
            self.ordered(
                OrderView::LogPlace(
                    log_text(self.board.name_of(group[0].author_id), group),
                    group[0].pos,
                ),
            )
        }
    }

    /// The updates from `i` on are logged, a line for each run of one author.
    pub open spec fn updates_logged(self, updates: Seq<CellUpdateEntry>, i: int) -> EditorView
        decreases updates.len() - i,
    {
        if i >= updates.len() || i < 0 {
            self
        } else {
            let j = run_end(updates, i, i + 1);
            if j <= i || j > updates.len() {
                self
            } else {
                self.group_logged(updates.subrange(i, j)).updates_logged(updates, j)
            }
        }
    }
}

proof fn lemma_run_end(updates: Seq<CellUpdateEntry>, i: int, j: int)
    requires
        0 <= i < j <= updates.len(),
    ensures
        j <= run_end(updates, i, j) <= updates.len(),
    decreases updates.len() - j,
{
    if j < updates.len() && updates[j].author_id == updates[i].author_id {
        lemma_run_end(updates, i, j + 1);
    }
}

impl Editor {
    fn log_group(&mut self, updates: &Vec<CellUpdateEntry>, from: usize, to: usize)
        requires
            from < to <= updates@.len(),
        ensures
            final(self)@ == old(self)@.group_logged(updates@.subrange(from as int, to as int)),
            old(self).wf() ==> final(self).wf(),
    {
        let ghost group = updates@.subrange(from as int, to as int);
        let first = updates[from];
        assert(group[0] == first);
        if first.author_id == 0 {
            return;
        }
        let mut text = self.board.author_name(first.author_id);
        let ghost author = text@;
        if to - from == 1 {
            text.append(" '");
            let c: char = match first.ch {
                Some(c) => c,
                None => ' ',
            };
            text.push(c);
            text.append("' ");
            assert(text@ =~= author + " '"@ + seq![shown_char(group[0])] + "' "@);
        } else {
            match contiguous_word(updates, from, to) {
                Some(w) => {
                    text.append(" \"");
                    text.append(w.as_str());
                    text.append("\" ");
                },
                None => {
                    text.append(" wrote ");
                    push_dec(&mut text, (to - from) as u64);
                    text.append(" cells ");
                },
            }
        }
        self.order(Order::LogPlace(text, first.pos));
    }

    /// Logs what was written, a line for each run of updates by one author.
    pub fn log_cell_updates(&mut self, updates: &Vec<CellUpdateEntry>)
        ensures
            final(self)@ == old(self)@.updates_logged(updates@, 0),
            old(self).wf() ==> final(self).wf(),
    {
        let mut i: usize = 0;
        while i < updates.len()
            invariant
                i <= updates@.len(),
                self@.updates_logged(updates@, i as int) == old(self)@.updates_logged(updates@, 0),
                old(self).wf() ==> self.wf(),
            decreases updates@.len() - i,
        {
            let mut j: usize = i + 1;
            while j < updates.len() && updates[j].author_id == updates[i].author_id
                invariant
                    i < j <= updates@.len(),
                    run_end(updates@, i as int, j as int) == run_end(updates@, i as int, i + 1),
                decreases updates@.len() - j,
            {
                j = j + 1;
            }
            proof {
                lemma_run_end(updates@, i as int, i + 1);
            }
            self.log_group(updates, i, j);
            i = j;
        }
    }
}

} // verus!
