//! Changing the board.

use vstd::prelude::*;

use crate::coords::WorldCoords;
use crate::model::{Action, ActionView, CellChange, EventView, SegmentEvent, StoredChunkCell};
use crate::state::{AppState, MAX_HOT_ACTIONS};
use crate::world::{look, slot_of, with_cell, Slot};

verus! {

/// A place, and what it is to hold.
pub type Update = (WorldCoords, Option<StoredChunkCell>);

/// The cell as it is stored at `pos`: it carries its own place.
pub open spec fn stamped(pos: WorldCoords, cell: Option<StoredChunkCell>) -> Option<
    StoredChunkCell,
> {
    match cell {
        Some(c) => Some(StoredChunkCell { local: pos.local(), ..c }),
        None => None,
    }
}

/// `m` after `updates`, one after the other.
pub open spec fn updated(m: Map<Slot, StoredChunkCell>, updates: Seq<Update>) -> Map<
    Slot,
    StoredChunkCell,
>
    decreases updates.len(),
{
    if updates.len() == 0 {
        m
    } else {
        let (pos, cell) = updates.last();
        with_cell(updated(m, updates.drop_last()), slot_of(pos), stamped(pos, cell))
    }
}

/// What `updates` changed, each from what the ones before it left.
pub open spec fn changes_of(m: Map<Slot, StoredChunkCell>, updates: Seq<Update>) -> Seq<CellChange> {
    Seq::new(
        updates.len(),
        |i: int|
            CellChange {
                pos: updates[i].0,
                old: look(updated(m, updates.take(i)), slot_of(updates[i].0)),
                new: stamped(updates[i].0, updates[i].1),
            },
    )
}

/// The authors of the cells that `updates` write, each once, but for the
/// system account.
pub open spec fn authors_of(updates: Seq<Update>) -> Seq<u32>
    decreases updates.len(),
{
    if updates.len() == 0 {
        Seq::empty()
    } else {
        let before = authors_of(updates.drop_last());
        match updates.last().1 {
            Some(c) => if c.author_id != 0 && !before.contains(c.author_id) {
                before.push(c.author_id)
            } else {
                before
            },
            None => before,
        }
    }
}

/// The count of author `aid`.
pub open spec fn count_of(counts: Seq<u32>, aid: u32) -> int {
    if aid < counts.len() {
        counts[aid as int] as int
    } else {
        0
    }
}

/// A cell of author `aid` can be counted: the system account's are not, and any
/// other has a place and room in it.
pub open spec fn countable(counts: Seq<u32>, aid: u32) -> bool {
    aid == 0 || (aid < u32::MAX && count_of(counts, aid) < u32::MAX)
}

/// `counts` with one more for author `aid`, and a place for it if it had none.
pub open spec fn counted(counts: Seq<u32>, aid: u32) -> Seq<u32> {
    let wide = if counts.len() <= aid {
        counts + Seq::new((aid + 1 - counts.len()) as nat, |i: int| 0u32)
    } else {
        counts
    };
    wide.update(aid as int, (wide[aid as int] + 1) as u32)
}

/// `counts` with one more for each of `authors`.
pub open spec fn counted_all(counts: Seq<u32>, authors: Seq<u32>) -> Seq<u32>
    decreases authors.len(),
{
    if authors.len() == 0 {
        counts
    } else {
        counted(counted_all(counts, authors.drop_last()), authors.last())
    }
}

/// The recent actions with one more, of which only the last are kept.
pub open spec fn remembered(hot: Seq<ActionView>, a: ActionView) -> Seq<ActionView> {
    if hot.len() + 1 > MAX_HOT_ACTIONS {
        hot.push(a).drop_first()
    } else {
        hot.push(a)
    }
}

/// `n` moved by `d`, in 32 bits.
pub open spec fn moved_u32(n: u32, d: int) -> u32 {
    ((n + d) % 0x1_0000_0000) as u32
}

pub(crate) fn move_u32(n: u32, d: i64) -> (r: u32)
    requires
        -0x1_0000_0000 < d < 0x1_0000_0000,
    ensures
        r == moved_u32(n, d as int),
{
    let s: i64 = n as i64 + d;
    if s < 0 {
        (s + 0x1_0000_0000) as u32
    } else if s >= 0x1_0000_0000 {
        (s - 0x1_0000_0000) as u32
    } else {
        s as u32
    }
}

/// One more for author `aid`.
pub(crate) fn count_author(counts: &mut Vec<u32>, aid: u32)
    requires
        aid < u32::MAX,
        count_of(old(counts)@, aid) < u32::MAX,
    ensures
        final(counts)@ == counted(old(counts)@, aid),
{
    let i: usize = aid as usize;
    if counts.len() <= i {
        counts.resize(i + 1, 0);
    }
    let n: u32 = counts[i];
    counts[i] = n + 1;
    assert(counts@ =~= counted(old(counts)@, aid));
}

fn contains_u32(v: &Vec<u32>, x: u32) -> (r: bool)
    ensures
        r == v@.contains(x),
{
    let mut i: usize = 0;
    while i < v.len()
        invariant
            i <= v@.len(),
            forall|j: int| 0 <= j < i ==> v@[j] != x,
        decreases v@.len() - i,
    {
        if v[i] == x {
            assert(v@[i as int] == x);
            return true;
        }
        i = i + 1;
    }
    false
}

proof fn lemma_authors(updates: Seq<Update>)
    ensures
        forall|i: int, j: int|
            0 <= i < j < authors_of(updates).len() ==> #[trigger] authors_of(updates)[i]
                != #[trigger] authors_of(updates)[j],
        forall|a: u32| #[trigger]
            authors_of(updates).contains(a) ==> a != 0 && exists|i: int|
                0 <= i < updates.len() && (#[trigger] updates[i]).1 is Some
                    && updates[i].1->0.author_id == a,
    decreases updates.len(),
{
    if updates.len() > 0 {
        let before = updates.drop_last();
        lemma_authors(before);
        let n = updates.len() - 1;
        assert forall|a: u32| #[trigger] authors_of(updates).contains(a) implies a != 0 && exists|
            i: int,
        |
            0 <= i < updates.len() && (#[trigger] updates[i]).1 is Some
                && updates[i].1->0.author_id == a by {
            if authors_of(before).contains(a) {
                let i = choose|i: int|
                    0 <= i < before.len() && (#[trigger] before[i]).1 is Some
                        && before[i].1->0.author_id == a;
                assert(updates[i] == before[i]);
            } else {
                let k = choose|k: int|
                    0 <= k < authors_of(updates).len() && authors_of(updates)[k] == a;
                if k < authors_of(before).len() {
                    assert(authors_of(before)[k] == a);
                }
                assert(updates[n].1->0.author_id == a);
            }
        }
    }
}

proof fn lemma_counted_all(counts: Seq<u32>, authors: Seq<u32>)
    ensures
        counted_all(counts, authors).len() >= counts.len(),
        forall|i: int|
            0 <= i < counted_all(counts, authors).len() && !authors.contains(
                i as u32,
            ) && i <= u32::MAX ==> #[trigger] counted_all(counts, authors)[i] == (if i
                < counts.len() {
                counts[i]
            } else {
                0
            }),
    decreases authors.len(),
{
    if authors.len() > 0 {
        let rest = authors.drop_last();
        lemma_counted_all(counts, rest);
        assert forall|i: int|
            0 <= i < counted_all(counts, authors).len() && !authors.contains(i as u32) && i
                <= u32::MAX implies #[trigger] counted_all(counts, authors)[i] == (if i
            < counts.len() {
            counts[i]
        } else {
            0
        }) by {
            assert(authors[authors.len() - 1] != i as u32);
            assert(!rest.contains(i as u32)) by {
                if rest.contains(i as u32) {
                    let k = choose|k: int| 0 <= k < rest.len() && rest[k] == i as u32;
                    assert(authors[k] == i as u32);
                }
            }
        }
    }
}

pub(crate) proof fn lemma_with_cell_len(
    m: Map<Slot, StoredChunkCell>,
    s: Slot,
    cell: Option<StoredChunkCell>,
)
    requires
        m.dom().finite(),
    ensures
        with_cell(m, s, cell).dom().finite(),
        with_cell(m, s, cell).len() == m.len() + (if cell is Some && !m.contains_key(s) {
            1int
        } else if cell is None && m.contains_key(s) {
            -1int
        } else {
            0
        }),
{
    match cell {
        Some(c) => {
            assert(m.insert(s, c).dom() =~= m.dom().insert(s));
        },
        None => {
            assert(m.remove(s).dom() =~= m.dom().remove(s));
        },
    }
}

/// The cells that `updates` write are by accounts that can be counted.
pub open spec fn authors_countable(counts: Seq<u32>, updates: Seq<Update>) -> bool {
    forall|i: int|
        0 <= i < updates.len() && (#[trigger] updates[i]).1 is Some ==> countable(
            counts,
            updates[i].1->0.author_id,
        )
}

impl AppState {
    /// There is a number for one more action.
    pub open spec fn can_act(&self) -> bool {
        self.next_action_id < u64::MAX
    }

    /// `after` is this state once `author_id` has written `updates` at `now`,
    /// which is recorded as `action`.
    pub open spec fn performs(
        self,
        author_id: u32,
        updates: Seq<Update>,
        now: u64,
        action: ActionView,
        after: AppState,
    ) -> bool {
        &&& after.world@ == updated(self.world@, updates)
        &&& action == (ActionView {
            action_id: self.next_action_id,
            author_id,
            ts: now as i64,
            changes: changes_of(self.world@, updates),
        })
        &&& after.total_cells == moved_u32(self.total_cells, after.world@.len() - self.world@.len())
        &&& after.authors_count@ == counted_all(self.authors_count@, authors_of(updates))
        &&& after.next_action_id == self.next_action_id + 1
        &&& after.hot() == remembered(self.hot(), action)
        &&& after.events() == self.events().push(EventView::Action(action))
        &&& after == (AppState {
            world: after.world,
            total_cells: after.total_cells,
            authors_count: after.authors_count,
            next_action_id: after.next_action_id,
            hot_buffer: after.hot_buffer,
            outbox: after.outbox,
            ..self
        })
    }

    /// Writes `updates` to the board as one action of `author_id`. The action
    /// is kept among the recent ones and handed to the log.
    pub fn apply_action_batch(
        &mut self,
        author_id: u32,
        updates: Vec<(WorldCoords, Option<StoredChunkCell>)>,
        now: u64,
    ) -> (action: Action)
        requires
            old(self).wf(),
            old(self).can_act(),
            authors_countable(old(self).authors_count@, updates@),
        ensures
            final(self).wf(),
            old(self).performs(author_id, updates@, now, action@, *final(self)),
            old(self).total_cells == old(self).world@.len() ==> final(self).total_cells
                == final(self).world@.len(),
    {
        let ghost m0 = self.world@;
        let mut changes: Vec<CellChange> = Vec::new();
        let mut total_delta: i64 = 0;
        let mut new_authors: Vec<u32> = Vec::new();
        let n: usize = updates.len();
        let mut k: usize = 0;
        proof {
            self.world.lemma_finite();
            assert(updates@.take(0) =~= Seq::<Update>::empty());
            assert(changes@ =~= changes_of(m0, updates@).take(0));
        }
        while k < n
            invariant
                k <= n,
                n == updates@.len(),
                m0 == old(self).world@,
                *self == (AppState { world: self.world, ..*old(self) }),
                self.world.wf(),
                self.world@ == updated(m0, updates@.take(k as int)),
                changes@ == changes_of(m0, updates@).take(k as int),
                m0.dom().finite(),
                m0.len() <= 67_108_864,
                total_delta == self.world@.len() - m0.len(),
                new_authors@ == authors_of(updates@.take(k as int)),
            decreases n - k,
        {
            let (pos, cell) = updates[k];
            let (chunk, local) = pos.to_chunk();
            let arr_idx: usize = local.to_index();
            let new_cell: Option<StoredChunkCell> = match cell {
                Some(c) => Some(
                    StoredChunkCell {
                        local,
                        ch: c.ch,
                        color: c.color,
                        author_id: c.author_id,
                        ts: c.ts,
                    },
                ),
                None => None,
            };
            let ghost before = self.world@;
            proof {
                self.world.lemma_finite();
            }
            let old_cell = match new_cell {
                Some(c) => self.world.put_cell(chunk, arr_idx, c),
                None => self.world.remove_cell(chunk, arr_idx),
            };
            proof {
                let next = updates@.take(k + 1);
                assert(next.drop_last() =~= updates@.take(k as int));
                assert(next.last() == updates@[k as int]);
                lemma_with_cell_len(before, slot_of(pos), new_cell);
                self.world.lemma_finite();
                assert(changes_of(m0, updates@).take(k + 1) =~= changes_of(m0, updates@).take(
                    k as int,
                ).push(changes_of(m0, updates@)[k as int]));
            }
            match new_cell {
                Some(c) => {
                    if old_cell.is_none() {
                        total_delta = total_delta + 1;
                    }
                    if c.author_id != 0 && !contains_u32(&new_authors, c.author_id) {
                        new_authors.push(c.author_id);
                    }
                },
                None => {
                    if old_cell.is_some() {
                        total_delta = total_delta - 1;
                    }
                },
            }
            changes.push(CellChange { pos, old: old_cell, new: new_cell });
            k = k + 1;
        }
        proof {
            assert(updates@.take(n as int) =~= updates@);
            assert(changes@ =~= changes_of(m0, updates@));
            self.world.lemma_finite();
            lemma_authors(updates@);
        }
        self.total_cells = move_u32(self.total_cells, total_delta);
        let ghost counts0 = old(self).authors_count@;
        let ghost authors = authors_of(updates@);
        let ghost world1 = self.world;
        let ghost total1 = self.total_cells;
        proof {
            assert(authors.take(0) =~= Seq::<u32>::empty());
            assert forall|i: int| 0 <= i < authors.len() implies #[trigger] authors[i] != 0
                && countable(counts0, authors[i]) by {
                assert(authors.contains(authors[i]));
            }
        }
        let mut a: usize = 0;
        while a < new_authors.len()
            invariant
                a <= new_authors@.len(),
                new_authors@ == authors,
                authors == authors_of(updates@),
                counts0 == old(self).authors_count@,
                *self == (AppState {
                    world: world1,
                    total_cells: total1,
                    authors_count: self.authors_count,
                    ..*old(self)
                }),
                self.authors_count@ == counted_all(counts0, authors.take(a as int)),
                forall|i: int, j: int|
                    0 <= i < j < authors.len() ==> #[trigger] authors[i] != #[trigger] authors[j],
                forall|i: int|
                    0 <= i < authors.len() ==> #[trigger] authors[i] != 0 && countable(
                        counts0,
                        authors[i],
                    ),
            decreases new_authors@.len() - a,
        {
            proof {
                let done = authors.take(a as int);
                lemma_counted_all(counts0, done);
                let aid = authors[a as int];
                assert(!done.contains(aid)) by {
                    if done.contains(aid) {
                        let i = choose|i: int| 0 <= i < done.len() && done[i] == aid;
                        assert(authors[i] == aid);
                    }
                }
                assert(authors.take(a + 1).drop_last() =~= done);
            }
            count_author(&mut self.authors_count, new_authors[a]);
            a = a + 1;
        }
        assert(authors.take(authors.len() as int) =~= authors);
        let action_id: u64 = self.next_action_id;
        self.next_action_id = action_id + 1;
        let action = Action { action_id, author_id, ts: now as i64, changes };
        let ghost hot0 = self.hot_buffer@;
        self.hot_buffer.push_back(action.duplicate());
        if self.hot_buffer.len() > MAX_HOT_ACTIONS {
            let _ = self.hot_buffer.pop_front();
        }
        assert(self.hot() =~= remembered(old(self).hot(), action@));
        self.outbox.push(SegmentEvent::Action(action.duplicate()));
        assert(self.events() =~= old(self).events().push(EventView::Action(action@)));
        action
    }
}

/// `m` after `changes`, one after the other.
pub open spec fn replayed(m: Map<Slot, StoredChunkCell>, changes: Seq<CellChange>) -> Map<
    Slot,
    StoredChunkCell,
>
    decreases changes.len(),
{
    if changes.len() == 0 {
        m
    } else {
        let c = changes.last();
        with_cell(replayed(m, changes.drop_last()), slot_of(c.pos), c.new)
    }
}

/// `m` with `changes` taken back, the last one first.
pub open spec fn unwound(m: Map<Slot, StoredChunkCell>, changes: Seq<CellChange>) -> Map<
    Slot,
    StoredChunkCell,
>
    decreases changes.len(),
{
    if changes.len() == 0 {
        m
    } else {
        let c = changes.last();
        unwound(with_cell(m, slot_of(c.pos), c.old), changes.drop_last())
    }
}

/// The board can be rebuilt from what an action recorded.
pub proof fn law_action_replays(m: Map<Slot, StoredChunkCell>, updates: Seq<Update>)
    ensures
        replayed(m, changes_of(m, updates)) == updated(m, updates),
    decreases updates.len(),
{
    if updates.len() > 0 {
        let rest = updates.drop_last();
        law_action_replays(m, rest);
        assert forall|i: int| 0 <= i < rest.len() implies rest.take(i) == updates.take(i) by {
            assert(rest.take(i) =~= updates.take(i));
        }
        assert(changes_of(m, updates).drop_last() =~= changes_of(m, rest));
    }
}

/// What an action recorded is enough to take it back.
pub proof fn law_action_unwinds(m: Map<Slot, StoredChunkCell>, updates: Seq<Update>)
    ensures
        unwound(updated(m, updates), changes_of(m, updates)) == m,
    decreases updates.len(),
{
    if updates.len() > 0 {
        let rest = updates.drop_last();
        let n = updates.len() - 1;
        law_action_unwinds(m, rest);
        assert forall|i: int| 0 <= i < rest.len() implies rest.take(i) == updates.take(i) by {
            assert(rest.take(i) =~= updates.take(i));
        }
        assert(updates.take(n) =~= rest);
        assert(changes_of(m, updates).drop_last() =~= changes_of(m, rest));
        let before = updated(m, rest);
        let (pos, cell) = updates.last();
        let s = slot_of(pos);
        assert(with_cell(with_cell(before, s, stamped(pos, cell)), s, look(before, s))
            =~= before);
    }
}

/// A place reads as the last update to it says.
pub proof fn law_last_update_wins(m: Map<Slot, StoredChunkCell>, updates: Seq<Update>, i: int)
    requires
        0 <= i < updates.len(),
        forall|j: int|
            i < j < updates.len() ==> slot_of((#[trigger] updates[j]).0) != slot_of(updates[i].0),
    ensures
        look(updated(m, updates), slot_of(updates[i].0)) == stamped(updates[i].0, updates[i].1),
    decreases updates.len(),
{
    if i < updates.len() - 1 {
        let rest = updates.drop_last();
        assert(rest[i] == updates[i]);
        assert forall|j: int| i < j < rest.len() implies slot_of((#[trigger] rest[j]).0) != slot_of(
            rest[i].0,
        ) by {
            assert(rest[j] == updates[j]);
        }
        law_last_update_wins(m, rest, i);
        assert(slot_of(updates[updates.len() - 1].0) != slot_of(updates[i].0));
    }
}

/// A place that no update names keeps what it holds.
pub proof fn law_other_places_keep(m: Map<Slot, StoredChunkCell>, updates: Seq<Update>, s: Slot)
    requires
        forall|j: int| 0 <= j < updates.len() ==> slot_of((#[trigger] updates[j]).0) != s,
    ensures
        look(updated(m, updates), s) == look(m, s),
    decreases updates.len(),
{
    if updates.len() > 0 {
        let rest = updates.drop_last();
        assert forall|j: int| 0 <= j < rest.len() implies slot_of((#[trigger] rest[j]).0) != s by {
            assert(rest[j] == updates[j]);
        }
        law_other_places_keep(m, rest, s);
        assert(slot_of(updates[updates.len() - 1].0) != s);
    }
}

} // verus!
