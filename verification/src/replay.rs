//! Bringing the state up to date from the log.

use vstd::prelude::*;
use vstd::std_specs::hash::*;

use crate::auth::{widen, widened};
use crate::coords::int_max;
use crate::edit::{
    changes_of, count_author, count_of, counted, law_action_replays, lemma_with_cell_len, move_u32,
    moved_u32, remembered, replayed, updated, Update,
};
use crate::model::{Action, ActionView, CellChange, Segment, StoredChunkCell, StoredRegion, UserAccount};
use crate::state::{account, AppState, MAX_HOT_ACTIONS};
use crate::table::keys_of;
use crate::world::{slot_of, Slot};

verus! {

/// The board after `actions`, one after the other.
pub open spec fn replayed_all(m: Map<Slot, StoredChunkCell>, actions: Seq<Action>) -> Map<
    Slot,
    StoredChunkCell,
>
    decreases actions.len(),
{
    if actions.len() == 0 {
        m
    } else {
        replayed(replayed_all(m, actions.drop_last()), actions.last().changes@)
    }
}

/// `counts` with one more for the author of every cell that `changes` write,
/// but for the system account.
pub open spec fn counted_changes(counts: Seq<u32>, changes: Seq<CellChange>) -> Seq<u32>
    decreases changes.len(),
{
    if changes.len() == 0 {
        counts
    } else {
        let before = counted_changes(counts, changes.drop_last());
        match changes.last().new {
            Some(c) => if c.author_id != 0 {
                counted(before, c.author_id)
            } else {
                before
            },
            None => before,
        }
    }
}

/// `counts` with one more for the author of every cell that `actions` write,
/// but for the system account.
pub open spec fn counted_actions(counts: Seq<u32>, actions: Seq<Action>) -> Seq<u32>
    decreases actions.len(),
{
    if actions.len() == 0 {
        counts
    } else {
        counted_changes(counted_actions(counts, actions.drop_last()), actions.last().changes@)
    }
}

/// The recent actions after `actions`.
pub open spec fn remembered_all(hot: Seq<ActionView>, actions: Seq<Action>) -> Seq<ActionView>
    decreases actions.len(),
{
    if actions.len() == 0 {
        hot
    } else {
        remembered(remembered_all(hot, actions.drop_last()), actions.last()@)
    }
}

/// Number of the cells of author `aid` that `changes` write.
pub open spec fn cells_by(changes: Seq<CellChange>, aid: u32) -> nat
    decreases changes.len(),
{
    if changes.len() == 0 {
        0
    } else {
        let by = match changes.last().new {
            Some(c) => c.author_id == aid,
            None => false,
        };
        cells_by(changes.drop_last(), aid) + if by {
            1nat
        } else {
            0nat
        }
    }
}

/// Number of the cells of author `aid` that `actions` write.
pub open spec fn all_cells_by(actions: Seq<Action>, aid: u32) -> nat
    decreases actions.len(),
{
    if actions.len() == 0 {
        0
    } else {
        all_cells_by(actions.drop_last(), aid) + cells_by(actions.last().changes@, aid)
    }
}

/// Every cell that `changes` write is by an account that can be counted.
pub open spec fn authors_fit(changes: Seq<CellChange>) -> bool {
    forall|i: int|
        0 <= i < changes.len() && (#[trigger] changes[i]).new is Some
            ==> changes[i].new->0.author_id < u32::MAX
}

/// The count of each author has room for the cells of theirs that `changes`
/// write.
pub open spec fn room_for_changes(counts: Seq<u32>, changes: Seq<CellChange>) -> bool {
    forall|aid: u32|
        aid != 0 ==> count_of(counts, aid) + #[trigger] cells_by(changes, aid) <= u32::MAX
}

/// The count of each author has room for the cells of theirs that `actions`
/// write.
pub open spec fn room_for_actions(counts: Seq<u32>, actions: Seq<Action>) -> bool {
    forall|aid: u32|
        aid != 0 ==> count_of(counts, aid) + #[trigger] all_cells_by(actions, aid) <= u32::MAX
}

/// One more than the greatest key of `m`, or `floor` if that is more.
pub open spec fn is_next<V>(next: int, floor: int, m: Map<u32, V>) -> bool {
    &&& next >= floor
    &&& forall|k: u32| #[trigger] m.contains_key(k) ==> k < next
    &&& next == floor || exists|k: u32| #[trigger] m.contains_key(k) && k + 1 == next
}

/// `after` holds the accounts of `news` at their numbers, and otherwise those
/// of `before`.
pub open spec fn users_replayed(
    before: Seq<Option<UserAccount>>,
    news: Map<u32, UserAccount>,
    after: Seq<Option<UserAccount>>,
) -> bool {
    &&& forall|uid: u32| #[trigger]
        account(after, uid) == (if news.contains_key(uid) {
            Some(news[uid])
        } else {
            account(before, uid)
        })
    &&& is_next(after.len() as int, before.len() as int, news)
}

/// An account of `news` is called `n`.
pub open spec fn names_one(news: Map<u32, UserAccount>, n: Seq<char>) -> bool {
    exists|uid: u32| #[trigger] news.contains_key(uid) && news[uid].username@ == n
}

/// `t` is the token of a session of an account of `news`.
pub open spec fn opens_one(news: Map<u32, UserAccount>, t: Seq<char>) -> bool {
    t.len() > 0 && exists|uid: u32| #[trigger]
        news.contains_key(uid) && news[uid].session_token@ == t
}

/// `after` says of every name of `news` which account has it, and otherwise what
/// `before` says. Where two accounts of `news` share a name, either has it.
pub open spec fn names_replayed(
    before: Map<Seq<char>, u32>,
    news: Map<u32, UserAccount>,
    after: Map<Seq<char>, u32>,
) -> bool {
    forall|n: Seq<char>|
        {
            let fresh = names_one(news, n);
            &&& #[trigger] after.contains_key(n) <==> before.contains_key(n) || fresh
            &&& fresh ==> news.contains_key(after[n]) && news[after[n]].username@ == n
            &&& !fresh && before.contains_key(n) ==> after[n] == before[n]
        }
}

/// `after` says of every session of `news` whose it is, and otherwise what
/// `before` says. Where two accounts of `news` share a session, either has it.
/// An account without a token has no session.
pub open spec fn sessions_replayed(
    before: Map<Seq<char>, u32>,
    news: Map<u32, UserAccount>,
    after: Map<Seq<char>, u32>,
) -> bool {
    forall|t: Seq<char>|
        {
            let fresh = opens_one(news, t);
            &&& #[trigger] after.contains_key(t) <==> before.contains_key(t) || fresh
            &&& fresh ==> news.contains_key(after[t]) && news[after[t]].session_token@ == t
            &&& !fresh && before.contains_key(t) ==> after[t] == before[t]
        }
}

/// The numbers in the segment leave room for further ones.
pub open spec fn segment_fits(s: Segment) -> bool {
    &&& !s.new_users@.contains_key(u32::MAX)
    &&& !s.new_regions@.contains_key(u32::MAX)
    &&& s.actions@.len() > 0 ==> s.actions@.last().action_id < u64::MAX
    &&& forall|i: int| 0 <= i < s.actions@.len() ==> authors_fit((#[trigger] s.actions@[i]).changes@)
}

proof fn lemma_cells_by_step(changes: Seq<CellChange>, i: int, aid: u32)
    requires
        0 <= i < changes.len(),
    ensures
        cells_by(changes.take(i), aid) <= cells_by(changes.take(i + 1), aid) <= cells_by(
            changes,
            aid,
        ),
        changes[i].new matches Some(c) && c.author_id == aid ==> cells_by(changes.take(i + 1), aid)
            == cells_by(changes.take(i), aid) + 1,
    decreases changes.len() - i,
{
    assert(changes.take(i + 1).drop_last() =~= changes.take(i));
    if i + 1 < changes.len() {
        lemma_cells_by_step(changes, i + 1, aid);
    } else {
        assert(changes.take(i + 1) =~= changes);
    }
}

proof fn lemma_all_cells_by_step(actions: Seq<Action>, i: int, aid: u32)
    requires
        0 <= i < actions.len(),
    ensures
        all_cells_by(actions.take(i + 1), aid) == all_cells_by(actions.take(i), aid) + cells_by(
            actions[i].changes@,
            aid,
        ),
        all_cells_by(actions.take(i + 1), aid) <= all_cells_by(actions, aid),
    decreases actions.len() - i,
{
    assert(actions.take(i + 1).drop_last() =~= actions.take(i));
    if i + 1 < actions.len() {
        lemma_all_cells_by_step(actions, i + 1, aid);
    } else {
        assert(actions.take(i + 1) =~= actions);
    }
}

proof fn lemma_count_after_changes(counts: Seq<u32>, changes: Seq<CellChange>, aid: u32)
    requires
        aid != 0,
        count_of(counts, aid) + cells_by(changes, aid) <= u32::MAX,
    ensures
        count_of(counted_changes(counts, changes), aid) == count_of(counts, aid) + cells_by(
            changes,
            aid,
        ),
    decreases changes.len(),
{
    if changes.len() > 0 {
        lemma_count_after_changes(counts, changes.drop_last(), aid);
    }
}

pub(crate) proof fn lemma_count_after_actions(counts: Seq<u32>, actions: Seq<Action>, aid: u32)
    requires
        aid != 0,
        count_of(counts, aid) + all_cells_by(actions, aid) <= u32::MAX,
    ensures
        count_of(counted_actions(counts, actions), aid) == count_of(counts, aid) + all_cells_by(
            actions,
            aid,
        ),
    decreases actions.len(),
{
    if actions.len() > 0 {
        let rest = actions.drop_last();
        lemma_count_after_actions(counts, rest, aid);
        lemma_count_after_changes(counted_actions(counts, rest), actions.last().changes@, aid);
    }
}

impl AppState {
    /// `after` is this state once `s` has been replayed.
    pub open spec fn replays(self, s: Segment, after: AppState) -> bool {
        &&& users_replayed(self.users@, s.new_users@, after.users@)
        &&& names_replayed(self.name_to_id@, s.new_users@, after.name_to_id@)
        &&& sessions_replayed(self.sessions@, s.new_users@, after.sessions@)
        &&& is_next(after.next_uid as int, self.next_uid as int, s.new_users@)
        &&& after.regions@ == self.regions@.union_prefer_right(s.new_regions@)
        &&& is_next(after.next_rid as int, self.next_rid as int, s.new_regions@)
        &&& after.world@ == replayed_all(self.world@, s.actions@)
        &&& after.authors_count@ == counted_actions(self.authors_count@, s.actions@)
        &&& after.hot() == remembered_all(self.hot(), s.actions@)
        &&& after.next_action_id == (if s.actions@.len() > 0 {
            int_max(self.next_action_id as int, s.actions@.last().action_id + 1)
        } else {
            self.next_action_id as int
        })
        &&& after.total_cells == moved_u32(self.total_cells, after.world@.len() - self.world@.len())
        &&& after == (AppState {
            users: after.users,
            name_to_id: after.name_to_id,
            sessions: after.sessions,
            next_uid: after.next_uid,
            regions: after.regions,
            next_rid: after.next_rid,
            world: after.world,
            authors_count: after.authors_count,
            hot_buffer: after.hot_buffer,
            next_action_id: after.next_action_id,
            total_cells: after.total_cells,
            ..self
        })
    }

    /// Replays one segment of the log.
    pub fn replay_segment(&mut self, segment: &Segment)
        requires
            old(self).wf(),
            segment_fits(*segment),
            room_for_actions(old(self).authors_count@, segment.actions@),
        ensures
            final(self).wf(),
            old(self).replays(*segment, *final(self)),
    {
        self.replay_users(segment);
        self.replay_regions(segment);
        self.replay_actions(&segment.actions);
        if segment.actions.len() > 0 {
            let last: u64 = segment.actions[segment.actions.len() - 1].action_id;
            if last + 1 > self.next_action_id {
                self.next_action_id = last + 1;
            }
        }
    }

    fn replay_users(&mut self, segment: &Segment)
        requires
            !segment.new_users@.contains_key(u32::MAX),
        ensures
            users_replayed(old(self).users@, segment.new_users@, final(self).users@),
            names_replayed(old(self).name_to_id@, segment.new_users@, final(self).name_to_id@),
            sessions_replayed(old(self).sessions@, segment.new_users@, final(self).sessions@),
            is_next(final(self).next_uid as int, old(self).next_uid as int, segment.new_users@),
            *final(self) == (AppState {
                users: final(self).users,
                name_to_id: final(self).name_to_id,
                sessions: final(self).sessions,
                next_uid: final(self).next_uid,
                ..*old(self)
            }),
    {
        broadcast use group_hash_axioms;

        let ids = keys_of(&segment.new_users);
        let ghost news = segment.new_users@;
        let mut i: usize = 0;
        let ghost mut done: Map<u32, UserAccount> = Map::empty();
        while i < ids.len()
            invariant
                i <= ids@.len(),
                news == segment.new_users@,
                !news.contains_key(u32::MAX),
                forall|k: u32| #[trigger] ids@.contains(k) <==> news.contains_key(k),
                forall|k: u32| #[trigger]
                    done.contains_key(k) <==> exists|j: int| 0 <= j < i && ids@[j] == k,
                forall|k: u32| #[trigger]
                    done.contains_key(k) ==> news.contains_key(k) && done[k] == news[k],
                users_replayed(old(self).users@, done, self.users@),
                names_replayed(old(self).name_to_id@, done, self.name_to_id@),
                sessions_replayed(old(self).sessions@, done, self.sessions@),
                is_next(self.next_uid as int, old(self).next_uid as int, done),
                *self == (AppState {
                    users: self.users,
                    name_to_id: self.name_to_id,
                    sessions: self.sessions,
                    next_uid: self.next_uid,
                    ..*old(self)
                }),
            decreases ids@.len() - i,
        {
            let uid: u32 = ids[i];
            assert(ids@.contains(uid));
            if let Some(u) = segment.new_users.get(&uid) {
                let ghost before = *self;
                let ghost next = done.insert(uid, *u);
                self.name_to_id.insert(u.username.clone(), uid);
                if !u.session_token.as_str().is_empty() {
                    self.sessions.insert(u.session_token.clone(), uid);
                }
                widen(&mut self.users, uid);
                self.users[uid as usize] = Some(u.duplicate());
                if uid + 1 > self.next_uid {
                    self.next_uid = uid + 1;
                }
                proof {
                    assert(next.contains_key(uid));
                    assert forall|k: u32| done.contains_key(k) implies #[trigger] next.contains_key(
                        k,
                    ) by {}
                    lemma_users_step(old(self).users@, done, before.users@, uid, *u);
                    assert(self.users@ =~= widened(before.users@, uid).update(
                        uid as int,
                        Some(*u),
                    ));
                    lemma_names_step(old(self).name_to_id@, done, before.name_to_id@, uid, *u);
                    lemma_sessions_step(old(self).sessions@, done, before.sessions@, uid, *u);
                    lemma_next_step(old(self).next_uid as int, done, before.next_uid as int, uid, *u);
                    assert forall|k: u32| #[trigger]
                        next.contains_key(k) <==> exists|j: int| 0 <= j < i + 1 && ids@[j] == k by {
                        if k == uid {
                            assert(ids@[i as int] == k);
                        }
                        if done.contains_key(k) {
                            let j = choose|j: int| 0 <= j < i && ids@[j] == k;
                            assert(ids@[j] == k);
                        }
                    }
                    done = next;
                }
            }
            i = i + 1;
        }
        proof {
            assert(done =~= news) by {
                assert forall|k: u32| news.contains_key(k) implies done.contains_key(k) by {
                    assert(ids@.contains(k));
                    let j = choose|j: int| 0 <= j < ids@.len() && ids@[j] == k;
                    assert(ids@[j] == k);
                }
            }
        }
    }

    fn replay_regions(&mut self, segment: &Segment)
        requires
            !segment.new_regions@.contains_key(u32::MAX),
        ensures
            final(self).regions@ == old(self).regions@.union_prefer_right(segment.new_regions@),
            is_next(final(self).next_rid as int, old(self).next_rid as int, segment.new_regions@),
            *final(self) == (AppState {
                regions: final(self).regions,
                next_rid: final(self).next_rid,
                ..*old(self)
            }),
    {
        broadcast use group_hash_axioms;

        let ids = keys_of(&segment.new_regions);
        let ghost news = segment.new_regions@;
        let ghost mut done: Map<u32, StoredRegion> = Map::empty();
        let mut i: usize = 0;
        assert(self.regions@ =~= old(self).regions@.union_prefer_right(done));
        while i < ids.len()
            invariant
                i <= ids@.len(),
                news == segment.new_regions@,
                !news.contains_key(u32::MAX),
                forall|k: u32| #[trigger] ids@.contains(k) <==> news.contains_key(k),
                forall|k: u32| #[trigger]
                    done.contains_key(k) <==> exists|j: int| 0 <= j < i && ids@[j] == k,
                forall|k: u32| #[trigger]
                    done.contains_key(k) ==> news.contains_key(k) && done[k] == news[k],
                self.regions@ == old(self).regions@.union_prefer_right(done),
                is_next(self.next_rid as int, old(self).next_rid as int, done),
                *self == (AppState {
                    regions: self.regions,
                    next_rid: self.next_rid,
                    ..*old(self)
                }),
            decreases ids@.len() - i,
        {
            let id: u32 = ids[i];
            assert(ids@.contains(id));
            if let Some(r) = segment.new_regions.get(&id) {
                let ghost before = *self;
                let ghost next = done.insert(id, *r);
                self.regions.insert(id, r.duplicate());
                if id + 1 > self.next_rid {
                    self.next_rid = id + 1;
                }
                proof {
                    assert(self.regions@ =~= old(self).regions@.union_prefer_right(next));
                    lemma_next_step(old(self).next_rid as int, done, before.next_rid as int, id, *r);
                    assert forall|k: u32| #[trigger]
                        next.contains_key(k) <==> exists|j: int| 0 <= j < i + 1 && ids@[j] == k by {
                        if k == id {
                            assert(ids@[i as int] == k);
                        }
                        if done.contains_key(k) {
                            let j = choose|j: int| 0 <= j < i && ids@[j] == k;
                            assert(ids@[j] == k);
                        }
                    }
                    done = next;
                }
            }
            i = i + 1;
        }
        proof {
            assert(done =~= news) by {
                assert forall|k: u32| news.contains_key(k) implies done.contains_key(k) by {
                    assert(ids@.contains(k));
                    let j = choose|j: int| 0 <= j < ids@.len() && ids@[j] == k;
                    assert(ids@[j] == k);
                }
            }
        }
    }

    fn replay_actions(&mut self, actions: &Vec<Action>)
        requires
            old(self).wf(),
            forall|i: int|
                0 <= i < actions@.len() ==> authors_fit((#[trigger] actions@[i]).changes@),
            room_for_actions(old(self).authors_count@, actions@),
        ensures
            final(self).wf(),
            final(self).world@ == replayed_all(old(self).world@, actions@),
            final(self).authors_count@ == counted_actions(old(self).authors_count@, actions@),
            final(self).hot() == remembered_all(old(self).hot(), actions@),
            final(self).total_cells == moved_u32(
                old(self).total_cells,
                final(self).world@.len() - old(self).world@.len(),
            ),
            *final(self) == (AppState {
                world: final(self).world,
                authors_count: final(self).authors_count,
                hot_buffer: final(self).hot_buffer,
                total_cells: final(self).total_cells,
                ..*old(self)
            }),
    {
        let ghost all = actions@;
        let mut i: usize = 0;
        let mut delta: i64 = 0;
        proof {
            self.world.lemma_finite();
            assert(all.take(0) =~= Seq::<Action>::empty());
        }
        while i < actions.len()
            invariant
                i <= all.len(),
                all == actions@,
                forall|k: int|
                    0 <= k < all.len() ==> authors_fit((#[trigger] all[k]).changes@),
                room_for_actions(old(self).authors_count@, all),
                self.wf(),
                self.world@ == replayed_all(old(self).world@, all.take(i as int)),
                self.authors_count@ == counted_actions(
                    old(self).authors_count@,
                    all.take(i as int),
                ),
                self.hot() == remembered_all(old(self).hot(), all.take(i as int)),
                delta == self.world@.len() - old(self).world@.len(),
                old(self).world@.len() <= 67_108_864,
                *self == (AppState {
                    world: self.world,
                    authors_count: self.authors_count,
                    hot_buffer: self.hot_buffer,
                    ..*old(self)
                }),
            decreases all.len() - i,
        {
            let action = &actions[i];
            let ghost before = *self;
            proof {
                assert(all.take(i + 1).drop_last() =~= all.take(i as int));
                self.world.lemma_finite();
                assert(authors_fit(all[i as int].changes@));
                assert forall|aid: u32| aid != 0 implies count_of(self.authors_count@, aid)
                    + #[trigger] cells_by(action.changes@, aid) <= u32::MAX by {
                    assert(count_of(old(self).authors_count@, aid) + all_cells_by(all, aid)
                        <= u32::MAX);
                    lemma_all_cells_by_step(all, i as int, aid);
                    lemma_count_after_actions(
                        old(self).authors_count@,
                        all.take(i as int),
                        aid,
                    );
                }
            }
            let d: i64 = self.replay_changes(&action.changes);
            proof {
                self.world.lemma_finite();
            }
            delta = delta + d;
            self.hot_buffer.push_back(action.duplicate());
            if self.hot_buffer.len() > MAX_HOT_ACTIONS {
                let _ = self.hot_buffer.pop_front();
            }
            assert(self.hot() =~= remembered(before.hot(), action@));
            i = i + 1;
        }
        proof {
            assert(all.take(all.len() as int) =~= all);
            self.world.lemma_finite();
        }
        self.total_cells = move_u32(self.total_cells, delta);
    }

    fn replay_changes(&mut self, changes: &Vec<CellChange>) -> (delta: i64)
        requires
            old(self).world.wf(),
            authors_fit(changes@),
            room_for_changes(old(self).authors_count@, changes@),
        ensures
            final(self).world.wf(),
            final(self).world@ == replayed(old(self).world@, changes@),
            final(self).authors_count@ == counted_changes(old(self).authors_count@, changes@),
            delta == final(self).world@.len() - old(self).world@.len(),
            *final(self) == (AppState {
                world: final(self).world,
                authors_count: final(self).authors_count,
                ..*old(self)
            }),
    {
        let ghost all = changes@;
        let ghost m0 = self.world@;
        let mut delta: i64 = 0;
        let mut j: usize = 0;
        proof {
            self.world.lemma_finite();
            assert(all.take(0) =~= Seq::<CellChange>::empty());
        }
        while j < changes.len()
            invariant
                j <= all.len(),
                all == changes@,
                authors_fit(all),
                room_for_changes(old(self).authors_count@, all),
                m0 == old(self).world@,
                m0.len() <= 67_108_864,
                self.world.wf(),
                self.world@ == replayed(m0, all.take(j as int)),
                self.authors_count@ == counted_changes(
                    old(self).authors_count@,
                    all.take(j as int),
                ),
                delta == self.world@.len() - m0.len(),
                *self == (AppState {
                    world: self.world,
                    authors_count: self.authors_count,
                    ..*old(self)
                }),
            decreases all.len() - j,
        {
            let change = changes[j];
            let (chunk, local) = change.pos.to_chunk();
            let arr_idx: usize = local.to_index();
            let ghost before = self.world@;
            proof {
                self.world.lemma_finite();
                assert(all.take(j + 1).drop_last() =~= all.take(j as int));
                assert(all[j as int] == change);
                lemma_with_cell_len(before, slot_of(change.pos), change.new);
            }
            match change.new {
                Some(c) => {
                    let prev = self.world.put_cell(chunk, arr_idx, c);
                    proof {
                        self.world.lemma_finite();
                    }
                    if prev.is_none() {
                        delta = delta + 1;
                    }
                    if c.author_id != 0 {
                        proof {
                            let aid = c.author_id;
                            lemma_cells_by_step(all, j as int, aid);
                            assert(count_of(old(self).authors_count@, aid) + cells_by(all, aid)
                                <= u32::MAX);
                            lemma_count_after_changes(
                                old(self).authors_count@,
                                all.take(j as int),
                                aid,
                            );
                        }
                        count_author(&mut self.authors_count, c.author_id);
                    }
                },
                None => {
                    let prev = self.world.remove_cell(chunk, arr_idx);
                    if prev.is_some() {
                        delta = delta - 1;
                    }
                },
            }
            j = j + 1;
        }
        assert(all.take(all.len() as int) =~= all);
        delta
    }
}

proof fn lemma_users_step(
    before: Seq<Option<UserAccount>>,
    done: Map<u32, UserAccount>,
    cur: Seq<Option<UserAccount>>,
    uid: u32,
    u: UserAccount,
)
    requires
        users_replayed(before, done, cur),
        uid < u32::MAX,
    ensures
        users_replayed(
            before,
            done.insert(uid, u),
            widened(cur, uid).update(uid as int, Some(u)),
        ),
{
    let next = widened(cur, uid).update(uid as int, Some(u));
    let news = done.insert(uid, u);
    assert forall|k: u32| #[trigger]
        account(next, k) == (if news.contains_key(k) {
            Some(news[k])
        } else {
            account(before, k)
        }) by {
        assert(account(cur, k) == (if done.contains_key(k) {
            Some(done[k])
        } else {
            account(before, k)
        }));
    }
    lemma_next_step(before.len() as int, done, cur.len() as int, uid, u);
}

proof fn lemma_next_step<V>(floor: int, done: Map<u32, V>, cur: int, k: u32, v: V)
    requires
        is_next(cur, floor, done),
    ensures
        is_next(
            if k + 1 > cur {
                k + 1
            } else {
                cur
            },
            floor,
            done.insert(k, v),
        ),
{
    let news = done.insert(k, v);
    assert(news.contains_key(k));
    if !(k + 1 > cur) && cur != floor {
        let j = choose|j: u32| #[trigger] done.contains_key(j) && j + 1 == cur;
        assert(news.contains_key(j));
    }
    assert forall|j: u32| #[trigger] news.contains_key(j) implies j < (if k + 1 > cur {
        k + 1
    } else {
        cur
    }) by {
        if j != k {
            assert(done.contains_key(j));
        }
    }
}

proof fn lemma_names_step(
    before: Map<Seq<char>, u32>,
    done: Map<u32, UserAccount>,
    cur: Map<Seq<char>, u32>,
    uid: u32,
    u: UserAccount,
)
    requires
        names_replayed(before, done, cur),
        !done.contains_key(uid) || done[uid] == u,
    ensures
        names_replayed(before, done.insert(uid, u), cur.insert(u.username@, uid)),
{
    let news = done.insert(uid, u);
    let after = cur.insert(u.username@, uid);
    assert forall|n: Seq<char>|
        {
            let fresh = names_one(news, n);
            &&& #[trigger] after.contains_key(n) <==> before.contains_key(n) || fresh
            &&& fresh ==> news.contains_key(after[n]) && news[after[n]].username@ == n
            &&& !fresh && before.contains_key(n) ==> after[n] == before[n]
        } by {
        assert(cur.contains_key(n) <==> before.contains_key(n) || names_one(done, n));
        assert(names_one(news, n) <==> names_one(done, n) || u.username@ == n) by {
            assert(news.contains_key(uid));
            if names_one(news, n) {
                let k = choose|k: u32| #[trigger] news.contains_key(k) && news[k].username@ == n;
                if k != uid {
                    assert(done.contains_key(k));
                }
            }
            if names_one(done, n) {
                let k = choose|k: u32| #[trigger] done.contains_key(k) && done[k].username@ == n;
                assert(news.contains_key(k));
            }
        }
    }
}

proof fn lemma_sessions_step(
    before: Map<Seq<char>, u32>,
    done: Map<u32, UserAccount>,
    cur: Map<Seq<char>, u32>,
    uid: u32,
    u: UserAccount,
)
    requires
        sessions_replayed(before, done, cur),
        !done.contains_key(uid) || done[uid] == u,
    ensures
        sessions_replayed(
            before,
            done.insert(uid, u),
            if u.session_token@.len() > 0 {
                cur.insert(u.session_token@, uid)
            } else {
                cur
            },
        ),
{
    let news = done.insert(uid, u);
    let after = if u.session_token@.len() > 0 {
        cur.insert(u.session_token@, uid)
    } else {
        cur
    };
    assert forall|t: Seq<char>|
        {
            let fresh = opens_one(news, t);
            &&& #[trigger] after.contains_key(t) <==> before.contains_key(t) || fresh
            &&& fresh ==> news.contains_key(after[t]) && news[after[t]].session_token@ == t
            &&& !fresh && before.contains_key(t) ==> after[t] == before[t]
        } by {
        assert(cur.contains_key(t) <==> before.contains_key(t) || opens_one(done, t));
        assert(opens_one(news, t) <==> opens_one(done, t) || (t.len() > 0 && u.session_token@
            == t)) by {
            assert(news.contains_key(uid));
            if opens_one(news, t) {
                let k = choose|k: u32| #[trigger]
                    news.contains_key(k) && news[k].session_token@ == t;
                if k != uid {
                    assert(done.contains_key(k));
                }
            }
            if opens_one(done, t) {
                let k = choose|k: u32| #[trigger]
                    done.contains_key(k) && done[k].session_token@ == t;
                assert(news.contains_key(k));
            }
        }
    }
}

/// The board after `batches` of updates, one after the other.
pub open spec fn updated_all(m: Map<Slot, StoredChunkCell>, batches: Seq<Seq<Update>>) -> Map<
    Slot,
    StoredChunkCell,
>
    decreases batches.len(),
{
    if batches.len() == 0 {
        m
    } else {
        updated(updated_all(m, batches.drop_last()), batches.last())
    }
}

/// `actions` record what `batches` of updates did to the board `m`, each to the
/// board that the ones before it left.
pub open spec fn records(
    m: Map<Slot, StoredChunkCell>,
    batches: Seq<Seq<Update>>,
    actions: Seq<Action>,
) -> bool {
    &&& actions.len() == batches.len()
    &&& forall|i: int|
        #![trigger actions[i]]
        0 <= i < actions.len() ==> actions[i].changes@ == changes_of(
            updated_all(m, batches.take(i)),
            batches[i],
        )
}

/// Replaying the log over the board as it was when the log began gives the
/// board as it is.
pub proof fn law_log_rebuilds_the_board(
    m: Map<Slot, StoredChunkCell>,
    batches: Seq<Seq<Update>>,
    actions: Seq<Action>,
)
    requires
        records(m, batches, actions),
    ensures
        replayed_all(m, actions) == updated_all(m, batches),
    decreases actions.len(),
{
    if actions.len() > 0 {
        let n = actions.len() - 1;
        let (b, a) = (batches.drop_last(), actions.drop_last());
        assert forall|i: int| #![trigger a[i]] 0 <= i < a.len() implies a[i].changes@ == changes_of(
            updated_all(m, b.take(i)),
            b[i],
        ) by {
            assert(actions[i] == a[i]);
            assert(b.take(i) =~= batches.take(i));
        }
        law_log_rebuilds_the_board(m, b, a);
        assert(batches.take(n) =~= b);
        assert(actions[n].changes@ == changes_of(updated_all(m, b), batches[n]));
        law_action_replays(updated_all(m, b), batches.last());
    }
}

} // verus!
