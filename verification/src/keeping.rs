//! What holds of what the server keeps: the counts, the recent actions, and the
//! log from which it starts again.

use vstd::prelude::*;
use vstd::utf8::encode_utf8;

use crate::coords::{law_chunk_injective, law_index_injective, ChunkCoords, WorldCoords};
use crate::edit::{authors_countable, authors_of, counted_all, replayed, Update};
use crate::model::{
    ActionView, CellChange, Segment, SegmentEvent, StoredChunkCell, StoredRegion, UserAccount,
    WorldSnapshot,
};
use crate::region::lists_regions;
use crate::replay::replayed_all;
use crate::segment::{by_name, bytes_le, hex_u64, noted, stems_after};
use crate::serving::numbered;
use crate::snapshot::{existing, in_place, law_snapshot_restores, sessions_with};
use crate::sort::{in_order, law_sort_by, orders, sort_by};
use crate::state::{account, AppState};
use crate::typing::is_place;
use crate::world::{lists_chunks, look, slot_of, Slot};

verus! {

/// What has been counted for an account.
pub open spec fn tally(counts: Seq<u32>, a: u32) -> int {
    if a < counts.len() {
        counts[a as int] as int
    } else {
        0
    }
}

/// One of the updates writes something in the name of the account.
pub open spec fn wrote_some(updates: Seq<Update>, a: u32) -> bool {
    exists|i: int|
        0 <= i < updates.len() && (#[trigger] updates[i]).1 is Some && updates[i].1->0.author_id == a
}

proof fn lemma_authors_of(updates: Seq<Update>, a: u32)
    ensures
        authors_of(updates).contains(a) <==> a != 0 && wrote_some(updates, a),
        authors_of(updates).no_duplicates(),
    decreases updates.len(),
{
    if updates.len() > 0 {
        let rest = updates.drop_last();
        let n = updates.len() - 1;
        let before = authors_of(rest);
        let all = authors_of(updates);
        lemma_authors_of(rest, a);
        assert(updates[n] == updates.last());
        if wrote_some(rest, a) {
            let i = choose|i: int|
                0 <= i < rest.len() && (#[trigger] rest[i]).1 is Some && rest[i].1->0.author_id == a;
            assert(updates[i].1->0.author_id == a);
        }
        if wrote_some(updates, a) {
            let i = choose|i: int|
                0 <= i < updates.len() && (#[trigger] updates[i]).1 is Some
                    && updates[i].1->0.author_id == a;
            if i < n {
                assert(rest[i].1->0.author_id == a);
            }
        }
        if before.contains(a) {
            let i = choose|i: int| 0 <= i < before.len() && before[i] == a;
            assert(all[i] == a);
        }
        if all.contains(a) {
            let i = choose|i: int| 0 <= i < all.len() && all[i] == a;
            if i < before.len() {
                assert(before[i] == a);
            }
        }
        if all.len() > before.len() {
            assert(all[before.len() as int] == updates[n].1->0.author_id);
        }
    }
}

proof fn lemma_counted_all(counts: Seq<u32>, authors: Seq<u32>, a: u32)
    requires
        authors.no_duplicates(),
        forall|i: int|
            0 <= i < authors.len() ==> #[trigger] authors[i] < u32::MAX && tally(counts, authors[i])
                < u32::MAX,
    ensures
        tally(counted_all(counts, authors), a) == tally(counts, a) + (if authors.contains(a) {
            1int
        } else {
            0
        }),
    decreases authors.len(),
{
    if authors.len() > 0 {
        let rest = authors.drop_last();
        let x = authors.last();
        let n = authors.len() - 1;
        assert(authors[n] == x);
        assert forall|i: int| 0 <= i < rest.len() implies #[trigger] rest[i] < u32::MAX && tally(
            counts,
            rest[i],
        ) < u32::MAX by {
            assert(rest[i] == authors[i]);
        }
        lemma_counted_all(counts, rest, a);
        lemma_counted_all(counts, rest, x);
        assert(!rest.contains(x)) by {
            if rest.contains(x) {
                let i = choose|i: int| 0 <= i < rest.len() && rest[i] == x;
                assert(authors[i] == authors[n]);
            }
        }
        assert(authors.contains(a) <==> rest.contains(a) || a == x) by {
            if rest.contains(a) {
                let i = choose|i: int| 0 <= i < rest.len() && rest[i] == a;
                assert(authors[i] == a);
            }
            if authors.contains(a) && a != x {
                let i = choose|i: int| 0 <= i < authors.len() && authors[i] == a;
                assert(rest[i] == a);
            }
        }
    }
}

/// Every account that an action writes something for is counted once for it, and
/// no other; the system is not counted.
pub proof fn law_an_action_counts_once(
    before: AppState,
    author_id: u32,
    updates: Seq<Update>,
    now: u64,
    action: ActionView,
    after: AppState,
    a: u32,
)
    requires
        before.performs(author_id, updates, now, action, after),
        authors_countable(before.authors_count@, updates),
    ensures
        tally(after.authors_count@, a) == tally(before.authors_count@, a) + (if a != 0
            && wrote_some(updates, a) {
            1int
        } else {
            0
        }),
{
    let authors = authors_of(updates);
    lemma_authors_of(updates, a);
    assert forall|i: int| 0 <= i < authors.len() implies #[trigger] authors[i] < u32::MAX && tally(
        before.authors_count@,
        authors[i],
    ) < u32::MAX by {
        lemma_authors_of(updates, authors[i]);
        assert(authors.contains(authors[i]));
        let k = choose|k: int|
            0 <= k < updates.len() && (#[trigger] updates[k]).1 is Some && updates[k].1->0.author_id
                == authors[i];
        assert(updates[k].1 is Some);
    }
    lemma_counted_all(before.authors_count@, authors, a);
}

/// An action is the last of the recent ones, under the next number, and says who
/// did it, when, and what was at each place before and after. Of the ones before
/// it, the last 16383 are still there, in order.
pub proof fn law_an_action_is_remembered(
    before: AppState,
    author_id: u32,
    updates: Seq<Update>,
    now: u64,
    action: ActionView,
    after: AppState,
    k: int,
    i: int,
)
    requires
        before.wf(),
        before.performs(author_id, updates, now, action, after),
        0 <= k < updates.len(),
    ensures
        after.hot().len() > 0,
        after.hot().last() == action,
        after.hot().len() <= 16384,
        before.hot().len() < 16384 ==> after.hot().len() == before.hot().len() + 1,
        1 < i <= after.hot().len() ==> after.hot()[after.hot().len() - i]
            == before.hot()[before.hot().len() - i + 1],
        action.action_id == before.next_action_id,
        after.next_action_id == before.next_action_id + 1,
        action.author_id == author_id,
        action.ts == now as i64,
        action.changes.len() == updates.len(),
        action.changes[k].pos == updates[k].0,
        action.changes[k].new is Some <==> updates[k].1 is Some,
        action.changes[k].new is Some ==> {
            let (c, u) = (action.changes[k].new->0, updates[k].1->0);
            c.ch == u.ch && c.color == u.color && c.author_id == u.author_id && c.ts == u.ts
        },
        k == 0 ==> action.changes[k].old == look(before.world@, slot_of(updates[k].0)),
        after.events().len() == before.events().len() + 1,
        after.events().last() == crate::model::EventView::Action(action),
{
    assert(before.hot().len() == before.hot_buffer@.len());
    if k == 0 {
        assert(updates.take(0) =~= Seq::<Update>::empty());
    }
}

proof fn lemma_bytes_total(a: Seq<u8>, b: Seq<u8>)
    ensures
        bytes_le(a, b) || bytes_le(b, a),
    decreases a.len(),
{
    if a.len() > 0 && b.len() > 0 && a[0] == b[0] {
        lemma_bytes_total(a.drop_first(), b.drop_first());
    }
}

proof fn lemma_bytes_transitive(a: Seq<u8>, b: Seq<u8>, c: Seq<u8>)
    requires
        bytes_le(a, b),
        bytes_le(b, c),
    ensures
        bytes_le(a, c),
    decreases a.len(),
{
    if a.len() > 0 && b.len() > 0 && c.len() > 0 && a[0] == b[0] && b[0] == c[0] {
        lemma_bytes_transitive(a.drop_first(), b.drop_first(), c.drop_first());
    }
}

proof fn lemma_by_name_orders()
    ensures
        orders(by_name()),
{
    let le = by_name();
    assert forall|a: String, b: String| #[trigger] le(a, b) || le(b, a) by {
        lemma_bytes_total(encode_utf8(a@), encode_utf8(b@));
    }
    assert forall|a: String, b: String, c: String| #[trigger] le(a, b) && #[trigger] le(
        b,
        c,
    ) implies le(a, c) by {
        lemma_bytes_transitive(encode_utf8(a@), encode_utf8(b@), encode_utf8(c@));
    }
}

/// The file is a segment with a number above the one given.
pub open spec fn is_later_segment(stem: Seq<char>, ext: Seq<char>, base_id: u64) -> bool {
    ext == "seg"@ && hex_u64(encode_utf8(stem)) is Some && hex_u64(encode_utf8(stem))->0 > base_id
}

spec fn from_file(files: Seq<(String, String)>, base_id: u64, s: String) -> bool {
    exists|i: int|
        0 <= i < files.len() && (#[trigger] files[i]).0 == s && is_later_segment(
            files[i].0@,
            files[i].1@,
            base_id,
        )
}

proof fn lemma_stems(files: Seq<(String, String)>, base_id: u64, s: String)
    ensures
        stems_after(files, base_id).contains(s) <==> from_file(files, base_id, s),
    decreases files.len(),
{
    if files.len() > 0 {
        let rest = files.drop_last();
        let n = files.len() - 1;
        lemma_stems(rest, base_id, s);
        let before = stems_after(rest, base_id);
        let all = stems_after(files, base_id);
        assert(files[n] == files.last());
        if from_file(rest, base_id, s) {
            let i = choose|i: int|
                0 <= i < rest.len() && (#[trigger] rest[i]).0 == s && is_later_segment(
                    rest[i].0@,
                    rest[i].1@,
                    base_id,
                );
            assert(files[i].0 == s);
        }
        if from_file(files, base_id, s) {
            let i = choose|i: int|
                0 <= i < files.len() && (#[trigger] files[i]).0 == s && is_later_segment(
                    files[i].0@,
                    files[i].1@,
                    base_id,
                );
            if i < n {
                assert(rest[i].0 == s);
            } else {
                assert(all[before.len() as int] == s);
            }
        }
        if before.contains(s) {
            let i = choose|i: int| 0 <= i < before.len() && before[i] == s;
            assert(all[i] == s);
        }
        if all.contains(s) {
            let i = choose|i: int| 0 <= i < all.len() && all[i] == s;
            if i < before.len() {
                assert(before[i] == s);
            }
        }
    }
}

/// The segments to start again from are those with a number above the snapshot's,
/// all of them, in the order of their names.
pub proof fn law_later_segments_are_replayed(
    files: Seq<(String, String)>,
    base_id: u64,
    i: int,
    s: String,
)
    ensures
        ({
            let r = sort_by(stems_after(files, base_id), by_name());
            &&& 0 <= i < files.len() && is_later_segment(files[i].0@, files[i].1@, base_id)
                ==> r.contains(files[i].0)
            &&& r.contains(s) ==> exists|k: int|
                0 <= k < files.len() && (#[trigger] files[k]).0 == s && is_later_segment(
                    s@,
                    files[k].1@,
                    base_id,
                )
            &&& forall|j: int, k: int|
                0 <= j < k < r.len() ==> bytes_le(
                    encode_utf8((#[trigger] r[j])@),
                    encode_utf8((#[trigger] r[k])@),
                )
        }),
{
    broadcast use vstd::seq_lib::group_to_multiset_ensures;

    let all = stems_after(files, base_id);
    let le = by_name();
    let r = sort_by(all, le);
    lemma_by_name_orders();
    law_sort_by(all, le);
    assert(in_order(r, le));
    assert forall|x: String| #[trigger] r.contains(x) <==> all.contains(x) by {
        assert(r.to_multiset().count(x) > 0 <==> r.contains(x));
        assert(all.to_multiset().count(x) > 0 <==> all.contains(x));
    }
    lemma_stems(files, base_id, s);
    if 0 <= i < files.len() {
        lemma_stems(files, base_id, files[i].0);
    }
    assert forall|j: int, k: int| 0 <= j < k < r.len() implies bytes_le(
        encode_utf8((#[trigger] r[j])@),
        encode_utf8((#[trigger] r[k])@),
    ) by {
        assert(le(r[j], r[k]));
    }
}

proof fn lemma_replayed_last(m: Map<Slot, StoredChunkCell>, changes: Seq<CellChange>, k: int)
    requires
        0 <= k < changes.len(),
        forall|j: int|
            k < j < changes.len() ==> slot_of((#[trigger] changes[j]).pos) != slot_of(
                changes[k].pos,
            ),
    ensures
        look(replayed(m, changes), slot_of(changes[k].pos)) == changes[k].new,
    decreases changes.len(),
{
    let n = changes.len() - 1;
    if k < n {
        let rest = changes.drop_last();
        assert(changes[n] == changes.last());
        assert forall|j: int| k < j < rest.len() implies slot_of((#[trigger] rest[j]).pos)
            != slot_of(rest[k].pos) by {
            assert(rest[j] == changes[j]);
        }
        lemma_replayed_last(m, rest, k);
    }
}

/// What the log was last told is there again when it is replayed: an account, a
/// region, or what an action left at a place of the board.
pub proof fn law_what_was_logged_is_there_again(
    before: Segment,
    event: SegmentEvent,
    s: Segment,
    state: AppState,
    after: AppState,
    k: int,
    p: WorldCoords,
    chunk: ChunkCoords,
    i: int,
)
    requires
        noted(before, event, s),
        state.replays(s, after),
    ensures
        event matches SegmentEvent::UserUpsert(u) ==> {
            &&& u.user_id < after.users@.len()
            &&& after.users@[u.user_id as int] == Some(u)
            &&& after.name_to_id@.contains_key(u.username@)
            &&& u.session_token@.len() > 0 ==> after.sessions@.contains_key(u.session_token@)
        },
        event matches SegmentEvent::RegionUpsert(r) ==> after.regions@.contains_key(r.id)
            && after.regions@[r.id] == r,
        event matches SegmentEvent::RegionRemove(id) ==> after.regions@.contains_key(id)
            == state.regions@.contains_key(id),
        event matches SegmentEvent::Action(a) ==> {
            &&& after.next_action_id > a.action_id
            &&& 0 <= k < a.changes@.len() && a.changes@[k].pos == p && is_place(p) && numbered(
                p,
                chunk,
                i,
            ) && (forall|j: int|
                0 <= j < a.changes@.len() ==> is_place((#[trigger] a.changes@[j]).pos)) && (forall|
                j: int,
            |
                k < j < a.changes@.len() ==> (#[trigger] a.changes@[j]).pos != p) ==> look(
                after.world@,
                (chunk, i),
            ) == a.changes@[k].new
        },
{
    match event {
        SegmentEvent::UserUpsert(u) => {
            assert(s.new_users@.contains_key(u.user_id));
            assert(account(after.users@, u.user_id) == Some(u));
            assert(crate::replay::names_one(s.new_users@, u.username@));
            if u.session_token@.len() > 0 {
                assert(crate::replay::opens_one(s.new_users@, u.session_token@));
                assert(after.sessions@.contains_key(u.session_token@)
                    <==> state.sessions@.contains_key(u.session_token@)
                    || crate::replay::opens_one(s.new_users@, u.session_token@));
            }
            assert(after.name_to_id@.contains_key(u.username@) <==> state.name_to_id@.contains_key(
                u.username@,
            ) || crate::replay::names_one(s.new_users@, u.username@));
        },
        SegmentEvent::Action(a) => {
            let cs = a.changes@;
            assert(s.actions@.last() == a);
            assert(s.actions@.drop_last() =~= before.actions@);
            if 0 <= k < cs.len() && cs[k].pos == p && is_place(p) && numbered(p, chunk, i) && (
            forall|j: int| 0 <= j < cs.len() ==> is_place((#[trigger] cs[j]).pos)) && (forall|
                j: int,
            |
                k < j < cs.len() ==> (#[trigger] cs[j]).pos != p) {
                crate::serving::lemma_numbered(p, chunk, i);
                assert forall|j: int| k < j < cs.len() implies slot_of((#[trigger] cs[j]).pos)
                    != slot_of(cs[k].pos) by {
                    let q = cs[j].pos;
                    if slot_of(q) == slot_of(p) {
                        law_index_injective(q.local(), p.local());
                        law_chunk_injective(q, p);
                    }
                }
                lemma_replayed_last(replayed_all(state.world@, before.actions@), cs, k);
            }
        },
        _ => {},
    }
}

/// A server that starts from a snapshot is where the one was that wrote it: the
/// board, the regions, the accounts and their names, the counts, and the numbers
/// to be given next.
pub proof fn law_server_starts_where_it_stopped(
    state: AppState,
    snap: WorldSnapshot,
    fresh: AppState,
    after: AppState,
    uid: u32,
)
    requires
        in_place(state.world@),
        state.ids_match(),
        state.region_ids_match(),
        state.numbers_given(),
        state.names_match(),
        state.users@.len() <= u32::MAX,
        snap.next_rid == state.next_rid,
        snap.next_uid == state.next_uid,
        snap.total_cells == state.total_cells,
        snap.users@ == existing(state.users@),
        lists_regions(snap.regions@, state.regions@),
        snap.authors_count@ == state.authors_count@,
        lists_chunks(snap.chunks@, state.world@),
        fresh.world@ == Map::<Slot, StoredChunkCell>::empty(),
        fresh.users@ == Seq::<Option<UserAccount>>::empty(),
        fresh.name_to_id@ == Map::<Seq<char>, u32>::empty(),
        fresh.regions@ == Map::<u32, StoredRegion>::empty(),
        fresh.takes_over(snap, after),
    ensures
        after.world@ == state.world@,
        after.regions@ == state.regions@,
        after.name_to_id@ == state.name_to_id@,
        after.authors_count@ == state.authors_count@,
        after.total_cells == state.total_cells,
        after.next_rid == state.next_rid,
        after.next_uid == state.next_uid,
        uid < state.users@.len() && state.users@[uid as int] is Some ==> uid < after.users@.len()
            && after.users@[uid as int] == state.users@[uid as int],
        uid < after.users@.len() && after.users@[uid as int] is Some ==> uid < state.users@.len()
            && state.users@[uid as int] == after.users@[uid as int],
{
    law_snapshot_restores(state, snap);
    assert(account(after.users@, uid) == account(state.users@, uid));
}

proof fn lemma_sessions_with(
    sessions: Map<Seq<char>, u32>,
    accounts: Seq<UserAccount>,
    i: int,
    t: Seq<char>,
)
    ensures
        0 <= i < accounts.len() && accounts[i].session_token@ == t && t.len() > 0 && (forall|j: int|
            i < j < accounts.len() ==> (#[trigger] accounts[j]).session_token@ != t)
            ==> sessions_with(sessions, accounts).contains_key(t) && sessions_with(
            sessions,
            accounts,
        )[t] == accounts[i].user_id,
        t.len() == 0 || (forall|j: int|
            0 <= j < accounts.len() ==> (#[trigger] accounts[j]).session_token@ != t)
            ==> sessions_with(sessions, accounts).contains_key(t) == sessions.contains_key(t)
            && sessions_with(sessions, accounts)[t] == sessions[t],
    decreases accounts.len(),
{
    if accounts.len() > 0 {
        let rest = accounts.drop_last();
        let n = accounts.len() - 1;
        assert(accounts[n] == accounts.last());
        lemma_sessions_with(sessions, rest, i, t);
        assert forall|j: int| 0 <= j < rest.len() implies rest[j] == accounts[j] by {}
        if 0 <= i < n && forall|j: int|
            i < j < accounts.len() ==> (#[trigger] accounts[j]).session_token@ != t {
            assert(accounts[n].session_token@ != t);
            assert forall|j: int| i < j < rest.len() implies (#[trigger] rest[j]).session_token@
                != t by {
                assert(accounts[j].session_token@ != t);
            }
        }
        if forall|j: int| 0 <= j < accounts.len() ==> (#[trigger] accounts[j]).session_token@ != t {
            assert(accounts[n].session_token@ != t);
            assert forall|j: int| 0 <= j < rest.len() implies (#[trigger] rest[j]).session_token@
                != t by {
                assert(accounts[j].session_token@ != t);
            }
        }
    }
}

/// The token of an account in a snapshot leads to that account again; a token that
/// no account in it has leads nowhere new, nor does an empty one.
pub proof fn law_tokens_outlive_the_server(
    fresh: AppState,
    snap: WorldSnapshot,
    after: AppState,
    i: int,
    t: Seq<char>,
)
    requires
        fresh.takes_over(snap, after),
    ensures
        0 <= i < snap.users@.len() && snap.users@[i].session_token@ == t && t.len() > 0 && (forall|
            j: int,
        |
            i < j < snap.users@.len() ==> (#[trigger] snap.users@[j]).session_token@ != t)
            ==> after.sessions@.contains_key(t) && after.sessions@[t] == snap.users@[i].user_id,
        t.len() == 0 || (forall|j: int|
            0 <= j < snap.users@.len() ==> (#[trigger] snap.users@[j]).session_token@ != t)
            ==> after.sessions@.contains_key(t) == fresh.sessions@.contains_key(t)
            && after.sessions@[t] == fresh.sessions@[t],
{
    lemma_sessions_with(fresh.sessions@, snap.users@, i, t);
}

} // verus!
