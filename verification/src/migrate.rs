//! Bringing an old snapshot up to date.

use vstd::prelude::*;

use crate::model::{StoredChunk, StoredChunkCell, StoredRegion, UserAccount, WorldSnapshot};
use crate::text::same_text;

verus! {

/// The account that belongs to the server itself stands in the second place.
pub open spec fn system_at_1(users: Seq<UserAccount>) -> bool {
    exists|i: int|
        0 <= i < users.len() && (#[trigger] users[i]).user_id == 1 && users[i].username@
            == "system"@
}

/// One less, but never less than nothing.
pub open spec fn one_less(id: u32) -> u32 {
    if id > 0 {
        (id - 1) as u32
    } else {
        id
    }
}

pub open spec fn moved_cell(c: StoredChunkCell) -> StoredChunkCell {
    StoredChunkCell { author_id: one_less(c.author_id), ..c }
}

/// The same chunks, with every author's number one less.
pub open spec fn moved_chunks(old: Seq<StoredChunk>, new: Seq<StoredChunk>) -> bool {
    &&& new.len() == old.len()
    &&& forall|i: int|
        0 <= i < new.len() ==> (#[trigger] new[i]).coords == old[i].coords && new[i].cells@
            == old[i].cells@.map_values(|c: StoredChunkCell| moved_cell(c))
}

/// The counts, with those of the first two authors put together; a single
/// count is dropped.
pub open spec fn merged_counts(counts: Seq<u32>) -> Seq<u32> {
    if counts.len() >= 2 {
        counts.drop_first().update(0, (counts[0] + counts[1]) as u32)
    } else {
        Seq::empty()
    }
}

/// The snapshot can be moved: no number in it would leave its range.
pub open spec fn movable(s: WorldSnapshot) -> bool {
    &&& s.next_uid > 0
    &&& forall|i: int| 0 <= i < s.users@.len() ==> (#[trigger] s.users@[i]).user_id > 0
    &&& s.authors_count@.len() >= 2 ==> s.authors_count@[0] + s.authors_count@[1] <= u32::MAX
}

/// `new` is `old` with every account's number one less.
pub open spec fn moved(old: WorldSnapshot, new: WorldSnapshot) -> bool {
    &&& new.based_on_segment_id == old.based_on_segment_id
    &&& new.next_rid == old.next_rid
    &&& new.next_uid == old.next_uid - 1
    &&& new.total_cells == old.total_cells
    &&& new.users@ == old.users@.map_values(
        |u: UserAccount| UserAccount { user_id: one_less(u.user_id), ..u },
    )
    &&& new.regions@ == old.regions@.map_values(
        |r: StoredRegion| StoredRegion { owner_id: one_less(r.owner_id), ..r },
    )
    &&& new.authors_count@ == merged_counts(old.authors_count@)
    &&& moved_chunks(old.chunks@, new.chunks@)
}

fn has_system_at_1(users: &Vec<UserAccount>) -> (r: bool)
    ensures
        r == system_at_1(users@),
{
    let mut i: usize = 0;
    while i < users.len()
        invariant
            i <= users@.len(),
            forall|k: int|
                0 <= k < i ==> !((#[trigger] users@[k]).user_id == 1 && users@[k].username@
                    == "system"@),
        decreases users@.len() - i,
    {
        if users[i].user_id == 1 && same_text(users[i].username.as_str(), "system") {
            return true;
        }
        i = i + 1;
    }
    false
}

fn move_users(users: Vec<UserAccount>) -> (r: Vec<UserAccount>)
    requires
        forall|i: int| 0 <= i < users@.len() ==> (#[trigger] users@[i]).user_id > 0,
    ensures
        r@ == users@.map_values(
            |u: UserAccount| UserAccount { user_id: one_less(u.user_id), ..u },
        ),
{
    let ghost all = users@;
    let mut out: Vec<UserAccount> = Vec::new();
    for u in iter: users
        invariant
            iter.seq() == all,
            forall|i: int| 0 <= i < all.len() ==> (#[trigger] all[i]).user_id > 0,
            out@.len() == iter.index(),
            forall|k: int|
                0 <= k < out@.len() ==> #[trigger] out@[k] == (UserAccount {
                    user_id: one_less(all[k].user_id),
                    ..all[k]
                }),
    {
        assert(all[iter.index() as int].user_id > 0);
        out.push(UserAccount { user_id: u.user_id - 1, ..u });
    }
    assert(out@ =~= all.map_values(
        |u: UserAccount| UserAccount { user_id: one_less(u.user_id), ..u },
    ));
    out
}

fn move_regions(regions: Vec<StoredRegion>) -> (r: Vec<StoredRegion>)
    ensures
        r@ == regions@.map_values(
            |r: StoredRegion| StoredRegion { owner_id: one_less(r.owner_id), ..r },
        ),
{
    let ghost all = regions@;
    let mut out: Vec<StoredRegion> = Vec::new();
    for r in iter: regions
        invariant
            iter.seq() == all,
            out@.len() == iter.index(),
            forall|k: int|
                0 <= k < out@.len() ==> #[trigger] out@[k] == (StoredRegion {
                    owner_id: one_less(all[k].owner_id),
                    ..all[k]
                }),
    {
        let owner_id: u32 = if r.owner_id > 0 {
            r.owner_id - 1
        } else {
            0
        };
        out.push(StoredRegion { owner_id, ..r });
    }
    assert(out@ =~= all.map_values(
        |r: StoredRegion| StoredRegion { owner_id: one_less(r.owner_id), ..r },
    ));
    out
}

fn move_cell(c: StoredChunkCell) -> (r: StoredChunkCell)
    ensures
        r == moved_cell(c),
{
    if c.author_id > 0 {
        StoredChunkCell { author_id: c.author_id - 1, ..c }
    } else {
        c
    }
}

fn move_chunks(chunks: Vec<StoredChunk>) -> (r: Vec<StoredChunk>)
    ensures
        moved_chunks(chunks@, r@),
{
    let ghost all = chunks@;
    let mut out: Vec<StoredChunk> = Vec::new();
    for chunk in iter: chunks
        invariant
            iter.seq() == all,
            out@.len() == iter.index(),
            forall|k: int|
                0 <= k < out@.len() ==> (#[trigger] out@[k]).coords == all[k].coords
                    && out@[k].cells@ == all[k].cells@.map_values(
                    |c: StoredChunkCell| moved_cell(c),
                ),
    {
        let mut cells: Vec<StoredChunkCell> = Vec::new();
        let mut i: usize = 0;
        while i < chunk.cells.len()
            invariant
                i <= chunk.cells@.len(),
                cells@.len() == i,
                forall|k: int| 0 <= k < i ==> #[trigger] cells@[k] == moved_cell(chunk.cells@[k]),
            decreases chunk.cells@.len() - i,
        {
            cells.push(move_cell(chunk.cells[i]));
            i = i + 1;
        }
        assert(cells@ =~= chunk.cells@.map_values(|c: StoredChunkCell| moved_cell(c)));
        out.push(StoredChunk { coords: chunk.coords, cells });
    }
    out
}

/// Takes one off every account's number, where the server's own account stands
/// in the second place.
pub fn shift_uids_minus_1(snap: WorldSnapshot) -> (r: Option<WorldSnapshot>)
    requires
        system_at_1(snap.users@) ==> movable(snap),
    ensures
        r is Some <==> system_at_1(snap.users@),
        r matches Some(s) ==> moved(snap, s),
{
    if !has_system_at_1(&snap.users) {
        return None;
    }
    let ghost counts = snap.authors_count@;
    let mut authors_count = snap.authors_count;
    if authors_count.len() >= 2 {
        let merged: u32 = authors_count[0] + authors_count[1];
        authors_count.remove(0);
        authors_count.set(0, merged);
        assert(authors_count@ =~= merged_counts(counts));
    } else if authors_count.len() == 1 {
        authors_count.remove(0);
        assert(authors_count@ =~= merged_counts(counts));
    } else {
        assert(authors_count@ =~= merged_counts(counts));
    }
    Some(
        WorldSnapshot {
            based_on_segment_id: snap.based_on_segment_id,
            next_rid: snap.next_rid,
            next_uid: snap.next_uid - 1,
            total_cells: snap.total_cells,
            users: move_users(snap.users),
            regions: move_regions(snap.regions),
            authors_count,
            chunks: move_chunks(snap.chunks),
        },
    )
}

/// A snapshot in which the name of the server's own account occurs once is
/// moved once, and not again.
pub proof fn law_moved_once(old: WorldSnapshot, new: WorldSnapshot)
    requires
        movable(old),
        moved(old, new),
        forall|i: int, j: int|
            0 <= i < old.users@.len() && 0 <= j < old.users@.len() && (#[trigger] old.users@[i]).username@
                == (#[trigger] old.users@[j]).username@ ==> i == j,
        system_at_1(old.users@),
    ensures
        !system_at_1(new.users@),
{
    let a = choose|i: int|
        0 <= i < old.users@.len() && (#[trigger] old.users@[i]).user_id == 1
            && old.users@[i].username@ == "system"@;
    if system_at_1(new.users@) {
        let b = choose|i: int|
            0 <= i < new.users@.len() && (#[trigger] new.users@[i]).user_id == 1
                && new.users@[i].username@ == "system"@;
        assert(new.users@[b].username == old.users@[b].username);
        assert(old.users@[a].username@ == old.users@[b].username@);
    }
}

/// Who owns what stays the same: an account, a cell or a region that bore one
/// account's number bears that account's new number.
pub proof fn law_owners_keep_what_is_theirs(old: WorldSnapshot, new: WorldSnapshot, u: int, i: int, k: int)
    requires
        movable(old),
        moved(old, new),
        0 <= u < old.users@.len(),
        0 <= i < old.chunks@.len(),
        0 <= k < old.chunks@[i].cells@.len(),
        old.chunks@[i].cells@[k].author_id > 0,
    ensures
        old.chunks@[i].cells@[k].author_id == old.users@[u].user_id
            <==> new.chunks@[i].cells@[k].author_id == new.users@[u].user_id,
{
    assert(old.users@[u].user_id > 0);
    assert(new.chunks@[i].cells@[k] == moved_cell(old.chunks@[i].cells@[k]));
}

} // verus!
