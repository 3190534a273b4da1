//! Writing the whole state down, and reading it back.

use vstd::prelude::*;
use vstd::std_specs::hash::*;

use crate::coords::{ChunkCoords, CHUNK_AREA};
use crate::edit::{updated, Update};
use crate::model::{StoredChunk, StoredChunkCell, StoredRegion, UserAccount, WorldSnapshot};
use crate::region::{lists_regions, lists_regions_as};
use crate::state::{account, AppState};
use crate::world::{
    cells_below, chunk_cells, lemma_cells_below_nonempty, lists_chunks, look, with_chunk,
    ChunkArray, Slot, WorldShard,
};

verus! {

/// A chunk in which each of `cells` stands at its own place.
pub open spec fn array_of(cells: Seq<StoredChunkCell>) -> Seq<Option<StoredChunkCell>>
    decreases cells.len(),
{
    if cells.len() == 0 {
        Seq::new(CHUNK_AREA as nat, |i: int| None)
    } else {
        array_of(cells.drop_last()).update(cells.last().local.index(), Some(cells.last()))
    }
}

/// The board with `chunks` put in, one after the other.
pub open spec fn with_chunks(m: Map<Slot, StoredChunkCell>, chunks: Seq<StoredChunk>) -> Map<
    Slot,
    StoredChunkCell,
>
    decreases chunks.len(),
{
    if chunks.len() == 0 {
        m
    } else {
        let c = chunks.last();
        with_chunk(with_chunks(m, chunks.drop_last()), c.coords, array_of(c.cells@))
    }
}

/// The accounts of `from` that exist.
pub open spec fn existing(from: Seq<Option<UserAccount>>) -> Seq<UserAccount>
    decreases from.len(),
{
    if from.len() == 0 {
        Seq::empty()
    } else {
        let before = existing(from.drop_last());
        match from.last() {
            Some(u) => before.push(u),
            None => before,
        }
    }
}

/// The first `n` places of the table of accounts, empty where it is shorter.
pub open spec fn resized(users: Seq<Option<UserAccount>>, n: nat) -> Seq<Option<UserAccount>> {
    Seq::new(
        n,
        |i: int|
            if i < users.len() {
                users[i]
            } else {
                None
            },
    )
}

/// `users` with each of `accounts` at its number.
pub open spec fn placed(users: Seq<Option<UserAccount>>, accounts: Seq<UserAccount>) -> Seq<
    Option<UserAccount>,
>
    decreases accounts.len(),
{
    if accounts.len() == 0 {
        users
    } else {
        let u = accounts.last();
        placed(users, accounts.drop_last()).update(u.user_id as int, Some(u))
    }
}

/// `names` with the names of `accounts`.
pub open spec fn names_with(names: Map<Seq<char>, u32>, accounts: Seq<UserAccount>) -> Map<
    Seq<char>,
    u32,
>
    decreases accounts.len(),
{
    if accounts.len() == 0 {
        names
    } else {
        let u = accounts.last();
        names_with(names, accounts.drop_last()).insert(u.username@, u.user_id)
    }
}

/// `sessions` with the sessions of `accounts`, but for those without a token.
pub open spec fn sessions_with(sessions: Map<Seq<char>, u32>, accounts: Seq<UserAccount>) -> Map<
    Seq<char>,
    u32,
>
    decreases accounts.len(),
{
    if accounts.len() == 0 {
        sessions
    } else {
        let u = accounts.last();
        let before = sessions_with(sessions, accounts.drop_last());
        if u.session_token@.len() > 0 {
            before.insert(u.session_token@, u.user_id)
        } else {
            before
        }
    }
}

/// `regions` with `more`, under their numbers.
pub open spec fn regions_with(regions: Map<u32, StoredRegion>, more: Seq<StoredRegion>) -> Map<
    u32,
    StoredRegion,
>
    decreases more.len(),
{
    if more.len() == 0 {
        regions
    } else {
        regions_with(regions, more.drop_last()).insert(more.last().id, more.last())
    }
}

/// Every cell of the snapshot names a place of its chunk.
pub open spec fn cells_fit(chunks: Seq<StoredChunk>) -> bool {
    forall|i: int, j: int|
        0 <= i < chunks.len() && 0 <= j < chunks[i].cells@.len() ==> (
        #[trigger] chunks[i].cells@[j]).local.index() < CHUNK_AREA
}

/// Every account of the snapshot has a number that has been given out.
pub open spec fn users_fit(users: Seq<UserAccount>, next_uid: u32) -> bool {
    forall|i: int| 0 <= i < users.len() ==> (#[trigger] users[i]).user_id <= next_uid
}

fn fill_array(cells: &Vec<StoredChunkCell>) -> (r: ChunkArray)
    requires
        forall|j: int| 0 <= j < cells@.len() ==> (#[trigger] cells@[j]).local.index() < CHUNK_AREA,
    ensures
        r@ == array_of(cells@),
{
    let mut array = WorldShard::new_array();
    let mut j: usize = 0;
    proof {
        assert(cells@.take(0) =~= Seq::<StoredChunkCell>::empty());
        assert(array@ =~= array_of(cells@.take(0)));
    }
    while j < cells.len()
        invariant
            j <= cells@.len(),
            forall|k: int|
                0 <= k < cells@.len() ==> (#[trigger] cells@[k]).local.index() < CHUNK_AREA,
            array@ == array_of(cells@.take(j as int)),
        decreases cells@.len() - j,
    {
        let c = cells[j];
        let at: usize = c.local.to_index();
        assert(cells@.take(j + 1).drop_last() =~= cells@.take(j as int));
        assert(cells@[j as int].local.index() < CHUNK_AREA);
        array[at] = Some(c);
        assert(array@ =~= array_of(cells@.take(j + 1)));
        j = j + 1;
    }
    assert(cells@.take(j as int) =~= cells@);
    array
}

impl AppState {
    /// The snapshot can be taken over: it names accounts and places that there
    /// are.
    pub open spec fn snapshot_fits(snap: WorldSnapshot) -> bool {
        &&& snap.next_uid < u32::MAX
        &&& users_fit(snap.users@, snap.next_uid)
        &&& cells_fit(snap.chunks@)
    }

    /// `after` is this state once it has taken over what `snap` holds.
    pub open spec fn takes_over(self, snap: WorldSnapshot, after: AppState) -> bool {
        &&& after.next_rid == snap.next_rid
        &&& after.next_uid == snap.next_uid
        &&& after.total_cells == snap.total_cells
        &&& after.users@ == placed(resized(self.users@, (snap.next_uid + 1) as nat), snap.users@)
        &&& after.name_to_id@ == names_with(self.name_to_id@, snap.users@)
        &&& after.sessions@ == sessions_with(self.sessions@, snap.users@)
        &&& after.regions@ == regions_with(self.regions@, snap.regions@)
        &&& after.authors_count == snap.authors_count
        &&& after.world@ == with_chunks(self.world@, snap.chunks@)
        &&& after == (AppState {
            next_rid: after.next_rid,
            next_uid: after.next_uid,
            total_cells: after.total_cells,
            users: after.users,
            name_to_id: after.name_to_id,
            sessions: after.sessions,
            regions: after.regions,
            authors_count: after.authors_count,
            world: after.world,
            ..self
        })
    }

    /// Takes over what `snap` holds. The cells of other chunks stay, as do
    /// other regions, names and sessions.
    pub fn apply_snapshot(&mut self, snap: WorldSnapshot)
        requires
            old(self).wf(),
            Self::snapshot_fits(snap),
        ensures
            final(self).wf(),
            old(self).takes_over(snap, *final(self)),
    {
        let WorldSnapshot {
            based_on_segment_id: _,
            next_rid,
            next_uid,
            total_cells,
            users,
            regions,
            authors_count,
            chunks,
        } = snap;
        self.next_rid = next_rid;
        self.next_uid = next_uid;
        self.total_cells = total_cells;
        self.load_users(users, next_uid);
        self.load_regions(regions);
        self.authors_count = authors_count;
        self.load_chunks(chunks);
    }

    fn load_users(&mut self, accounts: Vec<UserAccount>, next_uid: u32)
        requires
            next_uid < u32::MAX,
            users_fit(accounts@, next_uid),
        ensures
            final(self).users@ == placed(
                resized(old(self).users@, (next_uid + 1) as nat),
                accounts@,
            ),
            final(self).name_to_id@ == names_with(old(self).name_to_id@, accounts@),
            final(self).sessions@ == sessions_with(old(self).sessions@, accounts@),
            *final(self) == (AppState {
                users: final(self).users,
                name_to_id: final(self).name_to_id,
                sessions: final(self).sessions,
                ..*old(self)
            }),
    {
        let ghost base = resized(old(self).users@, (next_uid + 1) as nat);
        let ghost all = accounts@;
        crate::auth::widen(&mut self.users, next_uid);
        self.users.truncate(next_uid as usize + 1);
        proof {
            assert(self.users@ =~= base);
            assert(all.take(0) =~= Seq::<UserAccount>::empty());
        }
        for u in iter: accounts
            invariant
                iter.seq() == all,
                users_fit(all, next_uid),
                self.users@.len() == next_uid + 1,
                self.users@ == placed(base, all.take(iter.index() as int)),
                self.name_to_id@ == names_with(
                    old(self).name_to_id@,
                    all.take(iter.index() as int),
                ),
                self.sessions@ == sessions_with(
                    old(self).sessions@,
                    all.take(iter.index() as int),
                ),
                *self == (AppState {
                    users: self.users,
                    name_to_id: self.name_to_id,
                    sessions: self.sessions,
                    ..*old(self)
                }),
        {
            assert(all.take(iter.index() + 1).drop_last() =~= all.take(iter.index() as int));
            assert(all[iter.index() as int].user_id <= next_uid);
            let uid: u32 = u.user_id;
            self.name_to_id.insert(u.username.clone(), uid);
            if !u.session_token.as_str().is_empty() {
                self.sessions.insert(u.session_token.clone(), uid);
            }
            self.users[uid as usize] = Some(u);
        }
        assert(all.take(all.len() as int) =~= all);
    }

    fn load_regions(&mut self, regions: Vec<StoredRegion>)
        ensures
            final(self).regions@ == regions_with(old(self).regions@, regions@),
            *final(self) == (AppState { regions: final(self).regions, ..*old(self) }),
    {
        broadcast use group_hash_axioms;

        let ghost all = regions@;
        assert(all.take(0) =~= Seq::<StoredRegion>::empty());
        for r in iter: regions
            invariant
                iter.seq() == all,
                self.regions@ == regions_with(old(self).regions@, all.take(iter.index() as int)),
                *self == (AppState { regions: self.regions, ..*old(self) }),
        {
            assert(all.take(iter.index() + 1).drop_last() =~= all.take(iter.index() as int));
            self.regions.insert(r.id, r);
        }
        assert(all.take(all.len() as int) =~= all);
    }

    fn load_chunks(&mut self, chunks: Vec<StoredChunk>)
        requires
            old(self).world.wf(),
            cells_fit(chunks@),
        ensures
            final(self).world.wf(),
            final(self).world@ == with_chunks(old(self).world@, chunks@),
            *final(self) == (AppState { world: final(self).world, ..*old(self) }),
    {
        let ghost all = chunks@;
        let ghost m0 = self.world@;
        assert(all.take(0) =~= Seq::<StoredChunk>::empty());
        let mut i: usize = 0;
        while i < chunks.len()
            invariant
                i <= all.len(),
                all == chunks@,
                cells_fit(all),
                m0 == old(self).world@,
                self.world.wf(),
                self.world@ == with_chunks(m0, all.take(i as int)),
                *self == (AppState { world: self.world, ..*old(self) }),
            decreases all.len() - i,
        {
            let c = &chunks[i];
            assert forall|j: int| 0 <= j < c.cells@.len() implies (
            #[trigger] c.cells@[j]).local.index() < CHUNK_AREA by {
                assert(all[i as int].cells@[j].local.index() < CHUNK_AREA);
            }
            let array = fill_array(&c.cells);
            self.world.insert_chunk(c.coords, array);
            assert(all.take(i + 1).drop_last() =~= all.take(i as int));
            i = i + 1;
        }
        assert(all.take(all.len() as int) =~= all);
    }

    /// The state as it is written down, on top of segment `based_on`.
    pub fn build_snapshot(&self, based_on: u64) -> (r: WorldSnapshot)
        requires
            self.wf(),
        ensures
            r.based_on_segment_id == based_on,
            r.next_rid == self.next_rid,
            r.next_uid == self.next_uid,
            r.total_cells == self.total_cells,
            r.users@ == existing(self.users@),
            lists_regions(r.regions@, self.regions@),
            r.authors_count@ == self.authors_count@,
            lists_chunks(r.chunks@, self.world@),
    {
        let mut users: Vec<UserAccount> = Vec::new();
        let mut i: usize = 0;
        assert(self.users@.take(0) =~= Seq::<Option<UserAccount>>::empty());
        while i < self.users.len()
            invariant
                i <= self.users@.len(),
                users@ == existing(self.users@.take(i as int)),
            decreases self.users@.len() - i,
        {
            assert(self.users@.take(i + 1).drop_last() =~= self.users@.take(i as int));
            if let Some(u) = &self.users[i] {
                users.push(u.duplicate());
            }
            i = i + 1;
        }
        assert(self.users@.take(i as int) =~= self.users@);
        let mut authors_count: Vec<u32> = Vec::new();
        authors_count.extend_from_slice(self.authors_count.as_slice());
        assert(authors_count@ =~= self.authors_count@);
        WorldSnapshot {
            based_on_segment_id: based_on,
            next_rid: self.next_rid,
            next_uid: self.next_uid,
            total_cells: self.total_cells,
            users,
            regions: self.all_regions(),
            authors_count,
            chunks: self.snapshot_all_shards(),
        }
    }
}

/// Every cell carries the place where it stands.
pub open spec fn in_place(m: Map<Slot, StoredChunkCell>) -> bool {
    forall|s: Slot| #[trigger] m.contains_key(s) ==> m[s].local.index() == s.1 && 0 <= s.1 < CHUNK_AREA
}

proof fn lemma_array_of_cells(m: Map<Slot, StoredChunkCell>, chunk: ChunkCoords, n: nat)
    requires
        in_place(m),
        n <= CHUNK_AREA,
    ensures
        array_of(cells_below(m, chunk, n)).len() == CHUNK_AREA,
        forall|i: int|
            0 <= i < CHUNK_AREA ==> #[trigger] array_of(cells_below(m, chunk, n))[i] == (if i < n {
                look(m, (chunk, i))
            } else {
                None
            }),
        forall|j: int|
            0 <= j < cells_below(m, chunk, n).len() ==> (#[trigger] cells_below(
                m,
                chunk,
                n,
            )[j]).local.index() < CHUNK_AREA,
    decreases n,
{
    if n > 0 {
        lemma_array_of_cells(m, chunk, (n - 1) as nat);
        let before = cells_below(m, chunk, (n - 1) as nat);
        if m.contains_key((chunk, n - 1)) {
            assert(before.push(m[(chunk, n - 1)]).drop_last() =~= before);
        }
    }
}

proof fn lemma_with_chunks_listed(chunks: Seq<StoredChunk>, m: Map<Slot, StoredChunkCell>, k: int)
    requires
        in_place(m),
        lists_chunks(chunks, m),
        0 <= k <= chunks.len(),
    ensures
        forall|s: Slot|
            #![trigger with_chunks(Map::empty(), chunks.take(k)).contains_key(s)]
            look(with_chunks(Map::empty(), chunks.take(k)), s) == (if exists|a: int|
                0 <= a < k && (#[trigger] chunks[a]).coords == s.0 {
                look(m, s)
            } else {
                None
            }),
    decreases k,
{
    let r = with_chunks(Map::empty(), chunks.take(k));
    if k > 0 {
        lemma_with_chunks_listed(chunks, m, k - 1);
        assert(chunks.take(k).drop_last() =~= chunks.take(k - 1));
        let before = with_chunks(Map::empty(), chunks.take(k - 1));
        let c = chunks[k - 1];
        lemma_array_of_cells(m, c.coords, CHUNK_AREA as nat);
        assert(c.cells@ == chunk_cells(m, c.coords));
        assert forall|s: Slot|
            #![trigger r.contains_key(s)]
            look(r, s) == (if exists|a: int| 0 <= a < k && (#[trigger] chunks[a]).coords == s.0 {
                look(m, s)
            } else {
                None
            }) by {
            if s.0 == c.coords {
                assert(chunks[k - 1].coords == s.0);
            } else {
                assert(before.contains_key(s) || !before.contains_key(s));
                if exists|a: int| 0 <= a < k && (#[trigger] chunks[a]).coords == s.0 {
                    let a = choose|a: int| 0 <= a < k && (#[trigger] chunks[a]).coords == s.0;
                    assert(a < k - 1);
                }
            }
        }
    } else {
        assert(chunks.take(0) =~= Seq::<StoredChunk>::empty());
    }
}

proof fn lemma_placed_existing(users: Seq<Option<UserAccount>>, next_uid: u32, k: int)
    requires
        0 <= k <= users.len(),
        forall|i: int|
            0 <= i < users.len() && (#[trigger] users[i]) is Some ==> users[i]->0.user_id == i && i
                <= next_uid,
    ensures
        ({
            let base = resized(Seq::empty(), (next_uid + 1) as nat);
            let p = placed(base, existing(users.take(k)));
            &&& p.len() == next_uid + 1
            &&& forall|i: int|
                0 <= i < p.len() ==> #[trigger] p[i] == (if i < k {
                    users[i]
                } else {
                    None
                })
        }),
        users_fit(existing(users.take(k)), next_uid),
    decreases k,
{
    if k > 0 {
        lemma_placed_existing(users, next_uid, k - 1);
        assert(users.take(k).drop_last() =~= users.take(k - 1));
        assert(users.take(k).last() == users[k - 1]);
        let before = existing(users.take(k - 1));
        match users[k - 1] {
            Some(u) => {
                assert(before.push(u).drop_last() =~= before);
            },
            None => {},
        }
    } else {
        assert(users.take(0) =~= Seq::<Option<UserAccount>>::empty());
    }
}

proof fn lemma_names_existing(users: Seq<Option<UserAccount>>, k: int)
    requires
        0 <= k <= users.len(),
        forall|i: int|
            0 <= i < users.len() && (#[trigger] users[i]) is Some ==> users[i]->0.user_id == i,
    ensures
        forall|n: Seq<char>|
            #[trigger] names_with(Map::empty(), existing(users.take(k))).contains_key(n) <==> exists|
                i: int,
            |
                0 <= i < k && (#[trigger] users[i]) is Some && users[i]->0.username@ == n,
        forall|n: Seq<char>|
            #[trigger] names_with(Map::empty(), existing(users.take(k))).contains_key(n) ==> {
                let uid = names_with(Map::empty(), existing(users.take(k)))[n];
                uid < k && users[uid as int] is Some && users[uid as int]->0.username@ == n
            },
    decreases k,
{
    let r = names_with(Map::empty(), existing(users.take(k)));
    if k > 0 {
        lemma_names_existing(users, k - 1);
        assert(users.take(k).drop_last() =~= users.take(k - 1));
        assert(users.take(k).last() == users[k - 1]);
        let acc = existing(users.take(k - 1));
        let before = names_with(Map::empty(), acc);
        match users[k - 1] {
            Some(u) => {
                assert(acc.push(u).drop_last() =~= acc);
            },
            None => {},
        }
        assert forall|n: Seq<char>| #[trigger]
            r.contains_key(n) <==> exists|i: int|
                0 <= i < k && (#[trigger] users[i]) is Some && users[i]->0.username@ == n by {
            if before.contains_key(n) {
                let i = choose|i: int|
                    0 <= i < k - 1 && (#[trigger] users[i]) is Some && users[i]->0.username@ == n;
                assert(users[i] is Some);
            }
            if users[k - 1] is Some && users[k - 1]->0.username@ == n {
                assert(r.contains_key(n));
            }
            if exists|i: int|
                0 <= i < k && (#[trigger] users[i]) is Some && users[i]->0.username@ == n {
                let i = choose|i: int|
                    0 <= i < k && (#[trigger] users[i]) is Some && users[i]->0.username@ == n;
                if i < k - 1 {
                    assert(before.contains_key(n));
                }
            }
        }
        assert forall|n: Seq<char>| #[trigger] r.contains_key(n) implies {
            let uid = r[n];
            uid < k && users[uid as int] is Some && users[uid as int]->0.username@ == n
        } by {
            if !(users[k - 1] is Some && users[k - 1]->0.username@ == n) {
                assert(before.contains_key(n));
            }
        }
    } else {
        assert(users.take(0) =~= Seq::<Option<UserAccount>>::empty());
    }
}

proof fn lemma_regions_listed(
    list: Seq<StoredRegion>,
    m: Map<u32, StoredRegion>,
    ks: Seq<u32>,
    k: int,
)
    requires
        lists_regions_as(list, m, ks),
        forall|id: u32| #[trigger] m.contains_key(id) ==> m[id].id == id,
        0 <= k <= list.len(),
    ensures
        forall|id: u32| #[trigger]
            regions_with(Map::empty(), list.take(k)).contains_key(id) <==> ks.take(k).contains(id),
        forall|id: u32| #[trigger]
            regions_with(Map::empty(), list.take(k)).contains_key(id) ==> regions_with(
                Map::empty(),
                list.take(k),
            )[id] == m[id],
    decreases k,
{
    if k > 0 {
        lemma_regions_listed(list, m, ks, k - 1);
        assert(list.take(k).drop_last() =~= list.take(k - 1));
        let r = list[k - 1];
        assert(list.take(k).last() == r);
        assert(r == m[ks[k - 1]]);
        assert(ks.to_set().contains(ks[k - 1]));
        let before = regions_with(Map::empty(), list.take(k - 1));
        let after = regions_with(Map::empty(), list.take(k));
        assert(ks.take(k) =~= ks.take(k - 1).push(ks[k - 1]));
        assert forall|id: u32| #[trigger] after.contains_key(id) <==> ks.take(k).contains(id) by {
            if ks.take(k - 1).contains(id) {
                let t = ks.take(k - 1);
                let j = choose|j: int| 0 <= j < t.len() && t[j] == id;
                assert(ks.take(k)[j] == id);
            }
            if id == ks[k - 1] {
                assert(ks.take(k)[k - 1] == id);
            }
            if ks.take(k).contains(id) && id != ks[k - 1] {
                let t = ks.take(k);
                let j = choose|j: int| 0 <= j < t.len() && t[j] == id;
                assert(ks.take(k - 1)[j] == id);
            }
            assert(before.contains_key(id) <==> ks.take(k - 1).contains(id));
        }
        assert forall|id: u32| #[trigger] after.contains_key(id) implies after[id] == m[id] by {
            if id != ks[k - 1] {
                assert(before.contains_key(id));
            }
        }
    } else {
        assert(list.take(0) =~= Seq::<StoredRegion>::empty());
    }
}

impl AppState {
    /// Regions are stored under their numbers.
    pub open spec fn region_ids_match(&self) -> bool {
        forall|id: u32| #[trigger]
            self.regions@.contains_key(id) ==> self.regions@[id].id == id
    }

    /// No account has a number that is yet to be given out.
    pub open spec fn numbers_given(&self) -> bool {
        forall|uid: u32| #[trigger] account(self.users@, uid) is Some ==> uid <= self.next_uid
    }

    /// The table of names says how the accounts are called, and every account
    /// is found by its name.
    pub open spec fn names_match(&self) -> bool {
        &&& forall|n: Seq<char>| #[trigger]
            self.name_to_id@.contains_key(n) ==> account(self.users@, self.name_to_id@[n]) is Some
                && account(self.users@, self.name_to_id@[n])->0.username@ == n
        &&& forall|uid: u32|
            (#[trigger] account(self.users@, uid)) is Some ==> self.name_to_id@.contains_key(
                account(self.users@, uid)->0.username@,
            ) && self.name_to_id@[account(self.users@, uid)->0.username@] == uid
    }
}

/// A server that reads back what another wrote down has its board, its regions,
/// its accounts and its names.
pub proof fn law_snapshot_restores(state: AppState, snap: WorldSnapshot)
    requires
        in_place(state.world@),
        state.ids_match(),
        state.region_ids_match(),
        state.numbers_given(),
        state.names_match(),
        state.users@.len() <= u32::MAX,
        snap.next_uid == state.next_uid,
        snap.users@ == existing(state.users@),
        lists_regions(snap.regions@, state.regions@),
        lists_chunks(snap.chunks@, state.world@),
    ensures
        users_fit(snap.users@, snap.next_uid),
        cells_fit(snap.chunks@),
        with_chunks(Map::empty(), snap.chunks@) == state.world@,
        regions_with(Map::empty(), snap.regions@) == state.regions@,
        names_with(Map::empty(), snap.users@) == state.name_to_id@,
        forall|uid: u32| #[trigger]
            account(
                placed(resized(Seq::empty(), (snap.next_uid + 1) as nat), snap.users@),
                uid,
            ) == account(state.users@, uid),
{
    let m = state.world@;
    let chunks = snap.chunks@;
    let users = state.users@;
    assert forall|i: int, j: int| 0 <= i < chunks.len() && 0 <= j < chunks[i].cells@.len() implies (
    #[trigger] chunks[i].cells@[j]).local.index() < CHUNK_AREA by {
        lemma_array_of_cells(m, chunks[i].coords, CHUNK_AREA as nat);
        assert(chunks[i].cells@ == chunk_cells(m, chunks[i].coords));
    }
    let loaded = with_chunks(Map::empty(), chunks);
    lemma_with_chunks_listed(chunks, m, chunks.len() as int);
    assert(chunks.take(chunks.len() as int) =~= chunks);
    assert forall|s: Slot| look(loaded, s) == look(m, s) by {
        assert(loaded.contains_key(s) || !loaded.contains_key(s));
        if m.contains_key(s) {
            lemma_cells_below_nonempty(m, s.0, CHUNK_AREA as nat);
            assert(m.contains_key((s.0, s.1)));
            assert(chunk_cells(m, s.0).len() > 0);
        }
    }
    assert(loaded =~= m) by {
        assert forall|s: Slot| loaded.contains_key(s) == m.contains_key(s) by {
            assert(look(loaded, s) == look(m, s));
        }
        assert forall|s: Slot| loaded.contains_key(s) implies loaded[s] == m[s] by {
            assert(look(loaded, s) == look(m, s));
        }
    }
    let ks = choose|ks: Seq<u32>| #[trigger] lists_regions_as(snap.regions@, state.regions@, ks);
    let n = snap.regions@.len() as int;
    lemma_regions_listed(snap.regions@, state.regions@, ks, n);
    assert(snap.regions@.take(n) =~= snap.regions@);
    assert(ks.take(n) =~= ks);
    assert forall|id: u32| ks.contains(id) <==> state.regions@.contains_key(id) by {
        assert(ks.to_set().contains(id) <==> ks.contains(id));
    }
    assert(regions_with(Map::empty(), snap.regions@) =~= state.regions@);
    assert forall|i: int| 0 <= i < users.len() && (#[trigger] users[i]) is Some implies users[i]->0.user_id
        == i && i <= snap.next_uid by {
        assert(account(users, i as u32) is Some);
    }
    lemma_placed_existing(users, snap.next_uid, users.len() as int);
    lemma_names_existing(users, users.len() as int);
    assert(users.take(users.len() as int) =~= users);
    let names = names_with(Map::empty(), snap.users@);
    assert forall|x: Seq<char>| names.contains_key(x) implies state.name_to_id@.contains_key(x)
        && state.name_to_id@[x] == names[x] by {
        assert(account(users, names[x]) is Some);
    }
    assert forall|x: Seq<char>| state.name_to_id@.contains_key(x) implies names.contains_key(
        x,
    ) by {
        let uid = state.name_to_id@[x];
        assert(users[uid as int] is Some);
    }
    assert(names =~= state.name_to_id@);
}

/// Edits leave every cell with the place where it stands.
pub proof fn law_edits_keep_cells_in_place(m: Map<Slot, StoredChunkCell>, updates: Seq<Update>)
    requires
        in_place(m),
    ensures
        in_place(updated(m, updates)),
    decreases updates.len(),
{
    if updates.len() > 0 {
        law_edits_keep_cells_in_place(m, updates.drop_last());
    }
}

} // verus!
