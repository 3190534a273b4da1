//! Protected parts of the board.

use vstd::prelude::*;
use vstd::std_specs::hash::*;
use vstd::string::*;

use crate::coords::{int_max, WorldCoords, MAX_PROTECTED_CELLS};
use crate::error::AppError;
use crate::model::{EventView, SegmentEvent, StoredRegion, UserAccount};
use crate::msg::RegionRecord;
use crate::state::{account, AppState};
use crate::table::keys_of;
use crate::text::{dec, push_dec};

verus! {

/// A number of protected cells moved by `delta`, but not below zero.
pub open spec fn adjusted_count(n: u32, delta: int) -> u32 {
    int_max(n + delta, 0) as u32
}

/// The accounts with the protected cells of `uid` moved by `delta`.
pub open spec fn adjusted(users: Seq<Option<UserAccount>>, uid: u32, delta: int) -> Seq<
    Option<UserAccount>,
> {
    match account(users, uid) {
        Some(u) => users.update(
            uid as int,
            Some(
                UserAccount { protected_cells: adjusted_count(u.protected_cells, delta), ..u },
            ),
        ),
        None => users,
    }
}

/// `log` with the news of account `uid`, if there is one.
pub open spec fn with_upsert(
    log: Seq<EventView>,
    users: Seq<Option<UserAccount>>,
    uid: u32,
) -> Seq<EventView> {
    match account(users, uid) {
        Some(u) => log.push(EventView::UserUpsert(u)),
        None => log,
    }
}

/// `r` holds every region of `m` once.
pub open spec fn lists_regions(r: Seq<StoredRegion>, m: Map<u32, StoredRegion>) -> bool {
    exists|ks: Seq<u32>| #[trigger] lists_regions_as(r, m, ks)
}

/// `r` holds the regions of `m` in the order of `ks`, which are all its keys.
pub open spec fn lists_regions_as(
    r: Seq<StoredRegion>,
    m: Map<u32, StoredRegion>,
    ks: Seq<u32>,
) -> bool {
    &&& ks.no_duplicates()
    &&& ks.to_set() == m.dom()
    &&& r.len() == ks.len()
    &&& forall|i: int| 0 <= i < r.len() ==> #[trigger] r[i] == m[ks[i]]
}

/// Cells that account `uid` protects.
pub open spec fn protected_by(users: Seq<Option<UserAccount>>, uid: u32) -> u32 {
    match account(users, uid) {
        Some(u) => u.protected_cells,
        None => 0,
    }
}

impl AppState {
    /// No account but the system's protects more cells than it may.
    pub open spec fn within_quota(&self) -> bool {
        forall|uid: u32|
            uid != 0 ==> #[trigger] protected_by(self.users@, uid) <= MAX_PROTECTED_CELLS
    }

    /// `r` may be added.
    pub open spec fn admits(&self, r: StoredRegion) -> bool {
        &&& r.bounds.spec_area() > 0
        &&& r.owner_id == 0 || protected_by(self.users@, r.owner_id) + r.bounds.spec_area()
            <= MAX_PROTECTED_CELLS
    }

    /// `after` is this state with region `r` added, under the next number.
    pub open spec fn takes_region(self, r: StoredRegion, after: AppState) -> bool {
        let id = self.next_rid;
        let saved = StoredRegion { id, ..r };
        &&& after.next_rid == (id + 1) % 0x1_0000_0000
        &&& after.regions@ == self.regions@.insert(id, saved)
        &&& after.users@ == adjusted(self.users@, r.owner_id, r.bounds.spec_area())
        &&& after.events() == with_upsert(self.events(), after.users@, r.owner_id).push(
            EventView::RegionUpsert(saved),
        )
        &&& after == (AppState {
            next_rid: after.next_rid,
            regions: after.regions,
            users: after.users,
            outbox: after.outbox,
            ..self
        })
    }

    /// `after` is this state once the owner of region `id` has given it up.
    pub open spec fn releases_region(self, id: u32, after: AppState) -> bool {
        let r = self.regions@[id];
        &&& after.regions@ == self.regions@.remove(id)
        &&& after.users@ == adjusted(self.users@, r.owner_id, -r.bounds.spec_area())
        &&& after.events() == with_upsert(self.events(), after.users@, r.owner_id).push(
            EventView::RegionRemove(id),
        )
        &&& after == (AppState {
            regions: after.regions,
            users: after.users,
            outbox: after.outbox,
            ..self
        })
    }

    /// A region in which `pos` lies. Where there are several, any of them.
    pub fn find_region_at(&self, pos: WorldCoords) -> (r: Option<StoredRegion>)
        ensures
            match r {
                Some(reg) => reg.bounds.has(pos) && exists|id: u32| #[trigger]
                    self.regions@.contains_key(id) && self.regions@[id] == reg,
                None => forall|id: u32| #[trigger]
                    self.regions@.contains_key(id) ==> !self.regions@[id].bounds.has(pos),
            },
    {
        broadcast use group_hash_axioms;

        let ids = keys_of(&self.regions);
        let mut i: usize = 0;
        while i < ids.len()
            invariant
                i <= ids@.len(),
                forall|k: u32| #[trigger] ids@.contains(k) <==> self.regions@.contains_key(k),
                forall|j: int|
                    0 <= j < i ==> !self.regions@[#[trigger] ids@[j]].bounds.has(pos),
            decreases ids@.len() - i,
        {
            assert(ids@.contains(ids@[i as int]));
            if let Some(r) = self.regions.get(&ids[i]) {
                if r.bounds.contains(pos) {
                    return Some(r.duplicate());
                }
            }
            i = i + 1;
        }
        proof {
            assert forall|id: u32| #[trigger]
                self.regions@.contains_key(id) implies !self.regions@[id].bounds.has(pos) by {
                assert(ids@.contains(id));
                let j = choose|j: int| 0 <= j < ids@.len() && ids@[j] == id;
                assert(!self.regions@[ids@[j]].bounds.has(pos));
            }
        }
        None
    }

    /// Every region once, in no particular order.
    pub fn all_regions(&self) -> (r: Vec<StoredRegion>)
        ensures
            lists_regions(r@, self.regions@),
    {
        broadcast use group_hash_axioms;

        let ids = keys_of(&self.regions);
        let mut out: Vec<StoredRegion> = Vec::new();
        let mut i: usize = 0;
        while i < ids.len()
            invariant
                i <= ids@.len(),
                forall|k: u32| #[trigger] ids@.contains(k) <==> self.regions@.contains_key(k),
                out@.len() == i,
                forall|j: int| 0 <= j < i ==> #[trigger] out@[j] == self.regions@[ids@[j]],
            decreases ids@.len() - i,
        {
            assert(ids@.contains(ids@[i as int]));
            if let Some(r) = self.regions.get(&ids[i]) {
                out.push(r.duplicate());
            }
            i = i + 1;
        }
        assert(lists_regions_as(out@, self.regions@, ids@));
        out
    }

    /// The region as clients are told of it.
    pub fn region_to_record(&self, r: &StoredRegion) -> (rec: RegionRecord)
        ensures
            rec.id == r.id,
            rec.bounds == r.bounds,
            rec.label == r.label,
            rec.owner_id == r.owner_id,
            rec.owner@ == self.name_of(r.owner_id),
    {
        RegionRecord {
            id: r.id,
            bounds: r.bounds,
            label: r.label.clone(),
            owner_id: r.owner_id,
            owner: self.username_of(r.owner_id),
        }
    }

    /// Moves the protected cells of account `uid` by `delta`, but not below
    /// zero, and tells the log.
    pub fn adjust_cells(&mut self, uid: u32, delta: i64)
        requires
            protected_by(old(self).users@, uid) + delta <= i64::MAX,
        ensures
            final(self).users@ == adjusted(old(self).users@, uid, delta as int),
            final(self).events() == with_upsert(old(self).events(), final(self).users@, uid),
            *final(self) == (AppState {
                users: final(self).users,
                outbox: final(self).outbox,
                ..*old(self)
            }),
    {
        if let Some(mut u) = self.get_user_by_id(uid) {
            let n: i64 = u.protected_cells as i64 + delta;
            let m: i64 = if n >= 0 {
                n
            } else {
                0
            };
            u.protected_cells = #[verifier::truncate] (m as u32);
            self.outbox.push(SegmentEvent::UserUpsert(u.duplicate()));
            self.users[uid as usize] = Some(u);
        }
        assert(self.events() =~= with_upsert(old(self).events(), self.users@, uid));
        assert(self.users@ =~= adjusted(old(self).users@, uid, delta as int));
    }

    /// Protects a part of the board. The region gets a number of its own.
    pub fn add_region(&mut self, r: StoredRegion) -> (res: Result<u32, AppError>)
        ensures
            res is Ok <==> old(self).admits(r),
            match res {
                Ok(id) => id == old(self).next_rid && old(self).takes_region(r, *final(self)),
                Err(e) => {
                    let area = r.bounds.spec_area();
                    &&& *final(self) == *old(self)
                    &&& if area == 0 {
                        e is BadInput && e.text() == "empty region"@
                    } else if area > MAX_PROTECTED_CELLS {
                        e is Quota && e.text() == "quota: "@ + ("too large ("@ + dec(area as nat)
                            + " cells, max 256)"@)
                    } else {
                        e is Quota && e.text() == "quota: "@ + ("quota: "@ + dec(
                            protected_by(old(self).users@, r.owner_id) as nat,
                        ) + "/256 cells used"@)
                    }
                },
            },
            old(self).within_quota() ==> final(self).within_quota(),
    {
        broadcast use group_hash_axioms;

        let area: u64 = r.bounds.area();
        if area == 0 {
            return Err(AppError::BadInput("empty region".to_string()));
        }
        if area > MAX_PROTECTED_CELLS && r.owner_id != 0 {
            let mut s = "too large (".to_string();
            push_dec(&mut s, area);
            s.append(" cells, max 256)");
            return Err(AppError::Quota(s));
        }
        let used: u64 = match self.get_user_by_id(r.owner_id) {
            Some(u) => u.protected_cells as u64,
            None => 0,
        };
        if used + area > MAX_PROTECTED_CELLS && r.owner_id != 0 {
            let mut s = "quota: ".to_string();
            push_dec(&mut s, used);
            s.append("/256 cells used");
            return Err(AppError::Quota(s));
        }
        let id: u32 = self.next_rid;
        self.next_rid = if id == u32::MAX {
            0
        } else {
            id + 1
        };
        let owner: u32 = r.owner_id;
        let saved = StoredRegion { id, bounds: r.bounds, label: r.label, owner_id: owner };
        self.regions.insert(id, saved.duplicate());
        self.adjust_cells(owner, area as i64);
        let ghost log = self.events();
        self.outbox.push(SegmentEvent::RegionUpsert(saved));
        assert(self.events() =~= log.push(EventView::RegionUpsert(saved)));
        proof {
            if old(self).within_quota() {
                lemma_quota_kept(old(self).users@, owner, area as int);
            }
        }
        Ok(id)
    }

    /// Gives up the protection of region `id`, if it belongs to whoever asks.
    pub fn remove_region(&mut self, id: u32, requester_uid: u32) -> (res: Result<bool, AppError>)
        ensures
            res is Ok,
            res->Ok_0 == (old(self).regions@.contains_key(id) && old(self).regions@[id].owner_id
                == requester_uid),
            !res->Ok_0 ==> *final(self) == *old(self),
            res->Ok_0 ==> old(self).releases_region(id, *final(self)),
            old(self).within_quota() ==> final(self).within_quota(),
    {
        broadcast use group_hash_axioms;

        let area: u64 = match self.regions.get(&id) {
            Some(r) => {
                if r.owner_id != requester_uid {
                    return Ok(false);
                }
                r.bounds.area()
            },
            None => {
                return Ok(false);
            },
        };
        self.regions.remove(&id);
        self.adjust_cells(requester_uid, -(area as i64));
        let ghost log = self.events();
        self.outbox.push(SegmentEvent::RegionRemove(id));
        assert(self.events() =~= log.push(EventView::RegionRemove(id)));
        proof {
            if old(self).within_quota() {
                lemma_quota_kept(old(self).users@, requester_uid, -(area as int));
            }
        }
        Ok(true)
    }
}

proof fn lemma_quota_kept(users: Seq<Option<UserAccount>>, uid: u32, delta: int)
    requires
        uid == 0 || protected_by(users, uid) + delta <= MAX_PROTECTED_CELLS || delta <= 0,
        forall|u: u32| u != 0 ==> #[trigger] protected_by(users, u) <= MAX_PROTECTED_CELLS,
    ensures
        forall|u: u32|
            u != 0 ==> #[trigger] protected_by(adjusted(users, uid, delta), u)
                <= MAX_PROTECTED_CELLS,
{
    assert forall|u: u32| u != 0 implies #[trigger] protected_by(adjusted(users, uid, delta), u)
        <= MAX_PROTECTED_CELLS by {
        assert(protected_by(users, u) <= MAX_PROTECTED_CELLS);
    }
}

/// Giving up a region frees the cells that protecting it took.
pub proof fn law_release_undoes_protection(
    users: Seq<Option<UserAccount>>,
    uid: u32,
    area: int,
)
    requires
        0 <= area,
        protected_by(users, uid) + area <= u32::MAX,
    ensures
        adjusted(adjusted(users, uid, area), uid, -area) == users,
{
    assert(adjusted(adjusted(users, uid, area), uid, -area) =~= users);
}

} // verus!
