//! What holds of those who protect a part of the board.

use vstd::prelude::*;

use crate::coords::WorldRect;
use crate::model::{StoredRegion, UserAccount};
use crate::msg::{ClientMsg, ServerMsg};
use crate::protocol::Moment;
use crate::session::{Outgoing, Session};
use crate::state::AppState;

verus! {

/// Number of cells that account `uid` protects, by its own record.
pub open spec fn used_by(users: Seq<Option<UserAccount>>, uid: u32) -> int {
    if uid < users.len() && users[uid as int] is Some {
        users[uid as int]->0.protected_cells as int
    } else {
        0
    }
}

/// Number of cells from the one corner to the other; none where they stand the
/// wrong way round.
pub open spec fn cells_between(r: WorldRect) -> int {
    if r.a.x <= r.b.x && r.a.y <= r.b.y {
        (r.b.x - r.a.x + 1) * (r.b.y - r.a.y + 1)
    } else {
        0
    }
}

/// Of two lists of accounts, the second has `delta` more protected cells for
/// account `uid`, if there is one, and differs in nothing else.
pub open spec fn charged(
    users: Seq<Option<UserAccount>>,
    after: Seq<Option<UserAccount>>,
    uid: u32,
    delta: int,
) -> bool {
    &&& after.len() == users.len()
    &&& forall|i: int| 0 <= i < users.len() && i != uid ==> #[trigger] after[i] == users[i]
    &&& uid < users.len() && users[uid as int] is None ==> after[uid as int] is None
    &&& uid < users.len() && users[uid as int] is Some ==> {
        let (u, v) = (users[uid as int]->0, after[uid as int]->0);
        &&& after[uid as int] is Some
        &&& v.protected_cells == u.protected_cells + delta
        &&& v.user_id == u.user_id
        &&& v.username == u.username
        &&& v.original_anon_name == u.original_anon_name
        &&& v.session_token == u.session_token
        &&& v.password_hash == u.password_hash
        &&& v.is_anonymous == u.is_anonymous
    }
}

proof fn lemma_cells_between(r: WorldRect)
    ensures
        cells_between(r) == r.spec_area(),
        r.spec_area() > 0 <==> r.a.x <= r.b.x && r.a.y <= r.b.y,
        0 <= cells_between(r) <= 0x1_0000_0000,
{
    let w = r.b.x - r.a.x + 1;
    let h = r.b.y - r.a.y + 1;
    if w > 0 && h > 0 {
        assert(0 < w * h <= 0x1_0000_0000) by (nonlinear_arith)
            requires
                0 < w <= 0x1_0000,
                0 < h <= 0x1_0000,
        ;
    } else {
        assert(r.spec_width() * r.spec_height() == 0) by (nonlinear_arith)
            requires
                r.spec_width() == 0 || r.spec_height() == 0,
        ;
    }
}

/// A part of the board can be protected by whoever is logged in, if it has a cell
/// and they protect no more than 256 then; the system may protect more. The new
/// region has the corners, the label, cut after 32 characters, and the owner that
/// were asked for; everybody is told of it, and its cells are counted. Nothing
/// else changes. Who is not logged in is told to do so first.
pub proof fn law_region_is_protected_as_asked(
    before: AppState,
    s: Session,
    bounds: WorldRect,
    label: String,
    at: Moment,
    out: Seq<Outgoing>,
    s2: Session,
    after: AppState,
    other: u32,
)
    requires
        before.handles(s, ClientMsg::AddRegion { bounds, label }, at, out, s2, after),
    ensures
        s2 == s,
        after.world@ == before.world@,
        s.is_anon ==> {
            &&& after == before
            &&& out.len() == 1
            &&& out[0] matches Outgoing::Back(ServerMsg::AuthFail { reason }) && reason@
                == "login required"@
        },
        !s.is_anon ==> {
            let area = cells_between(bounds);
            let fits = area > 0 && (s.user_id == 0 || used_by(before.users@, s.user_id) + area
                <= 256);
            let id = before.next_rid;
            let r = after.regions@[id];
            &&& !fits ==> after == before && out.len() == 0
            &&& fits ==> {
                &&& after.regions@.contains_key(id)
                &&& r.id == id
                &&& r.bounds == bounds
                &&& r.owner_id == s.user_id
                &&& r.label@ == (if label@.len() <= 32 {
                    label@
                } else {
                    label@.take(32)
                })
                &&& other != id ==> after.regions@.contains_key(other)
                    == before.regions@.contains_key(other) && after.regions@[other]
                    == before.regions@[other]
                &&& used_by(before.users@, s.user_id) + area <= u32::MAX ==> charged(
                    before.users@,
                    after.users@,
                    s.user_id,
                    area,
                )
                &&& out.len() == 1
                &&& out[0] matches Outgoing::All(ServerMsg::RegionAdded(rec)) && rec.id == id
                    && rec.bounds == bounds && rec.label@ == r.label@ && rec.owner_id == s.user_id
                    && rec.owner@ == after.name_of(s.user_id)
            }
        },
{
    lemma_cells_between(bounds);
    if !s.is_anon {
        let r = choose|r: StoredRegion|
            {
                &&& #[trigger] AppState::asks_for(bounds, label@, s.user_id, r)
                &&& before.admits(r) ==> before.takes_region(r, after)
                &&& !before.admits(r) ==> after == before && out.len() == 0
            };
        assert(r.bounds == bounds);
    }
}

/// A region can be given up by its owner, and by nobody else. It is gone then,
/// everybody is told so, and its cells can be protected again. Nothing else
/// changes.
pub proof fn law_region_is_given_up_by_its_owner(
    before: AppState,
    s: Session,
    id: u32,
    at: Moment,
    out: Seq<Outgoing>,
    s2: Session,
    after: AppState,
    other: u32,
)
    requires
        before.handles(s, ClientMsg::RemoveRegion { id }, at, out, s2, after),
    ensures
        s2 == s,
        after.world@ == before.world@,
        !(before.regions@.contains_key(id) && before.regions@[id].owner_id == s.user_id) ==> after
            == before && out.len() == 0,
        before.regions@.contains_key(id) && before.regions@[id].owner_id == s.user_id ==> {
            let area = cells_between(before.regions@[id].bounds);
            &&& !after.regions@.contains_key(id)
            &&& other != id ==> after.regions@.contains_key(other) == before.regions@.contains_key(
                other,
            ) && after.regions@[other] == before.regions@[other]
            &&& used_by(before.users@, s.user_id) >= area ==> charged(
                before.users@,
                after.users@,
                s.user_id,
                -area,
            )
            &&& out.len() == 1
            &&& out[0] matches Outgoing::All(ServerMsg::RegionRemoved { id: gone }) && gone == id
        },
{
    if before.regions@.contains_key(id) {
        lemma_cells_between(before.regions@[id].bounds);
    }
}

} // verus!
