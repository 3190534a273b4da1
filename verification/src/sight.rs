//! What holds of those who look at the board together: each is told of what lies
//! in their view, and of nothing else.

use vstd::prelude::*;

use crate::color::Rgb;
use crate::coords::{WorldCoords, WorldRect};
use crate::holding::used_by;
use crate::msg::{ClientMsg, OnlineUser, ServerMsg};
use crate::protocol::{saw, says_cursor, sends_to, tells_online_as, Moment};
use crate::serving::within;
use crate::session::{
    delivers, ids_of, is_displaced, says_left, sees, Arrival, Identity, Outgoing, Session,
};
use crate::state::{AppState, ConnInfo};

verus! {

/// The place lies in what the connection shows. One that has not said what it
/// shows is taken to show everything.
pub open spec fn in_view(c: ConnInfo, p: WorldCoords) -> bool {
    c.viewport is None || within(c.viewport->0, p)
}

/// The connection is told where somebody's cursor is.
pub open spec fn told_cursor(
    o: Outgoing,
    id: u64,
    user_id: u32,
    name: Seq<char>,
    pos: WorldCoords,
    color: Rgb,
) -> bool {
    o matches Outgoing::To(to, ServerMsg::CursorUpdate { user_id: u, name: n, pos: p, color: c })
        && to == id && u == user_id && n@ == name && p == pos && c == color
}

/// The connection is told that somebody's cursor has left.
pub open spec fn told_left(o: Outgoing, id: u64, user_id: u32) -> bool {
    o matches Outgoing::To(to, ServerMsg::CursorLeft { user_id: u }) && to == id && u == user_id
}

/// Whoever has the new place of a cursor in view is told of it; whoever had the
/// old one in view, and has not the new one, is told that it has left; nobody
/// else is told anything, nor is whoever moved it.
pub proof fn law_cursor_is_told_to_those_who_see_it(
    before: AppState,
    s: Session,
    pos: WorldCoords,
    color: Rgb,
    at: Moment,
    out: Seq<Outgoing>,
    s2: Session,
    after: AppState,
    id: u64,
)
    requires
        before.handles(s, ClientMsg::UpdateCursor { pos, color }, at, out, s2, after),
        before.connections@.contains_key(id),
    ensures
        s2 == s,
        after.world@ == before.world@,
        after.connections@.contains_key(id),
        id == s.conn_id ==> {
            let c = after.connections@[id];
            &&& c.cursor == Some(pos)
            &&& c.color == color
            &&& c.viewport == before.connections@[id].viewport
            &&& c.user_id == before.connections@[id].user_id
            &&& c.name == before.connections@[id].name
            &&& forall|i: int|
                0 <= i < out.len() ==> !((#[trigger] out[i]) is To && out[i]->To_0 == id)
        },
        id != s.conn_id ==> {
            let c = before.connections@[id];
            let had = before.connections@.contains_key(s.conn_id)
                && before.connections@[s.conn_id].cursor is Some && in_view(
                c,
                before.connections@[s.conn_id].cursor->0,
            );
            &&& after.connections@[id] == c
            &&& in_view(c, pos) ==> exists|i: int|
                0 <= i < out.len() && told_cursor(
                    #[trigger] out[i],
                    id,
                    s.user_id,
                    before.name_of(s.user_id),
                    pos,
                    color,
                )
            &&& !in_view(c, pos) && had ==> exists|i: int|
                0 <= i < out.len() && told_left(#[trigger] out[i], id, s.user_id)
            &&& !in_view(c, pos) && !had ==> forall|i: int|
                0 <= i < out.len() ==> !((#[trigger] out[i]) is To && out[i]->To_0 == id)
        },
        forall|i: int| 0 <= i < out.len() ==> (#[trigger] out[i]) is To,
        forall|i: int, j: int|
            0 <= i < j < out.len() ==> (#[trigger] out[i])->To_0 != (#[trigger] out[j])->To_0,
{
    let old = before.old_cursor(s.conn_id);
    let want = |i: u64, c: ConnInfo| i != s.conn_id && (sees(c, pos) || saw(c, old));
    let says = |c: ConnInfo, m: ServerMsg|
        if sees(c, pos) {
            says_cursor(m, s.user_id, before.name_of(s.user_id), pos, color)
        } else {
            says_left(m, s.user_id)
        };
    let notes = choose|notes: Seq<(u64, ServerMsg)>|
        {
            &&& #[trigger] sends_to(out, notes)
            &&& delivers(notes, after.connections@, want, says)
        };
    assert forall|i: int| 0 <= i < out.len() implies (#[trigger] out[i]) is To && out[i]->To_0
        == notes[i].0 && out[i]->To_1 == notes[i].1 by {}
    let c = after.connections@[id];
    if id != s.conn_id && want(id, c) {
        assert(after.connections@.contains_key(id));
        let i = choose|i: int| 0 <= i < notes.len() && (#[trigger] notes[i]).0 == id;
        assert(out[i] == Outgoing::To(notes[i].0, notes[i].1));
        assert(says(c, notes[i].1));
    }
    assert forall|i: int| 0 <= i < out.len() && out[i]->To_0 == id implies want(id, c) by {
        assert(notes[i].0 == id);
    }
}

/// `o` tells of the person at the connection.
pub open spec fn lists(o: OnlineUser, c: ConnInfo) -> bool {
    o.user_id == c.user_id && o.name@ == c.name@ && o.color == c.color && o.pos == c.cursor
}

/// Whoever says what they show is known to show that, and is told of everybody
/// else who is there, each once: name, color and place.
pub proof fn law_view_is_noted_and_answered(
    before: AppState,
    s: Session,
    rect: WorldRect,
    at: Moment,
    out: Seq<Outgoing>,
    s2: Session,
    after: AppState,
    id: u64,
)
    requires
        before.handles(s, ClientMsg::UpdateViewport(rect), at, out, s2, after),
        before.connections@.contains_key(id),
    ensures
        s2 == s,
        after.world@ == before.world@,
        after.connections@.contains_key(id),
        id == s.conn_id ==> {
            let c = after.connections@[id];
            &&& c.viewport == Some(rect)
            &&& c.cursor == before.connections@[id].cursor
            &&& c.color == before.connections@[id].color
            &&& c.user_id == before.connections@[id].user_id
            &&& c.name == before.connections@[id].name
        },
        out.len() == 1,
        out[0] matches Outgoing::Back(ServerMsg::OnlineList { users }) && {
            &&& id != s.conn_id ==> after.connections@[id] == before.connections@[id] && exists|
                i: int,
            |
                0 <= i < users@.len() && lists(#[trigger] users@[i], before.connections@[id])
            &&& exists|ids: Seq<u64>|
                {
                    &&& #[trigger] ids.no_duplicates()
                    &&& ids.len() == users@.len()
                    &&& forall|i: int|
                        0 <= i < ids.len() ==> {
                            &&& before.connections@.contains_key(#[trigger] ids[i])
                            &&& ids[i] != s.conn_id
                            &&& lists(users@[i], before.connections@[ids[i]])
                        }
                }
        },
{
    let users = out[0]->Back_0->OnlineList_users;
    let ids = choose|ids: Seq<u64>| #[trigger]
        tells_online_as(users@, after.connections@, s.conn_id, ids);
    assert forall|i: int| 0 <= i < ids.len() implies {
        &&& before.connections@.contains_key(#[trigger] ids[i])
        &&& ids[i] != s.conn_id
        &&& lists(users@[i], before.connections@[ids[i]])
    } by {
        assert(ids.contains(ids[i]));
    }
    if id != s.conn_id {
        assert(ids.contains(id));
        let i = choose|i: int| 0 <= i < ids.len() && ids[i] == id;
        assert(lists(users@[i], before.connections@[id]));
    }
}

/// Whoever connects is there, showing everything and pointing nowhere; older
/// connections of the same account are gone, and all the others stay as they
/// were. Whoever had the cursor of an older connection in view is told that it
/// has left.
pub proof fn law_newcomer_takes_the_place_of_their_older_self(
    before: AppState,
    conn_id: u64,
    who: Identity,
    a: Arrival,
    after: AppState,
    id: u64,
    k: int,
    other: u64,
)
    requires
        before.admits_client(conn_id, who, a, after),
    ensures
        after.world@ == before.world@,
        after.connections@.contains_key(conn_id),
        after.connections@[conn_id].viewport is None,
        after.connections@[conn_id].cursor is None,
        after.connections@[conn_id].user_id == who.uid,
        after.connections@[conn_id].name@ == who.name@,
        a.session.conn_id == conn_id,
        a.session.user_id == who.uid,
        a.session.is_anon == who.is_anon,
        id != conn_id ==> {
            let stays = before.connections@.contains_key(id) && before.connections@[id].user_id
                != who.uid;
            &&& after.connections@.contains_key(id) <==> stays
            &&& stays ==> after.connections@[id] == before.connections@[id]
            &&& (exists|j: int| 0 <= j < a.displaced@.len() && (#[trigger] a.displaced@[j]).0 == id)
                <==> before.connections@.contains_key(id) && before.connections@[id].user_id
                == who.uid
        },
        0 <= k < a.displaced@.len() ==> {
            let gone = before.connections@[a.displaced@[k].0];
            let notes = a.displaced@[k].1@;
            &&& forall|i: int|
                0 <= i < notes.len() ==> (#[trigger] notes[i]).1 is CursorLeft
                    && notes[i].1->CursorLeft_user_id == gone.user_id
            &&& after.connections@.contains_key(other) && gone.cursor is Some && in_view(
                after.connections@[other],
                gone.cursor->0,
            ) ==> exists|i: int| 0 <= i < notes.len() && (#[trigger] notes[i]).0 == other
            &&& after.connections@.contains_key(other) && (gone.cursor is None || !in_view(
                after.connections@[other],
                gone.cursor->0,
            )) ==> forall|i: int| 0 <= i < notes.len() ==> (#[trigger] notes[i]).0 != other
        },
        a.greeting@.len() >= 2,
        a.greeting@[0] matches ServerMsg::Welcome { author_id, author, anon_name, session_token }
            && author_id == who.uid && author@ == who.name@ && anon_name@ == who.anon_name@
            && session_token@ == who.token@,
        !who.is_anon ==> a.greeting@.len() == 3 && (a.greeting@[1] matches ServerMsg::AuthOk {
            username,
            protected_cells,
        } && username@ == who.name@ && protected_cells == used_by(before.users@, who.uid)),
        a.greeting@.last() is RegionData,
{
    let gone = ids_of(a.displaced@);
    let with_new = before.connections@.insert(conn_id, after.connections@[conn_id]);
    assert(!is_displaced(with_new, conn_id, who.uid, conn_id));
    if id != conn_id {
        assert(gone.contains(id) <==> is_displaced(with_new, conn_id, who.uid, id));
        if gone.contains(id) {
            let j = choose|j: int| 0 <= j < gone.len() && gone[j] == id;
            assert(a.displaced@[j].0 == id);
        }
        if exists|j: int| 0 <= j < a.displaced@.len() && (#[trigger] a.displaced@[j]).0 == id {
            let j = choose|j: int| 0 <= j < a.displaced@.len() && (#[trigger] a.displaced@[j]).0 == id;
            assert(gone[j] == id);
        }
    }
}

} // verus!
