//! What holds of those who come, log in and log out.

use vstd::prelude::*;
use vstd::utf8::encode_utf8;

use crate::auth::password_hash;
use crate::error::AppError;
use crate::model::UserAccount;
use crate::msg::{ClientMsg, ServerMsg};
use crate::protocol::Moment;
use crate::session::{Identity, Outgoing, Session};
use crate::state::AppState;
use crate::text::{dec, trim};

verus! {

/// The session is answered that it is not logged in, and why.
pub open spec fn turned_away(out: Seq<Outgoing>, why: Seq<char>) -> bool {
    &&& out.len() == 1
    &&& out[0] matches Outgoing::Back(ServerMsg::AuthFail { reason }) && reason@ == why
}

/// The session is answered that it is logged in.
pub open spec fn let_in(out: Seq<Outgoing>, name: Seq<char>, cells: u32) -> bool {
    &&& out.len() == 1
    &&& out[0] matches Outgoing::Back(ServerMsg::AuthOk { username, protected_cells })
        && username@ == name && protected_cells == cells
}

/// There is an account of that name.
pub open spec fn is_taken(state: AppState, name: Seq<char>) -> bool {
    &&& state.name_to_id@.contains_key(name)
    &&& state.name_to_id@[name] < state.users@.len()
    &&& state.users@[state.name_to_id@[name] as int] is Some
}

/// The account of that name.
pub open spec fn taken_by(state: AppState, name: Seq<char>) -> UserAccount {
    state.users@[state.name_to_id@[name] as int]->0
}

/// Five logins or more have failed from the address, and the minute is not over.
pub open spec fn has_to_wait(state: AppState, ip: Seq<char>, now: u64) -> bool {
    &&& state.login_throttle@.contains_key(ip)
    &&& state.login_throttle@[ip].0 >= 5
    &&& now < state.login_throttle@[ip].1
}

/// The name and the password can be used, and the address need not wait.
pub open spec fn may_try(
    state: AppState,
    ip: Seq<char>,
    name: Seq<char>,
    password: Seq<char>,
    now: u64,
) -> bool {
    &&& 2 <= encode_utf8(name).len() <= 24
    &&& 4 <= encode_utf8(password).len()
    &&& !has_to_wait(state, ip, now)
}

/// The failure is counted for the address, and for no other; from the fifth on,
/// the address has to wait for a minute.
pub open spec fn counts_failure(
    before: AppState,
    after: AppState,
    ip: Seq<char>,
    now: u64,
) -> bool {
    let had = if before.login_throttle@.contains_key(ip) {
        before.login_throttle@[ip].0 as int
    } else {
        0
    };
    &&& after.login_throttle@.contains_key(ip)
    &&& had < u32::MAX ==> after.login_throttle@[ip].0 == had + 1
    &&& had >= 4 && now + 60 <= u64::MAX ==> after.login_throttle@[ip].1 == now + 60
    &&& had < 4 && before.login_throttle@.contains_key(ip) ==> after.login_throttle@[ip].1
        == before.login_throttle@[ip].1
    &&& forall|other: Seq<char>|
        other != ip ==> (#[trigger] after.login_throttle@.contains_key(other)
            == before.login_throttle@.contains_key(other) && after.login_throttle@[other]
            == before.login_throttle@[other])
    &&& after.sessions@ == before.sessions@
    &&& after.users@ == before.users@
    &&& after.name_to_id@ == before.name_to_id@
    &&& after.connections@ == before.connections@
}

/// The session belongs to the account: it is known under its token, the
/// connection under the name, and failures from the address are forgotten. No
/// other session, connection or address is affected.
pub open spec fn belongs_to(
    before: AppState,
    after: AppState,
    s: Session,
    uid: u32,
    name: Seq<char>,
) -> bool {
    &&& after.sessions@.contains_key(s.token@)
    &&& after.sessions@[s.token@] == uid
    &&& forall|t: Seq<char>|
        t != s.token@ ==> (#[trigger] after.sessions@.contains_key(t)
            == before.sessions@.contains_key(t) && after.sessions@[t] == before.sessions@[t])
    &&& !after.login_throttle@.contains_key(s.ip@)
    &&& before.connections@.contains_key(s.conn_id) ==> {
        let c = after.connections@[s.conn_id];
        &&& after.connections@.contains_key(s.conn_id)
        &&& c.user_id == uid
        &&& c.name@ == name
        &&& c.viewport == before.connections@[s.conn_id].viewport
        &&& c.cursor == before.connections@[s.conn_id].cursor
    }
    &&& forall|id: u64|
        id != s.conn_id ==> (#[trigger] after.connections@.contains_key(id)
            == before.connections@.contains_key(id) && after.connections@[id]
            == before.connections@[id])
}

/// Logging in needs a name of 2 to 24 bytes and a password of at least 4, from an
/// address that need not wait. A name that somebody has registered needs their
/// password, and the session is theirs then; under a name that nobody has, who is
/// anonymous is registered. Whoever is turned away is told why, and is who they
/// were.
pub proof fn law_login_needs_name_and_password(
    before: AppState,
    s: Session,
    username: String,
    password: String,
    at: Moment,
    out: Seq<Outgoing>,
    s2: Session,
    after: AppState,
)
    requires
        before.handles(s, ClientMsg::Login { username, password }, at, out, s2, after),
    ensures
        ({
            let name = trim(username@);
            let acc = taken_by(before, name);
            let right = !acc.is_anonymous && (acc.password_hash is None || acc.password_hash->0@
                == password_hash(name, password@));
            let n = encode_utf8(name).len();
            let tries = may_try(before, s.ip@, name, password@, at.now);
            &&& after.world@ == before.world@
            &&& after.regions@ == before.regions@
            &&& n < 2 || n > 24 ==> turned_away(out, "username: 2\u{2013}24 chars"@)
            &&& 2 <= n <= 24 && encode_utf8(password@).len() < 4 ==> turned_away(
                out,
                "password: min 4 chars"@,
            )
            &&& !tries ==> after == before && s2 == s && out.len() == 1
            &&& !tries && 2 <= n <= 24 && encode_utf8(password@).len() >= 4 ==> turned_away(
                out,
                "too many attempts! try again in "@ + dec(
                    (before.login_throttle@[s.ip@].1 - at.now) as nat,
                ) + "s"@,
            )
            &&& tries && is_taken(before, name) && !right ==> {
                &&& turned_away(out, "invalid credentials"@)
                &&& s2 == s
                &&& counts_failure(before, after, s.ip@, at.now)
            }
            &&& tries && is_taken(before, name) && right ==> {
                &&& let_in(out, name, acc.protected_cells)
                &&& s2.user_id == acc.user_id
                &&& !s2.is_anon
                &&& s2.home_anon == s.home_anon
                &&& s2.token == s.token && s2.conn_id == s.conn_id && s2.ip == s.ip
                &&& belongs_to(before, after, s, acc.user_id, name)
                &&& after.name_to_id@ == before.name_to_id@
                &&& acc.password_hash is Some ==> after.users@ == before.users@
                &&& acc.password_hash is None && acc.user_id < before.users@.len()
                    && before.users@[acc.user_id as int] is Some ==> {
                    let u = after.users@[acc.user_id as int];
                    &&& u is Some
                    &&& u->0.password_hash is Some
                    &&& u->0.password_hash->0@ == password_hash(name, password@)
                }
            }
            &&& tries && !is_taken(before, name) && !s.is_anon ==> {
                &&& turned_away(out, "Invalid login attempt"@)
                &&& s2 == s
                &&& counts_failure(before, after, s.ip@, at.now)
            }
            &&& tries && !is_taken(before, name) && s.is_anon && is_taken(before, s.anon_name@)
                && taken_by(before, s.anon_name@).is_anonymous && taken_by(
                before,
                s.anon_name@,
            ).user_id < before.users@.len() ==> {
                let old = taken_by(before, s.anon_name@);
                let new = after.users@[old.user_id as int];
                &&& let_in(out, name, old.protected_cells)
                &&& s2.user_id == old.user_id
                &&& !s2.is_anon
                &&& s2.home_anon is None
                &&& belongs_to(before, after, s, old.user_id, name)
                &&& is_taken(after, name) && taken_by(after, name) == new->0
                &&& new is Some
                &&& new->0.user_id == old.user_id
                &&& new->0.username@ == name
                &&& !new->0.is_anonymous
                &&& new->0.original_anon_name == old.original_anon_name
                &&& new->0.protected_cells == old.protected_cells
                &&& new->0.password_hash is Some
                &&& new->0.password_hash->0@ == password_hash(name, password@)
                &&& after.users@.len() == before.users@.len()
                &&& forall|u: int|
                    0 <= u < before.users@.len() && u != old.user_id ==> #[trigger] after.users@[u]
                        == before.users@[u]
            }
        }),
{
    let name = trim(username@);
    let m = out[0]->Back_0;
    if may_try(before, s.ip@, name, password@, at.now) {
        if is_taken(before, name) {
            let acc = taken_by(before, name);
            assert(before.account_named(name) == Some(acc));
            if before.opens(name, password@) {
                let (mid, open) = choose|mid: AppState, open: AppState|
                    {
                        &&& #[trigger] before.verifies(name, password@, mid)
                        &&& open == (AppState { sessions: open.sessions, ..mid })
                        &&& open.sessions@ == mid.sessions@.insert(s.token@, acc.user_id)
                        &&& #[trigger] open.notes_login(s, acc.user_id, name, after)
                    };
                assert(mid.sessions@ == before.sessions@);
                assert(mid.connections@ == before.connections@);
            }
        } else {
            assert(before.account_named(name) is None);
            if s.is_anon {
                let (r, mid) = choose|r: Result<UserAccount, AppError>, mid: AppState|
                    {
                        &&& #[trigger] before.upgrades(
                            s.anon_name@,
                            name,
                            password@,
                            s.token@,
                            r,
                            mid,
                        )
                        &&& match r {
                            Ok(acc) => {
                                &&& mid.notes_login(s, acc.user_id, name, after)
                                &&& s2 == crate::login::logged_in(s, acc.user_id, true)
                                &&& crate::session::says_auth_ok(m, name, acc.protected_cells)
                            },
                            Err(e) => {
                                &&& mid.notes_failure(s, at.now, after)
                                &&& s2 == s
                                &&& crate::session::says_auth_fail(m, e.text())
                            },
                        }
                    };
                if is_taken(before, s.anon_name@) {
                    assert(before.account_named(s.anon_name@) == Some(
                        taken_by(before, s.anon_name@),
                    ));
                }
            }
        }
    }
}

/// Logging out leads back to the anonymous account that one came with, or to a
/// new one; the session is that account's then, and one is told so. Who is
/// anonymous cannot log out.
pub proof fn law_logout_leads_back(
    before: AppState,
    s: Session,
    at: Moment,
    out: Seq<Outgoing>,
    s2: Session,
    after: AppState,
    t: Seq<char>,
)
    requires
        before.handles(s, ClientMsg::Logout, at, out, s2, after),
    ensures
        s.is_anon ==> after == before && s2 == s && out.len() == 0,
        !s.is_anon ==> {
            &&& s2.is_anon
            &&& s2.home_anon is Some
            &&& s2.user_id == (s2.home_anon->0).1
            &&& s.home_anon is Some ==> s2.home_anon == s.home_anon && after.users@ == before.users@
                && after.next_uid == before.next_uid
            &&& s.home_anon is None ==> s2.user_id == before.next_uid && after.next_uid
                == before.next_uid + 1 && (s2.home_anon->0).0@ == "anonymous#"@ + dec(
                s2.user_id as nat,
            )
            &&& s2.token == s.token && s2.conn_id == s.conn_id
            &&& after.sessions@.contains_key(s.token@)
            &&& after.sessions@[s.token@] == s2.user_id
            &&& t != s.token@ && (s.home_anon is Some || t != at.token@)
                ==> after.sessions@.contains_key(t) == before.sessions@.contains_key(t)
                && after.sessions@[t] == before.sessions@[t]
            &&& after.world@ == before.world@
            &&& after.regions@ == before.regions@
            &&& before.connections@.contains_key(s.conn_id)
                ==> after.connections@[s.conn_id].user_id == s2.user_id
                && after.connections@[s.conn_id].name@ == (s2.home_anon->0).0@
            &&& out.len() == 1
            &&& out[0] matches Outgoing::Back(
                ServerMsg::Welcome { author_id, author, anon_name, session_token },
            ) && author_id == s2.user_id && author@ == (s2.home_anon->0).0@ && anon_name@
                == author@ && session_token@ == s.token@
        },
{
    let m = choose|m: Option<ServerMsg>|
        {
            &&& #[trigger] before.logs_out(s, at.token@, m, s2, after)
            &&& match m {
                Some(w) => out == seq![Outgoing::Back(w)],
                None => out.len() == 0,
            }
        };
    if !s.is_anon {
        let (mid, open) = choose|mid: AppState, open: AppState|
            {
                &&& match s.home_anon {
                    Some(h) => mid == before && s2.home_anon->0 == h,
                    None => exists|r: (String, u32, String)| #[trigger]
                        before.opens_session(at.token@, r, mid) && (s2.home_anon->0).0@ == r.0@
                            && (s2.home_anon->0).1 == r.1,
                }
                &&& #[trigger] mid.binds(s.token@, s2.user_id, open)
                &&& crate::session::renamed(
                    open.connections@,
                    s.conn_id,
                    s2.user_id,
                    (s2.home_anon->0).0@,
                    after.connections@,
                )
                &&& after == (AppState { connections: after.connections, ..open })
            };
        if s.home_anon is None {
            let r = choose|r: (String, u32, String)| #[trigger]
                before.opens_session(at.token@, r, mid) && (s2.home_anon->0).0@ == r.0@ && (
                s2.home_anon->0).1 == r.1;
            assert(mid.sessions@ == before.sessions@.insert(at.token@, r.1));
        }
    }
}

/// Who logs in and out again is who they were before, unless they have just
/// registered.
pub proof fn law_logging_in_and_out_changes_nobody(
    before: AppState,
    s: Session,
    username: String,
    password: String,
    at: Moment,
    out: Seq<Outgoing>,
    s2: Session,
    mid: AppState,
    later: Moment,
    out2: Seq<Outgoing>,
    s3: Session,
    after: AppState,
)
    requires
        before.handles(s, ClientMsg::Login { username, password }, at, out, s2, mid),
        mid.handles(s2, ClientMsg::Logout, later, out2, s3, after),
        s.is_anon,
        s.home_anon is Some,
        (s.home_anon->0).1 == s.user_id,
        is_taken(before, trim(username@)),
    ensures
        s3.user_id == s.user_id,
        s3.is_anon,
        s3.home_anon == s.home_anon,
        s3.token == s.token,
{
    law_login_needs_name_and_password(before, s, username, password, at, out, s2, mid);
    law_logout_leads_back(mid, s2, later, out2, s3, after, Seq::empty());
}

/// Who comes with a token that the server knows is the account of that token.
/// Who comes without one gets the next number, the name that goes with it, an
/// account of their own, and the fresh token to come back with; everybody else's
/// accounts and tokens stay as they are.
pub proof fn law_newcomers_get_an_account_of_their_own(
    before: AppState,
    token: Option<Seq<char>>,
    fresh: Seq<char>,
    who: Identity,
    after: AppState,
    u: int,
    t: Seq<char>,
)
    requires
        before.identifies(token, fresh, who, after),
    ensures
        after.world@ == before.world@,
        after.connections@ == before.connections@,
        token is Some && before.sessions@.contains_key(token->0) ==> after == before && who.uid
            == before.sessions@[token->0] && who.token@ == token->0,
        !(token is Some && before.sessions@.contains_key(token->0)) ==> {
            &&& who.uid == before.next_uid
            &&& who.is_anon
            &&& who.token@ == fresh
            &&& who.name@ == "anonymous#"@ + dec(before.next_uid as nat)
            &&& who.anon_name@ == who.name@
            &&& after.next_uid == before.next_uid + 1
            &&& after.sessions@.contains_key(fresh) && after.sessions@[fresh] == who.uid
            &&& is_taken(after, who.name@)
            &&& ({
                let acc = taken_by(after, who.name@);
                &&& acc.user_id == who.uid
                &&& acc.username@ == who.name@
                &&& acc.is_anonymous
                &&& acc.password_hash is None
                &&& acc.protected_cells == 0
                &&& acc.session_token@ == fresh
            })
            &&& 0 <= u < before.users@.len() && u != who.uid ==> after.users@[u] == before.users@[u]
            &&& t != fresh ==> after.sessions@.contains_key(t) == before.sessions@.contains_key(t)
                && after.sessions@[t] == before.sessions@[t]
        },
{
    if !(token is Some && before.sessions@.contains_key(token->0)) {
        let r = choose|r: (String, u32, String)| #[trigger]
            before.opens_session(fresh, r, after) && who.name == r.0 && who.uid == r.1
                && who.anon_name == r.0 && who.token == r.2;
        assert(after.name_to_id@.contains_key(r.0@));
    }
}

} // verus!
