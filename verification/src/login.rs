//! Logging in and out.

use vstd::prelude::*;
use vstd::string::*;
use vstd::utf8::encode_utf8;

use crate::auth::{after_failure, failures, password_hash, throttled};
use crate::error::AppError;
use crate::model::UserAccount;
use crate::msg::ServerMsg;
use crate::session::{renamed, says_auth_fail, says_auth_ok, says_welcome, Session};
use crate::state::AppState;
use crate::text::{dec, trim, trim_of};

verus! {

/// Why a login is refused before the account is looked at, if it is.
pub open spec fn login_fault(
    state: AppState,
    ip: Seq<char>,
    username: Seq<char>,
    password: Seq<char>,
    now: u64,
) -> Option<Seq<char>> {
    let n = encode_utf8(username).len();
    if n < 2 || n > 24 {
        Some("username: 2\u{2013}24 chars"@)
    } else if encode_utf8(password).len() < 4 {
        Some("password: min 4 chars"@)
    } else if throttled(state.login_throttle@, ip, now) {
        Some(
            "too many attempts! try again in "@ + dec(
                (failures(state.login_throttle@, ip).1 - now) as nat,
            ) + "s"@,
        )
    } else {
        None
    }
}

/// The session once it belongs to account `uid`.
pub open spec fn logged_in(s: Session, uid: u32, signup: bool) -> Session {
    Session {
        user_id: uid,
        is_anon: false,
        home_anon: if signup {
            None
        } else {
            s.home_anon
        },
        ..s
    }
}

impl AppState {
    /// `after` is `self` once the login of session `s` to account `uid` under
    /// `name` has been noted.
    pub open spec fn notes_login(self, s: Session, uid: u32, name: Seq<char>, after: AppState) -> bool {
        &&& after.login_throttle@ == self.login_throttle@.remove(s.ip@)
        &&& renamed(self.connections@, s.conn_id, uid, name, after.connections@)
        &&& after == (AppState {
            login_throttle: after.login_throttle,
            connections: after.connections,
            ..self
        })
    }

    /// `after` is `self` once a failed login of session `s` has been noted.
    pub open spec fn notes_failure(self, s: Session, now: u64, after: AppState) -> bool {
        &&& after.login_throttle@ == after_failure(self.login_throttle@, s.ip@, now)
        &&& after == (AppState { login_throttle: after.login_throttle, ..self })
    }

    /// `after` is `self` once session `s`, that becomes `s2`, has tried to log
    /// in to the account that there is, and is answered `m`.
    pub open spec fn logs_in_known(
        self,
        s: Session,
        name: Seq<char>,
        password: Seq<char>,
        now: u64,
        m: ServerMsg,
        s2: Session,
        after: AppState,
    ) -> bool {
        let acc = self.account_named(name)->0;
        if self.opens(name, password) {
            exists|mid: AppState, open: AppState|
                {
                    &&& #[trigger] self.verifies(name, password, mid)
                    &&& open == (AppState { sessions: open.sessions, ..mid })
                    &&& open.sessions@ == mid.sessions@.insert(s.token@, acc.user_id)
                    &&& #[trigger] open.notes_login(s, acc.user_id, name, after)
                    &&& s2 == logged_in(s, acc.user_id, false)
                    &&& says_auth_ok(m, name, acc.protected_cells)
                }
        } else {
            &&& self.notes_failure(s, now, after)
            &&& s2 == s
            &&& says_auth_fail(m, "invalid credentials"@)
        }
    }

    /// `after` is `self` once session `s`, that becomes `s2`, has tried to log
    /// in under a name that nobody has, and is answered `m`: somebody anonymous
    /// takes the name.
    pub open spec fn logs_in_unknown(
        self,
        s: Session,
        name: Seq<char>,
        password: Seq<char>,
        now: u64,
        m: ServerMsg,
        s2: Session,
        after: AppState,
    ) -> bool {
        if s.is_anon {
            exists|r: Result<UserAccount, AppError>, mid: AppState|
                {
                    &&& #[trigger] self.upgrades(s.anon_name@, name, password, s.token@, r, mid)
                    &&& match r {
                        Ok(acc) => {
                            &&& mid.notes_login(s, acc.user_id, name, after)
                            &&& s2 == logged_in(s, acc.user_id, true)
                            &&& says_auth_ok(m, name, acc.protected_cells)
                        },
                        Err(e) => {
                            &&& mid.notes_failure(s, now, after)
                            &&& s2 == s
                            &&& says_auth_fail(m, e.text())
                        },
                    }
                }
        } else {
            &&& self.notes_failure(s, now, after)
            &&& s2 == s
            &&& says_auth_fail(m, "Invalid login attempt"@)
        }
    }

    /// `after` is `self` once session `s`, that becomes `s2`, has tried to log
    /// in, and is answered `m`.
    pub open spec fn logs_in(
        self,
        s: Session,
        username: Seq<char>,
        password: Seq<char>,
        now: u64,
        m: ServerMsg,
        s2: Session,
        after: AppState,
    ) -> bool {
        let name = trim(username);
        match login_fault(self, s.ip@, name, password, now) {
            Some(why) => {
                &&& after == self
                &&& s2 == s
                &&& says_auth_fail(m, why)
            },
            None => if self.account_named(name) is Some {
                self.logs_in_known(s, name, password, now, m, s2, after)
            } else {
                self.logs_in_unknown(s, name, password, now, m, s2, after)
            },
        }
    }

    fn fault_of(&self, ip: &str, username: &str, password: &str, now: u64) -> (r: Option<String>)
        ensures
            match login_fault(*self, ip@, username@, password@, now) {
                Some(why) => r is Some && r->0@ == why,
                None => r is None,
            },
    {
        let n: usize = username.as_bytes().len();
        if n < 2 || n > 24 {
            return Some("username: 2\u{2013}24 chars".to_string());
        }
        if password.as_bytes().len() < 4 {
            return Some("password: min 4 chars".to_string());
        }
        match self.check_rate_limit(ip, now) {
            Ok(_) => None,
            Err(e) => Some(e.to_text()),
        }
    }

    fn note_login(&mut self, s: &Session, uid: u32, name: &String)
        ensures
            old(self).notes_login(*s, uid, name@, *final(self)),
    {
        self.clear_login_throttle(s.ip.as_str());
        self.rename_connection(s.conn_id, uid, name.clone());
    }

    fn note_failure(&mut self, s: &Session, now: u64)
        requires
            failures(old(self).login_throttle@, s.ip@).0 < u32::MAX,
            now + 60 <= u64::MAX,
        ensures
            old(self).notes_failure(*s, now, *final(self)),
    {
        self.record_login_failure(s.ip.as_str(), now);
    }

    fn log_in_known(
        &mut self,
        s: &mut Session,
        name: &String,
        password: &str,
        acc: UserAccount,
        now: u64,
    ) -> (m: ServerMsg)
        requires
            old(self).account_named(name@) == Some(acc),
            failures(old(self).login_throttle@, old(s).ip@).0 < u32::MAX,
            now + 60 <= u64::MAX,
        ensures
            old(self).logs_in_known(*old(s), name@, password@, now, m, *final(s), *final(self)),
    {
        let ghost s0 = *s;
        if self.verify_user(name.as_str(), password) {
            let ghost mid = *self;
            let uid: u32 = acc.user_id;
            self.sessions.insert(s.token.clone(), uid);
            let ghost open = *self;
            self.note_login(s, uid, name);
            s.user_id = uid;
            s.is_anon = false;
            let m = ServerMsg::AuthOk {
                username: name.clone(),
                protected_cells: acc.protected_cells,
            };
            proof {
                assert(old(self).verifies(name@, password@, mid));
                assert(open.notes_login(s0, uid, name@, *self));
                assert(*s == logged_in(s0, uid, false));
            }
            m
        } else {
            self.note_failure(s, now);
            ServerMsg::AuthFail { reason: "invalid credentials".to_string() }
        }
    }

    fn log_in_unknown(
        &mut self,
        s: &mut Session,
        name: &String,
        password: &str,
        now: u64,
    ) -> (m: ServerMsg)
        requires
            old(self).account_named(name@) is None,
            old(self).number_in_range(old(s).anon_name@),
            failures(old(self).login_throttle@, old(s).ip@).0 < u32::MAX,
            now + 60 <= u64::MAX,
        ensures
            old(self).logs_in_unknown(*old(s), name@, password@, now, m, *final(s), *final(self)),
    {
        if !s.is_anon {
            self.note_failure(s, now);
            return ServerMsg::AuthFail { reason: "Invalid login attempt".to_string() };
        }
        let ghost s0 = *s;
        let r = self.upgrade_to_named(
            s.anon_name.as_str(),
            name.as_str(),
            password,
            s.token.as_str(),
        );
        let ghost mid = *self;
        assert(old(self).upgrades(s0.anon_name@, name@, password@, s0.token@, r, mid));
        match r {
            Ok(acc) => {
                let uid: u32 = acc.user_id;
                self.note_login(s, uid, name);
                s.user_id = uid;
                s.is_anon = false;
                s.home_anon = None;
                ServerMsg::AuthOk { username: name.clone(), protected_cells: acc.protected_cells }
            },
            Err(e) => {
                self.note_failure(s, now);
                ServerMsg::AuthFail { reason: e.to_text() }
            },
        }
    }

    /// Logs a client in, or registers it under a name that nobody has yet.
    pub fn log_in(
        &mut self,
        s: &mut Session,
        username: &str,
        password: &str,
        now: u64,
    ) -> (m: ServerMsg)
        requires
            old(self).number_in_range(old(s).anon_name@),
            failures(old(self).login_throttle@, old(s).ip@).0 < u32::MAX,
            now + 60 <= u64::MAX,
        ensures
            old(self).logs_in(*old(s), username@, password@, now, m, *final(s), *final(self)),
    {
        let name = trim_of(username);
        match self.fault_of(s.ip.as_str(), name.as_str(), password, now) {
            Some(reason) => ServerMsg::AuthFail { reason },
            None => match self.get_user_by_name(name.as_str()) {
                Some(acc) => self.log_in_known(s, &name, password, acc, now),
                None => self.log_in_unknown(s, &name, password, now),
            },
        }
    }

    /// `after` is `self` once session `s`, that becomes `s2`, has logged out,
    /// with `fresh` at hand for a new session, and is answered `out`.
    pub open spec fn logs_out(
        self,
        s: Session,
        fresh: Seq<char>,
        out: Option<ServerMsg>,
        s2: Session,
        after: AppState,
    ) -> bool {
        if s.is_anon {
            out is None && s2 == s && after == self
        } else {
            exists|mid: AppState, open: AppState|
                {
                    &&& match s.home_anon {
                        Some(h) => mid == self && s2.home_anon->0 == h,
                        None => exists|r: (String, u32, String)| #[trigger]
                            self.opens_session(fresh, r, mid) && (s2.home_anon->0).0@ == r.0@
                                && (s2.home_anon->0).1 == r.1,
                    }
                    &&& s2.home_anon is Some
                    &&& #[trigger] mid.binds(s.token@, s2.user_id, open)
                    &&& s2.user_id == (s2.home_anon->0).1
                    &&& s2 == (Session {
                        user_id: s2.user_id,
                        is_anon: true,
                        home_anon: s2.home_anon,
                        ..s
                    })
                    &&& renamed(
                        open.connections@,
                        s.conn_id,
                        s2.user_id,
                        (s2.home_anon->0).0@,
                        after.connections@,
                    )
                    &&& after == (AppState { connections: after.connections, ..open })
                    &&& out is Some
                    &&& says_welcome(
                        out->0,
                        s2.user_id,
                        (s2.home_anon->0).0@,
                        (s2.home_anon->0).0@,
                        s.token@,
                    )
                }
        }
    }

    /// `after` is `self` with session `token` belonging to `uid`.
    pub open spec fn binds(self, token: Seq<char>, uid: u32, after: AppState) -> bool {
        &&& after.sessions@ == self.sessions@.insert(token, uid)
        &&& after == (AppState { sessions: after.sessions, ..self })
    }

    /// Logs a client out: it goes back to the anonymous account that it came
    /// with, or to a new one.
    pub fn log_out(&mut self, s: &mut Session, fresh: String) -> (out: Option<ServerMsg>)
        requires
            old(self).next_uid < u32::MAX,
        ensures
            old(self).logs_out(*old(s), fresh@, out, *final(s), *final(self)),
    {
        if s.is_anon {
            return None;
        }
        let ghost s0 = *s;
        let (name, uid): (String, u32) = match &s.home_anon {
            Some(h) => (h.0.clone(), h.1),
            None => {
                let (name, uid, tok) = self.create_anonymous_session(fresh);
                assert(old(self).opens_session(fresh@, (name, uid, tok), *self));
                (name, uid)
            },
        };
        let ghost mid = *self;
        self.sessions.insert(s.token.clone(), uid);
        let ghost open = *self;
        assert(mid.binds(s0.token@, uid, open));
        s.user_id = uid;
        s.is_anon = true;
        s.home_anon = Some((name.clone(), uid));
        self.rename_connection(s.conn_id, uid, name.clone());
        Some(
            ServerMsg::Welcome {
                author_id: uid,
                author: name.clone(),
                anon_name: name,
                session_token: s.token.clone(),
            },
        )
    }
}

/// Who has registered a name gets back in with the password given then, from
/// any session; and nobody does with a password whose hash is another.
pub proof fn law_password_opens_the_account(
    before: AppState,
    s: Session,
    username: Seq<char>,
    password: Seq<char>,
    now: u64,
    m: ServerMsg,
    s2: Session,
    mid: AppState,
    t: Session,
    attempt: Seq<char>,
    later: u64,
    answer: ServerMsg,
    t2: Session,
    after: AppState,
)
    requires
        before.number_in_range(s.anon_name@),
        before.account_named(trim(username)) is None,
        before.logs_in(s, username, password, now, m, s2, mid),
        m is AuthOk,
        login_fault(mid, t.ip@, trim(username), attempt, later) is None,
        mid.logs_in(t, username, attempt, later, answer, t2, after),
    ensures
        if password_hash(trim(username), attempt) == password_hash(trim(username), password) {
            &&& answer is AuthOk
            &&& t2.user_id == s2.user_id
            &&& after.sessions@[t.token@] == s2.user_id
        } else {
            &&& says_auth_fail(answer, "invalid credentials"@)
            &&& t2 == t
            &&& after.sessions@ == mid.sessions@
        },
{
}

} // verus!
