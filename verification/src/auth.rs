//! Accounts, sessions and passwords.

use std::collections::hash_map::DefaultHasher;
use std::hash::{Hash, Hasher};
use vstd::prelude::*;
use vstd::std_specs::hash::*;
use vstd::string::*;

use crate::error::AppError;
use crate::model::{EventView, SegmentEvent, UserAccount};
use crate::state::{account, anonymous_name, anonymous_name_of, AppState};
use crate::text::{dec, hex_fixed, push_dec, push_hex};

verus! {

/// What a string with the characters `s` writes to a hasher.
pub uninterp spec fn string_writes(s: Seq<char>) -> Seq<Seq<u8>>;

/// What the triple of a number and two texts writes to a hasher.
pub uninterp spec fn triple_writes(n: u32, a: Seq<char>, b: Seq<char>) -> Seq<Seq<u8>>;

/// `<String as Hash>::hash`: the hasher is fed what the characters of the
/// string determine, after what it was fed before.
#[verifier::external_body]
fn feed_string(s: &String, h: &mut DefaultHasher)
    ensures
        final(h)@ == old(h)@ + string_writes(s@),
{
    s.hash(h)
}

/// `<(u32, &String, &str) as Hash>::hash`: the hasher is fed what the number
/// and the characters determine, after what it was fed before.
#[verifier::external_body]
fn feed_triple(n: u32, a: &String, b: &str, h: &mut DefaultHasher)
    ensures
        final(h)@ == old(h)@ + triple_writes(n, a@, b@),
{
    (n, a, b).hash(h)
}

/// The text that stands for a password, for an account of that name.
pub open spec fn password_hash(user: Seq<char>, pass: Seq<char>) -> Seq<char> {
    hex_fixed(
        DefaultHasher::spec_finish(string_writes(user + ":"@ + pass + ":wt1"@)) as nat,
        16,
    )
}

/// The text of a session token made at `nanos` by a thread called `tid`.
pub open spec fn token_text(nanos: u32, tid: Seq<char>) -> Seq<char> {
    hex_fixed(DefaultHasher::spec_finish(triple_writes(nanos, tid, "t1"@)) as nat, 16)
}

/// Failed logins from `ip`, and until when further ones are refused.
pub open spec fn failures(m: Map<Seq<char>, (u32, u64)>, ip: Seq<char>) -> (u32, u64) {
    if m.contains_key(ip) {
        m[ip]
    } else {
        (0, 0)
    }
}

/// Logins from `ip` are refused at `now`.
pub open spec fn throttled(m: Map<Seq<char>, (u32, u64)>, ip: Seq<char>, now: u64) -> bool {
    failures(m, ip).0 >= 5 && now < failures(m, ip).1
}

/// One more failed login from `ip` at `now`. From the fifth on, further logins
/// are refused for a minute.
pub open spec fn after_failure(m: Map<Seq<char>, (u32, u64)>, ip: Seq<char>, now: u64) -> Map<
    Seq<char>,
    (u32, u64),
> {
    let (n, until) = failures(m, ip);
    m.insert(
        ip,
        (
            (n + 1) as u32,
            if n + 1 >= 5 {
                (now + 60) as u64
            } else {
                until
            },
        ),
    )
}

/// `users` with a place for every number up to `uid`, and `acc` at `uid`.
pub open spec fn with_account(users: Seq<Option<UserAccount>>, uid: u32, acc: UserAccount) -> Seq<
    Option<UserAccount>,
> {
    widened(users, uid).update(uid as int, Some(acc))
}

/// `users` with a place for every number up to `uid`.
pub open spec fn widened(users: Seq<Option<UserAccount>>, uid: u32) -> Seq<Option<UserAccount>> {
    if users.len() <= uid {
        users + Seq::new((uid + 1 - users.len()) as nat, |i: int| None)
    } else {
        users
    }
}

/// `acc` is a fresh account that nobody has registered.
pub open spec fn is_fresh(acc: UserAccount, uid: u32, token: Seq<char>) -> bool {
    &&& acc.user_id == uid
    &&& acc.username@ == anonymous_name(uid)
    &&& acc.original_anon_name@ == anonymous_name(uid)
    &&& acc.password_hash is None
    &&& acc.session_token@ == token
    &&& acc.is_anonymous
    &&& acc.protected_cells == 0
}

pub(crate) fn widen(users: &mut Vec<Option<UserAccount>>, uid: u32)
    requires
        uid < u32::MAX,
    ensures
        final(users)@ == widened(old(users)@, uid),
{
    let ghost u0 = users@;
    let n: usize = uid as usize + 1;
    while users.len() < n
        invariant
            n == uid + 1,
            u0.len() <= users@.len(),
            users@.len() <= n || users@.len() == u0.len(),
            users@ =~= u0 + Seq::new((users@.len() - u0.len()) as nat, |i: int| None),
        decreases n - users@.len(),
    {
        users.push(None);
    }
    assert(users@ =~= widened(u0, uid));
}

impl AppState {
    /// The account called `name`, if there is one, carries a number that has a
    /// place in the table of accounts.
    pub open spec fn number_in_range(&self, name: Seq<char>) -> bool {
        self.account_named(name) matches Some(acc) ==> acc.user_id < self.users@.len()
    }

    /// `after` is this state once account `uid` has taken a password with the
    /// hash given; without such an account nothing changes.
    pub open spec fn takes_password(self, after: AppState, uid: u32, hash: Seq<char>) -> bool {
        match account(self.users@, uid) {
            Some(u) => {
                &&& account(after.users@, uid) is Some
                &&& {
                    let updated = account(after.users@, uid)->0;
                    &&& updated.password_hash is Some
                    &&& updated.password_hash->0@ == hash
                    &&& updated == (UserAccount { password_hash: updated.password_hash, ..u })
                    &&& after.users@ == self.users@.update(uid as int, Some(updated))
                    &&& after.events() == self.events().push(EventView::UserUpsert(updated))
                    &&& after == (AppState { users: after.users, outbox: after.outbox, ..self })
                }
            },
            None => after == self,
        }
    }

    /// `pass` opens the account called `name`.
    pub open spec fn opens(&self, name: Seq<char>, pass: Seq<char>) -> bool {
        match self.account_named(name) {
            Some(acc) => !acc.is_anonymous && (acc.password_hash matches Some(h) ==> h@
                == password_hash(name, pass)),
            None => false,
        }
    }

    /// `after` is this state once `pass` has been held against the account
    /// called `name`.
    pub open spec fn verifies(self, name: Seq<char>, pass: Seq<char>, after: AppState) -> bool {
        match self.account_named(name) {
            Some(acc) => if acc.is_anonymous || acc.password_hash is Some {
                after == self
            } else {
                self.takes_password(after, acc.user_id, password_hash(name, pass))
            },
            None => after == self,
        }
    }

    /// `after` is this state with a new account that nobody has registered,
    /// `r` being its name, its number and the token of its session.
    pub open spec fn opens_session(
        self,
        token: Seq<char>,
        r: (String, u32, String),
        after: AppState,
    ) -> bool {
        &&& r.1 == self.next_uid
        &&& r.0@ == anonymous_name(r.1)
        &&& r.2@ == token
        &&& after.next_uid == self.next_uid + 1
        &&& account(after.users@, r.1) is Some
        &&& is_fresh(account(after.users@, r.1)->0, r.1, token)
        &&& after.users@ == with_account(self.users@, r.1, account(after.users@, r.1)->0)
        &&& after.name_to_id@ == self.name_to_id@.insert(r.0@, r.1)
        &&& after.sessions@ == self.sessions@.insert(token, r.1)
        &&& after.events() == self.events().push(
            EventView::UserUpsert(account(after.users@, r.1)->0),
        )
        &&& after == (AppState {
            next_uid: after.next_uid,
            users: after.users,
            name_to_id: after.name_to_id,
            sessions: after.sessions,
            outbox: after.outbox,
            ..self
        })
    }

    /// `after` is this state once the account called `anon_name` has asked to be
    /// registered under a new name, with the outcome `r`.
    pub open spec fn upgrades(
        self,
        anon_name: Seq<char>,
        new_username: Seq<char>,
        password: Seq<char>,
        token: Seq<char>,
        r: Result<UserAccount, AppError>,
        after: AppState,
    ) -> bool {
        match r {
            Ok(acc) => {
                let anon = self.account_named(anon_name);
                &&& self.account_named(new_username) is None
                &&& anon is Some && anon->0.is_anonymous
                &&& acc.user_id == anon->0.user_id
                &&& acc.username@ == new_username
                &&& acc.original_anon_name == anon->0.original_anon_name
                &&& acc.password_hash is Some
                &&& acc.password_hash->0@ == password_hash(new_username, password)
                &&& acc.session_token@ == token
                &&& !acc.is_anonymous
                &&& acc.protected_cells == anon->0.protected_cells
                &&& after.users@ == self.users@.update(acc.user_id as int, Some(acc))
                &&& after.name_to_id@ == self.name_to_id@.remove(anon_name).insert(
                    new_username,
                    acc.user_id,
                )
                &&& after.sessions@ == self.sessions@.insert(token, acc.user_id)
                &&& after.events() == self.events().push(EventView::UserUpsert(acc))
                &&& after == (AppState {
                    users: after.users,
                    name_to_id: after.name_to_id,
                    sessions: after.sessions,
                    outbox: after.outbox,
                    ..self
                })
            },
            Err(e) => {
                &&& after == self
                &&& e is BadInput
                &&& if self.account_named(new_username) is Some {
                    e.text() == "username taken"@
                } else if self.account_named(anon_name) is None {
                    e.text() == "session not found"@
                } else {
                    !self.account_named(anon_name)->0.is_anonymous && e.text()
                        == "already registered"@
                }
            },
        }
    }

    /// A session token, from the time and the thread at hand.
    pub fn generate_token(nanos: u32, tid: &String) -> (r: String)
        ensures
            r@ == token_text(nanos, tid@),
    {
        let mut h = DefaultHasher::new();
        feed_triple(nanos, tid, "t1", &mut h);
        assert(h@ =~= triple_writes(nanos, tid@, "t1"@));
        let mut s = String::new();
        push_hex(&mut s, h.finish(), 16);
        assert(s@ =~= token_text(nanos, tid@));
        s
    }

    /// The text that stands for a password, for an account of that name.
    pub fn hash_pw(user: &str, pass: &str) -> (r: String)
        ensures
            r@ == password_hash(user@, pass@),
    {
        let mut t = user.to_string();
        t.append(":");
        t.append(pass);
        t.append(":wt1");
        let mut h = DefaultHasher::new();
        feed_string(&t, &mut h);
        assert(h@ =~= string_writes(user@ + ":"@ + pass@ + ":wt1"@));
        let mut s = String::new();
        push_hex(&mut s, h.finish(), 16);
        assert(s@ =~= password_hash(user@, pass@));
        s
    }

    /// Refuses logins from an address from which too many have failed.
    pub fn check_rate_limit(&self, ip: &str, now: u64) -> (r: Result<(), AppError>)
        ensures
            r is Err <==> throttled(self.login_throttle@, ip@, now),
            r matches Err(e) ==> e is BadInput && e.text() == "too many attempts! try again in "@
                + dec((failures(self.login_throttle@, ip@).1 - now) as nat) + "s"@,
    {
        if let Some(e) = self.login_throttle.get(ip) {
            let (n, until) = *e;
            if n >= 5 && now < until {
                let mut s = "too many attempts! try again in ".to_string();
                push_dec(&mut s, until - now);
                s.append("s");
                return Err(AppError::BadInput(s));
            }
        }
        Ok(())
    }

    pub fn record_login_failure(&mut self, ip: &str, now: u64)
        requires
            failures(old(self).login_throttle@, ip@).0 < u32::MAX,
            now + 60 <= u64::MAX,
        ensures
            final(self).login_throttle@ == after_failure(old(self).login_throttle@, ip@, now),
            *final(self) == (AppState {
                login_throttle: final(self).login_throttle,
                ..*old(self)
            }),
    {
        let (n, until) = match self.login_throttle.get(ip) {
            Some(e) => *e,
            None => (0, 0),
        };
        let m: u32 = n + 1;
        let u: u64 = if m >= 5 {
            now + 60
        } else {
            until
        };
        self.login_throttle.insert(ip.to_string(), (m, u));
    }

    pub fn clear_login_throttle(&mut self, ip: &str)
        ensures
            final(self).login_throttle@ == old(self).login_throttle@.remove(ip@),
            *final(self) == (AppState {
                login_throttle: final(self).login_throttle,
                ..*old(self)
            }),
    {
        self.login_throttle.remove(ip);
    }

    /// A new account that nobody has registered, with a session of its own:
    /// its name, its number and the token of the session.
    pub fn create_anonymous_session(&mut self, token: String) -> (r: (String, u32, String))
        requires
            old(self).next_uid < u32::MAX,
        ensures
            old(self).opens_session(token@, r, *final(self)),
            r.2 == token,
            old(self).ids_match() ==> final(self).ids_match(),
    {
        let uid: u32 = self.next_uid;
        self.next_uid = uid + 1;
        let name = anonymous_name_of(uid);
        let acc = UserAccount {
            user_id: uid,
            username: name.clone(),
            original_anon_name: name.clone(),
            password_hash: None,
            session_token: token.clone(),
            is_anonymous: true,
            protected_cells: 0,
        };
        widen(&mut self.users, uid);
        self.users[uid as usize] = Some(acc.duplicate());
        self.name_to_id.insert(name.clone(), uid);
        self.sessions.insert(token.clone(), uid);
        self.outbox.push(SegmentEvent::UserUpsert(acc));
        assert(self.events() =~= old(self).events().push(EventView::UserUpsert(acc)));
        (name, uid, token)
    }

    /// Forgets the password of a registered account; the next login sets a new
    /// one.
    pub fn reset_password(&mut self, username: &str) -> (r: Result<(), AppError>)
        requires
            old(self).number_in_range(username@),
        ensures
            r is Ok <==> old(self).account_named(username@) is Some && !old(self).account_named(
                username@,
            )->0.is_anonymous && account(
                old(self).users@,
                old(self).account_named(username@)->0.user_id,
            ) is Some,
            r matches Err(e) ==> e is BadInput && e.text() == "user not found"@ && *final(self)
                == *old(self),
            r is Ok ==> {
                let uid = old(self).account_named(username@)->0.user_id;
                let updated = UserAccount {
                    password_hash: None,
                    ..account(old(self).users@, uid)->0
                };
                &&& final(self).users@ == old(self).users@.update(uid as int, Some(updated))
                &&& final(self).events() == old(self).events().push(EventView::UserUpsert(updated))
                &&& *final(self) == (AppState {
                    users: final(self).users,
                    outbox: final(self).outbox,
                    ..*old(self)
                })
            },
            old(self).ids_match() ==> final(self).ids_match(),
    {
        let uid: u32 = match self.get_user_by_name(username) {
            Some(acc) => {
                if acc.is_anonymous {
                    return Err(AppError::BadInput("user not found".to_string()));
                }
                acc.user_id
            },
            None => {
                return Err(AppError::BadInput("user not found".to_string()));
            },
        };
        match self.get_user_by_id(uid) {
            Some(mut acc) => {
                acc.password_hash = None;
                self.outbox.push(SegmentEvent::UserUpsert(acc.duplicate()));
                self.users[uid as usize] = Some(acc);
                assert(self.events() =~= old(self).events().push(EventView::UserUpsert(acc)));
                Ok(())
            },
            None => Err(AppError::BadInput("user not found".to_string())),
        }
    }

    /// Whether `pass` opens the account called `name`. An account without a
    /// password takes the first one it is given.
    pub fn verify_user(&mut self, name: &str, pass: &str) -> (r: bool)
        ensures
            r == old(self).opens(name@, pass@),
            r && old(self).ids_match() ==> final(self).opens(name@, pass@),
            old(self).verifies(name@, pass@, *final(self)),
            old(self).ids_match() ==> final(self).ids_match(),
    {
        let acc = match self.get_user_by_name(name) {
            Some(u) => u,
            None => {
                return false;
            },
        };
        if acc.is_anonymous {
            return false;
        }
        let new_hash = Self::hash_pw(name, pass);
        match &acc.password_hash {
            Some(hash) => {
                return *hash == new_hash;
            },
            None => {},
        }
        let uid: u32 = acc.user_id;
        if let Some(mut u) = self.get_user_by_id(uid) {
            u.password_hash = Some(new_hash);
            self.outbox.push(SegmentEvent::UserUpsert(u.duplicate()));
            self.users[uid as usize] = Some(u);
            assert(self.events() =~= old(self).events().push(EventView::UserUpsert(u)));
        }
        true
    }

    /// Registers the account called `anon_name` under a new name. It keeps its
    /// number and what it protects.
    pub fn upgrade_to_named(
        &mut self,
        anon_name: &str,
        new_username: &str,
        password: &str,
        token: &str,
    ) -> (r: Result<UserAccount, AppError>)
        requires
            old(self).number_in_range(anon_name@),
        ensures
            old(self).ids_match() ==> final(self).ids_match(),
            old(self).upgrades(anon_name@, new_username@, password@, token@, r, *final(self)),
            r is Ok ==> final(self).opens(new_username@, password@),
    {
        if self.get_user_by_name(new_username).is_some() {
            return Err(AppError::BadInput("username taken".to_string()));
        }
        let anon = match self.get_user_by_name(anon_name) {
            Some(u) => u,
            None => {
                return Err(AppError::BadInput("session not found".to_string()));
            },
        };
        if !anon.is_anonymous {
            return Err(AppError::BadInput("already registered".to_string()));
        }
        let uid: u32 = anon.user_id;
        let upgraded = UserAccount {
            user_id: uid,
            username: new_username.to_string(),
            original_anon_name: anon.original_anon_name,
            password_hash: Some(Self::hash_pw(new_username, password)),
            session_token: token.to_string(),
            is_anonymous: false,
            protected_cells: anon.protected_cells,
        };
        self.name_to_id.remove(anon_name);
        self.name_to_id.insert(new_username.to_string(), uid);
        self.users[uid as usize] = Some(upgraded.duplicate());
        self.sessions.insert(token.to_string(), uid);
        self.outbox.push(SegmentEvent::UserUpsert(upgraded.duplicate()));
        assert(self.events() =~= old(self).events().push(EventView::UserUpsert(upgraded)));
        Ok(upgraded)
    }
}

/// `n` failed logins from `ip`, all at `now`.
pub open spec fn after_failures(
    m: Map<Seq<char>, (u32, u64)>,
    ip: Seq<char>,
    now: u64,
    n: nat,
) -> Map<Seq<char>, (u32, u64)>
    decreases n,
{
    if n == 0 {
        m
    } else {
        after_failure(after_failures(m, ip, now, (n - 1) as nat), ip, now)
    }
}

/// After five failed logins from an address that had none, logins from there
/// are refused for a minute and no longer; after four they are not. Other
/// addresses are not affected.
pub proof fn law_fifth_failure_blocks(
    m: Map<Seq<char>, (u32, u64)>,
    ip: Seq<char>,
    now: u64,
    later: u64,
    other: Seq<char>,
)
    requires
        !m.contains_key(ip),
        now + 60 <= u64::MAX,
        other != ip,
    ensures
        !throttled(after_failures(m, ip, now, 4), ip, later),
        throttled(after_failures(m, ip, now, 5), ip, later) <==> later < now + 60,
        throttled(after_failures(m, ip, now, 5), other, later) == throttled(m, other, later),
{
    reveal_with_fuel(after_failures, 6);
}

/// An address that is cleared is not refused.
pub proof fn law_clearing_unblocks(m: Map<Seq<char>, (u32, u64)>, ip: Seq<char>, now: u64)
    ensures
        !throttled(m.remove(ip), ip, now),
{
}

} // verus!
