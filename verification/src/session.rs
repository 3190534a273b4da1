//! Connections: who is there, who sees what, and how people come and go.

use vstd::prelude::*;
use vstd::std_specs::hash::*;
use vstd::string::*;

use crate::color::Rgb;
use crate::coords::WorldCoords;
use crate::model::StoredRegion;
use crate::msg::{RegionRecord, ServerMsg};
use crate::region::lists_regions;
use crate::state::{account, anonymous_name, anonymous_name_of, AppState, ConnInfo};
use crate::table::keys_of;

verus! {

/// A message and where it goes.
pub enum Outgoing {
    /// To the client that the server is answering.
    Back(ServerMsg),
    /// To one connection.
    To(u64, ServerMsg),
    /// To everybody.
    All(ServerMsg),
}

/// What the server remembers of a client between two of its messages.
pub struct Session {
    pub conn_id: u64,
    pub ip: String,
    pub user_id: u32,
    pub is_anon: bool,
    pub token: String,
    pub home_anon: Option<(String, u32)>,
    pub anon_name: String,
}

/// The connection sees `pos`. One that has not said what it shows sees all.
pub open spec fn sees(c: ConnInfo, pos: WorldCoords) -> bool {
    c.viewport matches Some(r) ==> r.has(pos)
}

fn sees_place(c: &ConnInfo, pos: WorldCoords) -> (r: bool)
    ensures
        r == sees(*c, pos),
{
    match c.viewport {
        Some(r) => r.contains(pos),
        None => true,
    }
}

/// `out` holds one message for each connection of `conns` that `want` picks,
/// and it is one that `says` accepts.
pub open spec fn delivers(
    out: Seq<(u64, ServerMsg)>,
    conns: Map<u64, ConnInfo>,
    want: spec_fn(u64, ConnInfo) -> bool,
    says: spec_fn(ConnInfo, ServerMsg) -> bool,
) -> bool {
    &&& forall|i: int|
        0 <= i < out.len() ==> conns.contains_key((#[trigger] out[i]).0) && want(
            out[i].0,
            conns[out[i].0],
        ) && says(conns[out[i].0], out[i].1)
    &&& forall|i: int, j: int|
        0 <= i < j < out.len() ==> (#[trigger] out[i]).0 != (#[trigger] out[j]).0
    &&& forall|id: u64| #[trigger]
        conns.contains_key(id) && want(id, conns[id]) ==> exists|i: int|
            0 <= i < out.len() && (#[trigger] out[i]).0 == id
}

/// `m` says that the cursor of `user_id` has left.
pub open spec fn says_left(m: ServerMsg, user_id: u32) -> bool {
    m matches ServerMsg::CursorLeft { user_id: u } && u == user_id
}

/// Tells every connection that sees `pos` that the cursor of `user_id` has
/// left; without `pos`, every connection.
fn tell_left(state: &AppState, user_id: u32, pos: Option<WorldCoords>) -> (out: Vec<
    (u64, ServerMsg),
>)
    ensures
        delivers(
            out@,
            state.connections@,
            |id: u64, c: ConnInfo| pos matches Some(p) ==> sees(c, p),
            |c: ConnInfo, m: ServerMsg| says_left(m, user_id),
        ),
{
    broadcast use group_hash_axioms;

    let ghost want = |id: u64, c: ConnInfo| pos matches Some(p) ==> sees(c, p);
    let ghost says = |c: ConnInfo, m: ServerMsg| says_left(m, user_id);
    let ids = keys_of(&state.connections);
    let mut out: Vec<(u64, ServerMsg)> = Vec::new();
    let mut i: usize = 0;
    while i < ids.len()
        invariant
            i <= ids@.len(),
            ids@.no_duplicates(),
            forall|k: u64| #[trigger] ids@.contains(k) <==> state.connections@.contains_key(k),
            want == (|id: u64, c: ConnInfo| pos matches Some(p) ==> sees(c, p)),
            says == (|c: ConnInfo, m: ServerMsg| says_left(m, user_id)),
            sent_to_first(out@, state.connections@, ids@, i as int, want, says),
        decreases ids@.len() - i,
    {
        let ghost before = out@;
        assert(ids@.contains(ids@[i as int]));
        if let Some(c) = state.connections.get(&ids[i]) {
            let wanted = match pos {
                Some(p) => sees_place(c, p),
                None => true,
            };
            if wanted {
                out.push((ids[i], ServerMsg::CursorLeft { user_id }));
            }
        }
        proof {
            lemma_sent_step(before, out@, state.connections@, ids@, i as int, want, says);
        }
        i = i + 1;
    }
    proof {
        lemma_sent_all(out@, state.connections@, ids@, want, says);
    }
    out
}

/// As `delivers`, for the connections `ids[..n]`.
pub open spec fn sent_to_first(
    out: Seq<(u64, ServerMsg)>,
    conns: Map<u64, ConnInfo>,
    ids: Seq<u64>,
    n: int,
    want: spec_fn(u64, ConnInfo) -> bool,
    says: spec_fn(ConnInfo, ServerMsg) -> bool,
) -> bool {
    &&& forall|i: int|
        0 <= i < out.len() ==> conns.contains_key((#[trigger] out[i]).0) && want(
            out[i].0,
            conns[out[i].0],
        ) && says(conns[out[i].0], out[i].1) && exists|k: int| 0 <= k < n && ids[k] == out[i].0
    &&& forall|i: int, j: int|
        0 <= i < j < out.len() ==> (#[trigger] out[i]).0 != (#[trigger] out[j]).0
    &&& forall|k: int|
        0 <= k < n && want(#[trigger] ids[k], conns[ids[k]]) ==> exists|i: int|
            0 <= i < out.len() && (#[trigger] out[i]).0 == ids[k]
}

pub(crate) proof fn lemma_sent_step(
    before: Seq<(u64, ServerMsg)>,
    after: Seq<(u64, ServerMsg)>,
    conns: Map<u64, ConnInfo>,
    ids: Seq<u64>,
    n: int,
    want: spec_fn(u64, ConnInfo) -> bool,
    says: spec_fn(ConnInfo, ServerMsg) -> bool,
)
    requires
        sent_to_first(before, conns, ids, n, want, says),
        0 <= n < ids.len(),
        ids.no_duplicates(),
        conns.contains_key(ids[n]),
        if want(ids[n], conns[ids[n]]) {
            &&& after.len() == before.len() + 1
            &&& after == before.push(after[before.len() as int])
            &&& after[before.len() as int].0 == ids[n]
            &&& says(conns[ids[n]], after[before.len() as int].1)
        } else {
            after == before
        },
    ensures
        sent_to_first(after, conns, ids, n + 1, want, says),
{
    assert forall|i: int| 0 <= i < before.len() implies (#[trigger] before[i]).0 != ids[n] by {
        let k = choose|k: int| 0 <= k < n && ids[k] == before[i].0;
        assert(ids[k] != ids[n]);
    }
    assert forall|i: int| 0 <= i < after.len() implies conns.contains_key((#[trigger] after[i]).0)
        && want(after[i].0, conns[after[i].0]) && says(conns[after[i].0], after[i].1) && exists|
        k: int,
    | 0 <= k < n + 1 && ids[k] == after[i].0 by {
        if i < before.len() {
            assert(after[i] == before[i]);
            let k = choose|k: int| 0 <= k < n && ids[k] == before[i].0;
            assert(ids[k] == after[i].0);
        } else {
            assert(ids[n] == after[i].0);
        }
    }
    assert forall|i: int, j: int| 0 <= i < j < after.len() implies (#[trigger] after[i]).0 != (
    #[trigger] after[j]).0 by {
        assert(after[i] == before[i]);
        if j < before.len() {
            assert(after[j] == before[j]);
        }
    }
    assert forall|k: int|
        0 <= k < n + 1 && want(#[trigger] ids[k], conns[ids[k]]) implies exists|i: int|
        0 <= i < after.len() && (#[trigger] after[i]).0 == ids[k] by {
        if k < n {
            let i = choose|i: int| 0 <= i < before.len() && (#[trigger] before[i]).0 == ids[k];
            assert(after[i].0 == ids[k]);
        } else {
            assert(after[before.len() as int].0 == ids[k]);
        }
    }
}

pub(crate) proof fn lemma_sent_all(
    out: Seq<(u64, ServerMsg)>,
    conns: Map<u64, ConnInfo>,
    ids: Seq<u64>,
    want: spec_fn(u64, ConnInfo) -> bool,
    says: spec_fn(ConnInfo, ServerMsg) -> bool,
)
    requires
        sent_to_first(out, conns, ids, ids.len() as int, want, says),
        forall|k: u64| #[trigger] ids.contains(k) <==> conns.contains_key(k),
    ensures
        delivers(out, conns, want, says),
{
    assert forall|id: u64| #[trigger]
        conns.contains_key(id) && want(id, conns[id]) implies exists|i: int|
        0 <= i < out.len() && (#[trigger] out[i]).0 == id by {
        assert(ids.contains(id));
        let k = choose|k: int| 0 <= k < ids.len() && ids[k] == id;
        assert(want(ids[k], conns[ids[k]]));
    }
}

/// `m` greets the client.
pub open spec fn says_welcome(
    m: ServerMsg,
    uid: u32,
    name: Seq<char>,
    anon: Seq<char>,
    token: Seq<char>,
) -> bool {
    m matches ServerMsg::Welcome { author_id, author, anon_name, session_token } && author_id == uid
        && author@ == name && anon_name@ == anon && session_token@ == token
}

/// `m` tells the client that it is logged in.
pub open spec fn says_auth_ok(m: ServerMsg, name: Seq<char>, cells: u32) -> bool {
    m matches ServerMsg::AuthOk { username, protected_cells } && username@ == name
        && protected_cells == cells
}

/// `m` tells the client that it is not logged in.
pub open spec fn says_auth_fail(m: ServerMsg, why: Seq<char>) -> bool {
    m matches ServerMsg::AuthFail { reason } && reason@ == why
}

/// `rec` tells of `r`.
pub open spec fn is_record(state: AppState, r: StoredRegion, rec: RegionRecord) -> bool {
    &&& rec.id == r.id
    &&& rec.bounds == r.bounds
    &&& rec.label == r.label
    &&& rec.owner_id == r.owner_id
    &&& rec.owner@ == state.name_of(r.owner_id)
}

/// `recs` tell of all regions, each once.
pub open spec fn tells_regions(state: AppState, recs: Seq<RegionRecord>) -> bool {
    exists|rs: Seq<StoredRegion>|
        {
            &&& #[trigger] lists_regions(rs, state.regions@)
            &&& recs.len() == rs.len()
            &&& forall|i: int| 0 <= i < rs.len() ==> is_record(state, rs[i], #[trigger] recs[i])
        }
}

/// Who a client is: name, number, anonymous name, whether it is anonymous.
pub struct Identity {
    pub name: String,
    pub uid: u32,
    pub anon_name: String,
    pub token: String,
    pub is_anon: bool,
}

/// What becomes of a client that has connected.
pub struct Arrival {
    pub session: Session,
    /// What it is told, in order.
    pub greeting: Vec<ServerMsg>,
    /// The connections that it takes the place of, each with what the others
    /// are told of its cursor.
    pub displaced: Vec<(u64, Vec<(u64, ServerMsg)>)>,
}

impl AppState {
    /// `who` is what the server knows of a client with session `token`.
    pub open spec fn recognises(self, token: Seq<char>, who: Identity) -> bool {
        &&& self.sessions@.contains_key(token)
        &&& who.uid == self.sessions@[token]
        &&& who.token@ == token
        &&& match account(self.users@, who.uid) {
            Some(acc) => {
                &&& who.name == acc.username
                &&& who.anon_name == acc.original_anon_name
                &&& who.is_anon == acc.is_anonymous
            },
            None => {
                &&& who.name@ == anonymous_name(who.uid)
                &&& who.anon_name@ == anonymous_name(who.uid)
                &&& who.is_anon
            },
        }
    }

    /// `after` is this state once a client that shows `token` has been
    /// recognised as `who`, or has been given an account with session `fresh`.
    pub open spec fn identifies(
        self,
        token: Option<Seq<char>>,
        fresh: Seq<char>,
        who: Identity,
        after: AppState,
    ) -> bool {
        if token is Some && self.sessions@.contains_key(token->0) {
            after == self && self.recognises(token->0, who)
        } else {
            &&& exists|r: (String, u32, String)| #[trigger]
                self.opens_session(fresh, r, after) && who.name == r.0 && who.uid == r.1
                    && who.anon_name == r.0 && who.token == r.2
            &&& who.is_anon
        }
    }

    /// Who the client with session `token` is. A client without a session that
    /// the server knows becomes somebody new, with session `fresh`.
    pub fn identify(&mut self, token: Option<String>, fresh: String) -> (who: Identity)
        requires
            old(self).next_uid < u32::MAX,
        ensures
            old(self).identifies(
                match token {
                    Some(t) => Some(t@),
                    None => None,
                },
                fresh@,
                who,
                *final(self),
            ),
            old(self).ids_match() ==> final(self).ids_match(),
    {
        if let Some(t) = token {
            if let Some(uid) = self.get_session(t.as_str()) {
                return match self.get_user_by_id(uid) {
                    Some(acc) => Identity {
                        name: acc.username,
                        uid,
                        anon_name: acc.original_anon_name,
                        token: t,
                        is_anon: acc.is_anonymous,
                    },
                    None => Identity {
                        name: anonymous_name_of(uid),
                        uid,
                        anon_name: anonymous_name_of(uid),
                        token: t,
                        is_anon: true,
                    },
                };
            }
        }
        let (name, uid, tok) = self.create_anonymous_session(fresh);
        assert(old(self).opens_session(fresh@, (name, uid, tok), *self));
        Identity { name: name.clone(), uid, anon_name: name, token: tok, is_anon: true }
    }

    /// The records of all regions, each once, in no particular order.
    pub fn region_records(&self) -> (recs: Vec<RegionRecord>)
        ensures
            tells_regions(*self, recs@),
    {
        let rs = self.all_regions();
        let mut recs: Vec<RegionRecord> = Vec::new();
        let mut i: usize = 0;
        while i < rs.len()
            invariant
                i <= rs@.len(),
                recs@.len() == i,
                forall|k: int| 0 <= k < i ==> is_record(*self, rs@[k], #[trigger] recs@[k]),
            decreases rs@.len() - i,
        {
            recs.push(self.region_to_record(&rs[i]));
            i = i + 1;
        }
        assert(lists_regions(rs@, self.regions@));
        recs
    }
}

/// `conns` with connection `conn_id`, if it is there, put under another name.
pub open spec fn renamed(
    before: Map<u64, ConnInfo>,
    conn_id: u64,
    user_id: u32,
    name: Seq<char>,
    after: Map<u64, ConnInfo>,
) -> bool {
    if before.contains_key(conn_id) {
        &&& after == before.insert(conn_id, after[conn_id])
        &&& after[conn_id].name@ == name
        &&& after[conn_id] == (ConnInfo {
            user_id,
            name: after[conn_id].name,
            ..before[conn_id]
        })
    } else {
        after == before
    }
}

/// A connection other than `conn_id` that belongs to `uid`.
pub open spec fn is_displaced(conns: Map<u64, ConnInfo>, conn_id: u64, uid: u32, id: u64) -> bool {
    conns.contains_key(id) && id != conn_id && conns[id].user_id == uid
}

/// What remains of `conns` once `gone` have left.
pub open spec fn without(conns: Map<u64, ConnInfo>, gone: Seq<u64>) -> Map<u64, ConnInfo> {
    Map::new(|id: u64| conns.contains_key(id) && !gone.contains(id), |id: u64| conns[id])
}

/// `notes` tell those of `rest` that saw the cursor of `c` that it has left.
pub open spec fn tells_of_departure(
    notes: Seq<(u64, ServerMsg)>,
    rest: Map<u64, ConnInfo>,
    c: ConnInfo,
) -> bool {
    match c.cursor {
        Some(p) => delivers(
            notes,
            rest,
            |id: u64, o: ConnInfo| sees(o, p),
            |o: ConnInfo, m: ServerMsg| says_left(m, c.user_id),
        ),
        None => notes.len() == 0,
    }
}

/// The numbers of the connections that were displaced.
pub open spec fn ids_of(displaced: Seq<(u64, Vec<(u64, ServerMsg)>)>) -> Seq<u64> {
    displaced.map_values(|d: (u64, Vec<(u64, ServerMsg)>)| d.0)
}

impl AppState {
    pub(crate) fn rename_connection(&mut self, conn_id: u64, user_id: u32, name: String)
        ensures
            renamed(
                old(self).connections@,
                conn_id,
                user_id,
                name@,
                final(self).connections@,
            ),
            *final(self) == (AppState { connections: final(self).connections, ..*old(self) }),
    {
        broadcast use group_hash_axioms;

        if let Some(mut info) = self.connections.remove(&conn_id) {
            info.user_id = user_id;
            info.name = name;
            self.connections.insert(conn_id, info);
            assert(self.connections@ =~= old(self).connections@.insert(conn_id, info));
        } else {
            assert(self.connections@ =~= old(self).connections@);
        }
    }

    /// The other connections of `uid`.
    fn others_of(&self, conn_id: u64, uid: u32) -> (r: Vec<u64>)
        ensures
            r@.no_duplicates(),
            forall|id: u64| #[trigger]
                r@.contains(id) <==> is_displaced(self.connections@, conn_id, uid, id),
    {
        broadcast use group_hash_axioms;

        let ids = keys_of(&self.connections);
        let mut out: Vec<u64> = Vec::new();
        let mut i: usize = 0;
        while i < ids.len()
            invariant
                i <= ids@.len(),
                ids@.no_duplicates(),
                forall|k: u64| #[trigger] ids@.contains(k) <==> self.connections@.contains_key(k),
                out@.no_duplicates(),
                forall|id: u64| #[trigger]
                    out@.contains(id) <==> is_displaced(self.connections@, conn_id, uid, id)
                        && ids@.take(i as int).contains(id),
            decreases ids@.len() - i,
        {
            let id: u64 = ids[i];
            let ghost before = out@;
            assert(ids@.contains(id));
            assert(ids@.take(i + 1) =~= ids@.take(i as int).push(id));
            proof {
                assert(!ids@.take(i as int).contains(id)) by {
                    if ids@.take(i as int).contains(id) {
                        let t = ids@.take(i as int);
                        let k = choose|k: int| 0 <= k < t.len() && t[k] == id;
                        assert(ids@[k] != ids@[i as int]);
                    }
                }
                assert(!before.contains(id));
            }
            if let Some(c) = self.connections.get(&id) {
                if id != conn_id && c.user_id == uid {
                    out.push(id);
                }
            }
            proof {
                assert forall|x: u64| #[trigger]
                    out@.contains(x) <==> is_displaced(self.connections@, conn_id, uid, x)
                        && ids@.take(i + 1).contains(x) by {
                    vstd::seq_lib::lemma_seq_contains_after_push(ids@.take(i as int), id, x);
                    vstd::seq_lib::lemma_seq_contains_after_push(before, id, x);
                    assert(before.contains(x) <==> is_displaced(
                        self.connections@,
                        conn_id,
                        uid,
                        x,
                    ) && ids@.take(i as int).contains(x));
                }
                assert(out@.no_duplicates()) by {
                    if out@.len() > before.len() {
                        assert forall|a: int, b: int|
                            0 <= a < out@.len() && 0 <= b < out@.len() && a != b implies out@[a]
                            != out@[b] by {
                            if a < before.len() {
                                assert(before.contains(out@[a]) || out@[a] == before[a]);
                                assert(before[a] == out@[a]);
                                assert(before.contains(before[a]));
                            }
                            if b < before.len() {
                                assert(before[b] == out@[b]);
                                assert(before.contains(before[b]));
                            }
                        }
                    }
                }
            }
            i = i + 1;
        }
        assert(ids@.take(i as int) =~= ids@);
        out
    }

    fn drop_connections(&mut self, gone: &Vec<u64>) -> (infos: Vec<ConnInfo>)
        requires
            gone@.no_duplicates(),
            forall|k: int|
                0 <= k < gone@.len() ==> old(self).connections@.contains_key(#[trigger] gone@[k]),
        ensures
            final(self).connections@ == without(old(self).connections@, gone@),
            infos@.len() == gone@.len(),
            forall|k: int|
                0 <= k < gone@.len() ==> #[trigger] infos@[k] == old(self).connections@[gone@[k]],
            *final(self) == (AppState { connections: final(self).connections, ..*old(self) }),
    {
        broadcast use group_hash_axioms;

        let mut infos: Vec<ConnInfo> = Vec::new();
        let mut i: usize = 0;
        assert(self.connections@ =~= without(self.connections@, gone@.take(0)));
        while i < gone.len()
            invariant
                i <= gone@.len(),
                gone@.no_duplicates(),
                forall|k: int|
                    0 <= k < gone@.len() ==> old(self).connections@.contains_key(
                        #[trigger] gone@[k],
                    ),
                self.connections@ == without(old(self).connections@, gone@.take(i as int)),
                infos@.len() == i,
                forall|k: int|
                    0 <= k < i ==> #[trigger] infos@[k] == old(self).connections@[gone@[k]],
                *self == (AppState { connections: self.connections, ..*old(self) }),
            decreases gone@.len() - i,
        {
            let id: u64 = gone[i];
            let ghost t = gone@.take(i as int);
            proof {
                assert(old(self).connections@.contains_key(gone@[i as int]));
                assert(!t.contains(id)) by {
                    if t.contains(id) {
                        let k = choose|k: int| 0 <= k < t.len() && t[k] == id;
                        assert(gone@[k] != gone@[i as int]);
                    }
                }
            }
            if let Some(info) = self.connections.remove(&id) {
                infos.push(info);
            }
            proof {
                assert(gone@.take(i + 1) =~= t.push(id));
                assert forall|x: u64| t.push(id).contains(x) <==> t.contains(x) || x == id by {
                    vstd::seq_lib::lemma_seq_contains_after_push(t, id, x);
                }
                assert(self.connections@ =~= without(old(self).connections@, gone@.take(i + 1)));
            }
            i = i + 1;
        }
        assert(gone@.take(i as int) =~= gone@);
        infos
    }

    /// `after` is this state once `who` has connected as `conn_id`, with the
    /// outcome `a`.
    pub open spec fn admits_client(
        self,
        conn_id: u64,
        who: Identity,
        a: Arrival,
        after: AppState,
    ) -> bool {
        let info = after.connections@[conn_id];
        let with_new = self.connections@.insert(conn_id, info);
        &&& info.viewport is None
        &&& info.cursor is None
        &&& info.color == Rgb(0, 255, 65)
        &&& info.user_id == who.uid
        &&& info.name@ == who.name@
        &&& a.session.conn_id == conn_id
        &&& a.session.user_id == who.uid
        &&& a.session.is_anon == who.is_anon
        &&& a.session.token@ == who.token@
        &&& a.session.anon_name@ == who.anon_name@
        &&& match a.session.home_anon {
            Some(h) => who.is_anon && h.0@ == who.anon_name@ && h.1 == who.uid,
            None => !who.is_anon,
        }
        &&& ids_of(a.displaced@).no_duplicates()
        &&& forall|id: u64| #[trigger]
            ids_of(a.displaced@).contains(id) <==> is_displaced(with_new, conn_id, who.uid, id)
        &&& after.connections@ == without(with_new, ids_of(a.displaced@))
        &&& forall|k: int|
            0 <= k < a.displaced@.len() ==> tells_of_departure(
                (#[trigger] a.displaced@[k]).1@,
                after.connections@,
                self.connections@[a.displaced@[k].0],
            )
        &&& greets(self, who, a.greeting@)
        &&& after == (AppState { connections: after.connections, ..self })
    }

    /// Takes in a client that is known to be `who`. Older connections of the
    /// same account are closed.
    pub fn admit_client(&mut self, conn_id: u64, ip: String, who: Identity) -> (a: Arrival)
        ensures
            old(self).admits_client(conn_id, who, a, *final(self)),
            a.session.ip == ip,
    {
        broadcast use group_hash_axioms;

        let ghost conns0 = self.connections@;
        let info = ConnInfo {
            viewport: None,
            cursor: None,
            color: Rgb(0, 255, 65),
            user_id: who.uid,
            name: who.name.clone(),
        };
        self.connections.insert(conn_id, info);
        let ghost with_new = self.connections@;
        let gone = self.others_of(conn_id, who.uid);
        assert forall|k: int| 0 <= k < gone@.len() implies self.connections@.contains_key(
            #[trigger] gone@[k],
        ) && gone@[k] != conn_id by {
            assert(gone@.contains(gone@[k]));
        }
        let infos = self.drop_connections(&gone);
        let ghost rest = self.connections@;
        let mut displaced: Vec<(u64, Vec<(u64, ServerMsg)>)> = Vec::new();
        let mut i: usize = 0;
        while i < gone.len()
            invariant
                i <= gone@.len(),
                infos@.len() == gone@.len(),
                rest == self.connections@,
                conns0 == old(self).connections@,
                *self == (AppState { connections: self.connections, ..*old(self) }),
                with_new == conns0.insert(conn_id, info),
                forall|k: int|
                    0 <= k < gone@.len() ==> #[trigger] infos@[k] == with_new[gone@[k]] && gone@[k]
                        != conn_id,
                displaced@.len() == i,
                forall|k: int|
                    0 <= k < i ==> (#[trigger] displaced@[k]).0 == gone@[k] && tells_of_departure(
                        displaced@[k].1@,
                        rest,
                        conns0[gone@[k]],
                    ),
            decreases gone@.len() - i,
        {
            let left = &infos[i];
            assert(infos@[i as int] == with_new[gone@[i as int]]);
            let notes: Vec<(u64, ServerMsg)> = match left.cursor {
                Some(p) => tell_left(self, left.user_id, Some(p)),
                None => Vec::new(),
            };
            proof {
                if left.cursor is Some {
                    let p = left.cursor->0;
                    let pos = Some(p);
                    lemma_delivers_same(
                        notes@,
                        rest,
                        |id: u64, c: ConnInfo| pos matches Some(p) ==> sees(c, p),
                        |id: u64, o: ConnInfo| sees(o, p),
                        |c: ConnInfo, m: ServerMsg| says_left(m, left.user_id),
                    );
                }
            }
            displaced.push((gone[i], notes));
            i = i + 1;
        }
        assert(ids_of(displaced@) =~= gone@);
        let greeting = self.greeting_for(&who);
        proof {
            assert(without(with_new, gone@).contains_key(conn_id));
            lemma_greets_same(*self, *old(self), who, greeting@);
        }
        let home_anon = if who.is_anon {
            Some((who.anon_name.clone(), who.uid))
        } else {
            None
        };
        Arrival {
            session: Session {
                conn_id,
                ip,
                user_id: who.uid,
                is_anon: who.is_anon,
                token: who.token,
                home_anon,
                anon_name: who.anon_name,
            },
            greeting,
            displaced,
        }
    }

    fn greeting_for(&self, who: &Identity) -> (out: Vec<ServerMsg>)
        ensures
            greets(*self, *who, out@),
    {
        let mut out: Vec<ServerMsg> = Vec::new();
        out.push(
            ServerMsg::Welcome {
                author_id: who.uid,
                author: who.name.clone(),
                anon_name: who.anon_name.clone(),
                session_token: who.token.clone(),
            },
        );
        if !who.is_anon {
            let cells: u32 = match self.get_user_by_id(who.uid) {
                Some(u) => u.protected_cells,
                None => 0,
            };
            out.push(ServerMsg::AuthOk { username: who.name.clone(), protected_cells: cells });
        }
        out.push(ServerMsg::RegionData(self.region_records()));
        out
    }

    /// Lets a connection go, and tells all others that its cursor has left.
    pub fn disconnect(&mut self, conn_id: u64) -> (notes: Vec<(u64, ServerMsg)>)
        ensures
            final(self).connections@ == old(self).connections@.remove(conn_id),
            *final(self) == (AppState { connections: final(self).connections, ..*old(self) }),
            if old(self).connections@.contains_key(conn_id) {
                delivers(
                    notes@,
                    final(self).connections@,
                    |id: u64, c: ConnInfo| true,
                    |c: ConnInfo, m: ServerMsg|
                        says_left(m, old(self).connections@[conn_id].user_id),
                )
            } else {
                notes@.len() == 0
            },
    {
        broadcast use group_hash_axioms;

        match self.connections.remove(&conn_id) {
            Some(info) => {
                let notes = tell_left(self, info.user_id, None);
                proof {
                    let pos: Option<WorldCoords> = None;
                    lemma_delivers_same(
                        notes@,
                        self.connections@,
                        |id: u64, c: ConnInfo| pos matches Some(p) ==> sees(c, p),
                        |id: u64, c: ConnInfo| true,
                        |c: ConnInfo, m: ServerMsg| says_left(m, info.user_id),
                    );
                }
                notes
            },
            None => Vec::new(),
        }
    }
}

/// What a client is told when it has connected.
pub open spec fn greets(state: AppState, who: Identity, out: Seq<ServerMsg>) -> bool {
    &&& out.len() == (if who.is_anon {
        2int
    } else {
        3
    })
    &&& says_welcome(out[0], who.uid, who.name@, who.anon_name@, who.token@)
    &&& !who.is_anon ==> says_auth_ok(
        out[1],
        who.name@,
        match account(state.users@, who.uid) {
            Some(u) => u.protected_cells,
            None => 0,
        },
    )
    &&& out.last() matches ServerMsg::RegionData(recs) && tells_regions(state, recs@)
}

proof fn lemma_greets_same(a: AppState, b: AppState, who: Identity, out: Seq<ServerMsg>)
    requires
        greets(a, who, out),
        a == (AppState { connections: a.connections, ..b }),
    ensures
        greets(b, who, out),
{
    if let ServerMsg::RegionData(recs) = out.last() {
        let rs = choose|rs: Seq<StoredRegion>|
            {
                &&& #[trigger] lists_regions(rs, a.regions@)
                &&& recs@.len() == rs.len()
                &&& forall|i: int| 0 <= i < rs.len() ==> is_record(a, rs[i], #[trigger] recs@[i])
            };
        assert(lists_regions(rs, b.regions@));
        assert forall|i: int| 0 <= i < rs.len() implies is_record(
            b,
            rs[i],
            #[trigger] recs@[i],
        ) by {
            assert(is_record(a, rs[i], recs@[i]));
        }
    }
}

proof fn lemma_delivers_same(
    out: Seq<(u64, ServerMsg)>,
    conns: Map<u64, ConnInfo>,
    want: spec_fn(u64, ConnInfo) -> bool,
    want2: spec_fn(u64, ConnInfo) -> bool,
    says: spec_fn(ConnInfo, ServerMsg) -> bool,
)
    requires
        delivers(out, conns, want, says),
        forall|id: u64, c: ConnInfo| #[trigger] want(id, c) == want2(id, c),
    ensures
        delivers(out, conns, want2, says),
{
    assert forall|id: u64| #[trigger]
        conns.contains_key(id) && want2(id, conns[id]) implies exists|i: int|
        0 <= i < out.len() && (#[trigger] out[i]).0 == id by {
        assert(want(id, conns[id]));
    }
}

/// A client that comes back with the token it was given is who it was.
pub proof fn law_token_is_recognised(
    before: AppState,
    token: Option<Seq<char>>,
    fresh: Seq<char>,
    who: Identity,
    mid: AppState,
    other: Seq<char>,
    again: Identity,
    after: AppState,
)
    requires
        before.identifies(token, fresh, who, mid),
        mid.identifies(Some(who.token@), other, again, after),
    ensures
        after == mid,
        again.uid == who.uid,
        again.token@ == who.token@,
        again.name@ == who.name@,
        again.anon_name@ == who.anon_name@,
        again.is_anon == who.is_anon,
{
}

/// An account has one connection: the one that was made last.
pub proof fn law_last_connection_stays(
    before: AppState,
    conn_id: u64,
    who: Identity,
    a: Arrival,
    after: AppState,
    id: u64,
)
    requires
        before.admits_client(conn_id, who, a, after),
        after.connections@.contains_key(id),
        after.connections@[id].user_id == who.uid,
    ensures
        id == conn_id,
{
    let with_new = before.connections@.insert(conn_id, after.connections@[conn_id]);
    if id != conn_id {
        assert(is_displaced(with_new, conn_id, who.uid, id));
        assert(ids_of(a.displaced@).contains(id));
    }
}

} // verus!
