//! Telling connections what has changed in their sight.

use vstd::prelude::*;
use vstd::std_specs::hash::*;

use crate::msg::{CellUpdateEntry, ServerMsg};
use crate::session::{delivers, lemma_sent_all, lemma_sent_step, sees, sent_to_first};
use crate::sight::in_view;
use crate::state::{AppState, ConnInfo};
use crate::table::keys_of;

verus! {

/// A change, and who is named as its author.
pub type News = (CellUpdateEntry, Seq<char>);

/// The changes that the connection sees, in order.
pub open spec fn in_sight(news: Seq<News>, c: ConnInfo) -> Seq<News> {
    news.filter(|n: News| sees(c, n.0.pos))
}

/// An author with number `id` is among `authors`.
pub open spec fn names_author(authors: Seq<(u32, Seq<char>)>, id: u32) -> bool {
    exists|i: int| 0 <= i < authors.len() && (#[trigger] authors[i]).0 == id
}

/// The authors of `news`, each once, under the name that comes first.
pub open spec fn authors_in(news: Seq<News>) -> Seq<(u32, Seq<char>)>
    decreases news.len(),
{
    if news.len() == 0 {
        Seq::empty()
    } else {
        let before = authors_in(news.drop_last());
        let (e, name) = news.last();
        if names_author(before, e.author_id) {
            before
        } else {
            before.push((e.author_id, name))
        }
    }
}

/// `m` tells of `seen`.
pub open spec fn tells_news(seen: Seq<News>, m: ServerMsg) -> bool {
    if seen.len() == 1 {
        m matches ServerMsg::CellUpdate { entry, author } && entry == seen[0].0 && author@
            == seen[0].1
    } else {
        m matches ServerMsg::CellUpdateBatch { updates, authors } && updates@ == seen.map_values(
            |n: News| n.0,
        ) && authors@.map_values(|a: (u32, String)| (a.0, a.1@)) == authors_in(seen)
    }
}

fn is_named(authors: &Vec<(u32, String)>, id: u32) -> (r: bool)
    ensures
        r == names_author(authors@.map_values(|a: (u32, String)| (a.0, a.1@)), id),
{
    let ghost v = authors@.map_values(|a: (u32, String)| (a.0, a.1@));
    let mut i: usize = 0;
    while i < authors.len()
        invariant
            i <= authors@.len(),
            v == authors@.map_values(|a: (u32, String)| (a.0, a.1@)),
            forall|k: int| 0 <= k < i ==> (#[trigger] v[k]).0 != id,
        decreases authors@.len() - i,
    {
        if authors[i].0 == id {
            assert(v[i as int].0 == id);
            return true;
        }
        i = i + 1;
    }
    false
}

/// What connection `c` is told of `buffer`, if it sees any of it.
fn news_for(c: &ConnInfo, buffer: &Vec<(CellUpdateEntry, String)>) -> (m: Option<ServerMsg>)
    ensures
        ({
            let seen = in_sight(
                buffer@.map_values(|e: (CellUpdateEntry, String)| (e.0, e.1@)),
                *c,
            );
            match m {
                Some(msg) => seen.len() > 0 && tells_news(seen, msg),
                None => seen.len() == 0,
            }
        }),
{
    let ghost all = buffer@.map_values(|e: (CellUpdateEntry, String)| (e.0, e.1@));
    let ghost keep = |n: News| sees(*c, n.0.pos);
    let mut updates: Vec<CellUpdateEntry> = Vec::new();
    let mut authors: Vec<(u32, String)> = Vec::new();
    let mut first: Option<String> = None;
    let mut i: usize = 0;
    proof {
        reveal(Seq::filter);
        assert(all.take(0) =~= Seq::<News>::empty());
        assert(updates@ =~= all.take(0).filter(keep).map_values(|n: News| n.0));
        assert(authors@.map_values(|a: (u32, String)| (a.0, a.1@)) =~= authors_in(
            all.take(0).filter(keep),
        ));
    }
    while i < buffer.len()
        invariant
            i <= buffer@.len(),
            all == buffer@.map_values(|e: (CellUpdateEntry, String)| (e.0, e.1@)),
            keep == (|n: News| sees(*c, n.0.pos)),
            updates@ == all.take(i as int).filter(keep).map_values(|n: News| n.0),
            authors@.map_values(|a: (u32, String)| (a.0, a.1@)) == authors_in(
                all.take(i as int).filter(keep),
            ),
            match first {
                Some(n) => updates@.len() > 0 && n@ == all.take(i as int).filter(keep)[0].1,
                None => updates@.len() == 0,
            },
        decreases buffer@.len() - i,
    {
        let ghost before = all.take(i as int).filter(keep);
        let ghost after = all.take(i + 1).filter(keep);
        let entry = buffer[i].0;
        proof {
            reveal(Seq::filter);
            assert(all.take(i + 1).drop_last() =~= all.take(i as int));
            assert(all.take(i + 1).last() == all[i as int]);
        }
        let visible = match c.viewport {
            Some(r) => r.contains(entry.pos),
            None => true,
        };
        if visible {
            assert(after == before.push(all[i as int]));
            assert(after.drop_last() =~= before);
            if first.is_none() {
                first = Some(buffer[i].1.clone());
            }
            if !is_named(&authors, entry.author_id) {
                let ghost a0 = authors@.map_values(|a: (u32, String)| (a.0, a.1@));
                authors.push((entry.author_id, buffer[i].1.clone()));
                assert(authors@.map_values(|a: (u32, String)| (a.0, a.1@)) =~= a0.push(
                    (entry.author_id, all[i as int].1),
                ));
            }
            updates.push(entry);
            assert(updates@ =~= after.map_values(|n: News| n.0));
        } else {
            assert(after == before);
        }
        i = i + 1;
    }
    assert(all.take(i as int) =~= all);
    let ghost seen = in_sight(all, *c);
    if updates.len() == 0 {
        return None;
    }
    if updates.len() == 1 {
        let entry = updates[0];
        assert(entry == seen.map_values(|n: News| n.0)[0]);
        return match first {
            Some(author) => Some(ServerMsg::CellUpdate { entry, author }),
            None => None,
        };
    }
    Some(ServerMsg::CellUpdateBatch { updates, authors })
}

impl AppState {
    /// Empties the queue of news, and tells every connection what of it lies in
    /// its sight.
    pub fn take_news(&mut self) -> (out: Vec<(u64, ServerMsg)>)
        ensures
            final(self).cell_update_buffer@.len() == 0,
            *final(self) == (AppState {
                cell_update_buffer: final(self).cell_update_buffer,
                ..*old(self)
            }),
            delivers(
                out@,
                old(self).connections@,
                |id: u64, c: ConnInfo| in_sight(old(self).queue(), c).len() > 0,
                |c: ConnInfo, m: ServerMsg| tells_news(in_sight(old(self).queue(), c), m),
            ),
            reaches_all_who_see(old(self).queue(), old(self).connections@, out@),
    {
        broadcast use group_hash_axioms;

        let mut buffer: Vec<(CellUpdateEntry, String)> = Vec::new();
        std::mem::swap(&mut buffer, &mut self.cell_update_buffer);
        let ghost queue = old(self).queue();
        let ghost want = |id: u64, c: ConnInfo| in_sight(old(self).queue(), c).len() > 0;
        let ghost says = |c: ConnInfo, m: ServerMsg| tells_news(in_sight(old(self).queue(), c), m);
        let ids = keys_of(&self.connections);
        let mut out: Vec<(u64, ServerMsg)> = Vec::new();
        let mut i: usize = 0;
        while i < ids.len()
            invariant
                i <= ids@.len(),
                ids@.no_duplicates(),
                forall|k: u64| #[trigger] ids@.contains(k) <==> self.connections@.contains_key(k),
                queue == old(self).queue(),
                queue == buffer@.map_values(|e: (CellUpdateEntry, String)| (e.0, e.1@)),
                want == (|id: u64, c: ConnInfo| in_sight(old(self).queue(), c).len() > 0),
                says == (|c: ConnInfo, m: ServerMsg|
                    tells_news(in_sight(old(self).queue(), c), m)),
                sent_to_first(out@, self.connections@, ids@, i as int, want, says),
            decreases ids@.len() - i,
        {
            let ghost before = out@;
            assert(ids@.contains(ids@[i as int]));
            if let Some(c) = self.connections.get(&ids[i]) {
                if let Some(m) = news_for(c, &buffer) {
                    out.push((ids[i], m));
                }
            }
            proof {
                lemma_sent_step(before, out@, self.connections@, ids@, i as int, want, says);
            }
            i = i + 1;
        }
        proof {
            lemma_sent_all(out@, self.connections@, ids@, want, says);
            law_news_reaches_all_who_see(old(self).queue(), old(self).connections@, out@);
        }
        out
    }
}

/// The message tells of the change.
pub open spec fn carries(m: ServerMsg, e: CellUpdateEntry) -> bool {
    match m {
        ServerMsg::CellUpdate { entry, .. } => entry == e,
        ServerMsg::CellUpdateBatch { updates, .. } => exists|j: int|
            0 <= j < updates@.len() && #[trigger] updates@[j] == e,
        _ => false,
    }
}

/// Connection `id` is told of the change.
pub open spec fn told(out: Seq<(u64, ServerMsg)>, id: u64, e: CellUpdateEntry) -> bool {
    exists|i: int| 0 <= i < out.len() && (#[trigger] out[i]).0 == id && carries(out[i].1, e)
}

/// The news is of a change to a place that the connection has in view.
pub open spec fn is_viewed(news: Seq<News>, q: int, e: CellUpdateEntry, c: ConnInfo) -> bool {
    0 <= q < news.len() && news[q].0 == e && in_view(c, e.pos)
}

/// Somebody of that number and name is the author of a change.
pub open spec fn is_author(news: Seq<News>, q: int, id: u32, name: Seq<char>) -> bool {
    0 <= q < news.len() && news[q].0.author_id == id && news[q].1 == name
}

/// One of the changes is by that number and name.
pub open spec fn has_author(news: Seq<News>, id: u32, name: Seq<char>) -> bool {
    exists|q: int| #[trigger] is_author(news, q, id, name)
}

/// The change is among the news, at a place that the connection has in view.
pub open spec fn views(news: Seq<News>, e: CellUpdateEntry, c: ConnInfo) -> bool {
    exists|q: int| #[trigger] is_viewed(news, q, e, c)
}

/// The one change came before the other.
pub open spec fn views_in_turn(
    news: Seq<News>,
    e: CellUpdateEntry,
    f: CellUpdateEntry,
    c: ConnInfo,
) -> bool {
    exists|q: int, r: int|
        q < r && #[trigger] is_viewed(news, q, e, c) && #[trigger] is_viewed(news, r, f, c)
}

/// The message tells of changes that the connection has in view, and of nothing
/// else, in the order in which they came; and it names their authors.
pub open spec fn tells_what_is_viewed(news: Seq<News>, c: ConnInfo, m: ServerMsg) -> bool {
    match m {
        ServerMsg::CellUpdate { entry, author } => exists|q: int| #[trigger]
            is_viewed(news, q, entry, c) && is_author(news, q, entry.author_id, author@),
        ServerMsg::CellUpdateBatch { updates, authors } => {
            &&& forall|j: int|
                0 <= j < updates@.len() ==> views(news, #[trigger] updates@[j], c)
            &&& forall|j: int, k: int|
                0 <= j < k < updates@.len() ==> views_in_turn(
                    news,
                    #[trigger] updates@[j],
                    #[trigger] updates@[k],
                    c,
                )
            &&& forall|j: int|
                0 <= j < updates@.len() ==> exists|a: int|
                    0 <= a < authors@.len() && (#[trigger] authors@[a]).0 == (
                    #[trigger] updates@[j]).author_id
            &&& forall|a: int|
                0 <= a < authors@.len() ==> has_author(
                    news,
                    (#[trigger] authors@[a]).0,
                    authors@[a].1@,
                )
            &&& forall|a: int, b: int|
                0 <= a < b < authors@.len() ==> (#[trigger] authors@[a]).0 != (
                #[trigger] authors@[b]).0
        },
        _ => false,
    }
}

/// Every connection is told of the changes that it has in view, in one message,
/// and of no other.
pub open spec fn reaches_all_who_see(
    news: Seq<News>,
    conns: Map<u64, ConnInfo>,
    out: Seq<(u64, ServerMsg)>,
) -> bool {
    &&& forall|q: int, id: u64|
        0 <= q < news.len() && conns.contains_key(id) && in_view(conns[id], news[q].0.pos)
            ==> #[trigger] told(out, id, news[q].0)
    &&& forall|i: int|
        0 <= i < out.len() ==> conns.contains_key((#[trigger] out[i]).0) && tells_what_is_viewed(
            news,
            conns[out[i].0],
            out[i].1,
        )
    &&& forall|i: int, j: int|
        0 <= i < j < out.len() ==> (#[trigger] out[i]).0 != (#[trigger] out[j]).0
}

/// Where the `j`th of the changes in sight stands among all.
proof fn lemma_seen_at(news: Seq<News>, c: ConnInfo, j: int) -> (q: int)
    requires
        0 <= j < in_sight(news, c).len(),
    ensures
        0 <= q < news.len(),
        news[q] == in_sight(news, c)[j],
        in_view(c, news[q].0.pos),
        in_sight(news.take(q), c).len() == j,
    decreases news.len(),
{
    reveal(Seq::filter);
    let n = news.len() - 1;
    let rest = news.drop_last();
    if j < in_sight(rest, c).len() {
        let q = lemma_seen_at(rest, c, j);
        assert(rest.take(q) =~= news.take(q));
        q
    } else {
        assert(news.take(n) =~= rest);
        n
    }
}

proof fn lemma_seen_grows(news: Seq<News>, c: ConnInfo, q: int, r: int)
    requires
        0 <= q <= r <= news.len(),
    ensures
        in_sight(news.take(q), c).len() <= in_sight(news.take(r), c).len(),
    decreases r - q,
{
    reveal(Seq::filter);
    if q < r {
        lemma_seen_grows(news, c, q, r - 1);
        assert(news.take(r).drop_last() =~= news.take(r - 1));
    }
}

/// A change in view is among those in sight.
proof fn lemma_seen(news: Seq<News>, c: ConnInfo, q: int) -> (j: int)
    requires
        0 <= q < news.len(),
        in_view(c, news[q].0.pos),
    ensures
        0 <= j < in_sight(news, c).len(),
        in_sight(news, c)[j] == news[q],
    decreases news.len(),
{
    reveal(Seq::filter);
    if q < news.len() - 1 {
        lemma_seen(news.drop_last(), c, q)
    } else {
        in_sight(news, c).len() - 1
    }
}

proof fn lemma_authors(seen: Seq<News>)
    ensures
        forall|j: int|
            0 <= j < seen.len() ==> names_author(authors_in(seen), (#[trigger] seen[j]).0.author_id),
        forall|a: int|
            0 <= a < authors_in(seen).len() ==> has_author(
                seen,
                (#[trigger] authors_in(seen)[a]).0,
                authors_in(seen)[a].1,
            ),
        forall|a: int, b: int|
            0 <= a < b < authors_in(seen).len() ==> (#[trigger] authors_in(seen)[a]).0 != (
            #[trigger] authors_in(seen)[b]).0,
    decreases seen.len(),
{
    if seen.len() > 0 {
        let rest = seen.drop_last();
        let n = seen.len() - 1;
        lemma_authors(rest);
        let before = authors_in(rest);
        let all = authors_in(seen);
        assert forall|j: int| 0 <= j < seen.len() implies names_author(
            all,
            (#[trigger] seen[j]).0.author_id,
        ) by {
            if j < n {
                assert(rest[j] == seen[j]);
                let i = choose|i: int|
                    0 <= i < before.len() && (#[trigger] before[i]).0 == seen[j].0.author_id;
                assert(all[i] == before[i]);
            } else if names_author(before, seen[n].0.author_id) {
                assert(all == before);
            } else {
                assert(all[all.len() - 1].0 == seen[n].0.author_id);
            }
        }
        assert forall|a: int| 0 <= a < all.len() implies has_author(
            seen,
            (#[trigger] all[a]).0,
            all[a].1,
        ) by {
            if a < before.len() {
                assert(all[a] == before[a]);
                let q = choose|q: int| #[trigger] is_author(rest, q, before[a].0, before[a].1);
                assert(is_author(seen, q, all[a].0, all[a].1));
            } else {
                assert(is_author(seen, n, all[a].0, all[a].1));
            }
        }
        assert forall|a: int, b: int| 0 <= a < b < all.len() implies (#[trigger] all[a]).0 != (
        #[trigger] all[b]).0 by {
            assert(all[a] == before[a]);
            if b < before.len() {
                assert(all[b] == before[b]);
            }
        }
    }
}

proof fn lemma_tells_what_is_viewed(news: Seq<News>, c: ConnInfo, m: ServerMsg)
    requires
        in_sight(news, c).len() > 0,
        tells_news(in_sight(news, c), m),
    ensures
        tells_what_is_viewed(news, c, m),
        forall|j: int| 0 <= j < in_sight(news, c).len() ==> carries(m, (#[trigger] in_sight(news, c)[j]).0),
{
    let seen = in_sight(news, c);
    match m {
        ServerMsg::CellUpdate { entry, author } => {
            let q = lemma_seen_at(news, c, 0);
            assert(is_viewed(news, q, entry, c) && is_author(news, q, entry.author_id, author@));
        },
        ServerMsg::CellUpdateBatch { updates, authors } => {
            lemma_authors(seen);
            let names = authors_in(seen);
            assert forall|j: int| 0 <= j < seen.len() implies #[trigger] updates@[j]
                == seen[j].0 by {}
            assert forall|a: int| 0 <= a < authors@.len() implies (#[trigger] authors@[a]).0
                == names[a].0 && authors@[a].1@ == names[a].1 by {
                assert(authors@.map_values(|x: (u32, String)| (x.0, x.1@))[a] == names[a]);
            }
            assert forall|j: int| 0 <= j < updates@.len() implies views(
                news,
                #[trigger] updates@[j],
                c,
            ) by {
                let q = lemma_seen_at(news, c, j);
                assert(is_viewed(news, q, updates@[j], c));
            }
            assert forall|j: int, k: int| 0 <= j < k < updates@.len() implies views_in_turn(
                news,
                #[trigger] updates@[j],
                #[trigger] updates@[k],
                c,
            ) by {
                let q = lemma_seen_at(news, c, j);
                let r = lemma_seen_at(news, c, k);
                if r <= q {
                    lemma_seen_grows(news, c, r, q);
                }
                assert(is_viewed(news, q, updates@[j], c) && is_viewed(news, r, updates@[k], c));
            }
            assert forall|j: int| 0 <= j < updates@.len() implies exists|a: int|
                0 <= a < authors@.len() && (#[trigger] authors@[a]).0 == (
                #[trigger] updates@[j]).author_id by {
                assert(names_author(names, seen[j].0.author_id));
                let a = choose|a: int|
                    0 <= a < names.len() && (#[trigger] names[a]).0 == seen[j].0.author_id;
                assert(authors@[a].0 == updates@[j].author_id);
            }
            assert forall|a: int| 0 <= a < authors@.len() implies has_author(
                news,
                (#[trigger] authors@[a]).0,
                authors@[a].1@,
            ) by {
                assert(has_author(seen, names[a].0, names[a].1));
                let j = choose|j: int| #[trigger] is_author(seen, j, names[a].0, names[a].1);
                let q = lemma_seen_at(news, c, j);
                assert(is_author(news, q, authors@[a].0, authors@[a].1@));
            }
            assert forall|a: int, b: int| 0 <= a < b < authors@.len() implies (
            #[trigger] authors@[a]).0 != (#[trigger] authors@[b]).0 by {
                assert(names[a].0 != names[b].0);
            }
            assert forall|j: int| 0 <= j < seen.len() implies carries(m, (#[trigger] seen[j]).0) by {
                assert(updates@[j] == seen[j].0);
            }
        },
        _ => {},
    }
}

/// Every connection is told of the changes that it has in view, in the order in
/// which they came and with their authors, and of no other.
pub proof fn law_news_reaches_all_who_see(
    news: Seq<News>,
    conns: Map<u64, ConnInfo>,
    out: Seq<(u64, ServerMsg)>,
)
    requires
        delivers(
            out,
            conns,
            |id: u64, c: ConnInfo| in_sight(news, c).len() > 0,
            |c: ConnInfo, m: ServerMsg| tells_news(in_sight(news, c), m),
        ),
    ensures
        reaches_all_who_see(news, conns, out),
{
    let want = |id: u64, c: ConnInfo| in_sight(news, c).len() > 0;
    assert forall|q: int, id: u64|
        0 <= q < news.len() && conns.contains_key(id) && in_view(
            conns[id],
            news[q].0.pos,
        ) implies #[trigger] told(out, id, news[q].0) by {
        let j = lemma_seen(news, conns[id], q);
        assert(want(id, conns[id]));
        let i = choose|i: int| 0 <= i < out.len() && (#[trigger] out[i]).0 == id;
        lemma_tells_what_is_viewed(news, conns[id], out[i].1);
        assert(carries(out[i].1, in_sight(news, conns[id])[j].0));
    }
    assert forall|i: int| 0 <= i < out.len() implies conns.contains_key((#[trigger] out[i]).0)
        && tells_what_is_viewed(news, conns[out[i].0], out[i].1) by {
        assert(want(out[i].0, conns[out[i].0]));
        lemma_tells_what_is_viewed(news, conns[out[i].0], out[i].1);
    }
}

} // verus!
