//! What holds of an editor that asks the server for chunks: it asks for what it
//! needs and does not have, and remembers what it has asked for.

use vstd::prelude::*;

use crate::chunks::{node_at, FetchStatus, Nodes};
use crate::connection::Scene;
use crate::coords::ChunkCoords;
use crate::editor::{lemma_ordered_messages, messages, EditorView};
use crate::fetch::{
    all_asked, all_wanted, asked_step, by_distance, candidates_of, chunk_columns, full_of, lod_of,
    measured, nearest, span, stays, visible, Candidate,
};
use crate::sort::{law_sort_by, orders, sort_by};
use crate::ui::{ClientMsgView, OrderView};

verus! {

/// The chunk lies in the columns and rows that are in view.
pub open spec fn in_scene(scene: Scene, c: ChunkCoords) -> bool {
    scene.cols.0 <= c.x <= scene.cols.1 && scene.rows.0 <= c.y <= scene.rows.1
}

/// The columns and rows have numbers of eight bits.
pub open spec fn is_narrow(scene: Scene) -> bool {
    &&& -128 <= scene.cols.0 && scene.cols.1 <= 127
    &&& -128 <= scene.rows.0 && scene.rows.1 <= 127
}

proof fn lemma_columns(x0: int, w: nat, y0: int, h: nat, c: ChunkCoords)
    requires
        -128 <= x0,
        x0 + w <= 128,
        -128 <= y0,
        y0 + h <= 128,
    ensures
        chunk_columns(x0, w, y0, h).contains(c) <==> x0 <= c.x < x0 + w && y0 <= c.y < y0 + h,
    decreases w,
{
    let all = chunk_columns(x0, w, y0, h);
    if w > 0 {
        lemma_columns(x0, (w - 1) as nat, y0, h, c);
        let before = chunk_columns(x0, (w - 1) as nat, y0, h);
        let col = crate::fetch::chunk_column(x0 + w - 1, y0, h);
        assert(all == before + col);
        if all.contains(c) {
            let i = choose|i: int| 0 <= i < all.len() && all[i] == c;
            if i < before.len() {
                assert(before[i] == c);
                assert(before.contains(c));
            } else {
                assert(col[i - before.len()] == c);
            }
        }
        if x0 <= c.x < x0 + w && y0 <= c.y < y0 + h {
            if c.x < x0 + w - 1 {
                assert(before.contains(c));
                let i = choose|i: int| 0 <= i < before.len() && before[i] == c;
                assert(all[i] == c);
            } else {
                assert(col[c.y - y0] == c);
                assert(all[before.len() + c.y - y0] == c);
            }
        }
    }
}

/// The chunks in view are those between the first and the last column and row.
pub proof fn law_chunks_in_view(scene: Scene, c: ChunkCoords)
    requires
        is_narrow(scene),
    ensures
        visible(scene.cols, scene.rows).contains(c) <==> in_scene(scene, c),
{
    if scene.cols.0 <= scene.cols.1 && scene.rows.0 <= scene.rows.1 {
        lemma_columns(
            scene.cols.0 as int,
            span(scene.cols),
            scene.rows.0 as int,
            span(scene.rows),
            c,
        );
    } else {
        lemma_no_columns(scene.cols.0 as int, span(scene.cols), scene.rows.0 as int);
    }
}

proof fn lemma_no_columns(x0: int, w: nat, y0: int)
    ensures
        chunk_columns(x0, w, y0, 0).len() == 0,
    decreases w,
{
    if w > 0 {
        lemma_no_columns(x0, (w - 1) as nat, y0);
    }
}

proof fn lemma_wanted(m: Nodes, chunks: Seq<ChunkCoords>, step: u8, is_glyph: bool, c: ChunkCoords)
    ensures
        ({
            let a = all_wanted(m, chunks, step, is_glyph);
            let (n, w) = (node_at(m, c), node_at(a, c));
            &&& !chunks.contains(c) ==> w == n && a.contains_key(c) == m.contains_key(c)
            &&& chunks.contains(c) ==> a.contains_key(c)
            &&& w.full == n.full && w.lod == n.lod && w.last_seen == n.last_seen
            &&& chunks.contains(c) && is_glyph && n.full_status == FetchStatus::Unasked
                ==> w.full_status == FetchStatus::Pending
            &&& !(chunks.contains(c) && is_glyph && n.full_status == FetchStatus::Unasked)
                ==> w.full_status == n.full_status
            &&& is_glyph ==> w.lod_status == n.lod_status && w.lod_step == n.lod_step
            &&& chunks.contains(c) && !is_glyph && (n.lod_status == FetchStatus::Unasked || (
            n.lod_status == FetchStatus::Loaded && n.lod_step > step)) ==> w.lod_status
                == FetchStatus::Pending && w.lod_step == step
            &&& !(chunks.contains(c) && !is_glyph && (n.lod_status == FetchStatus::Unasked || (
            n.lod_status == FetchStatus::Loaded && n.lod_step > step))) ==> w.lod_status
                == n.lod_status && w.lod_step == n.lod_step
        }),
    decreases chunks.len(),
{
    if chunks.len() > 0 {
        let rest = chunks.drop_last();
        lemma_wanted(m, rest, step, is_glyph, c);
        let k = chunks.len() - 1;
        assert(chunks[k] == chunks.last());
        if rest.contains(c) {
            let i = choose|i: int| 0 <= i < rest.len() && rest[i] == c;
            assert(chunks[i] == c);
        }
        if chunks.contains(c) && c != chunks.last() {
            let i = choose|i: int| 0 <= i < chunks.len() && chunks[i] == c;
            assert(rest[i] == c);
        }
    }
}

spec fn has_candidate(all: Seq<Candidate>, c: ChunkCoords, step: u8) -> bool {
    exists|k: int| 0 <= k < all.len() && (#[trigger] all[k]).0 == c && all[k].1 == step
}

proof fn lemma_candidates(
    m: Nodes,
    chunks: Seq<ChunkCoords>,
    dists: Seq<u64>,
    c: ChunkCoords,
    step: u8,
)
    requires
        chunks.len() == dists.len(),
    ensures
        has_candidate(candidates_of(m, chunks, dists), c, step) <==> chunks.contains(c)
            && asked_step(m[c]) == Some(step),
    decreases chunks.len(),
{
    let all = candidates_of(m, chunks, dists);
    if chunks.len() > 0 {
        let rest = chunks.drop_last();
        lemma_candidates(m, rest, dists.drop_last(), c, step);
        let before = candidates_of(m, rest, dists.drop_last());
        let n = chunks.len() - 1;
        assert(chunks[n] == chunks.last());
        if has_candidate(before, c, step) {
            let k = choose|k: int|
                0 <= k < before.len() && (#[trigger] before[k]).0 == c && before[k].1 == step;
            assert(all[k] == before[k]);
        }
        if rest.contains(c) {
            let i = choose|i: int| 0 <= i < rest.len() && rest[i] == c;
            assert(chunks[i] == c);
        }
        if chunks.contains(c) && c != chunks.last() {
            let i = choose|i: int| 0 <= i < chunks.len() && chunks[i] == c;
            assert(rest[i] == c);
        }
        if has_candidate(all, c, step) {
            let k = choose|k: int|
                0 <= k < all.len() && (#[trigger] all[k]).0 == c && all[k].1 == step;
            if k < before.len() {
                assert(before[k] == all[k]);
                assert(has_candidate(before, c, step));
            }
        }
        if c == chunks.last() && asked_step(m[c]) == Some(step) {
            assert(all[all.len() - 1].0 == c && all[all.len() - 1].1 == step);
        }
    }
}

proof fn lemma_nearest(all: Seq<Candidate>, max: nat)
    ensures
        nearest(all, max).len() <= max,
        all.len() <= max ==> nearest(all, max) == all,
        all.len() > max ==> nearest(all, max).len() == max,
        forall|x: Candidate| #[trigger] nearest(all, max).contains(x) ==> all.contains(x),
{
    broadcast use vstd::seq_lib::group_to_multiset_ensures;

    let le = by_distance();
    assert(orders(le)) by {
        assert forall|a: Candidate, b: Candidate| #[trigger] le(a, b) || le(b, a) by {}
    }
    law_sort_by(all, le);
    let sorted = sort_by(all, le);
    assert forall|x: Candidate| #[trigger] nearest(all, max).contains(x) implies all.contains(
        x,
    ) by {
        if all.len() > max {
            let i = choose|i: int| 0 <= i < max && nearest(all, max)[i] == x;
            assert(sorted[i] == x);
            assert(sorted.contains(x));
            assert(sorted.to_multiset().count(x) > 0);
        }
    }
}

proof fn lemma_asked(m: Nodes, asked: Seq<Candidate>, c: ChunkCoords)
    ensures
        ({
            let a = all_asked(m, asked);
            let (n, w) = (node_at(m, c), node_at(a, c));
            let full = full_of(asked).contains(c);
            let lod = exists|k: int| 0 <= k < lod_of(asked).len() && (#[trigger] lod_of(asked)[k]).0 == c;
            &&& w.full == n.full && w.lod == n.lod && w.lod_step == n.lod_step
            &&& w.full_status == (if full {
                FetchStatus::InFlight
            } else {
                n.full_status
            })
            &&& w.lod_status == (if lod {
                FetchStatus::InFlight
            } else {
                n.lod_status
            })
            &&& full <==> has_candidate(asked, c, 1)
            &&& forall|k: int|
                0 <= k < lod_of(asked).len() ==> (#[trigger] lod_of(asked)[k]).1 != 1
                    && has_candidate(asked, lod_of(asked)[k].0, lod_of(asked)[k].1)
            &&& forall|step: u8|
                step != 1 && #[trigger] has_candidate(asked, c, step) ==> lod_of(asked).contains(
                    (c, step),
                )
            &&& full_of(asked).len() + lod_of(asked).len() == asked.len()
        }),
    decreases asked.len(),
{
    if asked.len() > 0 {
        let rest = asked.drop_last();
        let x = asked.last();
        let n = asked.len() - 1;
        assert(asked[n] == x);
        lemma_asked(m, rest, c);
        let (f0, f1) = (full_of(rest), full_of(asked));
        let (l0, l1) = (lod_of(rest), lod_of(asked));
        assert(f1.contains(c) <==> f0.contains(c) || (x.1 == 1 && x.0 == c)) by {
            if f0.contains(c) {
                let i = choose|i: int| 0 <= i < f0.len() && f0[i] == c;
                assert(f1[i] == c);
            }
            if x.1 == 1 && x.0 == c {
                assert(f1[f0.len() as int] == c);
            }
            if f1.contains(c) {
                let i = choose|i: int| 0 <= i < f1.len() && f1[i] == c;
                if i < f0.len() {
                    assert(f0[i] == c);
                }
            }
        }
        assert forall|d: ChunkCoords, step: u8| #[trigger] has_candidate(
            asked,
            d,
            step,
        ) <==> has_candidate(rest, d, step) || (x.0 == d && x.1 == step) by {
            if has_candidate(rest, d, step) {
                let k = choose|k: int|
                    0 <= k < rest.len() && (#[trigger] rest[k]).0 == d && rest[k].1 == step;
                assert(asked[k].0 == d && asked[k].1 == step);
            }
            if x.0 == d && x.1 == step {
                assert(asked[n].0 == d && asked[n].1 == step);
            }
            if has_candidate(asked, d, step) {
                let k = choose|k: int|
                    0 <= k < asked.len() && (#[trigger] asked[k]).0 == d && asked[k].1 == step;
                if k < n {
                    assert(rest[k] == asked[k]);
                }
            }
        }
        let had = exists|k: int| 0 <= k < l0.len() && (#[trigger] l0[k]).0 == c;
        let has = exists|k: int| 0 <= k < l1.len() && (#[trigger] l1[k]).0 == c;
        assert(has <==> had || (x.1 != 1 && x.0 == c)) by {
            if had {
                let k = choose|k: int| 0 <= k < l0.len() && (#[trigger] l0[k]).0 == c;
                assert(l1[k].0 == c);
            }
            if x.1 != 1 && x.0 == c {
                assert(l1[l0.len() as int].0 == c);
            }
            if has {
                let k = choose|k: int| 0 <= k < l1.len() && (#[trigger] l1[k]).0 == c;
                if k < l0.len() {
                    assert(l0[k] == l1[k]);
                }
            }
        }
        assert forall|k: int| 0 <= k < l1.len() implies (#[trigger] l1[k]).1 != 1 && has_candidate(
            asked,
            l1[k].0,
            l1[k].1,
        ) by {
            if k < l0.len() {
                assert(l0[k] == l1[k]);
                assert(has_candidate(rest, l0[k].0, l0[k].1));
            }
        }
        assert forall|step: u8| step != 1 && #[trigger] has_candidate(
            asked,
            c,
            step,
        ) implies l1.contains((c, step)) by {
            if has_candidate(rest, c, step) {
                assert(l0.contains((c, step)));
                let k = choose|k: int| 0 <= k < l0.len() && l0[k] == (c, step);
                assert(l1[k] == (c, step));
            } else {
                assert(l1[l0.len() as int] == (c, step));
            }
        }
    }
}

/// The chunk is to be asked for in full: it has been waiting for that, or it is in
/// view, close enough to read, and was never asked for.
pub open spec fn is_due(m: Nodes, scene: Scene, c: ChunkCoords) -> bool {
    let n = node_at(m, c);
    ||| m.contains_key(c) && n.full_status == FetchStatus::Pending
    ||| in_scene(scene, c) && scene.is_glyph && n.full_status == FetchStatus::Unasked
}

/// The colors of the chunk are to be asked for at that step: they have been
/// waiting for that, or it is in view, too far off to read, and its colors were
/// never asked for, or only coarser ones are there.
pub open spec fn is_color_due(m: Nodes, scene: Scene, c: ChunkCoords, step: u8) -> bool {
    let n = node_at(m, c);
    let new = in_scene(scene, c) && !scene.is_glyph && (n.lod_status == FetchStatus::Unasked || (
    n.lod_status == FetchStatus::Loaded && n.lod_step > scene.step));
    &&& !is_due(m, scene, c)
    &&& step != 1
    &&& if new {
        step == scene.step
    } else {
        m.contains_key(c) && n.lod_status == FetchStatus::Pending && n.lod_step == step
    }
}

/// The server is asked for `full` and for the colors of `lod`, if there are any,
/// and for nothing else.
pub open spec fn asks_server(
    v: EditorView,
    after: EditorView,
    full: Seq<ChunkCoords>,
    lod: Seq<(ChunkCoords, u8)>,
) -> bool {
    let a = if full.len() > 0 {
        messages(v.net.todo).push(ClientMsgView::FetchChunkBatch { chunks: full })
    } else {
        messages(v.net.todo)
    };
    messages(after.net.todo) == (if lod.len() > 0 {
        a.push(ClientMsgView::FetchLodBatch { entries: lod })
    } else {
        a
    })
}

/// A chunk is asked for if it is due, and only then; where not all that are due
/// are asked for, 64 are. What is asked for, and only that, is noted as being on
/// its way; what is known of the chunks stays as it is.
pub open spec fn asks_for_what_is_due(
    v: EditorView,
    scene: Scene,
    after: EditorView,
    c: ChunkCoords,
    full: Seq<ChunkCoords>,
    lod: Seq<(ChunkCoords, u8)>,
) -> bool {
    let m = v.board.nodes;
    let (n, w) = (node_at(m, c), node_at(after.board.nodes, c));
    &&& asks_server(v, after, full, lod)
    &&& full.len() + lod.len() <= 64
    &&& full.contains(c) ==> is_due(m, scene, c)
    &&& is_due(m, scene, c) && !full.contains(c) ==> full.len() + lod.len() == 64
    &&& forall|k: int|
        0 <= k < lod.len() && (#[trigger] lod[k]).0 == c ==> is_color_due(m, scene, c, lod[k].1)
    &&& forall|step: u8|
        #[trigger] is_color_due(m, scene, c, step) && !lod.contains((c, step)) ==> full.len()
            + lod.len() == 64
    &&& w.full == n.full && w.lod == n.lod
    &&& n.full_status != FetchStatus::InFlight ==> (w.full_status == FetchStatus::InFlight
        <==> full.contains(c))
    &&& n.lod_status != FetchStatus::InFlight ==> (w.lod_status == FetchStatus::InFlight <==> exists|
        k: int,
    |
        0 <= k < lod.len() && (#[trigger] lod[k]).0 == c)
}

/// An editor that is connected asks for the chunks that are due, at most 64 at a
/// time, and remembers which it has asked for.
pub proof fn law_chunks_are_asked_for_when_due<D: Fn(ChunkCoords) -> u64>(
    v: EditorView,
    scene: Scene,
    dist: D,
    after: EditorView,
    c: ChunkCoords,
)
    requires
        v.asks_for_chunks(scene, dist, after),
        v.net.is_conn,
        is_narrow(scene),
    ensures
        exists|full: Seq<ChunkCoords>, lod: Seq<(ChunkCoords, u8)>| #[trigger]
            asks_for_what_is_due(v, scene, after, c, full, lod),
        after.ui == v.ui,
        after.net.pending == v.net.pending,
{
    let m = v.board.nodes;
    let shown = visible(scene.cols, scene.rows);
    let mid = all_wanted(m, shown, scene.step, scene.is_glyph);
    let (chunks, dists) = choose|chunks: Seq<ChunkCoords>, dists: Seq<u64>|
        {
            &&& #[trigger] measured(mid, dist, chunks, dists)
            &&& after.board.nodes == all_asked(mid, nearest(candidates_of(mid, chunks, dists), 64))
            &&& after.net == crate::fetch::asks(
                v.net,
                nearest(candidates_of(mid, chunks, dists), 64),
            )
        };
    let all = candidates_of(mid, chunks, dists);
    let asked = nearest(all, 64);
    let (full, lod) = (full_of(asked), lod_of(asked));
    law_chunks_in_view(scene, c);
    lemma_wanted(m, shown, scene.step, scene.is_glyph, c);
    lemma_nearest(all, 64);
    lemma_asked(mid, asked, c);
    lemma_candidates(mid, chunks, dists, c, 1);
    lemma_ordered_messages(
        v.net.todo,
        OrderView::Send(ClientMsgView::FetchChunkBatch { chunks: full }),
    );
    let a = if full.len() > 0 {
        v.net.sent(ClientMsgView::FetchChunkBatch { chunks: full })
    } else {
        v.net
    };
    lemma_ordered_messages(a.todo, OrderView::Send(ClientMsgView::FetchLodBatch { entries: lod }));
    assert(asks_server(v, after, full, lod));
    assert forall|step: u8| has_candidate(asked, c, step) implies #[trigger] has_candidate(
        all,
        c,
        step,
    ) by {
        let k = choose|k: int|
            0 <= k < asked.len() && (#[trigger] asked[k]).0 == c && asked[k].1 == step;
        assert(asked.contains(asked[k]));
        let h = choose|h: int| 0 <= h < all.len() && all[h] == asked[k];
        assert(all[h].0 == c && all[h].1 == step);
    }
    assert(chunks.contains(c) <==> mid.contains_key(c));
    assert(has_candidate(all, c, 1) ==> has_candidate(asked, c, 1) || asked.len() == 64);
    let w = node_at(mid, c);
    if mid.contains_key(c) {
        assert(mid[c] == w);
    }
    assert forall|step: u8| step != 1 implies (#[trigger] has_candidate(all, c, step)
        <==> is_color_due(m, scene, c, step)) by {
        lemma_candidates(mid, chunks, dists, c, step);
    }
    assert(is_due(m, scene, c) ==> has_candidate(all, c, 1));
    assert forall|k: int| 0 <= k < lod.len() && (#[trigger] lod[k]).0 == c implies is_color_due(
        m,
        scene,
        c,
        lod[k].1,
    ) by {
        assert(has_candidate(asked, c, lod[k].1));
        assert(has_candidate(all, c, lod[k].1));
    }
    assert forall|step: u8| #[trigger] is_color_due(m, scene, c, step) && !lod.contains(
        (c, step),
    ) implies full.len() + lod.len() == 64 by {
        assert(has_candidate(all, c, step));
        if all.len() <= 64 {
            assert(has_candidate(asked, c, step));
        }
    }
    assert(asks_for_what_is_due(v, scene, after, c, full, lod));
}

/// A chunk in view is kept, and one that was drawn lately; one that is neither is
/// forgotten.
pub proof fn law_chunks_in_view_are_kept(m: Nodes, scene: Scene, cutoff: u64, c: ChunkCoords)
    requires
        m.contains_key(c),
    ensures
        in_scene(scene, c) ==> stays(c, m[c], cutoff, scene.cols, scene.rows),
        m[c].last_seen >= cutoff ==> stays(c, m[c], cutoff, scene.cols, scene.rows),
        !in_scene(scene, c) && m[c].last_seen < cutoff ==> !stays(
            c,
            m[c],
            cutoff,
            scene.cols,
            scene.rows,
        ),
{
}

} // verus!
