//! Which chunks the editor asks the server for.

use vstd::arithmetic::power2::{lemma2_to64, lemma_pow2_unfold, pow2};
use vstd::prelude::*;

use crate::chunks::{node_at, ChunkManager, ChunkNode, FetchStatus, NodeView, Nodes};
use crate::coords::{ChunkCoords, WorldRect};
use crate::msg::ClientMsg;
use crate::sort::{insert_by, law_sort_by, lemma_insert_by, orders, sort_by};
use crate::ui::{ClientMsgView, NetState, NetView};

verus! {

/// The chunks of column `x`, `n` rows from `y0` on.
pub open spec fn chunk_column(x: int, y0: int, n: nat) -> Seq<ChunkCoords> {
    Seq::new(n, |i: int| ChunkCoords { x: x as i8, y: (y0 + i) as i8 })
}

/// The chunks of `w` columns and `h` rows, column by column.
pub open spec fn chunk_columns(x0: int, w: nat, y0: int, h: nat) -> Seq<ChunkCoords>
    decreases w,
{
    if w == 0 {
        Seq::empty()
    } else {
        chunk_columns(x0, (w - 1) as nat, y0, h) + chunk_column(x0 + w - 1, y0, h)
    }
}

/// Number of columns, or rows, from one to another.
pub open spec fn span(r: (i64, i64)) -> nat {
    if r.0 <= r.1 {
        (r.1 - r.0 + 1) as nat
    } else {
        0
    }
}

/// The chunks of some columns and rows.
pub open spec fn visible(cols: (i64, i64), rows: (i64, i64)) -> Seq<ChunkCoords> {
    chunk_columns(cols.0 as int, span(cols), rows.0 as int, span(rows))
}

impl NodeView {
    /// The chunk is in view: what is missing to draw it is to be asked for.
    pub open spec fn wanted(self, step: u8, is_glyph: bool) -> NodeView {
        if is_glyph {
            if self.full_status == FetchStatus::Unasked {
                NodeView { full_status: FetchStatus::Pending, ..self }
            } else {
                self
            }
        } else if self.lod_status == FetchStatus::Unasked || (self.lod_status
            == FetchStatus::Loaded && self.lod_step > step) {
            NodeView { lod_status: FetchStatus::Pending, lod_step: step, ..self }
        } else {
            self
        }
    }
}

/// `m` with each of `chunks` in view.
pub open spec fn all_wanted(m: Nodes, chunks: Seq<ChunkCoords>, step: u8, is_glyph: bool) -> Nodes
    decreases chunks.len(),
{
    if chunks.len() == 0 {
        m
    } else {
        let before = all_wanted(m, chunks.drop_last(), step, is_glyph);
        before.insert(chunks.last(), node_at(before, chunks.last()).wanted(step, is_glyph))
    }
}

fn list_visible(cols: (i64, i64), rows: (i64, i64)) -> (r: Vec<ChunkCoords>)
    requires
        cols.1 < i64::MAX,
        rows.1 < i64::MAX,
    ensures
        r@ == visible(cols, rows),
{
    let (x0, x1): (i64, i64) = cols;
    let (y0, y1): (i64, i64) = rows;
    let ghost h = span(rows);
    let mut out: Vec<ChunkCoords> = Vec::new();
    let mut x: i64 = x0;
    while x <= x1
        invariant
            x1 < i64::MAX,
            y1 < i64::MAX,
            x0 <= x,
            x <= x1 + 1 || x == x0,
            h == (if y0 <= y1 {
                (y1 - y0 + 1) as nat
            } else {
                0
            }),
            out@ == chunk_columns(x0 as int, (x - x0) as nat, y0 as int, h),
        decreases x1 + 1 - x,
    {
        let ghost before = out@;
        let mut y: i64 = y0;
        assert(before + chunk_column(x as int, y0 as int, 0) =~= before);
        while y <= y1
            invariant
                y1 < i64::MAX,
                y0 <= y,
                y <= y1 + 1 || y == y0,
                out@ == before + chunk_column(x as int, y0 as int, (y - y0) as nat),
            decreases y1 + 1 - y,
        {
            out.push(ChunkCoords { x: x as i8, y: y as i8 });
            assert(out@ =~= before + chunk_column(x as int, y0 as int, (y + 1 - y0) as nat));
            y = y + 1;
        }
        assert((y - y0) as nat == h);
        x = x + 1;
    }
    out
}

/// The smallest power of two that is no smaller than `n`.
pub open spec fn power_of_two(n: int, p: int) -> bool {
    &&& exists|k: nat| p == #[trigger] pow2(k)
    &&& n <= p
    &&& p == 1 || p < 2 * n
}

/// How coarse the colors are that are asked for, where `raw_step` cells share a
/// pixel.
pub fn lod_step(raw_step: u32) -> (r: u8)
    requires
        raw_step <= 128,
    ensures
        power_of_two(raw_step as int, r as int),
{
    let mut p: u8 = 1;
    proof {
        lemma2_to64();
    }
    assert(p == pow2(0));
    while (p as u32) < raw_step
        invariant
            raw_step <= 128,
            1 <= p <= 128,
            exists|k: nat| p == #[trigger] pow2(k) && k < 8,
            p == 1 || p < 2 * raw_step,
        decreases 128 - p,
    {
        proof {
            let k = choose|k: nat| p == #[trigger] pow2(k) && k < 8;
            lemma_pow2_unfold(k + 1);
            lemma2_to64();
        }
        assert(p < 128);
        p = p * 2;
    }
    p
}

/// The chunk columns and rows that are in view, and how coarse they are shown.
pub fn visible_chunk_range(bounds: &WorldRect, raw_step: u32, is_glyph: bool) -> (r: (
    (i64, i64),
    (i64, i64),
    u8,
    bool,
))
    requires
        raw_step <= 128,
    ensures
        (r.0).0 == bounds.first_column() && (r.0).1 == bounds.last_column(),
        (r.1).0 == bounds.first_row() && (r.1).1 == bounds.last_row(),
        power_of_two(raw_step as int, r.2 as int),
        r.3 == is_glyph,
{
    (bounds.column_span(), bounds.row_span(), lod_step(raw_step), is_glyph)
}

/// Marks the chunks in view that are to be asked for, while there is a
/// connection.
pub fn queue_visible_chunks(
    board: &mut ChunkManager,
    is_conn: bool,
    cols: (i64, i64),
    rows: (i64, i64),
    step: u8,
    is_glyph: bool,
)
    requires
        old(board).wf(),
        cols.1 < i64::MAX,
        rows.1 < i64::MAX,
    ensures
        final(board).wf(),
        final(board)@ == (if is_conn {
            all_wanted(old(board)@, visible(cols, rows), step, is_glyph)
        } else {
            old(board)@
        }),
{
    if !is_conn {
        return;
    }
    let chunks = list_visible(cols, rows);
    let ghost before = board@;
    let mut i: usize = 0;
    assert(chunks@.take(0) =~= Seq::<ChunkCoords>::empty());
    while i < chunks.len()
        invariant
            i <= chunks@.len(),
            board.wf(),
            board@ == all_wanted(before, chunks@.take(i as int), step, is_glyph),
        decreases chunks@.len() - i,
    {
        assert(chunks@.take(i + 1).drop_last() =~= chunks@.take(i as int));
        let node = board.get_node_mut(chunks[i]);
        if is_glyph {
            if node.full_status == FetchStatus::Unasked {
                node.full_status = FetchStatus::Pending;
            }
        } else if node.lod_status == FetchStatus::Unasked || (node.lod_status
            == FetchStatus::Loaded && node.lod_step > step) {
            node.lod_status = FetchStatus::Pending;
            node.lod_step = step;
        }
        i = i + 1;
    }
    assert(chunks@.take(i as int) =~= chunks@);
}

/// A chunk that is to be asked for, how coarse, and how far off it is.
pub type Candidate = (ChunkCoords, u8, u64);

/// What is to be asked for of a chunk: all of it, which is step 1, or the colors
/// of each `lod_step`-th place.
pub open spec fn asked_step(n: NodeView) -> Option<u8> {
    if n.full_status == FetchStatus::Pending {
        Some(1)
    } else if n.lod_status == FetchStatus::Pending && n.lod_step != 1 {
        Some(n.lod_step)
    } else {
        None
    }
}

/// What is to be asked for of `chunks`, which are `dists` off.
pub open spec fn candidates_of(m: Nodes, chunks: Seq<ChunkCoords>, dists: Seq<u64>) -> Seq<Candidate>
    decreases chunks.len(),
{
    if chunks.len() == 0 {
        Seq::empty()
    } else {
        let before = candidates_of(m, chunks.drop_last(), dists.drop_last());
        match asked_step(m[chunks.last()]) {
            Some(step) => before.push((chunks.last(), step, dists.last())),
            None => before,
        }
    }
}

/// `chunks` are all chunks that are known, and `dists` how far off each is of
/// those that are to be asked for.
pub open spec fn measured<D: Fn(ChunkCoords) -> u64>(
    m: Nodes,
    dist: D,
    chunks: Seq<ChunkCoords>,
    dists: Seq<u64>,
) -> bool {
    &&& chunks.len() == dists.len()
    &&& chunks.no_duplicates()
    &&& forall|c: ChunkCoords| #[trigger] chunks.contains(c) <==> m.contains_key(c)
    &&& forall|i: int|
        0 <= i < chunks.len() && asked_step(m[#[trigger] chunks[i]]) is Some ==> call_ensures(
            dist,
            (chunks[i],),
            dists[i],
        )
}

/// The nearer come first.
pub open spec fn by_distance() -> spec_fn(Candidate, Candidate) -> bool {
    |a: Candidate, b: Candidate| a.2 <= b.2
}

/// The nearest `max` of `all`.
pub open spec fn nearest(all: Seq<Candidate>, max: nat) -> Seq<Candidate> {
    if all.len() > max {
        sort_by(all, by_distance()).take(max as int)
    } else {
        all
    }
}

/// `m` once `asked` have been asked for.
pub open spec fn all_asked(m: Nodes, asked: Seq<Candidate>) -> Nodes
    decreases asked.len(),
{
    if asked.len() == 0 {
        m
    } else {
        let before = all_asked(m, asked.drop_last());
        let (chunk, step, _) = asked.last();
        let node = node_at(before, chunk);
        before.insert(
            chunk,
            if step == 1 {
                NodeView { full_status: FetchStatus::InFlight, ..node }
            } else {
                NodeView { lod_status: FetchStatus::InFlight, ..node }
            },
        )
    }
}

/// Those of `asked` of which all is asked for.
pub open spec fn full_of(asked: Seq<Candidate>) -> Seq<ChunkCoords>
    decreases asked.len(),
{
    if asked.len() == 0 {
        Seq::empty()
    } else {
        let before = full_of(asked.drop_last());
        if asked.last().1 == 1 {
            before.push(asked.last().0)
        } else {
            before
        }
    }
}

/// Those of `asked` of which only colors are asked for, and how coarse.
pub open spec fn lod_of(asked: Seq<Candidate>) -> Seq<(ChunkCoords, u8)>
    decreases asked.len(),
{
    if asked.len() == 0 {
        Seq::empty()
    } else {
        let before = lod_of(asked.drop_last());
        if asked.last().1 == 1 {
            before
        } else {
            before.push((asked.last().0, asked.last().1))
        }
    }
}

/// The server has been asked for `asked`.
pub open spec fn asks(net: NetView, asked: Seq<Candidate>) -> NetView {
    let a = if full_of(asked).len() > 0 {
        net.sent(ClientMsgView::FetchChunkBatch { chunks: full_of(asked) })
    } else {
        net
    };
    if lod_of(asked).len() > 0 {
        a.sent(ClientMsgView::FetchLodBatch { entries: lod_of(asked) })
    } else {
        a
    }
}

fn list_candidates<D: Fn(ChunkCoords) -> u64>(board: &ChunkManager, dist: &D) -> (r: (
    Vec<Candidate>,
    Ghost<(Seq<ChunkCoords>, Seq<u64>)>,
))
    requires
        board.wf(),
        forall|c: ChunkCoords| board@.contains_key(c) ==> call_requires(*dist, (c,)),
    ensures
        measured(board@, *dist, r.1@.0, r.1@.1),
        r.0@ == candidates_of(board@, r.1@.0, r.1@.1),
{
    let keys = board.chunks.keys();
    let ghost mut dists = Seq::<u64>::empty();
    let mut out: Vec<Candidate> = Vec::new();
    let mut i: usize = 0;
    assert(keys@.take(0) =~= Seq::<ChunkCoords>::empty());
    while i < keys.len()
        invariant
            i <= keys@.len(),
            board.wf(),
            keys@.no_duplicates(),
            forall|c: ChunkCoords| #[trigger] keys@.contains(c) <==> board@.contains_key(c),
            forall|c: ChunkCoords| board@.contains_key(c) ==> call_requires(*dist, (c,)),
            dists.len() == i,
            forall|k: int|
                0 <= k < i && asked_step(board@[#[trigger] keys@[k]]) is Some ==> call_ensures(
                    *dist,
                    (keys@[k],),
                    dists[k],
                ),
            out@ == candidates_of(board@, keys@.take(i as int), dists),
        decreases keys@.len() - i,
    {
        let chunk = keys[i];
        assert(keys@.contains(chunk));
        let ghost before = dists;
        let ghost mut far: u64 = 0;
        let step: Option<u8> = match board.chunks.get(&chunk) {
            Some(node) => if node.full_status == FetchStatus::Pending {
                Some(1)
            } else if node.lod_status == FetchStatus::Pending && node.lod_step != 1 {
                Some(node.lod_step)
            } else {
                None
            },
            None => None,
        };
        assert(step == asked_step(board@[chunk]));
        match step {
            Some(s) => {
                let d: u64 = dist(chunk);
                proof {
                    far = d;
                }
                out.push((chunk, s, d));
            },
            None => {},
        }
        proof {
            dists = dists.push(far);
            assert(dists.drop_last() =~= before);
            assert(keys@.take(i + 1).drop_last() =~= keys@.take(i as int));
        }
        i = i + 1;
    }
    assert(keys@.take(i as int) =~= keys@);
    (out, Ghost((keys@, dists)))
}

fn insert_candidate(sorted: &mut Vec<Candidate>, x: Candidate)
    ensures
        final(sorted)@ == insert_by(old(sorted)@, x, by_distance()),
{
    let ghost s = sorted@;
    let mut k: usize = sorted.len();
    assert(s.take(k as int) =~= s);
    assert(insert_by(s.take(k as int), x, by_distance()) + s.skip(k as int) =~= insert_by(
        s,
        x,
        by_distance(),
    ));
    while k > 0 && sorted[k - 1].2 > x.2
        invariant
            k <= s.len(),
            sorted@ == s,
            insert_by(s.take(k as int), x, by_distance()) + s.skip(k as int) == insert_by(
                s,
                x,
                by_distance(),
            ),
        decreases k,
    {
        proof {
            let t = s.take(k as int);
            assert(!by_distance()(t.last(), x));
            assert(t.drop_last() =~= s.take(k - 1));
            assert(insert_by(s.take(k - 1), x, by_distance()) + s.skip(k - 1) =~= insert_by(
                t,
                x,
                by_distance(),
            ) + s.skip(k as int));
        }
        k = k - 1;
    }
    proof {
        let t = s.take(k as int);
        if k > 0 {
            assert(by_distance()(t.last(), x));
        }
        assert(insert_by(t, x, by_distance()) =~= t.push(x));
        assert(s.insert(k as int, x) =~= insert_by(s, x, by_distance()));
    }
    sorted.insert(k, x);
}

proof fn lemma_sorted_len(s: Seq<Candidate>)
    ensures
        sort_by(s, by_distance()).len() == s.len(),
    decreases s.len(),
{
    if s.len() > 0 {
        lemma_sorted_len(s.drop_last());
        lemma_insert_by(sort_by(s.drop_last(), by_distance()), s.last(), by_distance());
    }
}

/// The nearest `max` of `all`.
pub fn pick_nearest(all: Vec<Candidate>, max: usize) -> (r: Vec<Candidate>)
    ensures
        r@ == nearest(all@, max as nat),
{
    if all.len() <= max {
        return all;
    }
    let mut out: Vec<Candidate> = Vec::new();
    let mut i: usize = 0;
    assert(all@.take(0) =~= Seq::<Candidate>::empty());
    while i < all.len()
        invariant
            i <= all@.len(),
            out@ == sort_by(all@.take(i as int), by_distance()),
        decreases all@.len() - i,
    {
        assert(all@.take(i + 1).drop_last() =~= all@.take(i as int));
        insert_candidate(&mut out, all[i]);
        i = i + 1;
    }
    proof {
        assert(all@.take(i as int) =~= all@);
        lemma_sorted_len(all@);
    }
    out.truncate(max);
    out
}

/// Asks the server for the nearest `max` chunks of those that are to be asked
/// for.
pub fn flush_chunks<D: Fn(ChunkCoords) -> u64>(
    board: &mut ChunkManager,
    net: &mut NetState,
    max: usize,
    dist: &D,
)
    requires
        old(board).wf(),
        forall|c: ChunkCoords| old(board)@.contains_key(c) ==> call_requires(*dist, (c,)),
    ensures
        final(board).wf(),
        exists|chunks: Seq<ChunkCoords>, dists: Seq<u64>|
            {
                &&& #[trigger] measured(old(board)@, *dist, chunks, dists)
                &&& final(board)@ == all_asked(
                    old(board)@,
                    nearest(candidates_of(old(board)@, chunks, dists), max as nat),
                )
                &&& final(net)@ == asks(
                    old(net)@,
                    nearest(candidates_of(old(board)@, chunks, dists), max as nat),
                )
            },
{
    let (all, Ghost(found)) = list_candidates(board, dist);
    assert(measured(board@, *dist, found.0, found.1));
    let asked = pick_nearest(all, max);
    let ghost before = board@;
    let mut full: Vec<ChunkCoords> = Vec::new();
    let mut lod: Vec<(ChunkCoords, u8)> = Vec::new();
    let mut i: usize = 0;
    assert(asked@.take(0) =~= Seq::<Candidate>::empty());
    while i < asked.len()
        invariant
            i <= asked@.len(),
            board.wf(),
            board@ == all_asked(before, asked@.take(i as int)),
            full@ == full_of(asked@.take(i as int)),
            lod@ == lod_of(asked@.take(i as int)),
        decreases asked@.len() - i,
    {
        assert(asked@.take(i + 1).drop_last() =~= asked@.take(i as int));
        let (chunk, step, _) = asked[i];
        let node = board.get_node_mut(chunk);
        if step == 1 {
            node.full_status = FetchStatus::InFlight;
            full.push(chunk);
        } else {
            node.lod_status = FetchStatus::InFlight;
            lod.push((chunk, step));
        }
        i = i + 1;
    }
    assert(asked@.take(i as int) =~= asked@);
    if full.len() > 0 {
        net.send(ClientMsg::FetchChunkBatch { chunks: full });
    }
    if lod.len() > 0 {
        net.send(ClientMsg::FetchLodBatch { entries: lod });
    }
}

/// What `refresh_chunks` makes of what is known: `mid` is what is known once the
/// chunks in view are marked.
pub open spec fn refreshes<D: Fn(ChunkCoords) -> u64>(
    mid: Nodes,
    net: NetView,
    max: nat,
    dist: D,
    after: Nodes,
    net_after: NetView,
) -> bool {
    exists|chunks: Seq<ChunkCoords>, dists: Seq<u64>|
        {
            &&& #[trigger] measured(mid, dist, chunks, dists)
            &&& after == all_asked(mid, nearest(candidates_of(mid, chunks, dists), max))
            &&& net_after == asks(net, nearest(candidates_of(mid, chunks, dists), max))
        }
}

/// Marks the chunks in view that are to be asked for, and asks for the nearest
/// `max`.
pub fn refresh_chunks<D: Fn(ChunkCoords) -> u64>(
    board: &mut ChunkManager,
    net: &mut NetState,
    max: u64,
    cols: (i64, i64),
    rows: (i64, i64),
    step: u8,
    is_glyph: bool,
    dist: &D,
)
    requires
        old(board).wf(),
        max <= usize::MAX,
        cols.1 < i64::MAX,
        rows.1 < i64::MAX,
        forall|c: ChunkCoords| #[trigger] call_requires(*dist, (c,)),
    ensures
        final(board).wf(),
        refreshes(
            if old(net)@.is_conn {
                all_wanted(old(board)@, visible(cols, rows), step, is_glyph)
            } else {
                old(board)@
            },
            old(net)@,
            max as nat,
            *dist,
            final(board)@,
            final(net)@,
        ),
{
    queue_visible_chunks(board, net.is_conn, cols, rows, step, is_glyph);
    flush_chunks(board, net, max as usize, dist);
}

/// A chunk is kept if it is in view, or was drawn at `cutoff` or later.
pub open spec fn stays(
    c: ChunkCoords,
    n: NodeView,
    cutoff: u64,
    cols: (i64, i64),
    rows: (i64, i64),
) -> bool {
    (cols.0 <= c.x <= cols.1 && rows.0 <= c.y <= rows.1) || n.last_seen >= cutoff
}

/// Forgets the chunks that are out of view and have not been drawn for long.
pub fn evict_unseen(board: &mut ChunkManager, cutoff: u64, cols: (i64, i64), rows: (i64, i64))
    requires
        old(board).wf(),
    ensures
        final(board).wf(),
        final(board)@ == old(board)@.restrict(
            Set::new(
                |c: ChunkCoords|
                    old(board)@.contains_key(c) && stays(c, old(board)@[c], cutoff, cols, rows),
            ),
        ),
{
    let keys = board.chunks.keys();
    let ghost before = board@;
    let ghost raw = board.chunks@;
    let mut i: usize = 0;
    assert forall|k: int| 0 <= k < keys@.len() implies raw.contains_key(#[trigger] keys@[k]) by {
        assert(keys@.contains(keys@[k]));
    }
    while i < keys.len()
        invariant
            i <= keys@.len(),
            keys@.no_duplicates(),
            forall|c: ChunkCoords| #[trigger] keys@.contains(c) <==> raw.contains_key(c),
            before == raw.map_values(|n: ChunkNode| n@),
            forall|c: ChunkCoords| #[trigger] raw.contains_key(c) ==> raw[c].wf(),
            forall|c: ChunkCoords| #[trigger]
                board.chunks@.contains_key(c) ==> raw.contains_key(c) && board.chunks@[c] == raw[c],
            forall|k: int|
                0 <= k < keys@.len() ==> (board.chunks@.contains_key(#[trigger] keys@[k]) <==> (k
                    >= i || stays(keys@[k], before[keys@[k]], cutoff, cols, rows))),
        decreases keys@.len() - i,
    {
        let c = keys[i];
        assert(keys@.contains(c));
        let x: i64 = c.x as i64;
        let y: i64 = c.y as i64;
        let in_vp = cols.0 <= x && x <= cols.1 && rows.0 <= y && y <= rows.1;
        let seen: u64 = match board.chunks.get(&c) {
            Some(n) => n.last_seen,
            None => 0,
        };
        assert(seen == before[c].last_seen);
        if !in_vp && seen < cutoff {
            board.chunks.remove(&c);
        }
        i = i + 1;
    }
    proof {
        let kept = before.restrict(
            Set::new(
                |c: ChunkCoords|
                    before.contains_key(c) && stays(c, before[c], cutoff, cols, rows),
            ),
        );
        assert forall|c: ChunkCoords| board@.contains_key(c) <==> kept.contains_key(c) by {
            if before.contains_key(c) {
                assert(keys@.contains(c));
                let k = choose|k: int| 0 <= k < keys@.len() && keys@[k] == c;
                assert(board.chunks@.contains_key(keys@[k]) <==> stays(
                    c,
                    before[c],
                    cutoff,
                    cols,
                    rows,
                ));
            }
        }
        assert(board@ =~= kept);
    }
}

/// No more than `max` chunks are asked for, and none that is left out is nearer
/// than one that is asked for.
pub proof fn law_nearest_chunks_first(all: Seq<Candidate>, max: nat, i: int, j: int)
    requires
        all.len() > max,
        0 <= i < max,
        max <= j < all.len(),
    ensures
        nearest(all, max).len() == max,
        sort_by(all, by_distance()).to_multiset() == all.to_multiset(),
        nearest(all, max)[i] == sort_by(all, by_distance())[i],
        sort_by(all, by_distance())[i].2 <= sort_by(all, by_distance())[j].2,
{
    assert(orders(by_distance()));
    law_sort_by(all, by_distance());
    let s = sort_by(all, by_distance());
    assert(by_distance()(s[i], s[j]));
}

/// What was asked for before the connection was lost is asked for again.
pub proof fn law_lost_questions_are_repeated(n: NodeView)
    requires
        n.full_status == FetchStatus::InFlight || (n.full_status != FetchStatus::Pending
            && n.lod_status == FetchStatus::InFlight && n.lod_step != 1),
    ensures
        asked_step(n.requeued()) == Some(
            if n.full_status == FetchStatus::InFlight {
                1u8
            } else {
                n.lod_step
            },
        ),
{
}

/// A chunk that has been asked for, or that is there, is not asked for again
/// while it stays in view.
pub proof fn law_nothing_is_asked_for_twice(n: NodeView, step: u8)
    requires
        n.full_status == FetchStatus::InFlight || n.full_status == FetchStatus::Loaded,
        n.lod_status != FetchStatus::Pending,
    ensures
        asked_step(n.wanted(step, true)) is None,
{
}

} // verus!
