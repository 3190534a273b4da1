//! What holds of those who look at the board from afar, and of its statistics.

use vstd::prelude::*;

use crate::coords::ChunkCoords;
use crate::model::StoredChunkCell;
use crate::msg::{AuthorStat, ClientMsg, LodCell, ServerMsg};
use crate::protocol::Moment;
use crate::query::{block_of, by_count, lod_of, snapped, top_writers, writers};
use crate::reading::{all_in_place, lemma_cell_of_slot, lemma_slot_of_cell};
use crate::session::{Outgoing, Session};
use crate::sort::{insert_by, sort_by};
use crate::state::AppState;
use crate::world::{cells_below, chunk_cells, Slot};

verus! {

/// Cell number `k` of the chunk lies in the block of `step` by `step` cells with
/// the corner `(x, y)`.
pub open spec fn in_block(chunk: ChunkCoords, k: int, x: int, y: int, step: int) -> bool {
    &&& 0 <= k < 1024
    &&& x <= 64 * chunk.x + k % 64 < x + step
    &&& y <= 16 * chunk.y + k / 64 < y + step
}

proof fn lemma_snapped(n: int, step: u8, x: int)
    requires
        step != 0,
    ensures
        snapped(n, step) <= n < snapped(n, step) + step,
        snapped(n, step) % (step as int) == 0,
        x % (step as int) == 0 && x <= n < x + step ==> x == snapped(n, step),
{
    let d = step as int;
    vstd::arithmetic::div_mod::lemma_fundamental_div_mod(n, d);
    assert(snapped(n, step) == d * (n / d)) by (nonlinear_arith)
        requires
            snapped(n, step) == (n / d) * d,
    ;
    vstd::arithmetic::div_mod::lemma_mod_multiples_basic(n / d, d);
    if x % d == 0 && x <= n < x + d {
        vstd::arithmetic::div_mod::lemma_fundamental_div_mod(x, d);
        let (q, r) = (x / d, n / d);
        assert(q == r) by (nonlinear_arith)
            requires
                d > 0,
                x == d * q,
                d * r <= n < d * r + d,
                x <= n < x + d,
        ;
    }
}

/// Block `l` is the one of cell `i`, the first of `cells` in it.
spec fn block_from(
    chunk: ChunkCoords,
    step: u8,
    cells: Seq<StoredChunkCell>,
    l: LodCell,
    i: int,
) -> bool {
    &&& 0 <= i < cells.len()
    &&& block_of(chunk, step, cells[i]) == (chunk.x * 64 + l.local.x, chunk.y * 16 + l.local.y)
    &&& l.local.x < 64 && l.local.y < 16
    &&& l.color == cells[i].color
    &&& forall|h: int|
        0 <= h < i ==> block_of(chunk, step, #[trigger] cells[h]) != block_of(chunk, step, cells[i])
}

spec fn has_source(
    chunk: ChunkCoords,
    step: u8,
    cells: Seq<StoredChunkCell>,
    l: LodCell,
) -> bool {
    exists|i: int| block_from(chunk, step, cells, l, i)
}

spec fn has_block(lod: Seq<LodCell>, x: int, y: int) -> bool {
    exists|j: int|
        0 <= j < lod.len() && (#[trigger] lod[j]).local.x == x && lod[j].local.y == y
}

proof fn lemma_lod(chunk: ChunkCoords, step: u8, cells: Seq<StoredChunkCell>)
    ensures
        forall|j: int|
            0 <= j < lod_of(chunk, step, cells).len() ==> has_source(
                chunk,
                step,
                cells,
                #[trigger] lod_of(chunk, step, cells)[j],
            ),
        forall|i: int|
            #![trigger cells[i]]
            0 <= i < cells.len() ==> {
                let (bx, by) = block_of(chunk, step, cells[i]);
                0 <= bx - chunk.x * 64 < 64 && 0 <= by - chunk.y * 16 < 16 ==> has_block(
                    lod_of(chunk, step, cells),
                    bx - chunk.x * 64,
                    by - chunk.y * 16,
                )
            },
        forall|i: int, j: int|
            0 <= i < j < lod_of(chunk, step, cells).len() ==> (#[trigger] lod_of(
                chunk,
                step,
                cells,
            )[i]).local != (#[trigger] lod_of(chunk, step, cells)[j]).local,
    decreases cells.len(),
{
    if cells.len() > 0 {
        let n = cells.len() - 1;
        let rest = cells.drop_last();
        lemma_lod(chunk, step, rest);
        let before = lod_of(chunk, step, rest);
        let lod = lod_of(chunk, step, cells);
        let c = cells.last();
        let (bx, by) = block_of(chunk, step, c);
        let (x, y) = (bx - chunk.x * 64, by - chunk.y * 16);
        let known = exists|i: int|
            0 <= i < rest.len() && #[trigger] block_of(chunk, step, rest[i]) == (bx, by);
        assert forall|j: int| 0 <= j < lod.len() implies has_source(
            chunk,
            step,
            cells,
            #[trigger] lod[j],
        ) by {
            if j < before.len() {
                assert(lod[j] == before[j]);
                assert(has_source(chunk, step, rest, before[j]));
                let i = choose|i: int| block_from(chunk, step, rest, before[j], i);
                assert forall|h: int| 0 <= h < i implies block_of(chunk, step, #[trigger] cells[h])
                    != block_of(chunk, step, cells[i]) by {
                    assert(rest[h] == cells[h]);
                }
                assert(block_from(chunk, step, cells, lod[j], i));
            } else {
                assert forall|h: int| 0 <= h < n implies block_of(chunk, step, #[trigger] cells[h])
                    != block_of(chunk, step, cells[n]) by {
                    assert(rest[h] == cells[h]);
                    assert(block_of(chunk, step, rest[h]) != (bx, by));
                }
                assert(block_from(chunk, step, cells, lod[j], n));
            }
        }
        assert forall|i: int| #![trigger cells[i]] 0 <= i < cells.len() implies {
            let (ux, uy) = block_of(chunk, step, cells[i]);
            0 <= ux - chunk.x * 64 < 64 && 0 <= uy - chunk.y * 16 < 16 ==> has_block(
                lod,
                ux - chunk.x * 64,
                uy - chunk.y * 16,
            )
        } by {
            let (ux, uy) = block_of(chunk, step, cells[i]);
            if 0 <= ux - chunk.x * 64 < 64 && 0 <= uy - chunk.y * 16 < 16 {
                let h = if i < n {
                    i
                } else if known {
                    choose|h: int|
                        0 <= h < rest.len() && #[trigger] block_of(chunk, step, rest[h]) == (bx, by)
                } else {
                    n
                };
                if h < n {
                    assert(block_of(chunk, step, rest[h]) == (ux, uy));
                    let j = choose|j: int|
                        0 <= j < before.len() && (#[trigger] before[j]).local.x == ux - chunk.x * 64
                            && before[j].local.y == uy - chunk.y * 16;
                    assert(lod[j] == before[j]);
                } else {
                    assert(lod[lod.len() - 1].local.x == x && lod[lod.len() - 1].local.y == y);
                }
            }
        }
        assert forall|i: int, j: int| 0 <= i < j < lod.len() implies (#[trigger] lod[i]).local != (
        #[trigger] lod[j]).local by {
            assert(lod[i] == before[i]);
            if j < before.len() {
                assert(lod[j] == before[j]);
            } else {
                assert(has_source(chunk, step, rest, before[i]));
                let h = choose|h: int| block_from(chunk, step, rest, before[i], h);
                assert(block_of(chunk, step, rest[h]) != (bx, by));
            }
        }
    }
}

/// `l` is the block of `step` by `step` cells, of those on the board that start
/// at a multiple of `step`, of which cell number `k` is the first that is written.
pub open spec fn shows_block(
    m: Map<Slot, StoredChunkCell>,
    chunk: ChunkCoords,
    step: int,
    l: LodCell,
    k: int,
) -> bool {
    let (x, y) = (64 * chunk.x + l.local.x, 16 * chunk.y + l.local.y);
    &&& l.local.x < 64 && l.local.y < 16
    &&& x % step == 0 && y % step == 0
    &&& in_block(chunk, k, x, y, step)
    &&& m.contains_key((chunk, k))
    &&& l.color == m[(chunk, k)].color
    &&& forall|h: int|
        0 <= h < k && #[trigger] in_block(chunk, h, x, y, step) ==> !m.contains_key((chunk, h))
}

/// `l` is the block of some cell that is written.
pub open spec fn shows_some_block(
    m: Map<Slot, StoredChunkCell>,
    chunk: ChunkCoords,
    step: int,
    l: LodCell,
) -> bool {
    exists|k: int| shows_block(m, chunk, step, l, k)
}

/// What is sent of a chunk as seen from afar: each block that is sent has the
/// color of the first cell that is written in it, no block is sent twice, and
/// every block with something written in it is sent, unless it starts outside of
/// the chunk.
pub proof fn law_chunk_from_afar_shows_its_blocks(
    before: AppState,
    s: Session,
    entries: Vec<(ChunkCoords, u8)>,
    at: Moment,
    out: Seq<Outgoing>,
    s2: Session,
    after: AppState,
    i: int,
    k: int,
    x: int,
    y: int,
)
    requires
        before.handles(s, ClientMsg::FetchLodBatch { entries }, at, out, s2, after),
        all_in_place(before.world@),
        0 <= i < entries@.len(),
        entries@[i].1 != 0,
    ensures
        after == before,
        s2 == s,
        out.len() == 1,
        out[0] matches Outgoing::Back(ServerMsg::LodDataBatch { entries: sent }) && {
            let chunk = entries@[i].0;
            let step = entries@[i].1 as int;
            let blocks = sent@[i].2@;
            &&& sent@.len() == entries@.len()
            &&& sent@[i].0 == chunk
            &&& sent@[i].1 == step
            &&& forall|j: int|
                0 <= j < blocks.len() ==> shows_some_block(
                    before.world@,
                    chunk,
                    step,
                    #[trigger] blocks[j],
                )
            &&& forall|j: int, h: int|
                0 <= j < h < blocks.len() ==> (#[trigger] blocks[j]).local != (
                #[trigger] blocks[h]).local
            &&& before.world@.contains_key((chunk, k)) && x % step == 0 && y % step == 0
                && in_block(chunk, k, x, y, step) && 64 * chunk.x <= x && 16 * chunk.y <= y
                ==> exists|j: int|
                0 <= j < blocks.len() && 64 * chunk.x + (#[trigger] blocks[j]).local.x == x && 16
                    * chunk.y + blocks[j].local.y == y
        },
{
    let m = before.world@;
    let chunk = entries@[i].0;
    let step = entries@[i].1;
    let d = step as int;
    let cells = chunk_cells(m, chunk);
    let blocks = lod_of(chunk, step, cells);
    let sent = out[0]->Back_0->LodDataBatch_entries;
    assert(sent@[i].2@ == blocks);
    lemma_lod(chunk, step, cells);
    assert forall|j: int| 0 <= j < blocks.len() implies shows_some_block(
        m,
        chunk,
        d,
        #[trigger] blocks[j],
    ) by {
        let l = blocks[j];
        assert(has_source(chunk, step, cells, l));
        let c = choose|c: int| block_from(chunk, step, cells, l, c);
        let h = lemma_slot_of_cell(m, chunk, 1024, c);
        let (bx, by) = (64 * chunk.x + l.local.x, 16 * chunk.y + l.local.y);
        let local = m[(chunk, h)].local;
        assert(h % 64 == local.x && h / 64 == local.y);
        lemma_snapped(chunk.x * 64 + local.x, step, bx);
        lemma_snapped(chunk.y * 16 + local.y, step, by);
        assert forall|g: int| 0 <= g < h && #[trigger] in_block(
            chunk,
            g,
            bx,
            by,
            d,
        ) implies !m.contains_key((chunk, g)) by {
            if m.contains_key((chunk, g)) {
                lemma_cell_of_slot(m, chunk, h as nat, g);
                lemma_cell_of_slot(m, chunk, 1024, g);
                let e = cells_below(m, chunk, g as nat).len() as int;
                let other = m[(chunk, g)].local;
                assert(g % 64 == other.x && g / 64 == other.y);
                lemma_snapped(chunk.x * 64 + other.x, step, bx);
                lemma_snapped(chunk.y * 16 + other.y, step, by);
                assert(block_of(chunk, step, cells[e]) == (bx, by));
            }
        }
        assert(shows_block(m, chunk, d, l, h));
    }
    if m.contains_key((chunk, k)) && x % d == 0 && y % d == 0 && in_block(chunk, k, x, y, d) && 64
        * chunk.x <= x && 16 * chunk.y <= y {
        lemma_cell_of_slot(m, chunk, 1024, k);
        let e = cells_below(m, chunk, k as nat).len() as int;
        let local = m[(chunk, k)].local;
        assert(k % 64 == local.x && k / 64 == local.y);
        lemma_snapped(chunk.x * 64 + local.x, step, x);
        lemma_snapped(chunk.y * 16 + local.y, step, y);
        assert(block_of(chunk, step, cells[e]) == (x, y));
        assert(has_block(blocks, x - chunk.x * 64, y - chunk.y * 16));
    }
}

/// Who has written more comes first; of two who have written as much, the one
/// with the lower number.
spec fn ranks(a: (u32, u32), b: (u32, u32)) -> bool {
    a.1 > b.1 || (a.1 == b.1 && a.0 < b.0)
}

spec fn ranked(s: Seq<(u32, u32)>) -> bool {
    forall|i: int, j: int| 0 <= i < j < s.len() ==> ranks(#[trigger] s[i], #[trigger] s[j])
}

proof fn lemma_insert_ranked(s: Seq<(u32, u32)>, x: (u32, u32))
    requires
        ranked(s),
        forall|i: int| 0 <= i < s.len() ==> (#[trigger] s[i]).0 < x.0,
    ensures
        ranked(insert_by(s, x, by_count())),
        insert_by(s, x, by_count()).len() == s.len() + 1,
        forall|y: (u32, u32)| #[trigger]
            insert_by(s, x, by_count()).contains(y) <==> s.contains(y) || y == x,
    decreases s.len(),
{
    let r = insert_by(s, x, by_count());
    if s.len() == 0 {
        assert(r[0] == x);
    } else if s.last().1 >= x.1 {
        assert(r == s.push(x));
        assert forall|y: (u32, u32)| #[trigger] r.contains(y) <==> s.contains(y) || y == x by {
            if s.contains(y) {
                let i = choose|i: int| 0 <= i < s.len() && s[i] == y;
                assert(r[i] == y);
            }
            if y == x {
                assert(r[s.len() as int] == y);
            }
        }
        assert forall|i: int, j: int| 0 <= i < j < r.len() implies ranks(
            #[trigger] r[i],
            #[trigger] r[j],
        ) by {
            if j == s.len() && i < s.len() - 1 {
                assert(ranks(s[i], s[s.len() - 1]));
            }
        }
    } else {
        let d = s.drop_last();
        lemma_insert_ranked(d, x);
        let before = insert_by(d, x, by_count());
        assert(r == before.push(s.last()));
        assert forall|y: (u32, u32)| #[trigger] r.contains(y) <==> s.contains(y) || y == x by {
            if r.contains(y) {
                let i = choose|i: int| 0 <= i < r.len() && r[i] == y;
                if i < before.len() {
                    assert(before[i] == y);
                    assert(before.contains(y));
                    if d.contains(y) {
                        let h = choose|h: int| 0 <= h < d.len() && d[h] == y;
                        assert(s[h] == y);
                    }
                } else {
                    assert(s[s.len() - 1] == y);
                }
            }
            if s.contains(y) || y == x {
                if y == s.last() {
                    assert(r[before.len() as int] == y);
                } else {
                    if s.contains(y) {
                        let h = choose|h: int| 0 <= h < s.len() && s[h] == y;
                        assert(d[h] == y);
                    }
                    assert(before.contains(y));
                    let i = choose|i: int| 0 <= i < before.len() && before[i] == y;
                    assert(r[i] == y);
                }
            }
        }
        assert forall|i: int, j: int| 0 <= i < j < r.len() implies ranks(
            #[trigger] r[i],
            #[trigger] r[j],
        ) by {
            if j == before.len() {
                assert(before.contains(before[i]));
                if d.contains(before[i]) {
                    let h = choose|h: int| 0 <= h < d.len() && d[h] == before[i];
                    assert(ranks(s[h], s[s.len() - 1]));
                }
            } else {
                assert(ranks(before[i], before[j]));
            }
        }
    }
}

/// The writers in order: each with their count, nobody left out.
proof fn lemma_writers_ranked(counts: Seq<u32>)
    requires
        counts.len() <= 0x1_0000_0000,
    ensures
        ({
            let all = sort_by(writers(counts), by_count());
            &&& ranked(all)
            &&& all.len() == writers(counts).len()
            &&& forall|i: int|
                0 <= i < all.len() ==> (#[trigger] all[i]).0 < counts.len() && all[i].1
                    == counts[all[i].0 as int] && all[i].1 > 0
            &&& forall|u: int|
                0 <= u < counts.len() && counts[u] > 0 ==> all.contains(
                    #[trigger] writer(counts, u),
                )
        }),
    decreases counts.len(),
{
    if counts.len() > 0 {
        let rest = counts.drop_last();
        lemma_writers_ranked(rest);
        let before = sort_by(writers(rest), by_count());
        let all = sort_by(writers(counts), by_count());
        let n = counts.len() - 1;
        if counts.last() > 0 {
            let x = (n as u32, counts.last());
            assert(writers(counts).drop_last() =~= writers(rest));
            lemma_insert_ranked(before, x);
            assert(all == insert_by(before, x, by_count()));
            assert forall|i: int| 0 <= i < all.len() implies (#[trigger] all[i]).0 < counts.len()
                && all[i].1 == counts[all[i].0 as int] && all[i].1 > 0 by {
                assert(all.contains(all[i]));
                if before.contains(all[i]) {
                    let h = choose|h: int| 0 <= h < before.len() && before[h] == all[i];
                    assert(before[h].0 < rest.len());
                }
            }
        }
        assert forall|u: int| 0 <= u < counts.len() && counts[u] > 0 implies all.contains(
            #[trigger] writer(counts, u),
        ) by {
            if u < n {
                assert(writer(rest, u) == writer(counts, u));
            }
        }
    }
}

spec fn writer(counts: Seq<u32>, u: int) -> (u32, u32) {
    (u as u32, counts[u])
}

/// `top` tells of the accounts `ids`: their names, and how much they have
/// written.
pub open spec fn tells_of_writers(
    state: AppState,
    top: Seq<AuthorStat>,
    ids: Seq<u32>,
) -> bool {
    let counts = state.authors_count@;
    &&& ids.len() == top.len()
    &&& forall|i: int|
        0 <= i < ids.len() ==> {
            &&& #[trigger] ids[i] < counts.len()
            &&& counts[ids[i] as int] > 0
            &&& top[i].count == counts[ids[i] as int]
            &&& top[i].name@ == state.name_of(ids[i])
        }
    &&& forall|i: int, j: int|
        0 <= i < j < ids.len() ==> {
            let (a, b) = (counts[#[trigger] ids[i] as int], counts[#[trigger] ids[j] as int]);
            a > b || (a == b && ids[i] < ids[j])
        }
    &&& forall|u: u32|
        u < counts.len() && counts[u as int] > 0 && !(#[trigger] ids.contains(u)) ==> ids.len() == 10
            && forall|i: int|
            0 <= i < ids.len() ==> counts[#[trigger] ids[i] as int] >= counts[u as int]
}

/// The statistics tell how many cells are written and how many people are there,
/// and name the ten who have written most, the first of them first, of two who
/// have written as much the one with the lower number: nobody who has written
/// more than one of these is left out.
pub proof fn law_statistics_name_those_who_wrote_most(
    before: AppState,
    s: Session,
    at: Moment,
    out: Seq<Outgoing>,
    s2: Session,
    after: AppState,
)
    requires
        before.handles(s, ClientMsg::FetchStats, at, out, s2, after),
        before.authors_count@.len() <= 0x1_0000_0000,
    ensures
        after == before,
        s2 == s,
        out.len() == 1,
        out[0] matches Outgoing::All(ServerMsg::Stats { total_cells, online, top_authors }) && {
            &&& total_cells == before.total_cells
            &&& online == Set::new(
                |u: u32|
                    exists|id: u64| #[trigger]
                        before.connections@.contains_key(id) && before.connections@[id].user_id == u,
            ).len() as u16
            &&& top_authors@.len() <= 10
            &&& exists|ids: Seq<u32>| #[trigger] tells_of_writers(before, top_authors@, ids)
        },
{
    let counts = before.authors_count@;
    let stats = out[0]->All_0;
    let top_authors = stats->top_authors;
    let all = sort_by(writers(counts), by_count());
    let top = top_writers(counts, 10);
    lemma_writers_ranked(counts);
    assert(Set::new(
        |u: u32|
            exists|id: u64| #[trigger]
                before.connections@.contains_key(id) && before.connections@[id].user_id == u,
    ) =~= crate::protocol::present(before.connections@));
    let ids = Seq::new(top.len(), |i: int| top[i].0);
    assert forall|i: int| 0 <= i < top.len() implies top[i] == all[i] by {}
    assert forall|u: u32|
        u < counts.len() && counts[u as int] > 0 && !(#[trigger] ids.contains(u)) implies ids.len()
        == 10 && forall|i: int|
        0 <= i < ids.len() ==> counts[#[trigger] ids[i] as int] >= counts[u as int] by {
        assert(all.contains(writer(counts, u as int)));
        let h = choose|h: int| 0 <= h < all.len() && all[h] == writer(counts, u as int);
        if h < top.len() {
            assert(ids[h] == u);
        }
        assert forall|i: int| 0 <= i < ids.len() implies counts[#[trigger] ids[i] as int]
            >= counts[u as int] by {
            assert(ranks(all[i], all[h]));
        }
    }
    assert forall|i: int, j: int| 0 <= i < j < ids.len() implies {
        let (a, b) = (counts[#[trigger] ids[i] as int], counts[#[trigger] ids[j] as int]);
        a > b || (a == b && ids[i] < ids[j])
    } by {
        assert(ranks(all[i], all[j]));
    }
    assert(tells_of_writers(before, top_authors@, ids));
}

} // verus!
