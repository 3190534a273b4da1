//! Reading the board and its statistics.

use std::collections::HashMap;
use vstd::prelude::*;
use vstd::std_specs::hash::*;

use crate::coords::{
    floor_div, int_min, ChunkCoords, ChunkLocalCoords, WorldCoords, CHUNK_H, CHUNK_W,
};
use crate::model::StoredChunkCell;
use crate::msg::{AuthorStat, ChunkCell, LodCell};
use crate::sort::{insert_by, law_sort_by, lemma_insert_by, lemma_insert_take, orders, sort_by};
use crate::state::AppState;
use crate::table::CoordMap;
use crate::world::chunk_cells;

verus! {

/// The cell as clients are told of it.
pub open spec fn sent_cell(c: StoredChunkCell) -> ChunkCell {
    ChunkCell { local: c.local, ch: c.ch, color: c.color, ts: c.ts, author_id: c.author_id }
}

/// The corner of the `step` by `step` block in which `n` lies.
pub open spec fn snapped(n: int, step: u8) -> int {
    (n / (step as int)) * (step as int)
}

/// The corner of the block in which the cell lies, on the board.
pub open spec fn block_of(chunk: ChunkCoords, step: u8, c: StoredChunkCell) -> (int, int) {
    (snapped(chunk.x * 64 + c.local.x, step), snapped(chunk.y * 16 + c.local.y, step))
}

/// The blocks that `cells` fill, each in the colour of its first cell. A block
/// whose corner lies outside the chunk is left out.
pub open spec fn lod_of(chunk: ChunkCoords, step: u8, cells: Seq<StoredChunkCell>) -> Seq<LodCell>
    decreases cells.len(),
{
    if cells.len() == 0 {
        Seq::empty()
    } else {
        let rest = cells.drop_last();
        let c = cells.last();
        let before = lod_of(chunk, step, rest);
        let (bx, by) = block_of(chunk, step, c);
        let x = bx - chunk.x * 64;
        let y = by - chunk.y * 16;
        if (exists|i: int|
            0 <= i < rest.len() && #[trigger] block_of(chunk, step, rest[i]) == (bx, by)) || !(0
            <= x < 64 && 0 <= y < 16) {
            before
        } else {
            before.push(LodCell { local: ChunkLocalCoords { x: x as u8, y: y as u8 }, color: c.color })
        }
    }
}

/// The accounts that have written something, with what they have written.
pub open spec fn writers(counts: Seq<u32>) -> Seq<(u32, u32)>
    decreases counts.len(),
{
    if counts.len() == 0 {
        Seq::empty()
    } else {
        let before = writers(counts.drop_last());
        if counts.last() > 0 {
            before.push(((counts.len() - 1) as u32, counts.last()))
        } else {
            before
        }
    }
}

/// Who has written more, or as much.
pub open spec fn by_count() -> spec_fn((u32, u32), (u32, u32)) -> bool {
    |a: (u32, u32), b: (u32, u32)| a.1 >= b.1
}

/// The `n` accounts that have written most, the first of them first. Of two
/// that have written as much, the one with the lower number comes first.
pub open spec fn top_writers(counts: Seq<u32>, n: nat) -> Seq<(u32, u32)> {
    let all = sort_by(writers(counts), by_count());
    all.take(int_min(n as int, all.len() as int))
}

fn snap(n: i64, step: u8) -> (r: i64)
    requires
        step != 0,
        -8192 <= n <= 8447,
    ensures
        r == snapped(n as int, step),
        n - step < r <= n,
{
    let q: i64 = floor_div(n, step as i64);
    proof {
        vstd::arithmetic::div_mod::lemma_fundamental_div_mod(n as int, step as int);
        vstd::arithmetic::div_mod::lemma_mod_bound(n as int, step as int);
        assert((n as int / step as int) * step as int == step as int * (n as int / step as int))
            by (nonlinear_arith);
    }
    q * (step as i64)
}

proof fn lemma_by_count_orders()
    ensures
        orders(by_count()),
{
    let le = by_count();
    assert forall|a: (u32, u32), b: (u32, u32)| #[trigger] le(a, b) || le(b, a) by {}
}

/// Puts `x` into the list of the best `n`.
fn insert_top(top: &mut Vec<(u32, u32)>, x: (u32, u32), n: usize)
    requires
        old(top)@.len() <= n,
    ensures
        final(top)@ == insert_by(old(top)@, x, by_count()).take(
            int_min(n as int, old(top)@.len() as int + 1),
        ),
{
    let ghost s = top@;
    let ghost le = by_count();
    let mut k: usize = top.len();
    proof {
        lemma_insert_by(s, x, le);
        assert(s.take(k as int) =~= s);
        assert(insert_by(s.take(k as int), x, le) + s.skip(k as int) =~= insert_by(s, x, le));
    }
    while k > 0 && top[k - 1].1 < x.1
        invariant
            k <= s.len(),
            top@ == s,
            le == by_count(),
            insert_by(s.take(k as int), x, le) + s.skip(k as int) == insert_by(s, x, le),
        decreases k,
    {
        proof {
            let t = s.take(k as int);
            assert(!le(t.last(), x));
            assert(t.drop_last() =~= s.take(k - 1));
            assert(insert_by(s.take(k - 1), x, le) + s.skip(k - 1) =~= insert_by(t, x, le)
                + s.skip(k as int));
        }
        k = k - 1;
    }
    proof {
        let t = s.take(k as int);
        if k > 0 {
            assert(le(t.last(), x));
        }
        assert(insert_by(t, x, le) =~= t.push(x));
        assert(s.insert(k as int, x) =~= insert_by(s, x, le));
    }
    top.insert(k, x);
    if top.len() > n {
        top.truncate(n);
    }
    assert(top@ =~= insert_by(s, x, le).take(int_min(n as int, s.len() as int + 1)));
}

impl AppState {
    /// The cells of a chunk, and the names of those who wrote them.
    pub fn get_chunk_with_authors(&self, chunk: ChunkCoords) -> (r: (
        Vec<ChunkCell>,
        HashMap<u32, String>,
    ))
        requires
            self.wf(),
        ensures
            r.0@ == chunk_cells(self.world@, chunk).map_values(|c: StoredChunkCell| sent_cell(c)),
            forall|uid: u32| #[trigger]
                r.1@.contains_key(uid) <==> exists|i: int|
                    0 <= i < r.0@.len() && (#[trigger] r.0@[i]).author_id == uid,
            forall|uid: u32| #[trigger] r.1@.contains_key(uid) ==> r.1@[uid]@ == self.name_of(uid),
    {
        broadcast use group_hash_axioms;

        let cells = self.world.get_chunk(chunk);
        let mut out: Vec<ChunkCell> = Vec::new();
        let mut authors: HashMap<u32, String> = HashMap::new();
        let mut i: usize = 0;
        while i < cells.len()
            invariant
                i <= cells@.len(),
                out@.len() == i,
                forall|j: int| 0 <= j < i ==> #[trigger] out@[j] == sent_cell(cells@[j]),
                forall|uid: u32| #[trigger]
                    authors@.contains_key(uid) <==> exists|j: int|
                        0 <= j < i && (#[trigger] out@[j]).author_id == uid,
                forall|uid: u32| #[trigger]
                    authors@.contains_key(uid) ==> authors@[uid]@ == self.name_of(uid),
            decreases cells@.len() - i,
        {
            let c = cells[i];
            let ghost before = out@;
            let ghost authors0 = authors@;
            if !authors.contains_key(&c.author_id) {
                authors.insert(c.author_id, self.username_of(c.author_id));
            }
            out.push(
                ChunkCell {
                    local: c.local,
                    ch: c.ch,
                    color: c.color,
                    ts: c.ts,
                    author_id: c.author_id,
                },
            );
            proof {
                assert(out@[i as int].author_id == c.author_id);
                assert forall|uid: u32| #[trigger]
                    authors@.contains_key(uid) <==> exists|j: int|
                        0 <= j < i + 1 && (#[trigger] out@[j]).author_id == uid by {
                    if authors0.contains_key(uid) {
                        let j = choose|j: int|
                            0 <= j < i && (#[trigger] before[j]).author_id == uid;
                        assert(out@[j].author_id == uid);
                    }
                    if exists|j: int| 0 <= j < i + 1 && (#[trigger] out@[j]).author_id == uid {
                        let j = choose|j: int|
                            0 <= j < i + 1 && (#[trigger] out@[j]).author_id == uid;
                        if j < i {
                            assert(before[j].author_id == uid);
                        }
                    }
                }
            }
            i = i + 1;
        }
        assert(out@ =~= cells@.map_values(|c: StoredChunkCell| sent_cell(c)));
        (out, authors)
    }

    /// The chunk seen from afar, in blocks of `target_step` cells.
    pub fn get_lod_colors(&self, chunk: ChunkCoords, target_step: u8) -> (r: Vec<LodCell>)
        requires
            self.wf(),
            target_step != 0,
        ensures
            r@ == lod_of(chunk, target_step, chunk_cells(self.world@, chunk)),
    {
        let cells = self.world.get_chunk(chunk);
        let cx: i64 = chunk.x as i64;
        let cy: i64 = chunk.y as i64;
        let mut seen: CoordMap<WorldCoords, ()> = CoordMap::new();
        let mut out: Vec<LodCell> = Vec::new();
        let mut i: usize = 0;
        assert(cells@.take(0) =~= Seq::<StoredChunkCell>::empty());
        while i < cells.len()
            invariant
                i <= cells@.len(),
                target_step != 0,
                cx == chunk.x,
                cy == chunk.y,
                forall|p: WorldCoords| #[trigger]
                    seen@.contains_key(p) <==> exists|j: int|
                        0 <= j < i && #[trigger] block_of(chunk, target_step, cells@[j]) == (
                            p.x as int,
                            p.y as int,
                        ),
                out@ == lod_of(chunk, target_step, cells@.take(i as int)),
            decreases cells@.len() - i,
        {
            let c = cells[i];
            let wx: i64 = snap(cx * CHUNK_W + c.local.x as i64, target_step);
            let wy: i64 = snap(cy * CHUNK_H + c.local.y as i64, target_step);
            let corner = WorldCoords { x: wx as i16, y: wy as i16 };
            let first = !seen.contains_key(&corner);
            let ghost seen0 = seen@;
            let ghost rest = cells@.take(i as int);
            if first {
                seen.insert(corner, ());
            }
            proof {
                assert(cells@.take(i + 1).drop_last() =~= rest);
                assert(block_of(chunk, target_step, c) == (wx as int, wy as int));
                if !first {
                    let j = choose|j: int|
                        0 <= j < i && #[trigger] block_of(chunk, target_step, cells@[j]) == (
                            corner.x as int,
                            corner.y as int,
                        );
                    assert(rest[j] == cells@[j]);
                } else {
                    assert forall|j: int| 0 <= j < rest.len() implies #[trigger] block_of(
                        chunk,
                        target_step,
                        rest[j],
                    ) != (wx as int, wy as int) by {
                        assert(rest[j] == cells@[j]);
                    }
                }
                assert forall|p: WorldCoords| #[trigger]
                    seen@.contains_key(p) <==> exists|j: int|
                        0 <= j < i + 1 && #[trigger] block_of(chunk, target_step, cells@[j]) == (
                            p.x as int,
                            p.y as int,
                        ) by {
                    if p == corner {
                        assert(block_of(chunk, target_step, cells@[i as int]) == (
                            p.x as int,
                            p.y as int,
                        ));
                    } else if exists|j: int|
                        0 <= j < i + 1 && #[trigger] block_of(chunk, target_step, cells@[j]) == (
                            p.x as int,
                            p.y as int,
                        ) {
                        let j = choose|j: int|
                            0 <= j < i + 1 && #[trigger] block_of(chunk, target_step, cells@[j])
                                == (p.x as int, p.y as int);
                        assert(j < i);
                        assert(seen0.contains_key(p));
                    } else {
                        assert(!seen0.contains_key(p));
                    }
                }
            }
            let x: i64 = wx - cx * CHUNK_W;
            let y: i64 = wy - cy * CHUNK_H;
            if first && 0 <= x && x < CHUNK_W && 0 <= y && y < CHUNK_H {
                out.push(
                    LodCell { local: ChunkLocalCoords { x: x as u8, y: y as u8 }, color: c.color },
                );
            }
            i = i + 1;
        }
        assert(cells@.take(i as int) =~= cells@);
        out
    }

    /// The `n` accounts that have written most, with what they have written.
    pub fn top_authors(&self, n: usize) -> (r: Vec<AuthorStat>)
        ensures
            r@.len() == top_writers(self.authors_count@, n as nat).len(),
            forall|i: int|
                #![trigger r@[i]]
                0 <= i < r@.len() ==> r@[i].count == top_writers(
                    self.authors_count@,
                    n as nat,
                )[i].1 && r@[i].name@ == self.name_of(
                    top_writers(self.authors_count@, n as nat)[i].0,
                ),
    {
        let ghost counts = self.authors_count@;
        let ghost le = by_count();
        let mut top: Vec<(u32, u32)> = Vec::new();
        let mut i: usize = 0;
        proof {
            lemma_by_count_orders();
            assert(counts.take(0) =~= Seq::<u32>::empty());
            assert(top@ =~= top_writers(counts.take(0), n as nat));
        }
        while i < self.authors_count.len()
            invariant
                i <= counts.len(),
                counts == self.authors_count@,
                le == by_count(),
                orders(le),
                top@ == top_writers(counts.take(i as int), n as nat),
            decreases counts.len() - i,
        {
            let count: u32 = self.authors_count[i];
            let ghost before = writers(counts.take(i as int));
            let ghost sorted = sort_by(before, le);
            proof {
                assert(counts.take(i + 1).drop_last() =~= counts.take(i as int));
                law_sort_by(before, le);
            }
            if count > 0 {
                let x = (i as u32, count);
                proof {
                    assert(before.push(x).drop_last() =~= before);
                    lemma_insert_take(sorted, x, le, n as nat);
                    lemma_insert_by(sorted, x, le);
                    lemma_insert_by(top@, x, le);
                    if sorted.len() > n {
                        let a = insert_by(top@, x, le);
                        assert(a.take(n as int).take(n as int) =~= a.take(n as int));
                    }
                }
                insert_top(&mut top, x, n);
                assert(top@ =~= top_writers(counts.take(i + 1), n as nat));
            }
            i = i + 1;
        }
        assert(counts.take(i as int) =~= counts);
        let mut out: Vec<AuthorStat> = Vec::new();
        let mut k: usize = 0;
        while k < top.len()
            invariant
                k <= top@.len(),
                out@.len() == k,
                forall|j: int|
                    #![trigger out@[j]]
                    0 <= j < k ==> out@[j].count == top@[j].1 && out@[j].name@ == self.name_of(
                        top@[j].0,
                    ),
            decreases top@.len() - k,
        {
            let (uid, count) = top[k];
            out.push(AuthorStat { name: self.username_of(uid), count });
            k = k + 1;
        }
        out
    }
}

} // verus!
