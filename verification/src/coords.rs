//! Addressing of the board.
//!
//! The board is a square of `BOARD_SIZE` by `BOARD_SIZE` cells centred on the
//! origin. It is cut into chunks of `CHUNK_W` by `CHUNK_H` cells; a cell is
//! addressed by its chunk and its place inside the chunk.

use std::ops::RangeInclusive;
use vstd::prelude::*;
use vstd::set_lib::{lemma_int_range, lemma_map_size, lemma_set_disjoint_lens, set_int_range};

verus! {

pub const BOARD_HALF: i64 = 2048;

pub const BOARD_SIZE: i64 = 4096;

pub const CHUNK_W: i64 = 64;

pub const CHUNK_H: i64 = 16;

pub const CHUNK_W_USIZE: usize = 64;

pub const CHUNK_H_USIZE: usize = 16;

/// Number of cells in a chunk.
pub const CHUNK_AREA: usize = 1024;

/// Number of cells that one account may protect.
pub const MAX_PROTECTED_CELLS: u64 = 256;

pub const NUM_SHARDS: usize = 64;

/// A cell of the board.
#[derive(Debug, Clone, Copy, PartialEq, Eq, Hash, PartialOrd, Ord, Structural)]
pub struct WorldCoords {
    pub x: i16,
    pub y: i16,
}

/// A chunk of the board.
#[derive(Debug, Clone, Copy, PartialEq, Eq, Hash, PartialOrd, Ord, Structural)]
pub struct ChunkCoords {
    pub x: i8,
    pub y: i8,
}

/// A cell inside its chunk.
#[derive(Debug, Clone, Copy, PartialEq, Eq, Hash, PartialOrd, Ord, Structural)]
pub struct ChunkLocalCoords {
    pub x: u8,
    pub y: u8,
}

/// `n` moved into `lo..=hi`.
pub open spec fn clamp(n: int, lo: int, hi: int) -> int {
    if n < lo {
        lo
    } else if n > hi {
        hi
    } else {
        n
    }
}

/// The board coordinate nearest to `n`.
pub open spec fn board_clamp(n: int) -> int {
    clamp(n, -BOARD_HALF as int, BOARD_HALF - 1)
}

/// The board coordinate nearest to `n`.
pub fn clamp_coord(n: i64) -> (r: i16)
    ensures
        r == board_clamp(n as int),
{
    if n < -BOARD_HALF {
        -2048
    } else if n > BOARD_HALF - 1 {
        2047
    } else {
        n as i16
    }
}

/// `a` divided by `b`, rounded down.
pub(crate) fn floor_div(a: i64, b: i64) -> (q: i64)
    requires
        b > 0,
    ensures
        q == a as int / b as int,
{
    assert(i64::MIN <= a as int / b as int <= i64::MAX) by (nonlinear_arith)
        requires
            b > 0,
            i64::MIN <= a <= i64::MAX,
    ;
    match a.checked_div_euclid(b) {
        Some(q) => q,
        None => 0,
    }
}

/// What is left of `a` after `floor_div(a, b)` times `b`.
pub(crate) fn floor_mod(a: i64, b: i64) -> (r: i64)
    requires
        b > 0,
    ensures
        r == a as int % b as int,
{
    match a.checked_rem_euclid(b) {
        Some(r) => r,
        None => 0,
    }
}

impl WorldCoords {
    /// The cell lies on the board.
    pub open spec fn on_board(self) -> bool {
        &&& -BOARD_HALF <= self.x < BOARD_HALF
        &&& -BOARD_HALF <= self.y < BOARD_HALF
    }

    /// The chunk that holds the cell. Chunk numbers are eight bits wide; every
    /// chunk of the board has one of its own.
    pub open spec fn chunk(self) -> ChunkCoords {
        ChunkCoords { x: (self.x as int / 64) as i8, y: (self.y as int / 16) as i8 }
    }

    /// The place of the cell in its chunk.
    pub open spec fn local(self) -> ChunkLocalCoords {
        ChunkLocalCoords { x: (self.x as int % 64) as u8, y: (self.y as int % 16) as u8 }
    }

    /// The cell of the board nearest to `(x, y)`.
    pub fn from_i64(x: i64, y: i64) -> (r: Self)
        ensures
            r == WorldCoords::nearest(x as int, y as int),
            r.on_board(),
    {
        WorldCoords { x: clamp_coord(x), y: clamp_coord(y) }
    }

    /// The cell of the board nearest to `self`.
    pub fn clamped(self) -> (r: Self)
        ensures
            r.x == board_clamp(self.x as int),
            r.y == board_clamp(self.y as int),
            r.on_board(),
            self.on_board() ==> r == self,
    {
        Self::from_i64(self.x as i64, self.y as i64)
    }

    /// The chunk of the cell, and its place there.
    pub fn to_chunk(self) -> (r: (ChunkCoords, ChunkLocalCoords))
        ensures
            r.0 == self.chunk(),
            r.1 == self.local(),
            r.1.valid(),
    {
        let x: i64 = self.x as i64;
        let y: i64 = self.y as i64;
        (
            ChunkCoords {
                x: #[verifier::truncate] (floor_div(x, CHUNK_W) as i8),
                y: #[verifier::truncate] (floor_div(y, CHUNK_H) as i8),
            },
            ChunkLocalCoords { x: floor_mod(x, CHUNK_W) as u8, y: floor_mod(y, CHUNK_H) as u8 },
        )
    }

    /// The cell at `local` in `chunk`.
    pub open spec fn spec_from_chunk(chunk: ChunkCoords, local: ChunkLocalCoords) -> WorldCoords {
        WorldCoords { x: (chunk.x * 64 + local.x) as i16, y: (chunk.y * 16 + local.y) as i16 }
    }

    /// The cell at `local` in `chunk`.
    pub fn from_chunk(chunk: ChunkCoords, local: ChunkLocalCoords) -> (r: Self)
        ensures
            r == Self::spec_from_chunk(chunk, local),
            r.x == chunk.x * 64 + local.x,
            r.y == chunk.y * 16 + local.y,
    {
        WorldCoords {
            x: (chunk.x as i64 * CHUNK_W + local.x as i64) as i16,
            y: (chunk.y as i64 * CHUNK_H + local.y as i64) as i16,
        }
    }

    /// The cell of the board nearest to `(x, y)`.
    pub open spec fn nearest(x: int, y: int) -> WorldCoords {
        WorldCoords { x: board_clamp(x) as i16, y: board_clamp(y) as i16 }
    }

    /// The cell of the board nearest to `self` moved by `(dx, dy)`.
    pub open spec fn moved_by(self, dx: int, dy: int) -> WorldCoords {
        WorldCoords::nearest(self.x + dx, self.y + dy)
    }

    /// The cell of the board nearest to `self` moved by `(dx, dy)`.
    pub fn offset(self, dx: i64, dy: i64) -> (r: Self)
        requires
            i64::MIN <= self.x + dx <= i64::MAX,
            i64::MIN <= self.y + dy <= i64::MAX,
        ensures
            r == self.moved_by(dx as int, dy as int),
            r.on_board(),
    {
        Self::from_i64(self.x as i64 + dx, self.y as i64 + dy)
    }
}

/// A chunk and a place in it name the cell that they were taken from, for every
/// cell of the board.
pub proof fn law_chunk_round_trip(pos: WorldCoords)
    requires
        pos.on_board(),
    ensures
        WorldCoords::spec_from_chunk(pos.chunk(), pos.local()) == pos,
        pos.local().valid(),
{
}

/// The cell at a valid place of a chunk lies in that chunk, at that place, for
/// every chunk of the board.
pub proof fn law_from_chunk_round_trip(chunk: ChunkCoords, local: ChunkLocalCoords)
    requires
        local.valid(),
    ensures
        WorldCoords::spec_from_chunk(chunk, local).chunk() == chunk,
        WorldCoords::spec_from_chunk(chunk, local).local() == local,
{
}

/// Two cells of the board share chunk and place only if they are the same cell.
pub proof fn law_chunk_injective(p: WorldCoords, q: WorldCoords)
    requires
        p.on_board(),
        q.on_board(),
        p.chunk() == q.chunk(),
        p.local() == q.local(),
    ensures
        p == q,
{
}

impl ChunkCoords {
    /// The chunk that holds `w`.
    pub fn from_world(w: WorldCoords) -> (r: Self)
        ensures
            r == w.chunk(),
    {
        w.to_chunk().0
    }

    /// The mixed bits from which the shard is taken.
    pub open spec fn shard_hash(self) -> i64 {
        let h = (self.x as i64) ^ ((self.y as i64) << 13);
        h ^ (h >> 17)
    }

    /// The shard that holds the chunk.
    pub open spec fn shard(self) -> int {
        let h = self.shard_hash();
        (if h < 0 {
            -h
        } else {
            h as int
        }) % (NUM_SHARDS as int)
    }

    /// The shard that holds the chunk.
    pub fn shard_idx(self) -> (r: usize)
        ensures
            r == self.shard(),
            r < NUM_SHARDS,
    {
        let cx: i64 = self.x as i64;
        let cy: i64 = self.y as i64;
        let mut h: i64 = cx ^ (cy << 13);
        h = h ^ (h >> 17);
        assert((cx ^ (cy << 13)) ^ ((cx ^ (cy << 13)) >> 17) > i64::MIN) by (bit_vector)
            requires
                -128 <= cx < 128,
                -128 <= cy < 128,
        ;
        let m: u64 = if h < 0 {
            (-h) as u64
        } else {
            h as u64
        };
        (m % (NUM_SHARDS as u64)) as usize
    }
}

impl ChunkLocalCoords {
    /// The place lies inside a chunk.
    pub open spec fn valid(self) -> bool {
        self.x < CHUNK_W && self.y < CHUNK_H
    }

    /// Row by row number of the place.
    pub open spec fn index(self) -> int {
        self.y * 64 + self.x
    }

    /// Row by row number of the place.
    pub fn to_index(self) -> (r: usize)
        ensures
            r == self.index(),
            self.valid() ==> r < CHUNK_AREA,
    {
        self.y as usize * CHUNK_W_USIZE + self.x as usize
    }
}

/// Every place of a chunk has a number of its own below `CHUNK_AREA`.
pub proof fn law_index_injective(a: ChunkLocalCoords, b: ChunkLocalCoords)
    requires
        a.valid(),
        b.valid(),
    ensures
        0 <= a.index() < CHUNK_AREA,
        a.index() == b.index() ==> a == b,
{
}

/// A rectangle of cells; both corners belong to it.
#[derive(Debug, Clone, Copy, PartialEq, Eq, Structural)]
pub struct WorldRect {
    pub a: WorldCoords,
    pub b: WorldCoords,
}

pub open spec fn int_min(a: int, b: int) -> int {
    if a <= b {
        a
    } else {
        b
    }
}

pub open spec fn int_max(a: int, b: int) -> int {
    if a >= b {
        a
    } else {
        b
    }
}

/// Division that rounds toward zero.
pub open spec fn trunc_div(a: int, b: int) -> int
    recommends
        b > 0,
{
    if a >= 0 {
        a / b
    } else {
        -((-a) / b)
    }
}

fn toward_zero(a: i64, b: i64) -> (q: i64)
    requires
        b > 0,
        a > i64::MIN,
    ensures
        q == trunc_div(a as int, b as int),
{
    if a >= 0 {
        floor_div(a, b)
    } else {
        let p: i64 = floor_div(-a, b);
        assert(0 <= p) by (nonlinear_arith)
            requires
                p == (-a) / (b as int),
                a < 0,
                b > 0,
        ;
        -p
    }
}

impl WorldRect {
    /// Number of columns.
    pub open spec fn spec_width(&self) -> int {
        int_max(self.b.x - self.a.x + 1, 0)
    }

    /// Number of rows.
    pub open spec fn spec_height(&self) -> int {
        int_max(self.b.y - self.a.y + 1, 0)
    }

    /// Number of cells.
    pub open spec fn spec_area(&self) -> int {
        self.spec_width() * self.spec_height()
    }

    /// The cells of the rectangle.
    pub open spec fn cells(&self) -> Set<WorldCoords> {
        Set::new(|wc: WorldCoords| self.has(wc))
    }

    /// `wc` lies in the rectangle.
    pub open spec fn has(&self, wc: WorldCoords) -> bool {
        self.a.x <= wc.x <= self.b.x && self.a.y <= wc.y <= self.b.y
    }

    pub fn new(a: WorldCoords, b: WorldCoords) -> (r: Self)
        ensures
            r.a == a,
            r.b == b,
    {
        WorldRect { a, b }
    }

    /// The rectangle spanned by two opposite corners.
    pub open spec fn spanned(p: WorldCoords, q: WorldCoords) -> WorldRect {
        WorldRect {
            a: WorldCoords {
                x: int_min(p.x as int, q.x as int) as i16,
                y: int_min(p.y as int, q.y as int) as i16,
            },
            b: WorldCoords {
                x: int_max(p.x as int, q.x as int) as i16,
                y: int_max(p.y as int, q.y as int) as i16,
            },
        }
    }

    /// The rectangle spanned by two opposite corners.
    pub fn from_corners(p: WorldCoords, q: WorldCoords) -> (r: Self)
        ensures
            r == Self::spanned(p, q),
            r.has(p),
            r.has(q),
    {
        WorldRect {
            a: WorldCoords {
                x: if p.x <= q.x { p.x } else { q.x },
                y: if p.y <= q.y { p.y } else { q.y },
            },
            b: WorldCoords {
                x: if p.x >= q.x { p.x } else { q.x },
                y: if p.y >= q.y { p.y } else { q.y },
            },
        }
    }

    pub fn width(&self) -> (r: i64)
        ensures
            r == self.spec_width(),
    {
        let w: i64 = self.b.x as i64 - self.a.x as i64 + 1;
        if w >= 0 {
            w
        } else {
            0
        }
    }

    pub fn height(&self) -> (r: i64)
        ensures
            r == self.spec_height(),
    {
        let h: i64 = self.b.y as i64 - self.a.y as i64 + 1;
        if h >= 0 {
            h
        } else {
            0
        }
    }

    /// Number of cells; never more than fits in 33 bits.
    pub fn area(&self) -> (r: u64)
        ensures
            r == self.spec_area(),
            r == self.cells().len(),
            r <= 0x1_0000_0000,
    {
        proof {
            law_area_counts_cells(*self);
        }
        let w: i64 = self.width();
        let h: i64 = self.height();
        assert(0 <= w * h <= 0x1_0000_0000) by (nonlinear_arith)
            requires
                0 <= w <= 0x1_0000,
                0 <= h <= 0x1_0000,
        ;
        w as u64 * h as u64
    }

    pub fn contains(&self, wc: WorldCoords) -> (r: bool)
        ensures
            r == self.has(wc),
    {
        wc.x >= self.a.x && wc.x <= self.b.x && wc.y >= self.a.y && wc.y <= self.b.y
    }

    /// First chunk column to draw for the rectangle.
    pub open spec fn first_column(&self) -> int {
        int_max(trunc_div(self.a.x as int, 64) - 1, -32)
    }

    /// Last chunk column to draw for the rectangle.
    pub open spec fn last_column(&self) -> int {
        int_min(trunc_div(self.b.x as int, 64) + 1, 32)
    }

    /// First chunk row to draw for the rectangle.
    pub open spec fn first_row(&self) -> int {
        int_max(trunc_div(self.a.y as int, 16) - 1, -128)
    }

    /// Last chunk row to draw for the rectangle.
    pub open spec fn last_row(&self) -> int {
        int_min(trunc_div(self.b.y as int, 16) + 1, 128)
    }

    /// The chunk columns to draw for the rectangle, with one to spare at
    /// either side.
    pub fn visible_chunk_columns(&self) -> (r: RangeInclusive<i64>)
        ensures
            r@.start == self.first_column(),
            r@.end == self.last_column(),
            !r@.exhausted,
    {
        let (lo, hi): (i64, i64) = self.column_span();
        RangeInclusive::new(lo, hi)
    }

    /// The chunk rows to draw for the rectangle, with one to spare at either
    /// side.
    pub fn visible_chunk_rows(&self) -> (r: RangeInclusive<i64>)
        ensures
            r@.start == self.first_row(),
            r@.end == self.last_row(),
            !r@.exhausted,
    {
        let (lo, hi): (i64, i64) = self.row_span();
        RangeInclusive::new(lo, hi)
    }

    /// The first and the last of the chunk columns to draw.
    pub fn column_span(&self) -> (r: (i64, i64))
        ensures
            r.0 == self.first_column(),
            r.1 == self.last_column(),
    {
        let lo: i64 = toward_zero(self.a.x as i64, CHUNK_W) - 1;
        let hi: i64 = toward_zero(self.b.x as i64, CHUNK_W) + 1;
        (if lo >= -32 { lo } else { -32 }, if hi <= 32 { hi } else { 32 })
    }

    /// The first and the last of the chunk rows to draw.
    pub fn row_span(&self) -> (r: (i64, i64))
        ensures
            r.0 == self.first_row(),
            r.1 == self.last_row(),
    {
        let lo: i64 = toward_zero(self.a.y as i64, CHUNK_H) - 1;
        let hi: i64 = toward_zero(self.b.y as i64, CHUNK_H) + 1;
        (if lo >= -128 { lo } else { -128 }, if hi <= 128 { hi } else { 128 })
    }
}

proof fn lemma_column_cells(r: WorldRect)
    requires
        r.a.x == r.b.x,
    ensures
        r.cells().finite(),
        r.cells().len() == r.spec_height(),
{
    let ys = set_int_range(r.a.y as int, r.a.y + r.spec_height());
    let cell = |y: int| WorldCoords { x: r.a.x, y: y as i16 };
    lemma_int_range(r.a.y as int, r.a.y + r.spec_height());
    assert(ys.map(cell) =~= r.cells()) by {
        assert forall|wc: WorldCoords| r.has(wc) implies ys.map(cell).contains(wc) by {
            assert(ys.contains(wc.y as int) && cell(wc.y as int) == wc);
        }
    }
    lemma_map_size(ys, r.cells(), cell);
}

/// The area of a rectangle is the number of cells that it contains. It is none
/// exactly where one corner lies on the wrong side of the other, and one where
/// the corners are the same.
pub proof fn law_area_counts_cells(r: WorldRect)
    ensures
        r.cells().finite(),
        r.spec_area() == r.cells().len(),
        r.spec_area() == 0 <==> r.b.x < r.a.x || r.b.y < r.a.y,
        r.a == r.b ==> r.spec_area() == 1,
    decreases r.spec_width(),
{
    let (w, h) = (r.spec_width(), r.spec_height());
    assert(w * h == 0 <==> w == 0 || h == 0) by (nonlinear_arith);
    if w == 0 {
        assert(r.cells() =~= Set::empty());
    } else {
        let last = WorldRect { a: WorldCoords { x: r.b.x, y: r.a.y }, b: r.b };
        lemma_column_cells(last);
        if w == 1 {
            assert(last == r);
        } else {
            let rest = WorldRect { a: r.a, b: WorldCoords { x: (r.b.x - 1) as i16, y: r.b.y } };
            law_area_counts_cells(rest);
            assert(r.cells() =~= rest.cells() + last.cells());
            lemma_set_disjoint_lens(rest.cells(), last.cells());
            assert(w * h == (w - 1) * h + h) by (nonlinear_arith);
        }
    }
}

/// Every chunk that holds a cell of the rectangle is among those drawn for it.
pub proof fn law_visible_chunks_cover(r: WorldRect, pos: WorldCoords)
    requires
        pos.on_board(),
        r.has(pos),
    ensures
        r.first_column() <= pos.chunk().x <= r.last_column(),
        r.first_row() <= pos.chunk().y <= r.last_row(),
{
}

/// Moving a cell onto the board is done once and for all.
pub proof fn law_clamp_idempotent(n: int)
    ensures
        -BOARD_HALF <= board_clamp(n) < BOARD_HALF,
        board_clamp(board_clamp(n)) == board_clamp(n),
{
}

} // verus!
