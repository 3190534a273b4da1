//! What there is to draw of the board.

use vstd::prelude::*;

use crate::chunks::{node_at, ChunkManager, NodeView, Nodes, Places};
use crate::color::Rgb;
use crate::coords::{
    board_clamp, floor_div, int_max, ChunkCoords, WorldCoords, WorldRect, BOARD_HALF, CHUNK_AREA,
    CHUNK_H, CHUNK_W,
};
use crate::msg::FontAtlasFile;
use crate::paint::{find_code, halving};
use crate::preview::{chunk_block, chunk_list, steps};

verus! {

/// Bit `k` of the packed pixels is set.
pub open spec fn packed_bit(packed: Seq<u8>, k: int) -> bool {
    (packed[k / 8] >> ((k % 8) as u8)) & 1u8 == 1u8
}

/// A picture with a byte for each pixel: 255 where the packed pixel is set.
pub fn unpack_pixels(f: &FontAtlasFile) -> (r: Vec<u8>)
    requires
        forall|k: int|
            0 <= k < f.pixels_1bit@.len() * 8 && #[trigger] packed_bit(f.pixels_1bit@, k) ==> k
                < f.atlas_w * f.atlas_h,
    ensures
        r@.len() == f.atlas_w * f.atlas_h,
        forall|k: int|
            0 <= k < r@.len() ==> #[trigger] r@[k] == (if k < f.pixels_1bit@.len() * 8
                && packed_bit(f.pixels_1bit@, k) {
                255u8
            } else {
                0u8
            }),
{
    assert(f.atlas_w * f.atlas_h <= 65535 * 65535) by (nonlinear_arith)
        requires
            0 <= f.atlas_w <= 65535,
            0 <= f.atlas_h <= 65535,
    ;
    assert(0 <= f.atlas_w * f.atlas_h) by (nonlinear_arith)
        requires
            0 <= f.atlas_w,
            0 <= f.atlas_h,
    ;
    let total: usize = (f.atlas_w as u32 * f.atlas_h as u32) as usize;
    let mut out: Vec<u8> = Vec::new();
    let mut k: usize = 0;
    while k < total
        invariant
            k <= total,
            total == f.atlas_w * f.atlas_h,
            out@.len() == k,
            forall|j: int|
                0 <= j < k ==> #[trigger] out@[j] == (if j < f.pixels_1bit@.len() * 8
                    && packed_bit(f.pixels_1bit@, j) {
                    255u8
                } else {
                    0u8
                }),
        decreases total - k,
    {
        let byte: usize = k / 8;
        if byte < f.pixels_1bit.len() {
            let bit: u8 = (k % 8) as u8;
            if (f.pixels_1bit[byte] >> bit) & 1u8 == 1u8 {
                out.push(255);
            } else {
                out.push(0);
            }
        } else {
            out.push(0);
        }
        k = k + 1;
    }
    out
}

/// Where a glyph lies in the atlas, how large it is, and where it stands in its
/// cell.
#[derive(Debug, Clone, Copy, PartialEq, Eq, Structural)]
pub struct GlyphPlace {
    pub atlas_x: u16,
    pub atlas_y: u16,
    pub w: u8,
    pub h: u8,
    pub off_x: i8,
    pub off_y: i8,
}

/// A character to draw.
#[derive(Debug, Clone, Copy, PartialEq, Eq, Structural)]
pub struct GlyphCell {
    pub wx: i64,
    pub wy: i64,
    pub color: Rgb,
    /// How it looks, if the font has it.
    pub glyph: Option<GlyphPlace>,
}

impl FontAtlasFile {
    /// Every glyph has a row in each of the tables.
    pub open spec fn tables_match(&self) -> bool {
        let n = self.codepoints@.len();
        &&& self.atlas_x@.len() >= n
        &&& self.atlas_y@.len() >= n
        &&& self.w@.len() >= n
        &&& self.h@.len() >= n
        &&& self.cell_off_x@.len() >= n
        &&& self.cell_off_y@.len() >= n
    }

    pub open spec fn place(&self, i: int) -> GlyphPlace {
        GlyphPlace {
            atlas_x: self.atlas_x@[i],
            atlas_y: self.atlas_y@[i],
            w: self.w@[i],
            h: self.h@[i],
            off_x: self.cell_off_x@[i],
            off_y: self.cell_off_y@[i],
        }
    }

    /// How a character looks.
    pub open spec fn glyph(&self, ch: char) -> Option<GlyphPlace> {
        match halving(self.codepoints@, ch as u32, 0, self.codepoints@.len() as int) {
            Some(i) => Some(self.place(i)),
            None => None,
        }
    }

    pub fn glyph_of(&self, ch: char) -> (r: Option<GlyphPlace>)
        requires
            self.tables_match(),
        ensures
            r == self.glyph(ch),
    {
        match find_code(&self.codepoints, ch as u32) {
            Some(i) => Some(
                GlyphPlace {
                    atlas_x: self.atlas_x[i],
                    atlas_y: self.atlas_y[i],
                    w: self.w[i],
                    h: self.h[i],
                    off_x: self.cell_off_x[i],
                    off_y: self.cell_off_y[i],
                },
            ),
            None => None,
        }
    }
}

/// The glyphs of the first `n` places of a chunk.
pub open spec fn glyphs_below(
    atlas: FontAtlasFile,
    chunk: ChunkCoords,
    places: Places,
    n: nat,
) -> Seq<GlyphCell>
    decreases n,
{
    if n == 0 {
        Seq::empty()
    } else {
        let i = n - 1;
        let before = glyphs_below(atlas, chunk, places, i as nat);
        match places[i] {
            Some(c) => before.push(glyph_cell(atlas, chunk, i, c.ch, c.color)),
            None => before,
        }
    }
}

/// The glyph for what stands at a place of a chunk.
pub open spec fn glyph_cell(
    atlas: FontAtlasFile,
    chunk: ChunkCoords,
    i: int,
    ch: char,
    color: Rgb,
) -> GlyphCell {
    GlyphCell {
        wx: (chunk.x * 64 + i % 64) as i64,
        wy: (chunk.y * 16 + i / 64) as i64,
        color,
        glyph: atlas.glyph(ch),
    }
}

/// What there is to draw of a chunk: a glyph for each character in it.
pub fn build_chunk_buffer(
    atlas: &FontAtlasFile,
    board: &ChunkManager,
    chunk: ChunkCoords,
) -> (r: Vec<GlyphCell>)
    requires
        board.wf(),
        atlas.tables_match(),
    ensures
        r@ == (match node_at(board@, chunk).full {
            Some(places) => glyphs_below(*atlas, chunk, places, CHUNK_AREA as nat),
            None => Seq::empty(),
        }),
{
    let mut out: Vec<GlyphCell> = Vec::new();
    let node = match board.chunks.get(&chunk) {
        Some(n) => n,
        None => {
            return out;
        },
    };
    let data = match &node.full_data {
        Some(d) => d,
        None => {
            return out;
        },
    };
    let mut idx: usize = 0;
    while idx < CHUNK_AREA
        invariant
            idx <= CHUNK_AREA,
            data.wf(),
            atlas.tables_match(),
            out@ == glyphs_below(*atlas, chunk, data@, idx as nat),
        decreases CHUNK_AREA - idx,
    {
        match data.get(idx) {
            Some(c) => {
                let wx: i64 = chunk.x as i64 * 64 + (idx % 64) as i64;
                let wy: i64 = chunk.y as i64 * 16 + (idx / 64) as i64;
                let glyph = atlas.glyph_of(c.ch);
                out.push(GlyphCell { wx, wy, color: c.color, glyph });
            },
            None => {},
        }
        idx = idx + 1;
    }
    out
}

/// The cell that stands for `v` where only each `step`-th is shown.
pub open spec fn lod_floor(v: int, step: int) -> int {
    board_clamp(v / step * step)
}

/// The color that `(x, y)` shows, if its chunk is in view.
pub open spec fn dot_at(m: Nodes, bounds: WorldRect, x: int, y: int) -> Option<Rgb> {
    let pos = WorldCoords { x: x as i16, y: y as i16 };
    if bounds.first_column() <= x / 64 <= bounds.last_column() && bounds.first_row() <= y / 16
        <= bounds.last_row() && m.contains_key(pos.chunk()) {
        m[pos.chunk()].color_at(pos.local().index())
    } else {
        None
    }
}

/// A colored cell.
#[derive(Debug, Clone, Copy, PartialEq, Eq, Structural)]
pub struct Dot {
    pub pos: WorldCoords,
    pub color: Rgb,
}

/// The colored ones of `n` cells of row `y`, each `step` after the one before,
/// from `x0` on.
pub open spec fn dots_in_row(
    m: Nodes,
    bounds: WorldRect,
    y: int,
    x0: int,
    step: int,
    n: nat,
) -> Seq<Dot>
    decreases n,
{
    if n == 0 {
        Seq::empty()
    } else {
        let before = dots_in_row(m, bounds, y, x0, step, (n - 1) as nat);
        let x = x0 + (n - 1) * step;
        match dot_at(m, bounds, x, y) {
            Some(color) => before.push(
                Dot { pos: WorldCoords { x: x as i16, y: y as i16 }, color },
            ),
            None => before,
        }
    }
}

/// The colored ones of `h` rows of `w` cells, each `step` after the one before.
pub open spec fn dots_in(
    m: Nodes,
    bounds: WorldRect,
    x0: int,
    y0: int,
    step: int,
    w: nat,
    h: nat,
) -> Seq<Dot>
    decreases h,
{
    if h == 0 {
        Seq::empty()
    } else {
        dots_in(m, bounds, x0, y0, step, w, (h - 1) as nat) + dots_in_row(
            m,
            bounds,
            y0 + (h - 1) * step,
            x0,
            step,
            w,
        )
    }
}

/// Number of cells from `a` to `b`, each `step` after the one before.
pub open spec fn steps_to(a: int, b: int, step: int) -> nat {
    if a <= b {
        ((b - a) / step + 1) as nat
    } else {
        0
    }
}

/// What is shown of the board where only each `step`-th cell is.
pub open spec fn lod_dots_of(m: Nodes, bounds: WorldRect, step: int) -> Seq<Dot> {
    let (x0, y0) = (lod_floor(bounds.a.x as int, step), lod_floor(bounds.a.y as int, step));
    let (x1, y1) = (lod_floor(bounds.b.x as int, step), lod_floor(bounds.b.y as int, step));
    dots_in(m, bounds, x0, y0, step, steps_to(x0, x1, step), steps_to(y0, y1, step))
}

fn lod_floor_of(v: i16, step: i64) -> (r: i64)
    requires
        0 < step <= 0x8000,
    ensures
        r == lod_floor(v as int, step as int),
        -BOARD_HALF <= r < BOARD_HALF,
{
    let q: i64 = floor_div(v as i64, step);
    assert(-0x1_0000_0000 <= q * step <= 0x1_0000_0000) by (nonlinear_arith)
        requires
            0 < step <= 0x8000,
            -32768 <= v <= 32767,
            q == v as int / step as int,
    ;
    WorldCoords::from_i64(q * step, 0).x as i64
}

fn dot_of(board: &ChunkManager, bounds: &WorldRect, x: i64, y: i64) -> (r: Option<Rgb>)
    requires
        board.wf(),
        -BOARD_HALF <= x < BOARD_HALF,
        -BOARD_HALF <= y < BOARD_HALF,
    ensures
        r == dot_at(board@, *bounds, x as int, y as int),
{
    let (c0, c1): (i64, i64) = bounds.column_span();
    let (r0, r1): (i64, i64) = bounds.row_span();
    let cx: i64 = floor_div(x, CHUNK_W);
    let cy: i64 = floor_div(y, CHUNK_H);
    if cx < c0 || cx > c1 || cy < r0 || cy > r1 {
        return None;
    }
    let (chunk, local) = (WorldCoords { x: x as i16, y: y as i16 }).to_chunk();
    match board.chunks.get(&chunk) {
        Some(node) => node.lod_color_at(local.to_index()),
        None => None,
    }
}

proof fn lemma_steps(a: int, b: int, step: int, k: int)
    requires
        step > 0,
        k >= 0,
    ensures
        a + k * step <= b <==> k < steps_to(a, b, step),
{
    if a <= b {
        assert(a + k * step <= b <==> k < (b - a) / step + 1) by (nonlinear_arith)
            requires
                step > 0,
                k >= 0,
                a <= b,
        ;
    } else {
        assert(k * step >= 0) by (nonlinear_arith)
            requires
                step > 0,
                k >= 0,
        ;
    }
}

fn push_row(
    out: &mut Vec<Dot>,
    board: &ChunkManager,
    bounds: &WorldRect,
    y: i64,
    x0: i64,
    x1: i64,
    step: i64,
)
    requires
        board.wf(),
        0 < step <= 0x8000,
        -BOARD_HALF <= x0 < BOARD_HALF,
        -BOARD_HALF <= x1 < BOARD_HALF,
        -BOARD_HALF <= y < BOARD_HALF,
    ensures
        final(out)@ == old(out)@ + dots_in_row(
            board@,
            *bounds,
            y as int,
            x0 as int,
            step as int,
            steps_to(x0 as int, x1 as int, step as int),
        ),
{
    let mut x: i64 = x0;
    let ghost mut k: int = 0;
    assert(x0 + 0 * step == x0);
    assert(out@ + dots_in_row(board@, *bounds, y as int, x0 as int, step as int, 0) =~= out@);
    while x <= x1
        invariant
            board.wf(),
            0 < step <= 0x8000,
            -BOARD_HALF <= x0 < BOARD_HALF,
            -BOARD_HALF <= x1 < BOARD_HALF,
            -BOARD_HALF <= y < BOARD_HALF,
            k >= 0,
            x0 <= x <= x1 + step || x == x0,
            x == x0 + k * step,
            k <= steps_to(x0 as int, x1 as int, step as int),
            out@ == old(out)@ + dots_in_row(
                board@,
                *bounds,
                y as int,
                x0 as int,
                step as int,
                k as nat,
            ),
        decreases x1 + step - x,
    {
        proof {
            lemma_steps(x0 as int, x1 as int, step as int, k);
            assert(x0 + (k + 1) * step == x + step) by (nonlinear_arith)
                requires
                    x == x0 + k * step,
            ;
        }
        match dot_of(board, bounds, x, y) {
            Some(color) => {
                out.push(Dot { pos: WorldCoords { x: x as i16, y: y as i16 }, color });
            },
            None => {},
        }
        proof {
            assert(out@ =~= old(out)@ + dots_in_row(
                board@,
                *bounds,
                y as int,
                x0 as int,
                step as int,
                (k + 1) as nat,
            ));
            k = k + 1;
        }
        x = x + step;
    }
    proof {
        lemma_steps(x0 as int, x1 as int, step as int, k);
    }
}

/// What is shown of the board where only each `step`-th cell is.
pub fn lod_dots(board: &ChunkManager, bounds: &WorldRect, step: i64) -> (r: Vec<Dot>)
    requires
        board.wf(),
        0 < step <= 0x8000,
    ensures
        r@ == lod_dots_of(board@, *bounds, step as int),
{
    let x0: i64 = lod_floor_of(bounds.a.x, step);
    let y0: i64 = lod_floor_of(bounds.a.y, step);
    let x1: i64 = lod_floor_of(bounds.b.x, step);
    let y1: i64 = lod_floor_of(bounds.b.y, step);
    let ghost w = steps_to(x0 as int, x1 as int, step as int);
    let mut out: Vec<Dot> = Vec::new();
    let mut y: i64 = y0;
    let ghost mut k: int = 0;
    assert(y0 + 0 * step == y0);
    while y <= y1
        invariant
            board.wf(),
            0 < step <= 0x8000,
            -BOARD_HALF <= x0 < BOARD_HALF,
            -BOARD_HALF <= x1 < BOARD_HALF,
            -BOARD_HALF <= y0 < BOARD_HALF,
            -BOARD_HALF <= y1 < BOARD_HALF,
            w == steps_to(x0 as int, x1 as int, step as int),
            k >= 0,
            y0 <= y <= y1 + step || y == y0,
            y == y0 + k * step,
            k <= steps_to(y0 as int, y1 as int, step as int),
            out@ == dots_in(board@, *bounds, x0 as int, y0 as int, step as int, w, k as nat),
        decreases y1 + step - y,
    {
        proof {
            lemma_steps(y0 as int, y1 as int, step as int, k);
            assert(y0 + (k + 1) * step == y + step) by (nonlinear_arith)
                requires
                    y == y0 + k * step,
            ;
        }
        push_row(&mut out, board, bounds, y, x0, x1, step);
        proof {
            k = k + 1;
        }
        y = y + step;
    }
    proof {
        lemma_steps(y0 as int, y1 as int, step as int, k);
    }
    out
}

/// `m` once each of `chunks` that is known has been drawn.
pub open spec fn all_seen(m: Nodes, chunks: Seq<ChunkCoords>, now: u64) -> Nodes
    decreases chunks.len(),
{
    if chunks.len() == 0 {
        m
    } else {
        let before = all_seen(m, chunks.drop_last(), now);
        let c = chunks.last();
        if before.contains_key(c) {
            before.insert(c, NodeView { last_seen: now, ..before[c] })
        } else {
            before
        }
    }
}

fn mark_seen(board: &mut ChunkManager, chunks: &Vec<ChunkCoords>, now: u64)
    requires
        old(board).wf(),
    ensures
        final(board).wf(),
        final(board)@ == all_seen(old(board)@, chunks@, now),
{
    let mut i: usize = 0;
    assert(chunks@.take(0) =~= Seq::<ChunkCoords>::empty());
    while i < chunks.len()
        invariant
            i <= chunks@.len(),
            board.wf(),
            board@ == all_seen(old(board)@, chunks@.take(i as int), now),
        decreases chunks@.len() - i,
    {
        assert(chunks@.take(i + 1).drop_last() =~= chunks@.take(i as int));
        let c = chunks[i];
        if board.chunks.contains_key(&c) {
            let node = board.get_node_mut(c);
            node.last_seen = now;
        }
        i = i + 1;
    }
    assert(chunks@.take(i as int) =~= chunks@);
}

/// The chunks that hold a cell of `bounds`, row by row.
pub open spec fn chunks_of_bounds(bounds: WorldRect) -> Seq<ChunkCoords> {
    let (a, b) = (bounds.a.chunk(), bounds.b.chunk());
    chunk_block(a.x, a.y, steps(a.x as int, b.x as int), steps(a.y as int, b.y as int))
}

/// Lists the chunks whose characters are drawn, and notes that they are.
pub fn draw_glyph_chunks(board: &mut ChunkManager, bounds: &WorldRect, now: u64) -> (r: Vec<
    ChunkCoords,
>)
    requires
        old(board).wf(),
    ensures
        final(board).wf(),
        r@ == chunks_of_bounds(*bounds),
        final(board)@ == all_seen(old(board)@, r@, now),
{
    let a = ChunkCoords::from_world(bounds.a);
    let b = ChunkCoords::from_world(bounds.b);
    let chunks = chunk_list((a.x, b.x), (a.y, b.y));
    mark_seen(board, &chunks, now);
    chunks
}

/// The first of the shown rows that is at `from` or after it.
pub open spec fn first_step(start: int, from: int, step: int) -> int {
    start + (int_max(start, from) - start + step - 1) / step * step
}

/// A row that is shown lies in chunk row `cy`.
pub open spec fn row_shows(y0: int, y1: int, step: int, cy: int) -> bool {
    let last = cy * 16 + 15;
    first_step(y0, cy * 16, step) <= (if y1 < last {
        y1
    } else {
        last
    })
}

/// The chunks that are drawn as dots, in the chunk rows before `r0 + h`.
pub open spec fn lod_chunks_of(bounds: WorldRect, step: int, h: nat) -> Seq<ChunkCoords>
    decreases h,
{
    if h == 0 {
        Seq::empty()
    } else {
        let before = lod_chunks_of(bounds, step, (h - 1) as nat);
        let cy = bounds.first_row() + h - 1;
        let (y0, y1) = (lod_floor(bounds.a.y as int, step), lod_floor(bounds.b.y as int, step));
        if row_shows(y0, y1, step, cy) {
            before + lod_row(bounds, cy, steps(bounds.first_column(), bounds.last_column()))
        } else {
            before
        }
    }
}

/// The first `n` chunks in view of chunk row `cy`.
pub open spec fn lod_row(bounds: WorldRect, cy: int, n: nat) -> Seq<ChunkCoords> {
    Seq::new(n, |i: int| ChunkCoords { x: (bounds.first_column() + i) as i8, y: cy as i8 })
}

fn row_shows_of(y0: i64, y1: i64, step: i64, cy: i64) -> (r: bool)
    requires
        0 < step <= 0x8000,
        -BOARD_HALF <= y0 < BOARD_HALF,
        -BOARD_HALF <= y1 < BOARD_HALF,
        -128 <= cy <= 128,
    ensures
        r == row_shows(y0 as int, y1 as int, step as int, cy as int),
{
    let from: i64 = if y0 > cy * 16 {
        y0
    } else {
        cy * 16
    };
    let q: i64 = floor_div(from - y0 + step - 1, step);
    assert(0 <= q * step <= from - y0 + step - 1) by (nonlinear_arith)
        requires
            step > 0,
            from >= y0,
            q == (from - y0 + step - 1) / step as int,
    ;
    let first: i64 = y0 + q * step;
    let last: i64 = if y1 < cy * 16 + 15 {
        y1
    } else {
        cy * 16 + 15
    };
    first <= last
}

/// Lists what is drawn as dots, and notes that the chunks in view are drawn.
pub fn draw_lod_chunks(board: &mut ChunkManager, bounds: &WorldRect, step: i64, now: u64) -> (r: Vec<
    Dot,
>)
    requires
        old(board).wf(),
        0 < step <= 0x8000,
    ensures
        final(board).wf(),
        r@ == lod_dots_of(old(board)@, *bounds, step as int),
        final(board)@ == all_seen(
            old(board)@,
            lod_chunks_of(
                *bounds,
                step as int,
                steps(bounds.first_row(), bounds.last_row()),
            ),
            now,
        ),
{
    let dots = lod_dots(board, bounds, step);
    let (c0, c1): (i64, i64) = bounds.column_span();
    let (r0, r1): (i64, i64) = bounds.row_span();
    let y0: i64 = lod_floor_of(bounds.a.y, step);
    let y1: i64 = lod_floor_of(bounds.b.y, step);
    let ghost w = steps(c0 as int, c1 as int);
    let mut chunks: Vec<ChunkCoords> = Vec::new();
    let mut cy: i64 = r0;
    while cy <= r1
        invariant
            0 < step <= 0x8000,
            -BOARD_HALF <= y0 < BOARD_HALF,
            -BOARD_HALF <= y1 < BOARD_HALF,
            y0 == lod_floor(bounds.a.y as int, step as int),
            y1 == lod_floor(bounds.b.y as int, step as int),
            c0 == bounds.first_column(),
            c1 == bounds.last_column(),
            r0 == bounds.first_row(),
            -128 <= r0,
            r1 <= 128,
            -32 <= c0,
            c1 <= 32,
            w == steps(c0 as int, c1 as int),
            r0 <= cy,
            cy <= r1 + 1 || cy == r0,
            chunks@ == lod_chunks_of(*bounds, step as int, (cy - r0) as nat),
        decreases r1 + 1 - cy,
    {
        if row_shows_of(y0, y1, step, cy) {
            let ghost before = chunks@;
            let mut cx: i64 = c0;
            assert(before + lod_row(*bounds, cy as int, 0) =~= before);
            while cx <= c1
                invariant
                    c0 == bounds.first_column(),
                    c1 <= 32,
                    c0 <= cx,
                    cx <= c1 + 1 || cx == c0,
                    chunks@ == before + lod_row(*bounds, cy as int, (cx - c0) as nat),
                decreases c1 + 1 - cx,
            {
                chunks.push(ChunkCoords { x: cx as i8, y: cy as i8 });
                assert(chunks@ =~= before + lod_row(*bounds, cy as int, (cx + 1 - c0) as nat));
                cx = cx + 1;
            }
            assert((cx - c0) as nat == w);
        }
        cy = cy + 1;
    }
    mark_seen(board, &chunks, now);
    dots
}

} // verus!
