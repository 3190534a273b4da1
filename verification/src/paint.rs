//! Painting cells into a picture.

use std::collections::HashMap;

use vstd::arithmetic::div_mod::lemma_fundamental_div_mod_converse;
use vstd::prelude::*;
use vstd::std_specs::hash::*;

use crate::color::Rgb;
use crate::coords::{floor_mod, int_max, WorldCoords};
use crate::msg::FontAtlasFile;
use crate::sort::{insert_by, law_sort_by, lemma_insert_by, sort_by};
use crate::table::CoordMap;

verus! {

pub const OUT_W: u32 = 1200;

pub const OUT_H: u32 = 630;

/// Red, green and blue of the background.
pub const BG: u8 = 0x0C;

/// Bytes of a picture.
pub const OUT_BYTES: u32 = 3_024_000;

/// The bit of the atlas at a place in it; clear outside it.
pub fn atlas_bit(atlas: &FontAtlasFile, ax: i32, ay: i32) -> (r: bool)
    requires
        0 <= ax < atlas.atlas_w && 0 <= ay < atlas.atlas_h ==> ay * (atlas.atlas_w as int / 8) + ax
            as int / 8 < atlas.pixels_1bit@.len(),
    ensures
        r == (0 <= ax < atlas.atlas_w && 0 <= ay < atlas.atlas_h && (atlas.pixels_1bit@[ay * (
        atlas.atlas_w as int / 8) + ax as int / 8] >> (ax as usize % 8)) & 1 != 0),
{
    if ax < 0 || ay < 0 || ax >= atlas.atlas_w as i32 || ay >= atlas.atlas_h as i32 {
        return false;
    }
    let packed_stride: usize = atlas.atlas_w as usize / 8;
    assert(ay * packed_stride <= 65535 * 8191) by (nonlinear_arith)
        requires
            0 <= ay <= 65535,
            0 <= packed_stride <= 8191,
    ;
    let idx: usize = ay as usize * packed_stride + (ax as usize / 8);
    ((atlas.pixels_1bit[idx] >> (ax as usize % 8)) & 1) != 0
}

/// `x / 255` without a division, where `x` is no larger than a product of two
/// bytes.
pub fn div255(x: u32) -> (r: u8)
    requires
        x + (x >> 8) + 1 <= u32::MAX,
    ensures
        r == ((x + (x >> 8) + 1) as u32 >> 8) as u8,
        x <= 65025 ==> r == x / 255,
{
    assert(x <= 65025 ==> ((x + (x >> 8) + 1) as u32 >> 8) == x / 255) by (bit_vector);
    ((x + (x >> 8) + 1) >> 8) as u8
}

/// A channel of color `c`, seen with coverage `cov` over the background.
pub open spec fn blended(c: u8, cov: int) -> int {
    (c * cov + BG * (255 - cov)) / 255
}

fn blend(c: u8, cov: u8) -> (r: u8)
    ensures
        r == blended(c, cov as int),
{
    let inv: u32 = 255 - cov as u32;
    assert(c * cov + BG * inv <= 65025) by (nonlinear_arith)
        requires
            c <= 255,
            cov + inv == 255,
            BG <= 255,
    ;
    assert(0 <= c * cov) by (nonlinear_arith);
    let x: u32 = c as u32 * cov as u32 + BG as u32 * inv;
    assert((x >> 8) <= 255) by (bit_vector)
        requires
            x <= 65025,
    ;
    div255(x)
}

/// The first `n` rows of `table` say what color `c` looks like over the
/// background, for each coverage.
pub open spec fn blends(table: Seq<[u8; 3]>, n: int, c: Rgb) -> bool {
    forall|cov: int|
        0 <= cov < n ==> (#[trigger] table[cov])@ == seq![
            blended(c.0, cov) as u8,
            blended(c.1, cov) as u8,
            blended(c.2, cov) as u8,
        ]
}

/// What a color looks like over the background, for each coverage.
pub fn make_blend_table(r: u8, g: u8, b: u8) -> (t: Box<[[u8; 3]; 256]>)
    ensures
        blends(t@, 256, Rgb(r, g, b)),
{
    let mut t: Box<[[u8; 3]; 256]> = Box::new([[0u8; 3]; 256]);
    let mut cov: usize = 0;
    while cov < 256
        invariant
            cov <= 256,
            blends(t@, cov as int, Rgb(r, g, b)),
        decreases 256 - cov,
    {
        let c: u8 = cov as u8;
        let row: [u8; 3] = [blend(r, c), blend(g, c), blend(b, c)];
        assert(row@ =~= seq![
            blended(r, cov as int) as u8,
            blended(g, cov as int) as u8,
            blended(b, cov as int) as u8,
        ]);
        t[cov] = row;
        cov = cov + 1;
    }
    t
}

/// The row of the picture that byte `i` belongs to.
pub open spec fn row(i: int) -> int {
    i / 4 / OUT_W as int
}

/// The column of the picture that byte `i` belongs to.
pub open spec fn column(i: int) -> int {
    i / 4 % OUT_W as int
}

/// Byte `k` of a pixel of color `c`.
pub open spec fn channel(c: Rgb, k: int) -> u8 {
    if k == 0 {
        c.0
    } else if k == 1 {
        c.1
    } else if k == 2 {
        c.2
    } else {
        0xff
    }
}

/// What to paint at a column and a row, if anything.
pub type Brush = spec_fn(int, int) -> Option<Rgb>;

/// The picture `buf` painted over with `brush`.
pub open spec fn paint(buf: Seq<u8>, brush: Brush) -> Seq<u8> {
    Seq::new(
        buf.len(),
        |i: int|
            match brush(column(i), row(i)) {
                Some(c) => channel(c, i % 4),
                None => buf[i],
            },
    )
}

/// The empty picture.
pub open spec fn blank() -> Seq<u8> {
    Seq::new(OUT_BYTES as nat, |i: int| channel(Rgb(BG, BG, BG), i % 4))
}

pub open spec fn dot(x: int, y: int, c: Rgb) -> Brush {
    |col: int, line: int|
        if col == x && line == y {
            Some(c)
        } else {
            None
        }
}

fn put_pixel(buf: &mut Vec<u8>, x: usize, y: usize, c: Rgb)
    requires
        old(buf)@.len() == OUT_BYTES,
        x < OUT_W,
        y < OUT_H,
    ensures
        final(buf)@ == paint(old(buf)@, dot(x as int, y as int, c)),
{
    assert(y * OUT_W + x < 756_000);
    let i: usize = (y * OUT_W as usize + x) * 4;
    buf[i] = c.0;
    buf[i + 1] = c.1;
    buf[i + 2] = c.2;
    buf[i + 3] = 0xff;
    assert(buf@ =~= paint(old(buf)@, dot(x as int, y as int, c)));
}

/// `brush`, as far as the rows above `y`, and row `y` left of column `x`.
spec fn up_to(brush: Brush, x: int, y: int) -> Brush {
    |col: int, line: int|
        if line < y || (line == y && col < x) {
            brush(col, line)
        } else {
            None
        }
}

proof fn lemma_paint_dot(buf: Seq<u8>, brush: Brush, x: int, y: int)
    ensures
        brush(x, y) matches Some(c) ==> paint(paint(buf, up_to(brush, x, y)), dot(x, y, c))
            == paint(buf, up_to(brush, x + 1, y)),
        brush(x, y) is None ==> paint(buf, up_to(brush, x, y)) == paint(
            buf,
            up_to(brush, x + 1, y),
        ),
{
    match brush(x, y) {
        Some(c) => {
            assert(paint(paint(buf, up_to(brush, x, y)), dot(x, y, c)) =~= paint(
                buf,
                up_to(brush, x + 1, y),
            ));
        },
        None => {
            assert(paint(buf, up_to(brush, x, y)) =~= paint(buf, up_to(brush, x + 1, y)));
        },
    }
}

proof fn lemma_paint_same(buf: Seq<u8>, a: Brush, b: Brush)
    requires
        forall|x: int, y: int| 0 <= x < OUT_W && 0 <= y < OUT_H ==> #[trigger] a(x, y) == b(x, y),
        buf.len() == OUT_BYTES,
    ensures
        paint(buf, a) == paint(buf, b),
{
    assert forall|i: int| 0 <= i < buf.len() implies paint(buf, a)[i] == paint(buf, b)[i] by {
        assert(0 <= column(i) < OUT_W && 0 <= row(i) < OUT_H);
        assert(a(column(i), row(i)) == b(column(i), row(i)));
    }
    assert(paint(buf, a) =~= paint(buf, b));
}

/// Where a cell stands in the picture, and where the next column and row begin.
#[derive(Debug, Clone, Copy)]
pub struct CellBox {
    pub px: i32,
    pub py: i32,
    pub next_px: i32,
    pub next_py: i32,
}

/// The farthest from the picture's corner that a cell is worked out.
pub const FAR: i32 = 1_000_000;

impl CellBox {
    pub open spec fn wf(self) -> bool {
        &&& -FAR <= self.px <= FAR
        &&& -FAR <= self.py <= FAR
        &&& -FAR <= self.next_px <= FAR
        &&& -FAR <= self.next_py <= FAR
    }

    /// Some of the cell may be in the picture.
    pub open spec fn on_screen(self) -> bool {
        self.px < OUT_W && self.next_px > 0 && self.py < OUT_H && self.next_py > 0
    }

    pub open spec fn w(self) -> int {
        int_max(self.next_px - self.px, 1)
    }

    pub open spec fn h(self) -> int {
        int_max(self.next_py - self.py, 1)
    }
}

/// A cell to paint.
#[derive(Debug, Clone, Copy)]
pub struct DrawCmd {
    pub place: CellBox,
    pub ch: char,
    pub color: Rgb,
}

/// A glyph that covers each pixel of its cell as far as `map` says.
pub open spec fn glyph_brush(cmd: DrawCmd, map: Seq<u8>) -> Brush {
    let b = cmd.place;
    |col: int, line: int|
        {
            let dx = col - b.px;
            let dy = line - b.py;
            let cov = map[dy * b.w() + dx] as int;
            if 0 <= dx < b.w() && 0 <= dy < b.h() && cov != 0 {
                Some(
                    Rgb(
                        blended(cmd.color.0, cov) as u8,
                        blended(cmd.color.1, cov) as u8,
                        blended(cmd.color.2, cov) as u8,
                    ),
                )
            } else {
                None
            }
        }
}

/// A block of one color.
pub open spec fn block_brush(cmd: DrawCmd) -> Brush {
    let b = cmd.place;
    |col: int, line: int|
        if b.px <= col < b.next_px && b.py <= line < b.next_py {
            Some(cmd.color)
        } else {
            None
        }
}

fn larger(a: i32, b: i32) -> (r: i32)
    ensures
        r == int_max(a as int, b as int),
{
    if a > b {
        a
    } else {
        b
    }
}

fn smaller(a: i32, b: i32) -> (r: i32)
    ensures
        r <= a,
        r <= b,
        r == a || r == b,
{
    if a < b {
        a
    } else {
        b
    }
}

proof fn lemma_cell_index(dx: int, dy: int, w: int, h: int)
    by (nonlinear_arith)
    requires
        0 <= dx < w,
        0 <= dy < h,
    ensures
        0 <= dy * w <= dy * w + dx < w * h,
{
}

/// Paints a glyph: each pixel of its cell by its coverage.
fn paint_glyph(buf: &mut Vec<u8>, cmd: &DrawCmd, map: &Vec<u8>, table: &Box<[[u8; 3]; 256]>)
    requires
        old(buf)@.len() == OUT_BYTES,
        cmd.place.wf(),
        map@.len() == cmd.place.w() * cmd.place.h(),
        blends(table@, 256, cmd.color),
    ensures
        final(buf)@ == paint(old(buf)@, glyph_brush(*cmd, map@)),
{
    let b = cmd.place;
    let w: i32 = larger(b.next_px - b.px, 1);
    let h: i32 = larger(b.next_py - b.py, 1);
    let y0: i32 = larger(b.py, 0);
    let y1: i32 = smaller(OUT_H as i32, b.py + h);
    let x0: i32 = larger(b.px, 0);
    let x1: i32 = smaller(OUT_W as i32, b.px + w);
    let total: usize = map.len();
    let ghost brush = glyph_brush(*cmd, map@);
    let ghost start = buf@;
    let mut y: i32 = y0;
    assert(paint(start, up_to(brush, 0, y0 as int)) =~= start) by {
        assert forall|i: int| 0 <= i < start.len() implies paint(
            start,
            up_to(brush, 0, y0 as int),
        )[i] == start[i] by {
            assert(0 <= column(i));
        }
    }
    while y < y1
        invariant
            start.len() == OUT_BYTES,
            b == cmd.place,
            b.wf(),
            w == b.w(),
            h == b.h(),
            map@.len() == w * h,
            map@.len() == total,
            y0 == int_max(b.py as int, 0),
            y1 <= OUT_H,
            y1 <= b.py + h,
            x0 == int_max(b.px as int, 0),
            x1 <= OUT_W,
            x1 <= b.px + w,
            x1 == OUT_W || x1 == b.px + w,
            y0 <= y,
            y <= y1 || y == y0,
            brush == glyph_brush(*cmd, map@),
            buf@ == paint(start, up_to(brush, 0, y as int)),
            blends(table@, 256, cmd.color),
        decreases y1 - y,
    {
        let dy: usize = (y - b.py) as usize;
        let mut x: i32 = x0;
        proof {
            lemma_paint_same(start, up_to(brush, 0, y as int), up_to(brush, x0 as int, y as int));
        }
        while x < x1
            invariant
                start.len() == OUT_BYTES,
                b == cmd.place,
                b.wf(),
                w == b.w(),
                h == b.h(),
                map@.len() == w * h,
                map@.len() == total,
                0 <= y < OUT_H,
                y < b.py + h,
                dy == y - b.py,
                x0 == int_max(b.px as int, 0),
                x1 <= OUT_W,
                x1 <= b.px + w,
                x0 <= x,
                x <= x1 || x == x0,
                brush == glyph_brush(*cmd, map@),
                buf@ == paint(start, up_to(brush, x as int, y as int)),
                blends(table@, 256, cmd.color),
            decreases x1 - x,
        {
            let dx: usize = (x - b.px) as usize;
            proof {
                lemma_cell_index(dx as int, dy as int, w as int, h as int);
                lemma_paint_dot(start, brush, x as int, y as int);
            }
            let cov: u8 = map[dy * w as usize + dx];
            if cov != 0 {
                let shade = table[cov as usize];
                assert(shade@ == table@[cov as int]@);
                put_pixel(buf, x as usize, y as usize, Rgb(shade[0], shade[1], shade[2]));
            }
            x = x + 1;
        }
        proof {
            lemma_paint_same(start, up_to(brush, x as int, y as int), up_to(brush, 0, y + 1));
        }
        y = y + 1;
    }
    proof {
        lemma_paint_same(start, up_to(brush, 0, y as int), brush);
    }
}

/// Paints a block of one color.
fn paint_block(buf: &mut Vec<u8>, cmd: &DrawCmd)
    requires
        old(buf)@.len() == OUT_BYTES,
    ensures
        final(buf)@ == paint(old(buf)@, block_brush(*cmd)),
{
    let b = cmd.place;
    let x0: i32 = larger(b.px, 0);
    let x1: i32 = smaller(b.next_px, OUT_W as i32);
    let y0: i32 = larger(b.py, 0);
    let y1: i32 = smaller(b.next_py, OUT_H as i32);
    let ghost brush = block_brush(*cmd);
    let ghost start = buf@;
    let mut y: i32 = y0;
    assert(paint(start, up_to(brush, 0, y0 as int)) =~= start) by {
        assert forall|i: int| 0 <= i < start.len() implies paint(
            start,
            up_to(brush, 0, y0 as int),
        )[i] == start[i] by {
            assert(0 <= column(i));
        }
    }
    while y < y1
        invariant
            start.len() == OUT_BYTES,
            b == cmd.place,
            x0 == int_max(b.px as int, 0),
            x1 <= OUT_W,
            x1 <= b.next_px,
            x1 == OUT_W || x1 == b.next_px,
            y0 == int_max(b.py as int, 0),
            y1 <= OUT_H,
            y1 <= b.next_py,
            y0 <= y,
            y <= y1 || y == y0,
            brush == block_brush(*cmd),
            buf@ == paint(start, up_to(brush, 0, y as int)),
        decreases y1 - y,
    {
        let mut x: i32 = x0;
        proof {
            lemma_paint_same(start, up_to(brush, 0, y as int), up_to(brush, x0 as int, y as int));
        }
        while x < x1
            invariant
                start.len() == OUT_BYTES,
                b == cmd.place,
                x0 == int_max(b.px as int, 0),
                x1 <= OUT_W,
                x1 <= b.next_px,
                0 <= y < OUT_H,
                b.py <= y < b.next_py,
                x0 <= x,
                x <= x1 || x == x0,
                brush == block_brush(*cmd),
                buf@ == paint(start, up_to(brush, x as int, y as int)),
            decreases x1 - x,
        {
            proof {
                lemma_paint_dot(start, brush, x as int, y as int);
            }
            put_pixel(buf, x as usize, y as usize, cmd.color);
            x = x + 1;
        }
        proof {
            lemma_paint_same(start, up_to(brush, x as int, y as int), up_to(brush, 0, y + 1));
        }
        y = y + 1;
    }
    proof {
        lemma_paint_same(start, up_to(brush, 0, y as int), brush);
    }
}

/// The place of `x` in `codes[lo..hi]`, looked for by halving.
pub open spec fn halving(codes: Seq<u32>, x: u32, lo: int, hi: int) -> Option<int>
    decreases hi - lo,
{
    if lo >= hi {
        None
    } else {
        let mid = lo + (hi - lo) / 2;
        if codes[mid] == x {
            Some(mid)
        } else if codes[mid] < x {
            halving(codes, x, mid + 1, hi)
        } else {
            halving(codes, x, lo, mid)
        }
    }
}

pub open spec fn increasing(codes: Seq<u32>) -> bool {
    forall|i: int, j: int| 0 <= i < j < codes.len() ==> codes[i] < codes[j]
}

proof fn lemma_halving(codes: Seq<u32>, x: u32, lo: int, hi: int)
    requires
        0 <= lo <= hi <= codes.len(),
    ensures
        halving(codes, x, lo, hi) matches Some(i) ==> lo <= i < hi && codes[i] == x,
        increasing(codes) && halving(codes, x, lo, hi) is None ==> forall|i: int|
            lo <= i < hi ==> codes[i] != x,
    decreases hi - lo,
{
    if lo < hi {
        let mid = lo + (hi - lo) / 2;
        if codes[mid] < x {
            lemma_halving(codes, x, mid + 1, hi);
        } else if codes[mid] > x {
            lemma_halving(codes, x, lo, mid);
        }
    }
}

/// The place of `x` in `codes`, which are in increasing order.
pub fn find_code(codes: &Vec<u32>, x: u32) -> (r: Option<usize>)
    ensures
        match halving(codes@, x, 0, codes@.len() as int) {
            Some(i) => r matches Some(k) && k == i,
            None => r is None,
        },
        r matches Some(i) ==> i < codes@.len() && codes@[i as int] == x,
        r is None && increasing(codes@) ==> !codes@.contains(x),
{
    let mut lo: usize = 0;
    let mut hi: usize = codes.len();
    proof {
        lemma_halving(codes@, x, 0, codes@.len() as int);
    }
    while lo < hi
        invariant
            lo <= hi <= codes@.len(),
            halving(codes@, x, lo as int, hi as int) == halving(codes@, x, 0, codes@.len() as int),
            halving(codes@, x, 0, codes@.len() as int) matches Some(i) ==> 0 <= i < codes@.len()
                && codes@[i] == x,
            halving(codes@, x, 0, codes@.len() as int) is None && increasing(codes@) ==> forall|
                i: int,
            |
                0 <= i < codes@.len() ==> codes@[i] != x,
        decreases hi - lo,
    {
        let mid: usize = lo + (hi - lo) / 2;
        if codes[mid] == x {
            return Some(mid);
        }
        if codes[mid] < x {
            lo = mid + 1;
        } else {
            hi = mid;
        }
    }
    None
}

/// Only each `step`-th cell is shown, in both directions.
pub open spec fn shown_at(p: WorldCoords, step: int) -> bool {
    step <= 1 || (p.x as int % step == 0 && p.y as int % step == 0)
}

/// What there is to paint for the cells at `keys`, that stand in the picture at
/// `boxes`.
pub open spec fn draws_for(
    cells: Map<WorldCoords, (char, Rgb)>,
    step: int,
    keys: Seq<WorldCoords>,
    boxes: Seq<CellBox>,
) -> Seq<DrawCmd>
    decreases keys.len(),
{
    if keys.len() == 0 {
        Seq::empty()
    } else {
        let before = draws_for(cells, step, keys.drop_last(), boxes.drop_last());
        let (k, b) = (keys.last(), boxes.last());
        if shown_at(k, step) && b.on_screen() {
            before.push(DrawCmd { place: b, ch: cells[k].0, color: cells[k].1 })
        } else {
            before
        }
    }
}

/// `keys` are the places of all `cells`, and `boxes` where `project` puts those
/// that are shown.
pub open spec fn projects<P: Fn(WorldCoords) -> CellBox>(
    cells: Map<WorldCoords, (char, Rgb)>,
    step: int,
    project: P,
    keys: Seq<WorldCoords>,
    boxes: Seq<CellBox>,
) -> bool {
    &&& keys.len() == boxes.len()
    &&& keys.no_duplicates()
    &&& forall|k: WorldCoords| #[trigger] keys.contains(k) <==> cells.contains_key(k)
    &&& forall|i: int|
        0 <= i < keys.len() && shown_at(#[trigger] keys[i], step) ==> call_ensures(
            project,
            (keys[i],),
            boxes[i],
        )
}

/// `draws` are what there is to paint for `cells`, in some order.
pub open spec fn placed<P: Fn(WorldCoords) -> CellBox>(
    cells: Map<WorldCoords, (char, Rgb)>,
    step: int,
    project: P,
    draws: Seq<DrawCmd>,
) -> bool {
    exists|keys: Seq<WorldCoords>, boxes: Seq<CellBox>| #[trigger]
        projects(cells, step, project, keys, boxes) && draws == draws_for(cells, step, keys, boxes)
}

fn shows(p: WorldCoords, step: i32) -> (r: bool)
    ensures
        r == shown_at(p, step as int),
{
    step <= 1 || (floor_mod(p.x as i64, step as i64) == 0 && floor_mod(p.y as i64, step as i64)
        == 0)
}

proof fn lemma_draws_step(
    cells: Map<WorldCoords, (char, Rgb)>,
    step: int,
    keys: Seq<WorldCoords>,
    boxes: Seq<CellBox>,
    k: WorldCoords,
    b: CellBox,
)
    ensures
        draws_for(cells, step, keys.push(k), boxes.push(b)) == (if shown_at(k, step)
            && b.on_screen() {
            draws_for(cells, step, keys, boxes).push(
                DrawCmd { place: b, ch: cells[k].0, color: cells[k].1 },
            )
        } else {
            draws_for(cells, step, keys, boxes)
        }),
{
    assert(keys.push(k).drop_last() =~= keys);
    assert(boxes.push(b).drop_last() =~= boxes);
}

fn place_cell<P: Fn(WorldCoords) -> CellBox>(
    k: WorldCoords,
    cells: &CoordMap<WorldCoords, (char, Rgb)>,
    lod_step: i32,
    project: &P,
) -> (r: (Option<DrawCmd>, Ghost<CellBox>))
    requires
        cells@.contains_key(k),
        call_requires(*project, (k,)),
        forall|p: WorldCoords, b: CellBox| #[trigger] call_ensures(*project, (p,), b) ==> b.wf(),
    ensures
        shown_at(k, lod_step as int) ==> call_ensures(*project, (k,), r.1@),
        r.1@.wf(),
        r.0 == (if shown_at(k, lod_step as int) && r.1@.on_screen() {
            Some(DrawCmd { place: r.1@, ch: cells@[k].0, color: cells@[k].1 })
        } else {
            None
        }),
{
    if !shows(k, lod_step) {
        return (None, Ghost(CellBox { px: 0, py: 0, next_px: 0, next_py: 0 }));
    }
    let b = project(k);
    if b.px < OUT_W as i32 && b.next_px > 0 && b.py < OUT_H as i32 && b.next_py > 0 {
        match cells.get(&k) {
            Some(c) => {
                return (Some(DrawCmd { place: b, ch: c.0, color: c.1 }), Ghost(b));
            },
            None => {},
        }
    }
    (None, Ghost(b))
}

/// What there is to paint for `cells`: each that is shown, where `project` says
/// that it stands, unless none of it is in the picture.
pub fn place_cells<P: Fn(WorldCoords) -> CellBox>(
    cells: &CoordMap<WorldCoords, (char, Rgb)>,
    lod_step: i32,
    project: &P,
) -> (r: Vec<DrawCmd>)
    requires
        forall|p: WorldCoords| cells@.contains_key(p) ==> call_requires(*project, (p,)),
        forall|p: WorldCoords, b: CellBox| #[trigger] call_ensures(*project, (p,), b) ==> b.wf(),
    ensures
        placed(cells@, lod_step as int, *project, r@),
        forall|i: int| 0 <= i < r@.len() ==> (#[trigger] r@[i]).place.wf(),
{
    let keys = cells.keys();
    let mut out: Vec<DrawCmd> = Vec::new();
    let ghost mut boxes = Seq::<CellBox>::empty();
    let mut i: usize = 0;
    assert(keys@.take(0) =~= Seq::<WorldCoords>::empty());
    while i < keys.len()
        invariant
            i <= keys@.len(),
            i == boxes.len(),
            keys@.no_duplicates(),
            forall|k: WorldCoords| #[trigger] keys@.contains(k) <==> cells@.contains_key(k),
            forall|p: WorldCoords| cells@.contains_key(p) ==> call_requires(*project, (p,)),
            forall|p: WorldCoords, b: CellBox| #[trigger]
                call_ensures(*project, (p,), b) ==> b.wf(),
            forall|j: int|
                0 <= j < i && shown_at(#[trigger] keys@[j], lod_step as int) ==> call_ensures(
                    *project,
                    (keys@[j],),
                    boxes[j],
                ),
            out@ == draws_for(cells@, lod_step as int, keys@.take(i as int), boxes),
            forall|j: int| 0 <= j < out@.len() ==> (#[trigger] out@[j]).place.wf(),
        decreases keys@.len() - i,
    {
        let k = keys[i];
        assert(keys@.contains(k));
        let (cmd, Ghost(b)) = place_cell(k, cells, lod_step, project);
        proof {
            lemma_draws_step(cells@, lod_step as int, keys@.take(i as int), boxes, k, b);
            assert(keys@.take(i + 1) =~= keys@.take(i as int).push(k));
            boxes = boxes.push(b);
        }
        match cmd {
            Some(d) => {
                out.push(d);
            },
            None => {},
        }
        i = i + 1;
    }
    proof {
        assert(keys@.take(i as int) =~= keys@);
        assert(projects(cells@, lod_step as int, *project, keys@, boxes));
    }
    out
}

/// Those higher up come first.
pub open spec fn by_row() -> spec_fn(DrawCmd, DrawCmd) -> bool {
    |a: DrawCmd, b: DrawCmd| a.place.py <= b.place.py
}

fn insert_draw(sorted: &mut Vec<DrawCmd>, x: DrawCmd)
    ensures
        final(sorted)@ == insert_by(old(sorted)@, x, by_row()),
{
    let ghost s = sorted@;
    let mut k: usize = sorted.len();
    assert(s.take(k as int) =~= s);
    assert(insert_by(s.take(k as int), x, by_row()) + s.skip(k as int) =~= insert_by(
        s,
        x,
        by_row(),
    ));
    while k > 0 && sorted[k - 1].place.py > x.place.py
        invariant
            k <= s.len(),
            sorted@ == s,
            insert_by(s.take(k as int), x, by_row()) + s.skip(k as int) == insert_by(
                s,
                x,
                by_row(),
            ),
        decreases k,
    {
        proof {
            let t = s.take(k as int);
            assert(!by_row()(t.last(), x));
            assert(t.drop_last() =~= s.take(k - 1));
            assert(insert_by(s.take(k - 1), x, by_row()) + s.skip(k - 1) =~= insert_by(
                t,
                x,
                by_row(),
            ) + s.skip(k as int));
        }
        k = k - 1;
    }
    proof {
        let t = s.take(k as int);
        if k > 0 {
            assert(by_row()(t.last(), x));
        }
        assert(insert_by(t, x, by_row()) =~= t.push(x));
        assert(s.insert(k as int, x) =~= insert_by(s, x, by_row()));
    }
    sorted.insert(k, x);
}

/// `draws` row by row.
pub fn order_draws(draws: Vec<DrawCmd>) -> (r: Vec<DrawCmd>)
    ensures
        r@ == sort_by(draws@, by_row()),
        (forall|i: int| 0 <= i < draws@.len() ==> (#[trigger] draws@[i]).place.wf()) ==> forall|
            i: int,
        |
            0 <= i < r@.len() ==> (#[trigger] r@[i]).place.wf(),
{
    let ghost all = draws@;
    let mut out: Vec<DrawCmd> = Vec::new();
    assert(all.take(0) =~= Seq::<DrawCmd>::empty());
    let mut i: usize = 0;
    while i < draws.len()
        invariant
            i <= all.len(),
            draws@ == all,
            out@ == sort_by(all.take(i as int), by_row()),
        decreases all.len() - i,
    {
        assert(all.take(i + 1).drop_last() =~= all.take(i as int));
        insert_draw(&mut out, draws[i]);
        i = i + 1;
    }
    proof {
        assert(all.take(i as int) =~= all);
        lemma_sorted_members(all);
        if forall|i: int| 0 <= i < all.len() ==> (#[trigger] all[i]).place.wf() {
            assert forall|j: int| 0 <= j < out@.len() implies (#[trigger] out@[j]).place.wf() by {
                assert(out@.contains(out@[j]));
                let k = choose|k: int| 0 <= k < all.len() && all[k] == out@[j];
                assert(all[k].place.wf());
            }
        }
    }
    out
}

proof fn lemma_sorted_members(s: Seq<DrawCmd>)
    ensures
        forall|y: DrawCmd| #[trigger] sort_by(s, by_row()).contains(y) ==> s.contains(y),
    decreases s.len(),
{
    if s.len() > 0 {
        lemma_sorted_members(s.drop_last());
        lemma_insert_by(sort_by(s.drop_last(), by_row()), s.last(), by_row());
        assert forall|y: DrawCmd| #[trigger] sort_by(s, by_row()).contains(y) implies s.contains(
            y,
        ) by {
            if y == s.last() {
                assert(s[s.len() - 1] == y);
            } else {
                assert(sort_by(s.drop_last(), by_row()).contains(y));
                let k = choose|k: int| 0 <= k < s.len() - 1 && s.drop_last()[k] == y;
                assert(s[k] == y);
            }
        }
    }
}

/// How far each glyph covers each pixel of a cell, by glyph, width and height.
pub type Coverage = Map<(int, int, int), Seq<u8>>;

/// What `maps` is asked for to paint `cmd`.
pub open spec fn map_key(codes: Seq<u32>, cmd: DrawCmd) -> Option<(int, int, int)> {
    match halving(codes, cmd.ch as u32, 0, codes.len() as int) {
        Some(g) => Some((g, cmd.place.w(), cmd.place.h())),
        None => None,
    }
}

pub open spec fn paint_cmd(
    buf: Seq<u8>,
    codes: Seq<u32>,
    maps: Coverage,
    glyph_mode: bool,
    cmd: DrawCmd,
) -> Seq<u8> {
    if glyph_mode {
        match map_key(codes, cmd) {
            Some(k) => paint(buf, glyph_brush(cmd, maps[k])),
            None => buf,
        }
    } else {
        paint(buf, block_brush(cmd))
    }
}

/// The picture with `draws` painted one after the other: as glyphs, where the
/// font has them, or as blocks.
pub open spec fn painted(
    codes: Seq<u32>,
    maps: Coverage,
    glyph_mode: bool,
    draws: Seq<DrawCmd>,
) -> Seq<u8>
    decreases draws.len(),
{
    if draws.len() == 0 {
        blank()
    } else {
        paint_cmd(
            painted(codes, maps, glyph_mode, draws.drop_last()),
            codes,
            maps,
            glyph_mode,
            draws.last(),
        )
    }
}

/// `maps` holds what `coverage` gave for each glyph that `draws` need.
pub open spec fn covers<C: Fn(usize, i32, i32) -> Vec<u8>>(
    coverage: C,
    codes: Seq<u32>,
    maps: Coverage,
    draws: Seq<DrawCmd>,
) -> bool {
    &&& forall|g: int, w: int, h: int| #[trigger]
        maps.contains_key((g, w, h)) ==> exists|m: Vec<u8>| #[trigger]
            call_ensures(coverage, (g as usize, w as i32, h as i32), m) && m@ == maps[(g, w, h)]
    &&& forall|i: int|
        0 <= i < draws.len() ==> (map_key(codes, #[trigger] draws[i]) matches Some(k)
            ==> maps.contains_key(k))
}

proof fn lemma_painted_grows(
    codes: Seq<u32>,
    a: Coverage,
    b: Coverage,
    glyph_mode: bool,
    draws: Seq<DrawCmd>,
)
    requires
        forall|k: (int, int, int)| #[trigger]
            a.contains_key(k) ==> b.contains_key(k) && b[k] == a[k],
        glyph_mode ==> forall|i: int|
            0 <= i < draws.len() ==> (map_key(codes, #[trigger] draws[i]) matches Some(k)
                ==> a.contains_key(k)),
    ensures
        painted(codes, a, glyph_mode, draws) == painted(codes, b, glyph_mode, draws),
    decreases draws.len(),
{
    if draws.len() > 0 {
        assert forall|i: int| 0 <= i < draws.drop_last().len() implies (map_key(
            codes,
            #[trigger] draws.drop_last()[i],
        ) matches Some(k) ==> (glyph_mode ==> a.contains_key(k))) by {
            assert(draws.drop_last()[i] == draws[i]);
        }
        lemma_painted_grows(codes, a, b, glyph_mode, draws.drop_last());
        assert(draws.last() == draws[draws.len() - 1]);
    }
}

fn blank_picture() -> (r: Vec<u8>)
    ensures
        r@ == blank(),
{
    let mut buf: Vec<u8> = Vec::new();
    let mut i: u32 = 0;
    while i < OUT_BYTES
        invariant
            i <= OUT_BYTES,
            i % 4 == 0,
            buf@.len() == i,
            forall|k: int| 0 <= k < i ==> buf@[k] == channel(Rgb(BG, BG, BG), k % 4),
        decreases OUT_BYTES - i,
    {
        buf.push(BG);
        buf.push(BG);
        buf.push(BG);
        buf.push(0xff);
        i = i + 4;
    }
    assert(buf@ =~= blank());
    buf
}

spec fn place_in_cache(k: u128) -> (int, int, int) {
    (
        k as int / 0x1_0000_0000 / 0x1_0000_0000,
        k as int / 0x1_0000_0000 % 0x1_0000_0000,
        k as int % 0x1_0000_0000,
    )
}

spec fn key_in_cache(t: (int, int, int)) -> u128 {
    ((t.0 * 0x1_0000_0000 + t.1) * 0x1_0000_0000 + t.2) as u128
}

fn cache_key(glyph: usize, w: i32, h: i32) -> (k: u128)
    requires
        w >= 0,
        h >= 0,
    ensures
        k == key_in_cache((glyph as int, w as int, h as int)),
        place_in_cache(k) == (glyph as int, w as int, h as int),
{
    let upper: u128 = glyph as u128 * 0x1_0000_0000 + w as u128;
    let k: u128 = upper * 0x1_0000_0000 + h as u128;
    proof {
        lemma_fundamental_div_mod_converse(k as int, 0x1_0000_0000, upper as int, h as int);
        lemma_fundamental_div_mod_converse(upper as int, 0x1_0000_0000, glyph as int, w as int);
    }
    k
}

spec fn color_in_cache(k: u32) -> (int, int, int) {
    (k as int / 0x100 / 0x100, k as int / 0x100 % 0x100, k as int % 0x100)
}

fn color_key(c: Rgb) -> (k: u32)
    ensures
        color_in_cache(k) == (c.0 as int, c.1 as int, c.2 as int),
{
    let upper: u32 = c.0 as u32 * 0x100 + c.1 as u32;
    let k: u32 = upper * 0x100 + c.2 as u32;
    proof {
        lemma_fundamental_div_mod_converse(k as int, 0x100, upper as int, c.2 as int);
        lemma_fundamental_div_mod_converse(upper as int, 0x100, c.0 as int, c.1 as int);
    }
    k
}

/// `coverage` can be asked how far a glyph covers a cell of any size, and
/// answers for each pixel of it.
pub open spec fn gives_maps<C: Fn(usize, i32, i32) -> Vec<u8>>(coverage: C, glyphs: nat) -> bool {
    &&& forall|g: usize, w: i32, h: i32|
        g < glyphs && 0 < w <= 2 * FAR && 0 < h <= 2 * FAR ==> #[trigger] call_requires(
            coverage,
            (g, w, h),
        )
    &&& forall|g: usize, w: i32, h: i32, m: Vec<u8>| #[trigger]
        call_ensures(coverage, (g, w, h), m) ==> m@.len() == w * h
}

/// What is kept while a picture is painted: coverages and shades that were
/// asked for before.
struct Palette {
    maps: HashMap<u128, Vec<u8>>,
    shades: HashMap<u32, Box<[[u8; 3]; 256]>>,
    known: Ghost<Coverage>,
}

impl Palette {
    spec fn wf<C: Fn(usize, i32, i32) -> Vec<u8>>(self, coverage: C) -> bool {
        &&& forall|k: u128| #[trigger]
            self.maps@.contains_key(k) ==> self.known@.contains_key(place_in_cache(k))
                && self.known@[place_in_cache(k)] == self.maps@[k]@
        &&& forall|t: (int, int, int)| #[trigger]
            self.known@.contains_key(t) ==> self.maps@.contains_key(key_in_cache(t))
                && self.known@[t].len() == t.1 * t.2 && exists|m: Vec<u8>| #[trigger]
                call_ensures(coverage, (t.0 as usize, t.1 as i32, t.2 as i32), m) && m@
                    == self.known@[t]
        &&& forall|k: u32, c: Rgb|
            self.shades@.contains_key(k) && color_in_cache(k) == (
            c.0 as int,
            c.1 as int,
            c.2 as int,
            ) ==> #[trigger] blends(self.shades@[k]@, 256, c)
    }

    fn new<C: Fn(usize, i32, i32) -> Vec<u8>>(coverage: &C) -> (r: Self)
        ensures
            r.wf(*coverage),
            r.known@ == Coverage::empty(),
    {
        broadcast use group_hash_axioms;

        Palette { maps: HashMap::new(), shades: HashMap::new(), known: Ghost(Map::empty()) }
    }

    /// Makes sure of the coverage of a glyph.
    fn prepare_map<C: Fn(usize, i32, i32) -> Vec<u8>>(
        &mut self,
        coverage: &C,
        g: usize,
        w: i32,
        h: i32,
    ) -> (k: u128)
        requires
            old(self).wf(*coverage),
            0 < w,
            0 < h,
            call_requires(*coverage, (g, w, h)),
            forall|m: Vec<u8>| #[trigger]
                call_ensures(*coverage, (g, w, h), m) ==> m@.len() == w * h,
        ensures
            final(self).wf(*coverage),
            final(self).shades == old(self).shades,
            final(self).maps@.contains_key(k),
            place_in_cache(k) == (g as int, w as int, h as int),
            forall|t: (int, int, int)| #[trigger]
                old(self).known@.contains_key(t) ==> final(self).known@.contains_key(t)
                    && final(self).known@[t] == old(self).known@[t],
    {
        broadcast use group_hash_axioms;

        let k: u128 = cache_key(g, w, h);
        if !self.maps.contains_key(&k) {
            let m = coverage(g, w, h);
            let ghost t = (g as int, w as int, h as int);
            assert(call_ensures(*coverage, (t.0 as usize, t.1 as i32, t.2 as i32), m));
            proof {
                self.known@ = self.known@.insert(t, m@);
            }
            self.maps.insert(k, m);
        }
        k
    }

    /// Makes sure of the shades of a color.
    fn prepare_shades<C: Fn(usize, i32, i32) -> Vec<u8>>(
        &mut self,
        c: Rgb,
        coverage: &C,
    ) -> (k: u32)
        requires
            old(self).wf(*coverage),
        ensures
            final(self).wf(*coverage),
            final(self).maps == old(self).maps,
            final(self).known == old(self).known,
            final(self).shades@.contains_key(k),
            color_in_cache(k) == (c.0 as int, c.1 as int, c.2 as int),
    {
        broadcast use group_hash_axioms;

        let k: u32 = color_key(c);
        if !self.shades.contains_key(&k) {
            let table = make_blend_table(c.0, c.1, c.2);
            self.shades.insert(k, table);
        }
        k
    }
}

impl Palette {
    /// Paints one glyph, if the font has it.
    fn paint_next<C: Fn(usize, i32, i32) -> Vec<u8>>(
        &mut self,
        buf: &mut Vec<u8>,
        cmd: &DrawCmd,
        codes: &Vec<u32>,
        coverage: &C,
    )
        requires
            old(self).wf(*coverage),
            gives_maps(*coverage, codes@.len()),
            cmd.place.wf(),
            old(buf)@.len() == OUT_BYTES,
        ensures
            final(self).wf(*coverage),
            forall|t: (int, int, int)| #[trigger]
                old(self).known@.contains_key(t) ==> final(self).known@.contains_key(t)
                    && final(self).known@[t] == old(self).known@[t],
            map_key(codes@, *cmd) matches Some(k) ==> final(self).known@.contains_key(k),
            final(buf)@ == paint_cmd(old(buf)@, codes@, final(self).known@, true, *cmd),
    {
        broadcast use group_hash_axioms;

        match find_code(codes, cmd.ch as u32) {
            Some(g) => {
                let w: i32 = larger(cmd.place.next_px - cmd.place.px, 1);
                let h: i32 = larger(cmd.place.next_py - cmd.place.py, 1);
                proof {
                    assert(map_key(codes@, *cmd) == Some((g as int, w as int, h as int)));
                    assert(call_requires(*coverage, (g, w, h)));
                }
                let k: u128 = self.prepare_map(coverage, g, w, h);
                let c: u32 = self.prepare_shades(cmd.color, coverage);
                assert(blends(self.shades@[c]@, 256, cmd.color));
                assert(self.known@[place_in_cache(k)] == self.maps@[k]@);
                assert(self.known@.contains_key((g as int, w as int, h as int)));
                match (self.maps.get(&k), self.shades.get(&c)) {
                    (Some(m), Some(t)) => {
                        paint_glyph(buf, cmd, m, t);
                    },
                    _ => {},
                }
            },
            None => {},
        }
    }
}

/// `r` is the picture of `draws`, with coverages that `coverage` gave.
pub open spec fn depicts<C: Fn(usize, i32, i32) -> Vec<u8>>(
    coverage: C,
    codes: Seq<u32>,
    maps: Coverage,
    glyph_mode: bool,
    draws: Seq<DrawCmd>,
    r: Seq<u8>,
) -> bool {
    &&& glyph_mode ==> covers(coverage, codes, maps, draws)
    &&& r == painted(codes, maps, glyph_mode, draws)
}

/// The order in which `draws` are painted.
pub open spec fn in_turn(glyph_mode: bool, draws: Seq<DrawCmd>) -> Seq<DrawCmd> {
    if glyph_mode {
        sort_by(draws, by_row())
    } else {
        draws
    }
}

/// `r` is the picture of `draws`, put in order before they are painted.
pub open spec fn depicts_in_turn<C: Fn(usize, i32, i32) -> Vec<u8>>(
    coverage: C,
    codes: Seq<u32>,
    maps: Coverage,
    glyph_mode: bool,
    draws: Seq<DrawCmd>,
    r: Seq<u8>,
) -> bool {
    depicts(coverage, codes, maps, glyph_mode, in_turn(glyph_mode, draws), r)
}

/// The picture with `draws` painted, one after the other.
pub fn paint_draws<C: Fn(usize, i32, i32) -> Vec<u8>>(
    codes: &Vec<u32>,
    draws: &Vec<DrawCmd>,
    glyph_mode: bool,
    coverage: &C,
) -> (r: Vec<u8>)
    requires
        gives_maps(*coverage, codes@.len()),
        forall|i: int| 0 <= i < draws@.len() ==> (#[trigger] draws@[i]).place.wf(),
    ensures
        r@.len() == OUT_BYTES,
        exists|maps: Coverage| #[trigger]
            depicts(*coverage, codes@, maps, glyph_mode, draws@, r@),
{
    broadcast use group_hash_axioms;

    let mut buf = blank_picture();
    let mut palette = Palette::new(coverage);
    let mut i: usize = 0;
    assert(draws@.take(0) =~= Seq::<DrawCmd>::empty());
    while i < draws.len()
        invariant
            i <= draws@.len(),
            gives_maps(*coverage, codes@.len()),
            forall|j: int| 0 <= j < draws@.len() ==> (#[trigger] draws@[j]).place.wf(),
            palette.wf(*coverage),
            buf@.len() == OUT_BYTES,
            buf@ == painted(codes@, palette.known@, glyph_mode, draws@.take(i as int)),
            glyph_mode ==> forall|j: int|
                0 <= j < i ==> (map_key(codes@, #[trigger] draws@[j]) matches Some(k)
                    ==> palette.known@.contains_key(k)),
        decreases draws@.len() - i,
    {
        broadcast use group_hash_axioms;

        let cmd = draws[i];
        let ghost before = draws@.take(i as int);
        let ghost known = palette.known@;
        assert(draws@.take(i + 1).drop_last() =~= before);
        assert(draws@.take(i + 1).last() == cmd);
        if glyph_mode {
            palette.paint_next(&mut buf, &cmd, codes, coverage);
            proof {
                assert forall|j: int| 0 <= j < before.len() implies (map_key(
                    codes@,
                    #[trigger] before[j],
                ) matches Some(k) ==> known.contains_key(k)) by {
                    assert(before[j] == draws@[j]);
                }
                lemma_painted_grows(codes@, known, palette.known@, glyph_mode, before);
            }
        } else {
            paint_block(&mut buf, &cmd);
        }
        i = i + 1;
    }
    proof {
        assert(draws@.take(i as int) =~= draws@);
        assert(depicts(*coverage, codes@, palette.known@, glyph_mode, draws@, buf@));
    }
    buf
}

/// The picture of `cells`, which stand where `project` says.
///
/// In glyph mode each is drawn as far as `coverage` says that its glyph covers
/// each pixel; otherwise each `lod_step`-th fills its place with its color.
pub fn render_preview<P: Fn(WorldCoords) -> CellBox, C: Fn(usize, i32, i32) -> Vec<u8>>(
    atlas: &FontAtlasFile,
    cells: &CoordMap<WorldCoords, (char, Rgb)>,
    glyph_mode: bool,
    lod_step: i32,
    project: &P,
    coverage: &C,
) -> (r: Vec<u8>)
    requires
        forall|p: WorldCoords| cells@.contains_key(p) ==> call_requires(*project, (p,)),
        forall|p: WorldCoords, b: CellBox| #[trigger] call_ensures(*project, (p,), b) ==> b.wf(),
        gives_maps(*coverage, atlas.codepoints@.len()),
    ensures
        r@.len() == OUT_BYTES,
        exists|draws: Seq<DrawCmd>, maps: Coverage|
            placed(cells@, lod_step as int, *project, draws) && #[trigger] depicts_in_turn(
                *coverage,
                atlas.codepoints@,
                maps,
                glyph_mode,
                draws,
                r@,
            ),
{
    let mut draws = place_cells(cells, lod_step, project);
    let ghost unsorted = draws@;
    if glyph_mode {
        draws = order_draws(draws);
    }
    let r = paint_draws(&atlas.codepoints, &draws, glyph_mode, coverage);
    proof {
        let maps = choose|maps: Coverage| #[trigger]
            depicts(*coverage, atlas.codepoints@, maps, glyph_mode, draws@, r@);
        assert(placed(cells@, lod_step as int, *project, unsorted));
        assert(in_turn(glyph_mode, unsorted) == draws@);
        assert(depicts_in_turn(
            *coverage,
            atlas.codepoints@,
            maps,
            glyph_mode,
            unsorted,
            r@,
        ));
    }
    r
}

/// The pixel of a picture in column `x` and row `y` has the color with the given
/// red, green and blue, and is opaque.
pub open spec fn pixel_is(pic: Seq<u8>, x: int, y: int, r: int, g: int, b: int) -> bool {
    let i = (y * 1200 + x) * 4;
    &&& 0 <= i && i + 3 < pic.len()
    &&& pic[i] == r
    &&& pic[i + 1] == g
    &&& pic[i + 2] == b
    &&& pic[i + 3] == 255
}

spec fn brush_for(codes: Seq<u32>, maps: Coverage, glyph_mode: bool, cmd: DrawCmd) -> Brush {
    if glyph_mode {
        match map_key(codes, cmd) {
            Some(k) => glyph_brush(cmd, maps[k]),
            None => |x: int, y: int| None,
        }
    } else {
        block_brush(cmd)
    }
}

proof fn lemma_pixel_bytes(x: int, y: int, k: int)
    requires
        0 <= x < OUT_W,
        0 <= y < OUT_H,
        0 <= k < 4,
    ensures
        0 <= (y * 1200 + x) * 4 + k < OUT_BYTES,
        column((y * 1200 + x) * 4 + k) == x,
        row((y * 1200 + x) * 4 + k) == y,
        ((y * 1200 + x) * 4 + k) % 4 == k,
{
}

/// The command that a pixel shows, or -1 if it shows the background.
proof fn lemma_painted_pixel(
    codes: Seq<u32>,
    maps: Coverage,
    glyph_mode: bool,
    draws: Seq<DrawCmd>,
    x: int,
    y: int,
) -> (r: int)
    requires
        0 <= x < OUT_W,
        0 <= y < OUT_H,
    ensures
        painted(codes, maps, glyph_mode, draws).len() == OUT_BYTES,
        -1 <= r < draws.len(),
        forall|j: int|
            r < j < draws.len() ==> brush_for(codes, maps, glyph_mode, #[trigger] draws[j])(
                x,
                y,
            ) is None,
        r < 0 ==> pixel_is(painted(codes, maps, glyph_mode, draws), x, y, 12, 12, 12),
        r >= 0 ==> brush_for(codes, maps, glyph_mode, draws[r])(x, y) is Some && ({
            let c = brush_for(codes, maps, glyph_mode, draws[r])(x, y)->0;
            pixel_is(
                painted(codes, maps, glyph_mode, draws),
                x,
                y,
                c.0 as int,
                c.1 as int,
                c.2 as int,
            )
        }),
    decreases draws.len(),
{
    lemma_pixel_bytes(x, y, 0);
    lemma_pixel_bytes(x, y, 1);
    lemma_pixel_bytes(x, y, 2);
    lemma_pixel_bytes(x, y, 3);
    if draws.len() == 0 {
        -1
    } else {
        let n = draws.len() - 1;
        let d = draws.drop_last();
        let before = lemma_painted_pixel(codes, maps, glyph_mode, d, x, y);
        let brush = brush_for(codes, maps, glyph_mode, draws[n]);
        let pic = painted(codes, maps, glyph_mode, d);
        assert(draws.last() == draws[n]);
        assert(paint(pic, |x: int, y: int| None::<Rgb>) =~= pic);
        assert(painted(codes, maps, glyph_mode, draws) == paint(pic, brush));
        if brush(x, y) is Some {
            n
        } else {
            assert forall|j: int| before < j < draws.len() implies brush_for(
                codes,
                maps,
                glyph_mode,
                #[trigger] draws[j],
            )(x, y) is None by {
                if j < n {
                    assert(d[j] == draws[j]);
                }
            }
            if before >= 0 {
                assert(d[before] == draws[before]);
            }
            before
        }
    }
}

/// `cmd` draws one of the cells at `keys`.
spec fn drawn_from(
    cells: Map<WorldCoords, (char, Rgb)>,
    step: int,
    keys: Seq<WorldCoords>,
    boxes: Seq<CellBox>,
    cmd: DrawCmd,
) -> bool {
    exists|i: int|
        0 <= i < keys.len() && shown_at(#[trigger] keys[i], step) && cmd == cell_draw(
            cells,
            keys[i],
            boxes[i],
        )
}

spec fn cell_draw(cells: Map<WorldCoords, (char, Rgb)>, k: WorldCoords, b: CellBox) -> DrawCmd {
    DrawCmd { place: b, ch: cells[k].0, color: cells[k].1 }
}

proof fn lemma_draws_members(
    cells: Map<WorldCoords, (char, Rgb)>,
    step: int,
    keys: Seq<WorldCoords>,
    boxes: Seq<CellBox>,
)
    requires
        keys.len() == boxes.len(),
    ensures
        forall|m: int|
            0 <= m < draws_for(cells, step, keys, boxes).len() ==> drawn_from(
                cells,
                step,
                keys,
                boxes,
                #[trigger] draws_for(cells, step, keys, boxes)[m],
            ),
        forall|i: int|
            0 <= i < keys.len() && shown_at(#[trigger] keys[i], step) && boxes[i].on_screen()
                ==> draws_for(cells, step, keys, boxes).contains(
                cell_draw(cells, keys[i], boxes[i]),
            ),
    decreases keys.len(),
{
    if keys.len() > 0 {
        let n = keys.len() - 1;
        let (kd, bd) = (keys.drop_last(), boxes.drop_last());
        lemma_draws_members(cells, step, kd, bd);
        let before = draws_for(cells, step, kd, bd);
        let draws = draws_for(cells, step, keys, boxes);
        let cmd = cell_draw(cells, keys[n], boxes[n]);
        lemma_draws_step(cells, step, kd, bd, keys[n], boxes[n]);
        assert(kd.push(keys[n]) =~= keys);
        assert(bd.push(boxes[n]) =~= boxes);
        assert(draws == before || draws == before.push(cmd));
        assert forall|m: int| 0 <= m < draws.len() implies drawn_from(
            cells,
            step,
            keys,
            boxes,
            #[trigger] draws[m],
        ) by {
            if m < before.len() {
                assert(draws[m] == before[m]);
                assert(drawn_from(cells, step, kd, bd, before[m]));
                let i = choose|i: int|
                    0 <= i < kd.len() && shown_at(#[trigger] kd[i], step) && before[m]
                        == cell_draw(cells, kd[i], bd[i]);
                assert(keys[i] == kd[i] && boxes[i] == bd[i]);
            } else {
                assert(shown_at(keys[n], step));
            }
        }
        assert forall|i: int|
            0 <= i < keys.len() && shown_at(#[trigger] keys[i], step)
                && boxes[i].on_screen() implies draws.contains(
            cell_draw(cells, keys[i], boxes[i]),
        ) by {
            let c = cell_draw(cells, keys[i], boxes[i]);
            if i < n {
                assert(kd[i] == keys[i] && bd[i] == boxes[i]);
                assert(before.contains(c));
                let m = choose|m: int| 0 <= m < before.len() && before[m] == c;
                assert(draws[m] == c);
            } else {
                assert(draws[before.len() as int] == c);
            }
        }
    }
}

/// The cell at `k` is shown: in both directions, each `step`-th is.
pub open spec fn is_shown(cells: Map<WorldCoords, (char, Rgb)>, step: int, k: WorldCoords) -> bool {
    cells.contains_key(k) && (step <= 1 || (k.x as int % step == 0 && k.y as int % step == 0))
}

/// There is something to paint for every cell that is shown and whose box meets the
/// picture, of 1200 columns and 630 rows: its character in its color, in that box;
/// and for nothing that is not shown.
pub proof fn law_cells_in_the_picture_are_painted<P: Fn(WorldCoords) -> CellBox>(
    cells: Map<WorldCoords, (char, Rgb)>,
    step: int,
    project: P,
    place: spec_fn(WorldCoords) -> CellBox,
    draws: Seq<DrawCmd>,
    k: WorldCoords,
)
    requires
        placed(cells, step, project, draws),
        forall|p: WorldCoords, b: CellBox| #[trigger]
            call_ensures(project, (p,), b) ==> b == place(p),
    ensures
        is_shown(cells, step, k) && 0 < place(k).next_px && place(k).px < 1200 && 0 < place(k).next_py
            && place(k).py < 630 ==> draws.contains(
            DrawCmd { place: place(k), ch: cells[k].0, color: cells[k].1 },
        ),
        forall|m: int|
            0 <= m < draws.len() ==> exists|q: WorldCoords| #[trigger]
                is_shown(cells, step, q) && draws[m].place == place(q) && (
                #[trigger] draws[m]).ch == cells[q].0 && draws[m].color == cells[q].1,
{
    let (keys, boxes) = choose|keys: Seq<WorldCoords>, boxes: Seq<CellBox>| #[trigger]
        projects(cells, step, project, keys, boxes) && draws == draws_for(
            cells,
            step,
            keys,
            boxes,
        );
    lemma_draws_members(cells, step, keys, boxes);
    if is_shown(cells, step, k) {
        assert(keys.contains(k));
        let i = choose|i: int| 0 <= i < keys.len() && keys[i] == k;
        assert(shown_at(keys[i], step));
        assert(boxes[i] == place(k));
    }
    assert forall|m: int| 0 <= m < draws.len() implies exists|q: WorldCoords| #[trigger]
        is_shown(cells, step, q) && draws[m].place == place(q) && (#[trigger] draws[m]).ch
            == cells[q].0 && draws[m].color == cells[q].1 by {
        assert(drawn_from(cells, step, keys, boxes, draws[m]));
        let i = choose|i: int|
            0 <= i < keys.len() && shown_at(#[trigger] keys[i], step) && draws[m] == cell_draw(
                cells,
                keys[i],
                boxes[i],
            );
        assert(keys.contains(keys[i]));
        assert(is_shown(cells, step, keys[i]));
        assert(boxes[i] == place(keys[i]));
    }
}

/// A preview in blocks shows every cell: each pixel in the box of some cell that
/// is shown has the color of a cell whose box it is in, and every other pixel the
/// background's. `place` is where the cells stand.
pub proof fn law_preview_fills_the_boxes<
    P: Fn(WorldCoords) -> CellBox,
    C: Fn(usize, i32, i32) -> Vec<u8>,
>(
    cells: Map<WorldCoords, (char, Rgb)>,
    step: int,
    project: P,
    place: spec_fn(WorldCoords) -> CellBox,
    coverage: C,
    codes: Seq<u32>,
    maps: Coverage,
    draws: Seq<DrawCmd>,
    pic: Seq<u8>,
    x: int,
    y: int,
)
    requires
        placed(cells, step, project, draws),
        depicts_in_turn(coverage, codes, maps, false, draws, pic),
        forall|p: WorldCoords, b: CellBox| #[trigger]
            call_ensures(project, (p,), b) ==> b == place(p),
        0 <= x < 1200,
        0 <= y < 630,
    ensures
        ({
            ||| exists|k: WorldCoords|
                {
                    &&& #[trigger] is_shown(cells, step, k)
                    &&& place(k).px <= x < place(k).next_px
                    &&& place(k).py <= y < place(k).next_py
                    &&& pixel_is(
                        pic,
                        x,
                        y,
                        cells[k].1.0 as int,
                        cells[k].1.1 as int,
                        cells[k].1.2 as int,
                    )
                }
            ||| {
                &&& pixel_is(pic, x, y, 12, 12, 12)
                &&& forall|k: WorldCoords| #[trigger]
                    is_shown(cells, step, k) ==> !(place(k).px <= x < place(k).next_px && place(
                        k,
                    ).py <= y < place(k).next_py)
            }
        }),
{
    let (keys, boxes) = choose|keys: Seq<WorldCoords>, boxes: Seq<CellBox>| #[trigger]
        projects(cells, step, project, keys, boxes) && draws == draws_for(cells, step, keys, boxes);
    lemma_draws_members(cells, step, keys, boxes);
    let r = lemma_painted_pixel(codes, maps, false, draws, x, y);
    if r >= 0 {
        assert(drawn_from(cells, step, keys, boxes, draws[r]));
        let i = choose|i: int|
            0 <= i < keys.len() && shown_at(#[trigger] keys[i], step) && draws[r] == cell_draw(
                cells,
                keys[i],
                boxes[i],
            );
        assert(keys.contains(keys[i]));
        assert(is_shown(cells, step, keys[i]));
    } else {
        assert forall|k: WorldCoords| #[trigger] is_shown(cells, step, k) implies !(place(k).px <= x
            < place(k).next_px && place(k).py <= y < place(k).next_py) by {
            assert(keys.contains(k));
            let i = choose|i: int| 0 <= i < keys.len() && keys[i] == k;
            assert(shown_at(keys[i], step));
            if place(k).px <= x < place(k).next_px && place(k).py <= y < place(k).next_py {
                let cmd = cell_draw(cells, k, boxes[i]);
                assert(draws.contains(cmd));
                let m = choose|m: int| 0 <= m < draws.len() && draws[m] == cmd;
                assert(brush_for(codes, maps, false, draws[m])(x, y) is None);
            }
        }
    }
}

/// The glyph of a cell at `b` covers the pixel `(x, y)` to the extent `cov`, out
/// of 255: `ink` says how far each pixel of a cell of some size is covered by a
/// glyph, row by row.
pub open spec fn inks_pixel(
    codes: Seq<u32>,
    ink: spec_fn(int, int, int) -> Seq<u8>,
    b: CellBox,
    ch: char,
    x: int,
    y: int,
    cov: int,
) -> bool {
    let w = if b.next_px - b.px < 1 {
        1
    } else {
        b.next_px - b.px
    };
    let h = if b.next_py - b.py < 1 {
        1
    } else {
        b.next_py - b.py
    };
    &&& b.px <= x < b.px + w
    &&& b.py <= y < b.py + h
    &&& cov > 0
    &&& exists|g: int|
        0 <= g < codes.len() && #[trigger] codes[g] == ch as u32 && ink(g, w, h)[(y - b.py) * w + (x
            - b.px)] == cov
}

/// A preview in glyphs shows every glyph: each pixel that the glyph of some cell
/// covers has the color of such a cell, mixed with the background's as far as the
/// glyph does not cover it, and no such cell stands further down; every other
/// pixel has the background's. `place` is where the cells stand, and `ink` how
/// far the glyphs cover their cells.
pub proof fn law_preview_draws_the_glyphs<
    P: Fn(WorldCoords) -> CellBox,
    C: Fn(usize, i32, i32) -> Vec<u8>,
>(
    cells: Map<WorldCoords, (char, Rgb)>,
    project: P,
    place: spec_fn(WorldCoords) -> CellBox,
    coverage: C,
    ink: spec_fn(int, int, int) -> Seq<u8>,
    codes: Seq<u32>,
    maps: Coverage,
    draws: Seq<DrawCmd>,
    pic: Seq<u8>,
    x: int,
    y: int,
)
    requires
        placed(cells, 1, project, draws),
        depicts_in_turn(coverage, codes, maps, true, draws, pic),
        forall|p: WorldCoords, b: CellBox| #[trigger]
            call_ensures(project, (p,), b) ==> b == place(p) && b.px < b.next_px && b.py < b.next_py
                && b.wf(),
        forall|g: usize, w: i32, h: i32, m: Vec<u8>| #[trigger]
            call_ensures(coverage, (g, w, h), m) ==> m@ == ink(g as int, w as int, h as int),
        forall|i: int, j: int|
            0 <= i < j < codes.len() ==> #[trigger] codes[i] < #[trigger] codes[j],
        codes.len() <= usize::MAX,
        0 <= x < 1200,
        0 <= y < 630,
    ensures
        ({
            ||| exists|k: WorldCoords, cov: int|
                {
                    &&& cells.contains_key(k)
                    &&& #[trigger] inks_pixel(codes, ink, place(k), cells[k].0, x, y, cov)
                    &&& pixel_is(
                        pic,
                        x,
                        y,
                        (cells[k].1.0 * cov + 12 * (255 - cov)) / 255,
                        (cells[k].1.1 * cov + 12 * (255 - cov)) / 255,
                        (cells[k].1.2 * cov + 12 * (255 - cov)) / 255,
                    )
                    &&& forall|q: WorldCoords, c: int|
                        cells.contains_key(q) && #[trigger] inks_pixel(
                            codes,
                            ink,
                            place(q),
                            cells[q].0,
                            x,
                            y,
                            c,
                        ) ==> place(q).py <= place(k).py
                }
            ||| {
                &&& pixel_is(pic, x, y, 12, 12, 12)
                &&& forall|q: WorldCoords, c: int|
                    cells.contains_key(q) ==> !(#[trigger] inks_pixel(
                        codes,
                        ink,
                        place(q),
                        cells[q].0,
                        x,
                        y,
                        c,
                    ))
            }
        }),
{
    broadcast use vstd::seq_lib::group_to_multiset_ensures;

    let (keys, boxes) = choose|keys: Seq<WorldCoords>, boxes: Seq<CellBox>| #[trigger]
        projects(cells, 1, project, keys, boxes) && draws == draws_for(cells, 1, keys, boxes);
    lemma_draws_members(cells, 1, keys, boxes);
    let turn = sort_by(draws, by_row());
    law_sort_by(draws, by_row());
    lemma_sorted_members(draws);
    lemma_halving_range(codes);
    let r = lemma_painted_pixel(codes, maps, true, turn, x, y);
    assert forall|q: WorldCoords, c: int|
        cells.contains_key(q) && #[trigger] inks_pixel(
            codes,
            ink,
            place(q),
            cells[q].0,
            x,
            y,
            c,
        ) implies exists|m: int|
        0 <= m < turn.len() && brush_for(codes, maps, true, #[trigger] turn[m])(x, y) is Some
            && turn[m].place == place(q) by {
        assert(keys.contains(q));
        let i = choose|i: int| 0 <= i < keys.len() && keys[i] == q;
        assert(shown_at(keys[i], 1));
        let cmd = cell_draw(cells, q, boxes[i]);
        assert(boxes[i].on_screen());
        assert(draws.contains(cmd));
        assert(turn.to_multiset().count(cmd) > 0);
        assert(turn.contains(cmd));
        let m = choose|m: int| 0 <= m < turn.len() && turn[m] == cmd;
        lemma_ink_known(coverage, codes, maps, turn, m, ink);
        assert(brush_for(codes, maps, true, turn[m])(x, y) is Some);
    }
    if r >= 0 {
        assert(turn.contains(turn[r]));
        assert(draws.contains(turn[r]));
        let n = choose|n: int| 0 <= n < draws.len() && draws[n] == turn[r];
        assert(drawn_from(cells, 1, keys, boxes, draws[n]));
        let i = choose|i: int|
            0 <= i < keys.len() && shown_at(#[trigger] keys[i], 1) && draws[n] == cell_draw(
                cells,
                keys[i],
                boxes[i],
            );
        let k = keys[i];
        assert(keys.contains(k));
        lemma_ink_known(coverage, codes, maps, turn, r, ink);
        let b = place(k);
        let g = halving(codes, cells[k].0 as u32, 0, codes.len() as int)->0;
        let cov = ink(g, b.w(), b.h())[(y - b.py) * b.w() + (x - b.px)] as int;
        assert(codes[g] == cells[k].0 as u32);
        assert(inks_pixel(codes, ink, b, cells[k].0, x, y, cov));
        lemma_blend_fits(cells[k].1.0, cov);
        lemma_blend_fits(cells[k].1.1, cov);
        lemma_blend_fits(cells[k].1.2, cov);
        assert forall|q: WorldCoords, c: int|
            cells.contains_key(q) && #[trigger] inks_pixel(
                codes,
                ink,
                place(q),
                cells[q].0,
                x,
                y,
                c,
            ) implies place(q).py <= b.py by {
            let m = choose|m: int|
                0 <= m < turn.len() && brush_for(codes, maps, true, #[trigger] turn[m])(
                    x,
                    y,
                ) is Some && turn[m].place == place(q);
            if m < r {
                assert(by_row()(turn[m], turn[r]));
            }
        }
    }
}

proof fn lemma_blend_fits(c: u8, cov: int)
    requires
        0 <= cov <= 255,
    ensures
        0 <= blended(c, cov) <= 255,
        blended(c, cov) == (c * cov + 12 * (255 - cov)) / 255,
{
    assert(0 <= c * cov + 12 * (255 - cov) <= 65025) by (nonlinear_arith)
        requires
            0 <= c <= 255,
            0 <= cov <= 255,
    ;
}

pub(crate) proof fn lemma_halving_range(codes: Seq<u32>)
    requires
        forall|i: int, j: int|
            0 <= i < j < codes.len() ==> #[trigger] codes[i] < #[trigger] codes[j],
    ensures
        forall|x: u32, i: int|
            0 <= i < codes.len() && #[trigger] codes[i] == x ==> #[trigger] halving(
                codes,
                x,
                0,
                codes.len() as int,
            ) == Some(i),
        forall|x: u32|
            (#[trigger] halving(codes, x, 0, codes.len() as int)) is Some ==> 0 <= halving(
                codes,
                x,
                0,
                codes.len() as int,
            )->0 < codes.len() && codes[halving(codes, x, 0, codes.len() as int)->0] == x,
{
    assert(increasing(codes));
    assert forall|x: u32, i: int| 0 <= i < codes.len() && #[trigger] codes[i] == x implies (
    #[trigger] halving(codes, x, 0, codes.len() as int)) == Some(i) by {
        lemma_halving(codes, x, 0, codes.len() as int);
        if halving(codes, x, 0, codes.len() as int) is Some {
            let j = halving(codes, x, 0, codes.len() as int)->0;
            assert(!(i < j) && !(j < i));
        }
    }
    assert forall|x: u32| (#[trigger] halving(codes, x, 0, codes.len() as int)) is Some implies 0
        <= halving(codes, x, 0, codes.len() as int)->0 < codes.len() && codes[halving(
        codes,
        x,
        0,
        codes.len() as int,
    )->0] == x by {
        lemma_halving(codes, x, 0, codes.len() as int);
    }
}

proof fn lemma_ink_known<C: Fn(usize, i32, i32) -> Vec<u8>>(
    coverage: C,
    codes: Seq<u32>,
    maps: Coverage,
    draws: Seq<DrawCmd>,
    m: int,
    ink: spec_fn(int, int, int) -> Seq<u8>,
)
    requires
        covers(coverage, codes, maps, draws),
        0 <= m < draws.len(),
        draws[m].place.wf(),
        codes.len() <= usize::MAX,
        forall|g: usize, w: i32, h: i32, v: Vec<u8>| #[trigger]
            call_ensures(coverage, (g, w, h), v) ==> v@ == ink(g as int, w as int, h as int),
    ensures
        map_key(codes, draws[m]) matches Some(k) ==> maps[k] == ink(k.0, k.1, k.2),
{
    if map_key(codes, draws[m]) is Some {
        let k = map_key(codes, draws[m])->0;
        lemma_halving(codes, draws[m].ch as u32, 0, codes.len() as int);
        assert(maps.contains_key((k.0, k.1, k.2)));
    }
}

} // verus!
