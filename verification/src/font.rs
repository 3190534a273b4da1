//! Packing the glyphs of a font into an atlas.

use vstd::arithmetic::div_mod::{lemma_fundamental_div_mod, lemma_fundamental_div_mod_converse};
use vstd::arithmetic::power2::{
    lemma2_to64, lemma_pow2_adds, lemma_pow2_strictly_increases, lemma_pow2_unfold, pow2,
};
use vstd::prelude::*;

use crate::coords::{clamp, int_max, trunc_div};
use crate::msg::FontAtlasFile;
use crate::preview::PngError;
use crate::scene::packed_bit;
use crate::sort::{insert_by, sort_by};

verus! {

/// Places rectangles on shelves, from left to right and from top to bottom.
#[derive(Clone, Copy)]
pub struct ShelfPacker {
    pub atlas_w: u32,
    pub x: u32,
    pub y: u32,
    pub shelf_h: u32,
}

/// A rectangle in the atlas.
pub struct Placed {
    pub x: int,
    pub y: int,
    pub w: int,
    pub h: int,
}

impl Placed {
    /// No point lies in both.
    pub open spec fn apart(self, other: Placed) -> bool {
        forall|x: int, y: int| !(#[trigger] self.has(x, y) && other.has(x, y))
    }

    /// All of it lies in the first `w` columns and `h` rows.
    pub open spec fn inside(self, w: int, h: int) -> bool {
        &&& 0 <= self.x && self.x + self.w <= w
        &&& 0 <= self.y && self.y + self.h <= h
    }

    pub open spec fn has(self, x: int, y: int) -> bool {
        &&& self.x <= x < self.x + self.w
        &&& self.y <= y < self.y + self.h
    }
}

impl ShelfPacker {
    pub open spec fn empty(atlas_w: u32) -> ShelfPacker {
        ShelfPacker { atlas_w, x: 0, y: 0, shelf_h: 0 }
    }

    /// The height that the shelves take.
    pub open spec fn reach(self) -> int {
        self.y + self.shelf_h
    }

    /// Room for the sums that placing a rectangle takes.
    pub open spec fn has_room(self, w: u32, h: u32) -> bool {
        &&& self.x + w <= u32::MAX
        &&& self.reach() <= u32::MAX
    }

    /// Where a rectangle goes: on this shelf, or, if it is too wide for what is
    /// left of it, at the start of the next.
    pub open spec fn place(self, w: u32, h: u32) -> Placed {
        if self.x + w > self.atlas_w {
            Placed { x: 0, y: self.y + self.shelf_h, w: w as int, h: h as int }
        } else {
            Placed { x: self.x as int, y: self.y as int, w: w as int, h: h as int }
        }
    }

    /// The shelves once the rectangle is placed.
    pub open spec fn packed(self, w: u32, h: u32) -> ShelfPacker {
        let p = self.place(w, h);
        ShelfPacker {
            atlas_w: self.atlas_w,
            x: (p.x + w) as u32,
            y: p.y as u32,
            shelf_h: if self.x + w > self.atlas_w {
                h
            } else {
                int_max(self.shelf_h as int, h as int) as u32
            },
        }
    }

    /// The rectangle lies on an earlier shelf, or to the left on this one.
    pub open spec fn behind(self, p: Placed) -> bool {
        ||| p.y + p.h <= self.y
        ||| (p.y == self.y && p.x + p.w <= self.x && p.h <= self.shelf_h)
    }

    pub fn new(atlas_w: u32) -> (r: Self)
        ensures
            r == ShelfPacker::empty(atlas_w),
    {
        ShelfPacker { atlas_w, x: 0, y: 0, shelf_h: 0 }
    }

    pub fn pack(&mut self, w: u32, h: u32) -> (r: (u32, u32))
        requires
            old(self).has_room(w, h),
        ensures
            r.0 == old(self).place(w, h).x,
            r.1 == old(self).place(w, h).y,
            *final(self) == old(self).packed(w, h),
    {
        if self.x + w > self.atlas_w {
            self.y = self.y + self.shelf_h;
            self.x = 0;
            self.shelf_h = 0;
        }
        let px: u32 = self.x;
        let py: u32 = self.y;
        self.x = self.x + w;
        if h > self.shelf_h {
            self.shelf_h = h;
        }
        (px, py)
    }

    pub fn total_height(&self) -> (r: u32)
        requires
            self.reach() <= u32::MAX,
        ensures
            r == self.reach(),
    {
        self.y + self.shelf_h
    }
}

/// A rectangle that a packer places does not overlap one that is behind; and if
/// it is no wider than the atlas, it lies in it, down to the height that the
/// packer then tells.
pub proof fn law_placed_apart(packer: ShelfPacker, w: u32, h: u32, earlier: Placed)
    requires
        packer.has_room(w, h),
        packer.behind(earlier),
    ensures
        ({
            let p = packer.place(w, h);
            let next = packer.packed(w, h);
            &&& next.behind(p)
            &&& next.behind(earlier)
            &&& earlier.apart(p)
            &&& w <= packer.atlas_w ==> p.inside(packer.atlas_w as int, next.reach())
            &&& packer.reach() <= next.reach()
        }),
{
}

/// The packer of an atlas once the first `n` rectangles of the sizes are placed.
pub open spec fn packer_at(sizes: Seq<(u32, u32)>, atlas_w: u32, n: nat) -> ShelfPacker
    decreases n,
{
    if n == 0 {
        ShelfPacker::empty(atlas_w)
    } else {
        packer_at(sizes, atlas_w, (n - 1) as nat).packed(sizes[n - 1].0, sizes[n - 1].1)
    }
}

/// Where rectangle `k` goes.
pub open spec fn box_at(sizes: Seq<(u32, u32)>, atlas_w: u32, k: int) -> Placed {
    packer_at(sizes, atlas_w, k as nat).place(sizes[k].0, sizes[k].1)
}

/// No rectangle is wider than the atlas, there is room for the sums that placing
/// each takes, and for the height of all of them.
pub open spec fn sizes_fit(sizes: Seq<(u32, u32)>, atlas_w: u32) -> bool {
    &&& forall|k: int| 0 <= k < sizes.len() ==> (#[trigger] sizes[k]).0 <= atlas_w
    &&& forall|k: int|
        0 <= k < sizes.len() ==> packer_at(sizes, atlas_w, k as nat).has_room(
            (#[trigger] sizes[k]).0,
            sizes[k].1,
        )
    &&& packer_at(sizes, atlas_w, sizes.len()).reach() <= u32::MAX
}

proof fn lemma_packer_width(sizes: Seq<(u32, u32)>, atlas_w: u32, n: nat)
    ensures
        packer_at(sizes, atlas_w, n).atlas_w == atlas_w,
    decreases n,
{
    if n > 0 {
        lemma_packer_width(sizes, atlas_w, (n - 1) as nat);
    }
}

proof fn lemma_boxes_behind(sizes: Seq<(u32, u32)>, atlas_w: u32, j: int, n: nat)
    requires
        sizes_fit(sizes, atlas_w),
        0 <= j < n <= sizes.len(),
    ensures
        packer_at(sizes, atlas_w, n).behind(box_at(sizes, atlas_w, j)),
        box_at(sizes, atlas_w, j).inside(
            atlas_w as int,
            packer_at(sizes, atlas_w, n).reach(),
        ),
    decreases n,
{
    let before = packer_at(sizes, atlas_w, (n - 1) as nat);
    let (w, h) = sizes[n - 1];
    let p = box_at(sizes, atlas_w, j);
    lemma_packer_width(sizes, atlas_w, (n - 1) as nat);
    assert(before.has_room(w, h) && w <= atlas_w);
    assert(packer_at(sizes, atlas_w, n) == before.packed(w, h));
    if j < n - 1 {
        lemma_boxes_behind(sizes, atlas_w, j, (n - 1) as nat);
        law_placed_apart(before, w, h, p);
    } else {
        lemma_just_placed(before, w, h);
    }
}

proof fn lemma_just_placed(packer: ShelfPacker, w: u32, h: u32)
    requires
        packer.has_room(w, h),
        w <= packer.atlas_w,
    ensures
        packer.packed(w, h).behind(packer.place(w, h)),
        packer.place(w, h).inside(packer.atlas_w as int, packer.packed(w, h).reach()),
{
}

/// However many rectangles are placed one after the other, none wider than the
/// atlas: no two overlap, and each lies in the atlas, down to the height that the
/// packer tells in the end.
pub proof fn law_packing_stands_apart(sizes: Seq<(u32, u32)>, atlas_w: u32)
    requires
        sizes_fit(sizes, atlas_w),
    ensures
        forall|j: int, k: int|
            #![trigger box_at(sizes, atlas_w, j), box_at(sizes, atlas_w, k)]
            0 <= j < sizes.len() && 0 <= k < sizes.len() && j != k ==> box_at(
                sizes,
                atlas_w,
                j,
            ).apart(box_at(sizes, atlas_w, k)),
        forall|k: int|
            0 <= k < sizes.len() ==> (#[trigger] box_at(sizes, atlas_w, k)).inside(
                atlas_w as int,
                packer_at(sizes, atlas_w, sizes.len()).reach(),
            ),
{
    assert forall|j: int, k: int|
        #![trigger box_at(sizes, atlas_w, j), box_at(sizes, atlas_w, k)]
        0 <= j < sizes.len() && 0 <= k < sizes.len() && j != k implies box_at(
        sizes,
        atlas_w,
        j,
    ).apart(box_at(sizes, atlas_w, k)) by {
        let (first, second) = if j < k {
            (j, k)
        } else {
            (k, j)
        };
        let (p, q) = (box_at(sizes, atlas_w, first), box_at(sizes, atlas_w, second));
        let (w, h) = sizes[second];
        lemma_boxes_behind(sizes, atlas_w, first, second as nat);
        assert(packer_at(sizes, atlas_w, second as nat).has_room(w, h));
        law_placed_apart(packer_at(sizes, atlas_w, second as nat), w, h, p);
        assert(q.apart(p)) by {
            assert forall|x: int, y: int| !(#[trigger] q.has(x, y) && p.has(x, y)) by {
                assert(!(p.has(x, y) && q.has(x, y)));
            }
        }
    }
    assert forall|k: int| 0 <= k < sizes.len() implies (#[trigger] box_at(
        sizes,
        atlas_w,
        k,
    )).inside(atlas_w as int, packer_at(sizes, atlas_w, sizes.len()).reach()) by {
        lemma_boxes_behind(sizes, atlas_w, k, sizes.len());
    }
}

/// A glyph, as a font draws it.
pub struct RawGlyph {
    pub ch: char,
    pub bitmap: Vec<u8>,
    pub w: u32,
    pub h: u32,
    pub cell_off_x: i16,
    pub cell_off_y: i16,
}

/// How far right and down in its cell a glyph stands: in the middle, and on the
/// base line as far as the cell goes.
pub fn cell_offsets(cell_w: u32, cell_h: u32, baseline: i32, ymin: i32, w: u32, h: u32) -> (r: (
    i16,
    i16,
))
    requires
        cell_w <= i32::MAX,
        cell_h <= i32::MAX,
        w <= i32::MAX,
        h <= i32::MAX,
    ensures
        r.0 == trunc_div(cell_w - w, 2) as i16,
        r.1 == clamp(baseline - (ymin + h), 0, int_max(cell_h - h, 0)) as i16,
{
    let dx: i64 = cell_w as i64 - w as i64;
    let off_x: i64 = if dx >= 0 {
        dx / 2
    } else {
        -((-dx) / 2)
    };
    let top: i64 = baseline as i64 - (ymin as i64 + h as i64);
    let most: i64 = if cell_h > h {
        cell_h as i64 - h as i64
    } else {
        0
    };
    let off_y: i64 = if top < 0 {
        0
    } else if top > most {
        most
    } else {
        top
    };
    (#[verifier::truncate] (off_x as i16), #[verifier::truncate] (off_y as i16))
}

/// Taller glyphs first, and of equally tall ones the wider.
pub open spec fn tallest_first() -> spec_fn(RawGlyph, RawGlyph) -> bool {
    |a: RawGlyph, b: RawGlyph| a.h > b.h || (a.h == b.h && a.w >= b.w)
}

fn insert_glyph(sorted: &mut Vec<RawGlyph>, x: RawGlyph)
    ensures
        final(sorted)@ == insert_by(old(sorted)@, x, tallest_first()),
{
    let ghost s = sorted@;
    let mut k: usize = sorted.len();
    assert(s.take(k as int) =~= s);
    assert(insert_by(s.take(k as int), x, tallest_first()) + s.skip(k as int) =~= insert_by(
        s,
        x,
        tallest_first(),
    ));
    while k > 0 && !(sorted[k - 1].h > x.h || (sorted[k - 1].h == x.h && sorted[k - 1].w >= x.w))
        invariant
            k <= s.len(),
            sorted@ == s,
            insert_by(s.take(k as int), x, tallest_first()) + s.skip(k as int) == insert_by(
                s,
                x,
                tallest_first(),
            ),
        decreases k,
    {
        proof {
            let t = s.take(k as int);
            assert(!tallest_first()(t.last(), x));
            assert(t.drop_last() =~= s.take(k - 1));
            assert(insert_by(s.take(k - 1), x, tallest_first()) + s.skip(k - 1) =~= insert_by(
                t,
                x,
                tallest_first(),
            ) + s.skip(k as int));
        }
        k = k - 1;
    }
    proof {
        let t = s.take(k as int);
        if k > 0 {
            assert(tallest_first()(t.last(), x));
        }
        assert(insert_by(t, x, tallest_first()) =~= t.push(x));
        assert(s.insert(k as int, x) =~= insert_by(s, x, tallest_first()));
    }
    sorted.insert(k, x);
}

/// The glyphs, tallest first.
pub fn sort_glyphs(glyphs: Vec<RawGlyph>) -> (r: Vec<RawGlyph>)
    ensures
        r@ == sort_by(glyphs@, tallest_first()),
{
    let ghost all = glyphs@;
    let mut out: Vec<RawGlyph> = Vec::new();
    assert(all.take(0) =~= Seq::<RawGlyph>::empty());
    for x in iter: glyphs
        invariant
            iter.seq() == all,
            out@ == sort_by(all.take(iter.index() as int), tallest_first()),
    {
        assert(all.take(iter.index() + 1).drop_last() =~= all.take(iter.index() as int));
        insert_glyph(&mut out, x);
    }
    assert(all.take(all.len() as int) =~= all);
    out
}

/// `p`, doubled until it is at least `n`.
pub open spec fn doubled_to(p: nat, n: nat) -> nat
    decreases int_max(n - p, 0),
{
    if p >= n || p == 0 {
        p
    } else {
        doubled_to(2 * p, n)
    }
}

/// The lowest power of two that is at least `n`.
pub open spec fn next_power(n: nat) -> nat {
    doubled_to(1, n)
}

/// The greatest power of two that a size can be.
pub const MAX_ATLAS_H: u32 = 0x8000_0000;

fn next_power_of(n: u32) -> (r: u32)
    requires
        n <= MAX_ATLAS_H,
    ensures
        r == next_power(n as nat),
        r >= n,
        r > 0,
        n > 4 ==> r % 8 == 0,
        r <= MAX_ATLAS_H,
{
    let mut p: u32 = 1;
    let ghost mut k: nat = 0;
    proof {
        lemma2_to64();
    }
    while p < n
        invariant
            n <= MAX_ATLAS_H,
            p >= 1,
            p == pow2(k),
            k <= 31,
            doubled_to(p as nat, n as nat) == next_power(n as nat),
        decreases int_max(n - p, 0),
    {
        proof {
            lemma2_to64();
            if k == 31 {
                assert(false);
            }
            if k < 30 {
                lemma_pow2_strictly_increases(k, 30);
            }
            lemma_pow2_unfold(k + 1);
            k = k + 1;
        }
        p = 2 * p;
    }
    proof {
        lemma2_to64();
        if k < 31 {
            lemma_pow2_strictly_increases(k, 31);
        }
        if n > 4 {
            if k < 3 {
                if k < 2 {
                    lemma_pow2_strictly_increases(k, 2);
                }
                assert(false);
            }
            lemma_pow2_adds((k - 3) as nat, 3);
            let m = pow2((k - 3) as nat) as int;
            assert(p == 8 * m);
            assert((8 * m) % 8 == 0);
        }
    }
    p
}

/// The widest that an atlas is made.
pub const MAX_ATLAS_W: u32 = 8192;

/// The narrowest that an atlas is made.
pub const MIN_ATLAS_W: u32 = 256;

/// The width of an atlas whose sides are to be `target_side` long or so.
pub open spec fn atlas_width(target_side: u32) -> nat {
    let p = next_power(int_max(target_side as int, MIN_ATLAS_W as int) as nat);
    if p > MAX_ATLAS_W {
        MAX_ATLAS_W as nat
    } else {
        p
    }
}

pub fn atlas_w_for(target_side: u32) -> (r: u32)
    requires
        target_side <= MAX_ATLAS_H,
    ensures
        r == atlas_width(target_side),
        MIN_ATLAS_W <= r <= MAX_ATLAS_W,
        r % 8 == 0,
{
    let side: u32 = if target_side > MIN_ATLAS_W {
        target_side
    } else {
        MIN_ATLAS_W
    };
    let p: u32 = next_power_of(side);
    if p > MAX_ATLAS_W {
        MAX_ATLAS_W
    } else {
        p
    }
}

/// The height of an atlas whose glyphs reach down to `total_height`.
pub open spec fn atlas_height(total_height: nat) -> nat {
    next_power(if total_height > 1 {
        total_height
    } else {
        1
    })
}

/// The sizes of the glyphs.
pub open spec fn sizes_of(glyphs: Seq<RawGlyph>) -> Seq<(u32, u32)> {
    glyphs.map_values(|g: RawGlyph| (g.w, g.h))
}

/// The packer once the first `n` glyphs are placed.
pub open spec fn packer_after(glyphs: Seq<RawGlyph>, atlas_w: u32, n: nat) -> ShelfPacker {
    packer_at(sizes_of(glyphs), atlas_w, n)
}

/// Where glyph `k` goes.
pub open spec fn glyph_place(glyphs: Seq<RawGlyph>, atlas_w: u32, k: int) -> Placed {
    box_at(sizes_of(glyphs), atlas_w, k)
}

/// The height that the glyphs take.
pub open spec fn glyphs_height(glyphs: Seq<RawGlyph>, atlas_w: u32) -> nat {
    packer_after(glyphs, atlas_w, glyphs.len()).reach() as nat
}

/// The glyph is no wider than the atlas, and its bitmap is whole.
pub open spec fn glyph_fits(g: RawGlyph, atlas_w: int) -> bool {
    &&& g.w <= atlas_w
    &&& g.bitmap@.len() >= g.w * g.h
}

/// Every glyph fits, and however many of them are placed, the height that they
/// take can be rounded up to a power of two.
pub open spec fn glyphs_fit(glyphs: Seq<RawGlyph>, atlas_w: u32) -> bool {
    &&& forall|k: int| 0 <= k < glyphs.len() ==> glyph_fits(#[trigger] glyphs[k], atlas_w as int)
    &&& forall|n: nat|
        n <= glyphs.len() ==> (#[trigger] packer_after(glyphs, atlas_w, n)).reach() <= MAX_ATLAS_H
}

proof fn lemma_packer(glyphs: Seq<RawGlyph>, atlas_w: u32, n: nat)
    requires
        glyphs_fit(glyphs, atlas_w),
        atlas_w <= MAX_ATLAS_W,
        n <= glyphs.len(),
    ensures
        ({
            let p = packer_after(glyphs, atlas_w, n);
            &&& p.atlas_w == atlas_w
            &&& p.x <= atlas_w
            &&& p.reach() <= MAX_ATLAS_H
        }),
    decreases n,
{
    assert(packer_after(glyphs, atlas_w, n).reach() <= MAX_ATLAS_H);
    if n > 0 {
        lemma_packer(glyphs, atlas_w, (n - 1) as nat);
        assert(glyph_fits(glyphs[n - 1], atlas_w as int));
    }
}

/// The glyphs' places, and the height that they take.
fn place_glyphs(glyphs: &Vec<RawGlyph>, atlas_w: u32) -> (r: (Vec<(u32, u32)>, u32))
    requires
        glyphs_fit(glyphs@, atlas_w),
        atlas_w <= MAX_ATLAS_W,
    ensures
        r.0@.len() == glyphs@.len(),
        forall|k: int|
            0 <= k < r.0@.len() ==> (#[trigger] r.0@[k]).0 == glyph_place(glyphs@, atlas_w, k).x
                && r.0@[k].1 == glyph_place(glyphs@, atlas_w, k).y,
        r.1 == glyphs_height(glyphs@, atlas_w),
        r.1 <= MAX_ATLAS_H,
{
    let mut packer = ShelfPacker::new(atlas_w);
    let mut out: Vec<(u32, u32)> = Vec::new();
    let mut i: usize = 0;
    while i < glyphs.len()
        invariant
            i <= glyphs@.len(),
            glyphs_fit(glyphs@, atlas_w),
            atlas_w <= MAX_ATLAS_W,
            packer == packer_after(glyphs@, atlas_w, i as nat),
            out@.len() == i,
            forall|k: int|
                0 <= k < i ==> (#[trigger] out@[k]).0 == glyph_place(glyphs@, atlas_w, k).x
                    && out@[k].1 == glyph_place(glyphs@, atlas_w, k).y,
        decreases glyphs@.len() - i,
    {
        proof {
            lemma_packer(glyphs@, atlas_w, i as nat);
            assert(glyph_fits(glyphs@[i as int], atlas_w as int));
        }
        out.push(packer.pack(glyphs[i].w, glyphs[i].h));
        i = i + 1;
    }
    proof {
        lemma_packer(glyphs@, atlas_w, i as nat);
    }
    (out, packer.total_height())
}

pub(crate) proof fn lemma_sizes_fit(glyphs: Seq<RawGlyph>, atlas_w: u32)
    requires
        glyphs_fit(glyphs, atlas_w),
        atlas_w <= MAX_ATLAS_W,
    ensures
        sizes_fit(sizes_of(glyphs), atlas_w),
{
    let sizes = sizes_of(glyphs);
    assert forall|k: int| 0 <= k < sizes.len() implies (#[trigger] sizes[k]).0 <= atlas_w
        && packer_at(sizes, atlas_w, k as nat).has_room(sizes[k].0, sizes[k].1) by {
        assert(glyph_fits(glyphs[k], atlas_w as int));
        lemma_packer(glyphs, atlas_w, k as nat);
    }
    lemma_packer(glyphs, atlas_w, glyphs.len());
}

/// No two glyphs overlap, and every one lies in the atlas, down to the height
/// that they take.
pub proof fn law_glyphs_stand_apart(glyphs: Seq<RawGlyph>, atlas_w: u32)
    requires
        sizes_fit(sizes_of(glyphs), atlas_w),
    ensures
        forall|j: int, k: int|
            #![trigger glyph_place(glyphs, atlas_w, j), glyph_place(glyphs, atlas_w, k)]
            0 <= j < glyphs.len() && 0 <= k < glyphs.len() && j != k ==> glyph_place(
                glyphs,
                atlas_w,
                j,
            ).apart(glyph_place(glyphs, atlas_w, k)),
        forall|k: int|
            0 <= k < glyphs.len() ==> (#[trigger] glyph_place(glyphs, atlas_w, k)).inside(
                atlas_w as int,
                glyphs_height(glyphs, atlas_w) as int,
            ),
{
    law_packing_stands_apart(sizes_of(glyphs), atlas_w);
}

/// The glyph at `p` inks the place `(x, y)`.
pub open spec fn inks(g: RawGlyph, p: Placed, x: int, y: int) -> bool {
    p.has(x, y) && g.bitmap@[(y - p.y) * g.w + (x - p.x)] > 127
}

/// One of the first `n` glyphs inks the place `(x, y)`.
pub open spec fn inked(glyphs: Seq<RawGlyph>, atlas_w: u32, n: int, x: int, y: int) -> bool {
    exists|k: int|
        0 <= k < n && #[trigger] inks(glyphs[k], glyph_place(glyphs, atlas_w, k), x, y)
}

/// A glyph's own part of the atlas shows that glyph, and nothing else.
pub proof fn law_glyph_reads_back(glyphs: Seq<RawGlyph>, atlas_w: u32, k: int, x: int, y: int)
    requires
        glyphs_fit(glyphs, atlas_w),
        atlas_w <= MAX_ATLAS_W,
        0 <= k < glyphs.len(),
        0 <= x < glyphs[k].w,
        0 <= y < glyphs[k].h,
    ensures
        inked(
            glyphs,
            atlas_w,
            glyphs.len() as int,
            glyph_place(glyphs, atlas_w, k).x + x,
            glyph_place(glyphs, atlas_w, k).y + y,
        ) <==> glyphs[k].bitmap@[y * glyphs[k].w + x] > 127,
{
    let p = glyph_place(glyphs, atlas_w, k);
    let px = p.x + x;
    let py = p.y + y;
    lemma_sizes_fit(glyphs, atlas_w);
    law_glyphs_stand_apart(glyphs, atlas_w);
    if glyphs[k].bitmap@[y * glyphs[k].w + x] > 127 {
        assert(inks(glyphs[k], p, px, py));
    }
    if inked(glyphs, atlas_w, glyphs.len() as int, px, py) {
        let j = choose|j: int|
            0 <= j < glyphs.len() && #[trigger] inks(
                glyphs[j],
                glyph_place(glyphs, atlas_w, j),
                px,
                py,
            );
        if j != k {
            assert(glyph_place(glyphs, atlas_w, j).apart(p));
        }
    }
}

proof fn lemma_set_bit(b: u8, i: u8, j: u8)
    requires
        i < 8,
        j < 8,
    ensures
        ((b | (1u8 << i)) >> j) & 1u8 == 1u8 <==> i == j || (b >> j) & 1u8 == 1u8,
{
    assert(((b | (1u8 << i)) >> j) & 1u8 == 1u8 <==> i == j || (b >> j) & 1u8 == 1u8)
        by (bit_vector)
        requires
            i < 8,
            j < 8,
    ;
}

/// Sets the bit of the place `(x, y)`.
fn set_ink(pixels: &mut Vec<u8>, stride: usize, x: usize, y: usize)
    requires
        x < 8 * stride,
        y * stride + x as int / 8 < old(pixels)@.len(),
    ensures
        final(pixels)@.len() == old(pixels)@.len(),
        forall|k: int|
            0 <= k < 8 * old(pixels)@.len() ==> (#[trigger] packed_bit(final(pixels)@, k) <==> k
                == 8 * (y * stride) + x || packed_bit(old(pixels)@, k)),
{
    let ghost before = pixels@;
    assert(0 <= y * stride) by (nonlinear_arith)
        requires
            0 <= y,
            0 <= stride,
    ;
    assert(pixels.len() <= usize::MAX);
    let at: usize = y * stride + x / 8;
    let bit: u8 = (x % 8) as u8;
    let b: u8 = pixels[at];
    pixels.set(at, b | (1u8 << bit));
    proof {
        assert forall|k: int| 0 <= k < 8 * before.len() implies (#[trigger] packed_bit(pixels@, k)
            <==> k == 8 * (y * stride) + x || packed_bit(before, k)) by {
            if k / 8 == at {
                lemma_set_bit(b, bit, (k % 8) as u8);
            }
        }
    }
}

proof fn lemma_cell(k: int, w: int, x: int, y: int)
    requires
        w > 0,
        0 <= x < w,
    ensures
        k == y * w + x <==> k % w == x && k / w == y,
{
    lemma_fundamental_div_mod(k, w);
    if k == y * w + x {
        lemma_fundamental_div_mod_converse(k, w, y, x);
    }
    if k % w == x && k / w == y {
        assert(w * y == y * w) by (nonlinear_arith);
    }
}

/// The glyph inks `(x, y)`, in a row before `row` or in that row before `col`.
spec fn drawn(g: RawGlyph, p: Placed, row: int, col: int, x: int, y: int) -> bool {
    &&& inks(g, p, x, y)
    &&& y - p.y < row || (y - p.y == row && x - p.x < col)
}

/// Draws a glyph into the atlas.
fn draw_glyph(pixels: &mut Vec<u8>, stride: usize, g: &RawGlyph, ax: u32, ay: u32)
    requires
        glyph_fits(*g, 8 * stride),
        ax + g.w <= 8 * stride,
        (ay + g.h) * stride <= old(pixels)@.len(),
        stride > 0,
        8 * stride <= MAX_ATLAS_W,
        ay + g.h <= MAX_ATLAS_H,
    ensures
        final(pixels)@.len() == old(pixels)@.len(),
        forall|k: int|
            0 <= k < 8 * old(pixels)@.len() ==> (#[trigger] packed_bit(final(pixels)@, k)
                <==> packed_bit(old(pixels)@, k) || inks(
                *g,
                Placed { x: ax as int, y: ay as int, w: g.w as int, h: g.h as int },
                k % (8 * stride),
                k / (8 * stride),
            )),
{
    let ghost before = pixels@;
    let ghost aw = 8 * stride as int;
    let ghost p = Placed { x: ax as int, y: ay as int, w: g.w as int, h: g.h as int };
    let w: usize = g.w as usize;
    let h: usize = g.h as usize;
    let mut row: usize = 0;
    while row < h
        invariant
            row <= h,
            w == g.w,
            h == g.h,
            aw == 8 * stride,
            p == (Placed { x: ax as int, y: ay as int, w: g.w as int, h: g.h as int }),
            glyph_fits(*g, 8 * stride),
            ax + g.w <= 8 * stride,
            (ay + g.h) * stride <= before.len(),
            stride > 0,
            8 * stride <= MAX_ATLAS_W,
            ay + g.h <= MAX_ATLAS_H,
            pixels@.len() == before.len(),
            forall|k: int|
                0 <= k < 8 * before.len() ==> (#[trigger] packed_bit(pixels@, k) <==> packed_bit(
                    before,
                    k,
                ) || drawn(*g, p, row as int, 0, k % aw, k / aw)),
        decreases h - row,
    {
        let mut col: usize = 0;
        while col < w
            invariant
                row < h,
                col <= w,
                w == g.w,
                h == g.h,
                aw == 8 * stride,
                p == (Placed { x: ax as int, y: ay as int, w: g.w as int, h: g.h as int }),
                glyph_fits(*g, 8 * stride),
                ax + g.w <= 8 * stride,
                (ay + g.h) * stride <= before.len(),
                stride > 0,
                8 * stride <= MAX_ATLAS_W,
                ay + g.h <= MAX_ATLAS_H,
                pixels@.len() == before.len(),
                forall|k: int|
                    0 <= k < 8 * before.len() ==> (#[trigger] packed_bit(pixels@, k) <==> packed_bit(
                        before,
                        k,
                    ) || drawn(*g, p, row as int, col as int, k % aw, k / aw)),
            decreases w - col,
        {
            let ghost mid = pixels@;
            proof {
                assert(g.bitmap.len() <= usize::MAX);
                assert(row * w + col < w * h) by (nonlinear_arith)
                    requires
                        0 <= row < h,
                        0 <= col < w,
                ;
                assert(0 <= row * w) by (nonlinear_arith)
                    requires
                        0 <= row,
                        0 <= w,
                ;
            }
            let x: usize = ax as usize + col;
            let y: usize = ay as usize + row;
            proof {
                assert(y * stride + stride <= (ay + g.h) * stride) by (nonlinear_arith)
                    requires
                        y + 1 <= ay + g.h,
                        stride > 0,
                ;
                assert(8 * (y * stride) == y * aw) by (nonlinear_arith)
                    requires
                        aw == 8 * stride,
                ;
            }
            if g.bitmap[row * w + col] > 127 {
                set_ink(pixels, stride, x, y);
            }
            proof {
                assert forall|k: int| 0 <= k < 8 * before.len() implies (#[trigger] packed_bit(
                    pixels@,
                    k,
                ) <==> packed_bit(before, k) || drawn(*g, p, row as int, col + 1, k % aw, k / aw)) by {
                    lemma_cell(k, aw, x as int, y as int);
                    assert(packed_bit(mid, k) <==> packed_bit(before, k) || drawn(
                        *g,
                        p,
                        row as int,
                        col as int,
                        k % aw,
                        k / aw,
                    ));
                }
            }
            col = col + 1;
        }
        row = row + 1;
    }
}

/// A row of the atlas' tables.
#[derive(Clone, Copy)]
pub struct GlyphEntry {
    pub code: u32,
    pub x: u16,
    pub y: u16,
    pub w: u8,
    pub h: u8,
    pub off_x: i8,
    pub off_y: i8,
}

/// The row for glyph `k`.
pub open spec fn glyph_entry(glyphs: Seq<RawGlyph>, atlas_w: u32, k: int) -> GlyphEntry {
    let g = glyphs[k];
    let p = glyph_place(glyphs, atlas_w, k);
    GlyphEntry {
        code: g.ch as u32,
        x: p.x as u16,
        y: p.y as u16,
        w: g.w as u8,
        h: g.h as u8,
        off_x: g.cell_off_x as i8,
        off_y: g.cell_off_y as i8,
    }
}

/// Lower codes first.
pub open spec fn by_code() -> spec_fn(GlyphEntry, GlyphEntry) -> bool {
    |a: GlyphEntry, b: GlyphEntry| a.code <= b.code
}

/// The rows for the first `n` glyphs, by their codes.
pub open spec fn glyph_entries(glyphs: Seq<RawGlyph>, atlas_w: u32, n: nat) -> Seq<GlyphEntry> {
    sort_by(Seq::new(n, |k: int| glyph_entry(glyphs, atlas_w, k)), by_code())
}

fn insert_entry(sorted: &mut Vec<GlyphEntry>, x: GlyphEntry)
    ensures
        final(sorted)@ == insert_by(old(sorted)@, x, by_code()),
{
    let ghost s = sorted@;
    let mut k: usize = sorted.len();
    assert(s.take(k as int) =~= s);
    assert(insert_by(s.take(k as int), x, by_code()) + s.skip(k as int) =~= insert_by(
        s,
        x,
        by_code(),
    ));
    while k > 0 && sorted[k - 1].code > x.code
        invariant
            k <= s.len(),
            sorted@ == s,
            insert_by(s.take(k as int), x, by_code()) + s.skip(k as int) == insert_by(
                s,
                x,
                by_code(),
            ),
        decreases k,
    {
        proof {
            let t = s.take(k as int);
            assert(!by_code()(t.last(), x));
            assert(t.drop_last() =~= s.take(k - 1));
            assert(insert_by(s.take(k - 1), x, by_code()) + s.skip(k - 1) =~= insert_by(
                t,
                x,
                by_code(),
            ) + s.skip(k as int));
        }
        k = k - 1;
    }
    proof {
        let t = s.take(k as int);
        if k > 0 {
            assert(by_code()(t.last(), x));
        }
        assert(insert_by(t, x, by_code()) =~= t.push(x));
        assert(s.insert(k as int, x) =~= insert_by(s, x, by_code()));
    }
    sorted.insert(k, x);
}

/// The file is the atlas of the glyphs: its tables name where each stands, and
/// its pixels are set where one of them inks.
pub open spec fn is_atlas_of(
    f: FontAtlasFile,
    glyphs: Seq<RawGlyph>,
    target_side: u32,
    cell_w: u32,
    cell_h: u32,
) -> bool {
    let aw = atlas_width(target_side) as u32;
    let ah = atlas_height(glyphs_height(glyphs, aw));
    let rows = glyph_entries(glyphs, aw, glyphs.len());
    &&& f.atlas_w == aw as u16
    &&& f.atlas_h == ah as u16
    &&& f.cell_w == cell_w as u8
    &&& f.cell_h == cell_h as u8
    &&& f.codepoints@ == rows.map_values(|e: GlyphEntry| e.code)
    &&& f.atlas_x@ == rows.map_values(|e: GlyphEntry| e.x)
    &&& f.atlas_y@ == rows.map_values(|e: GlyphEntry| e.y)
    &&& f.w@ == rows.map_values(|e: GlyphEntry| e.w)
    &&& f.h@ == rows.map_values(|e: GlyphEntry| e.h)
    &&& f.cell_off_x@ == rows.map_values(|e: GlyphEntry| e.off_x)
    &&& f.cell_off_y@ == rows.map_values(|e: GlyphEntry| e.off_y)
    &&& f.pixels_1bit@.len() * 8 == aw * ah
    &&& forall|k: int|
        0 <= k < aw * ah ==> (#[trigger] packed_bit(f.pixels_1bit@, k) <==> inked(
            glyphs,
            aw,
            glyphs.len() as int,
            k % (aw as int),
            k / (aw as int),
        ))
}

/// The pixels of an atlas of the given size.
fn ink_pixels(
    glyphs: &Vec<RawGlyph>,
    places: &Vec<(u32, u32)>,
    atlas_w: u32,
    atlas_h: u32,
) -> (r: Vec<u8>)
    requires
        glyphs_fit(glyphs@, atlas_w),
        0 < atlas_w <= MAX_ATLAS_W,
        atlas_w % 8 == 0,
        glyphs_height(glyphs@, atlas_w) <= atlas_h <= MAX_ATLAS_H,
        atlas_w * atlas_h <= 8 * isize::MAX,
        places@.len() == glyphs@.len(),
        forall|k: int|
            0 <= k < places@.len() ==> (#[trigger] places@[k]).0 == glyph_place(
                glyphs@,
                atlas_w,
                k,
            ).x && places@[k].1 == glyph_place(glyphs@, atlas_w, k).y,
    ensures
        r@.len() * 8 == atlas_w * atlas_h,
        forall|k: int|
            0 <= k < atlas_w * atlas_h ==> (#[trigger] packed_bit(r@, k) <==> inked(
                glyphs@,
                atlas_w,
                glyphs@.len() as int,
                k % (atlas_w as int),
                k / (atlas_w as int),
            )),
{
    let stride: usize = atlas_w as usize / 8;
    let ghost aw = atlas_w as int;
    proof {
        assert(8 * (stride * atlas_h) == aw * atlas_h) by (nonlinear_arith)
            requires
                8 * stride == aw,
        ;
        assert(0 <= stride * atlas_h) by (nonlinear_arith)
            requires
                0 <= stride,
                0 <= atlas_h,
        ;
    }
    let mut pixels: Vec<u8> = vec![0u8; stride * atlas_h as usize];
    let mut i: usize = 0;
    proof {
        assert forall|k: int| 0 <= k < aw * atlas_h implies !(#[trigger] packed_bit(pixels@, k)) by {
            let j = (k % 8) as u8;
            assert(pixels@[k / 8] == 0u8);
            assert((0u8 >> j) & 1u8 == 0u8) by (bit_vector)
                requires
                    j < 8,
            ;
        }
    }
    while i < glyphs.len()
        invariant
            i <= glyphs@.len(),
            glyphs_fit(glyphs@, atlas_w),
            0 < atlas_w <= MAX_ATLAS_W,
            aw == atlas_w,
            8 * stride == aw,
            glyphs_height(glyphs@, atlas_w) <= atlas_h <= MAX_ATLAS_H,
            places@.len() == glyphs@.len(),
            forall|k: int|
                0 <= k < places@.len() ==> (#[trigger] places@[k]).0 == glyph_place(
                    glyphs@,
                    atlas_w,
                    k,
                ).x && places@[k].1 == glyph_place(glyphs@, atlas_w, k).y,
            pixels@.len() == stride * atlas_h,
            pixels@.len() * 8 == aw * atlas_h,
            forall|k: int|
                0 <= k < aw * atlas_h ==> (#[trigger] packed_bit(pixels@, k) <==> inked(
                    glyphs@,
                    atlas_w,
                    i as int,
                    k % aw,
                    k / aw,
                )),
        decreases glyphs@.len() - i,
    {
        let ghost before = pixels@;
        let (ax, ay) = places[i];
        let ghost g = glyphs@[i as int];
        let ghost p = glyph_place(glyphs@, atlas_w, i as int);
        proof {
            assert(glyph_fits(g, aw));
            lemma_packer(glyphs@, atlas_w, i as nat);
            lemma_sizes_fit(glyphs@, atlas_w);
            law_glyphs_stand_apart(glyphs@, atlas_w);
            assert(glyph_place(glyphs@, atlas_w, i as int).inside(
                atlas_w as int,
                glyphs_height(glyphs@, atlas_w) as int,
            ));
            assert((ay + g.h) * stride <= stride * atlas_h) by (nonlinear_arith)
                requires
                    0 <= ay + g.h <= atlas_h,
                    0 <= stride,
            ;
        }
        draw_glyph(&mut pixels, stride, &glyphs[i], ax, ay);
        proof {
            assert(p =~= (Placed { x: ax as int, y: ay as int, w: g.w as int, h: g.h as int }));
            assert forall|k: int| 0 <= k < aw * atlas_h implies (#[trigger] packed_bit(pixels@, k)
                <==> inked(glyphs@, atlas_w, i + 1, k % aw, k / aw)) by {
                let x = k % aw;
                let y = k / aw;
                assert(packed_bit(before, k) <==> inked(glyphs@, atlas_w, i as int, x, y));
                if inks(g, p, x, y) {
                    assert(inks(glyphs@[i as int], glyph_place(glyphs@, atlas_w, i as int), x, y));
                }
                if inked(glyphs@, atlas_w, i + 1, x, y) {
                    let j = choose|j: int|
                        0 <= j < i + 1 && #[trigger] inks(
                            glyphs@[j],
                            glyph_place(glyphs@, atlas_w, j),
                            x,
                            y,
                        );
                    if j < i {
                        assert(inked(glyphs@, atlas_w, i as int, x, y));
                    }
                }
            }
        }
        i = i + 1;
    }
    pixels
}

/// The rows of the atlas' tables, by their codes.
fn sort_entries(glyphs: &Vec<RawGlyph>, places: &Vec<(u32, u32)>, atlas_w: u32) -> (r: Vec<
    GlyphEntry,
>)
    requires
        places@.len() == glyphs@.len(),
        forall|k: int|
            0 <= k < places@.len() ==> (#[trigger] places@[k]).0 == glyph_place(
                glyphs@,
                atlas_w,
                k,
            ).x && places@[k].1 == glyph_place(glyphs@, atlas_w, k).y,
    ensures
        r@ == glyph_entries(glyphs@, atlas_w, glyphs@.len()),
{
    let mut out: Vec<GlyphEntry> = Vec::new();
    let mut i: usize = 0;
    while i < glyphs.len()
        invariant
            i <= glyphs@.len(),
            places@.len() == glyphs@.len(),
            forall|k: int|
                0 <= k < places@.len() ==> (#[trigger] places@[k]).0 == glyph_place(
                    glyphs@,
                    atlas_w,
                    k,
                ).x && places@[k].1 == glyph_place(glyphs@, atlas_w, k).y,
            out@ == glyph_entries(glyphs@, atlas_w, i as nat),
        decreases glyphs@.len() - i,
    {
        let g = &glyphs[i];
        let (ax, ay) = places[i];
        let e = GlyphEntry {
            code: g.ch as u32,
            x: #[verifier::truncate] (ax as u16),
            y: #[verifier::truncate] (ay as u16),
            w: #[verifier::truncate] (g.w as u8),
            h: #[verifier::truncate] (g.h as u8),
            off_x: #[verifier::truncate] (g.cell_off_x as i8),
            off_y: #[verifier::truncate] (g.cell_off_y as i8),
        };
        proof {
            let all = Seq::new((i + 1) as nat, |k: int| glyph_entry(glyphs@, atlas_w, k));
            assert(e == glyph_entry(glyphs@, atlas_w, i as int));
            assert(all.drop_last() =~= Seq::new(
                i as nat,
                |k: int| glyph_entry(glyphs@, atlas_w, k),
            ));
            assert(all.last() == e);
        }
        insert_entry(&mut out, e);
        i = i + 1;
    }
    out
}

/// The atlas of some glyphs, tables and pixels. Glyphs that are handed in
/// tallest first take less room.
pub fn build_atlas(glyphs: &Vec<RawGlyph>, target_side: u32, cell_w: u32, cell_h: u32) -> (r:
    FontAtlasFile)
    requires
        target_side <= MAX_ATLAS_H,
        glyphs_fit(glyphs@, atlas_width(target_side) as u32),
        atlas_width(target_side) * atlas_height(
            glyphs_height(glyphs@, atlas_width(target_side) as u32),
        ) <= 8 * isize::MAX,
    ensures
        is_atlas_of(r, glyphs@, target_side, cell_w, cell_h),
{
    let atlas_w: u32 = atlas_w_for(target_side);
    let (places, _) = place_glyphs(glyphs, atlas_w);
    let atlas_h: u32 = atlas_h_for(glyphs, atlas_w);
    let pixels_1bit = ink_pixels(glyphs, &places, atlas_w, atlas_h);
    let rows = sort_entries(glyphs, &places, atlas_w);
    let mut f = FontAtlasFile {
        atlas_w: #[verifier::truncate] (atlas_w as u16),
        atlas_h: #[verifier::truncate] (atlas_h as u16),
        cell_w: #[verifier::truncate] (cell_w as u8),
        cell_h: #[verifier::truncate] (cell_h as u8),
        codepoints: Vec::new(),
        atlas_x: Vec::new(),
        atlas_y: Vec::new(),
        w: Vec::new(),
        h: Vec::new(),
        cell_off_x: Vec::new(),
        cell_off_y: Vec::new(),
        pixels_1bit,
    };
    let ghost f0 = f;
    let mut i: usize = 0;
    while i < rows.len()
        invariant
            i <= rows@.len(),
            f.atlas_w == f0.atlas_w,
            f.atlas_h == f0.atlas_h,
            f.cell_w == f0.cell_w,
            f.cell_h == f0.cell_h,
            f.pixels_1bit == f0.pixels_1bit,
            f.codepoints@ =~= rows@.take(i as int).map_values(|e: GlyphEntry| e.code),
            f.atlas_x@ =~= rows@.take(i as int).map_values(|e: GlyphEntry| e.x),
            f.atlas_y@ =~= rows@.take(i as int).map_values(|e: GlyphEntry| e.y),
            f.w@ =~= rows@.take(i as int).map_values(|e: GlyphEntry| e.w),
            f.h@ =~= rows@.take(i as int).map_values(|e: GlyphEntry| e.h),
            f.cell_off_x@ =~= rows@.take(i as int).map_values(|e: GlyphEntry| e.off_x),
            f.cell_off_y@ =~= rows@.take(i as int).map_values(|e: GlyphEntry| e.off_y),
        decreases rows@.len() - i,
    {
        let e = rows[i];
        f.codepoints.push(e.code);
        f.atlas_x.push(e.x);
        f.atlas_y.push(e.y);
        f.w.push(e.w);
        f.h.push(e.h);
        f.cell_off_x.push(e.off_x);
        f.cell_off_y.push(e.off_y);
        i = i + 1;
    }
    assert(rows@.take(i as int) =~= rows@);
    f
}

/// The height of the atlas of some glyphs.
pub fn atlas_h_for(glyphs: &Vec<RawGlyph>, atlas_w: u32) -> (r: u32)
    requires
        glyphs_fit(glyphs@, atlas_w),
        atlas_w <= MAX_ATLAS_W,
    ensures
        r == atlas_height(glyphs_height(glyphs@, atlas_w)),
        glyphs_height(glyphs@, atlas_w) <= r <= MAX_ATLAS_H,
{
    let (_, total) = place_glyphs(glyphs, atlas_w);
    next_power_of(
        if total > 1 {
            total
        } else {
            1
        },
    )
}

/// How strongly `(x, y)` is inked by the last of the first `n` glyphs that
/// stands there; not at all where none does.
pub open spec fn grayness(glyphs: Seq<RawGlyph>, atlas_w: u32, n: nat, x: int, y: int) -> u8
    decreases n,
{
    if n == 0 {
        0
    } else {
        let g = glyphs[n - 1];
        let p = glyph_place(glyphs, atlas_w, n - 1);
        if p.has(x, y) {
            g.bitmap@[(y - p.y) * g.w + (x - p.x)]
        } else {
            grayness(glyphs, atlas_w, (n - 1) as nat, x, y)
        }
    }
}

/// Copies a glyph into a picture with a byte for each pixel.
fn copy_glyph(gray: &mut Vec<u8>, aw: usize, g: &RawGlyph, ax: u32, ay: u32)
    requires
        glyph_fits(*g, aw as int),
        ax + g.w <= aw,
        (ay + g.h) * aw <= old(gray)@.len(),
        aw > 0,
    ensures
        final(gray)@.len() == old(gray)@.len(),
        forall|k: int|
            0 <= k < old(gray)@.len() ==> #[trigger] final(gray)@[k] == ({
                let p = Placed { x: ax as int, y: ay as int, w: g.w as int, h: g.h as int };
                let x = k % (aw as int);
                let y = k / (aw as int);
                if p.has(x, y) {
                    g.bitmap@[(y - p.y) * g.w + (x - p.x)]
                } else {
                    old(gray)@[k]
                }
            }),
{
    let ghost before = gray@;
    let ghost p = Placed { x: ax as int, y: ay as int, w: g.w as int, h: g.h as int };
    let w: usize = g.w as usize;
    let h: usize = g.h as usize;
    let mut row: usize = 0;
    while row < h
        invariant
            row <= h,
            w == g.w,
            h == g.h,
            p == (Placed { x: ax as int, y: ay as int, w: g.w as int, h: g.h as int }),
            glyph_fits(*g, aw as int),
            ax + g.w <= aw,
            (ay + g.h) * aw <= before.len(),
            aw > 0,
            gray@.len() == before.len(),
            forall|k: int|
                0 <= k < before.len() ==> #[trigger] gray@[k] == (if p.has(
                    k % (aw as int),
                    k / (aw as int),
                ) && k / (aw as int) - p.y < row {
                    g.bitmap@[(k / (aw as int) - p.y) * g.w + (k % (aw as int) - p.x)]
                } else {
                    before[k]
                }),
        decreases h - row,
    {
        let mut col: usize = 0;
        while col < w
            invariant
                row < h,
                col <= w,
                w == g.w,
                h == g.h,
                p == (Placed { x: ax as int, y: ay as int, w: g.w as int, h: g.h as int }),
                glyph_fits(*g, aw as int),
                ax + g.w <= aw,
                (ay + g.h) * aw <= before.len(),
                aw > 0,
                gray@.len() == before.len(),
                forall|k: int|
                    0 <= k < before.len() ==> #[trigger] gray@[k] == (if p.has(
                        k % (aw as int),
                        k / (aw as int),
                    ) && (k / (aw as int) - p.y < row || (k / (aw as int) - p.y == row && k % (
                    aw as int) - p.x < col)) {
                        g.bitmap@[(k / (aw as int) - p.y) * g.w + (k % (aw as int) - p.x)]
                    } else {
                        before[k]
                    }),
            decreases w - col,
        {
            let ghost mid = gray@;
            proof {
                assert(g.bitmap.len() <= usize::MAX);
                assert(gray.len() <= usize::MAX);
                assert(row * w + col < w * h) by (nonlinear_arith)
                    requires
                        0 <= row < h,
                        0 <= col < w,
                ;
                assert(0 <= row * w) by (nonlinear_arith)
                    requires
                        0 <= row,
                        0 <= w,
                ;
                assert((ay + row) * aw + aw <= (ay + g.h) * aw) by (nonlinear_arith)
                    requires
                        ay + row + 1 <= ay + g.h,
                        aw > 0,
                ;
                assert(0 <= (ay + row) * aw) by (nonlinear_arith)
                    requires
                        0 <= ay + row,
                        aw > 0,
                ;
                assert(ay + row <= (ay + row) * aw) by (nonlinear_arith)
                    requires
                        0 <= ay + row,
                        aw > 0,
                ;
            }
            let x: usize = ax as usize + col;
            let y: usize = ay as usize + row;
            let at: usize = y * aw + x;
            let v: u8 = g.bitmap[row * w + col];
            gray.set(at, v);
            proof {
                assert forall|k: int| 0 <= k < before.len() implies #[trigger] gray@[k] == (if p.has(
                    k % (aw as int),
                    k / (aw as int),
                ) && (k / (aw as int) - p.y < row || (k / (aw as int) - p.y == row && k % (
                aw as int) - p.x < col + 1)) {
                    g.bitmap@[(k / (aw as int) - p.y) * g.w + (k % (aw as int) - p.x)]
                } else {
                    before[k]
                }) by {
                    lemma_cell(k, aw as int, x as int, y as int);
                    if k == at {
                        assert(k / (aw as int) - p.y == row);
                        assert(k % (aw as int) - p.x == col);
                    } else {
                        assert(gray@[k] == mid[k]);
                    }
                }
            }
            col = col + 1;
        }
        row = row + 1;
    }
}

/// The atlas of some glyphs as a picture with a byte for each pixel.
pub fn gray_atlas(glyphs: &Vec<RawGlyph>, atlas_w: u32, atlas_h: u32) -> (r: Vec<u8>)
    requires
        glyphs_fit(glyphs@, atlas_w),
        0 < atlas_w <= MAX_ATLAS_W,
        glyphs_height(glyphs@, atlas_w) <= atlas_h,
        atlas_w * atlas_h <= isize::MAX,
    ensures
        r@.len() == atlas_w * atlas_h,
        forall|k: int|
            0 <= k < r@.len() ==> #[trigger] r@[k] == grayness(
                glyphs@,
                atlas_w,
                glyphs@.len(),
                k % (atlas_w as int),
                k / (atlas_w as int),
            ),
{
    let (places, _) = place_glyphs(glyphs, atlas_w);
    assert(0 <= atlas_w * atlas_h) by (nonlinear_arith)
        requires
            0 <= atlas_w,
            0 <= atlas_h,
    ;
    let mut gray: Vec<u8> = vec![0u8; atlas_w as usize * atlas_h as usize];
    let mut i: usize = 0;
    while i < glyphs.len()
        invariant
            i <= glyphs@.len(),
            glyphs_fit(glyphs@, atlas_w),
            0 < atlas_w <= MAX_ATLAS_W,
            glyphs_height(glyphs@, atlas_w) <= atlas_h,
            places@.len() == glyphs@.len(),
            forall|k: int|
                0 <= k < places@.len() ==> (#[trigger] places@[k]).0 == glyph_place(
                    glyphs@,
                    atlas_w,
                    k,
                ).x && places@[k].1 == glyph_place(glyphs@, atlas_w, k).y,
            gray@.len() == atlas_w * atlas_h,
            forall|k: int|
                0 <= k < gray@.len() ==> #[trigger] gray@[k] == grayness(
                    glyphs@,
                    atlas_w,
                    i as nat,
                    k % (atlas_w as int),
                    k / (atlas_w as int),
                ),
        decreases glyphs@.len() - i,
    {
        let (ax, ay) = places[i];
        let ghost g = glyphs@[i as int];
        proof {
            assert(glyph_fits(g, atlas_w as int));
            lemma_packer(glyphs@, atlas_w, i as nat);
            lemma_sizes_fit(glyphs@, atlas_w);
            law_glyphs_stand_apart(glyphs@, atlas_w);
            assert(glyph_place(glyphs@, atlas_w, i as int).inside(
                atlas_w as int,
                glyphs_height(glyphs@, atlas_w) as int,
            ));
            assert((ay + g.h) * atlas_w <= atlas_w * atlas_h) by (nonlinear_arith)
                requires
                    0 <= ay + g.h <= atlas_h,
                    0 <= atlas_w,
            ;
            assert(glyph_place(glyphs@, atlas_w, i as int) =~= (Placed {
                x: ax as int,
                y: ay as int,
                w: g.w as int,
                h: g.h as int,
            }));
        }
        copy_glyph(&mut gray, atlas_w as usize, &glyphs[i], ax, ay);
        i = i + 1;
    }
    gray
}

/// `r` is a picture of `w` by `h` pixels with every pixel repeated `s` times each
/// way.
pub open spec fn is_scaled(pixels: Seq<u8>, w: int, h: int, s: int, r: Seq<u8>) -> bool {
    &&& r.len() == (w * s) * (h * s)
    &&& forall|x: int, y: int|
        #![trigger r[y * (w * s) + x]]
        0 <= x < w * s && 0 <= y < h * s ==> r[y * (w * s) + x] == pixels[(y / s) * w + (x / s)]
}

/// A picture of `w` by `h` pixels with every pixel repeated `s` times each way.
pub open spec fn scaled_up(pixels: Seq<u8>, w: int, h: int, s: int) -> Seq<u8> {
    Seq::new(
        ((w * s) * (h * s)) as nat,
        |i: int| pixels[(i / (w * s) / s) * w + (i % (w * s)) / s],
    )
}

proof fn lemma_scaled(pixels: Seq<u8>, w: int, h: int, s: int, r: Seq<u8>)
    requires
        is_scaled(pixels, w, h, s, r),
        0 <= w,
        0 <= h,
        0 < s,
    ensures
        r == scaled_up(pixels, w, h, s),
{
    let (ow, oh) = (w * s, h * s);
    assert forall|i: int| 0 <= i < r.len() implies r[i] == pixels[(i / ow / s) * w + (i % ow)
        / s] by {
        let (x, y) = (i % ow, i / ow);
        assert(ow > 0) by (nonlinear_arith)
            requires
                0 <= i < ow * oh,
                ow == w * s,
                0 <= w,
                0 < s,
        ;
        vstd::arithmetic::div_mod::lemma_fundamental_div_mod(i, ow);
        assert(0 <= y < oh) by (nonlinear_arith)
            requires
                0 <= i < ow * oh,
                i == ow * y + x,
                0 <= x < ow,
        ;
        assert(y * ow + x == i) by (nonlinear_arith)
            requires
                i == ow * y + x,
        ;
        assert(r[y * ow + x] == pixels[(y / s) * w + (x / s)]);
    }
    assert(r =~= scaled_up(pixels, w, h, s));
}

/// A picture with every pixel repeated `scale` times each way, and once where
/// `scale` is nothing.
pub fn scale_up(pixels: &Vec<u8>, w: usize, h: usize, scale: u32) -> (r: Vec<u8>)
    requires
        pixels@.len() >= w * h,
        (w * int_max(scale as int, 1)) * (h * int_max(scale as int, 1)) <= usize::MAX,
        w * int_max(scale as int, 1) <= usize::MAX,
        h * int_max(scale as int, 1) <= usize::MAX,
        scale <= usize::MAX,
    ensures
        is_scaled(pixels@, w as int, h as int, int_max(scale as int, 1), r@),
{
    let s: usize = if scale > 1 {
        scale as usize
    } else {
        1
    };
    let ghost ow = w * s;
    let mut out: Vec<u8> = Vec::new();
    let out_w: usize = w * s;
    let out_h: usize = h * s;
    let mut y: usize = 0;
    while y < out_h
        invariant
            y <= out_h,
            out_w == ow,
            ow == w * s,
            out_h == h * s,
            s > 0,
            pixels@.len() >= w * h,
            out@.len() == y * ow,
            forall|a: int, b: int|
                #![trigger out@[b * ow + a]]
                0 <= a < ow && 0 <= b < y ==> out@[b * ow + a] == pixels@[(b / (s as int)) * w + (a
                    / (s as int))],
        decreases out_h - y,
    {
        let ghost start = out@.len();
        let mut x: usize = 0;
        while x < out_w
            invariant
                x <= out_w,
                y < out_h,
                out_w == ow,
                ow == w * s,
                out_h == h * s,
                s > 0,
                pixels@.len() >= w * h,
                start == y * ow,
                out@.len() == y * ow + x,
                forall|a: int, b: int|
                    #![trigger out@[b * ow + a]]
                    0 <= a < ow && 0 <= b && (b < y || (b == y && a < x)) ==> out@[b * ow + a]
                        == pixels@[(b / (s as int)) * w + (a / (s as int))],
            decreases out_w - x,
        {
            let ghost before = out@;
            let sy: usize = y / s;
            let sx: usize = x / s;
            proof {
                assert(sy < h) by (nonlinear_arith)
                    requires
                        sy == y as int / s as int,
                        y < h * s,
                        s > 0,
                ;
                assert(sx < w) by (nonlinear_arith)
                    requires
                        sx == x as int / s as int,
                        x < w * s,
                        s > 0,
                ;
                assert(sy * w + sx < w * h) by (nonlinear_arith)
                    requires
                        0 <= sy < h,
                        0 <= sx < w,
                ;
                assert(0 <= sy * w) by (nonlinear_arith)
                    requires
                        0 <= sy,
                        0 <= w,
                ;
                assert(pixels.len() <= usize::MAX);
            }
            out.push(pixels[sy * w + sx]);
            proof {
                assert forall|a: int, b: int|
                    #![trigger out@[b * ow + a]]
                    0 <= a < ow && 0 <= b && (b < y || (b == y && a < x + 1)) implies out@[b * ow
                    + a] == pixels@[(b / (s as int)) * w + (a / (s as int))] by {
                    if b < y {
                        assert(b * ow + a < y * ow) by (nonlinear_arith)
                            requires
                                b + 1 <= y,
                                0 <= a < ow,
                        ;
                    }
                    assert(0 <= b * ow) by (nonlinear_arith)
                        requires
                            0 <= b,
                            0 <= ow,
                    ;
                    if b < y || a < x {
                        assert(before[b * ow + a] == pixels@[(b / (s as int)) * w + (a / (
                        s as int))]);
                    }
                }
            }
            x = x + 1;
        }
        proof {
            assert(y * ow + ow == (y + 1) * ow) by (nonlinear_arith);
        }
        y = y + 1;
    }
    proof {
        assert(out_h * ow == ow * out_h) by (nonlinear_arith);
    }
    out
}

#[verifier::external_type_specification]
#[verifier::external_body]
pub struct ExEncodingError(png::EncodingError);

/// What a `png::Encoder` writes of a gray picture with a byte for each pixel.
/// Nothing, if it fails.
pub uninterp spec fn gray_png_bytes(w: u32, h: u32, data: Seq<u8>) -> Option<Seq<u8>>;

/// Writes a picture with a `png::Encoder`, in gray, with eight bits for each
/// pixel.
///
/// Not proved: it fails on a picture without pixels, and on data of another
/// size; whether it succeeds, and what it writes then, is a function of the
/// picture.
#[verifier::external_body]
fn png_encode(w: u32, h: u32, data: &Vec<u8>) -> (r: Result<Vec<u8>, png::EncodingError>)
    requires
        (w + 1) * h <= usize::MAX,
    ensures
        r is Ok ==> w > 0 && h > 0 && data@.len() == w * h,
        match r {
            Ok(v) => gray_png_bytes(w, h, data@) == Some(v@),
            Err(_) => gray_png_bytes(w, h, data@) is None,
        },
{
    let mut out = Vec::new();
    let mut enc = png::Encoder::new(&mut out, w, h);
    enc.set_color(png::ColorType::Grayscale);
    enc.set_depth(png::BitDepth::Eight);
    enc.write_header()?.write_image_data(data)?;
    Ok(out)
}

/// The PNG file of a gray picture, scaled up.
pub fn write_png(pixels: &Vec<u8>, w: u32, h: u32, scale: u32) -> (r: Result<Vec<u8>, PngError>)
    requires
        pixels@.len() >= w * h,
        w * int_max(scale as int, 1) < u32::MAX,
        h * int_max(scale as int, 1) <= u32::MAX,
        (w * int_max(scale as int, 1) + 1) * (h * int_max(scale as int, 1)) <= usize::MAX,
    ensures
        w == 0 || h == 0 ==> r is Err,
        ({
            let s = int_max(scale as int, 1);
            let scaled = scaled_up(pixels@, w as int, h as int, s);
            match r {
                Ok(v) => gray_png_bytes((w * s) as u32, (h * s) as u32, scaled) == Some(v@),
                Err(e) => e == PngError::Encode && gray_png_bytes(
                    (w * s) as u32,
                    (h * s) as u32,
                    scaled,
                ) is None,
            }
        }),
{
    let s: u32 = if scale > 1 {
        scale
    } else {
        1
    };
    proof {
        assert((w * s) * (h * s) <= (w * s + 1) * (h * s)) by (nonlinear_arith)
            requires
                0 <= h * s,
        ;
        assert(0 <= h * s && 0 <= w * s) by (nonlinear_arith)
            requires
                0 <= w,
                0 <= h,
                0 <= s,
        ;
        assert(w > 0 ==> s <= w * s) by (nonlinear_arith)
            requires
                0 <= s,
                0 <= w,
        ;
    }
    let scaled = scale_up(pixels, w as usize, h as usize, scale);
    proof {
        lemma_scaled(pixels@, w as int, h as int, s as int, scaled@);
    }
    match png_encode(w * s, h * s, &scaled) {
        Ok(v) => Ok(v),
        Err(_) => Err(PngError::Encode),
    }
}

} // verus!
