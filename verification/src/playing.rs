//! What holds of pictures that are played on the board.

use vstd::arithmetic::div_mod::lemma_fundamental_div_mod;
use vstd::prelude::*;

use crate::color::Rgb;
use crate::msg::CellWrite;
use crate::video::{
    cleared, cleared_row, cleared_rows, delay_of, frame_writes, in_batches, look_of, pixel_place,
    pixel_write, pixels_in, shown_after, side, without_alpha, Pixel, PrevCell,
};

verus! {

/// What a pixel is shown as: the brighter it is, the denser the character; the
/// darkest are not shown.
pub open spec fn seen_as(p: Pixel) -> Option<(char, Rgb)> {
    if p.luma < 20 {
        None
    } else if p.luma < 90 {
        Some(('░', p.color))
    } else if p.luma < 140 {
        Some(('▒', p.color))
    } else if p.luma < 200 {
        Some(('▓', p.color))
    } else {
        Some(('█', p.color))
    }
}

/// The write puts what the pixel is seen as in that column and row.
pub open spec fn puts(w: CellWrite, x: int, y: int, seen: Option<(char, Rgb)>) -> bool {
    &&& w.pos.x == x
    &&& w.pos.y == y
    &&& w.ch is Some <==> seen is Some
    &&& seen is Some ==> w.ch->0 == (seen->0).0 && w.color == (seen->0).1
}

spec fn writes_pixel(
    prev: Seq<PrevCell>,
    pixels: Seq<Pixel>,
    x0: i16,
    y0: i16,
    width: u32,
    w: CellWrite,
    i: int,
) -> bool {
    w == pixel_write(x0, y0, width, i, pixels[i]) && look_of(pixels[i]) != prev[i]
}

spec fn writes_some_pixel(
    prev: Seq<PrevCell>,
    pixels: Seq<Pixel>,
    x0: i16,
    y0: i16,
    width: u32,
    w: CellWrite,
    n: int,
) -> bool {
    exists|i: int| 0 <= i < n && #[trigger] writes_pixel(prev, pixels, x0, y0, width, w, i)
}

proof fn lemma_frame(
    prev: Seq<PrevCell>,
    pixels: Seq<Pixel>,
    x0: i16,
    y0: i16,
    width: u32,
    n: nat,
)
    ensures
        ({
            let r = frame_writes(prev, pixels, x0, y0, width, n);
            &&& forall|k: int|
                0 <= k < r.len() ==> writes_some_pixel(
                    prev,
                    pixels,
                    x0,
                    y0,
                    width,
                    #[trigger] r[k],
                    n as int,
                )
            &&& forall|i: int|
                0 <= i < n && look_of(#[trigger] pixels[i]) != prev[i] ==> r.contains(
                    pixel_write(x0, y0, width, i, pixels[i]),
                )
        }),
    decreases n,
{
    if n > 0 {
        lemma_frame(prev, pixels, x0, y0, width, (n - 1) as nat);
        let before = frame_writes(prev, pixels, x0, y0, width, (n - 1) as nat);
        let r = frame_writes(prev, pixels, x0, y0, width, n);
        assert forall|k: int| 0 <= k < r.len() implies writes_some_pixel(
            prev,
            pixels,
            x0,
            y0,
            width,
            #[trigger] r[k],
            n as int,
        ) by {
            if k < before.len() {
                assert(r[k] == before[k]);
                let i = choose|i: int|
                    0 <= i < n - 1 && #[trigger] writes_pixel(
                        prev,
                        pixels,
                        x0,
                        y0,
                        width,
                        before[k],
                        i,
                    );
                assert(writes_pixel(prev, pixels, x0, y0, width, r[k], i));
            } else {
                assert(writes_pixel(prev, pixels, x0, y0, width, r[k], n - 1));
            }
        }
        assert forall|i: int| 0 <= i < n && look_of(#[trigger] pixels[i])
            != prev[i] implies r.contains(pixel_write(x0, y0, width, i, pixels[i])) by {
            let w = pixel_write(x0, y0, width, i, pixels[i]);
            if i < n - 1 {
                assert(before.contains(w));
                let k = choose|k: int| 0 <= k < before.len() && before[k] == w;
                assert(r[k] == w);
            } else {
                assert(r[r.len() - 1] == w);
            }
        }
    }
}

proof fn lemma_pixel_place(x0: i16, y0: i16, width: u32, height: u32, i: int)
    requires
        0 < width <= 32767,
        height <= 32767,
        x0 + width <= 32768,
        y0 + height <= 32768,
        0 <= i < width * height,
    ensures
        pixel_place(x0, y0, width, i).x == x0 + i % (width as int),
        pixel_place(x0, y0, width, i).y == y0 + i / (width as int),
        0 <= i % (width as int) < width,
        0 <= i / (width as int) < height,
{
    let d = width as int;
    lemma_fundamental_div_mod(i, d);
    assert(0 <= i / d < height) by (nonlinear_arith)
        requires
            d > 0,
            0 <= i < d * height,
            i == d * (i / d) + i % d,
            0 <= i % d < d,
    ;
    assert(width * height <= 32767 * 32767) by (nonlinear_arith)
        requires
            0 < width <= 32767,
            height <= 32767,
    ;
}

/// Showing a picture writes just the pixels that are not shown yet, each in its
/// column and row, in its color and with the character for its brightness; and
/// it is known to be shown then.
pub proof fn law_frame_writes_what_has_changed(
    prev: Seq<PrevCell>,
    pixels: Seq<Pixel>,
    x0: i16,
    y0: i16,
    width: u32,
    height: u32,
    i: int,
)
    requires
        0 < width <= 32767,
        height <= 32767,
        x0 + width <= 32768,
        y0 + height <= 32768,
        pixels.len() <= width * height,
        pixels.len() <= prev.len(),
        0 <= i < pixels.len(),
    ensures
        ({
            let r = frame_writes(prev, pixels, x0, y0, width, pixels.len());
            let x = x0 + i % (width as int);
            let y = y0 + i / (width as int);
            &&& seen_as(pixels[i]) != prev[i] ==> exists|k: int|
                0 <= k < r.len() && puts(#[trigger] r[k], x, y, seen_as(pixels[i]))
            &&& forall|k: int|
                0 <= k < r.len() && (#[trigger] r[k]).pos.x == x && r[k].pos.y == y ==> seen_as(
                    pixels[i],
                ) != prev[i] && puts(r[k], x, y, seen_as(pixels[i]))
            &&& forall|k: int|
                0 <= k < r.len() ==> x0 <= (#[trigger] r[k]).pos.x < x0 + width && y0 <= r[k].pos.y
                    < y0 + height
            &&& shown_after(prev, pixels, pixels.len())[i] == seen_as(pixels[i])
        }),
{
    let r = frame_writes(prev, pixels, x0, y0, width, pixels.len());
    let d = width as int;
    lemma_frame(prev, pixels, x0, y0, width, pixels.len());
    lemma_pixel_place(x0, y0, width, height, i);
    assert(look_of(pixels[i]) == seen_as(pixels[i]));
    if seen_as(pixels[i]) != prev[i] {
        let w = pixel_write(x0, y0, width, i, pixels[i]);
        assert(r.contains(w));
        let k = choose|k: int| 0 <= k < r.len() && r[k] == w;
        assert(puts(r[k], x0 + i % d, y0 + i / d, seen_as(pixels[i])));
    }
    assert forall|k: int| 0 <= k < r.len() implies x0 <= (#[trigger] r[k]).pos.x < x0 + width && y0
        <= r[k].pos.y < y0 + height && (r[k].pos.x == x0 + i % d && r[k].pos.y == y0 + i / d
        ==> seen_as(pixels[i]) != prev[i] && puts(
        r[k],
        x0 + i % d,
        y0 + i / d,
        seen_as(pixels[i]),
    )) by {
        assert(writes_some_pixel(prev, pixels, x0, y0, width, r[k], pixels.len() as int));
        let h = choose|h: int|
            0 <= h < pixels.len() && #[trigger] writes_pixel(
                prev,
                pixels,
                x0,
                y0,
                width,
                r[k],
                h,
            );
        lemma_pixel_place(x0, y0, width, height, h);
        lemma_fundamental_div_mod(i, d);
        lemma_fundamental_div_mod(h, d);
    }
}

proof fn lemma_cleared(x0: i16, y0: i16, w: nat, h: nat, ix: int, iy: int)
    requires
        0 <= ix < w,
        0 <= iy < h,
    ensures
        cleared_rows(x0, y0, w, h).len() == w * h,
        0 <= iy * w + ix < w * h,
        cleared_rows(x0, y0, w, h)[iy * w + ix] == cleared(x0, y0, ix, iy),
    decreases h,
{
    assert(0 <= iy * w + ix < w * h) by (nonlinear_arith)
        requires
            0 <= ix < w,
            0 <= iy < h,
    ;
    assert((h - 1) * w + w == w * h) by (nonlinear_arith)
        requires
            h >= 1,
    ;
    let before = cleared_rows(x0, y0, w, (h - 1) as nat);
    let row = cleared_row(x0, y0, h - 1, w);
    assert(cleared_rows(x0, y0, w, h) == before + row);
    if h > 1 {
        if iy < h - 1 {
            lemma_cleared(x0, y0, w, (h - 1) as nat, ix, iy);
        } else {
            lemma_cleared(x0, y0, w, (h - 1) as nat, ix, 0);
        }
        assert(w * ((h - 1) as nat) == (h - 1) * w) by (nonlinear_arith)
            requires
                h >= 1,
        ;
    } else {
        assert(before.len() == 0);
        assert(w * h == w && iy * w == 0) by (nonlinear_arith)
            requires
                h == 1,
                iy == 0,
        ;
    }
}

/// Clearing an area empties each of its cells, and no other, no more than 100 at a
/// time.
pub proof fn law_clearing_empties_the_area(
    x0: i16,
    y0: i16,
    width: u32,
    height: u32,
    r: Seq<Vec<CellWrite>>,
    ix: int,
    iy: int,
)
    requires
        in_batches(cleared_rows(x0, y0, side(width), side(height)), r),
        0 < width <= 32767,
        0 < height <= 32767,
        x0 + width <= 32768,
        y0 + height <= 32768,
        0 <= ix < width,
        0 <= iy < height,
    ensures
        exists|k: int, j: int|
            0 <= k < r.len() && 0 <= j < r[k]@.len() && puts(
                #[trigger] r[k]@[j],
                x0 + ix,
                y0 + iy,
                None,
            ),
        forall|k: int, j: int|
            0 <= k < r.len() && 0 <= j < r[k]@.len() ==> {
                let w = #[trigger] r[k]@[j];
                w.ch is None && x0 <= w.pos.x < x0 + width && y0 <= w.pos.y < y0 + height
            },
        forall|k: int| 0 <= k < r.len() ==> (#[trigger] r[k])@.len() <= 100,
{
    let (w, h) = (side(width), side(height));
    let s = cleared_rows(x0, y0, w, h);
    lemma_cleared(x0, y0, w, h, ix, iy);
    let n = iy * w + ix;
    let (k, j) = (n / 100, n % 100);
    assert(k < r.len() && k * 100 <= n < (k + 1) * 100);
    assert(r[k]@[j] == s[n]);
    assert(puts(r[k]@[j], x0 + ix, y0 + iy, None));
    assert forall|b: int, c: int| 0 <= b < r.len() && 0 <= c < r[b]@.len() implies {
        let e = #[trigger] r[b]@[c];
        e.ch is None && x0 <= e.pos.x < x0 + width && y0 <= e.pos.y < y0 + height
    } by {
        let m = b * 100 + c;
        assert(r[b]@[c] == s[m]);
        let d = w as int;
        lemma_fundamental_div_mod(m, d);
        assert(0 <= m / d < h) by (nonlinear_arith)
            requires
                d > 0,
                0 <= m < d * h,
                m == d * (m / d) + m % d,
                0 <= m % d < d,
        ;
        lemma_cleared(x0, y0, w, h, m % d, m / d);
        assert((m / d) * w + m % d == m) by (nonlinear_arith)
            requires
                m == d * (m / d) + m % d,
                d == w,
        ;
    }
}

/// A pixel of a picture has the red, the green and the blue of its four bytes.
pub proof fn law_pixels_keep_their_colors(rgba: Seq<u8>, j: int)
    requires
        0 <= j < rgba.len() / 4,
    ensures
        pixels_in(without_alpha(rgba)).len() == rgba.len() / 4,
        pixels_in(without_alpha(rgba))[j].0 == rgba[4 * j],
        pixels_in(without_alpha(rgba))[j].1 == rgba[4 * j + 1],
        pixels_in(without_alpha(rgba))[j].2 == rgba[4 * j + 2],
{
    let rgb = without_alpha(rgba);
    assert(rgb.len() == rgba.len() / 4 * 3);
    assert((3 * j) / 3 == j && (3 * j) % 3 == 0);
    assert((3 * j + 1) / 3 == j && (3 * j + 1) % 3 == 1);
    assert((3 * j + 2) / 3 == j && (3 * j + 2) % 3 == 2);
}

/// A frame is shown for as long as the file says, in microseconds, rounded down;
/// where the file says nothing, nothing is said.
pub proof fn law_frames_last_as_long_as_they_say(numer_ms: u32, denom: u32)
    ensures
        delay_of(numer_ms, denom) is None <==> numer_ms == 0 || denom == 0,
        delay_of(numer_ms, denom) matches Some(us) ==> us * denom <= 1000 * numer_ms < (us + 1)
            * denom,
{
    if numer_ms != 0 && denom != 0 {
        let q = numer_ms * 1000 / denom as int;
        lemma_fundamental_div_mod(numer_ms * 1000, denom as int);
        assert(q * denom <= 1000 * numer_ms < (q + 1) * denom && 0 <= q <= 1000 * numer_ms)
            by (nonlinear_arith)
            requires
                denom > 0,
                numer_ms * 1000 == denom * q + (numer_ms * 1000) % (denom as int),
                0 <= (numer_ms * 1000) % (denom as int) < denom,
        ;
    }
}

} // verus!
