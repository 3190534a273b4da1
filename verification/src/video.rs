//! Playing pictures on the board.

use vstd::prelude::*;

use image::AnimationDecoder;

use crate::color::Rgb;
use crate::coords::WorldCoords;
use crate::msg::{CellWrite, ServerMsg};

verus! {

/// The character for a brightness; nothing for the darkest.
pub open spec fn shade(luma: u32) -> Option<char> {
    if luma <= 19 {
        None
    } else if luma <= 89 {
        Some('░')
    } else if luma <= 139 {
        Some('▒')
    } else if luma <= 199 {
        Some('▓')
    } else {
        Some('█')
    }
}

pub fn pixel_to_cell(luma: u32) -> (r: Option<char>)
    ensures
        r == shade(luma),
{
    if luma <= 19 {
        None
    } else if luma <= 89 {
        Some('░')
    } else if luma <= 139 {
        Some('▒')
    } else if luma <= 199 {
        Some('▓')
    } else {
        Some('█')
    }
}

/// A pixel, and how bright it is.
#[derive(Debug, Clone, Copy, PartialEq, Eq, Structural)]
pub struct Pixel {
    pub color: Rgb,
    pub luma: u32,
}

/// What a cell shows.
pub type PrevCell = Option<(char, Rgb)>;

/// What a cell shows for a pixel.
pub open spec fn look_of(p: Pixel) -> PrevCell {
    match shade(p.luma) {
        Some(c) => Some((c, p.color)),
        None => None,
    }
}

/// `a + b`, or the nearest number that fits.
pub open spec fn saturated(a: i16, b: i16) -> i16 {
    if a + b > i16::MAX {
        i16::MAX
    } else if a + b < i16::MIN {
        i16::MIN
    } else {
        (a + b) as i16
    }
}

fn saturating(a: i16, b: i16) -> (r: i16)
    ensures
        r == saturated(a, b),
{
    let s: i32 = a as i32 + b as i32;
    if s > i16::MAX as i32 {
        i16::MAX
    } else if s < i16::MIN as i32 {
        i16::MIN
    } else {
        s as i16
    }
}

/// Where pixel `i` of a picture stands on the board.
pub open spec fn pixel_place(x0: i16, y0: i16, width: u32, i: int) -> WorldCoords {
    WorldCoords {
        x: saturated(x0, ((i as u32) as int % width as int) as i16),
        y: saturated(y0, ((i as u32) as int / width as int) as i16),
    }
}

/// What is to be written for a pixel.
pub open spec fn pixel_write(x0: i16, y0: i16, width: u32, i: int, p: Pixel) -> CellWrite {
    CellWrite { pos: pixel_place(x0, y0, width, i), ch: shade(p.luma), color: p.color }
}

/// What is to be written to show the first `n` pixels, where `prev` shows.
pub open spec fn frame_writes(
    prev: Seq<PrevCell>,
    pixels: Seq<Pixel>,
    x0: i16,
    y0: i16,
    width: u32,
    n: nat,
) -> Seq<CellWrite>
    decreases n,
{
    if n == 0 {
        Seq::empty()
    } else {
        let before = frame_writes(prev, pixels, x0, y0, width, (n - 1) as nat);
        if look_of(pixels[n - 1]) != prev[n - 1] {
            before.push(pixel_write(x0, y0, width, n - 1, pixels[n - 1]))
        } else {
            before
        }
    }
}

/// What is shown once the first `n` pixels are.
pub open spec fn shown_after(prev: Seq<PrevCell>, pixels: Seq<Pixel>, n: nat) -> Seq<PrevCell> {
    Seq::new(
        prev.len(),
        |i: int|
            if i < n {
                look_of(pixels[i])
            } else {
                prev[i]
            },
    )
}

fn differs(a: PrevCell, b: PrevCell) -> (r: bool)
    ensures
        r == (a != b),
{
    match (a, b) {
        (Some((c, x)), Some((d, y))) => c != d || x != y,
        (None, None) => false,
        _ => true,
    }
}

/// What is to be written to show a picture, where `prev` shows.
pub fn send_frame(
    prev: &mut Vec<PrevCell>,
    pixels: &Vec<Pixel>,
    x0: i16,
    y0: i16,
    width: u32,
) -> (r: Vec<CellWrite>)
    requires
        old(prev)@.len() >= pixels@.len(),
        width > 0 || pixels@.len() == 0,
    ensures
        r@ == frame_writes(old(prev)@, pixels@, x0, y0, width, pixels@.len()),
        final(prev)@ == shown_after(old(prev)@, pixels@, pixels@.len()),
{
    let mut out: Vec<CellWrite> = Vec::new();
    let mut i: usize = 0;
    assert(prev@ =~= shown_after(old(prev)@, pixels@, 0));
    while i < pixels.len()
        invariant
            i <= pixels@.len(),
            width > 0 || pixels@.len() == 0,
            old(prev)@.len() >= pixels@.len(),
            prev@.len() == old(prev)@.len(),
            prev@ == shown_after(old(prev)@, pixels@, i as nat),
            out@ == frame_writes(old(prev)@, pixels@, x0, y0, width, i as nat),
        decreases pixels@.len() - i,
    {
        let p = pixels[i];
        let ch = pixel_to_cell(p.luma);
        let look: PrevCell = match ch {
            Some(c) => Some((c, p.color)),
            None => None,
        };
        if differs(look, prev[i]) {
            prev[i] = look;
            let ix: i16 = (i as u32 % width) as i16;
            let iy: i16 = (i as u32 / width) as i16;
            out.push(
                CellWrite {
                    pos: WorldCoords { x: saturating(x0, ix), y: saturating(y0, iy) },
                    ch,
                    color: p.color,
                },
            );
        }
        assert(prev@ =~= shown_after(old(prev)@, pixels@, (i + 1) as nat));
        i = i + 1;
    }
    out
}

/// A picture that is shown already asks for nothing to be written.
pub proof fn law_same_frame_sends_nothing(
    prev: Seq<PrevCell>,
    pixels: Seq<Pixel>,
    x0: i16,
    y0: i16,
    width: u32,
    n: nat,
)
    requires
        n <= pixels.len() <= prev.len(),
    ensures
        frame_writes(shown_after(prev, pixels, pixels.len()), pixels, x0, y0, width, n).len() == 0,
    decreases n,
{
    if n > 0 {
        law_same_frame_sends_nothing(prev, pixels, x0, y0, width, (n - 1) as nat);
    }
}

/// Number of cells that are cleared at a time.
pub const CLEAR_BATCH: usize = 100;

/// An empty cell.
pub open spec fn cleared(x0: i16, y0: i16, ix: int, iy: int) -> CellWrite {
    CellWrite {
        pos: WorldCoords { x: saturated(x0, ix as i16), y: saturated(y0, iy as i16) },
        ch: None,
        color: Rgb(0, 0, 0),
    }
}

/// The cells of `n` columns of row `iy`.
pub open spec fn cleared_row(x0: i16, y0: i16, iy: int, n: nat) -> Seq<CellWrite> {
    Seq::new(n, |ix: int| cleared(x0, y0, ix, iy))
}

/// The cells of `h` rows of `w` columns.
pub open spec fn cleared_rows(x0: i16, y0: i16, w: nat, h: nat) -> Seq<CellWrite>
    decreases h,
{
    if h == 0 {
        Seq::empty()
    } else {
        cleared_rows(x0, y0, w, (h - 1) as nat) + cleared_row(x0, y0, h - 1, w)
    }
}

/// A side of the area, as far as it can be counted.
pub open spec fn side(n: u32) -> nat {
    if n as i16 > 0 {
        (n as i16) as nat
    } else {
        0
    }
}

/// `s` in pieces of `CLEAR_BATCH`, of which the last may be shorter.
pub open spec fn in_batches(s: Seq<CellWrite>, r: Seq<Vec<CellWrite>>) -> bool {
    &&& r.len() == (s.len() + CLEAR_BATCH - 1) / CLEAR_BATCH as int
    &&& forall|k: int|
        0 <= k < r.len() ==> (#[trigger] r[k])@ == s.subrange(
            k * CLEAR_BATCH,
            if (k + 1) * CLEAR_BATCH <= s.len() {
                (k + 1) * CLEAR_BATCH
            } else {
                s.len() as int
            },
        )
}

fn area_cells(x0: i16, y0: i16, width: u32, height: u32) -> (r: Vec<CellWrite>)
    ensures
        r@ == cleared_rows(x0, y0, side(width), side(height)),
{
    let w: i16 = #[verifier::truncate] (width as i16);
    let h: i16 = #[verifier::truncate] (height as i16);
    let mut out: Vec<CellWrite> = Vec::new();
    let mut iy: i16 = 0;
    while iy < h
        invariant
            0 <= iy,
            iy <= h || iy == 0,
            w == width as i16,
            out@ == cleared_rows(x0, y0, side(width), iy as nat),
        decreases h - iy,
    {
        let ghost before = out@;
        let mut ix: i16 = 0;
        assert(before + cleared_row(x0, y0, iy as int, 0) =~= before);
        while ix < w
            invariant
                0 <= ix,
                ix <= w || ix == 0,
                out@ == before + cleared_row(x0, y0, iy as int, ix as nat),
            decreases w - ix,
        {
            out.push(
                CellWrite {
                    pos: WorldCoords { x: saturating(x0, ix), y: saturating(y0, iy) },
                    ch: None,
                    color: Rgb(0, 0, 0),
                },
            );
            assert(out@ =~= before + cleared_row(x0, y0, iy as int, (ix + 1) as nat));
            ix = ix + 1;
        }
        iy = iy + 1;
    }
    out
}

/// What is to be written to clear an area, a few cells at a time.
pub fn clear_area(x0: i16, y0: i16, width: u32, height: u32) -> (r: Vec<Vec<CellWrite>>)
    ensures
        in_batches(cleared_rows(x0, y0, side(width), side(height)), r@),
{
    let cells = area_cells(x0, y0, width, height);
    let mut out: Vec<Vec<CellWrite>> = Vec::new();
    let mut i: usize = 0;
    while i < cells.len()
        invariant
            i <= cells@.len(),
            i == out@.len() * CLEAR_BATCH || i == cells@.len(),
            out@.len() == (i + CLEAR_BATCH - 1) / CLEAR_BATCH as int,
            forall|k: int|
                0 <= k < out@.len() ==> (#[trigger] out@[k])@ == cells@.subrange(
                    k * CLEAR_BATCH,
                    if (k + 1) * CLEAR_BATCH <= cells@.len() {
                        (k + 1) * CLEAR_BATCH
                    } else {
                        cells@.len() as int
                    },
                ),
        decreases cells@.len() - i,
    {
        let mut batch: Vec<CellWrite> = Vec::new();
        let ghost start = i;
        while i < cells.len() && batch.len() < CLEAR_BATCH
            invariant
                start <= i <= cells@.len(),
                i - start == batch@.len(),
                batch@.len() <= CLEAR_BATCH,
                batch@ =~= cells@.subrange(start as int, i as int),
            decreases cells@.len() - i,
        {
            batch.push(cells[i]);
            i = i + 1;
        }
        out.push(batch);
    }
    out
}

/// The microseconds in `numer_ms / denom` milliseconds; none, where that is no
/// time.
pub open spec fn delay_of(numer_ms: u32, denom: u32) -> Option<u64> {
    if denom == 0 || numer_ms == 0 {
        None
    } else {
        Some((numer_ms * 1000 / denom as int) as u64)
    }
}

/// The time that a frame is shown, in microseconds; none, if the file does not
/// say.
pub fn frame_delay(numer_ms: u32, denom: u32) -> (r: Option<u64>)
    ensures
        r == delay_of(numer_ms, denom),
{
    if denom == 0 || numer_ms == 0 {
        None
    } else {
        Some(numer_ms as u64 * 1000 / denom as u64)
    }
}

/// What an answer of the server means to one who is logging in.
pub enum LoginReply {
    LoggedIn(String),
    Refused(String),
    Other,
}

pub fn login_reply(msg: ServerMsg) -> (r: LoginReply)
    ensures
        r == (match msg {
            ServerMsg::AuthOk { username, .. } => LoginReply::LoggedIn(username),
            ServerMsg::AuthFail { reason } => LoginReply::Refused(reason),
            _ => LoginReply::Other,
        }),
{
    match msg {
        ServerMsg::AuthOk { username, .. } => LoginReply::LoggedIn(username),
        ServerMsg::AuthFail { reason } => LoginReply::Refused(reason),
        _ => LoginReply::Other,
    }
}

/// The pixels of a frame of three bytes for each.
pub open spec fn pixels_in(buf: Seq<u8>) -> Seq<Rgb> {
    Seq::new(buf.len() / 3, |i: int| Rgb(buf[3 * i], buf[3 * i + 1], buf[3 * i + 2]))
}

pub fn rgb_pixels(buf: &Vec<u8>) -> (r: Vec<Rgb>)
    ensures
        r@ == pixels_in(buf@),
{
    let mut out: Vec<Rgb> = Vec::new();
    let n: usize = buf.len() / 3;
    let mut i: usize = 0;
    assert(buf@.len() <= usize::MAX);
    while i < n
        invariant
            i <= n,
            n == buf@.len() / 3,
            buf@.len() <= usize::MAX,
            out@ =~= pixels_in(buf@).take(i as int),
        decreases n - i,
    {
        out.push(Rgb(buf[3 * i], buf[3 * i + 1], buf[3 * i + 2]));
        i = i + 1;
    }
    assert(out@ =~= pixels_in(buf@));
    out
}

/// The bytes of red, green and blue out of those of red, green, blue and alpha.
pub open spec fn without_alpha(rgba: Seq<u8>) -> Seq<u8> {
    Seq::new(rgba.len() / 4 * 3, |i: int| rgba[i / 3 * 4 + i % 3])
}

fn drop_alpha(rgba: &Vec<u8>) -> (r: Vec<u8>)
    ensures
        r@ == without_alpha(rgba@),
{
    let n: usize = rgba.len() / 4;
    let mut out: Vec<u8> = Vec::new();
    let mut i: usize = 0;
    assert(rgba.len() <= usize::MAX);
    while i < n
        invariant
            i <= n,
            n == rgba@.len() / 4,
            rgba@.len() <= usize::MAX,
            out@.len() == 3 * i,
            forall|k: int| 0 <= k < out@.len() ==> #[trigger] out@[k] == rgba@[k / 3 * 4 + k % 3],
        decreases n - i,
    {
        out.push(rgba[4 * i]);
        out.push(rgba[4 * i + 1]);
        out.push(rgba[4 * i + 2]);
        i = i + 1;
    }
    assert(out@ =~= without_alpha(rgba@));
    out
}

/// The longest side of a picture that is scaled. The filter's arithmetic is that
/// of `f32`, which counts by ones no further than `0x100_0000`.
pub const MAX_SIDE: u32 = 0x1_0000;

/// Both sides are at most `MAX_SIDE`.
pub open spec fn sides_fit(w: u32, h: u32) -> bool {
    w <= MAX_SIDE && h <= MAX_SIDE
}

/// A picture of the size `w` by `h` can be scaled to another: the sides are short
/// enough, and the pictures on the way can be addressed.
pub open spec fn can_scale(w: u32, h: u32, new_w: u32, new_h: u32) -> bool {
    &&& sides_fit(w, h)
    &&& sides_fit(new_w, new_h)
    &&& new_w * new_h * 3 <= isize::MAX
    &&& w * new_h * 16 <= isize::MAX
}

/// What `image::imageops::resize` makes of a picture of three bytes for each
/// pixel, with its triangle filter.
pub uninterp spec fn resized(data: Seq<u8>, w: u32, h: u32, new_w: u32, new_h: u32) -> Seq<u8>;

/// Calls `image::imageops::resize` on an `image::RgbImage`.
///
/// Not proved: there is a picture wherever the data is long enough for one of
/// the size given; what it becomes is a function of the data and the sizes, and
/// has the size asked for.
#[verifier::external_body]
fn image_resize(data: Vec<u8>, w: u32, h: u32, new_w: u32, new_h: u32) -> (r: Option<Vec<u8>>)
    requires
        can_scale(w, h, new_w, new_h),
    ensures
        r is Some <==> data@.len() >= w * h * 3,
        r matches Some(v) ==> v@ == resized(data@, w, h, new_w, new_h),
        r matches Some(v) ==> v@.len() == new_w * new_h * 3,
{
    let img = image::RgbImage::from_raw(w, h, data)?;
    let filter = image::imageops::FilterType::Triangle;
    Some(image::imageops::resize(&img, new_w, new_h, filter).into_raw())
}

/// A picture of four bytes for each pixel, scaled to another size.
pub open spec fn scaled_picture(
    rgba: Seq<u8>,
    w: u32,
    h: u32,
    new_w: u32,
    new_h: u32,
) -> Seq<Rgb> {
    pixels_in(resized(without_alpha(rgba), w, h, new_w, new_h))
}

/// The pixels of a frame of four bytes for each, scaled to another size; none,
/// if the frame has too few bytes.
pub fn scale_frame(rgba: &Vec<u8>, w: u32, h: u32, new_w: u32, new_h: u32) -> (r: Option<Vec<Rgb>>)
    requires
        can_scale(w, h, new_w, new_h),
    ensures
        r is Some <==> without_alpha(rgba@).len() >= w * h * 3,
        r matches Some(v) ==> v@ == scaled_picture(rgba@, w, h, new_w, new_h),
        r matches Some(v) ==> v@.len() == new_w * new_h,
{
    match image_resize(drop_alpha(rgba), w, h, new_w, new_h) {
        Some(v) => Some(rgb_pixels(&v)),
        None => None,
    }
}

/// A frame of a GIF: its width and height, the numerator and denominator of its
/// delay in milliseconds, and four bytes for each of its pixels.
pub type RawFrame = (u32, u32, u32, u32, Vec<u8>);

pub open spec fn raw_frame(f: RawFrame) -> (u32, u32, u32, u32, Seq<u8>) {
    (f.0, f.1, f.2, f.3, f.4@)
}

/// The longest side that a GIF can declare.
pub const GIF_SIDE: u32 = 0xffff;

/// `f` has the bytes of a picture of its own size, and the size is one that a
/// GIF can declare.
pub open spec fn frame_whole(f: RawFrame) -> bool {
    f.0 <= GIF_SIDE && f.1 <= GIF_SIDE && f.4@.len() == f.0 * f.1 * 4
}

/// Sixteen bytes for each pixel of a picture with the longest sides can be
/// addressed.
pub open spec fn pictures_fit() -> bool {
    0x10_0000_0000 <= isize::MAX
}

/// The frames that `image::codecs::gif::GifDecoder` reads out of a file; none,
/// if the file or one of its frames cannot be read.
pub uninterp spec fn gif_frames(data: Seq<u8>) -> Option<Seq<(u32, u32, u32, u32, Seq<u8>)>>;

/// Calls `image::codecs::gif::GifDecoder::new`, and `collect_frames` on what its
/// `into_frames` gives.
///
/// Not proved: what is read is a function of the bytes; each frame is as large as
/// the file says that its screen is, which is two bytes for each side, and has
/// four bytes for each pixel. Where a buffer for such a picture cannot be
/// addressed, the decoder panics.
#[verifier::external_body]
fn decode_gif(data: &[u8]) -> (r: Option<Vec<RawFrame>>)
    requires
        pictures_fit(),
    ensures
        match r {
            Some(v) => gif_frames(data@) == Some(v@.map_values(|f: RawFrame| raw_frame(f))),
            None => gif_frames(data@) is None,
        },
        r matches Some(v) ==> forall|i: int| 0 <= i < v@.len() ==> frame_whole(#[trigger] v@[i]),
{
    let gif = image::codecs::gif::GifDecoder::new(std::io::Cursor::new(data)).ok()?;
    let frames = gif.into_frames().collect_frames().ok()?;
    let raw = frames.into_iter().map(
        |f|
            {
                let (numer_ms, denom) = f.delay().numer_denom_ms();
                let img = f.into_buffer();
                (img.width(), img.height(), numer_ms, denom, img.into_raw())
            },
    );
    Some(raw.collect())
}

/// `p` is the time that frame `f` is shown, and its picture in another size.
pub open spec fn shows_frame(
    p: (Option<u64>, Vec<Rgb>),
    f: (u32, u32, u32, u32, Seq<u8>),
    width: u32,
    height: u32,
) -> bool {
    p.0 == delay_of(f.2, f.3) && p.1@ == scaled_picture(f.4, f.0, f.1, width, height)
}

/// What is shown of `frames`, in order.
pub open spec fn shows_frames(
    pictures: Seq<(Option<u64>, Vec<Rgb>)>,
    frames: Seq<(u32, u32, u32, u32, Seq<u8>)>,
    width: u32,
    height: u32,
) -> bool {
    &&& pictures.len() == frames.len()
    &&& forall|i: int|
        0 <= i < pictures.len() ==> shows_frame(#[trigger] pictures[i], frames[i], width, height)
}

proof fn lemma_room(w: u32, h: u32, new_w: u32, new_h: u32)
    requires
        pictures_fit(),
        sides_fit(w, h),
        sides_fit(new_w, new_h),
    ensures
        can_scale(w, h, new_w, new_h),
{
    assert(new_w * new_h * 3 <= 0x3_0000_0000) by (nonlinear_arith)
        requires
            new_w <= 0x1_0000,
            new_h <= 0x1_0000,
    ;
    assert(w * new_h * 16 <= 0x10_0000_0000) by (nonlinear_arith)
        requires
            w <= 0x1_0000,
            new_h <= 0x1_0000,
    ;
}

proof fn lemma_whole_frame(f: RawFrame)
    requires
        frame_whole(f),
    ensures
        without_alpha(f.4@).len() >= f.0 * f.1 * 3,
{
    assert(f.0 * f.1 * 4 == 4 * (f.0 * f.1)) by (nonlinear_arith);
    assert(f.0 * f.1 * 3 == 3 * (f.0 * f.1)) by (nonlinear_arith);
}

/// The pictures of frames that are whole, in the size asked for, and the time
/// that each is shown.
pub fn frame_pictures(frames: &Vec<RawFrame>, width: u32, height: u32) -> (r: Vec<
    (Option<u64>, Vec<Rgb>),
>)
    requires
        forall|i: int|
            0 <= i < frames@.len() ==> frame_whole(#[trigger] frames@[i]) && can_scale(
                frames@[i].0,
                frames@[i].1,
                width,
                height,
            ),
    ensures
        shows_frames(r@, frames@.map_values(|f: RawFrame| raw_frame(f)), width, height),
        forall|i: int| 0 <= i < r@.len() ==> (#[trigger] r@[i]).1@.len() == width * height,
{
    let mut out: Vec<(Option<u64>, Vec<Rgb>)> = Vec::new();
    let ghost views = frames@.map_values(|f: RawFrame| raw_frame(f));
    let mut i: usize = 0;
    while i < frames.len()
        invariant
            i <= frames@.len(),
            out@.len() == i,
            views == frames@.map_values(|f: RawFrame| raw_frame(f)),
            forall|k: int|
                0 <= k < frames@.len() ==> frame_whole(#[trigger] frames@[k]) && can_scale(
                    frames@[k].0,
                    frames@[k].1,
                    width,
                    height,
                ),
            forall|k: int| 0 <= k < i ==> shows_frame(#[trigger] out@[k], views[k], width, height),
            forall|k: int| 0 <= k < i ==> (#[trigger] out@[k]).1@.len() == width * height,
        decreases frames@.len() - i,
    {
        let f = &frames[i];
        proof {
            lemma_whole_frame(*f);
        }
        if let Some(picture) = scale_frame(&f.4, f.0, f.1, width, height) {
            out.push((frame_delay(f.2, f.3), picture));
        }
        i = i + 1;
    }
    out
}

/// The pictures of a GIF in the size asked for, and the time that each is shown;
/// none, if the file cannot be read or its pictures could be too large for the
/// machine.
pub fn gif_pictures(data: &[u8], width: u32, height: u32) -> (r: Option<
    Vec<(Option<u64>, Vec<Rgb>)>,
>)
    requires
        sides_fit(width, height),
    ensures
        r is Some <==> pictures_fit() && gif_frames(data@) is Some,
        r matches Some(v) ==> shows_frames(v@, gif_frames(data@)->0, width, height),
        r matches Some(v) ==> forall|i: int|
            0 <= i < v@.len() ==> (#[trigger] v@[i]).1@.len() == width * height,
{
    if (isize::MAX as u64) < 0x10_0000_0000 {
        return None;
    }
    match decode_gif(data) {
        Some(frames) => {
            proof {
                assert forall|i: int| 0 <= i < frames@.len() implies can_scale(
                    (#[trigger] frames@[i]).0,
                    frames@[i].1,
                    width,
                    height,
                ) by {
                    assert(frame_whole(frames@[i]));
                    lemma_room(frames@[i].0, frames@[i].1, width, height);
                }
            }
            Some(frame_pictures(&frames, width, height))
        },
        None => None,
    }
}

} // verus!
