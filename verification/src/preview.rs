//! The picture that stands for a place on the board where a link to it is
//! shown, and the page that names it.

use vstd::prelude::*;
use vstd::string::StringExecFns;

use crate::coords::{floor_div, ChunkCoords, WorldCoords, CHUNK_H, CHUNK_W};
use crate::color::Rgb;
use crate::model::StoredChunkCell;
use crate::paint::{OUT_BYTES, OUT_H, OUT_W};
use crate::parse::{bounded_int, read_int, replace_first, replaced_first, split, split_at};
use crate::table::CoordMap;
use crate::text::{chars_of, dec_int, push_dec_int};
use crate::world::{chunk_cells, Slot, World};

verus! {

/// `s` without the percent signs at its end.
pub open spec fn trim_percent(s: Seq<char>) -> Seq<char>
    decreases s.len(),
{
    if s.len() > 0 && s.last() == '%' {
        trim_percent(s.drop_last())
    } else {
        s
    }
}

/// The zoom, in percent, that the third part of a place gives.
pub open spec fn zoom_percent(parts: Seq<Seq<char>>) -> int {
    let given = if parts.len() > 2 {
        bounded_int(trim_percent(parts[2]), false, 0, u32::MAX as int)
    } else {
        None
    };
    match given {
        Some(z) => if z < 3 {
            3
        } else if z > 800 {
            800
        } else {
            z
        },
        None => 100,
    }
}

/// A place on the board and a zoom, as a link gives them: column, row and, if it
/// likes, percent.
pub open spec fn place_of(s: Seq<char>) -> Option<(int, int, int)> {
    let parts = split(s, ',');
    if parts.len() < 2 {
        None
    } else {
        match (
            bounded_int(parts[0], true, i32::MIN as int, i32::MAX as int),
            bounded_int(parts[1], true, i32::MIN as int, i32::MAX as int),
        ) {
            (Some(x), Some(y)) => Some((x, y, zoom_percent(parts))),
            _ => None,
        }
    }
}

pub fn parse_at(s: &str) -> (r: Option<(i32, i32, u32)>)
    ensures
        match place_of(s@) {
            Some(p) => r matches Some(q) && q.0 == p.0 && q.1 == p.1 && q.2 == p.2,
            None => r is None,
        },
{
    let v = chars_of(s);
    let parts = split_at(&v, ',');
    if parts.len() < 2 {
        return None;
    }
    let (a, b) = parts[0];
    let x: i32 = match read_int(&v, a, b, true, i32::MIN as i64, i32::MAX as i64) {
        Some(n) => n as i32,
        None => {
            return None;
        },
    };
    let (a, b) = parts[1];
    let y: i32 = match read_int(&v, a, b, true, i32::MIN as i64, i32::MAX as i64) {
        Some(n) => n as i32,
        None => {
            return None;
        },
    };
    let mut z: u32 = 100;
    if parts.len() > 2 {
        let (from, end) = parts[2];
        let ghost part = v@.subrange(from as int, end as int);
        let mut to: usize = end;
        while to > from && v[to - 1] == '%'
            invariant
                from <= to <= end <= v@.len(),
                part == v@.subrange(from as int, end as int),
                trim_percent(part) == trim_percent(v@.subrange(from as int, to as int)),
            decreases to,
        {
            assert(v@.subrange(from as int, to as int).drop_last() =~= v@.subrange(
                from as int,
                to - 1,
            ));
            to = to - 1;
        }
        match read_int(&v, from, to, false, 0, u32::MAX as i64) {
            Some(n) => {
                z = n as u32;
            },
            None => {},
        }
        if z < 3 {
            z = 3;
        } else if z > 800 {
            z = 800;
        }
    }
    Some((x, y, z))
}

/// The place that a link gives; the middle of the board, at full size, if it
/// gives none.
pub open spec fn place_or_origin(s: Seq<char>) -> (int, int, int) {
    match place_of(s) {
        Some(p) => p,
        None => (0, 0, 100),
    }
}

pub fn preview_place(at: &str) -> (r: (i32, i32, u32))
    ensures
        r.0 == place_or_origin(at@).0,
        r.1 == place_or_origin(at@).1,
        r.2 == place_or_origin(at@).2,
{
    match parse_at(at) {
        Some(p) => p,
        None => (0, 0, 100),
    }
}

/// The tags that describe the place `at` to whoever shows a link to it.
pub open spec fn og_tags(at: Seq<char>, base: Seq<char>) -> Seq<char> {
    let p = place_or_origin(at);
    let img_url = base + "/og/preview?at="@ + at;
    "<meta property=\"og:title\" content=\"WallOfText @ ("@ + dec_int(p.0) + ", "@ + dec_int(p.1)
        + ")\">\n<meta property=\"og:description\" content=\"Collaborative text canvas\">\n<meta property=\"og:image\" content=\""@
        + img_url
        + "\">\n<meta property=\"og:image:width\" content=\"1200\">\n<meta property=\"og:image:height\" content=\"630\">\n<meta property=\"og:type\" content=\"website\">\n<meta name=\"twitter:card\" content=\"summary_large_image\">\n<meta name=\"twitter:image\" content=\""@
        + img_url + "\">"@
}

/// The page `html` with the tags for `at` put before the end of its head.
pub fn inject_og_tags(html: &str, at: &str, base: &str) -> (r: String)
    ensures
        replaced_first(html@, "</head>"@, og_tags(at@, base@) + "\n</head>"@, r@),
{
    let (x, y, _) = preview_place(at);
    let mut img_url = base.to_string();
    img_url.append("/og/preview?at=");
    img_url.append(at);
    let mut tags = "<meta property=\"og:title\" content=\"WallOfText @ (".to_string();
    push_dec_int(&mut tags, x as i64);
    tags.append(", ");
    push_dec_int(&mut tags, y as i64);
    tags.append(
        ")\">\n<meta property=\"og:description\" content=\"Collaborative text canvas\">\n<meta property=\"og:image\" content=\"",
    );
    tags.append(img_url.as_str());
    tags.append(
        "\">\n<meta property=\"og:image:width\" content=\"1200\">\n<meta property=\"og:image:height\" content=\"630\">\n<meta property=\"og:type\" content=\"website\">\n<meta name=\"twitter:card\" content=\"summary_large_image\">\n<meta name=\"twitter:image\" content=\"",
    );
    tags.append(img_url.as_str());
    tags.append("\">");
    tags.append("\n</head>");
    replace_first(html, "</head>", tags.as_str())
}

/// The chunks of `n` columns from `x0` on, in row `y`.
pub open spec fn chunk_row(y: i8, x0: i8, n: nat) -> Seq<ChunkCoords> {
    Seq::new(n, |i: int| ChunkCoords { x: (x0 + i) as i8, y })
}

/// The chunks of `w` columns and `h` rows, row by row.
pub open spec fn chunk_block(x0: i8, y0: i8, w: nat, h: nat) -> Seq<ChunkCoords>
    decreases h,
{
    if h == 0 {
        Seq::empty()
    } else {
        chunk_block(x0, y0, w, (h - 1) as nat) + chunk_row((y0 + h - 1) as i8, x0, w)
    }
}

/// Number of whole numbers from `a` to `b`.
pub open spec fn steps(a: int, b: int) -> nat {
    if a <= b {
        (b - a + 1) as nat
    } else {
        0
    }
}

/// A picture's cells: what stands where, and in what color.
pub type Cells = Map<WorldCoords, (char, Rgb)>;

/// Where a cell that the chunk `chunk` holds stands on the board.
pub open spec fn cell_place(chunk: ChunkCoords, cell: StoredChunkCell) -> WorldCoords {
    WorldCoords {
        x: (chunk.x * CHUNK_W + cell.local.x) as i16,
        y: (chunk.y * CHUNK_H + cell.local.y) as i16,
    }
}

fn place_of_cell(chunk: ChunkCoords, cell: &StoredChunkCell) -> (r: WorldCoords)
    ensures
        r == cell_place(chunk, *cell),
{
    assert(-8192 <= chunk.x * CHUNK_W <= 8192);
    assert(-2048 <= chunk.y * CHUNK_H <= 2048);
    let x: i64 = chunk.x as i64 * CHUNK_W + cell.local.x as i64;
    let y: i64 = chunk.y as i64 * CHUNK_H + cell.local.y as i64;
    WorldCoords { x: x as i16, y: y as i16 }
}

/// `m` with the cells of a chunk.
pub open spec fn with_cells(m: Cells, chunk: ChunkCoords, cells: Seq<StoredChunkCell>) -> Cells
    decreases cells.len(),
{
    if cells.len() == 0 {
        m
    } else {
        let c = cells.last();
        with_cells(m, chunk, cells.drop_last()).insert(cell_place(chunk, c), (c.ch, c.color))
    }
}

/// The cells that stand in `chunks`.
pub open spec fn cells_in(board: Map<Slot, StoredChunkCell>, chunks: Seq<ChunkCoords>) -> Cells
    decreases chunks.len(),
{
    if chunks.len() == 0 {
        Map::empty()
    } else {
        with_cells(
            cells_in(board, chunks.drop_last()),
            chunks.last(),
            chunk_cells(board, chunks.last()),
        )
    }
}

/// The chunk columns, or rows, of length `size` that hold the places within
/// `half` of `center`.
pub fn chunk_span(center: i32, half: i32, size: i32) -> (r: (i8, i8))
    requires
        size > 0,
        i32::MIN <= center - half <= i32::MAX,
        i32::MIN <= center + half <= i32::MAX,
    ensures
        r.0 == ((center - half) / size as int) as i8,
        r.1 == ((center + half) / size as int) as i8,
{
    let lo: i64 = floor_div(center as i64 - half as i64, size as i64);
    let hi: i64 = floor_div(center as i64 + half as i64, size as i64);
    (lo as i8, hi as i8)
}

pub(crate) fn chunk_list(columns: (i8, i8), rows: (i8, i8)) -> (r: Vec<ChunkCoords>)
    ensures
        r@ == chunk_block(
            columns.0,
            rows.0,
            steps(columns.0 as int, columns.1 as int),
            steps(rows.0 as int, rows.1 as int),
        ),
{
    let (x0, x1) = columns;
    let (y0, y1) = rows;
    let ghost w = steps(x0 as int, x1 as int);
    let mut out: Vec<ChunkCoords> = Vec::new();
    let mut y: i16 = y0 as i16;
    while y <= y1 as i16
        invariant
            y0 <= y,
            y <= y1 + 1 || y == y0,
            w == steps(x0 as int, x1 as int),
            out@ == chunk_block(x0, y0, w, (y - y0) as nat),
        decreases y1 + 1 - y,
    {
        let mut x: i16 = x0 as i16;
        let ghost before = out@;
        assert(before + chunk_row(y as i8, x0, 0) =~= before);
        while x <= x1 as i16
            invariant
                y0 <= y <= y1,
                x0 <= x,
                x <= x1 + 1 || x == x0,
                out@ == before + chunk_row(y as i8, x0, (x - x0) as nat),
            decreases x1 + 1 - x,
        {
            out.push(ChunkCoords { x: x as i8, y: y as i8 });
            assert(out@ =~= before + chunk_row(y as i8, x0, (x + 1 - x0) as nat));
            x = x + 1;
        }
        assert(out@ =~= before + chunk_row(y as i8, x0, w));
        y = y + 1;
    }
    out
}

impl World {
    /// The cells that stand in the chunks of some columns and rows.
    pub fn cells_in_chunks(&self, columns: (i8, i8), rows: (i8, i8)) -> (r: CoordMap<
        WorldCoords,
        (char, Rgb),
    >)
        requires
            self.wf(),
        ensures
            r@ == cells_in(
                self@,
                chunk_block(
                    columns.0,
                    rows.0,
                    steps(columns.0 as int, columns.1 as int),
                    steps(rows.0 as int, rows.1 as int),
                ),
            ),
    {
        let chunks = chunk_list(columns, rows);
        let mut out: CoordMap<WorldCoords, (char, Rgb)> = CoordMap::new();
        let mut i: usize = 0;
        assert(chunks@.take(0) =~= Seq::<ChunkCoords>::empty());
        while i < chunks.len()
            invariant
                i <= chunks@.len(),
                self.wf(),
                out@ == cells_in(self@, chunks@.take(i as int)),
            decreases chunks@.len() - i,
        {
            let chunk = chunks[i];
            let cells = self.get_chunk(chunk);
            let ghost before = out@;
            let mut k: usize = 0;
            assert(cells@.take(0) =~= Seq::<StoredChunkCell>::empty());
            while k < cells.len()
                invariant
                    k <= cells@.len(),
                    out@ == with_cells(before, chunk, cells@.take(k as int)),
                decreases cells@.len() - k,
            {
                let c = &cells[k];
                out.insert(place_of_cell(chunk, c), (c.ch, c.color));
                proof {
                    assert(cells@.take(k + 1).drop_last() =~= cells@.take(k as int));
                }
                k = k + 1;
            }
            proof {
                assert(cells@.take(k as int) =~= cells@);
                assert(chunks@.take(i + 1).drop_last() =~= chunks@.take(i as int));
            }
            i = i + 1;
        }
        assert(chunks@.take(i as int) =~= chunks@);
        out
    }
}

#[verifier::external_type_specification]
#[verifier::external_body]
pub struct ExImageError(image::ImageError);

/// The bytes of the PNG file that the `image` crate writes for a picture: width,
/// height, and red, green, blue and opacity of each pixel. Nothing, if it fails.
pub uninterp spec fn png_bytes(width: u32, height: u32, rgba: Seq<u8>) -> Option<Seq<u8>>;

/// Calls `image::ImageBuffer::from_raw` and, on the image, `write_to`.
///
/// Not proved: there is an image just if the bytes are enough for its size;
/// whether writing it succeeds, and what the file is then, is a function of size
/// and bytes.
#[verifier::external_body]
fn write_png(width: u32, height: u32, rgba: Vec<u8>) -> (r: Option<
    Result<Vec<u8>, image::ImageError>,
>)
    ensures
        r is Some <==> rgba@.len() >= 4 * width * height,
        r matches Some(Ok(v)) ==> png_bytes(width, height, rgba@) == Some(v@),
        r matches Some(Err(_)) ==> png_bytes(width, height, rgba@) is None,
{
    let img: image::RgbaImage = image::ImageBuffer::from_raw(width, height, rgba)?;
    let mut png = Vec::new();
    let done = img.write_to(&mut std::io::Cursor::new(&mut png), image::ImageFormat::Png);
    Some(done.map(|_| png))
}

#[derive(Debug, Clone, Copy, PartialEq, Eq, Structural)]
pub enum PngError {
    BadBuffer,
    Encode,
}

/// What an outcome of the encoder means to this library.
pub fn png_outcome(outcome: Option<Result<Vec<u8>, image::ImageError>>) -> (r: Result<
    Vec<u8>,
    PngError,
>)
    ensures
        r == (match outcome {
            None => Err::<Vec<u8>, PngError>(PngError::BadBuffer),
            Some(Ok(v)) => Ok(v),
            Some(Err(_)) => Err(PngError::Encode),
        }),
{
    match outcome {
        None => Err(PngError::BadBuffer),
        Some(Ok(v)) => Ok(v),
        Some(Err(_)) => Err(PngError::Encode),
    }
}

/// The PNG file of a picture.
pub fn encode_png(rgba: Vec<u8>) -> (r: Result<Vec<u8>, PngError>)
    ensures
        match r {
            Ok(v) => rgba@.len() >= OUT_BYTES && png_bytes(OUT_W, OUT_H, rgba@) == Some(v@),
            Err(PngError::BadBuffer) => rgba@.len() < OUT_BYTES,
            Err(PngError::Encode) => rgba@.len() >= OUT_BYTES && png_bytes(
                OUT_W,
                OUT_H,
                rgba@,
            ) is None,
        },
{
    png_outcome(write_png(OUT_W, OUT_H, rgba))
}

} // verus!
