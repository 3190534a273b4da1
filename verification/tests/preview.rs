use walloftext::color::Rgb;
use walloftext::coords::WorldCoords;
use walloftext::font::{build_atlas, RawGlyph};
use walloftext::model::StoredChunkCell;
use walloftext::paint::{div255, find_code, make_blend_table, render_preview, CellBox};
use walloftext::preview::{
    chunk_span, encode_png, inject_og_tags, parse_at, png_outcome, preview_place, PngError,
};
use walloftext::state::AppState;
use walloftext::table::CoordMap;

const W: usize = 1200;
const H: usize = 630;

fn pixel(buf: &[u8], x: usize, y: usize) -> [u8; 3] {
    let i = (y * W + x) * 4;
    [buf[i], buf[i + 1], buf[i + 2]]
}

#[test]
fn places_to_preview_are_read() {
    assert_eq!(parse_at("10,-20,150%"), Some((10, -20, 150)));
    assert_eq!(parse_at("10,-20,150"), Some((10, -20, 150)));
    assert_eq!(parse_at("10"), None);
    assert_eq!(parse_at("a,b,c"), None);
    let (x, y, _) = preview_place("nonsense");
    assert_eq!((x, y), (0, 0));
}

#[test]
fn a_page_tells_of_its_preview() {
    let page = "<html><head></head><body></body></html>";
    let out = inject_og_tags(page, "1,2,100%", "https://a.b");
    assert!(out.contains("og:image"));
    assert!(out.contains("https://a.b"));
    assert!(out.contains("1,2,100%"));
    assert!(out.ends_with("<body></body></html>"));
    assert!(out.starts_with("<html><head>"));
}

#[test]
fn the_chunks_around_a_place_are_those_in_view() {
    let (lo, hi) = chunk_span(0, 100, 64);
    assert!(lo <= -2 && hi >= 1);
}

#[test]
fn division_by_255_is_exact() {
    for a in [0u32, 1, 7, 128, 254, 255] {
        for b in [0u32, 1, 100, 255] {
            assert_eq!(div255(a * b) as u32, a * b / 255);
        }
    }
}

#[test]
fn blending_goes_from_the_background_to_the_color() {
    let t = make_blend_table(255, 0, 100);
    assert_eq!(t[255], [255, 0, 100]);
    assert_eq!(t[0], [0x0C, 0x0C, 0x0C]);
}

#[test]
fn codes_are_found_by_halving() {
    let codes = vec![3, 8, 20, 21, 90];
    for (i, c) in codes.iter().enumerate() {
        assert_eq!(find_code(&codes, *c), Some(i));
    }
    assert_eq!(find_code(&codes, 4), None);
    assert_eq!(find_code(&Vec::new(), 4), None);
}

#[test]
fn a_preview_shows_the_cells_in_place() {
    let glyph = RawGlyph {
        ch: 'x',
        bitmap: vec![255; 8],
        w: 4,
        h: 2,
        cell_off_x: 0,
        cell_off_y: 0,
    };
    let atlas = build_atlas(&vec![glyph], 1, 4, 2);
    let mut cells: CoordMap<WorldCoords, (char, Rgb)> = CoordMap::new();
    cells.insert(WorldCoords { x: 3, y: 5 }, ('x', Rgb(200, 100, 50)));
    let project = |p: WorldCoords| CellBox {
        px: p.x as i32 * 10,
        py: p.y as i32 * 20,
        next_px: p.x as i32 * 10 + 10,
        next_py: p.y as i32 * 20 + 20,
    };
    let coverage = |_: usize, w: i32, h: i32| vec![255u8; (w.max(0) * h.max(0)) as usize];
    let out = render_preview(&atlas, &cells, true, 1, &project, &coverage);
    assert_eq!(out.len(), W * H * 4);
    assert_eq!(pixel(&out, 30, 100), [200, 100, 50]);
    assert_eq!(pixel(&out, 39, 119), [200, 100, 50]);
    assert_eq!(pixel(&out, 40, 100), [0x0C, 0x0C, 0x0C]);
    assert_eq!(pixel(&out, 0, 0), [0x0C, 0x0C, 0x0C]);
    let flat = render_preview(&atlas, &cells, false, 1, &project, &coverage);
    assert_eq!(pixel(&flat, 35, 110), [200, 100, 50]);
}

#[test]
fn a_picture_is_written_as_png() {
    let png = encode_png(vec![7; W * H * 4]).unwrap();
    assert_eq!(&png[1..4], b"PNG");
    assert!(matches!(encode_png(vec![1, 2, 3]), Err(PngError::BadBuffer)));
    assert!(matches!(png_outcome(None), Err(PngError::BadBuffer)));
    assert_eq!(png_outcome(Some(Ok(vec![1]))).unwrap(), vec![1]);
}

#[test]
fn the_cells_of_some_chunks_are_gathered() {
    let mut state = AppState::new();
    let p = WorldCoords { x: 70, y: -3 };
    let cell = StoredChunkCell {
        local: p.to_chunk().1,
        ch: 'g',
        color: Rgb(4, 5, 6),
        author_id: 0,
        ts: 0,
    };
    state.apply_action_batch(0, vec![(p, Some(cell))], 1);
    let m = state.world.cells_in_chunks((1, 1), (-1, -1));
    assert_eq!(m.get(&p), Some(&('g', Rgb(4, 5, 6))));
    let none = state.world.cells_in_chunks((0, 0), (0, 0));
    assert!(none.keys().is_empty());
}
