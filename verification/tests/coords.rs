use walloftext::color::Rgb;
use walloftext::coords::{
    clamp_coord, ChunkCoords, ChunkLocalCoords, WorldCoords, WorldRect, NUM_SHARDS,
};

fn at(x: i16, y: i16) -> WorldCoords {
    WorldCoords { x, y }
}

#[test]
fn coordinates_are_moved_onto_the_board() {
    assert_eq!(clamp_coord(0), 0);
    assert_eq!(clamp_coord(2048), 2047);
    assert_eq!(clamp_coord(-2048), -2048);
    assert_eq!(clamp_coord(i64::MIN), -2048);
    assert_eq!(clamp_coord(i64::MAX), 2047);
    assert_eq!(WorldCoords::from_i64(-9000, 9000), at(-2048, 2047));
    assert_eq!(at(-3000, 3000).clamped(), at(-2048, 2047));
    assert_eq!(at(2040, 0).offset(100, -1), at(2047, -1));
}

#[test]
fn a_cell_is_named_by_its_chunk_and_place() {
    let (chunk, local) = at(65, 17).to_chunk();
    assert_eq!(chunk, ChunkCoords { x: 1, y: 1 });
    assert_eq!(local, ChunkLocalCoords { x: 1, y: 1 });
    let (chunk, local) = at(-1, -1).to_chunk();
    assert_eq!(chunk, ChunkCoords { x: -1, y: -1 });
    assert_eq!(local, ChunkLocalCoords { x: 63, y: 15 });
    assert_eq!(local.to_index(), 15 * 64 + 63);
}

#[test]
fn chunk_and_place_name_the_cell_again() {
    let mut y: i16 = -2048;
    while y <= 2047 {
        let mut x: i16 = -2048;
        while x <= 2047 {
            let (chunk, local) = at(x, y).to_chunk();
            assert_eq!(WorldCoords::from_chunk(chunk, local), at(x, y));
            x += 89;
        }
        y += 113;
    }
}

#[test]
fn shards_are_within_bounds() {
    for x in -32i8..32 {
        for y in -128i8..=127 {
            assert!(ChunkCoords { x, y }.shard_idx() < NUM_SHARDS);
        }
    }
    assert_eq!(ChunkCoords { x: 0, y: 0 }.shard_idx(), 0);
}

#[test]
fn rectangles_measure_and_contain() {
    let r = WorldRect::from_corners(at(5, -2), at(1, 3));
    assert_eq!(r.a, at(1, -2));
    assert_eq!(r.b, at(5, 3));
    assert_eq!(r.width(), 5);
    assert_eq!(r.height(), 6);
    assert_eq!(r.area(), 30);
    assert!(r.contains(at(5, 3)));
    assert!(!r.contains(at(6, 3)));
}

#[test]
fn the_area_counts_the_cells() {
    for (a, b, area) in [
        (at(-1, 2), at(2, 4), 12),
        (at(3, 3), at(3, 3), 1),
        (at(3, 3), at(2, 5), 0),
        (at(3, 3), at(5, 2), 0),
        (at(3, 3), at(2, 2), 0),
    ] {
        let r = WorldRect::new(a, b);
        assert_eq!(r.area(), area);
        let cells = (-8..8i16).flat_map(|y| (-8..8i16).map(move |x| at(x, y)));
        assert_eq!(cells.filter(|c| r.contains(*c)).count() as u64, area);
    }
    let all = WorldRect::new(at(i16::MIN, i16::MIN), at(i16::MAX, i16::MAX));
    assert_eq!(all.area(), 0x1_0000_0000);
}

#[test]
fn visible_chunks_reach_one_cell_further() {
    let r = WorldRect::new(at(0, 0), at(127, 31));
    for p in [at(0, 0), at(127, 31), at(64, 16)] {
        let c = ChunkCoords::from_world(p);
        assert!(r.visible_chunk_columns().contains(&(c.x as i64)));
        assert!(r.visible_chunk_rows().contains(&(c.y as i64)));
    }
    let (lo, hi) = r.column_span();
    assert_eq!(r.visible_chunk_columns(), lo..=hi);
    let (lo, hi) = r.row_span();
    assert_eq!(r.visible_chunk_rows(), lo..=hi);
}

#[test]
fn colors_are_written_and_read_in_hexadecimal() {
    assert_eq!(Rgb(0, 255, 65).to_hex(), "#00ff41");
    assert_eq!(Rgb::from_hex("#0a141e"), Rgb(10, 20, 30));
    assert_eq!(Rgb::from_hex("ABCDEF"), Rgb(0xab, 0xcd, 0xef));
    assert_eq!(Rgb::from_hex("#zzzzzz"), Rgb(0, 255, 65));
    for c in [Rgb(0, 0, 0), Rgb(1, 2, 3), Rgb(255, 128, 16)] {
        assert_eq!(Rgb::from_hex(&c.to_hex()), c);
    }
}
