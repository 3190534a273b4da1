use walloftext::codec::{pack_file, unpack_file};
use walloftext::color::Rgb;
use walloftext::coords::WorldCoords;
use walloftext::font::{
    atlas_h_for, atlas_w_for, build_atlas, cell_offsets, gray_atlas, scale_up, sort_glyphs,
    write_png, RawGlyph, ShelfPacker,
};
use walloftext::msg::ServerMsg;
use walloftext::paint::atlas_bit;
use walloftext::scene::unpack_pixels;
use walloftext::video::{
    clear_area, frame_delay, frame_pictures, gif_pictures, login_reply, pixel_to_cell, rgb_pixels,
    scale_frame, send_frame, LoginReply, Pixel, PrevCell,
};

fn glyph(ch: char, w: u32, h: u32, ink: u8) -> RawGlyph {
    let mut bitmap = vec![0u8; (w * h) as usize];
    for (i, b) in bitmap.iter_mut().enumerate() {
        if i % 3 != 1 {
            *b = ink;
        }
    }
    RawGlyph { ch, bitmap, w, h, cell_off_x: 1, cell_off_y: -2 }
}

#[test]
fn shelves_are_filled_from_left_to_right() {
    let mut p = ShelfPacker::new(10);
    assert_eq!(p.pack(4, 3), (0, 0));
    assert_eq!(p.pack(6, 2), (4, 0));
    assert_eq!(p.total_height(), 3);
    assert_eq!(p.pack(1, 5), (0, 3));
    assert_eq!(p.total_height(), 8);
}

#[test]
fn packed_rectangles_stand_apart() {
    let sizes = [(4, 3), (6, 2), (7, 5), (3, 5), (1, 1), (10, 2), (2, 9), (9, 1)];
    let mut p = ShelfPacker::new(10);
    let boxes: Vec<(u32, u32, u32, u32)> = sizes
        .iter()
        .map(|(w, h)| {
            let (x, y) = p.pack(*w, *h);
            (x, y, *w, *h)
        })
        .collect();
    for (i, (x, y, w, h)) in boxes.iter().enumerate() {
        assert!(x + w <= 10 && y + h <= p.total_height());
        for (x2, y2, w2, h2) in &boxes[i + 1..] {
            assert!(x + w <= *x2 || x2 + w2 <= *x || y + h <= *y2 || y2 + h2 <= *y);
        }
    }
}

#[test]
fn glyphs_are_ordered_by_height_and_width() {
    let sorted = sort_glyphs(vec![
        glyph('a', 2, 2, 255),
        glyph('b', 3, 5, 255),
        glyph('c', 4, 2, 255),
    ]);
    let order: String = sorted.iter().map(|g| g.ch).collect();
    assert_eq!(order, "bca");
}

#[test]
fn an_atlas_is_a_power_of_two_wide() {
    assert_eq!(atlas_w_for(0), 256);
    assert_eq!(atlas_w_for(257), 512);
    assert_eq!(atlas_w_for(4096), 4096);
    assert_eq!(atlas_w_for(1_000_000), 8192);
}

#[test]
fn glyphs_stand_in_the_middle_of_their_cells() {
    assert_eq!(cell_offsets(8, 16, 14, -2, 5, 10), (1, 6));
    assert_eq!(cell_offsets(8, 16, 14, 0, 11, 20), (-1, 0));
    assert_eq!(cell_offsets(8, 16, 40, 0, 8, 10), (0, 6));
}

#[test]
fn every_glyph_of_an_atlas_reads_back() {
    let glyphs = sort_glyphs(vec![
        glyph('b', 100, 9, 200),
        glyph('a', 90, 7, 128),
        glyph('z', 120, 9, 127),
        glyph('m', 33, 4, 255),
    ]);
    let f = build_atlas(&glyphs, 100, 8, 16);
    assert_eq!((f.atlas_w, f.atlas_h), (256, 16));
    assert_eq!((f.cell_w, f.cell_h), (8, 16));
    assert_eq!(f.codepoints, vec!['a' as u32, 'b' as u32, 'm' as u32, 'z' as u32]);
    assert_eq!(f.cell_off_x, vec![1, 1, 1, 1]);
    assert_eq!(f.cell_off_y, vec![-2, -2, -2, -2]);
    let flat = unpack_pixels(&f);
    for g in &glyphs {
        let i = f.codepoints.iter().position(|c| *c == g.ch as u32).unwrap();
        assert_eq!((f.w[i] as u32, f.h[i] as u32), (g.w, g.h));
        for y in 0..g.h {
            for x in 0..g.w {
                let (ax, ay) = (f.atlas_x[i] as u32 + x, f.atlas_y[i] as u32 + y);
                let ink = g.bitmap[(y * g.w + x) as usize] > 127;
                assert_eq!(atlas_bit(&f, ax as i32, ay as i32), ink);
                assert_eq!(flat[(ay * 256 + ax) as usize] == 255, ink);
            }
        }
    }
}

#[test]
fn a_gray_picture_holds_the_bitmaps() {
    let glyphs = vec![glyph('a', 2, 2, 50), glyph('b', 3, 1, 200)];
    let h = atlas_h_for(&glyphs, 256);
    assert_eq!(h, 2);
    let gray = gray_atlas(&glyphs, 256, h);
    assert_eq!(gray.len(), 512);
    assert_eq!(&gray[0..6], &[50, 0, 200, 0, 200, 0]);
    assert_eq!(&gray[256..260], &[50, 50, 0, 0]);
}

#[test]
fn pictures_are_scaled_up() {
    assert_eq!(scale_up(&vec![1, 2, 3, 4], 2, 2, 2), vec![
        1, 1, 2, 2, 1, 1, 2, 2, 3, 3, 4, 4, 3, 3, 4, 4
    ]);
    assert_eq!(scale_up(&vec![1, 2], 2, 1, 0), vec![1, 2]);
}

#[test]
fn an_atlas_file_is_compressed_and_read_again() {
    let raw: Vec<u8> = (0..5000u32).map(|i| (i % 7) as u8).collect();
    let packed = pack_file(&raw, 19).unwrap();
    assert!(packed.len() < raw.len());
    assert_eq!(unpack_file(&packed).unwrap(), raw);
}

#[test]
fn brightness_picks_a_character() {
    assert_eq!(pixel_to_cell(0), None);
    assert_eq!(pixel_to_cell(19), None);
    assert_eq!(pixel_to_cell(20), Some('░'));
    assert_eq!(pixel_to_cell(89), Some('░'));
    assert_eq!(pixel_to_cell(90), Some('▒'));
    assert_eq!(pixel_to_cell(139), Some('▒'));
    assert_eq!(pixel_to_cell(140), Some('▓'));
    assert_eq!(pixel_to_cell(199), Some('▓'));
    assert_eq!(pixel_to_cell(200), Some('█'));
}

#[test]
fn only_what_changes_is_sent() {
    let mut prev: Vec<PrevCell> = vec![None; 4];
    let px = |v: u8, luma: u32| Pixel { color: Rgb(v, v, v), luma };
    let frame = vec![px(255, 255), px(0, 0), px(100, 100), px(5, 5)];
    let out = send_frame(&mut prev, &frame, 10, 20, 2);
    assert_eq!(out.len(), 2);
    assert_eq!(out[0].pos, WorldCoords { x: 10, y: 20 });
    assert_eq!(out[0].ch, Some('█'));
    assert_eq!(out[1].pos, WorldCoords { x: 10, y: 21 });
    assert_eq!(out[1].ch, Some('▒'));
    assert!(send_frame(&mut prev, &frame, 10, 20, 2).is_empty());
    let dark = vec![px(0, 0); 4];
    let out = send_frame(&mut prev, &dark, 32767, 20, 2);
    assert_eq!(out.len(), 2);
    assert_eq!(out[0].ch, None);
    assert_eq!(prev, vec![None; 4]);
}

#[test]
fn an_area_is_cleared_a_hundred_cells_at_a_time() {
    let batches = clear_area(-3, 7, 15, 15);
    assert_eq!(batches.iter().map(|b| b.len()).collect::<Vec<_>>(), vec![100, 100, 25]);
    assert_eq!(batches[0][0].pos, WorldCoords { x: -3, y: 7 });
    assert_eq!(batches[0][16].pos, WorldCoords { x: -2, y: 8 });
    assert_eq!(batches[2][24].pos, WorldCoords { x: 11, y: 21 });
    assert!(batches.iter().flatten().all(|c| c.ch.is_none() && c.color == Rgb(0, 0, 0)));
    assert!(clear_area(0, 0, 0, 9).is_empty());
}

#[test]
fn frames_are_shown_as_long_as_the_file_says() {
    assert_eq!(frame_delay(40, 1), Some(40_000));
    assert_eq!(frame_delay(100, 3), Some(33_333));
    assert_eq!(frame_delay(0, 1), None);
    assert_eq!(frame_delay(1, 0), None);
}

#[test]
fn answers_to_a_login_are_told_apart() {
    let ok = ServerMsg::AuthOk { username: "ann".to_string(), protected_cells: 0 };
    assert!(matches!(login_reply(ok), LoginReply::LoggedIn(n) if n == "ann"));
    let no = ServerMsg::AuthFail { reason: "bad".to_string() };
    assert!(matches!(login_reply(no), LoginReply::Refused(r) if r == "bad"));
    assert!(matches!(login_reply(ServerMsg::Kicked), LoginReply::Other));
}

#[test]
fn three_bytes_make_a_pixel() {
    assert_eq!(rgb_pixels(&vec![1, 2, 3, 4, 5, 6, 7]), vec![Rgb(1, 2, 3), Rgb(4, 5, 6)]);
}

#[test]
fn a_frame_is_scaled() {
    let black_and_white = vec![0, 0, 0, 255, 255, 255, 255, 255];
    let small = scale_frame(&black_and_white, 2, 1, 1, 1).unwrap();
    assert_eq!(small.len(), 1);
    assert!(small[0].0 > 100 && small[0].0 < 155);
    assert_eq!(small[0].0, small[0].1);
    assert_eq!(small[0].1, small[0].2);
    let large = scale_frame(&black_and_white, 2, 1, 6, 2).unwrap();
    assert_eq!(large.len(), 12);
    assert!(large[0].0 < large[5].0);
}

#[test]
fn a_frame_of_the_same_size_keeps_its_colors() {
    let rgba = vec![10, 20, 30, 0, 40, 50, 60, 255];
    let same = scale_frame(&rgba, 1, 2, 1, 2).unwrap();
    assert_eq!(same, vec![Rgb(10, 20, 30), Rgb(40, 50, 60)]);
}

#[test]
fn a_frame_without_enough_pixels_is_not_scaled() {
    assert_eq!(scale_frame(&vec![1, 2, 3, 4], 2, 2, 1, 1), None);
}

/// A GIF of two frames, two pixels each: the first is shown for 40 ms, and the
/// second as long as one likes.
fn small_gif() -> Vec<u8> {
    let mut gif = b"GIF89a".to_vec();
    gif.extend([2, 0, 1, 0, 0xf1, 0, 0]);
    gif.extend([0, 0, 0, 255, 255, 255, 10, 20, 30, 40, 50, 60]);
    for (delay, codes) in [(4, 0x44), (0, 0xd4)] {
        gif.extend([0x21, 0xf9, 4, 0, delay, 0, 0, 0]);
        gif.extend([0x2c, 0, 0, 0, 0, 2, 0, 1, 0, 0]);
        gif.extend([2, 2, codes, 0x0a, 0]);
    }
    gif.push(0x3b);
    gif
}

#[test]
fn the_pictures_of_a_gif_come_in_order() {
    let pictures = gif_pictures(&small_gif(), 2, 1).unwrap();
    assert_eq!(
        pictures,
        vec![
            (Some(40_000), vec![Rgb(0, 0, 0), Rgb(255, 255, 255)]),
            (None, vec![Rgb(10, 20, 30), Rgb(40, 50, 60)]),
        ]
    );
}

#[test]
fn the_pictures_of_a_gif_are_scaled() {
    let pictures = gif_pictures(&small_gif(), 4, 3).unwrap();
    assert_eq!(pictures.len(), 2);
    assert!(pictures.iter().all(|(_, p)| p.len() == 12));
    assert!(pictures[0].1[0].0 < pictures[0].1[3].0);
    assert!(gif_pictures(&small_gif(), 0, 3).unwrap().iter().all(|(_, p)| p.is_empty()));
}

#[test]
fn what_is_no_gif_has_no_pictures() {
    assert_eq!(gif_pictures(b"no GIF at all", 2, 1), None);
    let gif = small_gif();
    assert_eq!(gif_pictures(&gif[..gif.len() - 4], 2, 1), None);
}

#[test]
fn frames_become_pictures() {
    let frames = vec![(1, 1, 100, 3, vec![10, 20, 30, 255]), (1, 1, 7, 0, vec![1, 2, 3, 4])];
    assert_eq!(
        frame_pictures(&frames, 1, 1),
        vec![(Some(33_333), vec![Rgb(10, 20, 30)]), (None, vec![Rgb(1, 2, 3)])]
    );
}

#[test]
fn a_frame_without_pixels_needs_no_width() {
    let mut prev: Vec<PrevCell> = vec![None];
    assert!(send_frame(&mut prev, &Vec::new(), 0, 0, 0).is_empty());
    assert_eq!(prev, vec![None]);
}

#[test]
fn a_gray_picture_becomes_a_png_file() {
    let file = write_png(&vec![0, 255, 255, 0], 2, 2, 3).unwrap();
    assert_eq!(file[..8], [137, 80, 78, 71, 13, 10, 26, 10]);
    assert_eq!(file[16..24], [0, 0, 0, 6, 0, 0, 0, 6]);
    let unscaled = write_png(&vec![0, 255, 255, 0], 2, 2, 0).unwrap();
    assert_eq!(unscaled[16..24], [0, 0, 0, 2, 0, 0, 0, 2]);
}

#[test]
fn a_picture_without_pixels_is_no_png_file() {
    assert!(write_png(&vec![], 0, 4, 1).is_err());
    assert!(write_png(&vec![], 4, 0, 1).is_err());
}
