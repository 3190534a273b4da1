//! What holds of the letters: of the atlas that they are drawn from, and of how
//! places and colors are written.

use vstd::prelude::*;

use crate::color::Rgb;
use crate::coords::{WorldCoords, WorldRect};
use crate::font::{
    atlas_height, atlas_width, by_code, doubled_to, glyph_entries, glyph_entry, glyph_place,
    glyphs_fit, glyphs_height, is_atlas_of, law_glyph_reads_back, law_glyphs_stand_apart,
    lemma_sizes_fit, GlyphEntry, RawGlyph,
};
use crate::info::{bounds_text, size_text};
use crate::leading::pair_text;
use crate::logbook::{log_text, word_of_group};
use crate::msg::{CellUpdateEntry, FontAtlasFile};
use crate::revert::RevertOutcome;
use crate::ruler::{is_mark, is_ruler_step, ruler_steps};
use crate::scene::packed_bit;
use crate::screen::{place_shown, sel_text};
use crate::sort::{law_sort_by, orders, sort_by};
use crate::summary::outcome_text;
use crate::text::{dec_int, hex_fixed, hex_value};

verus! {

/// Row `i` of the tables is for the glyph.
pub open spec fn is_row_for(f: FontAtlasFile, g: RawGlyph, i: int) -> bool {
    &&& 0 <= i < f.codepoints@.len()
    &&& f.codepoints@[i] == g.ch as u32
    &&& f.w@[i] == g.w
    &&& f.h@[i] == g.h
    &&& f.cell_off_x@[i] == g.cell_off_x
    &&& f.cell_off_y@[i] == g.cell_off_y
}

proof fn lemma_entry(glyphs: Seq<RawGlyph>, aw: u32, k: int) -> (i: int)
    requires
        0 <= k < glyphs.len(),
    ensures
        0 <= i < glyph_entries(glyphs, aw, glyphs.len()).len(),
        glyph_entries(glyphs, aw, glyphs.len())[i] == glyph_entry(glyphs, aw, k),
{
    broadcast use vstd::seq_lib::group_to_multiset_ensures;

    let le = by_code();
    assert(orders(le)) by {
        assert forall|a: GlyphEntry, b: GlyphEntry| #[trigger] le(a, b) || le(b, a) by {}
    }
    let all = Seq::new(glyphs.len(), |j: int| glyph_entry(glyphs, aw, j));
    let rows = sort_by(all, le);
    law_sort_by(all, le);
    let e = glyph_entry(glyphs, aw, k);
    assert(all[k] == e);
    assert(all.contains(e));
    assert(all.to_multiset().count(e) > 0);
    assert(rows.contains(e));
    choose|i: int| 0 <= i < rows.len() && rows[i] == e
}

proof fn lemma_doubled(p: nat, n: nat)
    requires
        p > 0,
    ensures
        doubled_to(p, n) >= n,
    decreases
            if n > p {
                n - p
            } else {
                0
            },
{
    if p < n {
        lemma_doubled(2 * p, n);
    }
}

/// The atlas shows every glyph: there is a row for it, and where that row says,
/// its pixels are set where the glyph is dark, and not where it is light.
pub proof fn law_atlas_shows_the_glyphs(
    f: FontAtlasFile,
    glyphs: Seq<RawGlyph>,
    target_side: u32,
    cell_w: u32,
    cell_h: u32,
    k: int,
    x: int,
    y: int,
)
    requires
        is_atlas_of(f, glyphs, target_side, cell_w, cell_h),
        atlas_width(target_side) <= 8192,
        glyphs_fit(glyphs, atlas_width(target_side) as u32),
        0 <= k < glyphs.len(),
        glyphs[k].w <= 255,
        glyphs[k].h <= 255,
        -128 <= glyphs[k].cell_off_x <= 127,
        -128 <= glyphs[k].cell_off_y <= 127,
        0 <= x < glyphs[k].w,
        0 <= y < glyphs[k].h,
        atlas_height(glyphs_height(glyphs, atlas_width(target_side) as u32)) <= 65535,
    ensures
        f.cell_w == cell_w as u8,
        f.cell_h == cell_h as u8,
        exists|i: int| #[trigger]
            is_row_for(f, glyphs[k], i) && (packed_bit(
                f.pixels_1bit@,
                (f.atlas_y@[i] + y) * f.atlas_w + f.atlas_x@[i] + x,
            ) <==> glyphs[k].bitmap@[y * glyphs[k].w + x] > 127),
{
    let aw = atlas_width(target_side) as u32;
    let ah = atlas_height(glyphs_height(glyphs, aw));
    let rows = glyph_entries(glyphs, aw, glyphs.len());
    let i = lemma_entry(glyphs, aw, k);
    let p = glyph_place(glyphs, aw, k);
    let e = rows[i];
    assert(f.codepoints@[i] == e.code && f.atlas_x@[i] == e.x && f.atlas_y@[i] == e.y);
    assert(f.w@[i] == e.w && f.h@[i] == e.h && f.cell_off_x@[i] == e.off_x && f.cell_off_y@[i]
        == e.off_y);
    law_glyph_reads_back(glyphs, aw, k, x, y);
    lemma_sizes_fit(glyphs, aw);
    law_glyphs_stand_apart(glyphs, aw);
    let h = glyphs_height(glyphs, aw);
    lemma_doubled(1, if h > 1 {
        h
    } else {
        1
    });
    assert(p.inside(aw as int, h as int));
    assert(p.w == glyphs[k].w && p.h == glyphs[k].h);
    assert(e.x == p.x && e.y == p.y);
    let (ax, ay) = (p.x + x, p.y + y);
    let n = ay * aw + ax;
    assert(n % (aw as int) == ax && n / (aw as int) == ay) by {
        vstd::arithmetic::div_mod::lemma_fundamental_div_mod_converse(n, aw as int, ay, ax);
    }
    assert(0 <= n < aw * ah) by (nonlinear_arith)
        requires
            n == ay * aw + ax,
            0 <= ax < aw,
            0 <= ay < ah,
    ;
    assert(is_row_for(f, glyphs[k], i));
}

/// The editor and the server read the same pixel out of an atlas: the bit of a row
/// and column is that of the place counted row by row.
pub proof fn law_editor_and_server_read_the_same_pixel(packed: Seq<u8>, w: int, ax: int, ay: int)
    requires
        w > 0,
        w % 8 == 0,
        0 <= ax < w,
        0 <= ay,
    ensures
        packed_bit(packed, ay * w + ax) <==> (packed[ay * (w / 8) + ax / 8] >> ((ax % 8) as u8))
            & 1u8 == 1u8,
{
    let s = w / 8;
    assert(ay * w == 8 * (ay * s)) by (nonlinear_arith)
        requires
            w == 8 * s,
    ;
    let n = ay * w + ax;
    assert(n / 8 == ay * s + ax / 8 && n % 8 == ax % 8);
}

proof fn lemma_hex_two(n: u8)
    ensures
        hex_fixed(n as nat, 2).len() == 2,
        hex_value(hex_fixed(n as nat, 2)[0] as u8) == Some(n as int / 16),
        hex_value(hex_fixed(n as nat, 2)[1] as u8) == Some(n as int % 16),
{
    let m = n as nat;
    reveal_with_fuel(hex_fixed, 3);
    assert(hex_fixed(m, 2) =~= seq![
        crate::text::hex_digit((m / 16 % 16) as int),
        crate::text::hex_digit((m % 16) as int),
    ]);
}

/// A color is written as a number sign and two digits each for red, green and
/// blue, in this order.
pub proof fn law_colors_are_written_red_green_blue(c: Rgb)
    ensures
        ({
            let s = c.spec_to_hex();
            &&& s.len() == 7
            &&& s[0] == '#'
            &&& hex_value(s[1] as u8) == Some(c.0 as int / 16)
            &&& hex_value(s[2] as u8) == Some(c.0 as int % 16)
            &&& hex_value(s[3] as u8) == Some(c.1 as int / 16)
            &&& hex_value(s[4] as u8) == Some(c.1 as int % 16)
            &&& hex_value(s[5] as u8) == Some(c.2 as int / 16)
            &&& hex_value(s[6] as u8) == Some(c.2 as int % 16)
        }),
{
    lemma_hex_two(c.0);
    lemma_hex_two(c.1);
    lemma_hex_two(c.2);
    let (r, g, b) = (hex_fixed(c.0 as nat, 2), hex_fixed(c.1 as nat, 2), hex_fixed(c.2 as nat, 2));
    let s = c.spec_to_hex();
    assert(s[1] == r[0] && s[2] == r[1] && s[3] == g[0] && s[4] == g[1] && s[5] == b[0] && s[6]
        == b[1]);
}

/// A place is written with its column before its row; a rectangle with the corner
/// at its start before the one at its end, and its width before its height, both
/// ends counted.
pub proof fn law_places_are_written_column_first(p: WorldCoords, r: WorldRect, o: RevertOutcome)
    ensures
        place_shown(p.x as int, p.y as int) == "("@ + pair_text(p.x as int, p.y as int) + ")"@,
        bounds_text(r) == place_shown(r.a.x as int, r.a.y as int) + "->"@ + place_shown(
            r.b.x as int,
            r.b.y as int,
        ),
        r.a.x <= r.b.x && r.a.y <= r.b.y ==> size_text(r) == dec_int(r.b.x - r.a.x + 1) + "x"@
            + dec_int(r.b.y - r.a.y + 1),
        sel_text(r) == bounds_text(r) + " "@ + dec_int(r.b.x - r.a.x + 1) + "x"@ + dec_int(
            r.b.y - r.a.y + 1,
        ) + "  [Ctrl+P=protect | Ctrl+C=copy]"@,
        o.place() == p ==> stands_first(
            outcome_text(o),
            "  ("@ + pair_text(p.x as int, p.y as int) + "): "@,
        ),
{
    reveal_strlit(",");
    assert(","@ =~= seq![',']);
    assert(place_shown(p.x as int, p.y as int) =~= "("@ + pair_text(p.x as int, p.y as int) + ")"@);
    assert(sel_text(r) =~= bounds_text(r) + " "@ + dec_int(r.b.x - r.a.x + 1) + "x"@ + dec_int(
        r.b.y - r.a.y + 1,
    ) + "  [Ctrl+P=protect | Ctrl+C=copy]"@);
    if o.place() == p {
        let start = "  ("@ + pair_text(p.x as int, p.y as int) + "): "@;
        let t = outcome_text(o);
        assert(t.take(start.len() as int) =~= start);
    }
}

/// The text begins with `start`.
pub open spec fn stands_first(s: Seq<char>, start: Seq<char>) -> bool {
    s.len() >= start.len() && s.take(start.len() as int) == start
}

/// A mark stands at every multiple of the step between the two ends, both ends
/// counted, and nowhere else; at the origin only where it is not left out.
pub proof fn law_marks_stand_at_every_step(q: int, v: int, lo: int, hi: int, step: int, skip: bool)
    requires
        step > 0,
    ensures
        lo <= q * step <= hi && (q * step != 0 || !skip) ==> is_mark(q * step, lo, hi, step, skip),
        is_mark(v, lo, hi, step, skip) ==> lo <= v <= hi && v == (v / step) * step && (skip ==> v
            != 0),
{
    vstd::arithmetic::div_mod::lemma_mod_multiples_basic(q, step);
    vstd::arithmetic::div_mod::lemma_fundamental_div_mod(v, step);
    assert(step * (v / step) == (v / step) * step) by (nonlinear_arith);
}

/// Marks stand a round number of cells apart: at least as many as asked for, as
/// long as that is no more than 2048, and no more than needed.
pub proof fn law_marks_are_round_numbers_apart(min_step: u64, r: u64)
    requires
        is_ruler_step(min_step, r),
    ensures
        r == 1 || r == 2 || r == 5 || r == 10 || r == 20 || r == 50 || r == 100 || r == 200 || r
            == 500 || r == 1000 || r == 2000 || r == 2048,
        min_step <= 2048 ==> min_step <= r,
        min_step <= 1 ==> r == 1,
        100 < min_step <= 200 ==> r == 200,
        min_step > 2000 ==> r == 2048,
{
    let all = ruler_steps();
    assert(all[0] == 1 && all[1] == 2 && all[2] == 5 && all[3] == 10 && all[4] == 20 && all[5] == 50
        && all[6] == 100 && all[7] == 200 && all[8] == 500 && all[9] == 1000 && all[10] == 2000
        && all[11] == 2048);
    assert(all.contains(all[0]) && all.contains(all[7]) && all.contains(all[11]));
    let i = choose|i: int| 0 <= i < all.len() && all[i] == r;
    assert(all[i] == r);
}

/// The log names who wrote: a character by itself, a word as a word, and anything
/// else by how many cells it is.
pub proof fn law_log_names_who_wrote(author: Seq<char>, group: Seq<CellUpdateEntry>)
    requires
        group.len() > 0,
    ensures
        stands_first(log_text(author, group), author),
        group.len() == 1 && group[0].ch is Some ==> log_text(author, group) == author + " '"@ + seq![
            group[0].ch->0,
        ] + "' "@,
        group.len() > 1 && word_of_group(group) is None ==> log_text(author, group) == author
            + " wrote "@ + dec_int(group.len() as int) + " cells "@,
        group.len() > 1 && word_of_group(group) is Some ==> log_text(author, group) == author
            + " \""@ + word_of_group(group)->0 + "\" "@,
{
    let t = log_text(author, group);
    assert(t.take(author.len() as int) =~= author);
}

} // verus!
