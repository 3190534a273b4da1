//! What holds of what is drawn: it is what stands on the board, where it stands.

use vstd::prelude::*;

use crate::chunks::{cell_at, node_at, Nodes, Places};
use crate::color::Rgb;
use crate::coords::{
    law_from_chunk_round_trip, law_visible_chunks_cover, ChunkCoords, ChunkLocalCoords, WorldCoords,
    WorldRect,
};
use crate::model::StoredChunkCell;
use crate::msg::FontAtlasFile;
use crate::paint::lemma_halving_range;
use crate::preview::{cell_place, cells_in, chunk_block, chunk_row, steps, with_cells, Cells};
use crate::reading::{all_in_place, lemma_cell_of_slot, lemma_slot_of_cell};
use crate::scene::{
    all_seen, chunks_of_bounds, dot_at, dots_in, dots_in_row, glyph_cell, glyphs_below, lod_dots_of,
    lod_floor, steps_to, Dot, GlyphCell, GlyphPlace,
};
use crate::serving::{numbered, within};
use crate::typing::{held, is_place};
use crate::world::{cells_below, chunk_cells, Slot};

verus! {

/// The glyph is the one that the font has for the character.
pub open spec fn looks_like(atlas: FontAtlasFile, ch: char, g: GlyphPlace) -> bool {
    exists|i: int|
        {
            &&& 0 <= i < atlas.codepoints@.len()
            &&& #[trigger] atlas.codepoints@[i] == ch as u32
            &&& g.atlas_x == atlas.atlas_x@[i]
            &&& g.atlas_y == atlas.atlas_y@[i]
            &&& g.w == atlas.w@[i]
            &&& g.h == atlas.h@[i]
            &&& g.off_x == atlas.cell_off_x@[i]
            &&& g.off_y == atlas.cell_off_y@[i]
        }
}

/// The characters of the font stand in order, none twice.
pub open spec fn sorted_font(atlas: FontAtlasFile) -> bool {
    forall|i: int, j: int|
        0 <= i < j < atlas.codepoints@.len() ==> #[trigger] atlas.codepoints@[i]
            < #[trigger] atlas.codepoints@[j]
}

/// `g` is drawn in the chunk, at the place and in the color of what is shown
/// there, with the glyph of its character, if the font has one.
pub open spec fn draws_what_is_shown(
    atlas: FontAtlasFile,
    m: Nodes,
    chunk: ChunkCoords,
    g: GlyphCell,
) -> bool {
    let p = WorldCoords { x: g.wx as i16, y: g.wy as i16 };
    let c = cell_at(m, p);
    &&& 64 * chunk.x <= g.wx < 64 * chunk.x + 64
    &&& 16 * chunk.y <= g.wy < 16 * chunk.y + 16
    &&& c is Some
    &&& g.color == c->0.color
    &&& g.glyph is Some ==> looks_like(atlas, c->0.ch, g.glyph->0)
    &&& (exists|i: int|
        0 <= i < atlas.codepoints@.len() && #[trigger] atlas.codepoints@[i] == c->0.ch as u32)
        ==> g.glyph is Some
}

/// The number of the place at which `g` is drawn.
spec fn number_of(chunk: ChunkCoords, g: GlyphCell) -> int {
    (g.wy - 16 * chunk.y) * 64 + (g.wx - 64 * chunk.x)
}

proof fn lemma_glyphs_below(atlas: FontAtlasFile, chunk: ChunkCoords, places: Places, n: nat)
    requires
        places.len() == 1024,
        n <= 1024,
    ensures
        ({
            let r = glyphs_below(atlas, chunk, places, n);
            &&& forall|k: int|
                0 <= k < r.len() ==> {
                    let i = number_of(chunk, #[trigger] r[k]);
                    0 <= i < n && places[i] is Some && r[k] == glyph_cell(
                        atlas,
                        chunk,
                        i,
                        places[i]->0.ch,
                        places[i]->0.color,
                    )
                }
            &&& forall|j: int, k: int|
                0 <= j < k < r.len() ==> number_of(chunk, #[trigger] r[j]) < number_of(
                    chunk,
                    #[trigger] r[k],
                )
            &&& forall|i: int|
                0 <= i < n && (#[trigger] places[i]) is Some ==> r.contains(
                    glyph_cell(atlas, chunk, i, places[i]->0.ch, places[i]->0.color),
                )
        }),
    decreases n,
{
    if n > 0 {
        let i = n - 1;
        lemma_glyphs_below(atlas, chunk, places, i as nat);
        let before = glyphs_below(atlas, chunk, places, i as nat);
        let r = glyphs_below(atlas, chunk, places, n);
        if places[i] is Some {
            let g = glyph_cell(atlas, chunk, i, places[i]->0.ch, places[i]->0.color);
            assert(r == before.push(g));
            assert(number_of(chunk, g) == i);
            assert(r[before.len() as int] == g);
            assert forall|h: int| 0 <= h < n && (#[trigger] places[h]) is Some implies r.contains(
                glyph_cell(atlas, chunk, h, places[h]->0.ch, places[h]->0.color),
            ) by {
                if h < i {
                    let e = glyph_cell(atlas, chunk, h, places[h]->0.ch, places[h]->0.color);
                    assert(before.contains(e));
                    let k = choose|k: int| 0 <= k < before.len() && before[k] == e;
                    assert(r[k] == e);
                }
            }
        }
    }
}

/// What is drawn of a chunk is what it shows: each character that is drawn stands
/// there, in that color, and each that stands there is drawn, once.
pub proof fn law_chunk_is_drawn_as_it_shows(
    atlas: FontAtlasFile,
    m: Nodes,
    chunk: ChunkCoords,
    r: Seq<GlyphCell>,
    p: WorldCoords,
)
    requires
        sorted_font(atlas),
        node_at(m, chunk).full matches Some(f) ==> f.len() == 1024,
        r == (match node_at(m, chunk).full {
            Some(places) => glyphs_below(atlas, chunk, places, 1024),
            None => Seq::empty(),
        }),
    ensures
        forall|k: int| 0 <= k < r.len() ==> draws_what_is_shown(atlas, m, chunk, #[trigger] r[k]),
        forall|j: int, k: int|
            0 <= j < k < r.len() ==> (#[trigger] r[j]).wx != (#[trigger] r[k]).wx || r[j].wy
                != r[k].wy,
        64 * chunk.x <= p.x < 64 * chunk.x + 64 && 16 * chunk.y <= p.y < 16 * chunk.y + 16
            && cell_at(m, p) is Some ==> exists|k: int|
            0 <= k < r.len() && (#[trigger] r[k]).wx == p.x && r[k].wy == p.y,
{
    if let Some(places) = node_at(m, chunk).full {
        lemma_glyphs_below(atlas, chunk, places, 1024);
        lemma_halving_range(atlas.codepoints@);
        assert forall|k: int| 0 <= k < r.len() implies draws_what_is_shown(
            atlas,
            m,
            chunk,
            #[trigger] r[k],
        ) by {
            let g = r[k];
            let i = number_of(chunk, g);
            let local = ChunkLocalCoords { x: (i % 64) as u8, y: (i / 64) as u8 };
            let q = WorldCoords { x: g.wx as i16, y: g.wy as i16 };
            law_from_chunk_round_trip(chunk, local);
            assert(q == WorldCoords::spec_from_chunk(chunk, local));
            assert(cell_at(m, q) == places[i]);
            let c = places[i]->0;
            if g.glyph is Some {
                let h = crate::paint::halving(
                    atlas.codepoints@,
                    c.ch as u32,
                    0,
                    atlas.codepoints@.len() as int,
                )->0;
                assert(atlas.codepoints@[h] == c.ch as u32);
            }
        }
        if 64 * chunk.x <= p.x < 64 * chunk.x + 64 && 16 * chunk.y <= p.y < 16 * chunk.y + 16
            && cell_at(m, p) is Some {
            let local = ChunkLocalCoords {
                x: (p.x - 64 * chunk.x) as u8,
                y: (p.y - 16 * chunk.y) as u8,
            };
            law_from_chunk_round_trip(chunk, local);
            assert(p == WorldCoords::spec_from_chunk(chunk, local));
            let i = local.index();
            let g = glyph_cell(atlas, chunk, i, places[i]->0.ch, places[i]->0.color);
            assert(places[i] is Some);
            assert(r.contains(g));
            let k = choose|k: int| 0 <= k < r.len() && r[k] == g;
            assert(r[k].wx == p.x && r[k].wy == p.y);
        }
    }
}

/// The color that the place shows: that of its character, or else that of the
/// block there, as far as it is known.
pub open spec fn shows_color(m: Nodes, p: WorldCoords, color: Rgb) -> bool {
    let n = node_at(m, p.chunk());
    match cell_at(m, p) {
        Some(c) => color == c.color,
        None => n.lod is Some && (n.lod->0)[p.local().index()] == Some(color),
    }
}

proof fn lemma_dot_shows(m: Nodes, bounds: WorldRect, p: WorldCoords)
    ensures
        dot_at(m, bounds, p.x as int, p.y as int) matches Some(color) ==> shows_color(m, p, color),
        is_place(p) && within(bounds, p) ==> forall|color: Rgb| #[trigger]
            shows_color(m, p, color) ==> dot_at(m, bounds, p.x as int, p.y as int) == Some(color),
{
    if is_place(p) && within(bounds, p) {
        law_visible_chunks_cover(bounds, p);
    }
}

spec fn is_row_dot(m: Nodes, bounds: WorldRect, y: int, x0: int, step: int, d: Dot) -> bool {
    &&& d.pos.y == y
    &&& x0 <= d.pos.x <= 2047
    &&& (d.pos.x - x0) % step == 0
    &&& dot_at(m, bounds, d.pos.x as int, y) == Some(d.color)
}

spec fn is_dot(m: Nodes, bounds: WorldRect, x0: int, y0: int, step: int, d: Dot) -> bool {
    &&& y0 <= d.pos.y <= 2047
    &&& (d.pos.y - y0) % step == 0
    &&& is_row_dot(m, bounds, d.pos.y as int, x0, step, d)
}

#[verifier::spinoff_prover]
proof fn lemma_dots_in_row(
    m: Nodes,
    bounds: WorldRect,
    y: int,
    x0: int,
    step: int,
    n: nat,
)
    requires
        step > 0,
        -2048 <= x0,
        -2048 <= y <= 2047,
        n > 0 ==> x0 + (n - 1) * step <= 2047,
    ensures
        ({
            let r = dots_in_row(m, bounds, y, x0, step, n);
            &&& forall|k: int|
                0 <= k < r.len() ==> is_row_dot(m, bounds, y, x0, step, #[trigger] r[k])
            &&& forall|x: int|
                x0 <= x <= x0 + (n - 1) * step && (x - x0) % step == 0 && (#[trigger] dot_at(
                    m,
                    bounds,
                    x,
                    y,
                )) is Some ==> r.contains(
                    Dot {
                        pos: WorldCoords { x: x as i16, y: y as i16 },
                        color: dot_at(m, bounds, x, y)->0,
                    },
                )
        }),
    decreases n,
{
    if n > 0 {
        let k = n - 1;
        assert(0 <= k * step) by (nonlinear_arith)
            requires
                0 <= k,
                step > 0,
        ;
        if k > 0 {
            assert((k - 1) * step == k * step - step) by (nonlinear_arith);
        }
        lemma_dots_in_row(m, bounds, y, x0, step, k as nat);
        let before = dots_in_row(m, bounds, y, x0, step, k as nat);
        let r = dots_in_row(m, bounds, y, x0, step, n);
        let last = x0 + k * step;
        assert((k * step) % step == 0) by {
            vstd::arithmetic::div_mod::lemma_mod_multiples_basic(k, step);
        }
        assert forall|i: int| 0 <= i < r.len() implies is_row_dot(
            m,
            bounds,
            y,
            x0,
            step,
            #[trigger] r[i],
        ) by {
            if i < before.len() {
                assert(r[i] == before[i]);
            } else {
                assert(r[i].pos.x == last);
            }
        }
        assert forall|x: int|
            x0 <= x <= x0 + (n - 1) * step && (x - x0) % step == 0 && (#[trigger] dot_at(
                m,
                bounds,
                x,
                y,
            )) is Some implies r.contains(
            Dot {
                pos: WorldCoords { x: x as i16, y: y as i16 },
                color: dot_at(m, bounds, x, y)->0,
            },
        ) by {
            let d = Dot {
                pos: WorldCoords { x: x as i16, y: y as i16 },
                color: dot_at(m, bounds, x, y)->0,
            };
            if x == last {
                assert(r[before.len() as int] == d);
            } else {
                lemma_step_below(x - x0, k, step);
                assert(before.contains(d));
                let h = choose|h: int| 0 <= h < before.len() && before[h] == d;
                assert(r[h] == d);
            }
        }
    }
}

/// A multiple of `step` below `k` times it is no more than one less times it.
proof fn lemma_step_below(d: int, k: int, step: int)
    requires
        step > 0,
        0 <= d < k * step,
        d % step == 0,
    ensures
        d <= (k - 1) * step,
{
    vstd::arithmetic::div_mod::lemma_fundamental_div_mod(d, step);
    let q = d / step;
    assert(q <= k - 1) by (nonlinear_arith)
        requires
            step > 0,
            d == step * q,
            d < k * step,
    ;
    assert(d <= (k - 1) * step) by (nonlinear_arith)
        requires
            step > 0,
            d == step * q,
            q <= k - 1,
    ;
}

#[verifier::spinoff_prover]
proof fn lemma_dots_in(
    m: Nodes,
    bounds: WorldRect,
    x0: int,
    y0: int,
    step: int,
    w: nat,
    h: nat,
    p: WorldCoords,
)
    requires
        step > 0,
        -2048 <= x0,
        -2048 <= y0,
        w > 0 ==> x0 + (w - 1) * step <= 2047,
        h > 0 ==> y0 + (h - 1) * step <= 2047,
    ensures
        ({
            let r = dots_in(m, bounds, x0, y0, step, w, h);
            &&& forall|k: int|
                0 <= k < r.len() ==> is_dot(m, bounds, x0, y0, step, #[trigger] r[k])
            &&& x0 <= p.x <= x0 + (w - 1) * step && y0 <= p.y <= y0 + (h - 1) * step && (p.x - x0)
                % step == 0 && (p.y - y0) % step == 0 && dot_at(
                m,
                bounds,
                p.x as int,
                p.y as int,
            ) is Some ==> r.contains(
                Dot { pos: p, color: dot_at(m, bounds, p.x as int, p.y as int)->0 },
            )
        }),
    decreases h,
{
    if h > 0 {
        let k = h - 1;
        assert(0 <= k * step) by (nonlinear_arith)
            requires
                0 <= k,
                step > 0,
        ;
        if k > 0 {
            assert((k - 1) * step == k * step - step) by (nonlinear_arith);
        }
        lemma_dots_in(m, bounds, x0, y0, step, w, k as nat, p);
        let y = y0 + k * step;
        lemma_dots_in_row(m, bounds, y, x0, step, w);
        assert((k * step) % step == 0) by {
            vstd::arithmetic::div_mod::lemma_mod_multiples_basic(k, step);
        }
        let before = dots_in(m, bounds, x0, y0, step, w, k as nat);
        let row = dots_in_row(m, bounds, y, x0, step, w);
        let r = dots_in(m, bounds, x0, y0, step, w, h);
        assert(r == before + row);
        assert forall|i: int| 0 <= i < r.len() implies is_dot(
            m,
            bounds,
            x0,
            y0,
            step,
            #[trigger] r[i],
        ) by {
            if i < before.len() {
                assert(r[i] == before[i]);
            } else {
                assert(r[i] == row[i - before.len()]);
            }
        }
        if x0 <= p.x <= x0 + (w - 1) * step && y0 <= p.y <= y0 + (h - 1) * step && (p.x - x0) % step
            == 0 && (p.y - y0) % step == 0 && dot_at(m, bounds, p.x as int, p.y as int) is Some {
            let d = Dot { pos: p, color: dot_at(m, bounds, p.x as int, p.y as int)->0 };
            if p.y == y {
                assert(row.contains(d));
                let i = choose|i: int| 0 <= i < row.len() && row[i] == d;
                assert(r[before.len() + i] == d);
            } else {
                lemma_step_below(p.y - y0, k, step);
                assert(before.contains(d));
                let i = choose|i: int| 0 <= i < before.len() && before[i] == d;
                assert(r[i] == d);
            }
        }
    }
}

proof fn lemma_steps_reach(a: int, b: int, step: int)
    requires
        step > 0,
    ensures
        steps_to(a, b, step) > 0 ==> a + (steps_to(a, b, step) - 1) * step <= b,
        steps_to(a, b, step) > 0 <==> a <= b,
        forall|v: int|
            a <= v <= b && (v - a) % step == 0 ==> v <= a + (#[trigger] keep(v, steps_to(a, b, step))
                - 1) * step,
{
    if a <= b {
        let q = (b - a) / step;
        vstd::arithmetic::div_mod::lemma_fundamental_div_mod(b - a, step);
        assert(q >= 0 && q * step <= b - a && b - a < (q + 1) * step) by (nonlinear_arith)
            requires
                step > 0,
                b - a >= 0,
                b - a == step * q + (b - a) % step,
                0 <= (b - a) % step < step,
        ;
        assert forall|v: int| a <= v <= b && (v - a) % step == 0 implies v <= a + (#[trigger] keep(
            v,
            steps_to(a, b, step),
        ) - 1) * step by {
            lemma_step_below(v - a, q + 1, step);
        }
    }
}

spec fn keep(v: int, n: nat) -> int {
    n as int
}

/// What is drawn from afar is every `step`-th place that shows a color, from the
/// corner of the view on: each dot has the color that its place shows, and each
/// such place in view has its dot.
pub proof fn law_dots_show_the_board(m: Nodes, bounds: WorldRect, step: int, p: WorldCoords, color: Rgb)
    requires
        step > 0,
    ensures
        ({
            let r = lod_dots_of(m, bounds, step);
            let (x0, y0) = (held(bounds.a.x as int / step * step), held(bounds.a.y as int / step * step));
            let (x1, y1) = (held(bounds.b.x as int / step * step), held(bounds.b.y as int / step * step));
            &&& forall|k: int|
                0 <= k < r.len() ==> {
                    let d = #[trigger] r[k];
                    &&& is_place(d.pos)
                    &&& x0 <= d.pos.x && (d.pos.x - x0) % step == 0
                    &&& y0 <= d.pos.y && (d.pos.y - y0) % step == 0
                    &&& shows_color(m, d.pos, d.color)
                }
            &&& is_place(p) && within(bounds, p) && x0 <= p.x <= x1 && y0 <= p.y <= y1 && (p.x - x0)
                % step == 0 && (p.y - y0) % step == 0 && shows_color(m, p, color) ==> r.contains(
                Dot { pos: p, color },
            )
        }),
{
    let r = lod_dots_of(m, bounds, step);
    let (x0, y0) = (lod_floor(bounds.a.x as int, step), lod_floor(bounds.a.y as int, step));
    let (x1, y1) = (lod_floor(bounds.b.x as int, step), lod_floor(bounds.b.y as int, step));
    let (w, h) = (steps_to(x0, x1, step), steps_to(y0, y1, step));
    lemma_steps_reach(x0, x1, step);
    lemma_steps_reach(y0, y1, step);
    lemma_dots_in(m, bounds, x0, y0, step, w, h, p);
    lemma_dot_shows(m, bounds, p);
    assert(keep(p.x as int, w) == w && keep(p.y as int, h) == h);
    assert forall|k: int| 0 <= k < r.len() implies {
        let d = #[trigger] r[k];
        &&& is_place(d.pos)
        &&& x0 <= d.pos.x && (d.pos.x - x0) % step == 0
        &&& y0 <= d.pos.y && (d.pos.y - y0) % step == 0
        &&& shows_color(m, d.pos, d.color)
    } by {
        lemma_dot_shows(m, bounds, r[k].pos);
    }
}

proof fn lemma_block(x0: i8, y0: i8, w: nat, h: nat, c: ChunkCoords)
    requires
        x0 + w <= 128,
        y0 + h <= 128,
    ensures
        chunk_block(x0, y0, w, h).contains(c) <==> x0 <= c.x < x0 + w && y0 <= c.y < y0 + h,
    decreases h,
{
    let all = chunk_block(x0, y0, w, h);
    if h > 0 {
        lemma_block(x0, y0, w, (h - 1) as nat, c);
        let before = chunk_block(x0, y0, w, (h - 1) as nat);
        let row = chunk_row((y0 + h - 1) as i8, x0, w);
        assert(all == before + row);
        if all.contains(c) {
            let i = choose|i: int| 0 <= i < all.len() && all[i] == c;
            if i < before.len() {
                assert(before[i] == c);
                assert(before.contains(c));
            } else {
                assert(row[i - before.len()] == c);
            }
        }
        if x0 <= c.x < x0 + w && y0 <= c.y < y0 + h {
            if c.y < y0 + h - 1 {
                assert(before.contains(c));
                let i = choose|i: int| 0 <= i < before.len() && before[i] == c;
                assert(all[i] == c);
            } else {
                assert(row[c.x - x0] == c);
                assert(all[before.len() + c.x - x0] == c);
            }
        }
    }
}

/// The chunks of which the characters are drawn are those that reach into the
/// view: one that holds a place in view is among them, and one that lies beside
/// the view is not.
pub proof fn law_chunks_in_view_are_drawn(bounds: WorldRect, p: WorldCoords, c: ChunkCoords)
    requires
        is_place(bounds.a),
        is_place(bounds.b),
    ensures
        within(bounds, p) ==> chunks_of_bounds(bounds).contains(p.chunk()),
        chunks_of_bounds(bounds).contains(c) ==> 64 * c.x <= bounds.b.x && bounds.a.x < 64 * c.x + 64
            && 16 * c.y <= bounds.b.y && bounds.a.y < 16 * c.y + 16,
{
    let (a, b) = (bounds.a.chunk(), bounds.b.chunk());
    let (w, h) = (steps(a.x as int, b.x as int), steps(a.y as int, b.y as int));
    lemma_block(a.x, a.y, w, h, p.chunk());
    lemma_block(a.x, a.y, w, h, c);
}

/// A chunk that is drawn is remembered to have been; the others are not touched,
/// nor is what any of them shows.
pub proof fn law_drawn_chunks_are_remembered(
    m: Nodes,
    chunks: Seq<ChunkCoords>,
    now: u64,
    c: ChunkCoords,
)
    ensures
        all_seen(m, chunks, now).contains_key(c) == m.contains_key(c),
        m.contains_key(c) && chunks.contains(c) ==> all_seen(m, chunks, now)[c].last_seen == now,
        m.contains_key(c) && !chunks.contains(c) ==> all_seen(m, chunks, now)[c] == m[c],
        m.contains_key(c) ==> all_seen(m, chunks, now)[c].full == m[c].full && all_seen(
            m,
            chunks,
            now,
        )[c].lod == m[c].lod,
    decreases chunks.len(),
{
    if chunks.len() > 0 {
        let rest = chunks.drop_last();
        law_drawn_chunks_are_remembered(m, rest, now, c);
        law_drawn_chunks_are_remembered(m, rest, now, chunks.last());
        assert(chunks.contains(c) <==> rest.contains(c) || c == chunks.last()) by {
            assert(chunks[chunks.len() - 1] == chunks.last());
            if rest.contains(c) {
                let i = choose|i: int| 0 <= i < rest.len() && rest[i] == c;
                assert(chunks[i] == c);
            }
            if chunks.contains(c) && c != chunks.last() {
                let i = choose|i: int| 0 <= i < chunks.len() && chunks[i] == c;
                assert(rest[i] == c);
            }
        }
    }
}

spec fn comes_from(chunk: ChunkCoords, cells: Seq<StoredChunkCell>, p: WorldCoords, i: int) -> bool {
    0 <= i < cells.len() && cell_place(chunk, cells[i]) == p
}

proof fn lemma_with_cells(m: Cells, chunk: ChunkCoords, cells: Seq<StoredChunkCell>, p: WorldCoords)
    ensures
        ({
            let r = with_cells(m, chunk, cells);
            if exists|i: int| comes_from(chunk, cells, p, i) {
                &&& r.contains_key(p)
                &&& exists|i: int|
                    comes_from(chunk, cells, p, i) && r[p] == (cells[i].ch, cells[i].color)
            } else {
                r.contains_key(p) == m.contains_key(p) && r[p] == m[p]
            }
        }),
    decreases cells.len(),
{
    if cells.len() > 0 {
        let rest = cells.drop_last();
        let n = cells.len() - 1;
        lemma_with_cells(m, chunk, rest, p);
        let r = with_cells(m, chunk, cells);
        if cell_place(chunk, cells[n]) == p {
            assert(comes_from(chunk, cells, p, n));
        } else if exists|i: int| comes_from(chunk, rest, p, i) {
            let i = choose|i: int|
                comes_from(chunk, rest, p, i) && with_cells(m, chunk, rest)[p] == (
                    rest[i].ch,
                    rest[i].color,
                );
            assert(comes_from(chunk, cells, p, i));
        } else {
            assert forall|i: int| !comes_from(chunk, cells, p, i) by {
                if comes_from(chunk, cells, p, i) {
                    assert(i < n);
                    assert(comes_from(chunk, rest, p, i));
                }
            }
        }
    }
}

proof fn lemma_cells_in(
    board: Map<Slot, StoredChunkCell>,
    chunks: Seq<ChunkCoords>,
    p: WorldCoords,
    c: ChunkCoords,
    k: int,
)
    requires
        all_in_place(board),
        numbered(p, c, k),
    ensures
        cells_in(board, chunks).contains_key(p) <==> chunks.contains(c) && board.contains_key((c, k)),
        cells_in(board, chunks).contains_key(p) ==> cells_in(board, chunks)[p] == (
            board[(c, k)].ch,
            board[(c, k)].color,
        ),
    decreases chunks.len(),
{
    if chunks.len() > 0 {
        let rest = chunks.drop_last();
        let last = chunks.last();
        lemma_cells_in(board, rest, p, c, k);
        let before = cells_in(board, rest);
        let cells = chunk_cells(board, last);
        lemma_with_cells(before, last, cells, p);
        assert(chunks.contains(c) <==> rest.contains(c) || c == last) by {
            assert(chunks[chunks.len() - 1] == last);
            if rest.contains(c) {
                let i = choose|i: int| 0 <= i < rest.len() && rest[i] == c;
                assert(chunks[i] == c);
            }
            if chunks.contains(c) && c != last {
                let i = choose|i: int| 0 <= i < chunks.len() && chunks[i] == c;
                assert(rest[i] == c);
            }
        }
        assert forall|i: int| comes_from(last, cells, p, i) implies last == c && board.contains_key(
            (c, k),
        ) && cells[i] == board[(c, k)] by {
            let h = lemma_slot_of_cell(board, last, 1024, i);
            let local = board[(last, h)].local;
            assert(h % 64 == local.x && h / 64 == local.y);
            assert(p.x == 64 * last.x + h % 64 && p.y == 16 * last.y + h / 64);
            assert(last.x == c.x && h % 64 == k % 64);
            assert(last.y == c.y && h / 64 == k / 64);
        }
        if last == c && board.contains_key((c, k)) {
            lemma_cell_of_slot(board, c, 1024, k);
            let i = cells_below(board, c, k as nat).len() as int;
            let local = board[(c, k)].local;
            assert(k % 64 == local.x && k / 64 == local.y);
            assert(comes_from(last, cells, p, i));
        }
    }
}

/// The cells that a picture is made of are those of the board in the chunk columns
/// and rows asked for, each at its place, with its character and its color.
pub proof fn law_picture_is_of_the_board(
    board: Map<Slot, StoredChunkCell>,
    columns: (i8, i8),
    rows: (i8, i8),
    r: Cells,
    p: WorldCoords,
    c: ChunkCoords,
    k: int,
)
    requires
        all_in_place(board),
        numbered(p, c, k),
        r == cells_in(
            board,
            chunk_block(
                columns.0,
                rows.0,
                steps(columns.0 as int, columns.1 as int),
                steps(rows.0 as int, rows.1 as int),
            ),
        ),
    ensures
        r.contains_key(p) <==> columns.0 <= c.x <= columns.1 && rows.0 <= c.y <= rows.1
            && board.contains_key((c, k)),
        r.contains_key(p) ==> r[p].0 == board[(c, k)].ch && r[p].1 == board[(c, k)].color,
{
    let (w, h) = (steps(columns.0 as int, columns.1 as int), steps(rows.0 as int, rows.1 as int));
    let chunks = chunk_block(columns.0, rows.0, w, h);
    lemma_cells_in(board, chunks, p, c, k);
    lemma_block(columns.0, rows.0, w, h, c);
}

} // verus!
