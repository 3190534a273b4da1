//! What holds of texts that lead to a place: in addresses, in what is typed to go
//! somewhere, and in what is written on the board.

use vstd::prelude::*;

use crate::admin::region_text;
use crate::chunks::{cell_at, Nodes};
use crate::coords::WorldCoords;
use crate::link::{cell_in_row, coord_link, link_at, run, word_in_row, LinkView};
use crate::nav::{
    goto_of, lacks, lemma_dec_int, lemma_place_parts, lemma_split_join, lemma_split_whole,
    place_text,
};
use crate::parse::{int_text, split, stands_at};
use crate::preview::{place_of, place_or_origin, trim_percent};
use crate::text::{dec_int, is_space, trim, trim_end, trim_start};
use crate::typing::held;

verus! {

/// A number that is written down reads as that number.
pub proof fn law_numbers_read_back(n: int)
    ensures
        int_text(dec_int(n), true) == Some(n),
        n >= 0 ==> int_text(dec_int(n), false) == Some(n),
{
    lemma_dec_int(n);
}

/// Two numbers with a comma between them.
pub open spec fn pair_text(x: int, y: int) -> Seq<char> {
    dec_int(x) + seq![','] + dec_int(y)
}

proof fn lemma_pair(x: int, y: int)
    ensures
        split(pair_text(x, y), ',') == seq![dec_int(x), dec_int(y)],
        int_text(dec_int(x), true) == Some(x),
        int_text(dec_int(y), true) == Some(y),
{
    let (a, b) = (dec_int(x), dec_int(y));
    lemma_dec_int(x);
    lemma_dec_int(y);
    assert(pair_text(x, y) =~= a.push(',') + b);
    lemma_split_join(a, b, ',');
    lemma_split_whole(a, ',');
    lemma_split_whole(b, ',');
    assert(seq![a] + seq![b] =~= seq![a, b]);
}

/// Who asks to go to a place goes there, or to the place of the board nearest to
/// it.
pub proof fn law_goto_leads_to_the_place(x: i64, y: i64)
    ensures
        goto_of(pair_text(x as int, y as int)) is Some,
        goto_of(pair_text(x as int, y as int))->0.x == held(x as int),
        goto_of(pair_text(x as int, y as int))->0.y == held(y as int),
{
    lemma_pair(x as int, y as int);
}

/// A link to a place is for that place, at the zoom it gives, but no less than 3
/// and no more than 800 percent; at full size, if it gives none.
pub proof fn law_link_gives_place_and_zoom(x: i32, y: i32, z: u32)
    ensures
        place_of(pair_text(x as int, y as int)) == Some((x as int, y as int, 100int)),
        place_of(place_text(x as int, y as int, z as int)) == Some(
            (
                x as int,
                y as int,
                if z < 3 {
                    3
                } else if z > 800 {
                    800
                } else {
                    z as int
                },
            ),
        ),
        place_or_origin(Seq::empty()) == (0int, 0int, 100int),
{
    lemma_pair(x as int, y as int);
    let t = dec_int(z as int);
    lemma_place_parts(x as int, y as int, z as int);
    lemma_dec_int(z as int);
    assert(t.last() == t[t.len() - 1]);
    assert(trim_percent(t) == t);
    assert(lacks(Seq::<char>::empty(), ','));
    lemma_split_whole(Seq::empty(), ',');
}

/// White space at either end does not count, and what is left has none there.
pub proof fn law_trimming_takes_the_ends_off(s: Seq<char>)
    ensures
        exists|i: int, j: int|
            {
                &&& 0 <= i <= j <= s.len()
                &&& trim(s) == #[trigger] s.subrange(i, j)
                &&& forall|k: int| 0 <= k < s.len() && (k < i || k >= j) ==> is_space(#[trigger] s[k])
            },
        trim(s).len() > 0 ==> !is_space(trim(s)[0]) && !is_space(trim(s).last()),
{
    let i = lemma_trim_start(s);
    let t = trim_start(s);
    let n = lemma_trim_end(t);
    let r = trim(s);
    assert(r =~= s.subrange(i, i + n));
    assert forall|k: int| 0 <= k < s.len() && (k < i || k >= i + n) implies is_space(
        #[trigger] s[k],
    ) by {
        if k >= i {
            assert(t[k - i] == s[k]);
        }
    }
    if r.len() > 0 {
        assert(r[0] == t[0]);
    }
}

proof fn lemma_trim_start(s: Seq<char>) -> (i: int)
    ensures
        0 <= i <= s.len(),
        trim_start(s) == s.skip(i),
        forall|k: int| 0 <= k < i ==> is_space(#[trigger] s[k]),
        i < s.len() ==> !is_space(s[i]),
    decreases s.len(),
{
    if s.len() > 0 && is_space(s[0]) {
        let d = s.drop_first();
        let j = lemma_trim_start(d);
        assert(d.skip(j) =~= s.skip(j + 1));
        assert forall|k: int| 0 <= k < j + 1 implies is_space(#[trigger] s[k]) by {
            if k > 0 {
                assert(d[k - 1] == s[k]);
            }
        }
        j + 1
    } else {
        assert(s.skip(0) =~= s);
        0
    }
}

proof fn lemma_trim_end(s: Seq<char>) -> (n: int)
    ensures
        0 <= n <= s.len(),
        trim_end(s) == s.take(n),
        forall|k: int| n <= k < s.len() ==> is_space(#[trigger] s[k]),
        n > 0 ==> !is_space(s[n - 1]),
    decreases s.len(),
{
    if s.len() > 0 && is_space(s.last()) {
        let d = s.drop_last();
        let n = lemma_trim_end(d);
        assert(d.take(n) =~= s.take(n));
        assert forall|k: int| n <= k < s.len() implies is_space(#[trigger] s[k]) by {
            if k < d.len() {
                assert(d[k] == s[k]);
            }
        }
        n
    } else {
        assert(s.take(s.len() as int) =~= s);
        s.len() as int
    }
}

proof fn lemma_trim_number(n: int)
    ensures
        trim(dec_int(n)) == dec_int(n),
{
    let t = dec_int(n);
    lemma_dec_int(n);
    assert(t.last() == t[t.len() - 1]);
    assert(!is_space(t[0]));
    assert(!is_space(t[t.len() - 1]));
}

/// Four numbers name the region from the one corner to the other, each brought
/// onto the board.
pub proof fn law_four_numbers_name_a_region(x0: i64, y0: i64, x1: i64, y1: i64)
    ensures
        ({
            let s = pair_text(x0 as int, y0 as int) + seq![','] + pair_text(x1 as int, y1 as int);
            let r = region_text(s);
            &&& r is Some
            &&& r->0.a.x == held(x0 as int)
            &&& r->0.a.y == held(y0 as int)
            &&& r->0.b.x == held(x1 as int)
            &&& r->0.b.y == held(y1 as int)
        }),
{
    let (a, b) = (pair_text(x0 as int, y0 as int), pair_text(x1 as int, y1 as int));
    let s = a + seq![','] + b;
    lemma_pair(x0 as int, y0 as int);
    lemma_pair(x1 as int, y1 as int);
    assert(s =~= a.push(',') + b);
    lemma_split_join(a, b, ',');
    lemma_trim_number(x0 as int);
    lemma_trim_number(y0 as int);
    lemma_trim_number(x1 as int);
    lemma_trim_number(y1 as int);
    let parts = split(s, ',');
    assert(parts =~= seq![
        dec_int(x0 as int),
        dec_int(y0 as int),
        dec_int(x1 as int),
        dec_int(y1 as int),
    ]);
}

/// A word of a number sign and two numbers leads to that place, if there is one on
/// the board; else it leads nowhere.
pub proof fn law_number_sign_leads_to_the_place(x: int, y: int)
    ensures
        ({
            let word = seq!['#'] + pair_text(x, y);
            &&& -2048 <= x <= 2047 && -2048 <= y <= 2047 ==> coord_link(word) is Some && coord_link(
                word,
            )->0.x == x && coord_link(word)->0.y == y
            &&& !(-2048 <= x <= 2047 && -2048 <= y <= 2047) ==> coord_link(word) is None
        }),
{
    let word = seq!['#'] + pair_text(x, y);
    lemma_pair(x, y);
    assert(word.drop_first() =~= pair_text(x, y));
}

proof fn lemma_word(m: Nodes, y: i16, a: int, n: nat)
    requires
        forall|x: int| a <= x < a + n ==> #[trigger] cell_in_row(m, y, x) is Some,
    ensures
        word_in_row(m, y, a, n).len() == n,
        forall|i: int|
            0 <= i < n ==> #[trigger] word_in_row(m, y, a, n)[i] == cell_in_row(m, y, a + i)->0.ch,
    decreases n,
{
    if n > 0 {
        lemma_word(m, y, a, (n - 1) as nat);
        assert(cell_in_row(m, y, a + n - 1) is Some);
    }
}

proof fn lemma_run(m: Nodes, y: i16, x: int, dx: int, limit: nat)
    ensures
        run(m, y, x, dx, limit) <= limit,
        run(m, y, x, dx, limit) < limit ==> cell_in_row(
            m,
            y,
            x + (run(m, y, x, dx, limit) + 1) * dx,
        ) is None,
    decreases limit,
{
    if limit > 0 && cell_in_row(m, y, x + dx) is Some {
        lemma_run(m, y, x + dx, dx, (limit - 1) as nat);
        let r = run(m, y, x + dx, dx, (limit - 1) as nat);
        assert(x + dx + (r + 1) * dx == x + (r + 1 + 1) * dx) by (nonlinear_arith);
    } else {
        assert(x + (0 + 1) * dx == x + dx) by (nonlinear_arith);
    }
}

/// The character stands in that column and row, and the system wrote it.
pub open spec fn is_by_system(m: Nodes, x: int, y: i16, ch: char) -> bool {
    let c = cell_at(m, WorldCoords { x: x as i16, y });
    c is Some && c->0.ch == ch && c->0.author_id == 0
}

/// The characters stand next to one another, from column `a` on, and nobody but
/// the system wrote any of them.
pub open spec fn written_by_system(m: Nodes, y: i16, a: int, w: Seq<char>) -> bool {
    forall|i: int| 0 <= i < w.len() ==> is_by_system(m, a + i, y, #[trigger] w[i])
}

/// A link to a page is a whole word around the place, which starts like an address
/// and which nobody but the system wrote.
pub proof fn law_only_the_system_links_to_pages(m: Nodes, pos: WorldCoords)
    requires
        -32768 + 65 <= pos.x <= 32767 - 65,
    ensures
        link_at(m, pos) matches Some(LinkView::Url(w)) ==> {
            &&& stands_at(w, "http://"@, 0) || stands_at(w, "https://"@, 0)
            &&& exists|a: int|
                {
                    &&& a <= pos.x < a + w.len()
                    &&& #[trigger] written_by_system(m, pos.y, a, w)
                    &&& pos.x - a < 64 ==> cell_at(
                        m,
                        WorldCoords { x: (a - 1) as i16, y: pos.y },
                    ) is None
                    &&& a + w.len() - 1 - pos.x < 64 ==> cell_at(
                        m,
                        WorldCoords { x: (a + w.len()) as i16, y: pos.y },
                    ) is None
                }
        },
{
    if let Some(LinkView::Url(w)) = link_at(m, pos) {
        let left = run(m, pos.y, pos.x as int, -1, 64);
        let right = run(m, pos.y, pos.x as int, 1, 64);
        let a = pos.x - left;
        let n = left + right + 1;
        assert(forall|x: int|
            a <= x < a + n ==> #[trigger] cell_in_row(m, pos.y, x) is Some && (cell_in_row(
                m,
                pos.y,
                x,
            )->0).author_id == 0);
        lemma_word(m, pos.y, a, n);
        lemma_run(m, pos.y, pos.x as int, -1, 64);
        lemma_run(m, pos.y, pos.x as int, 1, 64);
        assert(w == word_in_row(m, pos.y, a, n));
        assert forall|i: int| 0 <= i < w.len() implies is_by_system(
            m,
            a + i,
            pos.y,
            #[trigger] w[i],
        ) by {
            assert(cell_in_row(m, pos.y, a + i) is Some);
        }
        assert(pos.x + (left + 1) * (-1) == a - 1);
        assert(pos.x + (right + 1) * 1 == a + n);
        assert(written_by_system(m, pos.y, a, w));
    }
}

} // verus!
