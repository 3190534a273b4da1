//! Marks, regions and cursors that are drawn over the board.

use vstd::arithmetic::div_mod::lemma_fundamental_div_mod_converse;
use vstd::prelude::*;

use crate::color::Rgb;
use crate::coords::{floor_div, WorldCoords};
use crate::editor::{BoardState, BoardView};
use crate::msg::RegionRecord;

verus! {

/// How many cells may lie between two marks.
pub open spec fn ruler_steps() -> Seq<u64> {
    seq![1, 2, 5, 10, 20, 50, 100, 200, 500, 1000, 2000, 2048]
}

/// `r` is the smallest step that is no smaller than `min_step`, or the largest
/// of all.
pub open spec fn is_ruler_step(min_step: u64, r: u64) -> bool {
    &&& ruler_steps().contains(r)
    &&& r >= min_step || r == 2048
    &&& forall|s: u64| #[trigger] ruler_steps().contains(s) && s < r ==> s < min_step
}

/// How many cells lie between two marks, so that no fewer than `min_step` do.
pub fn ruler_step(min_step: u64) -> (r: u64)
    ensures
        is_ruler_step(min_step, r),
{
    let all: Vec<u64> = vec![1, 2, 5, 10, 20, 50, 100, 200, 500, 1000, 2000, 2048];
    assert(all@ =~= ruler_steps());
    let mut i: usize = 0;
    while i < 11
        invariant
            i <= 11,
            all@ == ruler_steps(),
            forall|k: int| 0 <= k < i ==> ruler_steps()[k] < min_step,
        decreases 11 - i,
    {
        if all[i] >= min_step {
            assert forall|s: u64| #[trigger]
                ruler_steps().contains(s) && s < all@[i as int] implies s < min_step by {
                let k = choose|k: int| 0 <= k < ruler_steps().len() && ruler_steps()[k] == s;
                assert(k < i);
            }
            assert(ruler_steps()[i as int] == all@[i as int]);
            return all[i];
        }
        i = i + 1;
    }
    assert(ruler_steps()[11] == 2048);
    assert forall|s: u64| #[trigger] ruler_steps().contains(s) && s < 2048 implies s < min_step by {
        let k = choose|k: int| 0 <= k < ruler_steps().len() && ruler_steps()[k] == s;
        assert(k < 11);
    }
    2048
}

/// Where a mark stands: at a multiple of the step, and, along one side, not in
/// the corner.
pub open spec fn is_mark(v: int, lo: int, hi: int, step: int, skip_zero: bool) -> bool {
    lo <= v <= hi && v % step == 0 && (skip_zero ==> v != 0)
}

/// The marks from `lo` to `hi`, in order.
pub fn ruler_marks(lo: i16, hi: i16, step: u64, skip_zero: bool) -> (r: Vec<i64>)
    requires
        0 < step <= 2048,
    ensures
        forall|i: int, j: int| 0 <= i < j < r@.len() ==> r@[i] < r@[j],
        forall|v: i64|
            #![trigger r@.contains(v)]
            r@.contains(v) <==> is_mark(v as int, lo as int, hi as int, step as int, skip_zero),
{
    let s: i64 = step as i64;
    let up: i64 = floor_div(lo as i64 + s - 1, s);
    assert(lo <= up * s <= lo + s - 1) by (nonlinear_arith)
        requires
            s > 0,
            up == (lo + s - 1) / (s as int),
    ;
    let mut v: i64 = up * s;
    let mut out: Vec<i64> = Vec::new();
    proof {
        lemma_multiple(up as int, s as int);
        assert forall|x: i64| #[trigger]
            is_mark(x as int, lo as int, hi as int, s as int, skip_zero) && x < v implies false by {
            lemma_next(v as int, s as int);
            lemma_between(v - s, x as int, s as int);
        }
    }
    while v <= hi as i64
        invariant
            s == step,
            0 < s <= 2048,
            lo <= v,
            v <= hi + s || v <= lo + s - 1,
            v as int % s as int == 0,
            forall|x: i64| #[trigger]
                is_mark(x as int, lo as int, hi as int, s as int, skip_zero) && x < v
                    ==> out@.contains(x),
            forall|i: int|
                0 <= i < out@.len() ==> #[trigger] out@[i] < v && is_mark(
                    out@[i] as int,
                    lo as int,
                    hi as int,
                    s as int,
                    skip_zero,
                ),
            forall|i: int, j: int| 0 <= i < j < out@.len() ==> out@[i] < out@[j],
        decreases hi + s - v,
    {
        let ghost before = out@;
        if !(skip_zero && v == 0) {
            out.push(v);
        }
        proof {
            assert forall|x: i64| #[trigger]
                is_mark(x as int, lo as int, hi as int, s as int, skip_zero) && x < v
                    + s implies out@.contains(x) by {
                if x < v {
                    assert(before.contains(x));
                    let k = choose|k: int| 0 <= k < before.len() && before[k] == x;
                    assert(out@[k] == x);
                } else {
                    if x > v {
                        lemma_between(v as int, x as int, s as int);
                    }
                    assert(out@[before.len() as int] == x);
                }
            }
            lemma_next(v as int, s as int);
        }
        v = v + s;
    }
    proof {
        assert forall|x: i64|
            #![trigger out@.contains(x)]
            out@.contains(x) <==> is_mark(
                x as int,
                lo as int,
                hi as int,
                step as int,
                skip_zero,
            ) by {
            if out@.contains(x) {
                let k = choose|k: int| 0 <= k < out@.len() && out@[k] == x;
                assert(is_mark(out@[k] as int, lo as int, hi as int, s as int, skip_zero));
            }
        }
    }
    out
}

proof fn lemma_between(v: int, x: int, s: int)
    requires
        s > 0,
        v < x < v + s,
        v % s == 0,
    ensures
        x % s != 0,
{
    vstd::arithmetic::div_mod::lemma_fundamental_div_mod(v, s);
    assert(x == (v / s) * s + (x - v)) by (nonlinear_arith)
        requires
            v == s * (v / s) + v % s,
            v % s == 0,
    ;
    lemma_fundamental_div_mod_converse(x, s, v / s, x - v);
}

proof fn lemma_next(v: int, s: int)
    requires
        s > 0,
        v % s == 0,
    ensures
        (v + s) % s == 0,
        (v - s) % s == 0,
{
    vstd::arithmetic::div_mod::lemma_mod_add_multiples_vanish(v, s);
    vstd::arithmetic::div_mod::lemma_mod_sub_multiples_vanish(v, s);
}

proof fn lemma_multiple(q: int, s: int)
    requires
        s > 0,
    ensures
        (q * s) % s == 0,
{
    vstd::arithmetic::div_mod::lemma_mod_multiples_basic(q, s);
}

/// How a region is drawn.
#[derive(Debug, Clone, Copy, PartialEq, Eq, Structural)]
pub struct RegionStyle {
    pub mine: bool,
    /// It stands out: the cursor is in it, or the regions are being looked at.
    pub highlighted: bool,
}

pub fn region_style(r: &RegionRecord, my_id: u32, cursor: WorldCoords, show_all: bool) -> (s:
    RegionStyle)
    ensures
        s == (RegionStyle {
            mine: r.owner_id == my_id,
            highlighted: show_all || r.bounds.has(cursor),
        }),
{
    RegionStyle {
        mine: r.owner_id == my_id,
        highlighted: show_all || r.bounds.contains(cursor),
    }
}

/// A cursor of somebody else.
pub struct RemoteCursor {
    pub id: u32,
    pub name: String,
    pub pos: WorldCoords,
    pub color: Rgb,
}

impl RemoteCursor {
    pub open spec fn tells(self, b: BoardView) -> bool {
        &&& b.remote_cursors.contains_key(self.id)
        &&& self.name@ == b.name_of(self.id)
        &&& (self.pos, self.color) == b.remote_cursors[self.id]
    }
}

impl BoardState {
    /// The cursors of the others, each once.
    pub fn cursors(&self) -> (r: Vec<RemoteCursor>)
        ensures
            forall|i: int| 0 <= i < r@.len() ==> (#[trigger] r@[i]).tells(self@),
            forall|i: int, j: int| 0 <= i < j < r@.len() ==> r@[i].id != r@[j].id,
            forall|id: u32| #[trigger]
                self@.remote_cursors.contains_key(id) ==> exists|i: int|
                    0 <= i < r@.len() && (#[trigger] r@[i]).id == id,
    {
        let keys = self.remote_cursors.keys();
        let mut out: Vec<RemoteCursor> = Vec::new();
        let mut i: usize = 0;
        while i < keys.len()
            invariant
                i <= keys@.len(),
                keys@.no_duplicates(),
                forall|k: u32| #[trigger]
                    keys@.contains(k) <==> self.remote_cursors@.contains_key(k),
                out@.len() == i,
                forall|k: int| 0 <= k < i ==> (#[trigger] out@[k]).id == keys@[k],
                forall|k: int| 0 <= k < i ==> (#[trigger] out@[k]).tells(self@),
            decreases keys@.len() - i,
        {
            let id: u32 = keys[i];
            assert(keys@.contains(id));
            let (pos, color) = match self.remote_cursors.get(&id) {
                Some(c) => *c,
                None => (WorldCoords { x: 0, y: 0 }, Rgb(0, 0, 0)),
            };
            out.push(RemoteCursor { id, name: self.author_name(id), pos, color });
            i = i + 1;
        }
        assert forall|id: u32| #[trigger]
            self@.remote_cursors.contains_key(id) implies exists|k: int|
            0 <= k < out@.len() && (#[trigger] out@[k]).id == id by {
            assert(keys@.contains(id));
            let k = choose|k: int| 0 <= k < keys@.len() && keys@[k] == id;
            assert(out@[k].id == id);
        }
        out
    }

    /// The cells that show a refusal, each once.
    pub fn live_flashes(&self, now: u64) -> (r: Vec<WorldCoords>)
        ensures
            r@.no_duplicates(),
            forall|p: WorldCoords| #[trigger]
                r@.contains(p) <==> self@.flash_deny.contains_key(p) && now < self@.flash_deny[p],
    {
        let keys = self.flash_deny.keys();
        let mut out: Vec<WorldCoords> = Vec::new();
        let mut i: usize = 0;
        while i < keys.len()
            invariant
                i <= keys@.len(),
                keys@.no_duplicates(),
                forall|p: WorldCoords| #[trigger]
                    keys@.contains(p) <==> self.flash_deny@.contains_key(p),
                out@.no_duplicates(),
                forall|k: int|
                    0 <= k < out@.len() ==> keys@.take(i as int).contains(#[trigger] out@[k])
                        && now < self.flash_deny@[out@[k]],
                forall|k: int|
                    0 <= k < i && now < self.flash_deny@[#[trigger] keys@[k]] ==> out@.contains(
                        keys@[k],
                    ),
            decreases keys@.len() - i,
        {
            let p = keys[i];
            assert(keys@.contains(p));
            let ghost before = out@;
            assert(!keys@.take(i as int).contains(p)) by {
                if keys@.take(i as int).contains(p) {
                    let k = choose|k: int| 0 <= k < i && keys@.take(i as int)[k] == p;
                    assert(keys@[k] == keys@[i as int]);
                }
            }
            assert forall|x: WorldCoords| keys@.take(i as int).contains(x) implies keys@.take(
                i + 1,
            ).contains(x) by {
                let k = choose|k: int| 0 <= k < i && keys@.take(i as int)[k] == x;
                assert(keys@.take(i + 1)[k] == x);
            }
            assert(keys@.take(i + 1)[i as int] == p);
            let until: u64 = match self.flash_deny.get(&p) {
                Some(t) => *t,
                None => 0,
            };
            if now < until {
                out.push(p);
                assert(out@[before.len() as int] == p);
            }
            assert forall|k: int|
                0 <= k < i + 1 && now < self.flash_deny@[#[trigger] keys@[k]] implies out@.contains(
                keys@[k],
            ) by {
                if k < i {
                    assert(before.contains(keys@[k]));
                    let j = choose|j: int| 0 <= j < before.len() && before[j] == keys@[k];
                    assert(out@[j] == keys@[k]);
                }
            }
            i = i + 1;
        }
        assert forall|p: WorldCoords| #[trigger]
            out@.contains(p) <==> self@.flash_deny.contains_key(p) && now
                < self@.flash_deny[p] by {
            if out@.contains(p) {
                let k = choose|k: int| 0 <= k < out@.len() && out@[k] == p;
                assert(keys@.take(i as int).contains(out@[k]));
                assert(keys@.take(i as int) =~= keys@);
            }
            if self@.flash_deny.contains_key(p) {
                assert(keys@.contains(p));
                let k = choose|k: int| 0 <= k < keys@.len() && keys@[k] == p;
                assert(keys@[k] == p);
            }
        }
        out
    }
}

} // verus!
