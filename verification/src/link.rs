//! Links that are written on the board.

use vstd::prelude::*;

use crate::chunks::{cell_at, ChunkManager, Nodes};
use crate::coords::{WorldCoords, BOARD_HALF};
use crate::parse::{bounded_int, matches_at, read_int, split, split_at, stands_at};
use crate::text::{chars_of, string_of};
use crate::ui::{CanvasCell, HoveredLink};

verus! {

/// How far a word is followed to either side.
pub const LINK_REACH: i16 = 64;

pub enum LinkView {
    Coord(WorldCoords),
    Url(Seq<char>),
}

impl View for HoveredLink {
    type V = LinkView;

    open spec fn view(&self) -> LinkView {
        match self {
            HoveredLink::Coord(p) => LinkView::Coord(*p),
            HoveredLink::Url(s) => LinkView::Url(s@),
        }
    }
}

/// What stands in column `x` of row `y`.
pub open spec fn cell_in_row(m: Nodes, y: i16, x: int) -> Option<CanvasCell> {
    cell_at(m, WorldCoords { x: x as i16, y })
}

/// Number of characters that stand next to column `x`, one after the other in
/// direction `dx`, of which no more than `limit` are counted.
pub open spec fn run(m: Nodes, y: i16, x: int, dx: int, limit: nat) -> nat
    decreases limit,
{
    if limit == 0 || cell_in_row(m, y, x + dx) is None {
        0
    } else {
        1 + run(m, y, x + dx, dx, (limit - 1) as nat)
    }
}

/// The characters in the columns from `a` on, `n` of them, without the gaps.
pub open spec fn word_in_row(m: Nodes, y: i16, a: int, n: nat) -> Seq<char>
    decreases n,
{
    if n == 0 {
        Seq::empty()
    } else {
        let before = word_in_row(m, y, a, (n - 1) as nat);
        match cell_in_row(m, y, a + n - 1) {
            Some(c) => before.push(c.ch),
            None => before,
        }
    }
}

/// Every one of `n` columns from `a` on holds a character that nobody wrote.
pub open spec fn all_system(m: Nodes, y: i16, a: int, n: nat) -> bool {
    forall|x: int|
        a <= x < a + n ==> #[trigger] cell_in_row(m, y, x) is Some && (cell_in_row(
            m,
            y,
            x,
        )->0).author_id == 0
}

/// The cell that `#x,y` leads to.
pub open spec fn coord_link(word: Seq<char>) -> Option<WorldCoords> {
    let parts = split(word.drop_first(), ',');
    if word.len() == 0 || word[0] != '#' || parts.len() != 2 {
        None
    } else {
        match (
            bounded_int(parts[0], true, -BOARD_HALF as int, BOARD_HALF - 1),
            bounded_int(parts[1], true, -BOARD_HALF as int, BOARD_HALF - 1),
        ) {
            (Some(x), Some(y)) => Some(WorldCoords { x: x as i16, y: y as i16 }),
            _ => None,
        }
    }
}

/// Where the word around `pos` leads: to a cell, or, if nobody wrote it, to a
/// page.
pub open spec fn link_at(m: Nodes, pos: WorldCoords) -> Option<LinkView> {
    let left = run(m, pos.y, pos.x as int, -1, LINK_REACH as nat);
    let right = run(m, pos.y, pos.x as int, 1, LINK_REACH as nat);
    let a = pos.x - left;
    let n = left + right + 1;
    let word = word_in_row(m, pos.y, a, n);
    match coord_link(word) {
        Some(p) => Some(LinkView::Coord(p)),
        None => if (stands_at(word, "http://"@, 0) || stands_at(word, "https://"@, 0))
            && all_system(m, pos.y, a, n) {
            Some(LinkView::Url(word))
        } else {
            None
        },
    }
}

fn run_of(board: &ChunkManager, pos: WorldCoords, dx: i16) -> (r: i16)
    requires
        board.wf(),
        dx == 1 || dx == -1,
        i16::MIN + LINK_REACH <= pos.x <= i16::MAX - LINK_REACH,
    ensures
        r == run(board@, pos.y, pos.x as int, dx as int, LINK_REACH as nat),
        0 <= r <= LINK_REACH,
{
    let mut k: i16 = 0;
    let mut x: i16 = pos.x;
    while k < LINK_REACH
        invariant
            board.wf(),
            dx == 1 || dx == -1,
            i16::MIN + LINK_REACH <= pos.x <= i16::MAX - LINK_REACH,
            0 <= k <= LINK_REACH,
            x == pos.x + k * dx,
            run(board@, pos.y, pos.x as int, dx as int, LINK_REACH as nat) == k + run(
                board@,
                pos.y,
                x as int,
                dx as int,
                (LINK_REACH - k) as nat,
            ),
        decreases LINK_REACH - k,
    {
        assert(x + dx == pos.x + (k + 1) * dx) by (nonlinear_arith)
            requires
                x == pos.x + k * dx,
        ;
        assert(-64 <= (k + 1) * dx <= 64) by (nonlinear_arith)
            requires
                0 <= k < 64,
                dx == 1 || dx == -1,
        ;
        let next: i16 = x + dx;
        if board.get_cell(WorldCoords { x: next, y: pos.y }).is_none() {
            return k;
        }
        x = next;
        k = k + 1;
    }
    k
}

fn word_of(board: &ChunkManager, y: i16, a: i16, n: i16) -> (r: (Vec<char>, bool))
    requires
        board.wf(),
        0 <= n,
        a + n <= i16::MAX + 1,
    ensures
        r.0@ == word_in_row(board@, y, a as int, n as nat),
        r.1 == all_system(board@, y, a as int, n as nat),
{
    let mut word: Vec<char> = Vec::new();
    let mut system = true;
    let mut k: i16 = 0;
    while k < n
        invariant
            board.wf(),
            0 <= k <= n,
            a + n <= i16::MAX + 1,
            word@ == word_in_row(board@, y, a as int, k as nat),
            system == all_system(board@, y, a as int, k as nat),
        decreases n - k,
    {
        let cell = board.get_cell(WorldCoords { x: a + k, y });
        assert(cell == cell_in_row(board@, y, a + k));
        let ghost was = all_system(board@, y, a as int, k as nat);
        match cell {
            Some(c) => {
                word.push(c.ch);
                system = system && c.author_id == 0;
            },
            None => {
                system = false;
            },
        }
        proof {
            let now = all_system(board@, y, a as int, (k + 1) as nat);
            if now {
                assert forall|x: int| a <= x < a + k implies #[trigger] cell_in_row(
                    board@,
                    y,
                    x,
                ) is Some && (cell_in_row(board@, y, x)->0).author_id == 0 by {}
                assert(was);
                assert(cell_in_row(board@, y, a + k) is Some);
            }
            assert(system == now);
        }
        k = k + 1;
    }
    (word, system)
}

fn coord_link_of(word: &Vec<char>) -> (r: Option<WorldCoords>)
    ensures
        r == coord_link(word@),
{
    if word.len() == 0 || word[0] != '#' {
        return None;
    }
    let mut rest: Vec<char> = Vec::new();
    let mut i: usize = 1;
    while i < word.len()
        invariant
            1 <= i <= word@.len(),
            rest@ =~= word@.subrange(1, i as int),
        decreases word@.len() - i,
    {
        rest.push(word[i]);
        i = i + 1;
    }
    assert(rest@ =~= word@.drop_first());
    let parts = split_at(&rest, ',');
    if parts.len() != 2 {
        return None;
    }
    let (a, b) = parts[0];
    let (c, d) = parts[1];
    match (
        read_int(&rest, a, b, true, -BOARD_HALF, BOARD_HALF - 1),
        read_int(&rest, c, d, true, -BOARD_HALF, BOARD_HALF - 1),
    ) {
        (Some(x), Some(y)) => Some(WorldCoords::from_i64(x, y)),
        _ => None,
    }
}

/// Where the word around `pos` leads.
pub fn detect_link(board: &ChunkManager, pos: WorldCoords) -> (r: Option<HoveredLink>)
    requires
        board.wf(),
        i16::MIN + LINK_REACH <= pos.x <= i16::MAX - LINK_REACH,
    ensures
        match (r, link_at(board@, pos)) {
            (Some(l), Some(v)) => l@ == v,
            (None, None) => true,
            _ => false,
        },
{
    let left: i16 = run_of(board, pos, -1);
    let right: i16 = run_of(board, pos, 1);
    let a: i16 = pos.x - left;
    let n: i16 = left + right + 1;
    let (word, system) = word_of(board, pos.y, a, n);
    match coord_link_of(&word) {
        Some(p) => {
            return Some(HoveredLink::Coord(p));
        },
        None => {},
    }
    if (matches_at(&word, &chars_of("http://"), 0) || matches_at(&word, &chars_of("https://"), 0))
        && system {
        let s = string_of(&word, 0, word.len());
        assert(s@ =~= word@);
        return Some(HoveredLink::Url(s));
    }
    None
}

} // verus!
