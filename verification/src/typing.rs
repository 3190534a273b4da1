//! What holds of those who write: what they type stands where they typed it, and
//! the server is told of it as it is shown to them.

use vstd::prelude::*;

use crate::actions::{
    line_pasted, lines_of, lines_pasted, paste_cells, paste_height, paste_width, rect_text,
    row_text, block_text, template_escaped, without_cr, Action,
};
use crate::chunks::{cell_at, lemma_place_reads_back, nodes_wf, Nodes};
use crate::coords::{law_chunk_injective, ChunkCoords, WorldCoords, WorldRect};
use crate::editor::{
    chunks_of, lemma_ordered_messages, lemma_rebuilt_keeps,
    lemma_scrolled_messages, messages, EditorView,
};
use crate::msg::CellWrite;
use crate::nav::{lemma_split_join, lemma_split_whole};
use crate::parse::split;
use crate::ui::{CanvasCell, ClientMsgView, NetView, OrderView, SET_FLUSH_PERIOD_MS};

verus! {

/// `n`, or the nearest number from -2048 to 2047.
pub open spec fn held(n: int) -> int {
    if n < -2048 {
        -2048
    } else if n > 2047 {
        2047
    } else {
        n
    }
}

/// The place is one of the 4096 by 4096 around the origin.
pub open spec fn is_place(p: WorldCoords) -> bool {
    -2048 <= p.x <= 2047 && -2048 <= p.y <= 2047
}

/// What the server is to be told of a place is what the editor shows there.
pub open spec fn told_as_shown(v: EditorView, w: CellWrite) -> bool {
    let shown = cell_at(v.board.nodes, w.pos);
    &&& w.ch is Some <==> shown is Some
    &&& shown is Some ==> w.ch->0 == shown->0.ch && w.color == shown->0.color
}

/// The last that the server is to be told of any place is what the editor shows
/// there.
pub open spec fn all_told_as_shown(v: EditorView) -> bool {
    forall|k: int|
        0 <= k < v.net.pending.len() ==> {
            &&& is_place((#[trigger] v.net.pending[k]).pos)
            &&& (forall|j: int|
                k < j < v.net.pending.len() ==> (#[trigger] v.net.pending[j]).pos
                    != v.net.pending[k].pos) ==> told_as_shown(v, v.net.pending[k])
        }
}

/// Writing a cell shows it, and the server is told of that place, that character
/// and that color, after all else that it is told; no other place changes.
pub proof fn law_write_is_told_as_shown(
    v: EditorView,
    pos: WorldCoords,
    cell: Option<CanvasCell>,
    other: WorldCoords,
)
    requires
        nodes_wf(v.board.nodes),
        is_place(pos),
        is_place(other),
    ensures
        ({
            let w = v.written(pos, cell);
            let told = w.net.pending.last();
            &&& nodes_wf(w.board.nodes)
            &&& cell_at(w.board.nodes, pos) == cell
            &&& other != pos ==> cell_at(w.board.nodes, other) == cell_at(v.board.nodes, other)
            &&& w.net.pending.len() == v.net.pending.len() + 1
            &&& w.net.pending.drop_last() == v.net.pending
            &&& told.pos.x == pos.x
            &&& told.pos.y == pos.y
            &&& told_as_shown(w, told)
            &&& w.ui.cursor == v.ui.cursor
            &&& messages(w.net.todo) == messages(v.net.todo)
        }),
{
    lemma_place_reads_back(v.board.nodes, pos, cell, pos);
    lemma_place_reads_back(v.board.nodes, pos, cell, other);
    if other.chunk() == pos.chunk() && other.local() == pos.local() {
        law_chunk_injective(pos, other);
    }
    let w = v.written(pos, cell);
    assert(w.net.pending.drop_last() =~= v.net.pending);
    lemma_ordered_messages(v.net.todo, OrderView::StartSetTimer(SET_FLUSH_PERIOD_MS));
}

/// However much is written, the server is to be told of every place as it is
/// shown.
pub proof fn law_writes_keep_all_told_as_shown(
    v: EditorView,
    pos: WorldCoords,
    cell: Option<CanvasCell>,
)
    requires
        nodes_wf(v.board.nodes),
        is_place(pos),
        all_told_as_shown(v),
    ensures
        all_told_as_shown(v.written(pos, cell)),
{
    let w = v.written(pos, cell);
    law_write_is_told_as_shown(v, pos, cell, pos);
    let n = v.net.pending.len() as int;
    assert forall|k: int| 0 <= k < w.net.pending.len() implies {
        &&& is_place((#[trigger] w.net.pending[k]).pos)
        &&& (forall|j: int|
            k < j < w.net.pending.len() ==> (#[trigger] w.net.pending[j]).pos
                != w.net.pending[k].pos) ==> told_as_shown(w, w.net.pending[k])
    } by {
        if k < n {
            assert(w.net.pending[k] == v.net.pending[k]);
            if forall|j: int|
                k < j < w.net.pending.len() ==> (#[trigger] w.net.pending[j]).pos
                    != w.net.pending[k].pos {
                assert(w.net.pending[n].pos != w.net.pending[k].pos);
                assert forall|j: int| k < j < n implies (#[trigger] v.net.pending[j]).pos
                    != v.net.pending[k].pos by {
                    assert(w.net.pending[j] == v.net.pending[j]);
                }
                law_write_is_told_as_shown(v, pos, cell, w.net.pending[k].pos);
            }
        }
    }
}

/// What was gathered is sent as it is, to be kept, and once: nothing is left to
/// be sent afterwards. Where nothing was gathered, nothing is sent.
pub proof fn law_what_was_gathered_is_sent(net: NetView)
    ensures
        net.flushed().pending.len() == 0,
        messages(net.flushed().todo) == (if net.pending.len() > 0 {
            messages(net.todo).push(
                ClientMsgView::SetCellBatch { cells: net.pending, commit: true },
            )
        } else {
            messages(net.todo)
        }),
{
    lemma_ordered_messages(
        net.todo,
        OrderView::Send(ClientMsgView::SetCellBatch { cells: net.pending, commit: true }),
    );
}

/// What typing a character leaves in a cell.
pub open spec fn left_by(v: EditorView, ch: char, now: i64) -> Option<CanvasCell> {
    if ch == ' ' {
        None
    } else {
        Some(CanvasCell { ch, color: v.ui.color, author_id: v.ui.my_id, ts: now })
    }
}

/// What the server is told of a cell in which a character was typed.
pub open spec fn tells_of(w: CellWrite, x: int, y: int, v: EditorView, ch: char) -> bool {
    &&& w.pos.x == x
    &&& w.pos.y == y
    &&& ch == ' ' ==> w.ch is None
    &&& ch != ' ' ==> w.ch == Some(ch) && w.color == v.ui.color
}

proof fn lemma_drawn(v: EditorView)
    ensures
        v.drawn().board == v.board,
        v.drawn().ui == v.ui,
        v.drawn().net.pending == v.net.pending,
        messages(v.drawn().net.todo) == messages(v.net.todo),
        v.scrolled().board == v.board,
        v.scrolled().ui == v.ui,
        v.scrolled().net.pending == v.net.pending,
        messages(v.scrolled().net.todo) == messages(v.net.todo),
{
    lemma_scrolled_messages(v);
    lemma_ordered_messages(v.net.todo, OrderView::RequestFrame);
}

proof fn lemma_moved_messages(v: EditorView, pos: WorldCoords)
    ensures
        messages(v.moved(pos).net.todo) == (if v.net.last_cursor_sent == Some(pos) {
            messages(v.net.todo)
        } else {
            messages(v.net.todo).push(ClientMsgView::UpdateCursor { pos, color: v.ui.color })
        }),
{
    lemma_ordered_messages(
        v.net.todo,
        OrderView::Send(ClientMsgView::UpdateCursor { pos, color: v.ui.color }),
    );
}

/// Typing a character writes it at the cursor, in the color and the name of who
/// types; a space empties the cell. The cursor moves one to the right, as far as
/// there is a column; no other place changes.
pub proof fn law_typing_writes_at_the_cursor(
    v: EditorView,
    action: Action,
    ch: char,
    now: i64,
    other: WorldCoords,
)
    requires
        nodes_wf(v.board.nodes),
        action == Action::TypeChar(ch) || action == Action::MobileChar(ch),
        is_place(v.ui.cursor.pos),
        is_place(other),
    ensures
        ({
            let a = v.dispatched(action, now);
            let at = v.ui.cursor.pos;
            &&& cell_at(a.board.nodes, at) == left_by(v, ch, now)
            &&& other != at ==> cell_at(a.board.nodes, other) == cell_at(v.board.nodes, other)
            &&& a.ui.cursor.pos.x == held(at.x + 1)
            &&& a.ui.cursor.pos.y == at.y
            &&& !a.ui.cursor.sel.active
            &&& a.ui.color == v.ui.color
            &&& a.ui.my_id == v.ui.my_id
            &&& a.net.pending.len() == v.net.pending.len() + 1
            &&& a.net.pending.drop_last() == v.net.pending
            &&& tells_of(a.net.pending.last(), at.x as int, at.y as int, v, ch)
            &&& messages(a.net.todo) == (if v.net.last_cursor_sent == Some(a.ui.cursor.pos) {
                messages(v.net.todo)
            } else {
                messages(v.net.todo).push(
                    ClientMsgView::UpdateCursor { pos: a.ui.cursor.pos, color: v.ui.color },
                )
            })
        }),
{
    let at = v.ui.cursor.pos;
    let cell = CanvasCell::spec_typed(ch, v.ui.color, v.ui.my_id, now);
    law_write_is_told_as_shown(v, at, cell, other);
    let w = v.written(at, cell);
    let o = w.ordered(OrderView::RebuildChunk(at.chunk()));
    lemma_ordered_messages(w.net.todo, OrderView::RebuildChunk(at.chunk()));
    let m = o.moved(at.moved_by(1, 0));
    lemma_moved_messages(o, at.moved_by(1, 0));
    lemma_drawn(m);
    lemma_drawn(m.scrolled());
}

/// Deleting backward empties the cell to the left of the cursor, or the first of
/// the row, and moves the cursor there; no other place changes, and the server is
/// told of it.
pub proof fn law_deleting_backward_empties_the_cell_before(
    v: EditorView,
    action: Action,
    now: i64,
    other: WorldCoords,
)
    requires
        nodes_wf(v.board.nodes),
        action == Action::DeleteBackward || action == Action::MobileBackspace,
        is_place(v.ui.cursor.pos),
        is_place(other),
    ensures
        ({
            let a = v.dispatched(action, now);
            let at = a.ui.cursor.pos;
            let told = a.net.pending.last();
            &&& at.x == held(v.ui.cursor.pos.x - 1)
            &&& at.y == v.ui.cursor.pos.y
            &&& cell_at(a.board.nodes, at) is None
            &&& other != at ==> cell_at(a.board.nodes, other) == cell_at(v.board.nodes, other)
            &&& a.net.pending.len() == v.net.pending.len() + 1
            &&& a.net.pending.drop_last() == v.net.pending
            &&& told.pos.x == at.x
            &&& told.pos.y == at.y
            &&& told.ch is None
        }),
{
    let at = v.ui.cursor.pos.moved_by(-1, 0);
    let m = v.moved(at);
    law_write_is_told_as_shown(m, at, None, other);
    let o = m.written(at, None).ordered(OrderView::RebuildChunk(at.chunk()));
    lemma_drawn(o);
    lemma_drawn(o.scrolled());
}

/// Deleting forward empties the cell under the cursor and moves on; no other
/// place changes, and the server is told of it.
pub proof fn law_deleting_forward_empties_the_cell_under_the_cursor(
    v: EditorView,
    now: i64,
    other: WorldCoords,
)
    requires
        nodes_wf(v.board.nodes),
        is_place(v.ui.cursor.pos),
        is_place(other),
    ensures
        ({
            let a = v.dispatched(Action::DeleteForward, now);
            let at = v.ui.cursor.pos;
            let told = a.net.pending.last();
            &&& a.ui.cursor.pos.x == held(at.x + 1)
            &&& a.ui.cursor.pos.y == at.y
            &&& cell_at(a.board.nodes, at) is None
            &&& other != at ==> cell_at(a.board.nodes, other) == cell_at(v.board.nodes, other)
            &&& a.net.pending.len() == v.net.pending.len() + 1
            &&& a.net.pending.drop_last() == v.net.pending
            &&& told.pos.x == at.x
            &&& told.pos.y == at.y
            &&& told.ch is None
        }),
{
    let at = v.ui.cursor.pos;
    law_write_is_told_as_shown(v, at, None, other);
    let m = v.written(at, None).ordered(OrderView::RebuildChunk(at.chunk())).moved(
        at.moved_by(1, 0),
    );
    lemma_drawn(m);
    lemma_drawn(m.scrolled());
}

/// Moving the cursor writes nothing, marks nothing, and tells the server where it
/// is: by some columns and rows, by pages, to the start of its line or of the next
/// one, to a place, or home.
pub proof fn law_moves_go_where_they_say(v: EditorView, action: Action, now: i64)
    requires
        action is MoveCursor || action is MoveCursorPageDown || action is MoveCursorPageUp
            || action is MoveCursorLineStart || action is MoveCursorNewline
            || action is MobileNewline || action is JumpCursor || action is ZoomReset,
    ensures
        ({
            let a = v.dispatched(action, now);
            let from = v.ui.cursor.pos;
            let to = a.ui.cursor.pos;
            &&& action matches Action::MoveCursor { dx, dy } ==> to.x == held(from.x + dx) && to.y
                == held(from.y + dy)
            &&& action matches Action::MoveCursorPageDown { rows } ==> to.x == held(from.x as int)
                && to.y == held(from.y + rows)
            &&& action matches Action::MoveCursorPageUp { rows } ==> to.x == held(from.x as int)
                && to.y == held(from.y - rows)
            &&& action is MoveCursorLineStart ==> to.x == 0 && to.y == from.y
            &&& action is MoveCursorNewline || action is MobileNewline ==> to.x == 0 && to.y
                == held(from.y + 1)
            &&& action matches Action::JumpCursor { pos } ==> to == pos
            &&& action is ZoomReset ==> to.x == 0 && to.y == 0
            &&& !a.ui.cursor.sel.active
            &&& a.ui.cursor.type_start_x == to.x
            &&& a.board == v.board
            &&& a.net.pending == v.net.pending
            &&& messages(a.net.todo) == (if v.net.last_cursor_sent == Some(to) {
                messages(v.net.todo)
            } else {
                messages(v.net.todo).push(
                    ClientMsgView::UpdateCursor { pos: to, color: v.ui.color },
                )
            })
        }),
{
    let to = v.dispatched(action, now).ui.cursor.pos;
    lemma_moved_messages(v, to);
    let m = v.moved(to);
    lemma_drawn(m);
    lemma_drawn(m.scrolled());
}

/// A selection begins where the cursor was and ends where it is now; stretched
/// further, it still begins there. Nothing is written.
pub proof fn law_selection_reaches_from_where_it_began(
    v: EditorView,
    pos: WorldCoords,
    dx: i64,
    dy: i64,
    now: i64,
)
    ensures
        ({
            let began = if v.ui.cursor.sel.active {
                v.ui.cursor.sel.span.a
            } else {
                v.ui.cursor.pos
            };
            let a = v.dispatched(Action::SelectExtend { pos }, now);
            let b = v.dispatched(Action::SelectExtendBy { dx, dy }, now);
            let c = a.dispatched(Action::SelectDrag { pos }, now);
            let d = a.dispatched(Action::SelectEnd { pos }, now);
            let e = a.dispatched(Action::SelectClear, now);
            &&& a.ui.cursor.sel.active && a.ui.cursor.sel.drag
            &&& a.ui.cursor.sel.span.a == began
            &&& a.ui.cursor.sel.span.b == pos
            &&& a.ui.cursor.pos == pos
            &&& b.ui.cursor.sel.active
            &&& b.ui.cursor.sel.span.a == began
            &&& b.ui.cursor.pos.x == held(v.ui.cursor.pos.x + dx)
            &&& b.ui.cursor.pos.y == held(v.ui.cursor.pos.y + dy)
            &&& b.ui.cursor.sel.span.b == b.ui.cursor.pos
            &&& c.ui.cursor.sel.active && c.ui.cursor.sel.span.a == began
            &&& c.ui.cursor.sel.span.b == pos
            &&& d.ui.cursor.sel.active && !d.ui.cursor.sel.drag
            &&& d.ui.cursor.sel.span.a == began
            &&& d.ui.cursor.sel.span.b == pos
            &&& d.ui.cursor.pos == pos
            &&& !e.ui.cursor.sel.active && !e.ui.cursor.sel.drag
            &&& a.board == v.board && b.board == v.board
            &&& a.net.pending == v.net.pending
        }),
{
}

/// The pending writes from `from` on tell of `(x, y)`, in which `ch` was typed.
pub open spec fn told_since(
    pending: Seq<CellWrite>,
    from: int,
    x: int,
    y: int,
    v: EditorView,
    ch: char,
) -> bool {
    exists|k: int| from <= k < pending.len() && tells_of(#[trigger] pending[k], x, y, v, ch)
}

proof fn lemma_line_shown(
    v: EditorView,
    x0: int,
    wy: int,
    line: Seq<char>,
    n: nat,
    now: i64,
    p: WorldCoords,
)
    requires
        nodes_wf(v.board.nodes),
        is_place(p),
    ensures
        ({
            let a = line_pasted(v, x0, wy, line, n, now);
            &&& nodes_wf(a.board.nodes)
            &&& a.ui.color == v.ui.color
            &&& a.ui.my_id == v.ui.my_id
            &&& a.ui.cursor == v.ui.cursor
            &&& messages(a.net.todo) == messages(v.net.todo)
            &&& cell_at(a.board.nodes, p) == (if p.y == wy && x0 <= p.x < x0 + n {
                left_by(v, line[p.x - x0], now)
            } else {
                cell_at(v.board.nodes, p)
            })
            &&& v.net.pending.len() <= a.net.pending.len()
            &&& a.net.pending.take(v.net.pending.len() as int) == v.net.pending
            &&& p.y == wy && x0 <= p.x < x0 + n ==> told_since(
                a.net.pending,
                v.net.pending.len() as int,
                p.x as int,
                p.y as int,
                v,
                line[p.x - x0],
            )
            &&& forall|k: int|
                v.net.pending.len() <= k < a.net.pending.len() ==> {
                    let w = #[trigger] a.net.pending[k];
                    is_place(w.pos) && w.pos.y == wy && x0 <= w.pos.x < x0 + n && tells_of(
                        w,
                        w.pos.x as int,
                        w.pos.y as int,
                        v,
                        line[w.pos.x - x0],
                    )
                }
        }),
    decreases n,
{
    let a = line_pasted(v, x0, wy, line, n, now);
    let from = v.net.pending.len() as int;
    if n == 0 {
        assert(a.net.pending.take(from) =~= v.net.pending);
    } else {
        let b = line_pasted(v, x0, wy, line, (n - 1) as nat, now);
        lemma_line_shown(v, x0, wy, line, (n - 1) as nat, now, p);
        let wx = x0 + n - 1;
        if -2048 <= wx < 2048 && -2048 <= wy < 2048 {
            let at = WorldCoords { x: wx as i16, y: wy as i16 };
            let cell = CanvasCell::spec_typed(line[n - 1], b.ui.color, b.ui.my_id, now);
            law_write_is_told_as_shown(b, at, cell, p);
            assert(a == b.written(at, cell));
            assert(a.net.pending.take(from) =~= b.net.pending.take(from));
            assert forall|k: int| 0 <= k < b.net.pending.len() implies a.net.pending[k]
                == b.net.pending[k] by {
                assert(a.net.pending.drop_last()[k] == a.net.pending[k]);
            }
            assert(tells_of(a.net.pending.last(), wx, wy, v, line[n - 1]));
            if p.y == wy && x0 <= p.x < x0 + n {
                if p.x < wx {
                    let k = choose|k: int|
                        from <= k < b.net.pending.len() && tells_of(
                            #[trigger] b.net.pending[k],
                            p.x as int,
                            p.y as int,
                            v,
                            line[p.x - x0],
                        );
                    assert(tells_of(a.net.pending[k], p.x as int, p.y as int, v, line[p.x - x0]));
                } else {
                    assert(tells_of(
                        a.net.pending[b.net.pending.len() as int],
                        p.x as int,
                        p.y as int,
                        v,
                        line[p.x - x0],
                    ));
                }
            }
            assert forall|k: int| from <= k < a.net.pending.len() implies {
                let w = #[trigger] a.net.pending[k];
                is_place(w.pos) && w.pos.y == wy && x0 <= w.pos.x < x0 + n && tells_of(
                    w,
                    w.pos.x as int,
                    w.pos.y as int,
                    v,
                    line[w.pos.x - x0],
                )
            } by {
                if k < b.net.pending.len() {
                    assert(a.net.pending[k] == b.net.pending[k]);
                }
            }
        }
    }
}

/// Number of characters of a line, or of lines, that are pasted.
pub open spec fn at_most_2048(n: nat) -> nat {
    if n > 2048 {
        2048
    } else {
        n
    }
}

proof fn lemma_lines_shown(
    v: EditorView,
    origin: WorldCoords,
    lines: Seq<Seq<char>>,
    n: nat,
    now: i64,
    p: WorldCoords,
)
    requires
        nodes_wf(v.board.nodes),
        is_place(p),
        n <= lines.len(),
    ensures
        ({
            let a = lines_pasted(v, origin, lines, n, now);
            let (i, j) = (p.y - origin.y, p.x - origin.x);
            &&& nodes_wf(a.board.nodes)
            &&& a.ui.color == v.ui.color
            &&& a.ui.my_id == v.ui.my_id
            &&& a.ui.cursor == v.ui.cursor
            &&& messages(a.net.todo) == messages(v.net.todo)
            &&& cell_at(a.board.nodes, p) == (if 0 <= i < n && 0 <= j < at_most_2048(
                lines[i].len(),
            ) {
                left_by(v, lines[i][j], now)
            } else {
                cell_at(v.board.nodes, p)
            })
            &&& v.net.pending.len() <= a.net.pending.len()
            &&& a.net.pending.take(v.net.pending.len() as int) == v.net.pending
            &&& 0 <= i < n && 0 <= j < at_most_2048(lines[i].len()) ==> told_since(
                a.net.pending,
                v.net.pending.len() as int,
                p.x as int,
                p.y as int,
                v,
                lines[i][j],
            )
            &&& forall|k: int|
                v.net.pending.len() <= k < a.net.pending.len() ==> {
                    let w = #[trigger] a.net.pending[k];
                    let (r, c) = (w.pos.y - origin.y, w.pos.x - origin.x);
                    is_place(w.pos) && 0 <= r < n && 0 <= c < lines[r].len() && tells_of(
                        w,
                        w.pos.x as int,
                        w.pos.y as int,
                        v,
                        lines[r][c],
                    )
                }
        }),
    decreases n,
{
    let a = lines_pasted(v, origin, lines, n, now);
    let from = v.net.pending.len() as int;
    if n == 0 {
        assert(a.net.pending.take(from) =~= v.net.pending);
    } else {
        let b = lines_pasted(v, origin, lines, (n - 1) as nat, now);
        lemma_lines_shown(v, origin, lines, (n - 1) as nat, now, p);
        let line = lines[n - 1];
        lemma_line_shown(b, origin.x as int, origin.y + n - 1, line, paste_width(line), now, p);
        let mid = b.net.pending.len() as int;
        assert(a.net.pending.take(from) =~= a.net.pending.take(mid).take(from));
        assert forall|k: int| 0 <= k < mid implies a.net.pending[k] == b.net.pending[k] by {
            assert(a.net.pending.take(mid)[k] == a.net.pending[k]);
        }
        let (i, j) = (p.y - origin.y, p.x - origin.x);
        if 0 <= i < n && 0 <= j < at_most_2048(lines[i].len()) {
            if i < n - 1 {
                let k = choose|k: int|
                    from <= k < b.net.pending.len() && tells_of(
                        #[trigger] b.net.pending[k],
                        p.x as int,
                        p.y as int,
                        v,
                        lines[i][j],
                    );
                assert(tells_of(a.net.pending[k], p.x as int, p.y as int, v, lines[i][j]));
            } else {
                let k = choose|k: int|
                    mid <= k < a.net.pending.len() && tells_of(
                        #[trigger] a.net.pending[k],
                        p.x as int,
                        p.y as int,
                        b,
                        line[p.x - origin.x],
                    );
                assert(tells_of(a.net.pending[k], p.x as int, p.y as int, v, lines[i][j]));
            }
        }
        assert forall|k: int| from <= k < a.net.pending.len() implies {
            let w = #[trigger] a.net.pending[k];
            let (r, c) = (w.pos.y - origin.y, w.pos.x - origin.x);
            is_place(w.pos) && 0 <= r < n && 0 <= c < lines[r].len() && tells_of(
                w,
                w.pos.x as int,
                w.pos.y as int,
                v,
                lines[r][c],
            )
        } by {
            if k < mid {
                assert(a.net.pending[k] == b.net.pending[k]);
            }
        }
    }
}

/// A text that is pasted stands at the cursor line by line: each of its
/// characters, up to 2048 in a line and 2048 lines, in its column of its row, in
/// the color and the name of who pastes. No other place changes; the server is
/// told of each place that was written, and of no other; and the cursor stands in
/// the column where it stood, in the row of the last line.
pub proof fn law_paste_stands_line_by_line(
    v: EditorView,
    text: String,
    now: i64,
    p: WorldCoords,
)
    requires
        nodes_wf(v.board.nodes),
        is_place(v.ui.cursor.pos),
        is_place(p),
    ensures
        ({
            let a = v.dispatched(Action::PasteText(text), now);
            let lines = lines_of(text@);
            let rows = at_most_2048(lines.len());
            let (i, j) = (p.y - v.ui.cursor.pos.y, p.x - v.ui.cursor.pos.x);
            let pasted = 0 <= i < rows && 0 <= j < at_most_2048(lines[i].len());
            let from = v.net.pending.len() as int;
            &&& cell_at(a.board.nodes, p) == (if pasted {
                left_by(v, lines[i][j], now)
            } else {
                cell_at(v.board.nodes, p)
            })
            &&& from <= a.net.pending.len()
            &&& a.net.pending.take(from) == v.net.pending
            &&& pasted ==> told_since(
                a.net.pending,
                from,
                p.x as int,
                p.y as int,
                v,
                lines[i][j],
            )
            &&& forall|k: int|
                from <= k < a.net.pending.len() ==> {
                    let w = #[trigger] a.net.pending[k];
                    let (r, c) = (w.pos.y - v.ui.cursor.pos.y, w.pos.x - v.ui.cursor.pos.x);
                    is_place(w.pos) && 0 <= r < rows && 0 <= c < lines[r].len() && tells_of(
                        w,
                        w.pos.x as int,
                        w.pos.y as int,
                        v,
                        lines[r][c],
                    )
                }
            &&& a.ui.cursor.pos.x == v.ui.cursor.pos.x
            &&& a.ui.cursor.pos.y == held(
                v.ui.cursor.pos.y + (if rows == 0 {
                    0
                } else {
                    rows - 1
                }),
            )
        }),
{
    let origin = v.ui.cursor.pos;
    let lines = lines_of(text@);
    let rows = paste_height(text@);
    let begun = EditorView { ui: v.ui.batch_begun(), ..v };
    lemma_lines_shown(begun, origin, lines, rows, now, p);
    let done = lines_pasted(begun, origin, lines, rows, now);
    let ended = EditorView { ui: done.ui.batch_ended(), ..done };
    let to = WorldCoords::nearest(
        origin.x as int,
        origin.y + (if rows == 0 {
            0
        } else {
            rows - 1
        }),
    );
    let m = ended.moved(to);
    let cells = chunks_of(paste_cells(origin, lines, rows));
    lemma_rebuilt_keeps(m, cells);
    lemma_rebuilt_pending(m, cells);
    lemma_drawn(m.rebuilt(cells));
    lemma_drawn(m.rebuilt(cells).scrolled());
    let a = v.dispatched(Action::PasteText(text), now);
    assert(a.net.pending == done.net.pending);
    assert(a.board == done.board);
    let from = v.net.pending.len() as int;
    let (i, j) = (p.y - origin.y, p.x - origin.x);
    if 0 <= i < rows && 0 <= j < at_most_2048(lines[i].len()) {
        let k = choose|k: int|
            from <= k < done.net.pending.len() && tells_of(
                #[trigger] done.net.pending[k],
                p.x as int,
                p.y as int,
                begun,
                lines[i][j],
            );
        assert(tells_of(a.net.pending[k], p.x as int, p.y as int, v, lines[i][j]));
    }
    assert forall|k: int| from <= k < a.net.pending.len() implies {
        let w = #[trigger] a.net.pending[k];
        let (r, c) = (w.pos.y - v.ui.cursor.pos.y, w.pos.x - v.ui.cursor.pos.x);
        is_place(w.pos) && 0 <= r < rows && 0 <= c < lines[r].len() && tells_of(
            w,
            w.pos.x as int,
            w.pos.y as int,
            v,
            lines[r][c],
        )
    } by {
        let w = done.net.pending[k];
        let (r, c) = (w.pos.y - origin.y, w.pos.x - origin.x);
        assert(tells_of(w, w.pos.x as int, w.pos.y as int, begun, lines[r][c]));
    }
}

proof fn lemma_rebuilt_pending(v: EditorView, chunks: Seq<ChunkCoords>)
    ensures
        v.rebuilt(chunks).net.pending == v.net.pending,
    decreases chunks.len(),
{
    if chunks.len() > 0 {
        lemma_rebuilt_pending(v, chunks.drop_last());
    }
}

/// The parts with `sep` between them.
pub open spec fn joined(parts: Seq<Seq<char>>, sep: char) -> Seq<char>
    decreases parts.len(),
{
    if parts.len() == 0 {
        Seq::empty()
    } else if parts.len() == 1 {
        parts[0]
    } else {
        joined(parts.drop_last(), sep).push(sep) + parts.last()
    }
}

proof fn lemma_split_parts(s: Seq<char>, sep: char)
    ensures
        split(s, sep).len() > 0,
        joined(split(s, sep), sep) == s,
        forall|i: int| 0 <= i < split(s, sep).len() ==> !(#[trigger] split(s, sep)[i]).contains(sep),
    decreases s.len(),
{
    let parts = split(s, sep);
    if s.len() == 0 {
        assert(joined(parts, sep) =~= s);
    } else {
        let d = s.drop_last();
        lemma_split_parts(d, sep);
        let before = split(d, sep);
        let n = before.len() - 1;
        if s.last() == sep {
            assert(parts.drop_last() =~= before);
            assert(joined(parts, sep) =~= s);
            assert forall|i: int| 0 <= i < parts.len() implies !(#[trigger] parts[i]).contains(
                sep,
            ) by {
                if i < before.len() {
                    assert(parts[i] == before[i]);
                }
            }
        } else {
            assert(parts.drop_last() =~= before.drop_last());
            assert(joined(parts, sep) =~= joined(before, sep).push(s.last()));
            assert(joined(parts, sep) =~= s);
            assert forall|i: int| 0 <= i < parts.len() implies !(#[trigger] parts[i]).contains(
                sep,
            ) by {
                assert(!before[i].contains(sep));
                if i == n && parts[i].contains(sep) {
                    let k = choose|k: int| 0 <= k < parts[i].len() && parts[i][k] == sep;
                    assert(before[i][k] == sep);
                }
            }
        }
    }
}

/// A text that is cut at every separator is what its parts make up with the
/// separator between them, and no part has one in it.
pub proof fn law_parts_make_up_the_text(s: Seq<char>, sep: char)
    ensures
        joined(split(s, sep), sep) == s,
        forall|i: int| 0 <= i < split(s, sep).len() ==> !(#[trigger] split(s, sep)[i]).contains(sep),
{
    lemma_split_parts(s, sep);
}

/// The lines of a text without carriage returns make it up, with a line feed
/// between them, and one at the end or none; no line has one in it.
pub proof fn law_lines_make_up_the_text(s: Seq<char>)
    requires
        !s.contains('\r'),
    ensures
        s.len() > 0 ==> s == joined(lines_of(s), '\n') || s == joined(lines_of(s), '\n').push('\n'),
        s.len() == 0 ==> lines_of(s).len() == 0,
        forall|i: int| 0 <= i < lines_of(s).len() ==> !(#[trigger] lines_of(s)[i]).contains('\n'),
{
    let parts = split(s, '\n');
    let lines = lines_of(s);
    let n = parts.len() as int;
    lemma_split_parts(s, '\n');
    assert forall|i: int| 0 <= i < n implies !(#[trigger] parts[i]).contains('\r') by {
        lemma_parts_from_text(s, '\n', i);
        if parts[i].contains('\r') {
            let k = choose|k: int| 0 <= k < parts[i].len() && parts[i][k] == '\r';
            assert(s.contains(parts[i][k]));
        }
    }
    assert forall|i: int| 0 <= i < lines.len() implies lines[i] == parts[i] by {
        if parts[i].len() > 0 {
            assert(parts[i][parts[i].len() - 1] == parts[i].last());
        }
    }
    if parts.last().len() == 0 {
        assert(lines =~= parts.drop_last());
        if n > 1 {
            assert(joined(parts, '\n') =~= joined(lines, '\n').push('\n'));
        }
    } else {
        assert(lines =~= parts);
    }
}

proof fn lemma_parts_from_text(s: Seq<char>, sep: char, i: int)
    requires
        0 <= i < split(s, sep).len(),
    ensures
        forall|k: int|
            0 <= k < split(s, sep)[i].len() ==> s.contains(#[trigger] split(s, sep)[i][k]),
    decreases s.len(),
{
    let parts = split(s, sep);
    if s.len() > 0 {
        let d = s.drop_last();
        let before = split(d, sep);
        lemma_split_parts(d, sep);
        assert forall|k: int| 0 <= k < parts[i].len() implies s.contains(
            #[trigger] parts[i][k],
        ) by {
            if i < before.len() && k < before[i].len() {
                lemma_parts_from_text(d, sep, i);
                assert(parts[i][k] == before[i][k]);
                assert(d.contains(before[i][k]));
                let m = choose|m: int| 0 <= m < d.len() && d[m] == before[i][k];
                assert(s[m] == parts[i][k]);
            } else {
                assert(s[s.len() - 1] == parts[i][k]);
            }
        }
    }
}

/// A carriage return at the end of a line is not part of it.
pub proof fn law_carriage_returns_are_dropped(line: Seq<char>)
    ensures
        without_cr(line.push('\r')) == line,
        line.len() > 0 && line.last() != '\r' ==> without_cr(line) == line,
{
    assert(line.push('\r').drop_last() =~= line);
}

/// A line that ends with a carriage return and a line feed is read without either.
pub proof fn law_both_ends_of_a_line_are_dropped(line: Seq<char>, rest: Seq<char>)
    requires
        !line.contains('\n'),
    ensures
        lines_of(line.push('\r').push('\n') + rest).len() > 0,
        lines_of(line.push('\r').push('\n') + rest)[0] == line,
        lines_of(line.push('\n') + rest).len() > 0,
        line.len() > 0 && line.last() != '\r' ==> lines_of(line.push('\n') + rest)[0] == line,
{
    let r = line.push('\r');
    assert forall|i: int| 0 <= i < line.len() implies #[trigger] line[i] != '\n' by {
        if line[i] == '\n' {
            assert(line.contains('\n'));
        }
    }
    lemma_split_join(r, rest, '\n');
    lemma_split_whole(r, '\n');
    lemma_split_join(line, rest, '\n');
    lemma_split_whole(line, '\n');
    law_carriage_returns_are_dropped(line);
    assert(split(r.push('\n') + rest, '\n')[0] == r);
    assert(split(line.push('\n') + rest, '\n')[0] == line);
}

/// The character that is shown at a place, or a space.
pub open spec fn shown_char(m: Nodes, x: int, y: int) -> char {
    match cell_at(m, WorldCoords { x: x as i16, y: y as i16 }) {
        Some(c) => c.ch,
        None => ' ',
    }
}

proof fn lemma_row_text(m: Nodes, y: int, x0: int, n: nat)
    ensures
        row_text(m, y, x0, n).len() == n,
        forall|c: int| 0 <= c < n ==> #[trigger] row_text(m, y, x0, n)[c] == shown_char(m, x0 + c, y),
    decreases n,
{
    if n > 0 {
        lemma_row_text(m, y, x0, (n - 1) as nat);
    }
}

proof fn lemma_block_text(m: Nodes, x0: int, w: nat, y0: int, h: nat, r: int, c: int)
    requires
        0 < h,
        0 < w,
        0 <= r < h,
        0 <= c <= w,
    ensures
        block_text(m, x0, w, y0, h).len() == h * (w + 1) - 1,
        c < w ==> 0 <= r * (w + 1) + c < h * (w + 1) - 1 && block_text(m, x0, w, y0, h)[r * (w + 1)
            + c] == shown_char(m, x0 + c, y0 + r),
        c == w && r < h - 1 ==> 0 <= r * (w + 1) + c < h * (w + 1) - 1 && block_text(
            m,
            x0,
            w,
            y0,
            h,
        )[r * (w + 1) + c] == '\n',
    decreases h,
{
    lemma_row_text(m, y0 + h - 1, x0, w);
    assert(h * (w + 1) == (h - 1) * (w + 1) + (w + 1)) by (nonlinear_arith);
    assert(0 <= r * (w + 1)) by (nonlinear_arith)
        requires
            0 <= r,
    ;
    if h == 1 {
        assert(r == 0);
    } else {
        let before = block_text(m, x0, w, y0, (h - 1) as nat);
        let row = row_text(m, y0 + h - 1, x0, w);
        let all = block_text(m, x0, w, y0, h);
        assert(all == before.push('\n') + row);
        if r < h - 1 {
            lemma_block_text(m, x0, w, y0, (h - 1) as nat, r, c);
            assert((r + 1) * (w + 1) <= (h - 1) * (w + 1)) by (nonlinear_arith)
                requires
                    r + 1 <= h - 1,
            ;
            assert((r + 1) * (w + 1) == r * (w + 1) + (w + 1)) by (nonlinear_arith);
            if c == w && r == h - 2 {
                assert(r * (w + 1) + c == before.len());
            }
        } else {
            lemma_block_text(m, x0, w, y0, (h - 1) as nat, 0, 0);
            assert(r * (w + 1) == before.len() + 1);
        }
    }
}

/// What is copied of a rectangle is what is shown in it, row by row with a line
/// feed between the rows: the characters of the places, and spaces for those that
/// show nothing.
pub proof fn law_copy_reads_row_by_row(m: Nodes, rect: WorldRect, r: int, c: int)
    requires
        0 <= r <= rect.b.y - rect.a.y,
        0 <= c <= rect.b.x - rect.a.x + 1,
        rect.a.x <= rect.b.x,
    ensures
        ({
            let w = rect.b.x - rect.a.x + 1;
            let h = rect.b.y - rect.a.y + 1;
            let text = rect_text(m, rect);
            &&& text.len() == h * (w + 1) - 1
            &&& c < w ==> 0 <= r * (w + 1) + c < text.len() && text[r * (w + 1) + c] == shown_char(
                m,
                rect.a.x + c,
                rect.a.y + r,
            )
            &&& c == w && r < h - 1 ==> 0 <= r * (w + 1) + c < text.len() && text[r * (w + 1) + c]
                == '\n'
        }),
{
    lemma_block_text(
        m,
        rect.a.x as int,
        (rect.b.x - rect.a.x + 1) as nat,
        rect.a.y as int,
        (rect.b.y - rect.a.y + 1) as nat,
        r,
        c,
    );
}

/// What a template literal with the given characters between its quotes reads as;
/// nothing, if it would end early, or run code.
pub open spec fn template_reads(t: Seq<char>) -> Option<Seq<char>>
    decreases t.len(),
{
    if t.len() == 0 {
        Some(Seq::empty())
    } else if t[0] == '\\' {
        if t.len() < 2 {
            None
        } else {
            match template_reads(t.skip(2)) {
                Some(rest) => Some(seq![t[1]] + rest),
                None => None,
            }
        }
    } else if t[0] == '`' || (t[0] == '$' && t.len() > 1 && t[1] == '{') {
        None
    } else {
        match template_reads(t.drop_first()) {
            Some(rest) => Some(seq![t[0]] + rest),
            None => None,
        }
    }
}

/// Copied text is escaped so that a template literal reads it as it was.
pub proof fn law_escaped_text_reads_back(s: Seq<char>)
    ensures
        template_reads(template_escaped(s)) == Some(s),
    decreases s.len(),
{
    let t = template_escaped(s);
    if s.len() > 0 {
        let d = s.drop_first();
        let rest = template_escaped(d);
        law_escaped_text_reads_back(d);
        assert(seq![s[0]] + d =~= s);
        if s[0] == '\\' || s[0] == '`' || (s[0] == '$' && s.len() > 1 && s[1] == '{') {
            assert(t.skip(2) =~= rest);
        } else {
            assert(t.drop_first() =~= rest);
            if s[0] == '$' && rest.len() > 0 {
                assert(d.len() > 0);
                assert(rest[0] == d[0] || rest[0] == '\\');
            }
        }
    }
}

/// Copying puts what is marked, read row by row, where it can be pasted from;
/// with nothing marked, nothing is done.
pub proof fn law_copying_copies_what_is_marked(v: EditorView, now: i64)
    ensures
        ({
            let a = v.dispatched(Action::CopySelection, now);
            let (p, q) = (v.ui.cursor.sel.span.a, v.ui.cursor.sel.span.b);
            let rect = WorldRect {
                a: WorldCoords {
                    x: if p.x <= q.x {
                        p.x
                    } else {
                        q.x
                    },
                    y: if p.y <= q.y {
                        p.y
                    } else {
                        q.y
                    },
                },
                b: WorldCoords {
                    x: if p.x <= q.x {
                        q.x
                    } else {
                        p.x
                    },
                    y: if p.y <= q.y {
                        q.y
                    } else {
                        p.y
                    },
                },
            };
            &&& a.board == v.board
            &&& a.ui == v.ui
            &&& !v.ui.cursor.sel.active ==> a == v
            &&& v.ui.cursor.sel.active ==> a.net.todo.len() == v.net.todo.len() + 2
                && a.net.todo[v.net.todo.len() as int] == OrderView::CopyText(
                template_escaped(rect_text(v.board.nodes, rect)),
            )
        }),
{
}

} // verus!
