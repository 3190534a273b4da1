//! What the editor does when it is used.

use vstd::prelude::*;

use crate::chunks::{cell_at, nodes_wf, ChunkManager, Nodes};
use crate::coords::{WorldCoords, WorldRect, BOARD_HALF};
use crate::color::Rgb;
use crate::editor::{
    all_written, chunks_of, distinct_chunks, law_undo_restores, lemma_rebuilt_keeps,
    lemma_undone_board, same_cells, Editor, EditorView,
};
use crate::link::{detect_link, link_at, LinkView, LINK_REACH};
use crate::parse::{split, split_at};
use crate::text::chars_of;
use crate::ui::{
    CanvasCell, CursorState, HoveredLink, Order, OrderView, Selection, UndoEntry, UNDO_LIMIT,
};

verus! {

/// Something that the user does.
pub enum Action {
    MoveCursor { dx: i64, dy: i64 },
    /// Down by so many rows, which are those in view.
    MoveCursorPageDown { rows: i64 },
    MoveCursorPageUp { rows: i64 },
    MoveCursorLineStart,
    MoveCursorNewline,
    JumpCursor { pos: WorldCoords },
    TypeChar(char),
    DeleteBackward,
    DeleteForward,
    ZoomReset,
    PanEnd,
    MouseLeave,
    SnapTo { pos: WorldCoords },
    SelectExtend { pos: WorldCoords },
    SelectExtendBy { dx: i64, dy: i64 },
    SelectDrag { pos: WorldCoords },
    SelectEnd { pos: WorldCoords },
    SelectClear,
    Undo,
    CopySelection,
    PasteText(String),
    TogglePanel(String),
    FollowLink(HoveredLink),
    /// A cell was touched for a moment.
    Tap { pos: WorldCoords },
    MobileChar(char),
    MobileNewline,
    MobileBackspace,
}

/// A line without the carriage return at its end.
pub open spec fn without_cr(s: Seq<char>) -> Seq<char> {
    if s.len() > 0 && s.last() == '\r' {
        s.drop_last()
    } else {
        s
    }
}

/// The lines of a text: each ends with a line feed, which a carriage return may
/// stand before, but the last need not.
pub open spec fn lines_of(s: Seq<char>) -> Seq<Seq<char>> {
    let parts = split(s, '\n');
    let n = parts.len();
    Seq::new(
        if parts.last().len() == 0 {
            (n - 1) as nat
        } else {
            n
        },
        |i: int|
            if i < n - 1 {
                without_cr(parts[i])
            } else {
                parts[i]
            },
    )
}

/// Where the lines of `v` begin and end.
pub fn line_spans(v: &Vec<char>) -> (r: Vec<(usize, usize)>)
    ensures
        r@.len() == lines_of(v@).len(),
        forall|k: int|
            0 <= k < r@.len() ==> (#[trigger] r@[k]).0 <= r@[k].1 <= v@.len() && v@.subrange(
                r@[k].0 as int,
                r@[k].1 as int,
            ) == lines_of(v@)[k],
{
    let parts = split_at(v, '\n');
    let n: usize = parts.len();
    let mut out: Vec<(usize, usize)> = Vec::new();
    let mut i: usize = 0;
    while i < n - 1
        invariant
            n == parts@.len(),
            n >= 1,
            n == split(v@, '\n').len(),
            i <= n - 1,
            out@.len() == i,
            forall|k: int|
                0 <= k < n ==> (#[trigger] parts@[k]).0 <= parts@[k].1 <= v@.len() && v@.subrange(
                    parts@[k].0 as int,
                    parts@[k].1 as int,
                ) == split(v@, '\n')[k],
            forall|k: int|
                0 <= k < i ==> (#[trigger] out@[k]).0 <= out@[k].1 <= v@.len() && v@.subrange(
                    out@[k].0 as int,
                    out@[k].1 as int,
                ) == without_cr(split(v@, '\n')[k]),
        decreases n - i,
    {
        let (a, b) = parts[i];
        let ghost part = v@.subrange(a as int, b as int);
        if a < b && v[b - 1] == '\r' {
            assert(part.last() == '\r');
            assert(v@.subrange(a as int, b - 1) =~= without_cr(part));
            out.push((a, b - 1));
        } else {
            assert(part.len() > 0 ==> part.last() == v@[b - 1]);
            out.push((a, b));
        }
        i = i + 1;
    }
    let (a, b) = parts[n - 1];
    assert(v@.subrange(a as int, b as int) == split(v@, '\n').last());
    if a < b {
        out.push((a, b));
    }
    out
}

/// The longest line, and the most lines, that are pasted.
pub const MAX_PASTE: usize = 2048;

/// The first characters of a line, pasted into row `wy` from column `x0` on.
pub open spec fn line_pasted(
    v: EditorView,
    x0: int,
    wy: int,
    line: Seq<char>,
    n: nat,
    now: i64,
) -> EditorView
    decreases n,
{
    if n == 0 {
        v
    } else {
        let before = line_pasted(v, x0, wy, line, (n - 1) as nat, now);
        let wx = x0 + n - 1;
        if -BOARD_HALF <= wx < BOARD_HALF && -BOARD_HALF <= wy < BOARD_HALF {
            before.written(
                WorldCoords { x: wx as i16, y: wy as i16 },
                CanvasCell::spec_typed(line[n - 1], before.ui.color, before.ui.my_id, now),
            )
        } else {
            before
        }
    }
}

/// The cells that pasting the first characters of a line writes.
pub open spec fn line_cells(x0: int, wy: int, n: nat) -> Seq<WorldCoords>
    decreases n,
{
    if n == 0 {
        Seq::empty()
    } else {
        let before = line_cells(x0, wy, (n - 1) as nat);
        let wx = x0 + n - 1;
        if -BOARD_HALF <= wx < BOARD_HALF && -BOARD_HALF <= wy < BOARD_HALF {
            before.push(WorldCoords { x: wx as i16, y: wy as i16 })
        } else {
            before
        }
    }
}

/// Number of characters of a line that are pasted.
pub open spec fn paste_width(line: Seq<char>) -> nat {
    if line.len() > MAX_PASTE {
        MAX_PASTE as nat
    } else {
        line.len()
    }
}

/// The first lines of a text, pasted at `origin`.
pub open spec fn lines_pasted(
    v: EditorView,
    origin: WorldCoords,
    lines: Seq<Seq<char>>,
    n: nat,
    now: i64,
) -> EditorView
    decreases n,
{
    if n == 0 {
        v
    } else {
        let before = lines_pasted(v, origin, lines, (n - 1) as nat, now);
        line_pasted(
            before,
            origin.x as int,
            origin.y + n - 1,
            lines[n - 1],
            paste_width(lines[n - 1]),
            now,
        )
    }
}

/// The cells that pasting the first lines of a text writes.
pub open spec fn paste_cells(origin: WorldCoords, lines: Seq<Seq<char>>, n: nat) -> Seq<WorldCoords>
    decreases n,
{
    if n == 0 {
        Seq::empty()
    } else {
        paste_cells(origin, lines, (n - 1) as nat) + line_cells(
            origin.x as int,
            origin.y + n - 1,
            paste_width(lines[n - 1]),
        )
    }
}

/// Number of lines of a text that are pasted.
pub open spec fn paste_height(text: Seq<char>) -> nat {
    if lines_of(text).len() > MAX_PASTE {
        MAX_PASTE as nat
    } else {
        lines_of(text).len()
    }
}

impl EditorView {
    /// `text` is pasted at the cursor, as one step, and the cursor stands below
    /// where it stood, in the last line.
    pub open spec fn pasted(self, text: Seq<char>, now: i64) -> EditorView {
        let origin = self.ui.cursor.pos;
        let rows = paste_height(text);
        let begun = EditorView { ui: self.ui.batch_begun(), ..self };
        let done = lines_pasted(begun, origin, lines_of(text), rows, now);
        let ended = EditorView { ui: done.ui.batch_ended(), ..done };
        ended.moved(
            WorldCoords::nearest(
                origin.x as int,
                origin.y + (if rows == 0 {
                    0
                } else {
                    rows - 1
                }),
            ),
        ).rebuilt(chunks_of(paste_cells(origin, lines_of(text), rows))).scrolled().drawn()
    }
}

impl Editor {
    fn paste_line(
        &mut self,
        cells: &mut Vec<WorldCoords>,
        v: &Vec<char>,
        from: usize,
        to: usize,
        x0: i16,
        wy: i64,
        now: i64,
    )
        requires
            old(self).wf(),
            from <= to <= v@.len(),
        ensures
            final(self).wf(),
            final(self)@ == line_pasted(
                old(self)@,
                x0 as int,
                wy as int,
                v@.subrange(from as int, to as int),
                paste_width(v@.subrange(from as int, to as int)),
                now,
            ),
            final(cells)@ == old(cells)@ + line_cells(
                x0 as int,
                wy as int,
                paste_width(v@.subrange(from as int, to as int)),
            ),
    {
        let ghost line = v@.subrange(from as int, to as int);
        let n: usize = if to - from > MAX_PASTE {
            MAX_PASTE
        } else {
            to - from
        };
        let mut k: usize = 0;
        assert(cells@ + line_cells(x0 as int, wy as int, 0) =~= cells@);
        while k < n
            invariant
                k <= n <= MAX_PASTE,
                n == paste_width(line),
                line == v@.subrange(from as int, to as int),
                from + n <= to <= v@.len(),
                self.wf(),
                self@ == line_pasted(old(self)@, x0 as int, wy as int, line, k as nat, now),
                cells@ == old(cells)@ + line_cells(x0 as int, wy as int, k as nat),
            decreases n - k,
        {
            let wx: i64 = x0 as i64 + k as i64;
            if -BOARD_HALF <= wx && wx < BOARD_HALF && -BOARD_HALF <= wy && wy < BOARD_HALF {
                let pos = WorldCoords { x: wx as i16, y: wy as i16 };
                let cell = CanvasCell::typed(v[from + k], self.ui.color, self.ui.my_id, now);
                self.write_cell(pos, cell);
                cells.push(pos);
                assert(cells@ =~= old(cells)@ + line_cells(x0 as int, wy as int, (k + 1) as nat));
            }
            k = k + 1;
        }
    }

    /// Pastes a text at the cursor.
    pub fn paste_text_impl(&mut self, text: &str, now: i64)
        requires
            old(self).wf(),
        ensures
            final(self).wf(),
            final(self)@ == old(self)@.pasted(text@, now),
    {
        let v = chars_of(text);
        let spans = line_spans(&v);
        let rows: usize = if spans.len() > MAX_PASTE {
            MAX_PASTE
        } else {
            spans.len()
        };
        let origin = self.ui.cursor.pos;
        self.ui.begin_undo_batch();
        let ghost begun = self@;
        assert(begun =~= (EditorView { ui: old(self)@.ui.batch_begun(), ..old(self)@ }));
        let ghost lines = lines_of(text@);
        let mut cells: Vec<WorldCoords> = Vec::new();
        let mut row: usize = 0;
        while row < rows
            invariant
                row <= rows <= MAX_PASTE,
                rows <= spans@.len(),
                spans@.len() == lines.len(),
                forall|k: int|
                    0 <= k < spans@.len() ==> (#[trigger] spans@[k]).0 <= spans@[k].1 <= v@.len()
                        && v@.subrange(spans@[k].0 as int, spans@[k].1 as int) == lines[k],
                self.wf(),
                self@ == lines_pasted(begun, origin, lines, row as nat, now),
                cells@ == paste_cells(origin, lines, row as nat),
            decreases rows - row,
        {
            let (from, to) = spans[row];
            self.paste_line(&mut cells, &v, from, to, origin.x, origin.y as i64 + row as i64, now);
            row = row + 1;
        }
        self.ui.end_undo_batch();
        let down: i64 = if rows == 0 {
            0
        } else {
            rows as i64 - 1
        };
        self.move_to(WorldCoords::from_i64(origin.x as i64, origin.y as i64 + down));
        let dirty = distinct_chunks(&cells);
        self.rebuild(&dirty);
        self.scroll_to_cursor();
        self.draw();
    }
}

/// The characters of `n` columns of a row from `x0` on, with spaces for gaps.
pub open spec fn row_text(m: Nodes, y: int, x0: int, n: nat) -> Seq<char>
    decreases n,
{
    if n == 0 {
        Seq::empty()
    } else {
        row_text(m, y, x0, (n - 1) as nat).push(
            match cell_at(m, WorldCoords { x: (x0 + n - 1) as i16, y: y as i16 }) {
                Some(c) => c.ch,
                None => ' ',
            },
        )
    }
}

/// The rows of a block, one below the other.
pub open spec fn block_text(m: Nodes, x0: int, w: nat, y0: int, h: nat) -> Seq<char>
    decreases h,
{
    if h == 0 {
        Seq::empty()
    } else if h == 1 {
        row_text(m, y0, x0, w)
    } else {
        block_text(m, x0, w, y0, (h - 1) as nat).push('\n') + row_text(m, y0 + h - 1, x0, w)
    }
}

/// What is written in the cells of a rectangle.
pub open spec fn rect_text(m: Nodes, r: WorldRect) -> Seq<char> {
    block_text(
        m,
        r.a.x as int,
        (r.b.x - r.a.x + 1) as nat,
        r.a.y as int,
        (r.b.y - r.a.y + 1) as nat,
    )
}

/// `s` with a backslash before whatever has a meaning in a template literal.
pub open spec fn template_escaped(s: Seq<char>) -> Seq<char>
    decreases s.len(),
{
    if s.len() == 0 {
        Seq::empty()
    } else {
        let rest = template_escaped(s.drop_first());
        if s[0] == '\\' || s[0] == '`' || (s[0] == '$' && s.len() > 1 && s[1] == '{') {
            seq!['\\', s[0]] + rest
        } else {
            seq![s[0]] + rest
        }
    }
}

fn push_row(out: &mut String, board: &ChunkManager, y: i16, x0: i16, x1: i16)
    requires
        board.wf(),
        x0 <= x1,
    ensures
        final(out)@ == old(out)@ + row_text(
            board@,
            y as int,
            x0 as int,
            (x1 - x0 + 1) as nat,
        ),
{
    let mut x: i32 = x0 as i32;
    assert(out@ + row_text(board@, y as int, x0 as int, 0) =~= out@);
    while x <= x1 as i32
        invariant
            board.wf(),
            x0 <= x <= x1 + 1,
            out@ == old(out)@ + row_text(board@, y as int, x0 as int, (x - x0) as nat),
        decreases x1 + 1 - x,
    {
        let c: char = match board.get_cell(WorldCoords { x: x as i16, y }) {
            Some(c) => c.ch,
            None => ' ',
        };
        out.push(c);
        assert(out@ =~= old(out)@ + row_text(board@, y as int, x0 as int, (x + 1 - x0) as nat));
        x = x + 1;
    }
}

/// What is written in the cells of a rectangle.
pub fn text_in(board: &ChunkManager, r: &WorldRect) -> (out: String)
    requires
        board.wf(),
        r.a.x <= r.b.x,
        r.a.y <= r.b.y,
    ensures
        out@ == rect_text(board@, *r),
{
    let ghost w = (r.b.x - r.a.x + 1) as nat;
    let mut out = String::new();
    push_row(&mut out, board, r.a.y, r.a.x, r.b.x);
    assert(out@ =~= block_text(board@, r.a.x as int, w, r.a.y as int, 1));
    let mut y: i32 = r.a.y as i32 + 1;
    while y <= r.b.y as i32
        invariant
            board.wf(),
            r.a.x <= r.b.x,
            r.a.y < y <= r.b.y + 1,
            w == r.b.x - r.a.x + 1,
            out@ == block_text(board@, r.a.x as int, w, r.a.y as int, (y - r.a.y) as nat),
        decreases r.b.y + 1 - y,
    {
        out.push('\n');
        push_row(&mut out, board, y as i16, r.a.x, r.b.x);
        y = y + 1;
    }
    out
}

/// `s` with a backslash before whatever has a meaning in a template literal.
pub fn escape_template(s: &str) -> (r: String)
    ensures
        r@ == template_escaped(s@),
{
    let v = chars_of(s);
    let mut out = String::new();
    let mut i: usize = 0;
    assert(v@.skip(0) =~= v@);
    assert(out@ + template_escaped(v@.skip(0)) =~= template_escaped(v@));
    while i < v.len()
        invariant
            i <= v@.len(),
            out@ + template_escaped(v@.skip(i as int)) == template_escaped(v@),
        decreases v@.len() - i,
    {
        let c: char = v[i];
        let ghost rest = v@.skip(i as int);
        let ghost before = out@;
        assert(rest.drop_first() =~= v@.skip(i + 1));
        let special = c == '\\' || c == '`' || (c == '$' && i + 1 < v.len() && v[i + 1] == '{');
        if special {
            out.push('\\');
        }
        out.push(c);
        assert(out@ + template_escaped(v@.skip(i + 1)) =~= before + template_escaped(rest));
        i = i + 1;
    }
    assert(v@.skip(i as int) =~= Seq::<char>::empty());
    assert(out@ + Seq::<char>::empty() =~= out@);
    out
}

/// The selection without a hand on it.
pub open spec fn undragged(c: CursorState) -> CursorState {
    CursorState { sel: Selection { drag: false, ..c.sel }, ..c }
}

impl EditorView {
    /// What is selected is to be copied.
    pub open spec fn copied(self) -> EditorView {
        let sel = self.ui.cursor.sel;
        if !sel.active {
            self
        } else {
            let text = rect_text(self.board.nodes, WorldRect::spanned(sel.span.a, sel.span.b));
            self.ordered(OrderView::CopyText(template_escaped(text))).ordered(
                OrderView::Status("copied"@),
            )
        }
    }

    /// A character is typed, and the cursor moves on.
    pub open spec fn typed(self, ch: char, now: i64) -> EditorView {
        let pos = self.ui.cursor.pos;
        self.written(
            pos,
            CanvasCell::spec_typed(ch, self.ui.color, self.ui.my_id, now),
        ).ordered(OrderView::RebuildChunk(pos.chunk())).moved(
            pos.moved_by(1, 0),
        ).scrolled().drawn()
    }

    /// The character before the cursor is deleted.
    pub open spec fn deleted_backward(self) -> EditorView {
        let pos = self.ui.cursor.pos.moved_by(-1, 0);
        self.moved(pos).written(pos, None).ordered(
            OrderView::RebuildChunk(pos.chunk()),
        ).scrolled().drawn()
    }

    /// The character under the cursor is deleted, and the cursor moves on.
    pub open spec fn deleted_forward(self) -> EditorView {
        let pos = self.ui.cursor.pos;
        self.written(pos, None).ordered(OrderView::RebuildChunk(pos.chunk())).moved(
            pos.moved_by(1, 0),
        ).scrolled().drawn()
    }

    /// The cursor is at the start of the next line.
    pub open spec fn newline(self) -> EditorView {
        let below = self.ui.cursor.pos.moved_by(0, 1);
        self.moved(WorldCoords { x: 0, y: below.y }).scrolled().drawn()
    }

    /// A link is followed.
    pub open spec fn followed(self, link: LinkView) -> EditorView {
        match link {
            LinkView::Coord(pos) => self.snapped(pos).drawn(),
            LinkView::Url(url) => self.ordered(OrderView::OpenUrl(url)),
        }
    }

    /// A cell is touched: a link there is followed, otherwise the cursor moves
    /// there, ready to type.
    pub open spec fn tapped(self, pos: WorldCoords) -> EditorView {
        match link_at(self.board.nodes, pos) {
            Some(link) => self.followed(link),
            None => self.moved(pos).scrolled().drawn().ordered(OrderView::FocusMobileInput),
        }
    }

    pub open spec fn with_sel(self, cursor: CursorState) -> EditorView {
        EditorView { ui: self.ui.with_cursor(cursor), ..self }
    }

    /// What `action` makes of this.
    pub open spec fn dispatched(self, action: Action, now: i64) -> EditorView {
        let cursor = self.ui.cursor;
        let pos = cursor.pos;
        match action {
            Action::MoveCursor { dx, dy } => self.moved(
                pos.moved_by(dx as int, dy as int),
            ).scrolled().drawn(),
            Action::MoveCursorPageDown { rows } => self.moved(
                pos.moved_by(0, rows as int),
            ).scrolled().drawn(),
            Action::MoveCursorPageUp { rows } => self.moved(
                pos.moved_by(0, -rows),
            ).scrolled().drawn(),
            Action::MoveCursorLineStart => self.moved(
                WorldCoords { x: 0, y: pos.y },
            ).scrolled().drawn(),
            Action::MoveCursorNewline => self.newline(),
            Action::JumpCursor { pos } => self.moved(pos).drawn(),
            Action::TypeChar(ch) => self.typed(ch, now),
            Action::DeleteBackward => self.deleted_backward(),
            Action::DeleteForward => self.deleted_forward(),
            Action::ZoomReset => self.moved(WorldCoords { x: 0, y: 0 }).drawn(),
            Action::PanEnd => self.with_sel(undragged(cursor)).ordered(
                OrderView::SaveLayout,
            ).scheduled(),
            Action::MouseLeave => self.with_sel(undragged(cursor)).ordered(
                OrderView::HideTooltips,
            ),
            Action::SnapTo { pos } => self.snapped(pos).drawn(),
            Action::SelectExtend { pos } => {
                let v = self.at(cursor.selecting(pos));
                v.with_sel(
                    CursorState {
                        sel: Selection { drag: true, ..v.ui.cursor.sel },
                        ..v.ui.cursor
                    },
                ).scrolled().drawn()
            },
            Action::SelectExtendBy { dx, dy } => self.at(
                cursor.selecting(pos.moved_by(dx as int, dy as int)),
            ).scrolled().drawn(),
            Action::SelectDrag { pos } => self.at(cursor.dragging(pos)).drawn(),
            Action::SelectEnd { pos } => self.with_sel(
                CursorState {
                    pos,
                    sel: Selection {
                        drag: false,
                        span: WorldRect { a: cursor.sel.span.a, b: pos },
                        ..cursor.sel
                    },
                    ..cursor
                },
            ).drawn(),
            Action::SelectClear => self.with_sel(
                CursorState {
                    sel: Selection { active: false, drag: false, ..cursor.sel },
                    ..cursor
                },
            ).redrawn(),
            Action::Undo => self.undone().drawn(),
            Action::CopySelection => self.copied(),
            Action::PasteText(text) => self.pasted(text@, now),
            Action::TogglePanel(id) => self.toggled(id@),
            Action::FollowLink(link) => self.followed(link@),
            Action::Tap { pos } => self.tapped(pos),
            Action::MobileChar(ch) => self.typed(ch, now),
            Action::MobileNewline => self.newline(),
            Action::MobileBackspace => self.deleted_backward(),
        }
    }

    /// No number that `action` needs is too large.
    pub open spec fn can_dispatch(self, action: Action) -> bool {
        let pos = self.ui.cursor.pos;
        match action {
            Action::MoveCursor { dx, dy } | Action::SelectExtendBy { dx, dy } => {
                &&& i64::MIN <= pos.x + dx <= i64::MAX
                &&& i64::MIN <= pos.y + dy <= i64::MAX
            },
            Action::MoveCursorPageDown { rows } => i64::MIN <= pos.y + rows <= i64::MAX,
            Action::MoveCursorPageUp { rows } => {
                &&& i64::MIN < rows
                &&& i64::MIN <= pos.y - rows <= i64::MAX
            },
            Action::Tap { pos } => i16::MIN + LINK_REACH <= pos.x <= i16::MAX - LINK_REACH,
            _ => true,
        }
    }
}

impl Editor {
    fn go(&mut self, pos: WorldCoords)
        ensures
            final(self)@ == old(self)@.moved(pos).scrolled().drawn(),
            old(self).wf() ==> final(self).wf(),
    {
        self.move_to(pos);
        self.scroll_to_cursor();
        self.draw();
    }

    fn go_newline(&mut self)
        ensures
            final(self)@ == old(self)@.newline(),
            old(self).wf() ==> final(self).wf(),
    {
        let below = self.ui.cursor.pos.offset(0, 1);
        self.go(WorldCoords { x: 0, y: below.y });
    }

    fn write_and_go_on(&mut self, cell: Option<CanvasCell>)
        requires
            old(self).wf(),
        ensures
            final(self).wf(),
            final(self)@ == ({
                let pos = old(self)@.ui.cursor.pos;
                old(self)@.written(pos, cell).ordered(OrderView::RebuildChunk(pos.chunk())).moved(
                    pos.moved_by(1, 0),
                ).scrolled().drawn()
            }),
    {
        let pos = self.ui.cursor.pos;
        self.write_cell(pos, cell);
        self.order(Order::RebuildChunk(pos.to_chunk().0));
        self.go(pos.offset(1, 0));
    }

    fn type_char(&mut self, ch: char, now: i64)
        requires
            old(self).wf(),
        ensures
            final(self).wf(),
            final(self)@ == old(self)@.typed(ch, now),
    {
        let cell = CanvasCell::typed(ch, self.ui.color, self.ui.my_id, now);
        self.write_and_go_on(cell);
    }

    fn delete_backward(&mut self)
        requires
            old(self).wf(),
        ensures
            final(self).wf(),
            final(self)@ == old(self)@.deleted_backward(),
    {
        let pos = self.ui.cursor.pos.offset(-1, 0);
        self.move_to(pos);
        self.write_cell(pos, None);
        self.order(Order::RebuildChunk(pos.to_chunk().0));
        self.scroll_to_cursor();
        self.draw();
    }

    fn copy_selection(&mut self)
        requires
            old(self).wf(),
        ensures
            final(self).wf(),
            final(self)@ == old(self)@.copied(),
    {
        if !self.ui.cursor.sel.active {
            return;
        }
        let rect = self.ui.cursor.sel.rect();
        let text = text_in(&self.board.chunk_manager, &rect);
        self.order(Order::CopyText(escape_template(text.as_str())));
        self.order(Order::Status("copied".to_string()));
    }

    fn follow(&mut self, link: HoveredLink)
        ensures
            final(self)@ == old(self)@.followed(link@),
            old(self).wf() ==> final(self).wf(),
    {
        match link {
            HoveredLink::Coord(pos) => {
                self.snap_to(pos);
                self.draw();
            },
            HoveredLink::Url(url) => {
                self.order(Order::OpenUrl(url));
            },
        }
    }

    fn tap(&mut self, pos: WorldCoords)
        requires
            old(self).wf(),
            i16::MIN + LINK_REACH <= pos.x <= i16::MAX - LINK_REACH,
        ensures
            final(self).wf(),
            final(self)@ == old(self)@.tapped(pos),
    {
        match detect_link(&self.board.chunk_manager, pos) {
            Some(link) => {
                self.follow(link);
            },
            None => {
                self.go(pos);
                self.order(Order::FocusMobileInput);
            },
        }
    }

    fn select(&mut self, action: Action)
        requires
            old(self).wf(),
            old(self)@.can_dispatch(action),
            action is SelectExtend || action is SelectExtendBy || action is SelectDrag
                || action is SelectEnd || action is SelectClear,
        ensures
            final(self).wf(),
            final(self)@ == old(self)@.dispatched(action, 0),
    {
        let color = self.ui.color;
        match action {
            Action::SelectExtend { pos } => {
                self.ui.cursor.select_to(pos, color, &mut self.net);
                self.ui.cursor.sel.drag = true;
                self.scroll_to_cursor();
                self.draw();
            },
            Action::SelectExtendBy { dx, dy } => {
                let end = self.ui.cursor.pos.offset(dx, dy);
                self.ui.cursor.select_to(end, color, &mut self.net);
                self.scroll_to_cursor();
                self.draw();
            },
            Action::SelectDrag { pos } => {
                self.ui.cursor.drag_sel_to(pos, color, &mut self.net);
                self.draw();
            },
            Action::SelectEnd { pos } => {
                self.ui.cursor.sel.end_drag(pos);
                self.ui.cursor.pos = pos;
                self.draw();
            },
            Action::SelectClear => {
                self.ui.cursor.sel.clear();
                self.render_all();
            },
            _ => {},
        }
    }

    /// Does what the user asks for.
    pub fn dispatch(&mut self, action: Action, now: i64)
        requires
            old(self).wf(),
            old(self)@.can_dispatch(action),
        ensures
            final(self).wf(),
            final(self)@ == old(self)@.dispatched(action, now),
    {
        let pos = self.ui.cursor.pos;
        match action {
            Action::MoveCursor { dx, dy } => self.go(pos.offset(dx, dy)),
            Action::MoveCursorPageDown { rows } => self.go(pos.offset(0, rows)),
            Action::MoveCursorPageUp { rows } => self.go(pos.offset(0, -rows)),
            Action::MoveCursorLineStart => self.go(WorldCoords { x: 0, y: pos.y }),
            Action::MoveCursorNewline => self.go_newline(),
            Action::JumpCursor { pos } => {
                self.move_to(pos);
                self.draw();
            },
            Action::TypeChar(ch) => self.type_char(ch, now),
            Action::DeleteBackward => self.delete_backward(),
            Action::DeleteForward => self.write_and_go_on(None),
            Action::ZoomReset => {
                self.move_to(WorldCoords { x: 0, y: 0 });
                self.draw();
            },
            Action::PanEnd => {
                self.ui.cursor.sel.drag = false;
                self.order(Order::SaveLayout);
                self.schedule_render();
            },
            Action::MouseLeave => {
                self.ui.cursor.sel.drag = false;
                self.order(Order::HideTooltips);
            },
            Action::SnapTo { pos } => {
                self.snap_to(pos);
                self.draw();
            },
            Action::SelectExtend { pos } => self.select(Action::SelectExtend { pos }),
            Action::SelectExtendBy { dx, dy } => self.select(Action::SelectExtendBy { dx, dy }),
            Action::SelectDrag { pos } => self.select(Action::SelectDrag { pos }),
            Action::SelectEnd { pos } => self.select(Action::SelectEnd { pos }),
            Action::SelectClear => self.select(Action::SelectClear),
            Action::Undo => {
                self.undo();
                self.draw();
            },
            Action::CopySelection => self.copy_selection(),
            Action::PasteText(text) => self.paste_text_impl(text.as_str(), now),
            Action::TogglePanel(id) => self.toggle(id.as_str()),
            Action::FollowLink(link) => self.follow(link),
            Action::Tap { pos } => self.tap(pos),
            Action::MobileChar(ch) => self.type_char(ch, now),
            Action::MobileNewline => self.go_newline(),
            Action::MobileBackspace => self.delete_backward(),
        }
    }
}

/// What pasting the first characters of a line writes, and where.
spec fn line_writes(
    color: Rgb,
    id: u32,
    x0: int,
    wy: int,
    line: Seq<char>,
    n: nat,
    now: i64,
) -> Seq<UndoEntry>
    decreases n,
{
    if n == 0 {
        Seq::empty()
    } else {
        let before = line_writes(color, id, x0, wy, line, (n - 1) as nat, now);
        let wx = x0 + n - 1;
        if -BOARD_HALF <= wx < BOARD_HALF && -BOARD_HALF <= wy < BOARD_HALF {
            before.push(
                (
                    WorldCoords { x: wx as i16, y: wy as i16 },
                    CanvasCell::spec_typed(line[n - 1], color, id, now),
                ),
            )
        } else {
            before
        }
    }
}

/// What pasting the first lines of a text writes, and where.
spec fn paste_writes(
    color: Rgb,
    id: u32,
    origin: WorldCoords,
    lines: Seq<Seq<char>>,
    n: nat,
    now: i64,
) -> Seq<UndoEntry>
    decreases n,
{
    if n == 0 {
        Seq::empty()
    } else {
        paste_writes(color, id, origin, lines, (n - 1) as nat, now) + line_writes(
            color,
            id,
            origin.x as int,
            origin.y + n - 1,
            lines[n - 1],
            paste_width(lines[n - 1]),
            now,
        )
    }
}

proof fn lemma_writes_keep_author(v: EditorView, ws: Seq<UndoEntry>)
    ensures
        all_written(v, ws).ui.color == v.ui.color,
        all_written(v, ws).ui.my_id == v.ui.my_id,
    decreases ws.len(),
{
    if ws.len() > 0 {
        lemma_writes_keep_author(v, ws.drop_last());
    }
}

proof fn lemma_writes_join(v: EditorView, a: Seq<UndoEntry>, b: Seq<UndoEntry>)
    ensures
        all_written(all_written(v, a), b) == all_written(v, a + b),
    decreases b.len(),
{
    if b.len() == 0 {
        assert(a + b =~= a);
    } else {
        assert((a + b).drop_last() =~= a + b.drop_last());
        lemma_writes_join(v, a, b.drop_last());
    }
}

proof fn lemma_line_writes(
    v: EditorView,
    x0: int,
    wy: int,
    line: Seq<char>,
    n: nat,
    now: i64,
)
    ensures
        line_pasted(v, x0, wy, line, n, now) == all_written(
            v,
            line_writes(v.ui.color, v.ui.my_id, x0, wy, line, n, now),
        ),
        line_writes(v.ui.color, v.ui.my_id, x0, wy, line, n, now).len() == line_cells(
            x0,
            wy,
            n,
        ).len(),
    decreases n,
{
    if n > 0 {
        lemma_line_writes(v, x0, wy, line, (n - 1) as nat, now);
        let before = line_writes(v.ui.color, v.ui.my_id, x0, wy, line, (n - 1) as nat, now);
        let ws = line_writes(v.ui.color, v.ui.my_id, x0, wy, line, n, now);
        lemma_writes_keep_author(v, before);
        if ws.len() > before.len() {
            assert(ws.drop_last() =~= before);
        }
    }
}

proof fn lemma_paste_writes(
    v: EditorView,
    origin: WorldCoords,
    lines: Seq<Seq<char>>,
    n: nat,
    now: i64,
)
    ensures
        lines_pasted(v, origin, lines, n, now) == all_written(
            v,
            paste_writes(v.ui.color, v.ui.my_id, origin, lines, n, now),
        ),
        paste_writes(v.ui.color, v.ui.my_id, origin, lines, n, now).len() == paste_cells(
            origin,
            lines,
            n,
        ).len(),
    decreases n,
{
    if n > 0 {
        lemma_paste_writes(v, origin, lines, (n - 1) as nat, now);
        let a = paste_writes(v.ui.color, v.ui.my_id, origin, lines, (n - 1) as nat, now);
        lemma_writes_keep_author(v, a);
        let mid = all_written(v, a);
        let line = lines[n - 1];
        lemma_line_writes(mid, origin.x as int, origin.y + n - 1, line, paste_width(line), now);
        let b = line_writes(
            v.ui.color,
            v.ui.my_id,
            origin.x as int,
            origin.y + n - 1,
            line,
            paste_width(line),
            now,
        );
        lemma_writes_join(v, a, b);
    }
}

/// A paste that writes anything is one step: undoing it takes all of it back, and
/// the step is off the stack.
pub proof fn law_paste_is_one_step(v: EditorView, text: Seq<char>, now: i64)
    requires
        nodes_wf(v.board.nodes),
        paste_cells(v.ui.cursor.pos, lines_of(text), paste_height(text)).len() > 0,
    ensures
        same_cells(v.pasted(text, now).undone().board.nodes, v.board.nodes),
        v.pasted(text, now).undone().ui.steps == (if v.ui.steps.len() + 1 > UNDO_LIMIT {
            v.ui.steps.drop_first()
        } else {
            v.ui.steps
        }),
{
    let origin = v.ui.cursor.pos;
    let begun = EditorView { ui: v.ui.batch_begun(), ..v };
    let ws = paste_writes(
        v.ui.color,
        v.ui.my_id,
        origin,
        lines_of(text),
        paste_height(text),
        now,
    );
    lemma_paste_writes(begun, origin, lines_of(text), paste_height(text), now);
    law_undo_restores(v, ws);
    let done = all_written(begun, ws);
    let ended = EditorView { ui: done.ui.batch_ended(), ..done };
    let p = v.pasted(text, now);
    let cells = paste_cells(origin, lines_of(text), paste_height(text));
    let moved = ended.moved(
        WorldCoords::nearest(
            origin.x as int,
            origin.y + (if paste_height(text) == 0 {
                0
            } else {
                paste_height(text) - 1
            }),
        ),
    );
    lemma_rebuilt_keeps(moved, chunks_of(cells));
    assert(p.board == ended.board);
    assert(p.ui.steps == ended.ui.steps);
    lemma_undone_board(p);
    lemma_undone_board(ended);
}

} // verus!
