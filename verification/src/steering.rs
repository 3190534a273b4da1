//! What holds of keys, links and panels, and of what is drawn and sent on their
//! account.

use vstd::prelude::*;

use crate::actions::Action;
use crate::chunks::{cell_at, nodes_wf};
use crate::color::Rgb;
use crate::coords::WorldCoords;
use crate::editor::{
    law_undo_takes_one_write_back, law_undo_tells_the_server, lemma_ordered_messages,
    lemma_undone_board, messages, places_back, restore_coords, BoardView, EditorView,
};
use crate::keys::{key_means, mobile_command, KeyCommand, KeyOutcome, KeyPress};
use crate::link::{link_at, LinkView};
use crate::msg::RestoreCoord;
use crate::panels::{widget_named, Widget};
use crate::text::dec_int;
use crate::typing::{held, is_place, law_moves_go_where_they_say};
use crate::ui::{AuthView, CanvasCell, ClientMsgView, HoveredLink, NetView, OrderView, UiView};

verus! {

/// While something waits to be sent, a timer runs that will send it.
pub open spec fn is_waited_for(net: NetView) -> bool {
    net.pending.len() > 0 ==> net.set_timer
}

/// Whatever is written, a timer runs that will send it; it is started with the
/// first write, for a tenth of a second, and is not started again while it runs.
pub proof fn law_what_waits_will_be_sent(net: NetView, pos: WorldCoords, cell: Option<CanvasCell>)
    ensures
        is_waited_for(net.cell_queued(pos, cell)),
        is_waited_for(net.flushed()),
        !net.flushed().set_timer,
        !net.set_timer ==> net.cell_queued(pos, cell).todo == net.todo.push(
            OrderView::StartSetTimer(100),
        ),
        net.set_timer ==> net.cell_queued(pos, cell).todo == net.todo,
{
}

proof fn lemma_kept(v: EditorView, o: OrderView, p: WorldCoords)
    requires
        v.net.todo.contains(o),
    ensures
        v.drawn().net.todo.contains(o),
        v.scrolled().net.todo.contains(o),
        v.moved(p).net.todo.contains(o),
        forall|x: OrderView| (#[trigger] v.ordered(x)).net.todo.contains(o),
{
    let i = choose|i: int| 0 <= i < v.net.todo.len() && v.net.todo[i] == o;
    assert(v.drawn().net.todo[i] == o);
    assert(v.scrolled().net.todo[i] == o);
    assert(v.moved(p).net.todo[i] == o);
    assert forall|x: OrderView| (#[trigger] v.ordered(x)).net.todo.contains(o) by {
        assert(v.ordered(x).net.todo[i] == o);
    }
}

/// What is written is drawn: the chunk it stands in is drawn anew, and the board
/// with it.
pub proof fn law_what_is_written_is_drawn(v: EditorView, action: Action, now: i64, ch: char)
    requires
        action == Action::TypeChar(ch) || action == Action::MobileChar(ch)
            || action is DeleteBackward || action is MobileBackspace || action is DeleteForward,
        is_place(v.ui.cursor.pos),
    ensures
        ({
            let a = v.dispatched(action, now);
            let at = if action is DeleteBackward || action is MobileBackspace {
                a.ui.cursor.pos
            } else {
                v.ui.cursor.pos
            };
            &&& a.canvas_dirty
            &&& a.raf_pending
            &&& a.net.todo.contains(OrderView::RebuildChunk(at.chunk()))
            &&& a.net.todo.contains(OrderView::ScrollToCursor)
        }),
{
    let pos = v.ui.cursor.pos;
    let (w, to) = if action is DeleteBackward || action is MobileBackspace {
        let at = pos.moved_by(-1, 0);
        (
            v.moved(at).written(at, None).ordered(OrderView::RebuildChunk(at.chunk())),
            at,
        )
    } else {
        let cell = if action is DeleteForward {
            None
        } else {
            CanvasCell::spec_typed(ch, v.ui.color, v.ui.my_id, now)
        };
        (
            v.written(pos, cell).ordered(OrderView::RebuildChunk(pos.chunk())),
            pos.moved_by(1, 0),
        )
    };
    let order = w.net.todo.last();
    assert(w.net.todo[w.net.todo.len() - 1] == order);
    lemma_kept(w, order, to);
    let m = if action is DeleteBackward || action is MobileBackspace {
        w
    } else {
        w.moved(to)
    };
    lemma_kept(m, order, to);
    lemma_kept(m.scrolled(), order, to);
    let n = m.net.todo.len() as int;
    assert(m.scrolled().net.todo[n] == OrderView::ScrollToCursor);
    lemma_kept(m.scrolled(), OrderView::ScrollToCursor, to);
}

/// A link to a place leads there, and the view with it; one to a page opens it;
/// nothing is written. A cell that is touched and is no link gets the cursor.
pub proof fn law_links_are_followed(v: EditorView, link: HoveredLink, pos: WorldCoords, now: i64)
    ensures
        ({
            let a = v.dispatched(Action::FollowLink(link), now);
            let t = v.dispatched(Action::Tap { pos }, now);
            &&& a.board == v.board
            &&& a.net.pending == v.net.pending
            &&& link@ matches LinkView::Coord(p) ==> a.ui.cursor.pos == p && !a.ui.cursor.sel.active
                && a.net.todo.contains(OrderView::CenterOn(p))
            &&& link@ matches LinkView::Url(u) ==> a.ui == v.ui && a.net.todo == v.net.todo.push(
                OrderView::OpenUrl(u),
            )
            &&& t.board == v.board
            &&& t.net.pending == v.net.pending
            &&& link_at(v.board.nodes, pos) is None ==> t.ui.cursor.pos == pos
                && t.net.todo.contains(OrderView::FocusMobileInput)
            &&& link_at(v.board.nodes, pos) == Some(link@) ==> t == a
        }),
{
    match link@ {
        LinkView::Coord(p) => {
            let m = v.moved(p);
            let c = m.ordered(OrderView::CenterOn(p));
            assert(c.net.todo[m.net.todo.len() as int] == OrderView::CenterOn(p));
            lemma_kept(c, OrderView::CenterOn(p), p);
            let r = c.ordered(OrderView::RestartChunkTimer(0));
            let i = choose|i: int| 0 <= i < r.net.todo.len() && r.net.todo[i] == OrderView::CenterOn(p);
            let s = v.snapped(p);
            assert(s.net.todo[i] == OrderView::CenterOn(p));
            lemma_kept(s, OrderView::CenterOn(p), p);
        },
        LinkView::Url(u) => {},
    }
    if link_at(v.board.nodes, pos) is None {
        let d = v.moved(pos).scrolled().drawn();
        let t = v.dispatched(Action::Tap { pos }, now);
        assert(t.net.todo[d.net.todo.len() as int] == OrderView::FocusMobileInput);
    }
}

/// A panel that is closed is opened, and one that is open is closed; the others
/// stay as they are.
pub proof fn law_panels_are_toggled(v: EditorView, id: String, now: i64, w: Widget, other: Widget)
    requires
        widget_named(id@) == Some(w),
    ensures
        ({
            let a = v.dispatched(Action::TogglePanel(id), now);
            let b = a.dispatched(Action::TogglePanel(id), now);
            &&& a.panels.contains(w) <==> !v.panels.contains(w)
            &&& b.panels.contains(w) <==> v.panels.contains(w)
            &&& other != w ==> a.panels.contains(other) == v.panels.contains(other)
            &&& a.board == v.board
            &&& a.ui == v.ui
        }),
{
}

proof fn lemma_key_names()
    ensures
        "ArrowRight"@.len() == 10,
        "ArrowLeft"@.len() == 9 && "ArrowLeft"@[5] == 'L',
        "ArrowDown"@.len() == 9 && "ArrowDown"@[5] == 'D',
        "ArrowUp"@.len() == 7,
        "PageDown"@.len() == 8,
        "PageUp"@.len() == 6 && "PageUp"@[0] == 'P',
        "Home"@.len() == 4,
        "Enter"@.len() == 5,
        "Tab"@.len() == 3,
        "Backspace"@.len() == 9 && "Backspace"@[5] == 'p',
        "Delete"@.len() == 6 && "Delete"@[0] == 'D',
        "Escape"@.len() == 6 && "Escape"@[0] == 'E',
{
    reveal_strlit("ArrowRight");
    reveal_strlit("ArrowLeft");
    reveal_strlit("ArrowDown");
    reveal_strlit("ArrowUp");
    reveal_strlit("PageDown");
    reveal_strlit("PageUp");
    reveal_strlit("Home");
    reveal_strlit("Enter");
    reveal_strlit("Tab");
    reveal_strlit("Backspace");
    reveal_strlit("Delete");
    reveal_strlit("Escape");
}

/// The key is pressed alone, over the board, where the characters can be read.
pub open spec fn is_plain(k: KeyPress) -> bool {
    !k.ctrl && !k.meta && !k.alt
}

/// The key steps by so many columns and rows.
pub open spec fn steps_by(k: KeyPress, dx: int, dy: int) -> bool {
    ||| k.key@ == "ArrowRight"@ && dx == 1 && dy == 0
    ||| k.key@ == "ArrowLeft"@ && dx == -1 && dy == 0
    ||| k.key@ == "ArrowUp"@ && dx == 0 && dy == -1
    ||| k.key@ == "ArrowDown"@ && dx == 0 && dy == 1
    ||| k.key@ == "Tab"@ && dx == 4 && dy == 0 && !k.shift
}

/// The arrow keys move the cursor by one place in the direction that they show,
/// and the tabulator by four to the right; with the shift key, the arrows stretch
/// the selection instead.
pub proof fn law_arrow_keys_point_where_they_go(
    v: EditorView,
    k: KeyPress,
    r: KeyOutcome,
    now: i64,
    dx: int,
    dy: int,
)
    requires
        key_means(k, false, true, r),
        is_plain(k),
        steps_by(k, dx, dy),
    ensures
        r.prevent_default,
        r.command matches KeyCommand::Act(a) && {
            let after = v.dispatched(a, now);
            &&& after.ui.cursor.pos.x == held(v.ui.cursor.pos.x + dx)
            &&& after.ui.cursor.pos.y == held(v.ui.cursor.pos.y + dy)
            &&& after.ui.cursor.sel.active == k.shift
            &&& k.shift ==> after.ui.cursor.sel.span.b == after.ui.cursor.pos
            &&& after.board == v.board
        },
{
    lemma_key_names();
    if let KeyCommand::Act(a) = r.command {
        if !k.shift {
            law_moves_go_where_they_say(v, a, now);
        }
    }
}

/// A key that gives a character types it; the key to delete backward, the one to
/// delete forward, the one to begin a line and the one that goes to its start do
/// as they say; the key to escape unmarks.
pub proof fn law_keys_do_as_they_say(k: KeyPress, r: KeyOutcome)
    requires
        key_means(k, false, true, r),
    ensures
        is_plain(k) && k.key@.len() == 1 && (k.key@[0] as u32) >= 0x20 && (k.key@[0] as u32) < 0x7f
            ==> r.command == KeyCommand::Act(Action::TypeChar(k.key@[0])),
        is_plain(k) && k.key@.len() == 1 && ((k.key@[0] as u32) < 0x20 || k.key@[0] as u32 == 0x7f)
            ==> r.command is Nothing,
        is_plain(k) && k.key@ == "Backspace"@ ==> r.command == KeyCommand::Act(
            Action::DeleteBackward,
        ),
        is_plain(k) && k.key@ == "Delete"@ ==> r.command == KeyCommand::Act(Action::DeleteForward),
        is_plain(k) && k.key@ == "Enter"@ ==> r.command == KeyCommand::Act(
            Action::MoveCursorNewline,
        ),
        is_plain(k) && k.key@ == "Home"@ ==> r.command == KeyCommand::Act(
            Action::MoveCursorLineStart,
        ),
        is_plain(k) && k.key@ == "PageDown"@ ==> r.command is PageDown,
        is_plain(k) && k.key@ == "PageUp"@ ==> r.command is PageUp,
        k.key@ == "Escape"@ ==> r.command == KeyCommand::Act(Action::SelectClear),
{
    lemma_key_names();
}

/// While a text field has the keys, or the board is too small to read and no
/// control key is held, keys do nothing to the board.
pub proof fn law_keys_are_left_to_text_fields(k: KeyPress, glyph_mode: bool, r: KeyOutcome)
    ensures
        key_means(k, true, glyph_mode, r) ==> r.command is Nothing && !r.prevent_default,
        key_means(k, false, false, r) && !k.ctrl && k.key@ != "Escape"@ ==> r.command is Nothing
            && !r.prevent_default,
{
}

/// With the control key held, `C` copies, `Z` undoes and `V` pastes.
pub proof fn law_control_keys_copy_paste_and_undo(k: KeyPress, glyph_mode: bool, r: KeyOutcome)
    requires
        key_means(k, false, glyph_mode, r),
        k.ctrl,
        !k.meta,
        k.key@ != "Escape"@,
    ensures
        k.code@ == "KeyC"@ ==> r.command == KeyCommand::Act(Action::CopySelection),
        k.code@ == "KeyZ"@ ==> r.command == KeyCommand::Act(Action::Undo),
        k.code@ == "KeyV"@ ==> r.command is Paste,
        r.prevent_default,
{
    reveal_strlit("Equal");
    reveal_strlit("NumpadAdd");
    reveal_strlit("Minus");
    reveal_strlit("NumpadSubtract");
    reveal_strlit("Digit0");
    reveal_strlit("Numpad0");
    reveal_strlit("KeyC");
    reveal_strlit("KeyZ");
    reveal_strlit("KeyV");
    assert("KeyC"@[3] == 'C' && "KeyZ"@[3] == 'Z' && "KeyV"@[3] == 'V');
}

/// An on-screen keyboard types what it sends: a line feed begins a line, a
/// backspace deletes, and what is no control character is typed.
pub proof fn law_screen_keyboard_types_what_it_sends(c: char)
    ensures
        c == '\n' || c == '\r' ==> mobile_command(c) == Some(Action::MobileNewline),
        c as u32 == 8 ==> mobile_command(c) == Some(Action::MobileBackspace),
        0x20 <= c as u32 && (c as u32) < 0x7f ==> mobile_command(c) == Some(Action::MobileChar(c)),
        (c as u32) < 0x20 && c != '\n' && c != '\r' && c as u32 != 8 ==> mobile_command(c) is None,
{
}

/// Typing a character and undoing it leaves every place as it was, and the server
/// is asked to undo what was written there.
pub proof fn law_typing_is_undone(v: EditorView, ch: char, now: i64, p: WorldCoords)
    requires
        nodes_wf(v.board.nodes),
        v.ui.open_step is None,
        v.ui.steps.len() < 500,
        is_place(v.ui.cursor.pos),
        is_place(p),
    ensures
        ({
            let a = v.dispatched(Action::TypeChar(ch), now);
            let b = a.dispatched(Action::Undo, now);
            &&& cell_at(b.board.nodes, p) == cell_at(v.board.nodes, p)
            &&& b.ui.steps == v.ui.steps
            &&& messages(b.net.todo) == messages(a.net.todo).push(
                ClientMsgView::RestoreCellBatch {
                    cells: seq![RestoreCoord { pos: v.ui.cursor.pos }],
                },
            )
        }),
{
    let at = v.ui.cursor.pos;
    let cell = CanvasCell::spec_typed(ch, v.ui.color, v.ui.my_id, now);
    let w = v.written(at, cell);
    let a = v.dispatched(Action::TypeChar(ch), now);
    law_undo_takes_one_write_back(v, at, cell);
    lemma_undone_board(w);
    lemma_undone_board(a);
    law_undo_tells_the_server(a);
    assert(a.board == w.board && a.ui.steps == w.ui.steps);
    let step = a.ui.steps.last();
    assert(step == seq![(at, cell_at(v.board.nodes, at))]);
    assert(restore_coords(places_back(step)) =~= seq![RestoreCoord { pos: at }]);
    lemma_ordered_messages(a.undone().net.todo, OrderView::RequestFrame);
}

/// A new color is written in from there on, and the server is told of it; no
/// character that stands there changes.
pub proof fn law_new_color_is_told(v: EditorView, color: Rgb)
    ensures
        ({
            let a = v.recolored(color);
            &&& a.ui.color == color
            &&& a.ui.cursor == v.ui.cursor
            &&& a.board == v.board
            &&& messages(a.net.todo) == messages(v.net.todo).push(
                ClientMsgView::UpdateCursor { pos: v.ui.cursor.pos, color },
            )
        }),
{
    let u = UiView { color, ..v.ui };
    let s = (EditorView { ui: u, ..v }).marked(crate::panels::DIRTY_COLOR).scheduled();
    let t = OrderView::Send(ClientMsgView::UpdateCursor { pos: v.ui.cursor.pos, color });
    lemma_ordered_messages(v.net.todo, OrderView::RequestFrame);
    lemma_ordered_messages(s.net.todo, t);
    lemma_ordered_messages(s.net.todo.push(t), OrderView::SaveLayout);
}

/// Who logs out is known by the anonymous name again, and the server is told.
pub proof fn law_logging_out_forgets_the_name(v: EditorView)
    ensures
        ({
            let a = v.logged_out();
            &&& a.ui.my_author == v.ui.my_anon_name
            &&& a.ui.auth == AuthView::Anonymous
            &&& a.ui.my_id == v.ui.my_id
            &&& a.board == v.board
            &&& messages(a.net.todo) == messages(v.net.todo).push(ClientMsgView::Logout)
        }),
{
    let t = v.net.todo.push(OrderView::Send(ClientMsgView::Logout));
    lemma_ordered_messages(v.net.todo, OrderView::Send(ClientMsgView::Logout));
    lemma_ordered_messages(t, OrderView::RequestFrame);
    let u = if v.raf_pending {
        t
    } else {
        t.push(OrderView::RequestFrame)
    };
    lemma_ordered_messages(u, OrderView::Log("logged out"@, "w"@));
}

/// The panel of statistics asks for them when it is opened, and that of regions
/// for the regions; closing a panel asks for nothing.
pub proof fn law_panels_ask_for_what_they_show(v: EditorView, id: Seq<char>, w: Widget)
    requires
        widget_named(id) == Some(w),
    ensures
        messages(v.opened(id).net.todo) == (match w {
            Widget::Stats => messages(v.net.todo).push(ClientMsgView::FetchStats),
            Widget::Regions => messages(v.net.todo).push(ClientMsgView::FetchRegions),
            _ => messages(v.net.todo),
        }),
        messages(v.closed(id).net.todo) == messages(v.net.todo),
        v.opened(id).panels.contains(w),
        !v.closed(id).panels.contains(w),
{
    let t = v.net.todo.push(OrderView::ShowPanel(id));
    lemma_ordered_messages(v.net.todo, OrderView::ShowPanel(id));
    lemma_ordered_messages(v.net.todo, OrderView::HidePanel(id));
    lemma_ordered_messages(v.net.todo.push(OrderView::HidePanel(id)), OrderView::SaveLayout);
    let s = match w {
        Widget::Stats => t.push(OrderView::Send(ClientMsgView::FetchStats)),
        Widget::Regions => t.push(OrderView::Send(ClientMsgView::FetchRegions)),
        _ => t,
    };
    lemma_ordered_messages(t, OrderView::Send(ClientMsgView::FetchStats));
    lemma_ordered_messages(t, OrderView::Send(ClientMsgView::FetchRegions));
    lemma_ordered_messages(s, OrderView::RequestFrame);
    lemma_ordered_messages(s, OrderView::SaveLayout);
    lemma_ordered_messages(s.push(OrderView::RequestFrame), OrderView::SaveLayout);
}

/// The server is told what is in view no more than once in 150 milliseconds, and
/// the address is brought up to date no more than twice in a second.
pub proof fn law_timers_are_started_once(net: NetView)
    ensures
        net.viewport_queued().viewport_timer,
        net.anchor_queued().anchor_timer,
        net.viewport_queued().todo == (if net.viewport_timer {
            net.todo
        } else {
            net.todo.push(OrderView::StartViewportTimer(150))
        }),
        net.anchor_queued().todo == (if net.anchor_timer {
            net.todo
        } else {
            net.todo.push(OrderView::StartAnchorTimer(500))
        }),
        net.viewport_queued().pending == net.pending,
        net.anchor_queued().pending == net.pending,
{
}

/// The cursor is told to the server when it moves, and not again while it stays.
pub proof fn law_cursor_is_told_once(net: NetView, pos: WorldCoords, color: Rgb)
    ensures
        net.last_cursor_sent != Some(pos) ==> net.cursor_told(pos, color).todo == net.todo.push(
            OrderView::Send(ClientMsgView::UpdateCursor { pos, color }),
        ),
        net.cursor_told(pos, color).last_cursor_sent == Some(pos),
        net.cursor_told(pos, color).cursor_told(pos, color) == net.cursor_told(pos, color),
{
}

/// Who is not known by name is shown by number.
pub proof fn law_authors_are_shown_by_name_or_number(b: BoardView, id: u32)
    ensures
        b.author_names.contains_key(id) ==> b.name_of(id) == b.author_names[id],
        !b.author_names.contains_key(id) ==> b.name_of(id) == "anon#"@ + dec_int(id as int),
{
}

} // verus!
