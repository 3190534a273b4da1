//! The editor's cursor, its selection, what it can undo, and what it has yet
//! to do outside.

use vstd::prelude::*;
use vstd::string::*;

use crate::color::Rgb;
use crate::coords::{ChunkCoords, WorldCoords, WorldRect};
use crate::msg::{CellWrite, ClientMsg, RestoreCoord};

verus! {

/// Milliseconds for which writes are gathered before they are sent.
pub const SET_FLUSH_PERIOD_MS: i32 = 100;

/// Milliseconds for which the server is not told what is shown.
pub const VIEWPORT_FLUSH_MS: i32 = 150;

/// Milliseconds for which the address bar is left as it is.
pub const ANCHOR_FLUSH_MS: i32 = 500;

/// Number of steps that can be undone.
pub const UNDO_LIMIT: usize = 500;

/// A character as the editor holds it.
#[derive(Debug, Clone, Copy, PartialEq, Eq, Structural)]
pub struct CanvasCell {
    pub ch: char,
    pub color: Rgb,
    pub author_id: u32,
    pub ts: i64,
}

impl CanvasCell {
    pub fn from_update(ch: char, color: Rgb, author_id: u32, ts: i64) -> (r: Self)
        ensures
            r == (CanvasCell { ch, color, author_id, ts }),
    {
        CanvasCell { ch, color, author_id, ts }
    }

    /// What typing `ch` writes: nothing for a space.
    pub open spec fn spec_typed(ch: char, color: Rgb, author_id: u32, ts: i64) -> Option<
        CanvasCell,
    > {
        if ch == ' ' {
            None
        } else {
            Some(CanvasCell { ch, color, author_id, ts })
        }
    }

    /// What typing `ch` writes: nothing for a space.
    pub fn typed(ch: char, color: Rgb, author_id: u32, ts: i64) -> (r: Option<Self>)
        ensures
            r == Self::spec_typed(ch, color, author_id, ts),
    {
        if ch == ' ' {
            return None;
        }
        Some(CanvasCell { ch, color, author_id, ts })
    }
}

/// Where a click leads.
#[derive(Debug, Clone)]
pub enum HoveredLink {
    Coord(WorldCoords),
    Url(String),
}

#[derive(Debug, Clone)]
pub enum AuthState {
    Anonymous,
    LoggedIn { username: String, protected_cells: u32 },
}

/// What is to be done outside the editor: messages to send, timers to start,
/// parts of the screen to draw.
pub enum Order {
    Send(ClientMsg),
    /// Call `flush_pending_sets` after that many milliseconds.
    StartSetTimer(i32),
    /// Call `flush_viewport_update` after that many milliseconds.
    StartViewportTimer(i32),
    /// Write the place that is shown into the address bar after that many
    /// milliseconds.
    StartAnchorTimer(i32),
    /// Ask for chunks after that many milliseconds, and not before.
    RestartChunkTimer(i32),
    /// Connect again after that many milliseconds.
    StartReconnectTimer(i32),
    ScrollToCursor,
    CenterOn(WorldCoords),
    RebuildChunk(ChunkCoords),
    /// Call `on_frame` before the screen is next drawn.
    RequestFrame,
    HideTooltips,
    SaveLayout,
    ShowPanel(String),
    HidePanel(String),
    OpenUrl(String),
    /// Copy a text, with what a template literal would read as code escaped.
    CopyText(String),
    Status(String),
    /// A line of the log, and its kind.
    Log(String, String),
    /// A line of the log that ends with a place.
    LogPlace(String, WorldCoords),
    FocusMobileInput,
    StoreToken(String),
    ShowAuthError(String),
    ShowKicked,
}

/// A message to the server, with its lists as sequences.
pub enum ClientMsgView {
    SetCellBatch { cells: Seq<CellWrite>, commit: bool },
    RestoreCellBatch { cells: Seq<RestoreCoord> },
    FetchChunkBatch { chunks: Seq<ChunkCoords> },
    FetchLodBatch { entries: Seq<(ChunkCoords, u8)> },
    FetchStats,
    FetchRegions,
    AddRegion { bounds: WorldRect, label: Seq<char> },
    RemoveRegion { id: u32 },
    Login { username: Seq<char>, password: Seq<char> },
    Logout,
    UpdateViewport(WorldRect),
    UpdateCursor { pos: WorldCoords, color: Rgb },
}

impl View for ClientMsg {
    type V = ClientMsgView;

    open spec fn view(&self) -> ClientMsgView {
        match self {
            ClientMsg::SetCellBatch { cells, commit } => ClientMsgView::SetCellBatch {
                cells: cells@,
                commit: *commit,
            },
            ClientMsg::RestoreCellBatch { cells } => ClientMsgView::RestoreCellBatch {
                cells: cells@,
            },
            ClientMsg::FetchChunkBatch { chunks } => ClientMsgView::FetchChunkBatch {
                chunks: chunks@,
            },
            ClientMsg::FetchLodBatch { entries } => ClientMsgView::FetchLodBatch {
                entries: entries@,
            },
            ClientMsg::FetchStats => ClientMsgView::FetchStats,
            ClientMsg::FetchRegions => ClientMsgView::FetchRegions,
            ClientMsg::AddRegion { bounds, label } => ClientMsgView::AddRegion {
                bounds: *bounds,
                label: label@,
            },
            ClientMsg::RemoveRegion { id } => ClientMsgView::RemoveRegion { id: *id },
            ClientMsg::Login { username, password } => ClientMsgView::Login {
                username: username@,
                password: password@,
            },
            ClientMsg::Logout => ClientMsgView::Logout,
            ClientMsg::UpdateViewport(r) => ClientMsgView::UpdateViewport(*r),
            ClientMsg::UpdateCursor { pos, color } => ClientMsgView::UpdateCursor {
                pos: *pos,
                color: *color,
            },
        }
    }
}

/// What is to be done outside, with messages and texts as their views.
pub enum OrderView {
    Send(ClientMsgView),
    StartSetTimer(i32),
    StartViewportTimer(i32),
    StartAnchorTimer(i32),
    RestartChunkTimer(i32),
    StartReconnectTimer(i32),
    ScrollToCursor,
    CenterOn(WorldCoords),
    RebuildChunk(ChunkCoords),
    RequestFrame,
    HideTooltips,
    SaveLayout,
    ShowPanel(Seq<char>),
    HidePanel(Seq<char>),
    OpenUrl(Seq<char>),
    CopyText(Seq<char>),
    Status(Seq<char>),
    Log(Seq<char>, Seq<char>),
    LogPlace(Seq<char>, WorldCoords),
    FocusMobileInput,
    StoreToken(Seq<char>),
    ShowAuthError(Seq<char>),
    ShowKicked,
}

impl View for Order {
    type V = OrderView;

    open spec fn view(&self) -> OrderView {
        match self {
            Order::Send(m) => OrderView::Send(m@),
            Order::StartSetTimer(ms) => OrderView::StartSetTimer(*ms),
            Order::StartViewportTimer(ms) => OrderView::StartViewportTimer(*ms),
            Order::StartAnchorTimer(ms) => OrderView::StartAnchorTimer(*ms),
            Order::RestartChunkTimer(ms) => OrderView::RestartChunkTimer(*ms),
            Order::StartReconnectTimer(ms) => OrderView::StartReconnectTimer(*ms),
            Order::ScrollToCursor => OrderView::ScrollToCursor,
            Order::CenterOn(p) => OrderView::CenterOn(*p),
            Order::RebuildChunk(c) => OrderView::RebuildChunk(*c),
            Order::RequestFrame => OrderView::RequestFrame,
            Order::HideTooltips => OrderView::HideTooltips,
            Order::SaveLayout => OrderView::SaveLayout,
            Order::ShowPanel(s) => OrderView::ShowPanel(s@),
            Order::HidePanel(s) => OrderView::HidePanel(s@),
            Order::OpenUrl(s) => OrderView::OpenUrl(s@),
            Order::CopyText(s) => OrderView::CopyText(s@),
            Order::Status(s) => OrderView::Status(s@),
            Order::Log(s, c) => OrderView::Log(s@, c@),
            Order::LogPlace(s, p) => OrderView::LogPlace(s@, *p),
            Order::FocusMobileInput => OrderView::FocusMobileInput,
            Order::StoreToken(s) => OrderView::StoreToken(s@),
            Order::ShowAuthError(s) => OrderView::ShowAuthError(s@),
            Order::ShowKicked => OrderView::ShowKicked,
        }
    }
}

/// A marked part of the board.
#[derive(Debug, Clone, Copy)]
pub struct Selection {
    pub active: bool,
    pub drag: bool,
    pub span: WorldRect,
}

impl Default for Selection {
    fn default() -> (r: Self)
        ensures
            !r.active,
            !r.drag,
            r.span.a == (WorldCoords { x: 0, y: 0 }),
            r.span.b == (WorldCoords { x: 0, y: 0 }),
    {
        let zero = WorldCoords { x: 0, y: 0 };
        Selection { active: false, drag: false, span: WorldRect::new(zero, zero) }
    }
}

impl Selection {
    pub fn clear(&mut self)
        ensures
            *final(self) == (Selection { active: false, drag: false, ..*old(self) }),
    {
        self.active = false;
        self.drag = false;
    }

    /// The selection stretched to `end`: from where it began, or from `anchor`
    /// where there was none.
    pub open spec fn stretched(self, anchor: WorldCoords, end: WorldCoords) -> Selection {
        Selection {
            active: true,
            drag: self.drag,
            span: WorldRect {
                a: if self.active {
                    self.span.a
                } else {
                    anchor
                },
                b: end,
            },
        }
    }

    pub fn extend(&mut self, anchor: WorldCoords, end: WorldCoords)
        ensures
            *final(self) == old(self).stretched(anchor, end),
    {
        let anchor = if self.active {
            self.span.a
        } else {
            anchor
        };
        self.active = true;
        self.span = WorldRect::new(anchor, end);
    }

    pub fn drag_to(&mut self, end: WorldCoords)
        ensures
            *final(self) == (Selection {
                span: WorldRect { a: old(self).span.a, b: end },
                ..*old(self)
            }),
    {
        self.span.b = end;
    }

    pub fn end_drag(&mut self, end: WorldCoords)
        ensures
            *final(self) == (Selection {
                drag: false,
                span: WorldRect { a: old(self).span.a, b: end },
                ..*old(self)
            }),
    {
        self.drag = false;
        self.span.b = end;
    }

    /// The cells that are marked.
    pub fn rect(&self) -> (r: WorldRect)
        ensures
            r == WorldRect::spanned(self.span.a, self.span.b),
    {
        WorldRect::from_corners(self.span.a, self.span.b)
    }
}

/// What is known of the connection, and what is to be done outside.
pub struct NetState {
    pub is_conn: bool,
    pub kicked: bool,
    pub pending_sets: Vec<CellWrite>,
    pub last_cursor_sent: Option<WorldCoords>,
    pub set_timer: bool,
    pub viewport_timer: bool,
    pub anchor_timer: bool,
    pub orders: Vec<Order>,
}

#[verifier::ext_equal]
pub struct NetView {
    pub is_conn: bool,
    pub kicked: bool,
    /// Cells that are to be sent.
    pub pending: Seq<CellWrite>,
    pub last_cursor_sent: Option<WorldCoords>,
    pub set_timer: bool,
    pub viewport_timer: bool,
    pub anchor_timer: bool,
    /// What is to be done outside, in order.
    pub todo: Seq<OrderView>,
}

impl View for NetState {
    type V = NetView;

    open spec fn view(&self) -> NetView {
        NetView {
            is_conn: self.is_conn,
            kicked: self.kicked,
            pending: self.pending_sets@,
            last_cursor_sent: self.last_cursor_sent,
            set_timer: self.set_timer,
            viewport_timer: self.viewport_timer,
            anchor_timer: self.anchor_timer,
            todo: self.orders@.map_values(|o: Order| o@),
        }
    }
}

impl NetView {
    /// Nothing is connected, and nothing is to be done.
    pub open spec fn fresh() -> NetView {
        NetView {
            is_conn: false,
            kicked: false,
            pending: Seq::empty(),
            last_cursor_sent: None,
            set_timer: false,
            viewport_timer: false,
            anchor_timer: false,
            todo: Seq::empty(),
        }
    }

    pub open spec fn ordered(self, o: OrderView) -> NetView {
        NetView { todo: self.todo.push(o), ..self }
    }

    pub open spec fn sent(self, m: ClientMsgView) -> NetView {
        self.ordered(OrderView::Send(m))
    }

    /// The server has been told where the cursor is, if it did not know.
    pub open spec fn cursor_told(self, pos: WorldCoords, color: Rgb) -> NetView {
        if self.last_cursor_sent == Some(pos) {
            self
        } else {
            (NetView { last_cursor_sent: Some(pos), ..self }).sent(
                ClientMsgView::UpdateCursor { pos, color },
            )
        }
    }

    /// A cell is to be sent, and a timer is running that will do so.
    pub open spec fn cell_queued(self, pos: WorldCoords, cell: Option<CanvasCell>) -> NetView {
        let queued = NetView {
            pending: self.pending.push(wire_cell(pos, cell)),
            set_timer: true,
            ..self
        };
        if self.set_timer {
            queued
        } else {
            queued.ordered(OrderView::StartSetTimer(SET_FLUSH_PERIOD_MS))
        }
    }

    /// The cells that were gathered have been sent.
    pub open spec fn flushed(self) -> NetView {
        let idle = NetView { set_timer: false, ..self };
        if self.pending.len() == 0 {
            idle
        } else {
            (NetView { pending: Seq::empty(), ..idle }).sent(
                ClientMsgView::SetCellBatch { cells: self.pending, commit: true },
            )
        }
    }

    /// The address bar is to be brought up to date, before long.
    pub open spec fn anchor_queued(self) -> NetView {
        if self.anchor_timer {
            self
        } else {
            (NetView { anchor_timer: true, ..self }).ordered(
                OrderView::StartAnchorTimer(ANCHOR_FLUSH_MS),
            )
        }
    }

    /// The server is to be told what is shown, before long.
    pub open spec fn viewport_queued(self) -> NetView {
        if self.viewport_timer {
            self
        } else {
            (NetView { viewport_timer: true, ..self }).ordered(
                OrderView::StartViewportTimer(VIEWPORT_FLUSH_MS),
            )
        }
    }
}

/// What a cell that is to be written looks like on the wire.
pub open spec fn wire_cell(pos: WorldCoords, cell: Option<CanvasCell>) -> CellWrite {
    CellWrite {
        pos,
        ch: match cell {
            Some(c) => Some(c.ch),
            None => None,
        },
        color: match cell {
            Some(c) => c.color,
            None => Rgb(0, 0, 0),
        },
    }
}

impl NetState {
    pub fn new() -> (r: Self)
        ensures
            r@ == NetView::fresh(),
    {
        let r = NetState {
            is_conn: false,
            kicked: false,
            pending_sets: Vec::new(),
            last_cursor_sent: None,
            set_timer: false,
            viewport_timer: false,
            anchor_timer: false,
            orders: Vec::new(),
        };
        assert(r@ =~= NetView::fresh());
        r
    }

    /// Adds to what is to be done outside.
    pub fn order(&mut self, o: Order)
        ensures
            final(self)@ == old(self)@.ordered(o@),
    {
        self.orders.push(o);
        assert(self@ =~= old(self)@.ordered(o@));
    }

    pub fn send(&mut self, msg: ClientMsg)
        ensures
            final(self)@ == old(self)@.sent(msg@),
    {
        self.order(Order::Send(msg));
    }

    /// Gathers a cell that is to be written. The first one starts the timer.
    pub fn queue_set_cell(&mut self, pos: WorldCoords, cell: Option<CanvasCell>)
        ensures
            final(self)@ == old(self)@.cell_queued(pos, cell),
    {
        self.pending_sets.push(
            CellWrite {
                pos,
                ch: match cell {
                    Some(c) => Some(c.ch),
                    None => None,
                },
                color: match cell {
                    Some(c) => c.color,
                    None => Rgb(0, 0, 0),
                },
            },
        );
        if !self.set_timer {
            self.set_timer = true;
            self.order(Order::StartSetTimer(SET_FLUSH_PERIOD_MS));
        }
        assert(self@ =~= old(self)@.cell_queued(pos, cell));
    }

    /// Sends the cells that were gathered.
    pub fn flush(&mut self)
        ensures
            final(self)@ == old(self)@.flushed(),
    {
        self.set_timer = false;
        if self.pending_sets.len() == 0 {
            assert(self@ =~= old(self)@.flushed());
            return;
        }
        let mut cells: Vec<CellWrite> = Vec::new();
        std::mem::swap(&mut cells, &mut self.pending_sets);
        self.send(ClientMsg::SetCellBatch { cells, commit: true });
        assert(self@ =~= old(self)@.flushed());
    }

    pub fn queue_anchor_update(&mut self)
        ensures
            final(self)@ == old(self)@.anchor_queued(),
    {
        if !self.anchor_timer {
            self.anchor_timer = true;
            self.order(Order::StartAnchorTimer(ANCHOR_FLUSH_MS));
        }
    }

    pub fn queue_viewport_update(&mut self)
        ensures
            final(self)@ == old(self)@.viewport_queued(),
    {
        if !self.viewport_timer {
            self.viewport_timer = true;
            self.order(Order::StartViewportTimer(VIEWPORT_FLUSH_MS));
        }
    }

    /// Hands out what is to be done outside.
    pub fn take_orders(&mut self) -> (r: Vec<Order>)
        ensures
            r@.map_values(|o: Order| o@) == old(self)@.todo,
            final(self)@ == (NetView { todo: Seq::empty(), ..old(self)@ }),
    {
        let mut orders: Vec<Order> = Vec::new();
        std::mem::swap(&mut orders, &mut self.orders);
        assert(self@ =~= (NetView { todo: Seq::empty(), ..old(self)@ }));
        orders
    }
}

/// Tells the server where the cursor is, if it does not know already.
pub fn send_cursor_if_changed(net: &mut NetState, pos: WorldCoords, color: Rgb)
    ensures
        final(net)@ == old(net)@.cursor_told(pos, color),
{
    let known = match net.last_cursor_sent {
        Some(p) => p == pos,
        None => false,
    };
    if !known {
        net.last_cursor_sent = Some(pos);
        net.send(ClientMsg::UpdateCursor { pos, color });
    }
}

#[derive(Debug, Clone, Copy)]
pub struct CursorState {
    pub pos: WorldCoords,
    pub sel: Selection,
    pub type_start_x: i16,
}

impl Default for CursorState {
    fn default() -> (r: Self)
        ensures
            r.pos == (WorldCoords { x: 0, y: 0 }),
            !r.sel.active,
            !r.sel.drag,
            r.sel.span.a == (WorldCoords { x: 0, y: 0 }),
            r.sel.span.b == (WorldCoords { x: 0, y: 0 }),
            r.type_start_x == 0,
    {
        CursorState { pos: WorldCoords { x: 0, y: 0 }, sel: Selection::default(), type_start_x: 0 }
    }
}

impl CursorState {
    /// The cursor moved to `pos`, with nothing marked.
    pub open spec fn moved(self, pos: WorldCoords) -> CursorState {
        CursorState {
            pos,
            sel: Selection { active: false, drag: false, ..self.sel },
            type_start_x: pos.x,
        }
    }

    /// The cursor moved to `pos`, and the selection stretched to there.
    pub open spec fn selecting(self, pos: WorldCoords) -> CursorState {
        CursorState { pos, sel: self.sel.stretched(self.pos, pos), type_start_x: pos.x }
    }

    /// The cursor moved to `pos`, and the end of the selection with it.
    pub open spec fn dragging(self, pos: WorldCoords) -> CursorState {
        CursorState {
            pos,
            sel: Selection { span: WorldRect { a: self.sel.span.a, b: pos }, ..self.sel },
            type_start_x: pos.x,
        }
    }

    pub fn move_to(&mut self, pos: WorldCoords, color: Rgb, net: &mut NetState)
        ensures
            *final(self) == old(self).moved(pos),
            final(net)@ == old(net)@.cursor_told(pos, color),
    {
        self.pos = pos;
        self.type_start_x = pos.x;
        self.sel.clear();
        send_cursor_if_changed(net, pos, color);
    }

    /// Moves the cursor while text is typed: where the line began is kept.
    pub fn type_move_to(&mut self, pos: WorldCoords, color: Rgb, net: &mut NetState)
        ensures
            *final(self) == (CursorState {
                type_start_x: old(self).type_start_x,
                ..old(self).moved(pos)
            }),
            final(net)@ == old(net)@.cursor_told(pos, color),
    {
        self.pos = pos;
        self.sel.clear();
        send_cursor_if_changed(net, pos, color);
    }

    pub fn select_to(&mut self, pos: WorldCoords, color: Rgb, net: &mut NetState)
        ensures
            *final(self) == old(self).selecting(pos),
            final(net)@ == old(net)@.cursor_told(pos, color),
    {
        let anchor = self.pos;
        self.sel.extend(anchor, pos);
        self.pos = pos;
        self.type_start_x = pos.x;
        send_cursor_if_changed(net, pos, color);
    }

    pub fn drag_sel_to(&mut self, pos: WorldCoords, color: Rgb, net: &mut NetState)
        ensures
            *final(self) == old(self).dragging(pos),
            final(net)@ == old(net)@.cursor_told(pos, color),
    {
        self.sel.drag_to(pos);
        self.pos = pos;
        self.type_start_x = pos.x;
        send_cursor_if_changed(net, pos, color);
    }
}

/// A place, and what it held.
pub type UndoEntry = (WorldCoords, Option<CanvasCell>);

pub struct UIState {
    pub cursor: CursorState,
    pub color: Rgb,
    pub my_id: u32,
    pub my_author: String,
    pub my_anon_name: String,
    pub auth: AuthState,
    pub undo_stack: Vec<Vec<UndoEntry>>,
    pub undo_batch: Option<Vec<UndoEntry>>,
    pub bookmarks: Vec<(String, i64, i64)>,
}

/// `stack` with `step` on top, of which only the last are kept.
pub open spec fn stacked(stack: Seq<Seq<UndoEntry>>, step: Seq<UndoEntry>) -> Seq<Seq<UndoEntry>> {
    if stack.len() + 1 > UNDO_LIMIT {
        stack.push(step).drop_first()
    } else {
        stack.push(step)
    }
}

pub enum AuthView {
    Anonymous,
    LoggedIn { username: Seq<char>, protected_cells: u32 },
}

impl View for AuthState {
    type V = AuthView;

    open spec fn view(&self) -> AuthView {
        match self {
            AuthState::Anonymous => AuthView::Anonymous,
            AuthState::LoggedIn { username, protected_cells } => AuthView::LoggedIn {
                username: username@,
                protected_cells: *protected_cells,
            },
        }
    }
}

#[verifier::ext_equal]
pub struct UiView {
    pub cursor: CursorState,
    pub color: Rgb,
    pub my_id: u32,
    pub my_author: Seq<char>,
    pub my_anon_name: Seq<char>,
    pub auth: AuthView,
    /// The steps that can be undone, oldest first.
    pub steps: Seq<Seq<UndoEntry>>,
    /// The step that is being put together, if any.
    pub open_step: Option<Seq<UndoEntry>>,
    pub bookmarks: Seq<(String, i64, i64)>,
}

impl View for UIState {
    type V = UiView;

    open spec fn view(&self) -> UiView {
        UiView {
            cursor: self.cursor,
            color: self.color,
            my_id: self.my_id,
            my_author: self.my_author@,
            my_anon_name: self.my_anon_name@,
            auth: self.auth@,
            steps: self.undo_stack@.map_values(|v: Vec<UndoEntry>| v@),
            open_step: match self.undo_batch {
                Some(b) => Some(b@),
                None => None,
            },
            bookmarks: self.bookmarks@,
        }
    }
}

impl UiView {
    /// Nobody has used the editor yet, and it writes in `color`.
    pub open spec fn fresh(color: Rgb) -> UiView {
        let zero = WorldCoords { x: 0, y: 0 };
        UiView {
            cursor: CursorState {
                pos: zero,
                sel: Selection { active: false, drag: false, span: WorldRect { a: zero, b: zero } },
                type_start_x: 0,
            },
            color,
            my_id: 0,
            my_author: "anon"@,
            my_anon_name: "anon"@,
            auth: AuthView::Anonymous,
            steps: Seq::empty(),
            open_step: None,
            bookmarks: Seq::empty(),
        }
    }

    /// No more than so many steps are kept.
    pub open spec fn wf(self) -> bool {
        self.steps.len() <= UNDO_LIMIT
    }

    /// It is remembered that `pos` held `prev`: as part of the step that is
    /// being put together, or as a step of its own.
    pub open spec fn remembered(self, pos: WorldCoords, prev: Option<CanvasCell>) -> UiView {
        match self.open_step {
            Some(b) => UiView { open_step: Some(b.push((pos, prev))), ..self },
            None => UiView { steps: stacked(self.steps, seq![(pos, prev)]), ..self },
        }
    }

    /// What is written from here on makes one step.
    pub open spec fn batch_begun(self) -> UiView {
        UiView { open_step: Some(Seq::empty()), ..self }
    }

    /// The step that was being put together is complete. One in which nothing
    /// was written is forgotten.
    pub open spec fn batch_ended(self) -> UiView {
        UiView {
            open_step: None,
            steps: match self.open_step {
                Some(b) => if b.len() > 0 {
                    stacked(self.steps, b)
                } else {
                    self.steps
                },
                None => self.steps,
            },
            ..self
        }
    }

    pub open spec fn with_cursor(self, cursor: CursorState) -> UiView {
        UiView { cursor, ..self }
    }
}

impl UIState {
    /// An editor that nobody has used yet, writing in `color`.
    pub fn new(color: Rgb) -> (r: Self)
        ensures
            r@.wf(),
            r@ == UiView::fresh(color),
    {
        let r = UIState {
            cursor: CursorState::default(),
            color,
            my_id: 0,
            my_author: "anon".to_string(),
            my_anon_name: "anon".to_string(),
            auth: AuthState::Anonymous,
            undo_stack: Vec::new(),
            undo_batch: None,
            bookmarks: Vec::new(),
        };
        assert(r@ =~= UiView::fresh(color));
        r
    }

    fn push_step(&mut self, step: Vec<UndoEntry>)
        requires
            old(self)@.wf(),
        ensures
            final(self)@.wf(),
            final(self)@ == (UiView { steps: stacked(old(self)@.steps, step@), ..old(self)@ }),
    {
        self.undo_stack.push(step);
        if self.undo_stack.len() > UNDO_LIMIT {
            let _ = self.undo_stack.remove(0);
        }
        assert(self@ =~= (UiView { steps: stacked(old(self)@.steps, step@), ..old(self)@ }));
    }

    /// Remembers that `pos` held `prev`.
    pub fn push_undo(&mut self, pos: WorldCoords, prev: Option<CanvasCell>)
        requires
            old(self)@.wf(),
        ensures
            final(self)@.wf(),
            final(self)@ == old(self)@.remembered(pos, prev),
    {
        match self.undo_batch.take() {
            Some(mut batch) => {
                batch.push((pos, prev));
                self.undo_batch = Some(batch);
                assert(self@ =~= old(self)@.remembered(pos, prev));
            },
            None => {
                let mut step: Vec<UndoEntry> = Vec::new();
                step.push((pos, prev));
                assert(step@ =~= seq![(pos, prev)]);
                self.push_step(step);
            },
        }
    }

    /// From here on, what is written makes one step.
    pub fn begin_undo_batch(&mut self)
        ensures
            final(self)@ == old(self)@.batch_begun(),
    {
        self.undo_batch = Some(Vec::new());
        assert(self@ =~= old(self)@.batch_begun());
    }

    /// Ends the step that was being put together.
    pub fn end_undo_batch(&mut self)
        requires
            old(self)@.wf(),
        ensures
            final(self)@.wf(),
            final(self)@ == old(self)@.batch_ended(),
    {
        if let Some(batch) = self.undo_batch.take() {
            if batch.len() > 0 {
                self.push_step(batch);
            }
        }
        assert(self@ =~= old(self)@.batch_ended());
    }
}

/// However much is written, no more than so many steps are kept.
pub proof fn law_undo_is_bounded(ui: UiView, pos: WorldCoords, prev: Option<CanvasCell>)
    requires
        ui.wf(),
    ensures
        ui.remembered(pos, prev).wf(),
        ui.batch_begun().wf(),
        ui.batch_ended().wf(),
{
}

} // verus!
