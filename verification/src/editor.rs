//! The editor: what it shows, what is typed into it, and what it tells the
//! server.

use vstd::prelude::*;

use crate::chunks::{
    cell_at, lemma_place_reads_back, nodes_wf, with_cell_at, ChunkManager, Nodes,
};
use crate::color::Rgb;
use crate::coords::{ChunkCoords, WorldCoords, WorldRect};
use crate::fold::FoldHashMap;
use crate::msg::{AuthorStat, ClientMsg, RegionRecord, RestoreCoord};
use crate::panels::{MiniTUI, Widget, DIRTY_ALL};
use crate::text::{dec, push_dec};
use crate::ui::{
    CanvasCell, ClientMsgView, CursorState, NetState, NetView, Order, OrderView, UIState, UiView,
    UndoEntry, SET_FLUSH_PERIOD_MS, UNDO_LIMIT,
};

verus! {

/// What the editor knows of the board and of the others who write on it.
pub struct BoardState {
    pub chunk_manager: ChunkManager,
    pub regions: FoldHashMap<u32, RegionRecord>,
    pub author_names: FoldHashMap<u32, String>,
    pub last_stats: Option<(u32, u16, Vec<AuthorStat>)>,
    /// What the cells held that were written and have not been confirmed.
    pub prev_cells: FoldHashMap<WorldCoords, Option<CanvasCell>>,
    /// Cells that may not be written, and until when to say so: a number that
    /// grows with time.
    pub flash_deny: FoldHashMap<WorldCoords, u64>,
    pub online_users: FoldHashMap<u32, (String, Rgb)>,
    pub remote_cursors: FoldHashMap<u32, (WorldCoords, Rgb)>,
}

#[verifier::ext_equal]
pub struct BoardView {
    pub nodes: Nodes,
    pub regions: Map<u32, RegionRecord>,
    pub author_names: Map<u32, Seq<char>>,
    pub last_stats: Option<(u32, u16, Seq<AuthorStat>)>,
    pub prev_cells: Map<WorldCoords, Option<CanvasCell>>,
    pub flash_deny: Map<WorldCoords, u64>,
    pub online_users: Map<u32, (Seq<char>, Rgb)>,
    pub remote_cursors: Map<u32, (WorldCoords, Rgb)>,
}

impl View for BoardState {
    type V = BoardView;

    open spec fn view(&self) -> BoardView {
        BoardView {
            nodes: self.chunk_manager@,
            regions: self.regions@,
            author_names: self.author_names@.map_values(|s: String| s@),
            last_stats: match self.last_stats {
                Some((cells, online, top)) => Some((cells, online, top@)),
                None => None,
            },
            prev_cells: self.prev_cells@,
            flash_deny: self.flash_deny@,
            online_users: self.online_users@.map_values(|u: (String, Rgb)| (u.0@, u.1)),
            remote_cursors: self.remote_cursors@,
        }
    }
}

impl BoardView {
    pub open spec fn fresh() -> BoardView {
        BoardView {
            nodes: Map::empty(),
            regions: Map::empty(),
            author_names: Map::empty(),
            last_stats: None,
            prev_cells: Map::empty(),
            flash_deny: Map::empty(),
            online_users: Map::empty(),
            remote_cursors: Map::empty(),
        }
    }

    /// The name of an author, made up for one who is not known.
    pub open spec fn name_of(self, id: u32) -> Seq<char> {
        if self.author_names.contains_key(id) {
            self.author_names[id]
        } else {
            "anon#"@ + dec(id as nat)
        }
    }

    /// A cell is written, and what it held is kept.
    pub open spec fn rewritten(self, pos: WorldCoords, cell: Option<CanvasCell>) -> BoardView {
        BoardView {
            nodes: with_cell_at(self.nodes, pos, cell),
            prev_cells: self.prev_cells.insert(pos, cell_at(self.nodes, pos)),
            ..self
        }
    }
}

impl BoardState {
    pub fn new() -> (r: Self)
        ensures
            r.chunk_manager.wf(),
            r@ == BoardView::fresh(),
    {
        let r = BoardState {
            chunk_manager: ChunkManager::new(),
            regions: FoldHashMap::new(),
            author_names: FoldHashMap::new(),
            last_stats: None,
            prev_cells: FoldHashMap::new(),
            flash_deny: FoldHashMap::new(),
            online_users: FoldHashMap::new(),
            remote_cursors: FoldHashMap::new(),
        };
        assert(r@ =~= BoardView::fresh());
        r
    }

    pub fn author_name(&self, id: u32) -> (r: String)
        ensures
            r@ == self@.name_of(id),
    {
        match self.author_names.get(&id) {
            Some(s) => s.clone(),
            None => {
                let mut s = "anon#".to_string();
                push_dec(&mut s, id as u64);
                s
            },
        }
    }
}

pub struct Editor {
    pub board: BoardState,
    pub ui: UIState,
    pub net: NetState,
    pub panels: MiniTUI,
    /// The parts of the screen that are to be drawn again, a bit for each.
    pub dirty_bits: u32,
    pub canvas_dirty: bool,
    /// The screen is about to be drawn.
    pub raf_pending: bool,
}

#[verifier::ext_equal]
pub struct EditorView {
    pub board: BoardView,
    pub ui: UiView,
    pub net: NetView,
    /// The panels that are open.
    pub panels: Set<Widget>,
    pub dirty_bits: u32,
    pub canvas_dirty: bool,
    /// The screen is about to be drawn.
    pub raf_pending: bool,
}

impl View for Editor {
    type V = EditorView;

    open spec fn view(&self) -> EditorView {
        EditorView {
            board: self.board@,
            ui: self.ui@,
            net: self.net@,
            panels: self.panels@,
            dirty_bits: self.dirty_bits,
            canvas_dirty: self.canvas_dirty,
            raf_pending: self.raf_pending,
        }
    }
}

impl EditorView {
    /// Nothing is known yet, all is to be drawn, and what is written is in
    /// `color`.
    pub open spec fn fresh(color: Rgb) -> EditorView {
        EditorView {
            board: BoardView::fresh(),
            ui: UiView::fresh(color),
            net: NetView::fresh(),
            panels: Set::empty(),
            dirty_bits: DIRTY_ALL,
            canvas_dirty: true,
            raf_pending: false,
        }
    }

    pub open spec fn ordered(self, o: OrderView) -> EditorView {
        EditorView { net: self.net.ordered(o), ..self }
    }

    pub open spec fn sent(self, m: ClientMsgView) -> EditorView {
        self.ordered(OrderView::Send(m))
    }

    pub open spec fn marked(self, bits: u32) -> EditorView {
        EditorView { dirty_bits: self.dirty_bits | bits, ..self }
    }

    /// A cell is written: it shows, it can be undone, and the server is to be
    /// told.
    pub open spec fn written(self, pos: WorldCoords, cell: Option<CanvasCell>) -> EditorView {
        EditorView {
            board: self.board.rewritten(pos, cell),
            ui: self.ui.remembered(pos, cell_at(self.board.nodes, pos)),
            net: self.net.cell_queued(pos, cell),
            ..self
        }
    }

    /// The cursor is at `cursor.pos`, and the server has been told.
    pub open spec fn at(self, cursor: CursorState) -> EditorView {
        EditorView {
            ui: self.ui.with_cursor(cursor),
            net: self.net.cursor_told(cursor.pos, self.ui.color),
            ..self
        }
    }

    /// The cursor is moved to `pos`.
    pub open spec fn moved(self, pos: WorldCoords) -> EditorView {
        self.at(self.ui.cursor.moved(pos))
    }

    /// The cursor is to be brought into view.
    pub open spec fn scrolled(self) -> EditorView {
        self.ordered(OrderView::ScrollToCursor).ordered(OrderView::RestartChunkTimer(0))
    }

    /// The cursor is moved to `pos`, and the view with it.
    pub open spec fn snapped(self, pos: WorldCoords) -> EditorView {
        let v = self.moved(pos).ordered(OrderView::CenterOn(pos)).ordered(
            OrderView::RestartChunkTimer(0),
        );
        EditorView { net: v.net.anchor_queued(), ..v }
    }

    /// The board is to be drawn.
    pub open spec fn scheduled(self) -> EditorView {
        let v = EditorView { canvas_dirty: true, ..self };
        if v.raf_pending {
            v
        } else {
            (EditorView { raf_pending: true, ..v }).ordered(OrderView::RequestFrame)
        }
    }

    /// Everything is to be drawn.
    pub open spec fn redrawn(self) -> EditorView {
        self.marked(DIRTY_ALL).scheduled()
    }

    /// Everything is to be drawn, the board above all.
    pub open spec fn drawn(self) -> EditorView {
        self.redrawn().scheduled()
    }

    /// Each of `chunks` is to be drawn anew.
    pub open spec fn rebuilt(self, chunks: Seq<ChunkCoords>) -> EditorView
        decreases chunks.len(),
    {
        if chunks.len() == 0 {
            self
        } else {
            self.rebuilt(chunks.drop_last()).ordered(OrderView::RebuildChunk(chunks.last()))
        }
    }
}

/// The chunks of `cells`, each once, in the order in which they first occur.
pub open spec fn chunks_of(cells: Seq<WorldCoords>) -> Seq<ChunkCoords>
    decreases cells.len(),
{
    if cells.len() == 0 {
        Seq::empty()
    } else {
        let before = chunks_of(cells.drop_last());
        if before.contains(cells.last().chunk()) {
            before
        } else {
            before.push(cells.last().chunk())
        }
    }
}

impl Editor {
    pub open spec fn wf(&self) -> bool {
        &&& self.board.chunk_manager.wf()
        &&& self.ui@.wf()
    }

    /// An editor that knows nothing yet, writing in `color`.
    pub fn new(color: Rgb) -> (r: Self)
        ensures
            r.wf(),
            r@ == EditorView::fresh(color),
    {
        Editor {
            board: BoardState::new(),
            ui: UIState::new(color),
            net: NetState::new(),
            panels: MiniTUI::new(),
            dirty_bits: DIRTY_ALL,
            canvas_dirty: true,
            raf_pending: false,
        }
    }

    pub fn mark_dirty(&mut self, bits: u32)
        ensures
            final(self)@ == old(self)@.marked(bits),
            old(self).wf() ==> final(self).wf(),
    {
        self.dirty_bits = self.dirty_bits | bits;
    }

    pub fn mark_canvas_dirty(&mut self)
        ensures
            final(self)@ == (EditorView { canvas_dirty: true, ..old(self)@ }),
            old(self).wf() ==> final(self).wf(),
    {
        self.canvas_dirty = true;
    }

    pub fn order(&mut self, o: Order)
        ensures
            final(self)@ == old(self)@.ordered(o@),
            old(self).wf() ==> final(self).wf(),
    {
        self.net.order(o);
    }

    pub fn send_msg(&mut self, msg: ClientMsg)
        ensures
            final(self)@ == old(self)@.sent(msg@),
            old(self).wf() ==> final(self).wf(),
    {
        self.net.send(msg);
    }

    /// Sends the cells that were gathered.
    pub fn flush_pending_sets(&mut self)
        ensures
            final(self)@ == (EditorView { net: old(self)@.net.flushed(), ..old(self)@ }),
            old(self).wf() ==> final(self).wf(),
    {
        self.net.flush();
    }

    /// Tells the server that `bounds` is shown.
    pub fn flush_viewport_update(&mut self, bounds: WorldRect)
        ensures
            final(self)@ == ({
                let v = old(self)@.sent(ClientMsgView::UpdateViewport(bounds));
                EditorView { net: (NetView { viewport_timer: false, ..v.net }).anchor_queued(), ..v }
            }),
            old(self).wf() ==> final(self).wf(),
    {
        self.net.send(ClientMsg::UpdateViewport(bounds));
        self.net.viewport_timer = false;
        self.net.queue_anchor_update();
    }

    /// Tells the server where the cursor is, whatever it knows.
    pub fn resend_cursor(&mut self)
        ensures
            final(self)@ == old(self)@.sent(
                ClientMsgView::UpdateCursor {
                    pos: old(self)@.ui.cursor.pos,
                    color: old(self)@.ui.color,
                },
            ),
            old(self).wf() ==> final(self).wf(),
    {
        let (pos, color) = (self.ui.cursor.pos, self.ui.color);
        self.net.send(ClientMsg::UpdateCursor { pos, color });
    }

    /// Writes a cell.
    pub fn write_cell(&mut self, pos: WorldCoords, cell: Option<CanvasCell>)
        requires
            old(self).wf(),
        ensures
            final(self).wf(),
            final(self)@ == old(self)@.written(pos, cell),
    {
        let prev = self.board.chunk_manager.get_cell(pos);
        self.board.prev_cells.insert(pos, prev);
        self.ui.push_undo(pos, prev);
        self.net.queue_set_cell(pos, cell);
        self.board.chunk_manager.set_cell(pos, cell);
    }

    pub fn move_to(&mut self, pos: WorldCoords)
        ensures
            final(self)@ == old(self)@.moved(pos),
            old(self).wf() ==> final(self).wf(),
    {
        let color = self.ui.color;
        self.ui.cursor.move_to(pos, color, &mut self.net);
    }

    pub fn scroll_to_cursor(&mut self)
        ensures
            final(self)@ == old(self)@.scrolled(),
            old(self).wf() ==> final(self).wf(),
    {
        self.net.order(Order::ScrollToCursor);
        self.net.order(Order::RestartChunkTimer(0));
    }

    pub fn snap_to(&mut self, pos: WorldCoords)
        ensures
            final(self)@ == old(self)@.snapped(pos),
            old(self).wf() ==> final(self).wf(),
    {
        self.move_to(pos);
        self.net.order(Order::CenterOn(pos));
        self.net.order(Order::RestartChunkTimer(0));
        self.net.queue_anchor_update();
    }

    pub fn draw(&mut self)
        ensures
            final(self)@ == old(self)@.drawn(),
            old(self).wf() ==> final(self).wf(),
    {
        self.render_all();
        self.schedule_render();
    }

    pub fn schedule_render(&mut self)
        ensures
            final(self)@ == old(self)@.scheduled(),
            old(self).wf() ==> final(self).wf(),
    {
        self.canvas_dirty = true;
        if self.raf_pending {
            return;
        }
        self.raf_pending = true;
        self.net.order(Order::RequestFrame);
    }

    pub fn render_all(&mut self)
        ensures
            final(self)@ == old(self)@.redrawn(),
            old(self).wf() ==> final(self).wf(),
    {
        self.mark_dirty(DIRTY_ALL);
        self.schedule_render();
    }

    pub fn rebuild(&mut self, chunks: &Vec<ChunkCoords>)
        ensures
            final(self)@ == old(self)@.rebuilt(chunks@),
            old(self).wf() ==> final(self).wf(),
    {
        let mut i: usize = 0;
        assert(chunks@.take(0) =~= Seq::<ChunkCoords>::empty());
        while i < chunks.len()
            invariant
                i <= chunks@.len(),
                self@ == old(self)@.rebuilt(chunks@.take(i as int)),
                old(self).wf() ==> self.wf(),
            decreases chunks@.len() - i,
        {
            assert(chunks@.take(i + 1).drop_last() =~= chunks@.take(i as int));
            self.order(Order::RebuildChunk(chunks[i]));
            i = i + 1;
        }
        assert(chunks@.take(i as int) =~= chunks@);
    }
}

/// Every entry of `step` is put back, the last one first.
pub open spec fn put_back(board: BoardView, step: Seq<UndoEntry>) -> BoardView
    decreases step.len(),
{
    if step.len() == 0 {
        board
    } else {
        put_back(board.rewritten(step.last().0, step.last().1), step.drop_last())
    }
}

/// The places of `step`, the last one first.
pub open spec fn places_back(step: Seq<UndoEntry>) -> Seq<WorldCoords> {
    Seq::new(step.len(), |i: int| step[step.len() - 1 - i].0)
}

pub open spec fn restore_coords(places: Seq<WorldCoords>) -> Seq<RestoreCoord> {
    Seq::new(places.len(), |i: int| RestoreCoord { pos: places[i] })
}

impl EditorView {
    /// The last step is undone, and the server asked to undo it.
    pub open spec fn undone(self) -> EditorView {
        if self.ui.steps.len() == 0 {
            self
        } else {
            let step = self.ui.steps.last();
            let places = places_back(step);
            let v = EditorView {
                board: put_back(self.board, step),
                ui: UiView { steps: self.ui.steps.drop_last(), ..self.ui },
                ..self
            };
            let told = if places.len() > 0 {
                v.sent(ClientMsgView::RestoreCellBatch { cells: restore_coords(places) })
            } else {
                v
            };
            told.rebuilt(chunks_of(places)).scrolled()
        }
    }
}

/// The chunks of `cells`, each once.
pub fn distinct_chunks(cells: &Vec<WorldCoords>) -> (r: Vec<ChunkCoords>)
    ensures
        r@ == chunks_of(cells@),
{
    let mut out: Vec<ChunkCoords> = Vec::new();
    let mut i: usize = 0;
    assert(cells@.take(0) =~= Seq::<WorldCoords>::empty());
    while i < cells.len()
        invariant
            i <= cells@.len(),
            out@ == chunks_of(cells@.take(i as int)),
        decreases cells@.len() - i,
    {
        assert(cells@.take(i + 1).drop_last() =~= cells@.take(i as int));
        let chunk = ChunkCoords::from_world(cells[i]);
        if !lists(&out, chunk) {
            out.push(chunk);
        }
        i = i + 1;
    }
    assert(cells@.take(i as int) =~= cells@);
    out
}

fn lists(chunks: &Vec<ChunkCoords>, c: ChunkCoords) -> (r: bool)
    ensures
        r == chunks@.contains(c),
{
    let mut i: usize = 0;
    while i < chunks.len()
        invariant
            i <= chunks@.len(),
            forall|k: int| 0 <= k < i ==> chunks@[k] != c,
        decreases chunks@.len() - i,
    {
        if chunks[i] == c {
            return true;
        }
        i = i + 1;
    }
    false
}

impl Editor {
    /// Takes the last step back.
    pub fn undo(&mut self)
        requires
            old(self).wf(),
        ensures
            final(self).wf(),
            final(self)@ == old(self)@.undone(),
    {
        let step = match self.ui.undo_stack.pop() {
            Some(s) => s,
            None => {
                return;
            },
        };
        let ghost board = self.board@;
        let ghost v0 = EditorView {
            ui: UiView { steps: old(self)@.ui.steps.drop_last(), ..old(self)@.ui },
            ..old(self)@
        };
        assert(step@ == old(self)@.ui.steps.last());
        assert(self@ =~= v0);
        let mut places: Vec<WorldCoords> = Vec::new();
        let mut cells: Vec<RestoreCoord> = Vec::new();
        let mut k: usize = step.len();
        assert(step@.take(k as int) =~= step@);
        while k > 0
            invariant
                k <= step@.len(),
                self.wf(),
                self@ == (EditorView { board: self@.board, ..v0 }),
                put_back(self.board@, step@.take(k as int)) == put_back(board, step@),
                places@.len() == step@.len() - k,
                cells@.len() == step@.len() - k,
                forall|i: int|
                    0 <= i < places@.len() ==> places@[i] == step@[step@.len() - 1 - i].0,
                forall|i: int|
                    0 <= i < places@.len() ==> cells@[i] == (RestoreCoord {
                        pos: step@[step@.len() - 1 - i].0,
                    }),
            decreases k,
        {
            k = k - 1;
            let (pos, prev) = step[k];
            assert(step@.take(k + 1).drop_last() =~= step@.take(k as int));
            let cur = self.board.chunk_manager.get_cell(pos);
            self.board.prev_cells.insert(pos, cur);
            self.board.chunk_manager.set_cell(pos, prev);
            places.push(pos);
            cells.push(RestoreCoord { pos });
        }
        proof {
            assert(places@ =~= places_back(step@));
            assert(cells@ =~= restore_coords(places@));
        }
        if cells.len() > 0 {
            self.send_msg(ClientMsg::RestoreCellBatch { cells });
        }
        let dirty = distinct_chunks(&places);
        self.rebuild(&dirty);
        self.scroll_to_cursor();
    }
}

/// `ws` are written, one after the other.
pub open spec fn all_written(v: EditorView, ws: Seq<UndoEntry>) -> EditorView
    decreases ws.len(),
{
    if ws.len() == 0 {
        v
    } else {
        all_written(v, ws.drop_last()).written(ws.last().0, ws.last().1)
    }
}

/// What the cells that `ws` writes held before.
spec fn entries_of(m: Nodes, ws: Seq<UndoEntry>) -> (Nodes, Seq<UndoEntry>)
    decreases ws.len(),
{
    if ws.len() == 0 {
        (m, Seq::empty())
    } else {
        let (n, e) = entries_of(m, ws.drop_last());
        let (pos, cell) = ws.last();
        (with_cell_at(n, pos, cell), e.push((pos, cell_at(n, pos))))
    }
}

/// Every place reads the same.
pub open spec fn same_cells(a: Nodes, b: Nodes) -> bool {
    forall|p: WorldCoords| #[trigger] cell_at(a, p) == cell_at(b, p)
}

/// The messages among the orders, in order.
pub open spec fn messages(todo: Seq<OrderView>) -> Seq<ClientMsgView>
    decreases todo.len(),
{
    if todo.len() == 0 {
        Seq::empty()
    } else {
        let before = messages(todo.drop_last());
        match todo.last() {
            OrderView::Send(m) => before.push(m),
            _ => before,
        }
    }
}

proof fn lemma_rewrite_same(a: Nodes, b: Nodes, pos: WorldCoords, cell: Option<CanvasCell>)
    requires
        nodes_wf(a),
        nodes_wf(b),
        same_cells(a, b),
    ensures
        same_cells(with_cell_at(a, pos, cell), with_cell_at(b, pos, cell)),
        nodes_wf(with_cell_at(a, pos, cell)),
        nodes_wf(with_cell_at(b, pos, cell)),
{
    assert forall|p: WorldCoords| #[trigger]
        cell_at(with_cell_at(a, pos, cell), p) == cell_at(with_cell_at(b, pos, cell), p) by {
        lemma_place_reads_back(a, pos, cell, p);
        lemma_place_reads_back(b, pos, cell, p);
        assert(cell_at(a, p) == cell_at(b, p));
    }
    lemma_place_reads_back(a, pos, cell, pos);
    lemma_place_reads_back(b, pos, cell, pos);
}

proof fn lemma_put_back_same(a: BoardView, b: BoardView, step: Seq<UndoEntry>)
    requires
        nodes_wf(a.nodes),
        nodes_wf(b.nodes),
        same_cells(a.nodes, b.nodes),
    ensures
        same_cells(put_back(a, step).nodes, put_back(b, step).nodes),
    decreases step.len(),
{
    if step.len() > 0 {
        let (pos, cell) = step.last();
        lemma_rewrite_same(a.nodes, b.nodes, pos, cell);
        lemma_put_back_same(a.rewritten(pos, cell), b.rewritten(pos, cell), step.drop_last());
    }
}

proof fn lemma_put_back_restores(b: BoardView, m: Nodes, ws: Seq<UndoEntry>)
    requires
        nodes_wf(m),
        b.nodes == entries_of(m, ws).0,
    ensures
        nodes_wf(b.nodes),
        same_cells(put_back(b, entries_of(m, ws).1).nodes, m),
    decreases ws.len(),
{
    if ws.len() > 0 {
        let before = ws.drop_last();
        let (n, e) = entries_of(m, before);
        let (pos, cell) = ws.last();
        let mid = BoardView { nodes: n, ..b };
        lemma_put_back_restores(mid, m, before);
        let entries = entries_of(m, ws).1;
        assert(entries.drop_last() =~= e);
        let back = b.rewritten(pos, cell_at(n, pos));
        lemma_place_reads_back(n, pos, cell, pos);
        lemma_place_reads_back(b.nodes, pos, cell_at(n, pos), pos);
        assert forall|p: WorldCoords| #[trigger] cell_at(back.nodes, p) == cell_at(n, p) by {
            lemma_place_reads_back(n, pos, cell, p);
            lemma_place_reads_back(b.nodes, pos, cell_at(n, pos), p);
        }
        lemma_put_back_same(back, mid, e);
    }
}

pub(crate) proof fn lemma_ordered_messages(todo: Seq<OrderView>, o: OrderView)
    ensures
        messages(todo.push(o)) == (match o {
            OrderView::Send(m) => messages(todo).push(m),
            _ => messages(todo),
        }),
{
    assert(todo.push(o).drop_last() =~= todo);
}

proof fn lemma_rebuilt_messages(v: EditorView, chunks: Seq<ChunkCoords>)
    ensures
        messages(v.rebuilt(chunks).net.todo) == messages(v.net.todo),
    decreases chunks.len(),
{
    if chunks.len() > 0 {
        let before = v.rebuilt(chunks.drop_last());
        lemma_rebuilt_messages(v, chunks.drop_last());
        lemma_ordered_messages(before.net.todo, OrderView::RebuildChunk(chunks.last()));
    }
}

pub(crate) proof fn lemma_scrolled_messages(v: EditorView)
    ensures
        messages(v.scrolled().net.todo) == messages(v.net.todo),
{
    let o = OrderView::ScrollToCursor;
    lemma_ordered_messages(v.net.todo, o);
    lemma_ordered_messages(v.net.todo.push(o), OrderView::RestartChunkTimer(0));
}

/// Undoing sends one message, with the places of the step, the last one first;
/// none, where there is no step or nothing in it.
pub proof fn law_undo_tells_the_server(v: EditorView)
    ensures
        v.ui.steps.len() == 0 ==> v.undone() == v,
        v.ui.steps.len() > 0 ==> messages(v.undone().net.todo) == (if v.ui.steps.last().len() > 0 {
            messages(v.net.todo).push(
                ClientMsgView::RestoreCellBatch {
                    cells: restore_coords(places_back(v.ui.steps.last())),
                },
            )
        } else {
            messages(v.net.todo)
        }),
{
    if v.ui.steps.len() > 0 {
        let step = v.ui.steps.last();
        let places = places_back(step);
        let m = ClientMsgView::RestoreCellBatch { cells: restore_coords(places) };
        let u = EditorView {
            board: put_back(v.board, step),
            ui: UiView { steps: v.ui.steps.drop_last(), ..v.ui },
            ..v
        };
        let told = if places.len() > 0 {
            u.sent(m)
        } else {
            u
        };
        lemma_ordered_messages(v.net.todo, OrderView::Send(m));
        lemma_rebuilt_messages(told, chunks_of(places));
        lemma_scrolled_messages(told.rebuilt(chunks_of(places)));
    }
}

proof fn lemma_written_entries(v: EditorView, ws: Seq<UndoEntry>, open: Seq<UndoEntry>)
    requires
        v.ui.open_step == Some(open),
    ensures
        all_written(v, ws).board.nodes == entries_of(v.board.nodes, ws).0,
        all_written(v, ws).ui.open_step == Some(open + entries_of(v.board.nodes, ws).1),
        all_written(v, ws).ui.steps == v.ui.steps,
        messages(all_written(v, ws).net.todo) == messages(v.net.todo),
        places_back(entries_of(v.board.nodes, ws).1) == places_back(ws),
        entries_of(v.board.nodes, ws).1.len() == ws.len(),
        forall|i: int|
            0 <= i < ws.len() ==> (#[trigger] entries_of(v.board.nodes, ws).1[i]).0 == ws[i].0,
    decreases ws.len(),
{
    if ws.len() == 0 {
        assert(open + Seq::<UndoEntry>::empty() =~= open);
    } else {
        lemma_written_entries(v, ws.drop_last(), open);
        let (n, e) = entries_of(v.board.nodes, ws.drop_last());
        let entry = (ws.last().0, cell_at(n, ws.last().0));
        assert((open + e).push(entry) =~= open + e.push(entry));
        let before = all_written(v, ws.drop_last()).net;
        lemma_ordered_messages(before.todo, OrderView::StartSetTimer(SET_FLUSH_PERIOD_MS));
    }
    assert(places_back(entries_of(v.board.nodes, ws).1) =~= places_back(ws));
}

/// Undoing takes back all that was written as one step, whatever it was: every
/// place reads as it did before, the step is off the stack, and one message is
/// sent, with the places from the last that was written to the first.
pub proof fn law_undo_restores(v: EditorView, ws: Seq<UndoEntry>)
    requires
        nodes_wf(v.board.nodes),
        ws.len() > 0,
    ensures
        ({
            let begun = EditorView { ui: v.ui.batch_begun(), ..v };
            let done = all_written(begun, ws);
            let after = (EditorView { ui: done.ui.batch_ended(), ..done }).undone();
            &&& same_cells(after.board.nodes, v.board.nodes)
            &&& after.ui.steps == (if v.ui.steps.len() + 1 > UNDO_LIMIT {
                v.ui.steps.drop_first()
            } else {
                v.ui.steps
            })
            &&& after.ui.open_step is None
            &&& messages(after.net.todo) == messages(v.net.todo).push(
                ClientMsgView::RestoreCellBatch { cells: restore_coords(places_back(ws)) },
            )
        }),
{
    let begun = EditorView { ui: v.ui.batch_begun(), ..v };
    let done = all_written(begun, ws);
    let ended = EditorView { ui: done.ui.batch_ended(), ..done };
    let e = entries_of(v.board.nodes, ws).1;
    lemma_written_entries(begun, ws, Seq::empty());
    assert(Seq::<UndoEntry>::empty() + e =~= e);
    assert(ended.ui.steps.last() == e);
    assert(ended.ui.steps.drop_last() =~= (if v.ui.steps.len() + 1 > UNDO_LIMIT {
        v.ui.steps.drop_first()
    } else {
        v.ui.steps
    }));
    lemma_put_back_restores(ended.board, v.board.nodes, ws);
    lemma_undone_board(ended);
    law_undo_tells_the_server(ended);
}

pub(crate) proof fn lemma_rebuilt_keeps(v: EditorView, chunks: Seq<ChunkCoords>)
    ensures
        v.rebuilt(chunks).board == v.board,
        v.rebuilt(chunks).ui == v.ui,
    decreases chunks.len(),
{
    if chunks.len() > 0 {
        lemma_rebuilt_keeps(v, chunks.drop_last());
    }
}

/// What undoing makes of the board.
pub(crate) proof fn lemma_undone_board(v: EditorView)
    ensures
        v.ui.steps.len() > 0 ==> v.undone().board == put_back(v.board, v.ui.steps.last()),
        v.ui.steps.len() > 0 ==> v.undone().ui == (UiView {
            steps: v.ui.steps.drop_last(),
            ..v.ui
        }),
{
    if v.ui.steps.len() > 0 {
        let step = v.ui.steps.last();
        let places = places_back(step);
        let u = EditorView {
            board: put_back(v.board, step),
            ui: UiView { steps: v.ui.steps.drop_last(), ..v.ui },
            ..v
        };
        lemma_rebuilt_keeps(u, chunks_of(places));
        lemma_rebuilt_keeps(
            u.sent(ClientMsgView::RestoreCellBatch { cells: restore_coords(places) }),
            chunks_of(places),
        );
    }
}

/// Undoing a single write takes it back, forgets it, and tells the server.
pub proof fn law_undo_takes_one_write_back(v: EditorView, pos: WorldCoords, cell: Option<CanvasCell>)
    requires
        nodes_wf(v.board.nodes),
        v.ui.open_step is None,
        v.ui.steps.len() < UNDO_LIMIT,
    ensures
        same_cells(v.written(pos, cell).undone().board.nodes, v.board.nodes),
        v.written(pos, cell).undone().ui.steps == v.ui.steps,
        messages(v.written(pos, cell).undone().net.todo) == messages(v.net.todo).push(
            ClientMsgView::RestoreCellBatch { cells: seq![RestoreCoord { pos }] },
        ),
{
    let w = v.written(pos, cell);
    let prev = cell_at(v.board.nodes, pos);
    let step = seq![(pos, prev)];
    assert(w.ui.steps.last() == step);
    assert(w.ui.steps.drop_last() =~= v.ui.steps);
    let ws = seq![(pos, cell)];
    assert(ws.drop_last() =~= Seq::<UndoEntry>::empty());
    assert(entries_of(v.board.nodes, ws.drop_last()) == (v.board.nodes, Seq::<UndoEntry>::empty()));
    assert(entries_of(v.board.nodes, ws).1 =~= step);
    lemma_put_back_restores(w.board, v.board.nodes, ws);
    lemma_undone_board(w);
    law_undo_tells_the_server(w);
    lemma_ordered_messages(v.net.todo, OrderView::StartSetTimer(SET_FLUSH_PERIOD_MS));
    assert(restore_coords(places_back(step)) =~= seq![RestoreCoord { pos }]);
}

} // verus!
