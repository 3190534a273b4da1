//! What the editor does when the connection comes and goes, and what holds of it
//! and the server together.

use vstd::prelude::*;

use crate::chunks::{cell_at, law_cell_reads_back, nodes_wf, NodeView, MAX_FLUSH};
use crate::client::{
    chunk_cells_valid, kept_cells, overlaid, received_chunk, standing, standing_cells, with_pending,
};
use crate::coords::{ChunkCoords, WorldCoords, WorldRect, CHUNK_AREA};
use crate::editor::{BoardView, Editor, EditorView};
use crate::fetch::{all_wanted, refresh_chunks, refreshes, visible};
use crate::msg::{CellUpdateEntry, CellWrite, ChunkCell, ClientMsg};
use crate::ui::{CanvasCell, ClientMsgView, NetView, Order, OrderView};

verus! {

/// Milliseconds after which a lost connection is tried again.
pub const RECONNECT_MS: i32 = 3000;

/// What is in view.
pub struct Scene {
    pub bounds: WorldRect,
    pub cols: (i64, i64),
    pub rows: (i64, i64),
    pub step: u8,
    pub is_glyph: bool,
}

impl EditorView {
    /// The server is asked how things are, and told what is in view and where
    /// the cursor is.
    pub open spec fn introduced(self, bounds: WorldRect) -> EditorView {
        let pos = self.ui.cursor.pos;
        let net = NetView { is_conn: true, last_cursor_sent: Some(pos), ..self.net };
        (EditorView { net, ..self }).sent(ClientMsgView::FetchStats).sent(
            ClientMsgView::UpdateViewport(bounds),
        ).sent(ClientMsgView::UpdateCursor { pos, color: self.ui.color })
    }

    /// The connection is lost. Unless the server closed it on purpose, it is
    /// tried again.
    pub open spec fn disconnected(self) -> EditorView {
        let v = EditorView {
            board: BoardView {
                nodes: self.board.nodes.map_values(|n: NodeView| n.requeued()),
                ..self.board
            },
            net: NetView { is_conn: false, last_cursor_sent: None, ..self.net },
            ..self
        };
        if self.net.kicked {
            v
        } else {
            v.ordered(OrderView::Log("disconnected; retrying..."@, "e"@)).ordered(
                OrderView::StartReconnectTimer(RECONNECT_MS),
            )
        }
    }

    /// `after` is this once chunks have been asked for.
    pub open spec fn asks_for_chunks<D: Fn(ChunkCoords) -> u64>(
        self,
        scene: Scene,
        dist: D,
        after: EditorView,
    ) -> bool {
        &&& refreshes(
            if self.net.is_conn {
                all_wanted(
                    self.board.nodes,
                    visible(scene.cols, scene.rows),
                    scene.step,
                    scene.is_glyph,
                )
            } else {
                self.board.nodes
            },
            self.net,
            MAX_FLUSH as nat,
            dist,
            after.board.nodes,
            after.net,
        )
        &&& after == (EditorView {
            board: BoardView { nodes: after.board.nodes, ..self.board },
            net: after.net,
            ..self
        })
    }
}

impl Editor {
    /// Asks for the chunks in view.
    pub fn refresh<D: Fn(ChunkCoords) -> u64>(&mut self, scene: &Scene, dist: &D)
        requires
            old(self).wf(),
            scene.cols.1 < i64::MAX,
            scene.rows.1 < i64::MAX,
            forall|c: ChunkCoords| #[trigger] call_requires(*dist, (c,)),
        ensures
            final(self).wf(),
            old(self)@.asks_for_chunks(*scene, *dist, final(self)@),
    {
        refresh_chunks(
            &mut self.board.chunk_manager,
            &mut self.net,
            MAX_FLUSH,
            scene.cols,
            scene.rows,
            scene.step,
            scene.is_glyph,
            dist,
        );
    }

    /// The connection is there.
    pub fn on_open<D: Fn(ChunkCoords) -> u64>(&mut self, scene: &Scene, dist: &D)
        requires
            old(self).wf(),
            scene.cols.1 < i64::MAX,
            scene.rows.1 < i64::MAX,
            forall|c: ChunkCoords| #[trigger] call_requires(*dist, (c,)),
        ensures
            final(self).wf(),
            exists|mid: EditorView|
                {
                    &&& #[trigger] old(self)@.introduced(scene.bounds).asks_for_chunks(
                        *scene,
                        *dist,
                        mid,
                    )
                    &&& final(self)@ == mid.ordered(OrderView::Log("connected"@, "c"@)).ordered(
                        OrderView::Status("type anywhere | ? for help"@),
                    )
                },
    {
        let (pos, color) = (self.ui.cursor.pos, self.ui.color);
        self.net.is_conn = true;
        self.net.last_cursor_sent = Some(pos);
        self.net.send(ClientMsg::FetchStats);
        self.net.send(ClientMsg::UpdateViewport(scene.bounds));
        self.net.send(ClientMsg::UpdateCursor { pos, color });
        assert(self@ =~= old(self)@.introduced(scene.bounds));
        self.refresh(scene, dist);
        let ghost mid = self@;
        assert(old(self)@.introduced(scene.bounds).asks_for_chunks(*scene, *dist, mid));
        self.order(Order::Log("connected".to_string(), "c".to_string()));
        self.order(Order::Status("type anywhere | ? for help".to_string()));
    }

    /// The connection is lost.
    pub fn on_close(&mut self)
        requires
            old(self).wf(),
        ensures
            final(self).wf(),
            final(self)@ == old(self)@.disconnected(),
    {
        self.net.is_conn = false;
        self.net.last_cursor_sent = None;
        self.board.chunk_manager.on_disconnect();
        if !self.net.kicked {
            self.order(Order::Log("disconnected; retrying...".to_string(), "e".to_string()));
            self.order(Order::StartReconnectTimer(RECONNECT_MS));
        }
    }

    /// Asks how things are, while there is a connection.
    pub fn poll_stats(&mut self)
        ensures
            final(self)@ == (if old(self)@.net.is_conn {
                old(self)@.sent(ClientMsgView::FetchStats)
            } else {
                old(self)@
            }),
            old(self).wf() ==> final(self).wf(),
    {
        if self.net.is_conn {
            self.net.send(ClientMsg::FetchStats);
        }
    }

    /// What is in view has changed, and is to be brought up to date.
    pub fn on_view_changed(&mut self, delay_ms: i32)
        ensures
            final(self)@ == ({
                let v = old(self)@.ordered(OrderView::RestartChunkTimer(delay_ms));
                EditorView { net: v.net.viewport_queued(), ..v }
            }),
            old(self).wf() ==> final(self).wf(),
    {
        self.order(Order::RestartChunkTimer(delay_ms));
        self.net.queue_viewport_update();
    }
}

/// A write that the server refuses is taken back: the cell holds again what it
/// held before, and no other cell changes.
pub proof fn law_refused_write_is_taken_back(
    v: EditorView,
    pos: WorldCoords,
    cell: Option<CanvasCell>,
    until: u64,
    other: WorldCoords,
)
    requires
        nodes_wf(v.board.nodes),
        pos.on_board(),
        other.on_board(),
    ensures
        cell_at(v.written(pos, cell).denied(pos, until).board.nodes, other) == cell_at(
            v.board.nodes,
            other,
        ),
{
    let w = v.written(pos, cell);
    law_cell_reads_back(v.board.nodes, pos, cell, pos);
    law_cell_reads_back(v.board.nodes, pos, cell, other);
    law_cell_reads_back(w.board.nodes, pos, cell_at(v.board.nodes, pos), other);
}

/// After an update a cell shows what the server says, and no other changes.
pub proof fn law_update_shows(v: EditorView, u: CellUpdateEntry, other: WorldCoords)
    requires
        nodes_wf(v.board.nodes),
        u.pos.on_board(),
        other.on_board(),
    ensures
        cell_at(v.updated(u).board.nodes, other) == (if other == u.pos {
            match u.ch {
                Some(ch) => Some(
                    CanvasCell { ch, color: u.color, author_id: u.author_id, ts: u.ts },
                ),
                None => None,
            }
        } else {
            cell_at(v.board.nodes, other)
        }),
{
    let cell = match u.ch {
        Some(ch) => Some(CanvasCell { ch, color: u.color, author_id: u.author_id, ts: u.ts }),
        None => None,
    };
    law_cell_reads_back(v.board.nodes, u.pos, cell, other);
}

/// What was typed and has not been sent still shows after the server has told
/// what the chunk holds.
pub proof fn law_unsent_writes_stay(
    cells: Seq<ChunkCell>,
    chunk: ChunkCoords,
    pending: Seq<CellWrite>,
)
    requires
        chunk_cells_valid(cells),
        pending.len() > 0,
        pending.last().pos.chunk() == chunk,
    ensures
        ({
            let w = pending.last();
            let shown = received_chunk(cells, chunk, pending)[w.pos.local().index()];
            match w.ch {
                Some(ch) => shown matches Some(c) && c.ch == ch && c.color == w.color,
                None => shown is None,
            }
        }),
{
    let w = pending.last();
    let i = w.pos.local().index();
    assert(0 <= i < CHUNK_AREA);
    let before = with_pending(kept_cells(cells), chunk, pending.drop_last());
    let places = with_pending(kept_cells(cells), chunk, pending);
    lemma_places(cells, chunk, pending.drop_last());
    assert(places[i] == overlaid(before[i], w));
    assert(standing_cells(places)[i] == standing(places[i]));
}

proof fn lemma_kept_len(cells: Seq<ChunkCell>)
    requires
        chunk_cells_valid(cells),
    ensures
        kept_cells(cells).len() == CHUNK_AREA,
    decreases cells.len(),
{
    if cells.len() > 0 {
        let d = cells.drop_last();
        assert forall|i: int| 0 <= i < d.len() implies (#[trigger] d[i]).local.index()
            < CHUNK_AREA by {
            assert(cells[i].local.index() < CHUNK_AREA);
        }
        lemma_kept_len(d);
        assert(cells[cells.len() - 1].local.index() < CHUNK_AREA);
    }
}

proof fn lemma_places(cells: Seq<ChunkCell>, chunk: ChunkCoords, pending: Seq<CellWrite>)
    requires
        chunk_cells_valid(cells),
    ensures
        with_pending(kept_cells(cells), chunk, pending).len() == CHUNK_AREA,
    decreases pending.len(),
{
    lemma_kept_len(cells);
    if pending.len() > 0 {
        lemma_places(cells, chunk, pending.drop_last());
    }
}

} // verus!
