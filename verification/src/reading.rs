//! What holds of those who read the board: what they are sent is what is written
//! there, and they see it where it stands.

use vstd::prelude::*;

use crate::chunks::cell_at;
use crate::client::{
    chunk_cells_valid, chunks_valid, kept_cell, kept_cells, received_chunk, standing, untouched,
    with_pending, Kept,
};
use crate::coords::{
    law_chunk_injective, law_index_injective, ChunkCoords, WorldCoords, CHUNK_AREA,
};
use crate::edit::{updated, Update};
use crate::editor::EditorView;
use crate::model::StoredChunkCell;
use crate::msg::{CellWrite, ChunkCell, ServerMsg};
use crate::query::sent_cell;
use crate::serving::{lemma_numbered, numbered};
use crate::state::AppState;
use crate::typing::is_place;
use crate::ui::CanvasCell;
use crate::world::{cells_below, chunk_cells, Slot};

verus! {

/// Every cell carries the column and the row at which it stands in its chunk:
/// of 64 columns and 16 rows, counted row by row.
pub open spec fn all_in_place(m: Map<Slot, StoredChunkCell>) -> bool {
    forall|s: Slot| #[trigger]
        m.contains_key(s) ==> m[s].local.x < 64 && m[s].local.y < 16 && s.1 == 64 * m[s].local.y
            + m[s].local.x
}

/// Whatever is written, every cell carries the place at which it stands.
pub proof fn law_writing_keeps_all_in_place(m: Map<Slot, StoredChunkCell>, updates: Seq<Update>)
    requires
        all_in_place(m),
    ensures
        all_in_place(updated(m, updates)),
    decreases updates.len(),
{
    if updates.len() > 0 {
        law_writing_keeps_all_in_place(m, updates.drop_last());
    }
}

/// A place of the board that is written last among some updates holds what was
/// written, in the chunk and at the place in it that its coordinates say.
pub proof fn law_update_stands_at_its_place(
    m: Map<Slot, StoredChunkCell>,
    updates: Seq<Update>,
    chunk: ChunkCoords,
    x: int,
    y: int,
)
    requires
        updates.len() > 0,
        updates.last().0.x == 64 * chunk.x + x,
        updates.last().0.y == 16 * chunk.y + y,
        0 <= x < 64,
        0 <= y < 16,
    ensures
        ({
            let after = updated(m, updates);
            let s = (chunk, 64 * y + x);
            match updates.last().1 {
                Some(c) => {
                    &&& after.contains_key(s)
                    &&& after[s].ch == c.ch
                    &&& after[s].color == c.color
                    &&& after[s].author_id == c.author_id
                    &&& after[s].ts == c.ts
                    &&& after[s].local.x == x
                    &&& after[s].local.y == y
                },
                None => !after.contains_key(s),
            }
        }),
{
    let pos = updates.last().0;
    assert(pos.chunk() == chunk);
    assert(pos.local().x == x && pos.local().y == y);
}

pub(crate) proof fn lemma_slot_of_cell(m: Map<Slot, StoredChunkCell>, chunk: ChunkCoords, n: nat, j: int) -> (k:
    int)
    requires
        0 <= j < cells_below(m, chunk, n).len(),
    ensures
        0 <= k < n,
        m.contains_key((chunk, k)),
        cells_below(m, chunk, n)[j] == m[(chunk, k)],
        j == cells_below(m, chunk, k as nat).len(),
    decreases n,
{
    let before = cells_below(m, chunk, (n - 1) as nat);
    if j < before.len() {
        lemma_slot_of_cell(m, chunk, (n - 1) as nat, j)
    } else {
        n - 1
    }
}

pub(crate) proof fn lemma_cell_of_slot(m: Map<Slot, StoredChunkCell>, chunk: ChunkCoords, n: nat, k: int)
    requires
        0 <= k < n,
        m.contains_key((chunk, k)),
    ensures
        cells_below(m, chunk, k as nat).len() < cells_below(m, chunk, n).len(),
        cells_below(m, chunk, n)[cells_below(m, chunk, k as nat).len() as int] == m[(chunk, k)],
    decreases n,
{
    if k < n - 1 {
        lemma_cell_of_slot(m, chunk, (n - 1) as nat, k);
    }
}

/// What is sent for a chunk is what stands there: each cell that is sent has the
/// place, character, color, author and time of a cell of the board in that chunk,
/// no place is sent twice, and no cell of the chunk is left out.
pub proof fn law_fetched_cells_are_those_of_the_board(
    state: AppState,
    chunks: Seq<ChunkCoords>,
    sent: ServerMsg,
    i: int,
)
    requires
        state.tells_chunks(chunks, sent),
        all_in_place(state.world@),
        0 <= i < chunks.len(),
    ensures
        sent is ChunkDataBatch,
        sent->ChunkDataBatch_chunks@.len() == chunks.len(),
        sent->ChunkDataBatch_chunks@[i].0 == chunks[i],
        ({
            let cells = sent->ChunkDataBatch_chunks@[i].1@;
            let c = chunks[i];
            &&& forall|j: int|
                0 <= j < cells.len() ==> {
                    let k = 64 * (#[trigger] cells[j]).local.y + cells[j].local.x;
                    &&& cells[j].local.x < 64
                    &&& cells[j].local.y < 16
                    &&& state.world@.contains_key((c, k))
                    &&& cells[j].ch == state.world@[(c, k)].ch
                    &&& cells[j].color == state.world@[(c, k)].color
                    &&& cells[j].author_id == state.world@[(c, k)].author_id
                    &&& cells[j].ts == state.world@[(c, k)].ts
                }
            &&& forall|a: int, b: int|
                0 <= a < b < cells.len() ==> (#[trigger] cells[a]).local != (
                #[trigger] cells[b]).local
            &&& forall|x: int, y: int|
                0 <= x < 64 && 0 <= y < 16 && #[trigger] state.world@.contains_key(
                    (c, 64 * y + x),
                ) ==> exists|j: int|
                    0 <= j < cells.len() && (#[trigger] cells[j]).local.x == x && cells[j].local.y
                        == y
        }),
{
    let m = state.world@;
    let c = chunks[i];
    let all = chunk_cells(m, c);
    let cells = sent->ChunkDataBatch_chunks@[i].1@;
    assert(cells =~= all.map_values(|x: StoredChunkCell| sent_cell(x)));
    assert forall|j: int| 0 <= j < cells.len() implies {
        let k = 64 * (#[trigger] cells[j]).local.y + cells[j].local.x;
        &&& cells[j].local.x < 64
        &&& cells[j].local.y < 16
        &&& m.contains_key((c, k))
        &&& cells[j].ch == m[(c, k)].ch
        &&& cells[j].color == m[(c, k)].color
        &&& cells[j].author_id == m[(c, k)].author_id
        &&& cells[j].ts == m[(c, k)].ts
    } by {
        let k = lemma_slot_of_cell(m, c, CHUNK_AREA as nat, j);
    }
    assert forall|a: int, b: int| 0 <= a < b < cells.len() implies (#[trigger] cells[a]).local != (
    #[trigger] cells[b]).local by {
        let ka = lemma_slot_of_cell(m, c, CHUNK_AREA as nat, a);
        let kb = lemma_slot_of_cell(m, c, CHUNK_AREA as nat, b);
    }
    assert forall|x: int, y: int|
        0 <= x < 64 && 0 <= y < 16 && #[trigger] m.contains_key((c, 64 * y + x)) implies exists|
        j: int,
    |
        0 <= j < cells.len() && (#[trigger] cells[j]).local.x == x && cells[j].local.y == y by {
        let k = 64 * y + x;
        lemma_cell_of_slot(m, c, CHUNK_AREA as nat, k);
        let j = cells_below(m, c, k as nat).len() as int;
        assert(cells[j] == sent_cell(m[(c, k)]));
    }
}

proof fn lemma_kept_below(m: Map<Slot, StoredChunkCell>, chunk: ChunkCoords, n: nat)
    requires
        all_in_place(m),
        n <= CHUNK_AREA,
    ensures
        ({
            let cells = cells_below(m, chunk, n).map_values(|c: StoredChunkCell| sent_cell(c));
            &&& kept_cells(cells).len() == CHUNK_AREA
            &&& forall|i: int|
                0 <= i < CHUNK_AREA ==> #[trigger] kept_cells(cells)[i] == (if i < n
                    && m.contains_key((chunk, i)) {
                    kept_cell(sent_cell(m[(chunk, i)]))
                } else {
                    untouched()
                })
            &&& forall|j: int|
                0 <= j < cells.len() ==> 0 <= (#[trigger] cells[j]).local.index() < CHUNK_AREA
        }),
    decreases n,
{
    let cells = cells_below(m, chunk, n).map_values(|c: StoredChunkCell| sent_cell(c));
    if n > 0 {
        lemma_kept_below(m, chunk, (n - 1) as nat);
        let before = cells_below(m, chunk, (n - 1) as nat).map_values(
            |c: StoredChunkCell| sent_cell(c),
        );
        if m.contains_key((chunk, n - 1)) {
            assert(cells.drop_last() =~= before);
            assert(cells.last() == sent_cell(m[(chunk, n - 1)]));
            assert forall|j: int| 0 <= j < cells.len() implies 0 <= (
            #[trigger] cells[j]).local.index() < CHUNK_AREA by {
                if j < before.len() {
                    assert(cells[j] == before[j]);
                }
            }
        } else {
            assert(cells =~= before);
        }
    }
}

proof fn lemma_taken(
    v: EditorView,
    chunks: Seq<(ChunkCoords, Vec<ChunkCell>)>,
    i: int,
    pos: WorldCoords,
)
    requires
        0 <= i < chunks.len(),
        pos.chunk() == chunks[i].0,
        forall|j: int| i < j < chunks.len() ==> (#[trigger] chunks[j]).0 != chunks[i].0,
    ensures
        v.chunks_taken(chunks).net.pending == v.net.pending,
        cell_at(v.chunks_taken(chunks).board.nodes, pos) == received_chunk(
            chunks[i].1@,
            chunks[i].0,
            v.net.pending,
        )[pos.local().index()],
    decreases chunks.len(),
{
    let d = chunks.drop_last();
    lemma_taken_pending(v, d);
    if i < d.len() {
        assert(d[i] == chunks[i]);
        assert forall|j: int| i < j < d.len() implies (#[trigger] d[j]).0 != d[i].0 by {
            assert(d[j] == chunks[j]);
        }
        lemma_taken(v, d, i, pos);
        assert(chunks[chunks.len() - 1].0 != chunks[i].0);
    }
}

proof fn lemma_taken_pending(v: EditorView, chunks: Seq<(ChunkCoords, Vec<ChunkCell>)>)
    ensures
        v.chunks_taken(chunks).net.pending == v.net.pending,
    decreases chunks.len(),
{
    if chunks.len() > 0 {
        lemma_taken_pending(v, chunks.drop_last());
    }
}

proof fn lemma_rebuilt_board(v: EditorView, chunks: Seq<ChunkCoords>)
    ensures
        v.rebuilt(chunks).board == v.board,
    decreases chunks.len(),
{
    if chunks.len() > 0 {
        lemma_rebuilt_board(v, chunks.drop_last());
    }
}

/// Who asks for chunks sees in them what the board holds: every place of a chunk
/// that was sent shows the character, the color, the author and the time of the
/// cell that stands there, or nothing where none does. This is so where nothing
/// is waiting to be sent that would be shown over it.
pub proof fn law_fetched_chunk_shows_the_board(
    state: AppState,
    chunks: Seq<ChunkCoords>,
    sent: ServerMsg,
    v: EditorView,
    until: u64,
    i: int,
    pos: WorldCoords,
    x: int,
    y: int,
)
    requires
        state.tells_chunks(chunks, sent),
        all_in_place(state.world@),
        v.net.pending.len() == 0,
        0 <= i < chunks.len(),
        0 <= x < 64,
        0 <= y < 16,
        pos.x == 64 * chunks[i].x + x,
        pos.y == 16 * chunks[i].y + y,
    ensures
        chunks_valid(sent->ChunkDataBatch_chunks@),
        ({
            let shown = cell_at(v.received(sent, until).board.nodes, pos);
            let s = (chunks[i], 64 * y + x);
            if state.world@.contains_key(s) {
                let c = state.world@[s];
                shown == Some(
                    CanvasCell { ch: c.ch, color: c.color, author_id: c.author_id, ts: c.ts },
                )
            } else {
                shown is None
            }
        }),
{
    let m = state.world@;
    let cs = sent->ChunkDataBatch_chunks@;
    assert forall|j: int| 0 <= j < cs.len() implies crate::client::chunk_cells_valid(
        (#[trigger] cs[j]).1@,
    ) by {
        lemma_kept_below(m, chunks[j], CHUNK_AREA as nat);
        assert(cs[j].1@ == chunk_cells(m, chunks[j]).map_values(
            |c: StoredChunkCell| sent_cell(c),
        ));
    }
    assert(pos.chunk() == chunks[i]);
    assert(pos.local().index() == 64 * y + x);
    let last = last_of(cs, chunks[i], cs.len() as int);
    lemma_last_of(cs, chunks[i], cs.len() as int, i);
    let named = v.names_known(sent->ChunkDataBatch_authors@);
    lemma_taken(named, cs, last, pos);
    lemma_kept_below(m, chunks[i], CHUNK_AREA as nat);
    assert(cs[last].0 == chunks[last]);
    assert(cs[last].1@ == chunk_cells(m, chunks[last]).map_values(
        |c: StoredChunkCell| sent_cell(c),
    ));
    lemma_rebuilt_board(named.chunks_taken(cs), crate::client::chunk_names(cs));
}

/// The last of the first `n` of `chunks` that is `c`.
spec fn last_of(chunks: Seq<(ChunkCoords, Vec<ChunkCell>)>, c: ChunkCoords, n: int) -> int
    decreases n,
{
    if n <= 0 {
        -1
    } else if chunks[n - 1].0 == c {
        n - 1
    } else {
        last_of(chunks, c, n - 1)
    }
}

proof fn lemma_last_of(chunks: Seq<(ChunkCoords, Vec<ChunkCell>)>, c: ChunkCoords, n: int, i: int)
    requires
        0 <= i < n <= chunks.len(),
        chunks[i].0 == c,
    ensures
        i <= last_of(chunks, c, n) < n,
        chunks[last_of(chunks, c, n)].0 == c,
        forall|j: int| last_of(chunks, c, n) < j < n ==> (#[trigger] chunks[j]).0 != c,
    decreases n,
{
    if chunks[n - 1].0 != c {
        lemma_last_of(chunks, c, n - 1, i);
    }
}

proof fn lemma_kept_at(cells: Seq<ChunkCell>, i: int, k: int)
    requires
        chunk_cells_valid(cells),
        0 <= i < 1024,
    ensures
        kept_cells(cells).len() == 1024,
        (forall|j: int| 0 <= j < cells.len() ==> 64 * (#[trigger] cells[j]).local.y + cells[j].local.x
            != i) ==> kept_cells(cells)[i] == untouched(),
        0 <= k < cells.len() && 64 * cells[k].local.y + cells[k].local.x == i && (forall|j: int|
            k < j < cells.len() ==> 64 * (#[trigger] cells[j]).local.y + cells[j].local.x != i)
            ==> kept_cells(cells)[i] == kept_cell(cells[k]),
    decreases cells.len(),
{
    if cells.len() > 0 {
        let rest = cells.drop_last();
        let n = cells.len() - 1;
        assert forall|j: int| 0 <= j < rest.len() implies rest[j] == cells[j] by {}
        assert(cells[n].local.index() < 1024);
        assert(chunk_cells_valid(rest)) by {
            assert forall|j: int| 0 <= j < rest.len() implies (#[trigger] rest[j]).local.index()
                < CHUNK_AREA by {
                assert(cells[j].local.index() < CHUNK_AREA);
            }
        }
        lemma_kept_at(rest, i, k);
        if forall|j: int|
            0 <= j < cells.len() ==> 64 * (#[trigger] cells[j]).local.y + cells[j].local.x != i {
            assert(64 * cells[n].local.y + cells[n].local.x != i);
            assert forall|j: int| 0 <= j < rest.len() implies 64 * (#[trigger] rest[j]).local.y
                + rest[j].local.x != i by {
                assert(64 * cells[j].local.y + cells[j].local.x != i);
            }
        }
        if 0 <= k < n && forall|j: int|
            k < j < cells.len() ==> 64 * (#[trigger] cells[j]).local.y + cells[j].local.x != i {
            assert(64 * cells[n].local.y + cells[n].local.x != i);
            assert forall|j: int| k < j < rest.len() implies 64 * (#[trigger] rest[j]).local.y
                + rest[j].local.x != i by {
                assert(64 * cells[j].local.y + cells[j].local.x != i);
            }
        }
    }
}

proof fn lemma_pending_at(
    places: Seq<Kept>,
    chunk: ChunkCoords,
    pending: Seq<CellWrite>,
    p: WorldCoords,
    i: int,
    k: int,
)
    requires
        places.len() == 1024,
        is_place(p),
        numbered(p, chunk, i),
        forall|j: int| 0 <= j < pending.len() ==> is_place((#[trigger] pending[j]).pos),
    ensures
        with_pending(places, chunk, pending).len() == 1024,
        (forall|j: int| 0 <= j < pending.len() ==> (#[trigger] pending[j]).pos != p)
            ==> with_pending(places, chunk, pending)[i] == places[i],
        0 <= k < pending.len() && pending[k].pos == p && (forall|j: int|
            k < j < pending.len() ==> (#[trigger] pending[j]).pos != p) ==> {
            let r = with_pending(places, chunk, pending)[i];
            &&& r.stands <==> pending[k].ch is Some
            &&& r.stands ==> r.cell.ch == pending[k].ch->0 && r.cell.color == pending[k].color
        },
    decreases pending.len(),
{
    if pending.len() > 0 {
        let rest = pending.drop_last();
        let n = pending.len() - 1;
        let w = pending.last();
        assert(pending[n] == w);
        assert forall|j: int| 0 <= j < rest.len() implies is_place((#[trigger] rest[j]).pos) by {
            assert(rest[j] == pending[j]);
        }
        lemma_pending_at(places, chunk, rest, p, i, k);
        lemma_numbered(p, chunk, i);
        if w.pos.chunk() == chunk && w.pos.local().index() == i {
            law_index_injective(w.pos.local(), p.local());
            law_chunk_injective(w.pos, p);
        }
        if forall|j: int| 0 <= j < pending.len() ==> (#[trigger] pending[j]).pos != p {
            assert(pending[n].pos != p);
            assert forall|j: int| 0 <= j < rest.len() implies (#[trigger] rest[j]).pos != p by {
                assert(rest[j] == pending[j]);
            }
        }
        if 0 <= k < n && forall|j: int|
            k < j < pending.len() ==> (#[trigger] pending[j]).pos != p {
            assert(pending[n].pos != p);
            assert forall|j: int| k < j < rest.len() implies (#[trigger] rest[j]).pos != p by {
                assert(rest[j] == pending[j]);
            }
        }
    }
}

/// A chunk that the server describes shows at each place what was last written
/// there and is not sent yet; where nothing waits to be sent, what the server says.
pub proof fn law_received_chunk_shows_what_waits(
    cells: Seq<ChunkCell>,
    chunk: ChunkCoords,
    pending: Seq<CellWrite>,
    p: WorldCoords,
    i: int,
    k: int,
    c: int,
)
    requires
        chunk_cells_valid(cells),
        is_place(p),
        numbered(p, chunk, i),
        forall|j: int| 0 <= j < pending.len() ==> is_place((#[trigger] pending[j]).pos),
    ensures
        ({
            let shown = received_chunk(cells, chunk, pending)[i];
            let none_waits = forall|j: int|
                0 <= j < pending.len() ==> (#[trigger] pending[j]).pos != p;
            &&& 0 <= k < pending.len() && pending[k].pos == p && (forall|j: int|
                k < j < pending.len() ==> (#[trigger] pending[j]).pos != p) ==> {
                &&& shown is Some <==> pending[k].ch is Some
                &&& shown is Some ==> shown->0.ch == pending[k].ch->0 && shown->0.color
                    == pending[k].color
            }
            &&& none_waits && (forall|j: int|
                0 <= j < cells.len() ==> 64 * (#[trigger] cells[j]).local.y + cells[j].local.x != i)
                ==> shown is None
            &&& none_waits && 0 <= c < cells.len() && 64 * cells[c].local.y + cells[c].local.x == i
                && (forall|j: int|
                c < j < cells.len() ==> 64 * (#[trigger] cells[j]).local.y + cells[j].local.x != i)
                ==> shown is Some && shown->0.ch == cells[c].ch && shown->0.color == cells[c].color
                && shown->0.author_id == cells[c].author_id && shown->0.ts == cells[c].ts
        }),
{
    lemma_kept_at(cells, i, c);
    lemma_pending_at(kept_cells(cells), chunk, pending, p, i, k);
    let places = with_pending(kept_cells(cells), chunk, pending);
    assert(received_chunk(cells, chunk, pending)[i] == standing(places[i]));
}

} // verus!
