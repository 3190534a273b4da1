//! What the editor makes of what the server says.

use std::collections::HashMap;

use vstd::prelude::*;
use vstd::std_specs::hash::*;
use vstd::string::StringExecFns;

use crate::chunks::{
    blank_cell, no_dots, no_places, with_cell_at, with_chunk_at, with_lod_at, ChunkData, Dots,
    LodChunkData, Places,
};
use crate::color::Rgb;
use crate::coords::{ChunkCoords, WorldCoords, CHUNK_AREA};
use crate::editor::{chunks_of, distinct_chunks, BoardView, Editor, EditorView};
use crate::panels::{DIRTY_AUTH, DIRTY_ONLINE, DIRTY_REGIONS, DIRTY_STATS, DIRTY_STATUSBAR};
use crate::msg::{
    CellUpdateEntry, CellWrite, ChunkCell, LodCell, OnlineUser, RegionRecord, ServerMsg,
};
use crate::table::keys_of;
use crate::text::same_text;
use crate::ui::{
    AuthState, AuthView, CanvasCell, NetView, Order, OrderView, UiView, UndoEntry,
};

verus! {

/// What was last written at a place, and whether it still stands there.
pub struct Kept {
    pub cell: CanvasCell,
    pub stands: bool,
}

/// A place at which nothing was ever written.
pub open spec fn untouched() -> Kept {
    Kept { cell: blank_cell(), stands: false }
}

pub open spec fn kept_cell(c: ChunkCell) -> Kept {
    Kept {
        cell: CanvasCell { ch: c.ch, color: c.color, author_id: c.author_id, ts: c.ts },
        stands: true,
    }
}

/// Each place of a chunk that the server describes.
pub open spec fn kept_cells(cells: Seq<ChunkCell>) -> Seq<Kept>
    decreases cells.len(),
{
    if cells.len() == 0 {
        Seq::new(CHUNK_AREA as nat, |i: int| untouched())
    } else {
        kept_cells(cells.drop_last()).update(cells.last().local.index(), kept_cell(cells.last()))
    }
}

/// What is to be written at a place takes the place of what stands there, but not
/// of who wrote it and when.
pub open spec fn overlaid(k: Kept, w: CellWrite) -> Kept {
    match w.ch {
        Some(ch) => Kept { cell: CanvasCell { ch, color: w.color, ..k.cell }, stands: true },
        None => Kept { stands: false, ..k },
    }
}

/// The places of a chunk with what is to be sent to the server written over them.
pub open spec fn with_pending(
    places: Seq<Kept>,
    chunk: ChunkCoords,
    pending: Seq<CellWrite>,
) -> Seq<Kept>
    decreases pending.len(),
{
    if pending.len() == 0 {
        places
    } else {
        let before = with_pending(places, chunk, pending.drop_last());
        let w = pending.last();
        if w.pos.chunk() == chunk {
            let i = w.pos.local().index();
            before.update(i, overlaid(before[i], w))
        } else {
            before
        }
    }
}

/// What stands at a place.
pub open spec fn standing(k: Kept) -> Option<CanvasCell> {
    if k.stands {
        Some(k.cell)
    } else {
        None
    }
}

/// What a chunk holds.
pub open spec fn standing_cells(places: Seq<Kept>) -> Places {
    Seq::new(CHUNK_AREA as nat, |i: int| standing(places[i]))
}

/// The colors of a chunk that the server describes.
pub open spec fn dots_of(cells: Seq<LodCell>) -> Dots
    decreases cells.len(),
{
    if cells.len() == 0 {
        no_dots()
    } else {
        dots_of(cells.drop_last()).update(cells.last().local.index(), Some(cells.last().color))
    }
}

impl ChunkData {
    /// What was last written at a place, and whether it still stands there.
    pub open spec fn kept_at(&self, i: int) -> Kept {
        Kept { cell: self.kept(i), stands: self.place(i) is Some }
    }

    /// `places` are what was last written at each place.
    pub open spec fn keeps(&self, places: Seq<Kept>) -> bool {
        &&& self.wf()
        &&& places.len() == CHUNK_AREA
        &&& forall|i: int| 0 <= i < CHUNK_AREA ==> self.kept_at(i) == #[trigger] places[i]
    }
}

/// Every place lies in the chunk.
pub open spec fn chunk_cells_valid(cells: Seq<ChunkCell>) -> bool {
    forall|i: int| 0 <= i < cells.len() ==> (#[trigger] cells[i]).local.index() < CHUNK_AREA
}

/// Every place lies in the chunk.
pub open spec fn lod_cells_valid(cells: Seq<LodCell>) -> bool {
    forall|i: int| 0 <= i < cells.len() ==> (#[trigger] cells[i]).local.index() < CHUNK_AREA
}

/// The chunk that the server describes.
pub fn build_chunk_data(cells: &Vec<ChunkCell>) -> (r: ChunkData)
    requires
        chunk_cells_valid(cells@),
    ensures
        r.keeps(kept_cells(cells@)),
{
    let mut data = ChunkData::new_empty();
    let mut i: usize = 0;
    assert(cells@.take(0) =~= Seq::<ChunkCell>::empty());
    assert forall|k: int| 0 <= k < CHUNK_AREA implies data.kept_at(k)
        == #[trigger] kept_cells(cells@.take(0))[k] by {
        assert(data@[k] == no_places()[k]);
        assert(data.kept(k) == blank_cell());
    }
    while i < cells.len()
        invariant
            i <= cells@.len(),
            chunk_cells_valid(cells@),
            data.keeps(kept_cells(cells@.take(i as int))),
        decreases cells@.len() - i,
    {
        assert(cells@.take(i + 1).drop_last() =~= cells@.take(i as int));
        let c = cells[i];
        let idx: usize = c.local.to_index();
        let cell = CanvasCell { ch: c.ch, color: c.color, author_id: c.author_id, ts: c.ts };
        let ghost before = data;
        data.put(idx, cell);
        assert forall|k: int| 0 <= k < CHUNK_AREA implies data.kept_at(k)
            == #[trigger] kept_cells(cells@.take(i + 1))[k] by {
            assert(before.kept_at(k) == kept_cells(cells@.take(i as int))[k]);
            assert(data@[k] == before@.update(idx as int, Some(cell))[k]);
            assert(before@[k] == before.place(k));
        }
        i = i + 1;
    }
    assert(cells@.take(i as int) =~= cells@);
    data
}

/// Writes what is to be sent to the server over what it says that a chunk holds.
fn overlay(data: &mut ChunkData, chunk: ChunkCoords, pending: &Vec<CellWrite>, Ghost(places): Ghost<
    Seq<Kept>,
>)
    requires
        old(data).keeps(places),
    ensures
        final(data).keeps(with_pending(places, chunk, pending@)),
{
    let mut i: usize = 0;
    assert(pending@.take(0) =~= Seq::<CellWrite>::empty());
    while i < pending.len()
        invariant
            i <= pending@.len(),
            data.keeps(with_pending(places, chunk, pending@.take(i as int))),
        decreases pending@.len() - i,
    {
        assert(pending@.take(i + 1).drop_last() =~= pending@.take(i as int));
        let w = pending[i];
        let (c, local) = w.pos.to_chunk();
        let ghost before = *data;
        let ghost was = with_pending(places, chunk, pending@.take(i as int));
        if c == chunk {
            let idx: usize = local.to_index();
            match w.ch {
                Some(ch) => {
                    data.chars[idx] = ch;
                    data.colors[idx] = w.color;
                    data.set_occupied(idx, true);
                },
                None => {
                    data.set_occupied(idx, false);
                },
            }
            assert forall|k: int| 0 <= k < CHUNK_AREA implies data.kept_at(k)
                == #[trigger] with_pending(places, chunk, pending@.take(i + 1))[k] by {
                assert(before.kept_at(k) == was[k]);
                assert(data@[k] == data.place(k));
                assert(before@[k] == before.place(k));
            }
        }
        i = i + 1;
    }
    assert(pending@.take(i as int) =~= pending@);
}

proof fn lemma_standing(data: ChunkData, places: Seq<Kept>)
    requires
        data.keeps(places),
    ensures
        data@ == standing_cells(places),
{
    assert forall|i: int| 0 <= i < CHUNK_AREA implies data@[i] == #[trigger] standing_cells(
        places,
    )[i] by {
        assert(data.kept_at(i) == places[i]);
        assert(data@[i] == data.place(i));
    }
    assert(data@ =~= standing_cells(places));
}

fn build_lod_data(cells: &Vec<LodCell>) -> (r: LodChunkData)
    requires
        lod_cells_valid(cells@),
    ensures
        r.wf(),
        r@ == dots_of(cells@),
{
    let mut data = LodChunkData::new_empty();
    let mut i: usize = 0;
    assert(cells@.take(0) =~= Seq::<LodCell>::empty());
    while i < cells.len()
        invariant
            i <= cells@.len(),
            lod_cells_valid(cells@),
            data.wf(),
            data@ == dots_of(cells@.take(i as int)),
        decreases cells@.len() - i,
    {
        assert(cells@.take(i + 1).drop_last() =~= cells@.take(i as int));
        let c = cells[i];
        data.put(c.local.to_index(), c.color);
        i = i + 1;
    }
    assert(cells@.take(i as int) =~= cells@);
    data
}

impl EditorView {
    pub open spec fn with_board(self, board: BoardView) -> EditorView {
        EditorView { board, ..self }
    }

    pub open spec fn named(self, id: u32, name: Seq<char>) -> EditorView {
        self.with_board(
            BoardView { author_names: self.board.author_names.insert(id, name), ..self.board },
        )
    }

    pub open spec fn all_named(self, names: Seq<(u32, String)>) -> EditorView
        decreases names.len(),
    {
        if names.len() == 0 {
            self
        } else {
            self.all_named(names.drop_last()).named(names.last().0, names.last().1@)
        }
    }

    /// A cell is as the server says.
    pub open spec fn updated(self, u: CellUpdateEntry) -> EditorView {
        let cell = match u.ch {
            Some(ch) => Some(
                CanvasCell { ch, color: u.color, author_id: u.author_id, ts: u.ts },
            ),
            None => None,
        };
        self.with_board(
            BoardView {
                prev_cells: self.board.prev_cells.remove(u.pos),
                nodes: with_cell_at(self.board.nodes, u.pos, cell),
                ..self.board
            },
        )
    }

    pub open spec fn all_updated(self, us: Seq<CellUpdateEntry>) -> EditorView
        decreases us.len(),
    {
        if us.len() == 0 {
            self
        } else {
            self.all_updated(us.drop_last()).updated(us.last())
        }
    }

    /// The server greets: who one is, and under what token to come back.
    pub open spec fn welcomed(
        self,
        id: u32,
        author: Seq<char>,
        anon_name: Seq<char>,
        token: Seq<char>,
    ) -> EditorView {
        let ui = UiView {
            my_author: author,
            my_anon_name: anon_name,
            my_id: id,
            auth: if author != anon_name {
                AuthView::LoggedIn { username: author, protected_cells: 0 }
            } else {
                self.ui.auth
            },
            ..self.ui
        };
        (EditorView { ui, ..self.ordered(OrderView::StoreToken(token)) }).named(id, author).redrawn().ordered(OrderView::Log("you are "@ + author, "w"@))
    }

    /// Somebody wrote a cell.
    pub open spec fn cell_updated(self, u: CellUpdateEntry, author: Seq<char>) -> EditorView {
        self.named(u.author_id, author).updated(u).ordered(
            OrderView::RebuildChunk(u.pos.chunk()),
        ).updates_logged(seq![u], 0).scheduled()
    }

    /// Some cells were written.
    pub open spec fn batch_updated(
        self,
        us: Seq<CellUpdateEntry>,
        names: Seq<(u32, String)>,
    ) -> EditorView {
        self.all_named(names).all_updated(us).rebuilt(chunks_of(places_of(us))).updates_logged(
            us,
            0,
        ).scheduled()
    }
}

pub open spec fn places_of(us: Seq<CellUpdateEntry>) -> Seq<WorldCoords> {
    Seq::new(us.len(), |i: int| us[i].pos)
}

impl Editor {
    fn name_author(&mut self, id: u32, name: String)
        ensures
            final(self)@ == old(self)@.named(id, name@),
            old(self).wf() ==> final(self).wf(),
    {
        self.board.author_names.insert(id, name);
        assert(self@ =~= old(self)@.named(id, name@));
    }

    fn name_authors(&mut self, names: Vec<(u32, String)>)
        ensures
            final(self)@ == old(self)@.all_named(names@),
            old(self).wf() ==> final(self).wf(),
    {
        let ghost all = names@;
        assert(all.take(0) =~= Seq::<(u32, String)>::empty());
        for x in iter: names
            invariant
                iter.seq() == all,
                self@ == old(self)@.all_named(all.take(iter.index() as int)),
                old(self).wf() ==> self.wf(),
        {
            assert(all.take(iter.index() + 1).drop_last() =~= all.take(iter.index() as int));
            let (id, name) = x;
            self.name_author(id, name);
        }
        assert(all.take(all.len() as int) =~= all);
    }

    fn update_cell_data(&mut self, u: &CellUpdateEntry)
        requires
            old(self).wf(),
        ensures
            final(self).wf(),
            final(self)@ == old(self)@.updated(*u),
    {
        self.board.prev_cells.remove(&u.pos);
        let cell = match u.ch {
            Some(ch) => Some(CanvasCell::from_update(ch, u.color, u.author_id, u.ts)),
            None => None,
        };
        self.board.chunk_manager.set_cell(u.pos, cell);
    }

    fn on_welcome(&mut self, author_id: u32, author: String, anon_name: String, token: String)
        ensures
            final(self)@ == old(self)@.welcomed(author_id, author@, anon_name@, token@),
            old(self).wf() ==> final(self).wf(),
    {
        self.order(Order::StoreToken(token));
        let registered = !same_text(author.as_str(), anon_name.as_str());
        self.ui.my_author = author.clone();
        self.ui.my_anon_name = anon_name;
        self.ui.my_id = author_id;
        if registered {
            self.ui.auth = AuthState::LoggedIn { username: author.clone(), protected_cells: 0 };
        }
        self.name_author(author_id, author.clone());
        self.render_all();
        let mut line = "you are ".to_string();
        line.append(author.as_str());
        self.order(Order::Log(line, "w".to_string()));
    }

    fn on_cell_update(&mut self, u: CellUpdateEntry, author: String)
        requires
            old(self).wf(),
        ensures
            final(self).wf(),
            final(self)@ == old(self)@.cell_updated(u, author@),
    {
        self.name_author(u.author_id, author);
        self.update_cell_data(&u);
        self.order(Order::RebuildChunk(u.pos.to_chunk().0));
        let mut one: Vec<CellUpdateEntry> = Vec::new();
        one.push(u);
        assert(one@ =~= seq![u]);
        self.log_cell_updates(&one);
        self.schedule_render();
    }

    fn on_cell_updates(&mut self, us: Vec<CellUpdateEntry>, names: Vec<(u32, String)>)
        requires
            old(self).wf(),
        ensures
            final(self).wf(),
            final(self)@ == old(self)@.batch_updated(us@, names@),
    {
        self.name_authors(names);
        let ghost v = self@;
        let mut places: Vec<WorldCoords> = Vec::new();
        let mut i: usize = 0;
        assert(us@.take(0) =~= Seq::<CellUpdateEntry>::empty());
        while i < us.len()
            invariant
                i <= us@.len(),
                self.wf(),
                self@ == v.all_updated(us@.take(i as int)),
                places@.len() == i,
                forall|k: int| 0 <= k < i ==> places@[k] == us@[k].pos,
            decreases us@.len() - i,
        {
            assert(us@.take(i + 1).drop_last() =~= us@.take(i as int));
            let u = us[i];
            self.update_cell_data(&u);
            places.push(u.pos);
            i = i + 1;
        }
        proof {
            assert(us@.take(i as int) =~= us@);
            assert(places@ =~= places_of(us@));
        }
        let dirty = distinct_chunks(&places);
        self.rebuild(&dirty);
        self.log_cell_updates(&us);
        self.schedule_render();
    }
}

/// A chunk with what the server says that it holds, and what is to be sent to the
/// server written over it.
pub open spec fn received_chunk(
    cells: Seq<ChunkCell>,
    chunk: ChunkCoords,
    pending: Seq<CellWrite>,
) -> Places {
    standing_cells(with_pending(kept_cells(cells), chunk, pending))
}

/// The chunks of a message that tells what some of them hold.
pub open spec fn chunk_names(chunks: Seq<(ChunkCoords, Vec<ChunkCell>)>) -> Seq<ChunkCoords> {
    Seq::new(chunks.len(), |i: int| chunks[i].0)
}

impl EditorView {
    /// The names of some authors become known.
    pub open spec fn names_known(self, names: Map<u32, String>) -> EditorView {
        self.with_board(
            BoardView {
                author_names: self.board.author_names.union_prefer_right(
                    names.map_values(|s: String| s@),
                ),
                ..self.board
            },
        )
    }

    /// The server tells what some chunks hold.
    pub open spec fn chunks_taken(self, chunks: Seq<(ChunkCoords, Vec<ChunkCell>)>) -> EditorView
        decreases chunks.len(),
    {
        if chunks.len() == 0 {
            self
        } else {
            let before = self.chunks_taken(chunks.drop_last());
            let (chunk, cells) = chunks.last();
            before.with_board(
                BoardView {
                    nodes: with_chunk_at(
                        before.board.nodes,
                        chunk,
                        received_chunk(cells@, chunk, before.net.pending),
                    ),
                    ..before.board
                },
            ).ordered(OrderView::RestartChunkTimer(0))
        }
    }

    /// The server tells the colors of some chunks.
    pub open spec fn lods_taken(self, entries: Seq<(ChunkCoords, u8, Vec<LodCell>)>) -> EditorView
        decreases entries.len(),
    {
        if entries.len() == 0 {
            self
        } else {
            let before = self.lods_taken(entries.drop_last());
            let (chunk, step, cells) = entries.last();
            before.with_board(
                BoardView {
                    nodes: with_lod_at(before.board.nodes, chunk, step, dots_of(cells@)),
                    ..before.board
                },
            ).ordered(OrderView::RestartChunkTimer(0))
        }
    }

    pub open spec fn with_regions(self, regions: Map<u32, RegionRecord>) -> EditorView {
        self.with_board(BoardView { regions, ..self.board })
    }

    /// A cell may not be written: it holds again what it held.
    pub open spec fn denied(self, pos: WorldCoords, until: u64) -> EditorView {
        let b = self.board;
        self.with_board(
            BoardView {
                nodes: if b.prev_cells.contains_key(pos) {
                    with_cell_at(b.nodes, pos, b.prev_cells[pos])
                } else {
                    b.nodes
                },
                prev_cells: b.prev_cells.remove(pos),
                flash_deny: b.flash_deny.insert(pos, until),
                ..b
            },
        )
    }

    pub open spec fn all_denied(self, positions: Seq<WorldCoords>, until: u64) -> EditorView
        decreases positions.len(),
    {
        if positions.len() == 0 {
            self
        } else {
            self.all_denied(positions.drop_last(), until).denied(positions.last(), until)
        }
    }

    /// The user is told why not.
    pub open spec fn refused(self, reason: Seq<char>) -> EditorView {
        self.ordered(OrderView::Log("X "@ + reason, "d"@)).ordered(
            OrderView::Status("X "@ + reason),
        ).scheduled()
    }
}

/// The regions by their numbers.
pub open spec fn regions_by_id(regions: Seq<RegionRecord>) -> Map<u32, RegionRecord>
    decreases regions.len(),
{
    if regions.len() == 0 {
        Map::empty()
    } else {
        regions_by_id(regions.drop_last()).insert(regions.last().id, regions.last())
    }
}

/// Every place that the message speaks of lies in its chunk.
pub open spec fn chunks_valid(chunks: Seq<(ChunkCoords, Vec<ChunkCell>)>) -> bool {
    forall|i: int| 0 <= i < chunks.len() ==> chunk_cells_valid((#[trigger] chunks[i]).1@)
}

/// Every place that the message speaks of lies in its chunk.
pub open spec fn lods_valid(entries: Seq<(ChunkCoords, u8, Vec<LodCell>)>) -> bool {
    forall|i: int| 0 <= i < entries.len() ==> lod_cells_valid((#[trigger] entries[i]).2@)
}

impl Editor {
    fn know_names(&mut self, names: &HashMap<u32, String>)
        ensures
            final(self)@ == old(self)@.names_known(names@),
            old(self).wf() ==> final(self).wf(),
    {
        broadcast use group_hash_axioms;

        let keys = keys_of(names);
        let ghost b0 = self.board@;
        let mut i: usize = 0;
        while i < keys.len()
            invariant
                i <= keys@.len(),
                keys@.no_duplicates(),
                forall|k: u32| #[trigger] keys@.contains(k) <==> names@.contains_key(k),
                old(self).wf() ==> self.wf(),
                b0 == old(self)@.board,
                self@ == (EditorView {
                    board: BoardView { author_names: self@.board.author_names, ..b0 },
                    ..old(self)@
                }),
                forall|id: u32|
                    {
                        let known = exists|k: int| 0 <= k < i && #[trigger] keys@[k] == id;
                        &&& #[trigger] self@.board.author_names.contains_key(id) <==> known
                            || b0.author_names.contains_key(id)
                        &&& known ==> self@.board.author_names[id] == names@[id]@
                        &&& !known && b0.author_names.contains_key(id)
                            ==> self@.board.author_names[id] == b0.author_names[id]
                    },
            decreases keys@.len() - i,
        {
            broadcast use group_hash_axioms;

            let id: u32 = keys[i];
            assert(keys@.contains(id));
            let ghost before = self@;
            match names.get(&id) {
                Some(s) => {
                    self.name_author(id, s.clone());
                },
                None => {},
            }
            proof {
                assert(self@.board.author_names == before.board.author_names.insert(
                    id,
                    names@[id]@,
                ));
                assert forall|x: u32|
                    {
                        let known = exists|k: int| 0 <= k < i + 1 && #[trigger] keys@[k] == x;
                        &&& #[trigger] self@.board.author_names.contains_key(x) <==> known
                            || b0.author_names.contains_key(x)
                        &&& known ==> self@.board.author_names[x] == names@[x]@
                        &&& !known && b0.author_names.contains_key(x)
                            ==> self@.board.author_names[x] == b0.author_names[x]
                    } by {
                    let was = exists|k: int| 0 <= k < i && #[trigger] keys@[k] == x;
                    let known = exists|k: int| 0 <= k < i + 1 && #[trigger] keys@[k] == x;
                    assert(before.board.author_names.contains_key(x) <==> was
                        || b0.author_names.contains_key(x));
                    if was {
                        let k = choose|k: int| 0 <= k < i && #[trigger] keys@[k] == x;
                        assert(0 <= k < i + 1 && keys@[k] == x);
                    }
                    if x == id {
                        assert(keys@[i as int] == x);
                    }
                    assert(known <==> was || x == id);
                }
            }
            i = i + 1;
        }
        proof {
            let after = b0.author_names.union_prefer_right(names@.map_values(|s: String| s@));
            assert forall|id: u32| #[trigger] after.contains_key(
                id,
            ) == self@.board.author_names.contains_key(id) && (after.contains_key(id)
                ==> after[id] == self@.board.author_names[id]) by {
                let known = exists|k: int| 0 <= k < i && #[trigger] keys@[k] == id;
                if names@.contains_key(id) {
                    assert(keys@.contains(id));
                    let k = choose|k: int| 0 <= k < keys@.len() && keys@[k] == id;
                    assert(0 <= k < i && keys@[k] == id);
                }
                if known {
                    assert(keys@.contains(id));
                }
                assert(self@.board.author_names.contains_key(id) <==> known
                    || b0.author_names.contains_key(id));
            }
            assert(self@.board.author_names =~= after);
            assert(self@ =~= old(self)@.names_known(names@));
        }
    }

    fn on_chunks(
        &mut self,
        chunks: Vec<(ChunkCoords, Vec<ChunkCell>)>,
        authors: HashMap<u32, String>,
    )
        requires
            old(self).wf(),
            chunks_valid(chunks@),
        ensures
            final(self).wf(),
            final(self)@ == old(self)@.names_known(authors@).chunks_taken(chunks@).rebuilt(
                chunk_names(chunks@),
            ).scheduled(),
    {
        self.know_names(&authors);
        let ghost v = self@;
        let mut names: Vec<ChunkCoords> = Vec::new();
        let mut i: usize = 0;
        assert(chunks@.take(0) =~= Seq::<(ChunkCoords, Vec<ChunkCell>)>::empty());
        while i < chunks.len()
            invariant
                i <= chunks@.len(),
                chunks_valid(chunks@),
                self.wf(),
                self@ == v.chunks_taken(chunks@.take(i as int)),
                names@.len() == i,
                forall|k: int| 0 <= k < i ==> names@[k] == chunks@[k].0,
            decreases chunks@.len() - i,
        {
            assert(chunks@.take(i + 1).drop_last() =~= chunks@.take(i as int));
            let chunk = chunks[i].0;
            let cells = &chunks[i].1;
            let mut data = build_chunk_data(cells);
            overlay(&mut data, chunk, &self.net.pending_sets, Ghost(kept_cells(cells@)));
            proof {
                lemma_standing(data, with_pending(kept_cells(cells@), chunk, self.net@.pending));
            }
            self.board.chunk_manager.on_chunk_received(chunk, data);
            self.order(Order::RestartChunkTimer(0));
            names.push(chunk);
            i = i + 1;
        }
        proof {
            assert(chunks@.take(i as int) =~= chunks@);
            assert(names@ =~= chunk_names(chunks@));
        }
        self.rebuild(&names);
        self.schedule_render();
    }

    fn on_lods(&mut self, entries: Vec<(ChunkCoords, u8, Vec<LodCell>)>)
        requires
            old(self).wf(),
            lods_valid(entries@),
        ensures
            final(self).wf(),
            final(self)@ == old(self)@.lods_taken(entries@).scheduled(),
    {
        let mut i: usize = 0;
        assert(entries@.take(0) =~= Seq::<(ChunkCoords, u8, Vec<LodCell>)>::empty());
        while i < entries.len()
            invariant
                i <= entries@.len(),
                lods_valid(entries@),
                self.wf(),
                self@ == old(self)@.lods_taken(entries@.take(i as int)),
            decreases entries@.len() - i,
        {
            assert(entries@.take(i + 1).drop_last() =~= entries@.take(i as int));
            let (chunk, step) = (entries[i].0, entries[i].1);
            let data = build_lod_data(&entries[i].2);
            self.board.chunk_manager.on_lod_received(chunk, step, data);
            self.order(Order::RestartChunkTimer(0));
            i = i + 1;
        }
        assert(entries@.take(i as int) =~= entries@);
        self.schedule_render();
    }
}

/// `step` without what may not be written.
pub open spec fn without_denied(step: Seq<UndoEntry>, denied: Seq<WorldCoords>) -> Seq<UndoEntry>
    decreases step.len(),
{
    if step.len() == 0 {
        Seq::empty()
    } else {
        let before = without_denied(step.drop_last(), denied);
        if denied.contains(step.last().0) {
            before
        } else {
            before.push(step.last())
        }
    }
}

/// The steps without what may not be written, and without those that are empty
/// then.
pub open spec fn steps_without_denied(
    steps: Seq<Seq<UndoEntry>>,
    denied: Seq<WorldCoords>,
) -> Seq<Seq<UndoEntry>>
    decreases steps.len(),
{
    if steps.len() == 0 {
        Seq::empty()
    } else {
        let before = steps_without_denied(steps.drop_last(), denied);
        let step = without_denied(steps.last(), denied);
        if step.len() == 0 {
            before
        } else {
            before.push(step)
        }
    }
}

fn is_listed(cells: &Vec<WorldCoords>, pos: WorldCoords) -> (r: bool)
    ensures
        r == cells@.contains(pos),
{
    let mut i: usize = 0;
    while i < cells.len()
        invariant
            i <= cells@.len(),
            forall|k: int| 0 <= k < i ==> cells@[k] != pos,
        decreases cells@.len() - i,
    {
        if cells[i] == pos {
            return true;
        }
        i = i + 1;
    }
    false
}

fn step_without(step: &Vec<UndoEntry>, denied: &Vec<WorldCoords>) -> (r: Vec<UndoEntry>)
    ensures
        r@ == without_denied(step@, denied@),
{
    let mut out: Vec<UndoEntry> = Vec::new();
    let mut i: usize = 0;
    assert(step@.take(0) =~= Seq::<UndoEntry>::empty());
    while i < step.len()
        invariant
            i <= step@.len(),
            out@ == without_denied(step@.take(i as int), denied@),
        decreases step@.len() - i,
    {
        assert(step@.take(i + 1).drop_last() =~= step@.take(i as int));
        let e = step[i];
        if !is_listed(denied, e.0) {
            out.push(e);
        }
        i = i + 1;
    }
    assert(step@.take(i as int) =~= step@);
    out
}

impl EditorView {
    /// Some cells may not be written: they hold again what they held, and there
    /// is nothing to undo about them.
    pub open spec fn batch_denied(
        self,
        positions: Seq<WorldCoords>,
        reason: Seq<char>,
        until: u64,
    ) -> EditorView {
        let v = self.all_denied(positions, until);
        (EditorView {
            ui: UiView { steps: steps_without_denied(v.ui.steps, positions), ..v.ui },
            ..v
        }).rebuilt(chunks_of(positions)).refused(reason)
    }

    /// The user is logged in.
    pub open spec fn logged_in(self, username: Seq<char>, protected_cells: u32) -> EditorView {
        (EditorView {
            ui: UiView {
                my_author: username,
                auth: AuthView::LoggedIn { username, protected_cells },
                ..self.ui
            },
            ..self
        }).named(self.ui.my_id, username).marked(
            DIRTY_AUTH | DIRTY_STATUSBAR,
        ).scheduled().ordered(OrderView::Log("logged in as "@ + username, "c"@))
    }

    /// Somebody is online, and points somewhere.
    pub open spec fn pointed(
        self,
        id: u32,
        name: Seq<char>,
        pos: WorldCoords,
        color: Rgb,
    ) -> EditorView {
        let v = self.named(id, name);
        v.with_board(
            BoardView {
                online_users: v.board.online_users.insert(id, (name, color)),
                remote_cursors: v.board.remote_cursors.insert(id, (pos, color)),
                ..v.board
            },
        ).marked(DIRTY_ONLINE).scheduled()
    }

    pub open spec fn left(self, id: u32) -> EditorView {
        self.with_board(
            BoardView {
                online_users: self.board.online_users.remove(id),
                remote_cursors: self.board.remote_cursors.remove(id),
                ..self.board
            },
        ).marked(DIRTY_ONLINE).scheduled()
    }

    /// Each of `users` is online.
    pub open spec fn present(self, users: Seq<OnlineUser>) -> EditorView
        decreases users.len(),
    {
        if users.len() == 0 {
            self
        } else {
            let u = users.last();
            let v = self.present(users.drop_last()).named(u.user_id, u.name@);
            v.with_board(
                BoardView {
                    online_users: v.board.online_users.insert(u.user_id, (u.name@, u.color)),
                    remote_cursors: match u.pos {
                        Some(pos) => v.board.remote_cursors.insert(u.user_id, (pos, u.color)),
                        None => v.board.remote_cursors,
                    },
                    ..v.board
                },
            )
        }
    }

    /// Just `users` are online.
    pub open spec fn only_present(self, users: Seq<OnlineUser>) -> EditorView {
        self.with_board(
            BoardView { online_users: Map::empty(), remote_cursors: Map::empty(), ..self.board },
        ).present(users).marked(DIRTY_ONLINE).scheduled()
    }

    /// What a message makes of this. `until` is when a refusal stops showing.
    pub open spec fn received(self, msg: ServerMsg, until: u64) -> EditorView {
        match msg {
            ServerMsg::Welcome { author_id, author, anon_name, session_token } => self.welcomed(
                author_id,
                author@,
                anon_name@,
                session_token@,
            ),
            ServerMsg::CellUpdate { entry, author } => self.cell_updated(entry, author@),
            ServerMsg::CellUpdateBatch { updates, authors } => self.batch_updated(
                updates@,
                authors@,
            ),
            ServerMsg::ChunkDataBatch { chunks, authors } => self.names_known(
                authors@,
            ).chunks_taken(chunks@).rebuilt(chunk_names(chunks@)).scheduled(),
            ServerMsg::LodDataBatch { entries } => self.lods_taken(entries@).scheduled(),
            ServerMsg::Stats { total_cells, online, top_authors } => self.with_board(
                BoardView {
                    last_stats: Some((total_cells, online, top_authors@)),
                    ..self.board
                },
            ).marked(DIRTY_STATS | DIRTY_STATUSBAR).scheduled(),
            ServerMsg::RegionData(regions) => self.with_regions(regions_by_id(regions@)).marked(
                DIRTY_REGIONS,
            ).scheduled(),
            ServerMsg::RegionAdded(r) => self.with_regions(
                self.board.regions.insert(r.id, r),
            ).ordered(OrderView::Log("region \""@ + r.label@ + "\" protected"@, "r"@)).marked(
                DIRTY_REGIONS,
            ).scheduled(),
            ServerMsg::RegionRemoved { id } => self.with_regions(
                self.board.regions.remove(id),
            ).marked(DIRTY_REGIONS).scheduled(),
            ServerMsg::Denied { pos, reason } => self.denied(pos, until).refused(reason@),
            ServerMsg::DeniedBatch { positions, reason } => self.batch_denied(
                positions@,
                reason@,
                until,
            ),
            ServerMsg::AuthOk { username, protected_cells } => self.logged_in(
                username@,
                protected_cells,
            ),
            ServerMsg::AuthFail { reason } => self.ordered(
                OrderView::Status("X "@ + reason@),
            ).ordered(OrderView::Log("ERR: "@ + reason@, "e"@)).ordered(
                OrderView::ShowAuthError("X "@ + reason@),
            ),
            ServerMsg::Error(text) => self.ordered(OrderView::Log("err: "@ + text@, "e"@)),
            ServerMsg::CursorUpdate { user_id, name, pos, color } => self.pointed(
                user_id,
                name@,
                pos,
                color,
            ),
            ServerMsg::CursorLeft { user_id } => self.left(user_id),
            ServerMsg::OnlineList { users } => self.only_present(users@),
            ServerMsg::Kicked => (EditorView {
                net: NetView { kicked: true, ..self.net },
                ..self
            }).ordered(OrderView::ShowKicked),
        }
    }
}

/// Every place that the message speaks of lies in its chunk.
pub open spec fn msg_valid(msg: ServerMsg) -> bool {
    match msg {
        ServerMsg::ChunkDataBatch { chunks, .. } => chunks_valid(chunks@),
        ServerMsg::LodDataBatch { entries } => lods_valid(entries@),
        _ => true,
    }
}

fn joined(a: &str, b: &str) -> (r: String)
    ensures
        r@ == a@ + b@,
{
    let mut s = a.to_string();
    s.append(b);
    s
}

impl Editor {
    fn refuse(&mut self, reason: &str)
        ensures
            final(self)@ == old(self)@.refused(reason@),
            old(self).wf() ==> final(self).wf(),
    {
        self.order(Order::Log(joined("X ", reason), "d".to_string()));
        self.order(Order::Status(joined("X ", reason)));
        self.schedule_render();
    }

    fn deny(&mut self, pos: WorldCoords, until: u64)
        requires
            old(self).wf(),
        ensures
            final(self).wf(),
            final(self)@ == old(self)@.denied(pos, until),
    {
        match self.board.prev_cells.remove(&pos) {
            Some(prev) => {
                self.board.chunk_manager.set_cell(pos, prev);
            },
            None => {},
        }
        self.board.flash_deny.insert(pos, until);
    }

    fn forget_steps(&mut self, denied: &Vec<WorldCoords>)
        requires
            old(self).wf(),
        ensures
            final(self).wf(),
            final(self)@ == (EditorView {
                ui: UiView {
                    steps: steps_without_denied(old(self)@.ui.steps, denied@),
                    ..old(self)@.ui
                },
                ..old(self)@
            }),
    {
        let ghost steps = self@.ui.steps;
        let mut kept: Vec<Vec<UndoEntry>> = Vec::new();
        let mut i: usize = 0;
        assert(steps.take(0) =~= Seq::<Seq<UndoEntry>>::empty());
        assert(kept@.map_values(|v: Vec<UndoEntry>| v@) =~= Seq::<Seq<UndoEntry>>::empty());
        while i < self.ui.undo_stack.len()
            invariant
                i <= self.ui.undo_stack@.len(),
                *self == *old(self),
                steps == self.ui.undo_stack@.map_values(|v: Vec<UndoEntry>| v@),
                kept@.len() <= i,
                kept@.map_values(|v: Vec<UndoEntry>| v@) == steps_without_denied(
                    steps.take(i as int),
                    denied@,
                ),
            decreases self.ui.undo_stack@.len() - i,
        {
            assert(steps.take(i + 1).drop_last() =~= steps.take(i as int));
            let step = step_without(&self.ui.undo_stack[i], denied);
            if step.len() > 0 {
                let ghost before = kept@;
                kept.push(step);
                assert(kept@.map_values(|v: Vec<UndoEntry>| v@) =~= before.map_values(
                    |v: Vec<UndoEntry>| v@,
                ).push(step@));
            }
            i = i + 1;
        }
        assert(steps.take(i as int) =~= steps);
        self.ui.undo_stack = kept;
    }

    fn on_denied_batch(&mut self, positions: Vec<WorldCoords>, reason: &str, until: u64)
        requires
            old(self).wf(),
        ensures
            final(self).wf(),
            final(self)@ == old(self)@.batch_denied(positions@, reason@, until),
    {
        let mut i: usize = 0;
        assert(positions@.take(0) =~= Seq::<WorldCoords>::empty());
        while i < positions.len()
            invariant
                i <= positions@.len(),
                self.wf(),
                self@ == old(self)@.all_denied(positions@.take(i as int), until),
            decreases positions@.len() - i,
        {
            assert(positions@.take(i + 1).drop_last() =~= positions@.take(i as int));
            self.deny(positions[i], until);
            i = i + 1;
        }
        assert(positions@.take(i as int) =~= positions@);
        self.forget_steps(&positions);
        let dirty = distinct_chunks(&positions);
        self.rebuild(&dirty);
        self.refuse(reason);
    }

    fn set_regions(&mut self, regions: Vec<RegionRecord>)
        ensures
            final(self)@ == old(self)@.with_regions(regions_by_id(regions@)),
            old(self).wf() ==> final(self).wf(),
    {
        let ghost all = regions@;
        self.board.regions.clear();
        assert(all.take(0) =~= Seq::<RegionRecord>::empty());
        for r in iter: regions
            invariant
                iter.seq() == all,
                self@ == old(self)@.with_regions(regions_by_id(all.take(iter.index() as int))),
                old(self).wf() ==> self.wf(),
        {
            assert(all.take(iter.index() + 1).drop_last() =~= all.take(iter.index() as int));
            self.board.regions.insert(r.id, r);
        }
        assert(all.take(all.len() as int) =~= all);
    }

    fn on_auth_ok(&mut self, username: String, protected_cells: u32)
        ensures
            final(self)@ == old(self)@.logged_in(username@, protected_cells),
            old(self).wf() ==> final(self).wf(),
    {
        let my_id: u32 = self.ui.my_id;
        self.ui.my_author = username.clone();
        self.ui.auth = AuthState::LoggedIn { username: username.clone(), protected_cells };
        self.name_author(my_id, username.clone());
        self.mark_dirty(DIRTY_AUTH | DIRTY_STATUSBAR);
        self.schedule_render();
        self.order(Order::Log(joined("logged in as ", username.as_str()), "c".to_string()));
    }

    fn put_online(&mut self, id: u32, name: String, color: Rgb)
        ensures
            final(self)@ == ({
                let v = old(self)@.named(id, name@);
                v.with_board(
                    BoardView {
                        online_users: v.board.online_users.insert(id, (name@, color)),
                        ..v.board
                    },
                )
            }),
            old(self).wf() ==> final(self).wf(),
    {
        self.name_author(id, name.clone());
        let ghost v = self@;
        self.board.online_users.insert(id, (name, color));
        assert(self@.board.online_users =~= v.board.online_users.insert(id, (name@, color)));
    }

    fn on_online_list(&mut self, users: Vec<OnlineUser>)
        ensures
            final(self)@ == old(self)@.only_present(users@),
            old(self).wf() ==> final(self).wf(),
    {
        let ghost all = users@;
        self.board.online_users.clear();
        self.board.remote_cursors.clear();
        let ghost v = self@;
        assert(v.board =~= (BoardView {
            online_users: Map::empty(),
            remote_cursors: Map::empty(),
            ..old(self)@.board
        }));
        assert(all.take(0) =~= Seq::<OnlineUser>::empty());
        for u in iter: users
            invariant
                iter.seq() == all,
                self@ == v.present(all.take(iter.index() as int)),
                old(self).wf() ==> self.wf(),
        {
            assert(all.take(iter.index() + 1).drop_last() =~= all.take(iter.index() as int));
            let (id, color, pos) = (u.user_id, u.color, u.pos);
            self.put_online(id, u.name, color);
            match pos {
                Some(p) => {
                    self.board.remote_cursors.insert(id, (p, color));
                },
                None => {},
            }
        }
        assert(all.take(all.len() as int) =~= all);
        self.mark_dirty(DIRTY_ONLINE);
        self.schedule_render();
    }

    fn on_cursor_left(&mut self, id: u32)
        ensures
            final(self)@ == old(self)@.left(id),
            old(self).wf() ==> final(self).wf(),
    {
        self.board.online_users.remove(&id);
        self.board.remote_cursors.remove(&id);
        assert(self@.board.online_users =~= old(self)@.board.online_users.remove(id));
        self.mark_dirty(DIRTY_ONLINE);
        self.schedule_render();
    }

    fn on_region_added(&mut self, r: RegionRecord)
        ensures
            final(self)@ == old(self)@.received(ServerMsg::RegionAdded(r), 0),
            old(self).wf() ==> final(self).wf(),
    {
        let mut line = joined("region \"", r.label.as_str());
        line.append("\" protected");
        self.board.regions.insert(r.id, r);
        self.order(Order::Log(line, "r".to_string()));
        self.mark_dirty(DIRTY_REGIONS);
        self.schedule_render();
    }

    /// Takes in what the server says.
    pub fn handle_server_msg(&mut self, msg: ServerMsg, until: u64)
        requires
            old(self).wf(),
            msg_valid(msg),
        ensures
            final(self).wf(),
            final(self)@ == old(self)@.received(msg, until),
    {
        match msg {
            ServerMsg::Welcome { author_id, author, anon_name, session_token } => self.on_welcome(
                author_id,
                author,
                anon_name,
                session_token,
            ),
            ServerMsg::CellUpdate { entry, author } => self.on_cell_update(entry, author),
            ServerMsg::CellUpdateBatch { updates, authors } => self.on_cell_updates(
                updates,
                authors,
            ),
            ServerMsg::ChunkDataBatch { chunks, authors } => self.on_chunks(chunks, authors),
            ServerMsg::LodDataBatch { entries } => self.on_lods(entries),
            ServerMsg::Stats { total_cells, online, top_authors } => {
                self.board.last_stats = Some((total_cells, online, top_authors));
                self.mark_dirty(DIRTY_STATS | DIRTY_STATUSBAR);
                self.schedule_render();
            },
            ServerMsg::RegionData(regions) => {
                self.set_regions(regions);
                self.mark_dirty(DIRTY_REGIONS);
                self.schedule_render();
            },
            ServerMsg::RegionAdded(r) => self.on_region_added(r),
            ServerMsg::RegionRemoved { id } => {
                self.board.regions.remove(&id);
                self.mark_dirty(DIRTY_REGIONS);
                self.schedule_render();
            },
            ServerMsg::Denied { pos, reason } => {
                self.deny(pos, until);
                self.refuse(reason.as_str());
            },
            ServerMsg::DeniedBatch { positions, reason } => self.on_denied_batch(
                positions,
                reason.as_str(),
                until,
            ),
            ServerMsg::AuthOk { username, protected_cells } => self.on_auth_ok(
                username,
                protected_cells,
            ),
            ServerMsg::AuthFail { reason } => {
                self.order(Order::Status(joined("X ", reason.as_str())));
                self.order(Order::Log(joined("ERR: ", reason.as_str()), "e".to_string()));
                self.order(Order::ShowAuthError(joined("X ", reason.as_str())));
            },
            ServerMsg::Error(text) => {
                self.order(Order::Log(joined("err: ", text.as_str()), "e".to_string()));
            },
            ServerMsg::CursorUpdate { user_id, name, pos, color } => {
                self.put_online(user_id, name, color);
                self.board.remote_cursors.insert(user_id, (pos, color));
                self.mark_dirty(DIRTY_ONLINE);
                self.schedule_render();
            },
            ServerMsg::CursorLeft { user_id } => self.on_cursor_left(user_id),
            ServerMsg::OnlineList { users } => self.on_online_list(users),
            ServerMsg::Kicked => {
                self.net.kicked = true;
                self.order(Order::ShowKicked);
            },
        }
    }
}

} // verus!
