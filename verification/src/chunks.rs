//! The part of the board that the editor knows, chunk by chunk.

use vstd::prelude::*;

use crate::color::Rgb;
use crate::coords::{law_chunk_injective, ChunkCoords, WorldCoords, CHUNK_AREA};
use crate::fold::FoldHashMap;
use crate::ui::CanvasCell;

verus! {

/// Number of chunks that are asked for at a time.
pub const MAX_FLUSH: u64 = 64;

/// Which places of a chunk hold something.
pub type Occupied = bitflagset::BitSet<[u64; 16], usize>;

#[verifier::external_type_specification]
#[verifier::external_body]
#[verifier::reject_recursive_types(A)]
#[verifier::reject_recursive_types(V)]
pub struct ExBitSet<A, V>(bitflagset::BitSet<A, V>);

/// What a `bitflagset::BitSet` of 1024 bits holds.
pub uninterp spec fn bits_of(s: bitflagset::BitSet<[u64; 16], usize>) -> Set<usize>;

/// Calls `bitflagset::BitSet::default`.
///
/// Not proved: the set is empty.
#[verifier::external_body]
fn no_bits() -> (r: Occupied)
    ensures
        bits_of(r) == Set::<usize>::empty(),
{
    bitflagset::BitSet::default()
}

/// Calls `bitflagset::BitSlice::contains`, which panics on an index past the
/// capacity.
///
/// Not proved: it tells whether the index is in the set.
#[verifier::external_body]
fn has_bit(s: &Occupied, idx: usize) -> (r: bool)
    requires
        idx < CHUNK_AREA,
    ensures
        r == bits_of(*s).contains(idx),
{
    s.contains(&idx)
}

/// Calls `bitflagset::BitSlice::set`, which panics on an index past the capacity.
///
/// Not proved: it puts the index into the set, or takes it out, and nothing else.
#[verifier::external_body]
fn put_bit(s: &mut Occupied, idx: usize, val: bool)
    requires
        idx < CHUNK_AREA,
    ensures
        bits_of(*final(s)) == (if val {
            bits_of(*old(s)).insert(idx)
        } else {
            bits_of(*old(s)).remove(idx)
        }),
{
    s.set(idx, val);
}

/// A chunk with every character.
pub struct ChunkData {
    pub chars: Vec<char>,
    pub colors: Vec<Rgb>,
    pub authors: Vec<u32>,
    pub timestamps: Vec<i64>,
    pub occupied: Occupied,
}

/// The places of a chunk, and what each holds.
pub type Places = Seq<Option<CanvasCell>>;

/// What a place is filled with at which nothing was ever written.
pub open spec fn blank_cell() -> CanvasCell {
    CanvasCell { ch: ' ', color: Rgb(0, 0, 0), author_id: 0, ts: 0 }
}

/// A chunk that holds nothing.
pub open spec fn no_places() -> Places {
    Seq::new(CHUNK_AREA as nat, |i: int| None)
}

impl View for ChunkData {
    type V = Places;

    open spec fn view(&self) -> Places {
        Seq::new(CHUNK_AREA as nat, |i: int| self.place(i))
    }
}

fn filled<T: Copy>(x: T) -> (r: Vec<T>)
    ensures
        r@ == Seq::new(CHUNK_AREA as nat, |i: int| x),
{
    let mut v: Vec<T> = Vec::new();
    let mut i: usize = 0;
    while i < CHUNK_AREA
        invariant
            i <= CHUNK_AREA,
            v@.len() == i,
            forall|k: int| 0 <= k < i ==> v@[k] == x,
        decreases CHUNK_AREA - i,
    {
        v.push(x);
        i = i + 1;
    }
    assert(v@ =~= Seq::new(CHUNK_AREA as nat, |i: int| x));
    v
}

impl ChunkData {
    /// What was last written at a place.
    pub open spec fn kept(&self, i: int) -> CanvasCell {
        CanvasCell {
            ch: self.chars@[i],
            color: self.colors@[i],
            author_id: self.authors@[i],
            ts: self.timestamps@[i],
        }
    }

    /// What a place holds.
    pub open spec fn place(&self, i: int) -> Option<CanvasCell> {
        if bits_of(self.occupied).contains(i as usize) {
            Some(self.kept(i))
        } else {
            None
        }
    }

    pub open spec fn wf(&self) -> bool {
        &&& self.chars@.len() == CHUNK_AREA
        &&& self.colors@.len() == CHUNK_AREA
        &&& self.authors@.len() == CHUNK_AREA
        &&& self.timestamps@.len() == CHUNK_AREA
    }

    pub fn new_empty() -> (r: Self)
        ensures
            r.wf(),
            r@ == no_places(),
            forall|i: int| 0 <= i < CHUNK_AREA ==> #[trigger] r.kept(i) == blank_cell(),
    {
        let r = ChunkData {
            chars: filled(' '),
            colors: filled(Rgb(0, 0, 0)),
            authors: filled(0),
            timestamps: filled(0),
            occupied: no_bits(),
        };
        assert(r@ =~= no_places());
        r
    }

    pub fn is_occupied(&self, idx: usize) -> (r: bool)
        requires
            idx < CHUNK_AREA,
        ensures
            r == self@[idx as int] is Some,
    {
        has_bit(&self.occupied, idx)
    }

    /// Marks a place as holding what was last written there, or nothing.
    pub fn set_occupied(&mut self, idx: usize, val: bool)
        requires
            idx < CHUNK_AREA,
            old(self).wf(),
        ensures
            final(self).wf(),
            final(self)@ == old(self)@.update(
                idx as int,
                if val {
                    Some(old(self).kept(idx as int))
                } else {
                    None
                },
            ),
            *final(self) == (ChunkData { occupied: final(self).occupied, ..*old(self) }),
    {
        put_bit(&mut self.occupied, idx, val);
        assert(self@ =~= old(self)@.update(
            idx as int,
            if val {
                    Some(old(self).kept(idx as int))
                } else {
                None
            },
        ));
    }

    /// Writes a place.
    pub fn put(&mut self, idx: usize, c: CanvasCell)
        requires
            idx < CHUNK_AREA,
            old(self).wf(),
        ensures
            final(self).wf(),
            final(self)@ == old(self)@.update(idx as int, Some(c)),
            final(self).kept(idx as int) == c,
            forall|i: int|
                0 <= i < CHUNK_AREA && i != idx ==> #[trigger] final(self).kept(i) == old(
                    self,
                ).kept(i),
    {
        self.chars[idx] = c.ch;
        self.colors[idx] = c.color;
        self.authors[idx] = c.author_id;
        self.timestamps[idx] = c.ts;
        put_bit(&mut self.occupied, idx, true);
        assert(self@ =~= old(self)@.update(idx as int, Some(c)));
    }

    /// Empties a place.
    pub fn clear(&mut self, idx: usize)
        requires
            idx < CHUNK_AREA,
            old(self).wf(),
        ensures
            final(self).wf(),
            final(self)@ == old(self)@.update(idx as int, None),
    {
        self.set_occupied(idx, false);
        self.chars[idx] = ' ';
        assert(self@ =~= old(self)@.update(idx as int, None));
    }

    /// What a place holds.
    pub fn get(&self, idx: usize) -> (r: Option<CanvasCell>)
        requires
            idx < CHUNK_AREA,
            self.wf(),
        ensures
            r == self@[idx as int],
    {
        if !self.is_occupied(idx) {
            return None;
        }
        Some(
            CanvasCell {
                ch: self.chars[idx],
                color: self.colors[idx],
                author_id: self.authors[idx],
                ts: self.timestamps[idx],
            },
        )
    }
}

/// A chunk with the colors of some of its places.
pub struct LodChunkData {
    pub colors: Vec<Rgb>,
    pub occupied: Occupied,
}

/// The places of a chunk, and the color of each.
pub type Dots = Seq<Option<Rgb>>;

pub open spec fn no_dots() -> Dots {
    Seq::new(CHUNK_AREA as nat, |i: int| None)
}

impl View for LodChunkData {
    type V = Dots;

    open spec fn view(&self) -> Dots {
        Seq::new(
            CHUNK_AREA as nat,
            |i: int|
                if bits_of(self.occupied).contains(i as usize) {
                    Some(self.colors@[i])
                } else {
                    None
                },
        )
    }
}

impl LodChunkData {
    pub open spec fn wf(&self) -> bool {
        self.colors@.len() == CHUNK_AREA
    }

    pub fn new_empty() -> (r: Self)
        ensures
            r.wf(),
            r@ == no_dots(),
    {
        let r = LodChunkData { colors: filled(Rgb(0, 0, 0)), occupied: no_bits() };
        assert(r@ =~= no_dots());
        r
    }

    pub fn is_occupied(&self, idx: usize) -> (r: bool)
        requires
            idx < CHUNK_AREA,
        ensures
            r == self@[idx as int] is Some,
    {
        has_bit(&self.occupied, idx)
    }

    /// Marks a place as having the color that was last written there, or none.
    pub fn set_occupied(&mut self, idx: usize, val: bool)
        requires
            idx < CHUNK_AREA,
            old(self).wf(),
        ensures
            final(self).wf(),
            final(self)@ == old(self)@.update(
                idx as int,
                if val {
                    Some(old(self).colors@[idx as int])
                } else {
                    None
                },
            ),
            final(self).colors == old(self).colors,
    {
        put_bit(&mut self.occupied, idx, val);
        assert(self@ =~= old(self)@.update(
            idx as int,
            if val {
                Some(old(self).colors@[idx as int])
            } else {
                None
            },
        ));
    }

    /// Gives a place a color.
    pub fn put(&mut self, idx: usize, c: Rgb)
        requires
            idx < CHUNK_AREA,
            old(self).wf(),
        ensures
            final(self).wf(),
            final(self)@ == old(self)@.update(idx as int, Some(c)),
    {
        self.colors[idx] = c;
        self.set_occupied(idx, true);
        assert(self@ =~= old(self)@.update(idx as int, Some(c)));
    }
}

#[derive(Debug, Clone, Copy, PartialEq, Eq, Structural)]
pub enum FetchStatus {
    Unasked,
    Pending,
    InFlight,
    Loaded,
}

/// What is known of a chunk.
pub struct ChunkNode {
    pub full_data: Option<ChunkData>,
    pub full_status: FetchStatus,
    pub lod_data: Option<LodChunkData>,
    pub lod_status: FetchStatus,
    pub lod_step: u8,
    /// When the chunk was last drawn: a number that grows with time.
    pub last_seen: u64,
}

#[verifier::ext_equal]
pub struct NodeView {
    pub full: Option<Places>,
    pub full_status: FetchStatus,
    pub lod: Option<Dots>,
    pub lod_status: FetchStatus,
    pub lod_step: u8,
    pub last_seen: u64,
}

impl View for ChunkNode {
    type V = NodeView;

    open spec fn view(&self) -> NodeView {
        NodeView {
            full: match self.full_data {
                Some(d) => Some(d@),
                None => None,
            },
            full_status: self.full_status,
            lod: match self.lod_data {
                Some(d) => Some(d@),
                None => None,
            },
            lod_status: self.lod_status,
            lod_step: self.lod_step,
            last_seen: self.last_seen,
        }
    }
}

/// What becomes of a question when the connection is lost.
pub open spec fn asked_again(s: FetchStatus) -> FetchStatus {
    if s == FetchStatus::InFlight {
        FetchStatus::Pending
    } else {
        s
    }
}

impl NodeView {
    pub open spec fn requeued(self) -> NodeView {
        NodeView {
            full_status: asked_again(self.full_status),
            lod_status: asked_again(self.lod_status),
            ..self
        }
    }

    /// A chunk of which nothing is known.
    pub open spec fn unknown() -> NodeView {
        NodeView {
            full: None,
            full_status: FetchStatus::Unasked,
            lod: None,
            lod_status: FetchStatus::Unasked,
            lod_step: 0,
            last_seen: 0,
        }
    }

    /// The color of a place: of its character, or else of the dot there.
    pub open spec fn color_at(self, i: int) -> Option<Rgb> {
        match self.full {
            Some(f) if f[i] is Some => Some(f[i]->0.color),
            _ => match self.lod {
                Some(l) => l[i],
                None => None,
            },
        }
    }
}

impl ChunkNode {
    pub open spec fn wf(&self) -> bool {
        &&& self.full_data matches Some(d) ==> d.wf()
        &&& self.lod_data matches Some(d) ==> d.wf()
    }

    pub fn lod_color_at(&self, idx: usize) -> (r: Option<Rgb>)
        requires
            idx < CHUNK_AREA,
            self.wf(),
        ensures
            r == self@.color_at(idx as int),
    {
        if let Some(fd) = &self.full_data {
            if fd.is_occupied(idx) {
                return Some(fd.colors[idx]);
            }
        }
        if let Some(l) = &self.lod_data {
            if l.is_occupied(idx) {
                return Some(l.colors[idx]);
            }
        }
        None
    }
}

impl Default for ChunkNode {
    fn default() -> (r: Self)
        ensures
            r.wf(),
            r@ == NodeView::unknown(),
    {
        ChunkNode {
            full_data: None,
            full_status: FetchStatus::Unasked,
            lod_data: None,
            lod_status: FetchStatus::Unasked,
            lod_step: 0,
            last_seen: 0,
        }
    }
}

pub struct ChunkManager {
    pub chunks: FoldHashMap<ChunkCoords, ChunkNode>,
}

/// What is known of each chunk.
pub type Nodes = Map<ChunkCoords, NodeView>;

impl View for ChunkManager {
    type V = Nodes;

    open spec fn view(&self) -> Nodes {
        self.chunks@.map_values(|n: ChunkNode| n@)
    }
}

/// What is known of a chunk.
pub open spec fn node_at(m: Nodes, chunk: ChunkCoords) -> NodeView {
    if m.contains_key(chunk) {
        m[chunk]
    } else {
        NodeView::unknown()
    }
}

/// What `pos` holds, as far as is known.
pub open spec fn cell_at(m: Nodes, pos: WorldCoords) -> Option<CanvasCell> {
    match node_at(m, pos.chunk()).full {
        Some(f) => f[pos.local().index()],
        None => None,
    }
}

/// `m` with `pos` written.
pub open spec fn with_cell_at(m: Nodes, pos: WorldCoords, cell: Option<CanvasCell>) -> Nodes {
    let node = node_at(m, pos.chunk());
    let i = pos.local().index();
    m.insert(
        pos.chunk(),
        match (node.full, cell) {
            (None, None) => node,
            (Some(f), None) => NodeView { full: Some(f.update(i, None)), ..node },
            (full, Some(c)) => NodeView {
                full: Some(
                    (match full {
                        Some(f) => f,
                        None => no_places(),
                    }).update(i, Some(c)),
                ),
                full_status: FetchStatus::Loaded,
                ..node
            },
        },
    )
}

/// `m` with all that a chunk holds.
pub open spec fn with_chunk_at(m: Nodes, chunk: ChunkCoords, data: Places) -> Nodes {
    m.insert(
        chunk,
        NodeView {
            full: Some(data),
            full_status: FetchStatus::Loaded,
            ..node_at(m, chunk)
        },
    )
}

/// `m` with some colors of a chunk, unless others were asked for since.
pub open spec fn with_lod_at(m: Nodes, chunk: ChunkCoords, step: u8, data: Dots) -> Nodes {
    let node = node_at(m, chunk);
    m.insert(
        chunk,
        if node.lod_status == FetchStatus::InFlight && node.lod_step >= step {
            NodeView {
                lod: Some(data),
                lod_status: FetchStatus::Loaded,
                lod_step: step,
                ..node
            }
        } else {
            node
        },
    )
}

impl ChunkManager {
    pub open spec fn wf(&self) -> bool {
        forall|c: ChunkCoords| #[trigger] self.chunks@.contains_key(c) ==> self.chunks@[c].wf()
    }

    pub fn new() -> (r: Self)
        ensures
            r.wf(),
            r@ == Nodes::empty(),
    {
        let r = ChunkManager { chunks: FoldHashMap::new() };
        assert(r@ =~= Nodes::empty());
        r
    }

    /// What is known of a chunk, to be changed.
    pub fn get_node_mut(&mut self, chunk: ChunkCoords) -> (r: &mut ChunkNode)
        requires
            old(self).wf(),
        ensures
            r.wf(),
            r@ == node_at(old(self)@, chunk),
            final(r).wf() ==> final(self).wf(),
            final(self)@ == old(self)@.insert(chunk, final(r)@),
    {
        if !self.chunks.contains_key(&chunk) {
            self.chunks.insert(chunk, ChunkNode::default());
        }
        match self.chunks.get_mut(&chunk) {
            Some(r) => r,
            None => {
                assert(false);
                vstd::pervasive::unreached()
            },
        }
    }

    /// The chunk of a cell, and the number of its place there.
    pub fn coords(pos: WorldCoords) -> (r: (ChunkCoords, usize))
        ensures
            r.0 == pos.chunk(),
            r.1 == pos.local().index(),
            r.1 < CHUNK_AREA,
    {
        let (chunk, local) = pos.to_chunk();
        (chunk, local.to_index())
    }

    pub fn get_cell(&self, pos: WorldCoords) -> (r: Option<CanvasCell>)
        requires
            self.wf(),
        ensures
            r == cell_at(self@, pos),
    {
        let (chunk, idx) = Self::coords(pos);
        match self.chunks.get(&chunk) {
            Some(node) => match &node.full_data {
                Some(d) => d.get(idx),
                None => None,
            },
            None => None,
        }
    }

    pub fn set_cell(&mut self, pos: WorldCoords, cell: Option<CanvasCell>)
        requires
            old(self).wf(),
        ensures
            final(self).wf(),
            final(self)@ == with_cell_at(old(self)@, pos, cell),
    {
        let (chunk, idx) = Self::coords(pos);
        let node = self.get_node_mut(chunk);
        match cell {
            None => match &mut node.full_data {
                Some(d) => {
                    d.clear(idx);
                },
                None => {},
            },
            Some(c) => {
                let mut data = match node.full_data.take() {
                    Some(d) => d,
                    None => ChunkData::new_empty(),
                };
                data.put(idx, c);
                node.full_data = Some(data);
                node.full_status = FetchStatus::Loaded;
            },
        }
    }

    pub fn on_chunk_received(&mut self, chunk: ChunkCoords, data: ChunkData)
        requires
            old(self).wf(),
            data.wf(),
        ensures
            final(self).wf(),
            final(self)@ == with_chunk_at(old(self)@, chunk, data@),
    {
        let node = self.get_node_mut(chunk);
        node.full_status = FetchStatus::Loaded;
        node.full_data = Some(data);
    }

    pub fn on_lod_received(&mut self, chunk: ChunkCoords, step: u8, data: LodChunkData)
        requires
            old(self).wf(),
            data.wf(),
        ensures
            final(self).wf(),
            final(self)@ == with_lod_at(old(self)@, chunk, step, data@),
    {
        let node = self.get_node_mut(chunk);
        if node.lod_status == FetchStatus::InFlight && node.lod_step >= step {
            node.lod_status = FetchStatus::Loaded;
            node.lod_step = step;
            node.lod_data = Some(data);
        }
    }

    /// What was asked for and has not come is to be asked for again.
    pub fn on_disconnect(&mut self)
        requires
            old(self).wf(),
        ensures
            final(self).wf(),
            final(self)@ == old(self)@.map_values(|n: NodeView| n.requeued()),
    {
        let keys = self.chunks.keys();
        let ghost before = self@;
        let mut i: usize = 0;
        while i < keys.len()
            invariant
                i <= keys@.len(),
                self.wf(),
                keys@.no_duplicates(),
                forall|k: ChunkCoords| #[trigger] keys@.contains(k) <==> before.contains_key(k),
                self@.dom() == before.dom(),
                forall|k: int|
                    0 <= k < keys@.len() ==> self@[#[trigger] keys@[k]] == (if k < i {
                        before[keys@[k]].requeued()
                    } else {
                        before[keys@[k]]
                    }),
            decreases keys@.len() - i,
        {
            let chunk = keys[i];
            assert(keys@.contains(chunk));
            let node = self.get_node_mut(chunk);
            if node.full_status == FetchStatus::InFlight {
                node.full_status = FetchStatus::Pending;
            }
            if node.lod_status == FetchStatus::InFlight {
                node.lod_status = FetchStatus::Pending;
            }
            i = i + 1;
        }
        proof {
            let after = before.map_values(|n: NodeView| n.requeued());
            assert forall|c: ChunkCoords| before.contains_key(c) implies self@[c] == after[c] by {
                assert(keys@.contains(c));
                let k = choose|k: int| 0 <= k < keys@.len() && keys@[k] == c;
                assert(self@[keys@[k]] == before[keys@[k]].requeued());
            }
            assert(self@ =~= after);
        }
    }
}

/// Every chunk that is known has all its places.
pub open spec fn nodes_wf(m: Nodes) -> bool {
    forall|c: ChunkCoords| #[trigger]
        m.contains_key(c) ==> (m[c].full matches Some(f) ==> f.len() == CHUNK_AREA)
}

/// What is written at `pos` is read wherever the chunk and the place in it are
/// the same, and nowhere else.
pub(crate) proof fn lemma_place_reads_back(
    m: Nodes,
    pos: WorldCoords,
    cell: Option<CanvasCell>,
    other: WorldCoords,
)
    requires
        nodes_wf(m),
    ensures
        cell_at(with_cell_at(m, pos, cell), other) == (if other.chunk() == pos.chunk()
            && other.local() == pos.local() {
            cell
        } else {
            cell_at(m, other)
        }),
        nodes_wf(with_cell_at(m, pos, cell)),
{
    let (i, j) = (pos.local().index(), other.local().index());
    assert(0 <= i < CHUNK_AREA && 0 <= j < CHUNK_AREA);
    if i == j {
        assert(other.local() == pos.local());
    }
}

/// A cell reads back as it was written, and no other cell changes.
pub proof fn law_cell_reads_back(
    m: Nodes,
    pos: WorldCoords,
    cell: Option<CanvasCell>,
    other: WorldCoords,
)
    requires
        nodes_wf(m),
        pos.on_board(),
        other.on_board(),
    ensures
        cell_at(with_cell_at(m, pos, cell), other) == (if other == pos {
            cell
        } else {
            cell_at(m, other)
        }),
        nodes_wf(with_cell_at(m, pos, cell)),
{
    lemma_place_reads_back(m, pos, cell, other);
    if other.chunk() == pos.chunk() && other.local() == pos.local() {
        law_chunk_injective(pos, other);
    }
}

} // verus!
