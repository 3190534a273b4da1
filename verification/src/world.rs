//! The cells of the board, chunk by chunk, spread over shards.

use vstd::prelude::*;

use crate::coords::{ChunkCoords, WorldCoords, CHUNK_AREA, NUM_SHARDS};
use crate::model::{StoredChunk, StoredChunkCell};
use crate::table::CoordMap;

verus! {

/// A chunk, and the number of a place in it.
pub type Slot = (ChunkCoords, int);

/// The contents of one chunk, place by place.
pub type ChunkArray = Box<[Option<StoredChunkCell>; CHUNK_AREA]>;

/// What `m` holds in `s`.
pub open spec fn look(m: Map<Slot, StoredChunkCell>, s: Slot) -> Option<StoredChunkCell> {
    if m.contains_key(s) {
        Some(m[s])
    } else {
        None
    }
}

/// `m` with `cell` in `s`, or with nothing there.
pub open spec fn with_cell(
    m: Map<Slot, StoredChunkCell>,
    s: Slot,
    cell: Option<StoredChunkCell>,
) -> Map<Slot, StoredChunkCell> {
    match cell {
        Some(c) => m.insert(s, c),
        None => m.remove(s),
    }
}

/// `m` with the contents of `chunk` replaced by `data`.
pub open spec fn with_chunk(
    m: Map<Slot, StoredChunkCell>,
    chunk: ChunkCoords,
    data: Seq<Option<StoredChunkCell>>,
) -> Map<Slot, StoredChunkCell> {
    Map::new(
        |s: Slot|
            if s.0 == chunk {
                0 <= s.1 < data.len() && data[s.1] is Some
            } else {
                m.contains_key(s)
            },
        |s: Slot|
            if s.0 == chunk {
                data[s.1]->0
            } else {
                m[s]
            },
    )
}

/// The cells in the first `n` places of a chunk, in order.
pub open spec fn cells_below(
    m: Map<Slot, StoredChunkCell>,
    chunk: ChunkCoords,
    n: nat,
) -> Seq<StoredChunkCell>
    decreases n,
{
    if n == 0 {
        Seq::empty()
    } else {
        let before = cells_below(m, chunk, (n - 1) as nat);
        if m.contains_key((chunk, n - 1)) {
            before.push(m[(chunk, n - 1)])
        } else {
            before
        }
    }
}

/// The cells of a chunk, in the order of their places.
pub open spec fn chunk_cells(m: Map<Slot, StoredChunkCell>, chunk: ChunkCoords) -> Seq<
    StoredChunkCell,
> {
    cells_below(m, chunk, CHUNK_AREA as nat)
}

proof fn lemma_cells_below_same(
    a: Map<Slot, StoredChunkCell>,
    b: Map<Slot, StoredChunkCell>,
    chunk: ChunkCoords,
    n: nat,
)
    requires
        forall|i: int| 0 <= i < n ==> look(a, (chunk, i)) == #[trigger] look(b, (chunk, i)),
    ensures
        cells_below(a, chunk, n) == cells_below(b, chunk, n),
    decreases n,
{
    if n > 0 {
        lemma_cells_below_same(a, b, chunk, (n - 1) as nat);
        assert(look(a, (chunk, n - 1)) == look(b, (chunk, n - 1)));
    }
}

pub proof fn lemma_cells_below_nonempty(m: Map<Slot, StoredChunkCell>, chunk: ChunkCoords, n: nat)
    ensures
        cells_below(m, chunk, n).len() > 0 <==> exists|i: int|
            0 <= i < n && #[trigger] m.contains_key((chunk, i)),
        cells_below(m, chunk, n).len() <= n,
    decreases n,
{
    if n > 0 {
        lemma_cells_below_nonempty(m, chunk, (n - 1) as nat);
        assert(m.contains_key((chunk, n - 1)) || !m.contains_key((chunk, n - 1)));
    }
}

/// Some chunks of the board.
pub struct WorldShard {
    chunks: CoordMap<ChunkCoords, ChunkArray>,
}

impl View for WorldShard {
    type V = Map<Slot, StoredChunkCell>;

    closed spec fn view(&self) -> Map<Slot, StoredChunkCell> {
        Map::new(
            |s: Slot|
                self.chunks@.contains_key(s.0) && 0 <= s.1 < CHUNK_AREA
                    && self.chunks@[s.0]@[s.1] is Some,
            |s: Slot| self.chunks@[s.0]@[s.1]->0,
        )
    }
}

impl WorldShard {
    pub fn new() -> (r: Self)
        ensures
            r@ == Map::<Slot, StoredChunkCell>::empty(),
    {
        let r = WorldShard { chunks: CoordMap::new() };
        assert(r@ =~= Map::<Slot, StoredChunkCell>::empty());
        r
    }

    /// The contents of a chunk in which nothing is written.
    pub fn new_array() -> (r: ChunkArray)
        ensures
            forall|i: int| 0 <= i < CHUNK_AREA ==> #[trigger] r@[i] is None,
    {
        Box::new([None;CHUNK_AREA])
    }

    /// Writes `cell`, and returns what it took the place of.
    pub fn put_cell(&mut self, chunk: ChunkCoords, arr_idx: usize, cell: StoredChunkCell) -> (r:
        Option<StoredChunkCell>)
        requires
            arr_idx < CHUNK_AREA,
        ensures
            final(self)@ == old(self)@.insert((chunk, arr_idx as int), cell),
            r == look(old(self)@, (chunk, arr_idx as int)),
    {
        let mut arr: ChunkArray = match self.chunks.remove(&chunk) {
            Some(a) => a,
            None => Self::new_array(),
        };
        let prev = arr[arr_idx];
        arr[arr_idx] = Some(cell);
        self.chunks.insert(chunk, arr);
        assert(self@ =~= old(self)@.insert((chunk, arr_idx as int), cell));
        prev
    }

    /// Clears a place, and returns what stood there.
    pub fn remove_cell(&mut self, chunk: ChunkCoords, arr_idx: usize) -> (r: Option<
        StoredChunkCell,
    >)
        requires
            arr_idx < CHUNK_AREA,
        ensures
            final(self)@ == old(self)@.remove((chunk, arr_idx as int)),
            r == look(old(self)@, (chunk, arr_idx as int)),
    {
        match self.chunks.remove(&chunk) {
            Some(a) => {
                let mut arr: ChunkArray = a;
                let prev = arr[arr_idx];
                arr[arr_idx] = None;
                self.chunks.insert(chunk, arr);
                assert(self@ =~= old(self)@.remove((chunk, arr_idx as int)));
                prev
            },
            None => {
                assert(self@ =~= old(self)@.remove((chunk, arr_idx as int)));
                None
            },
        }
    }

    pub fn get_cell(&self, chunk: ChunkCoords, arr_idx: usize) -> (r: Option<StoredChunkCell>)
        requires
            arr_idx < CHUNK_AREA,
        ensures
            r == look(self@, (chunk, arr_idx as int)),
    {
        match self.chunks.get(&chunk) {
            Some(arr) => arr[arr_idx],
            None => None,
        }
    }

    /// The cells of a chunk, in the order of their places.
    pub fn get_chunk(&self, chunk: ChunkCoords) -> (r: Vec<StoredChunkCell>)
        ensures
            r@ == chunk_cells(self@, chunk),
    {
        let mut out: Vec<StoredChunkCell> = Vec::new();
        match self.chunks.get(&chunk) {
            Some(arr) => {
                let mut i: usize = 0;
                while i < CHUNK_AREA
                    invariant
                        i <= CHUNK_AREA,
                        self.chunks@.contains_key(chunk),
                        self.chunks@[chunk] == *arr,
                        out@ == cells_below(self@, chunk, i as nat),
                    decreases CHUNK_AREA - i,
                {
                    if let Some(c) = arr[i] {
                        out.push(c);
                    }
                    i = i + 1;
                }
            },
            None => {
                proof {
                    lemma_cells_below_nonempty(self@, chunk, CHUNK_AREA as nat);
                    assert(out@ =~= chunk_cells(self@, chunk));
                }
            },
        }
        out
    }

    /// Replaces the contents of a chunk.
    pub fn insert_chunk(&mut self, chunk: ChunkCoords, data: ChunkArray)
        ensures
            final(self)@ == with_chunk(old(self)@, chunk, data@),
    {
        self.chunks.insert(chunk, data);
        assert(self@ =~= with_chunk(old(self)@, chunk, data@));
    }

    /// Every chunk in which something is written, once, in no particular
    /// order.
    pub fn snapshot(&self) -> (r: Vec<StoredChunk>)
        ensures
            lists_chunks(r@, self@),
    {
        let keys = self.chunks.keys();
        let mut out: Vec<StoredChunk> = Vec::new();
        let mut i: usize = 0;
        while i < keys.len()
            invariant
                i <= keys.len(),
                keys@.no_duplicates(),
                forall|k: ChunkCoords| #[trigger]
                    keys@.contains(k) <==> self.chunks@.contains_key(k),
                forall|a: int|
                    0 <= a < out@.len() ==> (#[trigger] out@[a]).cells@ == chunk_cells(
                        self@,
                        out@[a].coords,
                    ) && out@[a].cells@.len() > 0 && exists|j: int|
                        0 <= j < i && keys@[j] == out@[a].coords,
                forall|a: int, b: int|
                    0 <= a < b < out@.len() ==> (#[trigger] out@[a]).coords != (
                    #[trigger] out@[b]).coords,
                forall|j: int|
                    0 <= j < i && chunk_cells(self@, #[trigger] keys@[j]).len() > 0 ==> exists|
                        a: int,
                    |
                        0 <= a < out@.len() && (#[trigger] out@[a]).coords == keys@[j],
            decreases keys.len() - i,
        {
            let cells = self.get_chunk(keys[i]);
            let ghost before = out@;
            if cells.len() > 0 {
                out.push(StoredChunk { coords: keys[i], cells });
                proof {
                    assert(out@[before.len() as int].coords == keys@[i as int]);
                    assert forall|a: int| 0 <= a < before.len() implies before[a].coords
                        != keys@[i as int] by {
                        let j = choose|j: int| 0 <= j < i && keys@[j] == before[a].coords;
                        assert(keys@[j] != keys@[i as int]);
                    }
                }
            }
            assert forall|j: int|
                0 <= j < i + 1 && chunk_cells(self@, #[trigger] keys@[j]).len()
                    > 0 implies exists|a: int|
                0 <= a < out@.len() && (#[trigger] out@[a]).coords == keys@[j] by {
                if j < i {
                    let a = choose|a: int|
                        0 <= a < before.len() && (#[trigger] before[a]).coords == keys@[j];
                    assert(out@[a].coords == keys@[j]);
                }
            }
            i = i + 1;
        }
        proof {
            assert forall|c: ChunkCoords|
                (#[trigger] chunk_cells(self@, c)).len() > 0 implies exists|a: int|
                0 <= a < out@.len() && (#[trigger] out@[a]).coords == c by {
                lemma_cells_below_nonempty(self@, c, CHUNK_AREA as nat);
                let p = choose|p: int| 0 <= p < CHUNK_AREA && #[trigger] self@.contains_key((c, p));
                assert(keys@.contains(c));
                let j = choose|j: int| 0 <= j < keys@.len() && keys@[j] == c;
                assert(chunk_cells(self@, keys@[j]).len() > 0);
            }
        }
        out
    }
}

/// `chunks` holds every chunk of `m` in which something is written, once, with
/// all its cells.
pub open spec fn lists_chunks(chunks: Seq<StoredChunk>, m: Map<Slot, StoredChunkCell>) -> bool {
    &&& forall|a: int|
        0 <= a < chunks.len() ==> (#[trigger] chunks[a]).cells@ == chunk_cells(m, chunks[a].coords)
            && chunks[a].cells@.len() > 0
    &&& forall|a: int, b: int|
        0 <= a < b < chunks.len() ==> (#[trigger] chunks[a]).coords != (#[trigger] chunks[b]).coords
    &&& forall|c: ChunkCoords|
        (#[trigger] chunk_cells(m, c)).len() > 0 ==> exists|a: int|
            0 <= a < chunks.len() && (#[trigger] chunks[a]).coords == c
}

/// The whole board.
pub struct World {
    shards: Vec<WorldShard>,
}

impl View for World {
    type V = Map<Slot, StoredChunkCell>;

    closed spec fn view(&self) -> Map<Slot, StoredChunkCell> {
        Map::new(
            |s: Slot| self.shards@[s.0.shard()]@.contains_key(s),
            |s: Slot| self.shards@[s.0.shard()]@[s],
        )
    }
}

/// The slot of the board that holds `pos`.
pub open spec fn slot_of(pos: WorldCoords) -> Slot {
    (pos.chunk(), pos.local().index())
}

impl World {
    /// Every chunk lies in the shard that its coordinates name.
    pub closed spec fn wf(&self) -> bool {
        &&& self.shards@.len() == NUM_SHARDS
        &&& forall|i: int, s: Slot|
            0 <= i < NUM_SHARDS && #[trigger] self.shards@[i]@.contains_key(s) ==> s.0.shard() == i
    }

    pub fn new() -> (r: Self)
        ensures
            r.wf(),
            r@ == Map::<Slot, StoredChunkCell>::empty(),
    {
        let mut shards: Vec<WorldShard> = Vec::new();
        let mut i: usize = 0;
        while i < NUM_SHARDS
            invariant
                i <= NUM_SHARDS,
                shards@.len() == i,
                forall|j: int|
                    0 <= j < i ==> (#[trigger] shards@[j])@ == Map::<Slot, StoredChunkCell>::empty(),
            decreases NUM_SHARDS - i,
        {
            shards.push(WorldShard::new());
            i = i + 1;
        }
        let r = World { shards };
        proof {
            assert forall|s: Slot| !r@.contains_key(s) by {
                lemma_shard_range(s.0);
            }
            assert(r@ =~= Map::<Slot, StoredChunkCell>::empty());
        }
        r
    }

    /// Writes `cell`, and returns what it took the place of.
    pub fn put_cell(&mut self, chunk: ChunkCoords, arr_idx: usize, cell: StoredChunkCell) -> (r:
        Option<StoredChunkCell>)
        requires
            old(self).wf(),
            arr_idx < CHUNK_AREA,
        ensures
            final(self).wf(),
            final(self)@ == old(self)@.insert((chunk, arr_idx as int), cell),
            r == look(old(self)@, (chunk, arr_idx as int)),
    {
        let idx: usize = chunk.shard_idx();
        let prev = self.shards[idx].put_cell(chunk, arr_idx, cell);
        proof {
            self.lemma_one_shard(*old(self), idx as int);
            assert(self@ =~= old(self)@.insert((chunk, arr_idx as int), cell));
        }
        prev
    }

    /// Clears a place, and returns what stood there.
    pub fn remove_cell(&mut self, chunk: ChunkCoords, arr_idx: usize) -> (r: Option<
        StoredChunkCell,
    >)
        requires
            old(self).wf(),
            arr_idx < CHUNK_AREA,
        ensures
            final(self).wf(),
            final(self)@ == old(self)@.remove((chunk, arr_idx as int)),
            r == look(old(self)@, (chunk, arr_idx as int)),
    {
        let idx: usize = chunk.shard_idx();
        let prev = self.shards[idx].remove_cell(chunk, arr_idx);
        proof {
            self.lemma_one_shard(*old(self), idx as int);
            assert(self@ =~= old(self)@.remove((chunk, arr_idx as int)));
        }
        prev
    }

    pub fn get_cell(&self, chunk: ChunkCoords, arr_idx: usize) -> (r: Option<StoredChunkCell>)
        requires
            self.wf(),
            arr_idx < CHUNK_AREA,
        ensures
            r == look(self@, (chunk, arr_idx as int)),
    {
        self.shards[chunk.shard_idx()].get_cell(chunk, arr_idx)
    }

    /// The cells of a chunk, in the order of their places.
    pub fn get_chunk(&self, chunk: ChunkCoords) -> (r: Vec<StoredChunkCell>)
        requires
            self.wf(),
        ensures
            r@ == chunk_cells(self@, chunk),
    {
        let r = self.shards[chunk.shard_idx()].get_chunk(chunk);
        proof {
            lemma_cells_below_same(
                self.shards@[chunk.shard()]@,
                self@,
                chunk,
                CHUNK_AREA as nat,
            );
        }
        r
    }

    /// Replaces the contents of a chunk.
    pub fn insert_chunk(&mut self, chunk: ChunkCoords, data: ChunkArray)
        requires
            old(self).wf(),
        ensures
            final(self).wf(),
            final(self)@ == with_chunk(old(self)@, chunk, data@),
    {
        let idx: usize = chunk.shard_idx();
        self.shards[idx].insert_chunk(chunk, data);
        proof {
            self.lemma_one_shard(*old(self), idx as int);
            assert(self@ =~= with_chunk(old(self)@, chunk, data@));
        }
    }

    /// Every chunk in which something is written, once, in no particular
    /// order.
    pub fn snapshot(&self) -> (r: Vec<StoredChunk>)
        requires
            self.wf(),
        ensures
            lists_chunks(r@, self@),
    {
        let mut out: Vec<StoredChunk> = Vec::new();
        let mut i: usize = 0;
        while i < self.shards.len()
            invariant
                self.wf(),
                i <= self.shards@.len(),
                lists_chunks_where(out@, self@, i as int),
            decreases self.shards@.len() - i,
        {
            let mut part = self.shards[i].snapshot();
            let ghost before = out@;
            let ghost added = part@;
            out.append(&mut part);
            proof {
                self.lemma_shard_chunks(i as int);
                lemma_lists_chunks_step(before, added, self.shards@[i as int]@, self@, i as int);
            }
            i = i + 1;
        }
        proof {
            assert forall|c: ChunkCoords| 0 <= #[trigger] c.shard() < NUM_SHARDS by {
                lemma_shard_range(c);
            }
        }
        out
    }

    proof fn lemma_one_shard(self, before: World, idx: int)
        requires
            before.wf(),
            0 <= idx < NUM_SHARDS,
            self.shards@.len() == before.shards@.len(),
            forall|i: int| 0 <= i < NUM_SHARDS && i != idx ==> self.shards@[i] == before.shards@[i],
        ensures
            forall|s: Slot|
                s.0.shard() != idx ==> #[trigger] self@.contains_key(s) == before@.contains_key(s),
            forall|s: Slot|
                s.0.shard() != idx && before@.contains_key(s) ==> #[trigger] self@[s] == before@[s],
    {
        assert forall|s: Slot| 0 <= #[trigger] s.0.shard() < NUM_SHARDS by {
            lemma_shard_range(s.0);
        }
    }

    proof fn lemma_shard_chunks(self, i: int)
        requires
            self.wf(),
            0 <= i < NUM_SHARDS,
        ensures
            forall|c: ChunkCoords| #[trigger]
                chunk_cells(self.shards@[i]@, c) == (if c.shard() == i {
                    chunk_cells(self@, c)
                } else {
                    Seq::empty()
                }),
    {
        assert forall|c: ChunkCoords| #[trigger]
            chunk_cells(self.shards@[i]@, c) == (if c.shard() == i {
                chunk_cells(self@, c)
            } else {
                Seq::empty()
            }) by {
            if c.shard() == i {
                lemma_cells_below_same(self.shards@[i]@, self@, c, CHUNK_AREA as nat);
            } else {
                lemma_cells_below_nonempty(self.shards@[i]@, c, CHUNK_AREA as nat);
                assert(chunk_cells(self.shards@[i]@, c) =~= Seq::empty());
            }
        }
    }

    /// A slot in use lies inside its chunk; the board has a bounded number of
    /// them.
    pub proof fn lemma_finite(self)
        ensures
            self@.dom().finite(),
            self@.len() <= 67_108_864,
            forall|s: Slot| #[trigger] self@.contains_key(s) ==> 0 <= s.1 < CHUNK_AREA,
    {
        assert forall|s: Slot| #[trigger] self@.contains_key(s) implies 0 <= s.1 < CHUNK_AREA by {
            assert(self.shards@[s.0.shard()]@.contains_key(s));
        }
        lemma_slots_finite(self@.dom());
    }
}

proof fn lemma_shard_range(c: ChunkCoords)
    ensures
        0 <= c.shard() < NUM_SHARDS,
{
    let h = c.shard_hash();
    let a: int = if h < 0 {
        -h
    } else {
        h as int
    };
    assert(0 <= a % 64 < 64);
}

/// `chunks` holds every chunk of the first `n` shards in which something is
/// written, once, with all its cells.
spec fn lists_chunks_where(chunks: Seq<StoredChunk>, m: Map<Slot, StoredChunkCell>, n: int) -> bool {
    &&& forall|a: int|
        0 <= a < chunks.len() ==> (#[trigger] chunks[a]).cells@ == chunk_cells(m, chunks[a].coords)
            && chunks[a].cells@.len() > 0 && chunks[a].coords.shard() < n
    &&& forall|a: int, b: int|
        0 <= a < b < chunks.len() ==> (#[trigger] chunks[a]).coords != (#[trigger] chunks[b]).coords
    &&& forall|c: ChunkCoords|
        (#[trigger] chunk_cells(m, c)).len() > 0 && c.shard() < n ==> exists|a: int|
            0 <= a < chunks.len() && (#[trigger] chunks[a]).coords == c
}

proof fn lemma_lists_chunks_step(
    before: Seq<StoredChunk>,
    added: Seq<StoredChunk>,
    part: Map<Slot, StoredChunkCell>,
    m: Map<Slot, StoredChunkCell>,
    n: int,
)
    requires
        lists_chunks_where(before, m, n),
        lists_chunks(added, part),
        forall|c: ChunkCoords| #[trigger]
            chunk_cells(part, c) == (if c.shard() == n {
                chunk_cells(m, c)
            } else {
                Seq::empty()
            }),
    ensures
        lists_chunks_where(before + added, m, n + 1),
{
    let all = before + added;
    assert forall|a: int| 0 <= a < all.len() implies (#[trigger] all[a]).cells@ == chunk_cells(
        m,
        all[a].coords,
    ) && all[a].cells@.len() > 0 && all[a].coords.shard() < n + 1 by {
        if a >= before.len() {
            let d = added[a - before.len()];
            assert(d.cells@ == chunk_cells(part, d.coords));
        } else {
            assert(all[a] == before[a]);
        }
    }
    assert forall|a: int, b: int| 0 <= a < b < all.len() implies (#[trigger] all[a]).coords != (
    #[trigger] all[b]).coords by {
        if b < before.len() {
            assert(all[a] == before[a] && all[b] == before[b]);
        } else {
            let d = added[b - before.len()];
            assert(d.cells@ == chunk_cells(part, d.coords));
            if a >= before.len() {
                assert(added[a - before.len()].coords != d.coords);
            } else {
                assert(all[a] == before[a]);
            }
        }
    }
    assert forall|c: ChunkCoords|
        (#[trigger] chunk_cells(m, c)).len() > 0 && c.shard() < n + 1 implies exists|a: int|
        0 <= a < all.len() && (#[trigger] all[a]).coords == c by {
        if c.shard() < n {
            let a = choose|a: int| 0 <= a < before.len() && (#[trigger] before[a]).coords == c;
            assert(all[a].coords == c);
        } else {
            assert(chunk_cells(part, c) == chunk_cells(m, c));
            let a = choose|a: int| 0 <= a < added.len() && (#[trigger] added[a]).coords == c;
            assert(all[a + before.len()].coords == c);
        }
    }
}

spec fn slot_number(s: Slot) -> int {
    ((s.0.x + 128) * 256 + (s.0.y + 128)) * 1024 + s.1
}

proof fn lemma_slots_finite(slots: Set<Slot>)
    requires
        forall|s: Slot| #[trigger] slots.contains(s) ==> 0 <= s.1 < CHUNK_AREA,
    ensures
        slots.finite(),
        slots.len() <= 67_108_864,
{
    let numbers = vstd::set_lib::set_int_range(0, 67_108_864);
    vstd::set_lib::lemma_int_range(0, 67_108_864);
    let back = |n: int|
        (
            ChunkCoords { x: (n / 1024 / 256 - 128) as i8, y: ((n / 1024) % 256 - 128) as i8 },
            n % 1024,
        );
    let all = numbers.map(back);
    numbers.lemma_map_finite(back);
    assert(slots.subset_of(all)) by {
        assert forall|s: Slot| #[trigger] slots.contains(s) implies all.contains(s) by {
            let n = slot_number(s);
            assert(numbers.contains(n));
            assert(back(n) == s);
        }
    }
    vstd::set_lib::lemma_map_size_bound(numbers, all, back);
    vstd::set_lib::lemma_len_subset(slots, all);
}

} // verus!
