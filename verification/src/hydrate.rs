//! Starting up: a fresh board, or the board that was written down.

use rand::distr::{Alphanumeric, Distribution};
use rand::rngs::ThreadRng;
use rand::RngExt;
use vstd::prelude::*;
use vstd::string::*;

use crate::color::Rgb;
use crate::coords::{ChunkCoords, ChunkLocalCoords, CHUNK_AREA};
use crate::edit::count_of;
use crate::model::{Segment, StoredChunkCell, UserAccount, WorldSnapshot};
use crate::replay::{all_cells_by, lemma_count_after_actions, segment_fits};
use crate::state::AppState;
use crate::world::{look, with_chunk, ChunkArray, Slot, WorldShard};

verus! {

/// `rand::rngs::ThreadRng`, the random number generator of a thread.
#[verifier::external_type_specification]
#[verifier::external_body]
pub struct ExThreadRng(ThreadRng);

/// `rand::rng`: the generator of this thread. Nothing is claimed of it.
#[verifier::external_body]
fn thread_rng() -> ThreadRng {
    rand::rng()
}

/// A letter `a` to `z` or `A` to `Z`, or a digit.
pub open spec fn is_alphanumeric(b: u8) -> bool {
    0x41 <= b <= 0x5a || 0x61 <= b <= 0x7a || 0x30 <= b <= 0x39
}

/// `rand::distr::Alphanumeric` sampled: some letter or digit of ASCII.
#[verifier::external_body]
fn sample_alphanumeric(rng: &mut ThreadRng) -> (r: u8)
    ensures
        is_alphanumeric(r),
{
    Alphanumeric.sample(rng)
}

/// `rand::RngExt::random_range` over an inclusive range: some number of the
/// range.
#[verifier::external_body]
fn sample_between(rng: &mut ThreadRng, lo: u8, hi: u8) -> (r: u8)
    requires
        lo <= hi,
    ensures
        lo <= r <= hi,
{
    rng.random_range(lo..=hi)
}

/// A cell of a fresh board.
pub open spec fn is_fresh_cell(c: StoredChunkCell, index: int) -> bool {
    &&& c.local.valid()
    &&& c.local.index() == index
    &&& is_alphanumeric(c.ch as u8)
    &&& (c.ch as u32) < 128
    &&& 100 <= c.color.0 <= 200
    &&& 100 <= c.color.1 <= 200
    &&& 100 <= c.color.2 <= 200
    &&& c.author_id == 0
    &&& c.ts == 0
}

/// The cell that the system account writes at `local`.
pub fn fresh_cell(local: ChunkLocalCoords, letter: u8, color: Rgb) -> (r: StoredChunkCell)
    ensures
        r == (StoredChunkCell { local, ch: letter as char, color, author_id: 0, ts: 0 }),
{
    StoredChunkCell { local, ch: letter as char, color, author_id: 0, ts: 0 }
}

fn fresh_chunk(rng: &mut ThreadRng) -> (r: ChunkArray)
    ensures
        forall|i: int|
            0 <= i < CHUNK_AREA ==> (#[trigger] r@[i]) is Some && is_fresh_cell(r@[i]->0, i),
{
    let mut array = WorldShard::new_array();
    let mut i: usize = 0;
    while i < CHUNK_AREA
        invariant
            i <= CHUNK_AREA,
            forall|j: int|
                0 <= j < i ==> (#[trigger] array@[j]) is Some && is_fresh_cell(array@[j]->0, j),
        decreases CHUNK_AREA - i,
    {
        let local = ChunkLocalCoords { x: (i % 64) as u8, y: (i / 64) as u8 };
        let letter: u8 = sample_alphanumeric(rng);
        let color = Rgb(
            sample_between(rng, 100, 200),
            sample_between(rng, 100, 200),
            sample_between(rng, 100, 200),
        );
        array[i] = Some(fresh_cell(local, letter, color));
        i = i + 1;
    }
    array
}

/// The slot lies on the board.
pub open spec fn board_slot(s: Slot) -> bool {
    -32 <= s.0.x < 32 && 0 <= s.1 < CHUNK_AREA
}

/// The chunk comes before column `cx`, row `cy`, column by column.
spec fn filled(c: ChunkCoords, cx: int, cy: int) -> bool {
    -32 <= c.x && (c.x < cx || (c.x == cx && c.y < cy))
}

spec fn in_range(m: Map<Slot, StoredChunkCell>) -> bool {
    forall|s: Slot| #[trigger] m.contains_key(s) ==> 0 <= s.1 < CHUNK_AREA
}

spec fn fresh_or_same(
    m0: Map<Slot, StoredChunkCell>,
    m: Map<Slot, StoredChunkCell>,
    cx: int,
    cy: int,
    s: Slot,
) -> bool {
    if filled(s.0, cx, cy) && 0 <= s.1 < CHUNK_AREA {
        m.contains_key(s) && is_fresh_cell(m[s], s.1)
    } else {
        look(m, s) == look(m0, s)
    }
}

/// The chunks before column `cx`, row `cy` are fresh; the others are as in
/// `m0`.
spec fn filled_up_to(
    m0: Map<Slot, StoredChunkCell>,
    m: Map<Slot, StoredChunkCell>,
    cx: int,
    cy: int,
) -> bool {
    forall|s: Slot| #[trigger] fresh_or_same(m0, m, cx, cy, s)
}

proof fn lemma_fill_step(
    m0: Map<Slot, StoredChunkCell>,
    m: Map<Slot, StoredChunkCell>,
    chunk: ChunkCoords,
    data: Seq<Option<StoredChunkCell>>,
)
    requires
        in_range(m0),
        -32 <= chunk.x,
        filled_up_to(m0, m, chunk.x as int, chunk.y as int),
        data.len() == CHUNK_AREA,
        forall|i: int|
            0 <= i < CHUNK_AREA ==> (#[trigger] data[i]) is Some && is_fresh_cell(data[i]->0, i),
    ensures
        filled_up_to(m0, with_chunk(m, chunk, data), chunk.x as int, chunk.y + 1),
{
    let after = with_chunk(m, chunk, data);
    assert forall|s: Slot| #[trigger]
        fresh_or_same(m0, after, chunk.x as int, chunk.y + 1, s) by {
        assert(fresh_or_same(m0, m, chunk.x as int, chunk.y as int, s));
        if s.0 == chunk && 0 <= s.1 < CHUNK_AREA {
            assert(data[s.1] is Some);
        }
    }
}

proof fn lemma_next_column(m0: Map<Slot, StoredChunkCell>, m: Map<Slot, StoredChunkCell>, cx: int)
    requires
        filled_up_to(m0, m, cx, 128),
    ensures
        filled_up_to(m0, m, cx + 1, -128),
{
    assert forall|s: Slot| #[trigger] fresh_or_same(m0, m, cx + 1, -128, s) by {
        assert(fresh_or_same(m0, m, cx, 128, s));
    }
}

/// The account of the system.
pub open spec fn is_system(u: UserAccount) -> bool {
    &&& u.user_id == 0
    &&& u.username@ == "system"@
    &&& u.original_anon_name@ == "system"@
    &&& u.password_hash is None
    &&& u.session_token@ == Seq::<char>::empty()
    &&& !u.is_anonymous
    &&& u.protected_cells == 0
}

/// Number of the cells of author `aid` that the segments write.
pub open spec fn log_cells_by(segments: Seq<Segment>, aid: u32) -> nat
    decreases segments.len(),
{
    if segments.len() == 0 {
        0
    } else {
        log_cells_by(segments.drop_last(), aid) + all_cells_by(segments.last().actions@, aid)
    }
}

/// The count of each author has room for the cells of theirs that the segments
/// write.
pub open spec fn room_for_log(counts: Seq<u32>, segments: Seq<Segment>) -> bool {
    forall|aid: u32|
        aid != 0 ==> count_of(counts, aid) + #[trigger] log_cells_by(segments, aid) <= u32::MAX
}

proof fn lemma_log_cells_by_step(segments: Seq<Segment>, i: int, aid: u32)
    requires
        0 <= i < segments.len(),
    ensures
        log_cells_by(segments.take(i + 1), aid) == log_cells_by(segments.take(i), aid)
            + all_cells_by(segments[i].actions@, aid),
        log_cells_by(segments.take(i + 1), aid) <= log_cells_by(segments, aid),
    decreases segments.len() - i,
{
    assert(segments.take(i + 1).drop_last() =~= segments.take(i));
    if i + 1 < segments.len() {
        lemma_log_cells_by_step(segments, i + 1, aid);
    } else {
        assert(segments.take(i + 1) =~= segments);
    }
}

/// The number of the last segment, or `base` where there is none.
pub open spec fn last_id(segments: Seq<Segment>, base: u64) -> u64 {
    if segments.len() > 0 {
        segments.last().segment_id
    } else {
        base
    }
}

impl AppState {
    /// `after` is this state with a fresh board: a random letter in every
    /// place, all by the system account.
    pub open spec fn starts_fresh(self, after: AppState) -> bool {
        &&& forall|s: Slot|
            {
                &&& #[trigger] after.world@.contains_key(s) <==> board_slot(s)
                    || self.world@.contains_key(s)
                &&& board_slot(s) ==> is_fresh_cell(after.world@[s], s.1)
                &&& !board_slot(s) && self.world@.contains_key(s) ==> after.world@[s]
                    == self.world@[s]
            }
        &&& after.total_cells == 16_777_216
        &&& after.authors_count@ == seq![16_777_216u32]
        &&& after.users@.len() == 2
        &&& after.users@[0] is Some && is_system(after.users@[0]->0)
        &&& after.users@[1] is None
        &&& after.name_to_id@ == self.name_to_id@.insert("system"@, 0)
        &&& after == (AppState {
            world: after.world,
            total_cells: after.total_cells,
            authors_count: after.authors_count,
            users: after.users,
            name_to_id: after.name_to_id,
            ..self
        })
    }

    /// Fills the board with random letters.
    pub fn init_fresh_board(&mut self)
        requires
            old(self).wf(),
        ensures
            final(self).wf(),
            old(self).starts_fresh(*final(self)),
    {
        let mut rng = thread_rng();
        proof {
            self.world.lemma_finite();
        }
        let mut total: u32 = 0;
        let mut cx: i64 = -32;
        assert forall|s: Slot| #[trigger]
            fresh_or_same(old(self).world@, self.world@, -32, -128, s) by {}
        while cx < 32
            invariant
                -32 <= cx <= 32,
                total == (cx + 32) * 262_144,
                *self == (AppState { world: self.world, ..*old(self) }),
                self.world.wf(),
                in_range(old(self).world@),
                filled_up_to(old(self).world@, self.world@, cx as int, -128),
            decreases 32 - cx,
        {
            let mut cy: i64 = -128;
            while cy < 128
                invariant
                    -32 <= cx < 32,
                    -128 <= cy <= 128,
                    total == (cx + 32) * 262_144 + (cy + 128) * 1024,
                    *self == (AppState { world: self.world, ..*old(self) }),
                    self.world.wf(),
                    in_range(old(self).world@),
                    filled_up_to(old(self).world@, self.world@, cx as int, cy as int),
                decreases 128 - cy,
            {
                let chunk = ChunkCoords { x: cx as i8, y: cy as i8 };
                let array = fresh_chunk(&mut rng);
                let ghost before = self.world@;
                self.world.insert_chunk(chunk, array);
                proof {
                    lemma_fill_step(old(self).world@, before, chunk, array@);
                }
                total = total + 1024;
                cy = cy + 1;
            }
            proof {
                lemma_next_column(old(self).world@, self.world@, cx as int);
            }
            cx = cx + 1;
        }
        proof {
            assert forall|s: Slot|
                {
                    &&& #[trigger] self.world@.contains_key(s) <==> board_slot(s) || old(
                        self,
                    ).world@.contains_key(s)
                    &&& board_slot(s) ==> is_fresh_cell(self.world@[s], s.1)
                    &&& !board_slot(s) && old(self).world@.contains_key(s) ==> self.world@[s]
                        == old(self).world@[s]
                } by {
                assert(fresh_or_same(old(self).world@, self.world@, 32, -128, s));
            }
        }
        self.total_cells = total;
        let mut counts: Vec<u32> = Vec::new();
        counts.push(total);
        self.authors_count = counts;
        assert(self.authors_count@ =~= seq![16_777_216u32]);
        let mut users: Vec<Option<UserAccount>> = Vec::new();
        users.push(
            Some(
                UserAccount {
                    user_id: 0,
                    username: "system".to_string(),
                    original_anon_name: "system".to_string(),
                    password_hash: None,
                    session_token: String::new(),
                    is_anonymous: false,
                    protected_cells: 0,
                },
            ),
        );
        users.push(None);
        self.users = users;
        self.name_to_id.insert("system".to_string(), 0);
    }

    /// `after` is this state once `segments` have been replayed, one after the
    /// other.
    pub open spec fn replays_all(self, segments: Seq<Segment>, after: AppState) -> bool
        decreases segments.len(),
    {
        if segments.len() == 0 {
            after == self
        } else {
            exists|mid: AppState|
                self.replays_all(segments.drop_last(), mid) && #[trigger] mid.replays(
                    segments.last(),
                    after,
                )
        }
    }

    /// Replays segments of the log, one after the other.
    pub fn replay_segments(&mut self, segments: &Vec<Segment>)
        requires
            old(self).wf(),
            forall|i: int| 0 <= i < segments@.len() ==> segment_fits(#[trigger] segments@[i]),
            room_for_log(old(self).authors_count@, segments@),
        ensures
            final(self).wf(),
            old(self).replays_all(segments@, *final(self)),
    {
        let ghost all = segments@;
        let ghost counts0 = self.authors_count@;
        let mut i: usize = 0;
        assert(all.take(0) =~= Seq::<Segment>::empty());
        while i < segments.len()
            invariant
                i <= all.len(),
                all == segments@,
                forall|k: int| 0 <= k < all.len() ==> segment_fits(#[trigger] all[k]),
                room_for_log(counts0, all),
                self.wf(),
                forall|aid: u32|
                    aid != 0 ==> #[trigger] count_of(self.authors_count@, aid) == count_of(
                        counts0,
                        aid,
                    ) + log_cells_by(all.take(i as int), aid),
                old(self).replays_all(all.take(i as int), *self),
            decreases all.len() - i,
        {
            let ghost before = *self;
            proof {
                assert(all.take(i + 1).drop_last() =~= all.take(i as int));
                assert(segment_fits(all[i as int]));
                assert forall|aid: u32| aid != 0 implies count_of(self.authors_count@, aid)
                    + #[trigger] all_cells_by(all[i as int].actions@, aid) <= u32::MAX by {
                    assert(count_of(counts0, aid) + log_cells_by(all, aid) <= u32::MAX);
                    lemma_log_cells_by_step(all, i as int, aid);
                }
            }
            self.replay_segment(&segments[i]);
            proof {
                assert(all.take(i + 1).last() == all[i as int]);
                assert(before.replays(all.take(i + 1).last(), *self));
                assert forall|aid: u32| aid != 0 implies #[trigger] count_of(
                    self.authors_count@,
                    aid,
                ) == count_of(counts0, aid) + log_cells_by(all.take(i + 1), aid) by {
                    assert(count_of(counts0, aid) + log_cells_by(all, aid) <= u32::MAX);
                    lemma_log_cells_by_step(all, i as int, aid);
                    assert(count_of(before.authors_count@, aid) == count_of(counts0, aid)
                        + log_cells_by(all.take(i as int), aid));
                    lemma_count_after_actions(before.authors_count@, all[i as int].actions@, aid);
                }
            }
            i = i + 1;
        }
        assert(all.take(all.len() as int) =~= all);
    }

    /// Starts up from what was written down: the snapshot, if there is one, and
    /// the segments that follow it. Without either, the board is a fresh one.
    /// Returns the number of the last segment, and whether the board is fresh
    /// and has yet to be written down.
    pub fn hydrate(&mut self, snap: Option<WorldSnapshot>, segments: Vec<Segment>) -> (r: (u64, bool))
        requires
            old(self).wf(),
            snap matches Some(s) ==> Self::snapshot_fits(s),
            forall|i: int| 0 <= i < segments@.len() ==> segment_fits(#[trigger] segments@[i]),
            room_for_log(
                match snap {
                    Some(s) => s.authors_count@,
                    None => old(self).authors_count@,
                },
                segments@,
            ),
        ensures
            final(self).wf(),
            r.1 <==> snap is None && segments@.len() == 0,
            r.1 ==> r.0 == 0 && old(self).starts_fresh(*final(self)),
            !r.1 ==> r.0 == last_id(
                segments@,
                match snap {
                    Some(s) => s.based_on_segment_id,
                    None => 0,
                },
            ),
            !r.1 ==> match snap {
                Some(s) => exists|mid: AppState| #[trigger]
                    old(self).takes_over(s, mid) && mid.replays_all(segments@, *final(self)),
                None => old(self).replays_all(segments@, *final(self)),
            },
    {
        let base: u64 = match snap {
            Some(s) => {
                let based_on: u64 = s.based_on_segment_id;
                self.apply_snapshot(s);
                based_on
            },
            None => {
                if segments.len() == 0 {
                    self.init_fresh_board();
                    return (0, true);
                }
                0
            },
        };
        let ghost mid = *self;
        self.replay_segments(&segments);
        proof {
            if snap is Some {
                assert(old(self).takes_over(snap->0, mid));
            }
        }
        let last: u64 = if segments.len() > 0 {
            segments[segments.len() - 1].segment_id
        } else {
            base
        };
        (last, false)
    }
}

} // verus!
