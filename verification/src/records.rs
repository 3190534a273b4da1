//! What holds of what is written down, read again and reported.

use vstd::prelude::*;

use crate::chunks::node_at;
use crate::coords::{ChunkCoords, WorldCoords, WorldRect};
use crate::editor::{lemma_ordered_messages, messages, BoardView, EditorView};
use crate::history::{by_id, merged};
use crate::http::Header;
use crate::info::RegionInfo;
use crate::layout::{keeps, moved_place, steps_of, PanelStep, SavedPanel};
use crate::logbook::{letters, run_end, word_of_group};
use crate::migrate::{moved, movable};
use crate::model::{Action, WorldSnapshot};
use crate::msg::{CellUpdateEntry, RegionRecord};
use crate::panels::Widget;
use crate::region::lists_regions_as;
use crate::revert::{RevertFilter, MAX_REVERT_POSITIONS};
use crate::serving::{numbered, within};
use crate::session::{is_record, tells_regions};
use crate::sort::{law_sort_by, orders, sort_by};
use crate::state::AppState;
use crate::typing::is_place;
use crate::ui::{ClientMsgView, OrderView};

verus! {

/// A filter takes everything just if it names no author, no region, no time and no
/// numbers; and no more than 250000 places are corrected without being forced.
pub proof fn law_filters_without_limits(f: RevertFilter)
    ensures
        f.limitless() <==> f.author_id is None && f.region is None && f.ts_range is None
            && f.action_id_range is None,
        MAX_REVERT_POSITIONS == 250_000,
{
}

/// An old snapshot that is brought up to date says the same, with the number of
/// every account one less: of the accounts, of the owners of regions, and of the
/// authors of cells. The counts of the first two accounts are put together.
pub proof fn law_old_snapshots_say_the_same(
    old: WorldSnapshot,
    new: WorldSnapshot,
    u: int,
    r: int,
    i: int,
    k: int,
    a: int,
)
    requires
        movable(old),
        moved(old, new),
    ensures
        new.users@.len() == old.users@.len(),
        new.regions@.len() == old.regions@.len(),
        new.chunks@.len() == old.chunks@.len(),
        new.total_cells == old.total_cells,
        new.based_on_segment_id == old.based_on_segment_id,
        new.next_uid + 1 == old.next_uid,
        new.next_rid == old.next_rid,
        0 <= u < old.users@.len() ==> {
            let (o, n) = (old.users@[u], new.users@[u]);
            &&& n.user_id + 1 == o.user_id
            &&& n.username == o.username
            &&& n.original_anon_name == o.original_anon_name
            &&& n.password_hash == o.password_hash
            &&& n.session_token == o.session_token
            &&& n.is_anonymous == o.is_anonymous
            &&& n.protected_cells == o.protected_cells
        },
        0 <= r < old.regions@.len() ==> {
            let (o, n) = (old.regions@[r], new.regions@[r]);
            &&& n.id == o.id
            &&& n.bounds == o.bounds
            &&& n.label == o.label
            &&& o.owner_id > 0 ==> n.owner_id + 1 == o.owner_id
            &&& o.owner_id == 0 ==> n.owner_id == 0
        },
        0 <= i < old.chunks@.len() ==> new.chunks@[i].coords == old.chunks@[i].coords
            && new.chunks@[i].cells@.len() == old.chunks@[i].cells@.len(),
        0 <= i < old.chunks@.len() && 0 <= k < old.chunks@[i].cells@.len() ==> {
            let (o, n) = (old.chunks@[i].cells@[k], new.chunks@[i].cells@[k]);
            &&& n.local == o.local
            &&& n.ch == o.ch
            &&& n.color == o.color
            &&& n.ts == o.ts
            &&& o.author_id > 0 ==> n.author_id + 1 == o.author_id
            &&& o.author_id == 0 ==> n.author_id == 0
        },
        old.authors_count@.len() >= 2 ==> {
            &&& new.authors_count@.len() + 1 == old.authors_count@.len()
            &&& new.authors_count@[0] == old.authors_count@[0] + old.authors_count@[1]
            &&& 0 < a < new.authors_count@.len() ==> new.authors_count@[a]
                == old.authors_count@[a + 1]
        },
{
}

/// The history is what memory holds, and of what is on disk all that is older.
pub proof fn law_history_is_whole(disk: Seq<Action>, hot: Seq<Action>, a: Action)
    ensures
        hot.len() > 0 ==> (merged(disk, hot).contains(a) <==> hot.contains(a) || (disk.contains(a)
            && a.action_id < hot[0].action_id)),
        hot.len() == 0 && a.action_id < u64::MAX ==> (merged(disk, hot).contains(a)
            <==> disk.contains(a)),
{
    broadcast use vstd::seq_lib::group_to_multiset_ensures;

    let le = by_id();
    assert(orders(le)) by {
        assert forall|x: Action, y: Action| #[trigger] le(x, y) || le(y, x) by {}
    }
    law_sort_by(disk, le);
    let sorted = sort_by(disk, le);
    let keep = |x: Action| x.action_id < crate::history::oldest_id(hot);
    let old = sorted.filter(keep);
    assert(sorted.contains(a) <==> disk.contains(a)) by {
        assert(sorted.to_multiset().count(a) > 0 <==> sorted.contains(a));
        assert(disk.to_multiset().count(a) > 0 <==> disk.contains(a));
    }
    lemma_filter_contains(sorted, keep, a);
    let all = merged(disk, hot);
    assert(all == old + hot);
    if all.contains(a) {
        let i = choose|i: int| 0 <= i < all.len() && all[i] == a;
        if i < old.len() {
            assert(old[i] == a);
            assert(old.contains(a));
        } else {
            assert(hot[i - old.len()] == a);
        }
    }
    if old.contains(a) {
        let i = choose|i: int| 0 <= i < old.len() && old[i] == a;
        assert(all[i] == a);
    }
    if hot.contains(a) {
        let i = choose|i: int| 0 <= i < hot.len() && hot[i] == a;
        assert(all[old.len() + i] == a);
    }
}

proof fn lemma_filter_contains<A>(s: Seq<A>, f: spec_fn(A) -> bool, x: A)
    ensures
        s.filter(f).contains(x) <==> s.contains(x) && f(x),
    decreases s.len(),
{
    reveal(Seq::filter);
    if s.len() > 0 {
        let rest = s.drop_last();
        let n = s.len() - 1;
        lemma_filter_contains(rest, f, x);
        let (before, all) = (rest.filter(f), s.filter(f));
        assert(s[n] == s.last());
        if rest.contains(x) {
            let i = choose|i: int| 0 <= i < rest.len() && rest[i] == x;
            assert(s[i] == x);
        }
        if s.contains(x) && x != s.last() {
            let i = choose|i: int| 0 <= i < s.len() && s[i] == x;
            assert(rest[i] == x);
        }
        if before.contains(x) {
            let i = choose|i: int| 0 <= i < before.len() && before[i] == x;
            assert(all[i] == x);
        }
        if all.contains(x) {
            let i = choose|i: int| 0 <= i < all.len() && all[i] == x;
            if i < before.len() {
                assert(before[i] == x);
            }
        }
        if x == s.last() && f(x) {
            assert(all[before.len() as int] == x);
        }
    }
}

proof fn lemma_letters(group: Seq<CellUpdateEntry>)
    ensures
        letters(group) matches Some(w) ==> w.len() == group.len() && forall|k: int|
            0 <= k < w.len() ==> group[k].ch == Some(#[trigger] w[k]),
        letters(group) is None ==> exists|k: int|
            0 <= k < group.len() && (#[trigger] group[k]).ch is None,
    decreases group.len(),
{
    if group.len() > 0 {
        let rest = group.drop_last();
        let n = group.len() - 1;
        lemma_letters(rest);
        assert(group[n] == group.last());
        if let Some(w) = letters(group) {
            assert forall|k: int| 0 <= k < w.len() implies group[k].ch == Some(#[trigger] w[k]) by {
                if k < n {
                    assert(rest[k] == group[k]);
                    assert(letters(rest)->0[k] == w[k]);
                }
            }
        } else if letters(rest) is None {
            let k = choose|k: int| 0 <= k < rest.len() && (#[trigger] rest[k]).ch is None;
            assert(group[k].ch is None);
        } else {
            assert(group[n].ch is None);
        }
    }
}

/// Cells are logged as a word just if they stand side by side in one row, from
/// left to right, and none was deleted; the word has their characters in order.
pub proof fn law_words_are_written_side_by_side(group: Seq<CellUpdateEntry>)
    ensures
        word_of_group(group) matches Some(w) ==> {
            &&& w.len() == group.len()
            &&& forall|k: int|
                0 <= k < group.len() ==> (#[trigger] group[k]).ch == Some(w[k]) && group[k].pos.y
                    == group[0].pos.y && group[k].pos.x == group[0].pos.x + k
        },
        (forall|k: int|
            0 <= k < group.len() ==> (#[trigger] group[k]).ch is Some && group[k].pos.y
                == group[0].pos.y && group[k].pos.x == group[0].pos.x + k) ==> word_of_group(
            group,
        ) is Some,
{
    lemma_letters(group);
    if let Some(w) = word_of_group(group) {
        assert forall|k: int| 0 <= k < group.len() implies (#[trigger] group[k]).ch == Some(w[k])
            && group[k].pos.y == group[0].pos.y && group[k].pos.x == group[0].pos.x + k by {
            assert(group[k].ch == Some(w[k]));
        }
    }
}

/// A line of the log is for a run of updates by one author, as long as there is.
pub proof fn law_runs_are_by_one_author(us: Seq<CellUpdateEntry>, i: int, j: int, k: int)
    requires
        0 <= i < j <= us.len(),
        forall|h: int| i <= h < j ==> (#[trigger] us[h]).author_id == us[i].author_id,
    ensures
        j <= run_end(us, i, j) <= us.len(),
        i <= k < run_end(us, i, j) ==> us[k].author_id == us[i].author_id,
        run_end(us, i, j) < us.len() ==> us[run_end(us, i, j)].author_id != us[i].author_id,
    decreases us.len() - j,
{
    if j < us.len() && us[j].author_id == us[i].author_id {
        law_runs_are_by_one_author(us, i, j + 1, k);
    }
}

/// The address of a visitor is what the first of the two headers says; where the
/// request does not have it, what the second says.
pub proof fn law_headers_are_read_in_turn(first: Header, second: Header, default: Seq<char>)
    ensures
        first matches Header::Text(s) ==> first.or_else(second).text_or(default) == s@,
        first is Unreadable ==> first.or_else(second).text_or(default) == default,
        first is Missing ==> (second matches Header::Text(s) ==> first.or_else(second).text_or(
            default,
        ) == s@),
        first is Missing && !(second is Text) ==> first.or_else(second).text_or(default) == default,
{
}

/// A fresh board is full: every place has a letter or a digit, in a color that is
/// neither dark nor bright, and nobody but the system wrote it.
pub proof fn law_fresh_board_is_full(
    before: AppState,
    after: AppState,
    p: WorldCoords,
    chunk: ChunkCoords,
    i: int,
)
    requires
        before.starts_fresh(after),
        is_place(p),
        numbered(p, chunk, i),
    ensures
        after.world@.contains_key((chunk, i)),
        ({
            let c = after.world@[(chunk, i)];
            let n = c.ch as u32;
            &&& 0x30 <= n <= 0x39 || 0x41 <= n <= 0x5a || 0x61 <= n <= 0x7a
            &&& 100 <= c.color.0 <= 200 && 100 <= c.color.1 <= 200 && 100 <= c.color.2 <= 200
            &&& c.author_id == 0
            &&& c.ts == 0
            &&& c.local.x == i % 64 && c.local.y == i / 64
        }),
        after.total_cells == 4096 * 4096,
{
    let c = after.world@[(chunk, i)];
    assert(after.world@.contains_key((chunk, i)));
    let n = c.ch as u32;
    assert(n < 128 ==> n as u8 == n) by (bit_vector);
    assert(c.ch as u8 == n as u8);
}

/// Who has just connected asks how things are, and tells what is in view and where
/// the cursor is.
pub proof fn law_editor_introduces_itself(v: EditorView, bounds: WorldRect)
    ensures
        ({
            let a = v.introduced(bounds);
            &&& a.net.is_conn
            &&& a.net.last_cursor_sent == Some(v.ui.cursor.pos)
            &&& a.board == v.board
            &&& a.net.pending == v.net.pending
            &&& messages(a.net.todo) == messages(v.net.todo).push(ClientMsgView::FetchStats).push(
                ClientMsgView::UpdateViewport(bounds),
            ).push(
                ClientMsgView::UpdateCursor { pos: v.ui.cursor.pos, color: v.ui.color },
            )
        }),
{
    let t = v.net.todo;
    let a = OrderView::Send(ClientMsgView::FetchStats);
    let b = OrderView::Send(ClientMsgView::UpdateViewport(bounds));
    lemma_ordered_messages(t, a);
    lemma_ordered_messages(t.push(a), b);
    lemma_ordered_messages(
        t.push(a).push(b),
        OrderView::Send(
            ClientMsgView::UpdateCursor { pos: v.ui.cursor.pos, color: v.ui.color },
        ),
    );
}

/// An editor that has lost the connection shows what it showed, keeps what it has
/// not sent, and connects again after three seconds, unless the server has put it
/// out.
pub proof fn law_lost_connection_is_tried_again(v: EditorView, c: ChunkCoords)
    ensures
        ({
            let a = v.disconnected();
            &&& !a.net.is_conn
            &&& a.net.last_cursor_sent is None
            &&& a.net.pending == v.net.pending
            &&& a.ui == v.ui
            &&& a.board.nodes.contains_key(c) == v.board.nodes.contains_key(c)
            &&& node_at(a.board.nodes, c).full == node_at(v.board.nodes, c).full
            &&& node_at(a.board.nodes, c).lod == node_at(v.board.nodes, c).lod
            &&& v.net.kicked ==> a.net.todo == v.net.todo
            &&& !v.net.kicked ==> a.net.todo.len() > v.net.todo.len() && a.net.todo.last()
                == OrderView::StartReconnectTimer(3000)
        }),
{
}

/// Who connects is told of every region: its corners, its label, and who owns it.
pub proof fn law_newcomers_are_told_of_all_regions(
    state: AppState,
    recs: Seq<RegionRecord>,
    id: u32,
    i: int,
)
    requires
        tells_regions(state, recs),
    ensures
        state.regions@.contains_key(id) ==> exists|k: int|
            0 <= k < recs.len() && (#[trigger] recs[k]).bounds == state.regions@[id].bounds
                && recs[k].id == state.regions@[id].id && recs[k].label@
                == state.regions@[id].label@ && recs[k].owner_id == state.regions@[id].owner_id
                && recs[k].owner@ == state.name_of(state.regions@[id].owner_id),
        0 <= i < recs.len() ==> exists|k: u32| #[trigger]
            state.regions@.contains_key(k) && recs[i].bounds == state.regions@[k].bounds
                && recs[i].id == state.regions@[k].id && recs[i].label@ == state.regions@[k].label@
                && recs[i].owner_id == state.regions@[k].owner_id,
{
    let rs = choose|rs: Seq<crate::model::StoredRegion>|
        {
            &&& #[trigger] crate::region::lists_regions(rs, state.regions@)
            &&& recs.len() == rs.len()
            &&& forall|j: int| 0 <= j < rs.len() ==> is_record(state, rs[j], #[trigger] recs[j])
        };
    let ks = choose|ks: Seq<u32>| #[trigger] lists_regions_as(rs, state.regions@, ks);
    if state.regions@.contains_key(id) {
        assert(ks.to_set().contains(id));
        let k = choose|k: int| 0 <= k < ks.len() && ks[k] == id;
        assert(rs[k] == state.regions@[id]);
        assert(is_record(state, rs[k], recs[k]));
    }
    if 0 <= i < recs.len() {
        assert(ks.to_set().contains(ks[i]));
        assert(state.regions@.contains_key(ks[i]));
        assert(rs[i] == state.regions@[ks[i]]);
        assert(is_record(state, rs[i], recs[i]));
    }
}

/// What is shown about a place tells of a region that it lies in, if there is one.
pub proof fn law_regions_are_shown_where_they_lie(
    b: BoardView,
    pos: WorldCoords,
    info: Option<RegionInfo>,
    id: u32,
)
    requires
        b.region_told(pos, info),
    ensures
        b.regions.contains_key(id) && within(b.regions[id].bounds, pos) ==> info is Some,
        info matches Some(i) ==> exists|k: u32| #[trigger]
            b.regions.contains_key(k) && within(b.regions[k].bounds, pos) && i.label@
                == b.regions[k].label@ && i.owner@ == b.regions[k].owner@,
{
}

proof fn lemma_moved_place(moved: Seq<(Widget, String, String)>, w: Widget, i: int)
    ensures
        0 <= i < moved.len() && moved[i].0 == w && (forall|j: int|
            i < j < moved.len() ==> (#[trigger] moved[j]).0 != w) ==> moved_place(moved, w) == Some(
            (moved[i].1, moved[i].2),
        ),
        (forall|j: int| 0 <= j < moved.len() ==> (#[trigger] moved[j]).0 != w) ==> moved_place(
            moved,
            w,
        ) is None,
    decreases moved.len(),
{
    if moved.len() > 0 {
        let rest = moved.drop_last();
        let n = moved.len() - 1;
        assert(moved[n] == moved.last());
        lemma_moved_place(rest, w, i);
        assert forall|j: int| 0 <= j < rest.len() implies rest[j] == moved[j] by {}
        if 0 <= i < n && forall|j: int| i < j < moved.len() ==> (#[trigger] moved[j]).0 != w {
            assert(moved[n].0 != w);
            assert forall|j: int| i < j < rest.len() implies (#[trigger] rest[j]).0 != w by {
                assert(moved[j].0 != w);
            }
        }
        if forall|j: int| 0 <= j < moved.len() ==> (#[trigger] moved[j]).0 != w {
            assert(moved[n].0 != w);
            assert forall|j: int| 0 <= j < rest.len() implies (#[trigger] rest[j]).0 != w by {
                assert(moved[j].0 != w);
            }
        }
    }
}

/// A panel that was moved is put where it was last moved to when the screen is set
/// up again, and shown if it was open; one that was not moved stays where it is.
pub proof fn law_panels_return_to_their_places(
    panels: Seq<SavedPanel>,
    steps: Seq<PanelStep>,
    open: Set<Widget>,
    moved: Seq<(Widget, String, String)>,
    k: int,
    w: Widget,
    i: int,
)
    requires
        0 <= k < panels.len(),
        keeps(panels[k], w, open, moved),
        steps_of(panels, steps),
    ensures
        steps.len() == panels.len(),
        steps[k].widget == w,
        steps[k].show == open.contains(w),
        0 <= i < moved.len() && moved[i].0 == w && (forall|j: int|
            i < j < moved.len() ==> (#[trigger] moved[j]).0 != w) && moved[i].1@.len() > 0
            ==> steps[k].move_to == Some((moved[i].1, moved[i].2)),
        (forall|j: int| 0 <= j < moved.len() ==> (#[trigger] moved[j]).0 != w)
            ==> steps[k].move_to is None,
{
    lemma_moved_place(moved, w, i);
    assert(steps[k] == (PanelStep {
        widget: panels[k].widget,
        move_to: panels[k].place(),
        show: panels[k].open,
    }));
}

} // verus!
