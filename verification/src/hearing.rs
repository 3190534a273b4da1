//! What holds of an editor that hears from the server: it shows what it is told,
//! where it is told, and nothing else changes.

use vstd::prelude::*;

use crate::chunks::{cell_at, lemma_place_reads_back, node_at, nodes_wf, FetchStatus};
use crate::client::{dots_of, lod_cells_valid, regions_by_id, steps_without_denied, without_denied};
use crate::color::Rgb;
use crate::coords::{law_chunk_injective, ChunkCoords, WorldCoords};
use crate::editor::{chunks_of, lemma_rebuilt_keeps, EditorView};
use crate::msg::{CellUpdateEntry, LodCell, OnlineUser, RegionRecord, ServerMsg};
use crate::typing::is_place;
use crate::ui::{AuthView, CanvasCell, UndoEntry};

verus! {

proof fn lemma_same_slot(p: WorldCoords, q: WorldCoords)
    requires
        is_place(p),
        is_place(q),
        p.chunk() == q.chunk(),
        p.local() == q.local(),
    ensures
        p == q,
{
    law_chunk_injective(p, q);
}

proof fn lemma_logged_keeps(v: EditorView, us: Seq<CellUpdateEntry>, i: int)
    ensures
        v.updates_logged(us, i).board == v.board,
        v.updates_logged(us, i).ui == v.ui,
        v.updates_logged(us, i).net.pending == v.net.pending,
    decreases us.len() - i,
{
    if 0 <= i < us.len() {
        let j = crate::logbook::run_end(us, i, i + 1);
        if i < j <= us.len() {
            lemma_logged_keeps(v.group_logged(us.subrange(i, j)), us, j);
        }
    }
}

/// The editor shows what the update says.
pub open spec fn shows_update(v: EditorView, u: CellUpdateEntry) -> bool {
    let shown = cell_at(v.board.nodes, u.pos);
    &&& shown is Some <==> u.ch is Some
    &&& shown is Some ==> shown->0.ch == u.ch->0 && shown->0.color == u.color
        && shown->0.author_id == u.author_id && shown->0.ts == u.ts
}

proof fn lemma_all_updated(v: EditorView, us: Seq<CellUpdateEntry>, p: WorldCoords, k: int)
    requires
        nodes_wf(v.board.nodes),
        is_place(p),
        forall|j: int| 0 <= j < us.len() ==> is_place((#[trigger] us[j]).pos),
    ensures
        ({
            let a = v.all_updated(us);
            &&& nodes_wf(a.board.nodes)
            &&& a.ui == v.ui
            &&& a.net == v.net
            &&& a.board.author_names == v.board.author_names
            &&& (forall|j: int| 0 <= j < us.len() ==> (#[trigger] us[j]).pos != p) ==> cell_at(
                a.board.nodes,
                p,
            ) == cell_at(v.board.nodes, p)
            &&& 0 <= k < us.len() && us[k].pos == p && (forall|j: int|
                k < j < us.len() ==> (#[trigger] us[j]).pos != p) ==> shows_update(a, us[k])
                && !a.board.prev_cells.contains_key(p)
        }),
    decreases us.len(),
{
    if us.len() > 0 {
        let n = us.len() - 1;
        let rest = us.drop_last();
        let u = us.last();
        assert forall|j: int| 0 <= j < rest.len() implies is_place((#[trigger] rest[j]).pos) by {
            assert(rest[j] == us[j]);
        }
        lemma_all_updated(v, rest, p, k);
        let b = v.all_updated(rest);
        let cell = match u.ch {
            Some(ch) => Some(CanvasCell { ch, color: u.color, author_id: u.author_id, ts: u.ts }),
            None => None,
        };
        assert(us[n] == u);
        lemma_place_reads_back(b.board.nodes, u.pos, cell, p);
        if u.pos.chunk() == p.chunk() && u.pos.local() == p.local() {
            lemma_same_slot(u.pos, p);
        }
        if forall|j: int| 0 <= j < us.len() ==> (#[trigger] us[j]).pos != p {
            assert forall|j: int| 0 <= j < rest.len() implies (#[trigger] rest[j]).pos != p by {
                assert(rest[j] == us[j]);
            }
        }
        if 0 <= k < n && forall|j: int| k < j < us.len() ==> (#[trigger] us[j]).pos != p {
            assert(us[n].pos != p);
            assert forall|j: int| k < j < rest.len() implies (#[trigger] rest[j]).pos != p by {
                assert(rest[j] == us[j]);
            }
        }
    }
}

proof fn lemma_all_named(v: EditorView, names: Seq<(u32, String)>, id: u32)
    ensures
        ({
            let a = v.all_named(names);
            &&& a.board.nodes == v.board.nodes
            &&& a.board.prev_cells == v.board.prev_cells
            &&& a.ui == v.ui
            &&& a.net == v.net
            &&& (forall|j: int| 0 <= j < names.len() ==> (#[trigger] names[j]).0 != id)
                ==> a.board.author_names.contains_key(id) == v.board.author_names.contains_key(id)
                && a.board.author_names[id] == v.board.author_names[id]
            &&& forall|j: int|
                0 <= j < names.len() && (#[trigger] names[j]).0 == id && (forall|h: int|
                    j < h < names.len() ==> (#[trigger] names[h]).0 != id)
                    ==> a.board.author_names.contains_key(id) && a.board.author_names[id]
                    == names[j].1@
        }),
    decreases names.len(),
{
    if names.len() > 0 {
        let rest = names.drop_last();
        lemma_all_named(v, rest, id);
        let n = names.len() - 1;
        if forall|j: int| 0 <= j < names.len() ==> (#[trigger] names[j]).0 != id {
            assert(names[n].0 != id);
            assert forall|j: int| 0 <= j < rest.len() implies (#[trigger] rest[j]).0 != id by {
                assert(rest[j] == names[j]);
            }
        }
        let a = v.all_named(names);
        assert forall|j: int|
            0 <= j < names.len() && (#[trigger] names[j]).0 == id && (forall|h: int|
                j < h < names.len() ==> (#[trigger] names[h]).0 != id) implies a.board.author_names.contains_key(
            id,
        ) && a.board.author_names[id] == names[j].1@ by {
            if j < n {
                assert(names[n].0 != id);
                assert(rest[j] == names[j]);
                assert forall|h: int| j < h < rest.len() implies (#[trigger] rest[h]).0 != id by {
                    assert(rest[h] == names[h]);
                }
            }
        }
    }
}

/// What somebody wrote is shown where they wrote it: the last that the editor is
/// told of a place is what stands there, with who wrote it and when, and no
/// refusal takes it away. Places that it is not told of stay as they are.
pub proof fn law_what_others_write_is_shown(
    v: EditorView,
    us: Vec<CellUpdateEntry>,
    names: Vec<(u32, String)>,
    until: u64,
    p: WorldCoords,
    k: int,
    id: u32,
)
    requires
        nodes_wf(v.board.nodes),
        is_place(p),
        forall|j: int| 0 <= j < us@.len() ==> is_place((#[trigger] us@[j]).pos),
    ensures
        ({
            let a = v.received(
                ServerMsg::CellUpdateBatch { updates: us, authors: names },
                until,
            );
            &&& (forall|j: int| 0 <= j < us@.len() ==> (#[trigger] us@[j]).pos != p) ==> cell_at(
                a.board.nodes,
                p,
            ) == cell_at(v.board.nodes, p)
            &&& 0 <= k < us@.len() && us@[k].pos == p && (forall|j: int|
                k < j < us@.len() ==> (#[trigger] us@[j]).pos != p) ==> shows_update(a, us@[k])
                && !a.board.prev_cells.contains_key(p)
            &&& forall|j: int|
                0 <= j < names@.len() && (#[trigger] names@[j]).0 == id && (forall|h: int|
                    j < h < names@.len() ==> (#[trigger] names@[h]).0 != id)
                    ==> a.board.author_names.contains_key(id) && a.board.author_names[id]
                    == names@[j].1@
            &&& a.ui == v.ui
            &&& a.net.pending == v.net.pending
        }),
{
    let n = v.all_named(names@);
    lemma_all_named(v, names@, id);
    lemma_all_updated(n, us@, p, k);
    let b = n.all_updated(us@);
    let chunks = chunks_of(crate::client::places_of(us@));
    lemma_rebuilt_keeps(b, chunks);
    lemma_rebuilt_pending(b, chunks);
    lemma_logged_keeps(b.rebuilt(chunks), us@, 0);
}

proof fn lemma_rebuilt_pending(v: EditorView, chunks: Seq<ChunkCoords>)
    ensures
        v.rebuilt(chunks).net.pending == v.net.pending,
    decreases chunks.len(),
{
    if chunks.len() > 0 {
        lemma_rebuilt_pending(v, chunks.drop_last());
    }
}

/// The same of one cell alone.
pub proof fn law_what_somebody_writes_is_shown(
    v: EditorView,
    u: CellUpdateEntry,
    author: String,
    until: u64,
    p: WorldCoords,
)
    requires
        nodes_wf(v.board.nodes),
        is_place(p),
        is_place(u.pos),
    ensures
        ({
            let a = v.received(ServerMsg::CellUpdate { entry: u, author }, until);
            &&& shows_update(a, u)
            &&& !a.board.prev_cells.contains_key(u.pos)
            &&& p != u.pos ==> cell_at(a.board.nodes, p) == cell_at(v.board.nodes, p)
            &&& a.board.author_names.contains_key(u.author_id)
            &&& a.board.author_names[u.author_id] == author@
            &&& a.ui == v.ui
            &&& a.net.pending == v.net.pending
        }),
{
    let n = v.named(u.author_id, author@);
    lemma_all_updated(n, seq![u], p, -1);
    lemma_all_updated(n, seq![u], u.pos, 0);
    assert(seq![u].drop_last() =~= Seq::<CellUpdateEntry>::empty());
    assert(n.all_updated(seq![u].drop_last()) == n);
    assert(n.all_updated(seq![u]) == n.updated(u));
    if p != u.pos {
        assert forall|j: int| 0 <= j < seq![u].len() implies (#[trigger] seq![u][j]).pos != p by {}
    }
    let o = n.updated(u).ordered(crate::ui::OrderView::RebuildChunk(u.pos.chunk()));
    lemma_logged_keeps(o, seq![u], 0);
}

proof fn lemma_all_denied(v: EditorView, ps: Seq<WorldCoords>, until: u64, p: WorldCoords)
    requires
        nodes_wf(v.board.nodes),
        is_place(p),
        forall|j: int| 0 <= j < ps.len() ==> is_place(#[trigger] ps[j]),
    ensures
        ({
            let a = v.all_denied(ps, until);
            &&& nodes_wf(a.board.nodes)
            &&& a.ui == v.ui
            &&& a.net == v.net
            &&& cell_at(a.board.nodes, p) == (if ps.contains(p) && v.board.prev_cells.contains_key(
                p,
            ) {
                v.board.prev_cells[p]
            } else {
                cell_at(v.board.nodes, p)
            })
            &&& a.board.prev_cells.contains_key(p) == (v.board.prev_cells.contains_key(p)
                && !ps.contains(p))
            &&& !ps.contains(p) ==> a.board.prev_cells[p] == v.board.prev_cells[p]
            &&& ps.contains(p) ==> a.board.flash_deny.contains_key(p) && a.board.flash_deny[p]
                == until
        }),
    decreases ps.len(),
{
    if ps.len() > 0 {
        let rest = ps.drop_last();
        let q = ps.last();
        let n = ps.len() - 1;
        assert forall|j: int| 0 <= j < rest.len() implies is_place(#[trigger] rest[j]) by {
            assert(rest[j] == ps[j]);
        }
        assert(ps[n] == q);
        lemma_all_denied(v, rest, until, p);
        lemma_all_denied(v, rest, until, q);
        let b = v.all_denied(rest, until);
        assert(ps.contains(p) <==> rest.contains(p) || p == q) by {
            if rest.contains(p) {
                let i = choose|i: int| 0 <= i < rest.len() && rest[i] == p;
                assert(ps[i] == p);
            }
            if ps.contains(p) && p != q {
                let i = choose|i: int| 0 <= i < ps.len() && ps[i] == p;
                assert(rest[i] == p);
            }
        }
        if b.board.prev_cells.contains_key(q) {
            lemma_place_reads_back(b.board.nodes, q, b.board.prev_cells[q], p);
            if q.chunk() == p.chunk() && q.local() == p.local() {
                lemma_same_slot(q, p);
            }
        }
    }
}

proof fn lemma_without_denied(step: Seq<UndoEntry>, ps: Seq<WorldCoords>)
    ensures
        forall|e: UndoEntry| #[trigger]
            without_denied(step, ps).contains(e) <==> step.contains(e) && !ps.contains(e.0),
    decreases step.len(),
{
    let r = without_denied(step, ps);
    if step.len() > 0 {
        let rest = step.drop_last();
        lemma_without_denied(rest, ps);
        let before = without_denied(rest, ps);
        assert forall|e: UndoEntry| #[trigger] r.contains(e) <==> step.contains(e) && !ps.contains(
            e.0,
        ) by {
            if r.contains(e) {
                let i = choose|i: int| 0 <= i < r.len() && r[i] == e;
                if i < before.len() {
                    assert(before[i] == e);
                    assert(before.contains(e));
                    let h = choose|h: int| 0 <= h < rest.len() && rest[h] == e;
                    assert(step[h] == e);
                } else {
                    assert(step[step.len() - 1] == e);
                }
            }
            if step.contains(e) && !ps.contains(e.0) {
                let h = choose|h: int| 0 <= h < step.len() && step[h] == e;
                if h < rest.len() {
                    assert(rest[h] == e);
                    assert(before.contains(e));
                    let i = choose|i: int| 0 <= i < before.len() && before[i] == e;
                    assert(r[i] == e);
                } else {
                    assert(r[r.len() - 1] == e);
                }
            }
        }
    }
}

/// There is a step of undoing with the entry in it.
pub open spec fn undoable(steps: Seq<Seq<UndoEntry>>, e: UndoEntry) -> bool {
    exists|i: int| 0 <= i < steps.len() && (#[trigger] steps[i]).contains(e)
}

proof fn lemma_steps_without_denied(steps: Seq<Seq<UndoEntry>>, ps: Seq<WorldCoords>, e: UndoEntry)
    ensures
        undoable(steps_without_denied(steps, ps), e) <==> undoable(steps, e) && !ps.contains(e.0),
    decreases steps.len(),
{
    let r = steps_without_denied(steps, ps);
    if steps.len() > 0 {
        let rest = steps.drop_last();
        lemma_steps_without_denied(rest, ps, e);
        lemma_without_denied(steps.last(), ps);
        let before = steps_without_denied(rest, ps);
        let step = without_denied(steps.last(), ps);
        let n = steps.len() - 1;
        if undoable(r, e) {
            let i = choose|i: int| 0 <= i < r.len() && (#[trigger] r[i]).contains(e);
            if i < before.len() {
                assert(before[i].contains(e));
                let h = choose|h: int| 0 <= h < rest.len() && (#[trigger] rest[h]).contains(e);
                assert(steps[h].contains(e));
            } else {
                assert(r[i] == step);
                assert(steps[n].contains(e));
            }
        }
        if undoable(steps, e) && !ps.contains(e.0) {
            let h = choose|h: int| 0 <= h < steps.len() && (#[trigger] steps[h]).contains(e);
            if h < n {
                assert(rest[h].contains(e));
                let i = choose|i: int| 0 <= i < before.len() && (#[trigger] before[i]).contains(e);
                assert(r[i].contains(e));
            } else {
                assert(step.contains(e));
                assert(r[r.len() - 1].contains(e));
            }
        }
    }
}

/// Where a write is refused, what stood there is shown again, and there is
/// nothing to undo about it; all other places, and what there is to undo about
/// them, stay as they are.
pub proof fn law_refused_places_show_what_they_held(
    v: EditorView,
    ps: Vec<WorldCoords>,
    reason: String,
    until: u64,
    p: WorldCoords,
    e: UndoEntry,
)
    requires
        nodes_wf(v.board.nodes),
        is_place(p),
        forall|j: int| 0 <= j < ps@.len() ==> is_place(#[trigger] ps@[j]),
    ensures
        ({
            let a = v.received(ServerMsg::DeniedBatch { positions: ps, reason }, until);
            &&& cell_at(a.board.nodes, p) == (if ps@.contains(p)
                && v.board.prev_cells.contains_key(p) {
                v.board.prev_cells[p]
            } else {
                cell_at(v.board.nodes, p)
            })
            &&& ps@.contains(p) ==> !a.board.prev_cells.contains_key(p)
                && a.board.flash_deny.contains_key(p) && a.board.flash_deny[p] == until
            &&& undoable(a.ui.steps, e) <==> undoable(v.ui.steps, e) && !ps@.contains(e.0)
            &&& a.ui.cursor == v.ui.cursor
            &&& a.net.pending == v.net.pending
        }),
{
    lemma_all_denied(v, ps@, until, p);
    lemma_steps_without_denied(v.ui.steps, ps@, e);
    let d = v.all_denied(ps@, until);
    let w = EditorView {
        ui: crate::ui::UiView { steps: steps_without_denied(d.ui.steps, ps@), ..d.ui },
        ..d
    };
    lemma_rebuilt_keeps(w, chunks_of(ps@));
    lemma_rebuilt_pending(w, chunks_of(ps@));
}

/// The same of one place alone.
pub proof fn law_refused_place_shows_what_it_held(
    v: EditorView,
    pos: WorldCoords,
    reason: String,
    until: u64,
    p: WorldCoords,
)
    requires
        nodes_wf(v.board.nodes),
        is_place(p),
        is_place(pos),
    ensures
        ({
            let a = v.received(ServerMsg::Denied { pos, reason }, until);
            &&& cell_at(a.board.nodes, p) == (if p == pos && v.board.prev_cells.contains_key(p) {
                v.board.prev_cells[p]
            } else {
                cell_at(v.board.nodes, p)
            })
            &&& !a.board.prev_cells.contains_key(pos)
            &&& a.ui == v.ui
            &&& a.net.pending == v.net.pending
        }),
{
    if v.board.prev_cells.contains_key(pos) {
        lemma_place_reads_back(v.board.nodes, pos, v.board.prev_cells[pos], p);
        if pos.chunk() == p.chunk() && pos.local() == p.local() {
            lemma_same_slot(pos, p);
        }
    }
}

/// The last of the list with that number.
pub open spec fn last_listed(users: Seq<OnlineUser>, id: u32, k: int) -> bool {
    &&& 0 <= k < users.len()
    &&& users[k].user_id == id
    &&& forall|j: int| k < j < users.len() ==> (#[trigger] users[j]).user_id != id
}

proof fn lemma_present(v: EditorView, users: Seq<OnlineUser>, id: u32, k: int)
    ensures
        ({
            let a = v.present(users);
            &&& a.board.nodes == v.board.nodes
            &&& a.ui == v.ui
            &&& (forall|j: int| 0 <= j < users.len() ==> (#[trigger] users[j]).user_id != id)
                ==> a.board.online_users.contains_key(id) == v.board.online_users.contains_key(id)
                && a.board.remote_cursors.contains_key(id) == v.board.remote_cursors.contains_key(
                id,
            )
            &&& last_listed(users, id, k) ==> {
                &&& a.board.online_users.contains_key(id)
                &&& a.board.online_users[id].0 == users[k].name@
                &&& a.board.online_users[id].1 == users[k].color
                &&& users[k].pos is Some ==> a.board.remote_cursors.contains_key(id)
                    && a.board.remote_cursors[id].0 == users[k].pos->0
                    && a.board.remote_cursors[id].1 == users[k].color
            }
            &&& (forall|j: int|
                0 <= j < users.len() && (#[trigger] users[j]).user_id == id ==> users[j].pos is None)
                ==> a.board.remote_cursors.contains_key(id) == v.board.remote_cursors.contains_key(
                id,
            )
        }),
    decreases users.len(),
{
    if users.len() > 0 {
        let rest = users.drop_last();
        let n = users.len() - 1;
        lemma_present(v, rest, id, k);
        assert(users[n] == users.last());
        assert forall|j: int| 0 <= j < rest.len() implies rest[j] == users[j] by {}
        if last_listed(users, id, k) && k < n {
            assert(users[n].user_id != id);
            assert(last_listed(rest, id, k));
        }
        if forall|j: int| 0 <= j < users.len() ==> (#[trigger] users[j]).user_id != id {
            assert forall|j: int| 0 <= j < rest.len() implies (#[trigger] rest[j]).user_id != id by {
                assert(users[j].user_id != id);
            }
        }
        if forall|j: int|
            0 <= j < users.len() && (#[trigger] users[j]).user_id == id ==> users[j].pos is None {
            assert forall|j: int|
                0 <= j < rest.len() && (#[trigger] rest[j]).user_id
                    == id implies rest[j].pos is None by {
                assert(users[j].pos is None);
            }
        }
    }
}

/// Those who are said to be there are shown to be there, each with name, color
/// and cursor, and nobody else.
pub proof fn law_those_who_are_there_are_shown(
    v: EditorView,
    users: Vec<OnlineUser>,
    until: u64,
    id: u32,
    k: int,
)
    ensures
        ({
            let a = v.received(ServerMsg::OnlineList { users }, until);
            &&& a.board.nodes == v.board.nodes
            &&& (forall|j: int| 0 <= j < users@.len() ==> (#[trigger] users@[j]).user_id != id)
                ==> !a.board.online_users.contains_key(id) && !a.board.remote_cursors.contains_key(
                id,
            )
            &&& last_listed(users@, id, k) ==> {
                &&& a.board.online_users.contains_key(id)
                &&& a.board.online_users[id].0 == users@[k].name@
                &&& a.board.online_users[id].1 == users@[k].color
                &&& users@[k].pos is Some ==> a.board.remote_cursors.contains_key(id)
                    && a.board.remote_cursors[id].0 == users@[k].pos->0
                    && a.board.remote_cursors[id].1 == users@[k].color
            }
        }),
{
    let e = v.with_board(
        crate::editor::BoardView {
            online_users: Map::empty(),
            remote_cursors: Map::empty(),
            ..v.board
        },
    );
    lemma_present(e, users@, id, k);
}

/// A cursor is shown where it is said to be until it is said to have left; the
/// others stay as they are.
pub proof fn law_cursors_come_and_go(
    v: EditorView,
    user_id: u32,
    name: String,
    pos: WorldCoords,
    color: Rgb,
    until: u64,
    other: u32,
)
    ensures
        ({
            let a = v.received(ServerMsg::CursorUpdate { user_id, name, pos, color }, until);
            let b = v.received(ServerMsg::CursorLeft { user_id }, until);
            &&& a.board.nodes == v.board.nodes && b.board.nodes == v.board.nodes
            &&& a.board.remote_cursors.contains_key(user_id)
            &&& a.board.remote_cursors[user_id].0 == pos
            &&& a.board.remote_cursors[user_id].1 == color
            &&& a.board.online_users.contains_key(user_id)
            &&& a.board.online_users[user_id].0 == name@
            &&& a.board.online_users[user_id].1 == color
            &&& a.board.author_names.contains_key(user_id)
            &&& a.board.author_names[user_id] == name@
            &&& !b.board.remote_cursors.contains_key(user_id)
            &&& !b.board.online_users.contains_key(user_id)
            &&& other != user_id ==> {
                &&& a.board.remote_cursors.contains_key(other)
                    == v.board.remote_cursors.contains_key(other)
                &&& a.board.remote_cursors[other] == v.board.remote_cursors[other]
                &&& b.board.remote_cursors.contains_key(other)
                    == v.board.remote_cursors.contains_key(other)
                &&& b.board.online_users.contains_key(other) == v.board.online_users.contains_key(
                    other,
                )
            }
        }),
{
}

proof fn lemma_regions_by_id(rs: Seq<RegionRecord>, id: u32, k: int)
    ensures
        (forall|j: int| 0 <= j < rs.len() ==> (#[trigger] rs[j]).id != id) ==> !regions_by_id(
            rs,
        ).contains_key(id),
        0 <= k < rs.len() && rs[k].id == id && (forall|j: int|
            k < j < rs.len() ==> (#[trigger] rs[j]).id != id) ==> regions_by_id(rs).contains_key(id)
            && regions_by_id(rs)[id] == rs[k],
    decreases rs.len(),
{
    if rs.len() > 0 {
        let rest = rs.drop_last();
        let n = rs.len() - 1;
        lemma_regions_by_id(rest, id, k);
        assert forall|j: int| 0 <= j < rest.len() implies rest[j] == rs[j] by {}
        assert(rs[n] == rs.last());
        if forall|j: int| 0 <= j < rs.len() ==> (#[trigger] rs[j]).id != id {
            assert(rs[n].id != id);
            assert forall|j: int| 0 <= j < rest.len() implies (#[trigger] rest[j]).id != id by {
                assert(rs[j].id != id);
            }
        }
        if 0 <= k < n && forall|j: int| k < j < rs.len() ==> (#[trigger] rs[j]).id != id {
            assert(rs[n].id != id);
            assert forall|j: int| k < j < rest.len() implies (#[trigger] rest[j]).id != id by {
                assert(rs[j].id != id);
            }
        }
    }
}

/// The regions that the editor knows are those that it is told of: all at once,
/// or one that comes or goes.
pub proof fn law_regions_are_those_told_of(
    v: EditorView,
    rs: Vec<RegionRecord>,
    r: RegionRecord,
    until: u64,
    id: u32,
    k: int,
)
    ensures
        ({
            let a = v.received(ServerMsg::RegionData(rs), until);
            let b = v.received(ServerMsg::RegionAdded(r), until);
            let c = v.received(ServerMsg::RegionRemoved { id: r.id }, until);
            &&& (forall|j: int| 0 <= j < rs@.len() ==> (#[trigger] rs@[j]).id != id)
                ==> !a.board.regions.contains_key(id)
            &&& 0 <= k < rs@.len() && rs@[k].id == id && (forall|j: int|
                k < j < rs@.len() ==> (#[trigger] rs@[j]).id != id) ==> a.board.regions.contains_key(
                id,
            ) && a.board.regions[id] == rs@[k]
            &&& b.board.regions.contains_key(r.id) && b.board.regions[r.id] == r
            &&& !c.board.regions.contains_key(r.id)
            &&& id != r.id ==> {
                &&& b.board.regions.contains_key(id) == v.board.regions.contains_key(id)
                &&& b.board.regions[id] == v.board.regions[id]
                &&& c.board.regions.contains_key(id) == v.board.regions.contains_key(id)
                &&& c.board.regions[id] == v.board.regions[id]
            }
            &&& a.board.nodes == v.board.nodes
            &&& b.board.nodes == v.board.nodes
            &&& c.board.nodes == v.board.nodes
        }),
{
    lemma_regions_by_id(rs@, id, k);
}

/// The editor knows who it is as it is told: by the greeting, and by logging in.
pub proof fn law_editor_is_who_it_is_told_to_be(
    v: EditorView,
    author_id: u32,
    author: String,
    anon_name: String,
    session_token: String,
    username: String,
    protected_cells: u32,
    until: u64,
)
    ensures
        ({
            let a = v.received(
                ServerMsg::Welcome { author_id, author, anon_name, session_token },
                until,
            );
            let b = v.received(ServerMsg::AuthOk { username, protected_cells }, until);
            &&& a.ui.my_id == author_id
            &&& a.ui.my_author == author@
            &&& a.ui.my_anon_name == anon_name@
            &&& author@ != anon_name@ ==> a.ui.auth == (AuthView::LoggedIn {
                username: author@,
                protected_cells: 0,
            })
            &&& a.board.author_names.contains_key(author_id)
            &&& a.board.author_names[author_id] == author@
            &&& a.net.todo.contains(crate::ui::OrderView::StoreToken(session_token@))
            &&& b.ui.my_id == v.ui.my_id
            &&& b.ui.my_author == username@
            &&& b.ui.auth == (AuthView::LoggedIn { username: username@, protected_cells })
            &&& b.board.author_names.contains_key(v.ui.my_id)
            &&& b.board.author_names[v.ui.my_id] == username@
            &&& a.board.nodes == v.board.nodes
            &&& b.board.nodes == v.board.nodes
        }),
{
    let a = v.received(ServerMsg::Welcome { author_id, author, anon_name, session_token }, until);
    let n = v.net.todo.len() as int;
    assert(a.net.todo[n] == crate::ui::OrderView::StoreToken(session_token@));
}

proof fn lemma_dots(cells: Seq<LodCell>, i: int, k: int)
    requires
        lod_cells_valid(cells),
        0 <= i < 1024,
    ensures
        dots_of(cells).len() == 1024,
        (forall|j: int| 0 <= j < cells.len() ==> 64 * (#[trigger] cells[j]).local.y + cells[j].local.x
            != i) ==> dots_of(cells)[i] is None,
        0 <= k < cells.len() && 64 * cells[k].local.y + cells[k].local.x == i && (forall|j: int|
            k < j < cells.len() ==> 64 * (#[trigger] cells[j]).local.y + cells[j].local.x != i)
            ==> dots_of(cells)[i] == Some(cells[k].color),
    decreases cells.len(),
{
    if cells.len() > 0 {
        let rest = cells.drop_last();
        let n = cells.len() - 1;
        assert forall|j: int| 0 <= j < rest.len() implies rest[j] == cells[j] by {}
        assert(lod_cells_valid(rest)) by {
            assert forall|j: int| 0 <= j < rest.len() implies (#[trigger] rest[j]).local.index()
                < 1024 by {
                assert(cells[j].local.index() < 1024);
            }
        }
        assert(cells[n].local.index() < 1024);
        lemma_dots(rest, i, k);
        if forall|j: int|
            0 <= j < cells.len() ==> 64 * (#[trigger] cells[j]).local.y + cells[j].local.x != i {
            assert(64 * cells[n].local.y + cells[n].local.x != i);
            assert forall|j: int| 0 <= j < rest.len() implies 64 * (#[trigger] rest[j]).local.y
                + rest[j].local.x != i by {
                assert(64 * cells[j].local.y + cells[j].local.x != i);
            }
        }
        if 0 <= k < n && forall|j: int|
            k < j < cells.len() ==> 64 * (#[trigger] cells[j]).local.y + cells[j].local.x != i {
            assert(64 * cells[n].local.y + cells[n].local.x != i);
            assert forall|j: int| k < j < rest.len() implies 64 * (#[trigger] rest[j]).local.y
                + rest[j].local.x != i by {
                assert(64 * cells[j].local.y + cells[j].local.x != i);
            }
        }
    }
}

/// What is told of a chunk as seen from afar is shown, if it was asked for: each
/// place in the color it is said to have, and no color where none is said.
pub proof fn law_colors_from_afar_are_shown(
    v: EditorView,
    chunk: ChunkCoords,
    step: u8,
    cells: Vec<LodCell>,
    entries: Vec<(ChunkCoords, u8, Vec<LodCell>)>,
    until: u64,
    i: int,
    k: int,
    other: ChunkCoords,
)
    requires
        entries@ == seq![(chunk, step, cells)],
        lod_cells_valid(cells@),
        0 <= i < 1024,
    ensures
        ({
            let a = v.received(ServerMsg::LodDataBatch { entries }, until);
            let node = node_at(v.board.nodes, chunk);
            let shown = node_at(a.board.nodes, chunk);
            let asked = node.lod_status == FetchStatus::InFlight && node.lod_step >= step;
            &&& shown.full == node.full
            &&& !asked ==> shown == node
            &&& asked ==> {
                &&& shown.lod is Some
                &&& shown.lod_step == step
                &&& shown.lod_status == FetchStatus::Loaded
                &&& (forall|j: int|
                    0 <= j < cells@.len() ==> 64 * (#[trigger] cells@[j]).local.y
                        + cells@[j].local.x != i) ==> (shown.lod->0)[i] is None
                &&& 0 <= k < cells@.len() && 64 * cells@[k].local.y + cells@[k].local.x == i && (
                forall|j: int|
                    k < j < cells@.len() ==> 64 * (#[trigger] cells@[j]).local.y
                        + cells@[j].local.x != i) ==> (shown.lod->0)[i] == Some(cells@[k].color)
            }
            &&& other != chunk ==> node_at(a.board.nodes, other) == node_at(v.board.nodes, other)
        }),
{
    lemma_dots(cells@, i, k);
    assert(entries@.last() == (chunk, step, cells));
    assert(entries@.drop_last() =~= Seq::<(ChunkCoords, u8, Vec<LodCell>)>::empty());
    assert(v.lods_taken(entries@.drop_last()) == v);
}

} // verus!
