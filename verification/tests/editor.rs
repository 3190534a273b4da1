use std::collections::HashMap;

use walloftext::actions::{escape_template, text_in, Action};
use walloftext::chunks::{ChunkData, ChunkManager, FetchStatus, LodChunkData};
use walloftext::color::Rgb;
use walloftext::connection::Scene;
use walloftext::coords::{ChunkCoords, ChunkLocalCoords, WorldCoords, WorldRect};
use walloftext::editor::Editor;
use walloftext::fetch::{
    evict_unseen, flush_chunks, lod_step, queue_visible_chunks, visible_chunk_range,
};
use walloftext::fold::FoldHashMap;
use walloftext::link::detect_link;
use walloftext::msg::{
    CellUpdateEntry, ChunkCell, ClientMsg, LodCell, OnlineUser, RegionRecord, ServerMsg,
};
use walloftext::ui::{AuthState, CanvasCell, HoveredLink, NetState, Order, UNDO_LIMIT};

const GREEN: Rgb = Rgb(0, 255, 65);

fn pos(x: i16, y: i16) -> WorldCoords {
    WorldCoords { x, y }
}

fn canvas(ch: char) -> CanvasCell {
    CanvasCell { ch, color: GREEN, author_id: 7, ts: 1 }
}

fn welcome(e: &mut Editor, id: u32) {
    e.handle_server_msg(
        ServerMsg::Welcome {
            author_id: id,
            author: "ann".to_string(),
            anon_name: "anonymous#7".to_string(),
            session_token: "tok".to_string(),
        },
        0,
    );
}

fn sent(orders: Vec<Order>) -> Vec<ClientMsg> {
    orders
        .into_iter()
        .filter_map(|o| match o {
            Order::Send(m) => Some(m),
            _ => None,
        })
        .collect()
}

fn update(x: i16, y: i16, ch: Option<char>, author_id: u32) -> CellUpdateEntry {
    CellUpdateEntry { pos: pos(x, y), ch, color: GREEN, ts: 3, author_id }
}

fn read(e: &Editor, x: i16, y: i16) -> Option<char> {
    e.board.chunk_manager.get_cell(pos(x, y)).map(|c| c.ch)
}

#[test]
fn an_editor_starts_at_the_origin() {
    let e = Editor::new(GREEN);
    assert_eq!(e.ui.color, GREEN);
    assert_eq!(e.ui.cursor.pos, pos(0, 0));
    assert_eq!(e.ui.cursor.type_start_x, 0);
    assert!(!e.ui.cursor.sel.active && !e.ui.cursor.sel.drag);
    assert_eq!((e.ui.cursor.sel.span.a, e.ui.cursor.sel.span.b), (pos(0, 0), pos(0, 0)));
    assert_eq!((e.ui.my_id, e.ui.my_author.as_str()), (0, "anon"));
    assert_eq!(e.ui.my_anon_name, "anon");
    assert!(matches!(e.ui.auth, AuthState::Anonymous));
    assert!(e.ui.undo_stack.is_empty() && e.ui.undo_batch.is_none());
    assert!(e.ui.bookmarks.is_empty());
    assert!(e.canvas_dirty && !e.raf_pending);
}

#[test]
fn typing_writes_and_moves_on() {
    let mut e = Editor::new(GREEN);
    for c in ['h', 'i', ' '] {
        e.dispatch(Action::TypeChar(c), 5);
    }
    assert_eq!(read(&e, 0, 0), Some('h'));
    assert_eq!(read(&e, 1, 0), Some('i'));
    assert_eq!(read(&e, 2, 0), None);
    assert_eq!(e.ui.cursor.pos, pos(3, 0));
    e.net.take_orders();
    e.flush_pending_sets();
    let msgs = sent(e.net.take_orders());
    assert_eq!(msgs.len(), 1);
    match &msgs[0] {
        ClientMsg::SetCellBatch { cells, commit } => {
            assert!(*commit);
            assert_eq!(cells.len(), 3);
            assert_eq!(cells[0].ch, Some('h'));
            assert_eq!(cells[2].ch, None);
        }
        _ => panic!("not a batch"),
    }
    e.flush_pending_sets();
    assert!(sent(e.net.take_orders()).is_empty());
}

#[test]
fn undoing_takes_one_write_back_at_a_time() {
    let mut e = Editor::new(GREEN);
    e.dispatch(Action::TypeChar('a'), 1);
    e.dispatch(Action::TypeChar('b'), 2);
    e.dispatch(Action::Undo, 3);
    assert_eq!(read(&e, 0, 0), Some('a'));
    assert_eq!(read(&e, 1, 0), None);
    e.dispatch(Action::Undo, 4);
    assert_eq!(read(&e, 0, 0), None);
    e.dispatch(Action::Undo, 5);
    assert_eq!(read(&e, 0, 0), None);
}

#[test]
fn undoing_a_step_tells_its_places_once_the_last_one_first() {
    let mut e = Editor::new(GREEN);
    e.write_cell(pos(1, 1), Some(canvas('o')));
    let steps = e.ui.undo_stack.len();
    e.ui.begin_undo_batch();
    e.write_cell(pos(1, 1), Some(canvas('a')));
    e.write_cell(pos(2, 1), Some(canvas('b')));
    e.write_cell(pos(1, 1), None);
    e.ui.end_undo_batch();
    assert_eq!(e.ui.undo_stack.len(), steps + 1);
    e.net.take_orders();
    e.undo();
    assert_eq!(read(&e, 1, 1), Some('o'));
    assert_eq!(read(&e, 2, 1), None);
    assert_eq!(e.ui.undo_stack.len(), steps);
    let told = sent(e.net.take_orders());
    assert_eq!(told.len(), 1);
    let ClientMsg::RestoreCellBatch { cells } = &told[0] else { panic!("not an undo") };
    let places: Vec<WorldCoords> = cells.iter().map(|c| c.pos).collect();
    assert_eq!(places, vec![pos(1, 1), pos(2, 1), pos(1, 1)]);
}

#[test]
fn undoing_nothing_changes_and_tells_nothing() {
    let mut e = Editor::new(GREEN);
    e.undo();
    assert!(e.net.take_orders().is_empty());
    assert!(e.ui.undo_stack.is_empty());
}

#[test]
fn what_can_be_undone_is_bounded() {
    let mut e = Editor::new(GREEN);
    for _ in 0..(UNDO_LIMIT + 20) {
        e.dispatch(Action::JumpCursor { pos: pos(0, 0) }, 0);
        e.dispatch(Action::TypeChar('x'), 0);
    }
    assert!(e.ui.undo_stack.len() <= UNDO_LIMIT);
}

#[test]
fn pasting_is_one_step() {
    let mut e = Editor::new(GREEN);
    e.dispatch(Action::JumpCursor { pos: pos(10, 10) }, 0);
    e.dispatch(Action::PasteText("ab\r\ncd\n".to_string()), 1);
    assert_eq!(read(&e, 10, 10), Some('a'));
    assert_eq!(read(&e, 11, 10), Some('b'));
    assert_eq!(read(&e, 10, 11), Some('c'));
    assert_eq!(read(&e, 11, 11), Some('d'));
    e.dispatch(Action::Undo, 2);
    for p in [(10, 10), (11, 10), (10, 11), (11, 11)] {
        assert_eq!(read(&e, p.0, p.1), None);
    }
}

#[test]
fn copying_takes_the_marked_text() {
    let mut e = Editor::new(GREEN);
    e.dispatch(Action::PasteText("ab\ncd".to_string()), 1);
    let r = WorldRect { a: pos(0, 0), b: pos(2, 1) };
    assert_eq!(text_in(&e.board.chunk_manager, &r), "ab \ncd ");
    assert_eq!(escape_template("a`b${c}\\"), "a\\`b\\${c}\\\\");
    assert_eq!(escape_template("plain"), "plain");
}

#[test]
fn deleting_goes_back_and_forth() {
    let mut e = Editor::new(GREEN);
    e.dispatch(Action::TypeChar('a'), 1);
    e.dispatch(Action::DeleteBackward, 2);
    assert_eq!(read(&e, 0, 0), None);
    assert_eq!(e.ui.cursor.pos, pos(0, 0));
    e.dispatch(Action::TypeChar('b'), 3);
    e.dispatch(Action::JumpCursor { pos: pos(0, 0) }, 4);
    e.dispatch(Action::DeleteForward, 5);
    assert_eq!(read(&e, 0, 0), None);
}

#[test]
fn marking_stretches_from_where_it_began() {
    let mut e = Editor::new(GREEN);
    e.dispatch(Action::JumpCursor { pos: pos(5, 5) }, 0);
    e.dispatch(Action::SelectExtendBy { dx: 2, dy: -1 }, 0);
    let r = e.ui.cursor.sel.rect();
    assert_eq!((r.a, r.b), (pos(5, 4), pos(7, 5)));
    assert_eq!(
        e.sel_info().unwrap(),
        "(5,4)->(7,5) 3x2  [Ctrl+P=protect | Ctrl+C=copy]"
    );
    e.dispatch(Action::SelectClear, 0);
    assert!(e.sel_info().is_none());
}

#[test]
fn an_update_shows_and_a_refusal_is_taken_back() {
    let mut e = Editor::new(GREEN);
    welcome(&mut e, 7);
    e.handle_server_msg(
        ServerMsg::CellUpdateBatch {
            updates: vec![update(3, 3, Some('z'), 9)],
            authors: vec![(9, "ben".to_string())],
        },
        0,
    );
    assert_eq!(read(&e, 3, 3), Some('z'));
    assert_eq!(e.board.author_name(9), "ben");
    e.dispatch(Action::JumpCursor { pos: pos(3, 3) }, 1);
    e.dispatch(Action::TypeChar('q'), 2);
    assert_eq!(read(&e, 3, 3), Some('q'));
    e.handle_server_msg(
        ServerMsg::Denied { pos: pos(3, 3), reason: "protected".to_string() },
        50,
    );
    assert_eq!(read(&e, 3, 3), Some('z'));
    assert_eq!(e.board.live_flashes(49), vec![pos(3, 3)]);
    assert!(e.board.live_flashes(50).is_empty());
    e.drop_flashes(60);
    assert!(e.board.live_flashes(0).is_empty());
}

#[test]
fn chunks_arrive_and_are_read() {
    let mut e = Editor::new(GREEN);
    let cells = vec![ChunkCell {
        local: ChunkLocalCoords { x: 1, y: 2 },
        ch: 'k',
        color: GREEN,
        ts: 5,
        author_id: 4,
    }];
    let mut authors = HashMap::new();
    authors.insert(4, "cyd".to_string());
    e.handle_server_msg(
        ServerMsg::ChunkDataBatch { chunks: vec![(ChunkCoords { x: -1, y: 0 }, cells)], authors },
        0,
    );
    assert_eq!(read(&e, -63, 2), Some('k'));
    assert_eq!(e.board.author_name(4), "cyd");
    let p = e.board.popup_at(pos(-63, 2), &None);
    let c = p.cell.unwrap();
    assert_eq!((c.ch, c.author.as_str(), c.ts), ('k', "cyd", 5));
}

#[test]
fn colors_from_afar_arrive() {
    let mut e = Editor::new(GREEN);
    let bounds = WorldRect { a: pos(0, 0), b: pos(63, 15) };
    queue_visible_chunks(&mut e.board.chunk_manager, true, (0, 0), (0, 0), 4, false);
    flush_chunks(&mut e.board.chunk_manager, &mut e.net, 10, &|_: ChunkCoords| 0);
    match &sent(e.net.take_orders())[0] {
        ClientMsg::FetchLodBatch { entries } => {
            assert_eq!(entries, &vec![(ChunkCoords { x: 0, y: 0 }, 4)]);
        }
        _ => panic!("not a question"),
    }
    e.handle_server_msg(
        ServerMsg::LodDataBatch {
            entries: vec![(
                ChunkCoords { x: 0, y: 0 },
                4,
                vec![LodCell { local: ChunkLocalCoords { x: 4, y: 4 }, color: Rgb(1, 1, 1) }],
            )],
        },
        0,
    );
    let dots = walloftext::scene::lod_dots(&e.board.chunk_manager, &bounds, 4);
    assert_eq!(dots.len(), 1);
    assert_eq!(dots[0].pos, pos(4, 4));
    assert_eq!(dots[0].color, Rgb(1, 1, 1));
}

#[test]
fn people_and_regions_are_listed() {
    let mut e = Editor::new(GREEN);
    welcome(&mut e, 7);
    e.handle_server_msg(
        ServerMsg::OnlineList {
            users: vec![OnlineUser {
                user_id: 9,
                name: "ben".to_string(),
                color: GREEN,
                pos: Some(pos(1, 1)),
            }],
        },
        0,
    );
    let rows = e.online_rows();
    assert_eq!(rows.len(), 1);
    assert_eq!(rows[0].name, "ben");
    let rec = |id: u32, owner_id: u32, owner: &str| RegionRecord {
        id,
        bounds: WorldRect { a: pos(0, 0), b: pos(4, 1) },
        label: "l".to_string(),
        owner_id,
        owner: owner.to_string(),
    };
    e.handle_server_msg(ServerMsg::RegionData(vec![rec(1, 7, "ann"), rec(2, 9, "ben")]), 0);
    let (mine, others) = e.region_rows();
    assert_eq!(mine.iter().map(|r| r.id).collect::<Vec<_>>(), vec![1]);
    assert_eq!(others.iter().map(|r| r.id).collect::<Vec<_>>(), vec![2]);
    e.handle_server_msg(ServerMsg::RegionRemoved { id: 1 }, 0);
    assert!(e.region_rows().0.is_empty());
    let p = e.board.popup_at(pos(2, 1), &None);
    let r = p.region.unwrap();
    assert_eq!((r.size.as_str(), r.bounds.as_str()), ("5x2", "(0,0)->(4,1)"));
}

#[test]
fn being_kicked_ends_it() {
    let mut e = Editor::new(GREEN);
    e.handle_server_msg(ServerMsg::Kicked, 0);
    assert!(e.net.kicked);
    e.net.take_orders();
    e.on_close();
    assert!(!e
        .net
        .take_orders()
        .iter()
        .any(|o| matches!(o, Order::StartReconnectTimer(_))));
}

#[test]
fn losing_the_connection_asks_again() {
    let mut e = Editor::new(GREEN);
    let scene = Scene {
        bounds: WorldRect { a: pos(0, 0), b: pos(10, 10) },
        cols: (0, 1),
        rows: (0, 0),
        step: 1,
        is_glyph: true,
    };
    let near = |c: ChunkCoords| (c.x as i64).unsigned_abs();
    e.on_open(&scene, &near);
    assert!(e.net.is_conn);
    let asked = |msgs: Vec<ClientMsg>| {
        msgs.into_iter()
            .filter_map(|m| match m {
                ClientMsg::FetchChunkBatch { chunks } => Some(chunks),
                _ => None,
            })
            .flatten()
            .collect::<Vec<_>>()
    };
    let mut first = asked(sent(e.net.take_orders()));
    first.sort_by_key(|c| c.x);
    assert_eq!(first, vec![ChunkCoords { x: 0, y: 0 }, ChunkCoords { x: 1, y: 0 }]);
    e.refresh(&scene, &near);
    assert!(asked(sent(e.net.take_orders())).is_empty());
    e.on_close();
    assert!(!e.net.is_conn);
    e.net.take_orders();
    e.on_open(&scene, &near);
    assert_eq!(asked(sent(e.net.take_orders())).len(), 2);
}

#[test]
fn occupied_places_of_a_chunk_are_kept_apart() {
    let mut d = ChunkData::new_empty();
    assert!(d.get(0).is_none());
    d.put(1023, canvas('e'));
    d.put(64, canvas('f'));
    assert!(d.is_occupied(1023));
    assert!(d.is_occupied(64));
    assert!(!d.is_occupied(65));
    assert_eq!(d.get(1023), Some(canvas('e')));
    d.clear(1023);
    assert!(!d.is_occupied(1023));
    assert_eq!(d.get(64), Some(canvas('f')));
    d.set_occupied(64, false);
    assert!(d.get(64).is_none());
    let mut l = LodChunkData::new_empty();
    l.put(5, GREEN);
    assert!(l.is_occupied(5));
    assert!(!l.is_occupied(4));
}

#[test]
fn a_cell_reads_back_from_its_chunk() {
    let mut m = ChunkManager::new();
    assert!(m.get_cell(pos(-1, -1)).is_none());
    m.set_cell(pos(-1, -1), Some(canvas('x')));
    assert_eq!(m.get_cell(pos(-1, -1)), Some(canvas('x')));
    assert!(m.get_cell(pos(-2, -1)).is_none());
    m.set_cell(pos(-1, -1), None);
    assert!(m.get_cell(pos(-1, -1)).is_none());
    assert_eq!(ChunkManager::coords(pos(65, 17)), (ChunkCoords { x: 1, y: 1 }, 65));
}

#[test]
fn maps_keep_what_they_are_given() {
    let mut m: FoldHashMap<WorldCoords, char> = FoldHashMap::new();
    assert!(m.insert(pos(1, 2), 'a').is_none());
    assert_eq!(m.insert(pos(1, 2), 'b'), Some('a'));
    assert!(m.insert(pos(2, 1), 'c').is_none());
    assert_eq!(m.get(&pos(1, 2)), Some(&'b'));
    *m.get_mut(&pos(1, 2)).unwrap() = 'd';
    assert_eq!(m.get(&pos(1, 2)), Some(&'d'));
    assert!(m.get_mut(&pos(9, 9)).is_none());
    let mut keys = m.keys();
    keys.sort_by_key(|k| k.x);
    assert_eq!(keys, vec![pos(1, 2), pos(2, 1)]);
    assert_eq!(m.remove(&pos(1, 2)), Some('d'));
    assert!(!m.contains_key(&pos(1, 2)));
    m.clear();
    assert!(m.keys().is_empty());
}

#[test]
fn the_nearest_chunks_are_asked_for_first_and_once() {
    let mut board = ChunkManager::new();
    let mut net = NetState::new();
    queue_visible_chunks(&mut board, true, (-2, 2), (0, 0), 1, true);
    let dist = |c: ChunkCoords| (c.x as i64 - 1).unsigned_abs();
    flush_chunks(&mut board, &mut net, 2, &dist);
    let msgs = sent(net.take_orders());
    assert_eq!(msgs.len(), 1);
    match &msgs[0] {
        ClientMsg::FetchChunkBatch { chunks } => {
            assert_eq!(chunks.len(), 2);
            assert_eq!(chunks[0], ChunkCoords { x: 1, y: 0 });
        }
        _ => panic!("not a question"),
    }
    flush_chunks(&mut board, &mut net, 10, &dist);
    match &sent(net.take_orders())[0] {
        ClientMsg::FetchChunkBatch { chunks } => assert_eq!(chunks.len(), 3),
        _ => panic!("not a question"),
    }
    flush_chunks(&mut board, &mut net, 10, &dist);
    assert!(sent(net.take_orders()).is_empty());
    board.on_disconnect();
    flush_chunks(&mut board, &mut net, 10, &dist);
    assert_eq!(sent(net.take_orders()).len(), 1);
}

#[test]
fn chunks_out_of_sight_are_forgotten() {
    let mut board = ChunkManager::new();
    board.on_chunk_received(ChunkCoords { x: 0, y: 0 }, ChunkData::new_empty());
    board.on_chunk_received(ChunkCoords { x: 9, y: 9 }, ChunkData::new_empty());
    assert!(matches!(board.get_node_mut(ChunkCoords { x: 9, y: 9 }).full_status, FetchStatus::Loaded));
    evict_unseen(&mut board, 5, (-1, 1), (-1, 1));
    assert!(matches!(board.get_node_mut(ChunkCoords { x: 0, y: 0 }).full_status, FetchStatus::Loaded));
    assert!(matches!(board.get_node_mut(ChunkCoords { x: 9, y: 9 }).full_status, FetchStatus::Unasked));
}

#[test]
fn the_steps_of_a_far_view_are_powers_of_two() {
    assert_eq!(lod_step(1), 1);
    assert_eq!(lod_step(3), 4);
    assert_eq!(lod_step(128), 128);
    let bounds = WorldRect { a: pos(0, 0), b: pos(63, 15) };
    let (cols, rows, step, glyph) = visible_chunk_range(&bounds, 1, true);
    assert!(cols.0 <= 0 && cols.1 >= 0 && rows.0 <= 0 && rows.1 >= 0);
    assert_eq!(step, 1);
    assert!(glyph);
}

#[test]
fn words_that_lead_somewhere_are_links() {
    let mut e = Editor::new(GREEN);
    e.dispatch(Action::PasteText("see https://a.b now".to_string()), 0);
    let l = detect_link(&e.board.chunk_manager, pos(8, 0));
    assert!(matches!(l, Some(HoveredLink::Url(u)) if u == "https://a.b"));
    assert!(detect_link(&e.board.chunk_manager, pos(1, 0)).is_none());
    e.dispatch(Action::JumpCursor { pos: pos(0, 5) }, 0);
    e.dispatch(Action::PasteText("#12,-34 #9999,0".to_string()), 0);
    let l = detect_link(&e.board.chunk_manager, pos(3, 5));
    assert!(matches!(l, Some(HoveredLink::Coord(p)) if p == pos(12, -34)));
    assert!(detect_link(&e.board.chunk_manager, pos(10, 5)).is_none());
    welcome(&mut e, 7);
    e.dispatch(Action::JumpCursor { pos: pos(0, 9) }, 0);
    e.dispatch(Action::PasteText("https://a.b".to_string()), 0);
    assert!(detect_link(&e.board.chunk_manager, pos(2, 9)).is_none());
}
