use walloftext::actions::Action;
use walloftext::color::Rgb;
use walloftext::coords::{ChunkCoords, WorldCoords, WorldRect};
use walloftext::editor::Editor;
use walloftext::msg::{ClientMsg, FontAtlasFile};
use walloftext::panels::Widget;
use walloftext::scene::{
    build_chunk_buffer, draw_glyph_chunks, draw_lod_chunks, lod_dots, GlyphPlace,
};
use walloftext::ui::{CursorState, NetState, Order};

const GREEN: Rgb = Rgb(0, 255, 65);

fn pos(x: i16, y: i16) -> WorldCoords {
    WorldCoords { x, y }
}

fn font() -> FontAtlasFile {
    FontAtlasFile {
        atlas_w: 8,
        atlas_h: 8,
        cell_w: 4,
        cell_h: 8,
        codepoints: vec!['a' as u32, 'c' as u32],
        atlas_x: vec![1, 5],
        atlas_y: vec![2, 0],
        w: vec![3, 2],
        h: vec![4, 6],
        cell_off_x: vec![-1, 0],
        cell_off_y: vec![1, 2],
        pixels_1bit: vec![0; 8],
    }
}

fn typed(text: &str, at: WorldCoords) -> Editor {
    let mut e = Editor::new(GREEN);
    e.dispatch(Action::JumpCursor { pos: at }, 1);
    for c in text.chars() {
        e.dispatch(Action::TypeChar(c), 1);
    }
    e
}

#[test]
fn a_chunk_is_drawn_glyph_by_glyph() {
    let e = typed("cb", pos(-2, -1));
    let cells = build_chunk_buffer(&font(), &e.board.chunk_manager, ChunkCoords { x: -1, y: -1 });
    assert_eq!(cells.len(), 2);
    assert_eq!((cells[0].wx, cells[0].wy), (-2, -1));
    assert_eq!(cells[0].color, GREEN);
    let c = GlyphPlace { atlas_x: 5, atlas_y: 0, w: 2, h: 6, off_x: 0, off_y: 2 };
    assert_eq!(cells[0].glyph, Some(c));
    assert_eq!((cells[1].wx, cells[1].wy), (-1, -1));
    assert_eq!(cells[1].glyph, None);
    let empty = build_chunk_buffer(&font(), &e.board.chunk_manager, ChunkCoords { x: 5, y: 5 });
    assert!(empty.is_empty());
}

#[test]
fn the_chunks_in_view_are_drawn_row_by_row_and_noted() {
    let mut e = typed("a", pos(0, 0));
    let bounds = WorldRect { a: pos(-1, -1), b: pos(70, 0) };
    let chunks = draw_glyph_chunks(&mut e.board.chunk_manager, &bounds, 42);
    let at = |x: i8, y: i8| ChunkCoords { x, y };
    assert_eq!(chunks, vec![at(-1, -1), at(0, -1), at(1, -1), at(-1, 0), at(0, 0), at(1, 0)]);
    assert_eq!(e.board.chunk_manager.chunks.get(&at(0, 0)).unwrap().last_seen, 42);
}

#[test]
fn from_afar_every_so_many_cells_one_is_drawn() {
    let mut e = typed("abcde", pos(0, 0));
    let bounds = WorldRect { a: pos(0, 0), b: pos(20, 3) };
    let dots = draw_lod_chunks(&mut e.board.chunk_manager, &bounds, 2, 9);
    let places: Vec<WorldCoords> = dots.iter().map(|d| d.pos).collect();
    assert_eq!(places, vec![pos(0, 0), pos(2, 0), pos(4, 0)]);
    assert!(dots.iter().all(|d| d.color == GREEN));
    assert_eq!(lod_dots(&e.board.chunk_manager, &bounds, 4).len(), 2);
    let seen = e.board.chunk_manager.chunks.get(&ChunkCoords { x: 0, y: 0 }).unwrap().last_seen;
    assert_eq!(seen, 9);
}

#[test]
fn numbers_are_asked_for_only_while_there_is_a_connection() {
    let mut e = Editor::new(GREEN);
    e.poll_stats();
    assert!(e.net.take_orders().is_empty());
    e.net.is_conn = true;
    e.poll_stats();
    let orders = e.net.take_orders();
    assert_eq!(orders.len(), 1);
    assert!(matches!(orders[0], Order::Send(ClientMsg::FetchStats)));
}

#[test]
fn a_new_view_is_told_of_once() {
    let mut e = Editor::new(GREEN);
    e.on_view_changed(150);
    e.on_view_changed(0);
    let orders = e.net.take_orders();
    assert_eq!(orders.len(), 3);
    assert!(matches!(orders[0], Order::RestartChunkTimer(150)));
    assert!(matches!(orders[1], Order::StartViewportTimer(_)));
    assert!(matches!(orders[2], Order::RestartChunkTimer(0)));
    let bounds = WorldRect { a: pos(1, 2), b: pos(3, 4) };
    e.flush_viewport_update(bounds);
    let orders = e.net.take_orders();
    assert!(matches!(orders[0], Order::Send(ClientMsg::UpdateViewport(r)) if r == bounds));
    assert!(matches!(orders[1], Order::StartAnchorTimer(_)));
}

#[test]
fn typing_keeps_the_column_that_lines_begin_in() {
    let mut net = NetState::new();
    let mut cursor = CursorState::default();
    cursor.move_to(pos(4, 1), GREEN, &mut net);
    cursor.type_move_to(pos(5, 1), GREEN, &mut net);
    assert_eq!(cursor.pos, pos(5, 1));
    assert_eq!(cursor.type_start_x, 4);
    assert_eq!(net.last_cursor_sent, Some(pos(5, 1)));
    assert_eq!(net.take_orders().len(), 2);
    cursor.type_move_to(pos(5, 1), GREEN, &mut net);
    assert!(net.take_orders().is_empty());
}

#[test]
fn popups_are_drawn_anew_with_the_status_bar() {
    let mut e = Editor::new(GREEN);
    e.render_dirty();
    e.render_popups();
    assert_eq!(e.render_dirty(), vec![Widget::Snap, Widget::StatusBar, Widget::InfoPopup]);
    assert_eq!(Widget::Help.btn_id(), Some("btn-help"));
    assert_eq!(Widget::StatusBar.btn_id(), None);
}
