use walloftext::codec::{
    coded, pack_file, pack_message, packed_or_raw, unpack_file, zstd_decompress, CodecError,
};
use walloftext::color::Rgb;
use walloftext::coords::WorldCoords;
use walloftext::history::{merge_history, sort_actions};
use walloftext::model::{Action, SegmentEvent, StoredChunkCell};
use walloftext::segment::{
    collect_segments_after, flush_due, has_pending, new_segment, parse_hex_u64, segment_path,
    sort_names, SegmentLog,
};
use walloftext::state::AppState;

fn pos(x: i16, y: i16) -> WorldCoords {
    WorldCoords { x, y }
}

fn put(state: &mut AppState, uid: u32, p: WorldCoords, ch: char, now: u64) -> Action {
    let cell = StoredChunkCell { local: p.to_chunk().1, ch, color: Rgb(1, 2, 3), author_id: uid, ts: now as i64 };
    state.apply_action_batch(uid, vec![(p, Some(cell))], now)
}

fn action(id: u64) -> Action {
    Action { action_id: id, author_id: 1, ts: 0, changes: Vec::new() }
}

#[test]
fn a_full_count_holds_nobody_else_back() {
    let mut state = AppState::new();
    state.authors_count = vec![5, u32::MAX];
    put(&mut state, 2, pos(0, 0), 'a', 1);
    assert_eq!(state.authors_count, vec![5, u32::MAX, 1]);
    put(&mut state, 0, pos(0, 0), 'b', 2);
    assert_eq!(state.authors_count, vec![5, u32::MAX, 1]);
}

#[test]
fn a_message_is_compressed_so_that_a_client_reads_it() {
    let raw: Vec<u8> = (0..3000u32).map(|i| (i / 10) as u8).collect();
    let sent = pack_message(raw.clone());
    assert_ne!(sent, raw);
    assert_eq!(zstd_decompress(&sent), raw);
}

#[test]
fn what_is_not_compressed_is_left_as_it_is() {
    assert_eq!(zstd_decompress(&[1, 2, 3]), vec![1, 2, 3]);
}

#[test]
fn a_file_reads_back() {
    let raw = b"segment bytes segment bytes segment bytes".to_vec();
    let file = pack_file(&raw, 3).unwrap();
    assert_ne!(file, raw);
    assert_eq!(unpack_file(&file).unwrap(), raw);
    assert!(matches!(unpack_file(&vec![9, 9, 9]), Err(CodecError::Decompress)));
}

#[test]
fn outcomes_of_the_compressor_are_told_apart() {
    let fail = || std::io::Error::new(std::io::ErrorKind::Other, "no");
    assert_eq!(packed_or_raw(Ok(vec![1]), vec![2]), vec![1]);
    assert_eq!(packed_or_raw(Err(fail()), vec![2]), vec![2]);
    assert_eq!(coded(Ok(vec![1]), CodecError::Compress), Ok(vec![1]));
    assert_eq!(coded(Err(fail()), CodecError::Compress), Err(CodecError::Compress));
}

#[test]
fn segments_are_named_in_hexadecimal() {
    assert_eq!(segment_path("data", 255), "data/00000000000000ff.seg");
    assert_eq!(parse_hex_u64("00000000000000ff"), Some(255));
    assert_eq!(parse_hex_u64("FFFFFFFFFFFFFFFF"), Some(u64::MAX));
    assert_eq!(parse_hex_u64("10000000000000000"), None);
    assert_eq!(parse_hex_u64(""), None);
    assert_eq!(parse_hex_u64("xyz"), None);
}

#[test]
fn segments_after_the_snapshot_are_found_in_order() {
    let file = |stem: &str, ext: &str| (stem.to_string(), ext.to_string());
    let files = vec![
        file("000000000000000a", "seg"),
        file("0000000000000002", "seg"),
        file("0000000000000009", "seg"),
        file("0000000000000009", "tmp"),
        file("notes", "seg"),
    ];
    assert_eq!(collect_segments_after(files, 2), vec![
        "0000000000000009".to_string(),
        "000000000000000a".to_string()
    ]);
    assert_eq!(
        sort_names(vec!["b".to_string(), "a".to_string()]),
        vec!["a".to_string(), "b".to_string()]
    );
}

#[test]
fn a_segment_is_closed_when_its_time_has_come() {
    let mut log = SegmentLog::new(4);
    assert!(log.on_idle(true).is_none());
    assert!(log.on_event(SegmentEvent::Action(action(1))).is_none());
    assert!(log.on_idle(false).is_none());
    let s = log.on_idle(true).unwrap();
    assert_eq!(s.segment_id, 5);
    assert_eq!(s.prev_segment_id, Some(4));
    assert_eq!(s.actions.len(), 1);
    assert!(log.on_event(SegmentEvent::Action(action(2))).is_none());
    let s = log.close().unwrap();
    assert_eq!(s.segment_id, 6);
    assert_eq!(s.prev_segment_id, Some(5));
    assert!(flush_due(30_000, false));
    assert!(!flush_due(29_999, false));
    assert!(flush_due(0, true));
    assert!(!has_pending(&new_segment(0)));
}

#[test]
fn history_is_merged_without_doubles() {
    let sorted = sort_actions(vec![action(3), action(1), action(2)]);
    assert_eq!(sorted.iter().map(|a| a.action_id).collect::<Vec<_>>(), vec![1, 2, 3]);
    let merged = merge_history(vec![action(1), action(2)], vec![action(2), action(3)]);
    assert_eq!(merged.iter().map(|a| a.action_id).collect::<Vec<_>>(), vec![1, 2, 3]);
}

#[test]
fn a_snapshot_restores_the_board() {
    let mut state = AppState::new();
    let (_, uid, _) = state.create_anonymous_session("t".to_string());
    put(&mut state, uid, pos(5, 5), 'a', 1);
    put(&mut state, uid, pos(-2048, 2047), 'b', 2);
    let snap = state.build_snapshot(9);
    assert_eq!(snap.based_on_segment_id, 9);
    assert_eq!(snap.total_cells, 2);
    let mut other = AppState::new();
    let (based_on, fresh) = other.hydrate(Some(snap), Vec::new());
    assert_eq!(based_on, 9);
    assert!(!fresh);
    assert_eq!(other.current_cell(pos(5, 5)), state.current_cell(pos(5, 5)));
    assert_eq!(other.current_cell(pos(-2048, 2047)).unwrap().ch, 'b');
    assert_eq!(other.total_cells, 2);
    assert_eq!(other.username_of(uid), state.username_of(uid));
}

#[test]
fn the_log_restores_what_came_after_the_snapshot() {
    let mut state = AppState::new();
    let (_, uid, _) = state.create_anonymous_session("t".to_string());
    put(&mut state, uid, pos(5, 5), 'a', 1);
    let snap = state.build_snapshot(0);
    state.outbox.clear();
    put(&mut state, uid, pos(5, 5), 'z', 3);
    put(&mut state, uid, pos(6, 6), 'y', 4);
    let mut log = SegmentLog::new(0);
    for e in state.outbox.drain(..) {
        log.on_event(e);
    }
    let segment = log.close().unwrap();
    let mut other = AppState::new();
    let (last, _) = other.hydrate(Some(snap), vec![segment]);
    assert_eq!(last, 1);
    assert_eq!(other.current_cell(pos(5, 5)).unwrap().ch, 'z');
    assert_eq!(other.current_cell(pos(6, 6)).unwrap().ch, 'y');
    assert_eq!(other.next_action_id, state.next_action_id);
}

#[test]
fn a_board_without_files_is_filled_with_letters() {
    let mut state = AppState::new();
    let (last, fresh) = state.hydrate(None, Vec::new());
    assert_eq!(last, 0);
    assert!(fresh);
    assert!(state.total_cells > 0);
    let chunks = state.snapshot_all_shards();
    let mut letters = 0;
    let mut colors = Vec::new();
    for c in chunks.iter().flat_map(|c| c.cells.iter()) {
        assert!(c.ch.is_ascii_alphanumeric());
        assert_eq!(c.author_id, 0);
        letters += 1;
        if !colors.contains(&c.color) && colors.len() < 3 {
            colors.push(c.color);
        }
    }
    assert_eq!(letters, state.total_cells);
    assert!(colors.len() > 1);
}

#[test]
fn actions_in_memory_reach_back_so_far() {
    let mut state = AppState::new();
    let (_, uid, _) = state.create_anonymous_session("t".to_string());
    assert!(state.history_needs_disk(Some(1)));
    put(&mut state, uid, pos(0, 0), 'a', 1);
    put(&mut state, uid, pos(1, 0), 'b', 2);
    let hot = state.hot_actions();
    assert_eq!(hot.len(), 2);
    assert_eq!(hot[1].changes[0].pos, pos(1, 0));
    let first = hot[0].action_id;
    assert!(!state.history_needs_disk(Some(first)));
    assert!(state.history_needs_disk(None));
    assert!(first == 0 || state.history_needs_disk(Some(first - 1)));
}
