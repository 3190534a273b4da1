use walloftext::admin::{
    author_filter, load_board, parse_region, region_filter, run_filtered, run_point_in_time, Refusal,
};
use walloftext::color::Rgb;
use walloftext::coords::{ChunkCoords, WorldCoords, WorldRect};
use walloftext::correction::apply_offline;
use walloftext::migrate::shift_uids_minus_1;
use walloftext::model::{
    Action, CellChange, Segment, StoredChunk, StoredChunkCell, StoredRegion, UserAccount,
    WorldSnapshot,
};
use walloftext::revert::{PointInTimeCutoff, RevertFilter, RevertOutcome};
use walloftext::summary::{print_summary, run_inspect, Inspection};

fn pos(x: i16, y: i16) -> WorldCoords {
    WorldCoords { x, y }
}

fn cell(p: WorldCoords, ch: char, author_id: u32, ts: i64) -> StoredChunkCell {
    StoredChunkCell { local: p.to_chunk().1, ch, color: Rgb(1, 2, 3), author_id, ts }
}

fn segment(id: u64, actions: Vec<Action>) -> Segment {
    Segment {
        segment_id: id,
        prev_segment_id: if id > 1 { Some(id - 1) } else { None },
        new_users: Default::default(),
        new_regions: Default::default(),
        actions,
    }
}

fn history() -> (Vec<StoredChunk>, Vec<Segment>) {
    let (p, q, r) = (pos(3, 3), pos(-1, -1), pos(70, 20));
    let (chunk, _) = q.to_chunk();
    let chunks = vec![StoredChunk { coords: chunk, cells: vec![cell(q, 'q', 9, 1)] }];
    let a = Action {
        action_id: 1,
        author_id: 5,
        ts: 10,
        changes: vec![CellChange { pos: p, old: None, new: Some(cell(p, 'a', 5, 10)) }],
    };
    let b = Action {
        action_id: 2,
        author_id: 6,
        ts: 20,
        changes: vec![
            CellChange { pos: q, old: Some(cell(q, 'q', 9, 1)), new: None },
            CellChange { pos: r, old: None, new: Some(cell(r, 'r', 6, 20)) },
        ],
    };
    // The later action stands in the earlier segment.
    (chunks, vec![segment(1, vec![b]), segment(2, vec![a])])
}

#[test]
fn regions_are_read_from_text() {
    assert_eq!(
        parse_region("1,2,3,4"),
        Ok(WorldRect { a: pos(1, 2), b: pos(3, 4) })
    );
    assert_eq!(
        parse_region(" -5 , +6,\t7 ,99999999"),
        Ok(WorldRect { a: pos(-5, 6), b: pos(7, 2047) })
    );
    let e = Err("expected x0,y0,x1,y1".to_string());
    assert_eq!(parse_region("1,2,3"), e);
    assert_eq!(parse_region("1,2,3,4,5"), e);
    assert_eq!(parse_region("1,2,3,x"), e);
    assert_eq!(parse_region("1,2,3,"), e);
    assert_eq!(parse_region("1,2,3,9223372036854775808"), e);
}

#[test]
fn the_board_is_what_snapshot_and_log_leave() {
    let (chunks, segments) = history();
    let board = load_board(chunks, segments);
    assert_eq!(board.actions.len(), 2);
    assert_eq!(board.actions[0].action_id, 1);
    assert_eq!(board.actions[1].action_id, 2);
    assert_eq!(board.cell_at(pos(3, 3)).map(|c| c.ch), Some('a'));
    assert_eq!(board.cell_at(pos(-1, -1)), None);
    assert_eq!(board.cell_at(pos(70, 20)).map(|c| c.ch), Some('r'));
    assert_eq!(board.cell_at(pos(0, 0)), None);
}

#[test]
fn a_revert_of_one_author_is_written_and_read_back() {
    let (chunks, segments) = history();
    let board = load_board(chunks.clone(), segments.clone());
    let filter = author_filter(6, None, None, None);
    let outcomes = run_filtered(filter, &board, false, false).unwrap();
    assert_eq!(outcomes.len(), 2);
    let stems = vec!["0000000000000001".to_string(), "0000000000000002".to_string(), "x".to_string()];
    let fix = apply_offline(&board, &outcomes, &stems, 77).unwrap();
    assert_eq!(fix.segment_id, 3);
    assert_eq!(fix.prev_segment_id, Some(2));
    assert_eq!(fix.actions.len(), 1);
    assert_eq!(fix.actions[0].action_id, 3);
    assert_eq!(fix.actions[0].author_id, 0);
    assert_eq!(fix.actions[0].ts, 77);
    assert_eq!(fix.actions[0].changes.len(), 2);
    let mut more = segments;
    more.push(fix);
    let after = load_board(chunks, more);
    assert_eq!(after.cell_at(pos(-1, -1)).map(|c| c.ch), Some('q'));
    assert_eq!(after.cell_at(pos(70, 20)), None);
    assert_eq!(after.cell_at(pos(3, 3)).map(|c| c.ch), Some('a'));
}

#[test]
fn nothing_to_set_right_writes_nothing() {
    let (chunks, segments) = history();
    let board = load_board(chunks, segments);
    let outcomes = run_filtered(author_filter(1234, None, None, None), &board, false, false).unwrap();
    assert!(outcomes.is_empty());
    assert!(apply_offline(&board, &outcomes, &Vec::new(), 0).is_none());
}

#[test]
fn the_first_correction_has_no_segment_before_it() {
    let (chunks, segments) = history();
    let board = load_board(chunks, segments);
    let outcomes = run_filtered(author_filter(5, None, None, None), &board, false, false).unwrap();
    let fix = apply_offline(&board, &outcomes, &Vec::new(), 1).unwrap();
    assert_eq!(fix.segment_id, 1);
    assert_eq!(fix.prev_segment_id, None);
}

#[test]
fn a_filter_without_limits_is_refused_unless_allowed() {
    let (chunks, segments) = history();
    let board = load_board(chunks, segments);
    let all = RevertFilter::default();
    assert!(matches!(run_filtered(all, &board, false, false), Err(Refusal::Unbounded)));
    assert_eq!(run_filtered(all, &board, false, true).unwrap().len(), 3);
}

#[test]
fn a_revert_of_too_many_places_is_refused_unless_forced() {
    let mut changes = Vec::new();
    let mut y: i16 = -1000;
    while changes.len() <= 250_000 {
        for x in -500i16..500 {
            let p = pos(x, y);
            changes.push(CellChange { pos: p, old: None, new: Some(cell(p, 'x', 4, 1)) });
        }
        y += 1;
    }
    let n = changes.len();
    let a = Action { action_id: 1, author_id: 4, ts: 1, changes };
    let board = load_board(Vec::new(), vec![segment(1, vec![a])]);
    let filter = author_filter(4, None, None, None);
    assert!(matches!(run_filtered(filter, &board, false, false), Err(Refusal::TooMany(m)) if m == n));
    assert_eq!(run_filtered(filter, &board, true, false).unwrap().len(), n);
    let cutoff = PointInTimeCutoff { before_ts: Some(0), ..Default::default() };
    assert!(matches!(run_point_in_time(cutoff, &board, false), Err(Refusal::TooMany(m)) if m == n));
}

#[test]
fn a_rollback_brings_the_moment_back() {
    let (chunks, segments) = history();
    let board = load_board(chunks.clone(), segments.clone());
    let cutoff = PointInTimeCutoff { before_action_id: Some(2), ..Default::default() };
    let outcomes = run_point_in_time(cutoff, &board, false).unwrap();
    let fix = apply_offline(&board, &outcomes, &vec!["2".to_string()], 50).unwrap();
    let mut more = segments;
    more.push(fix);
    let after = load_board(chunks, more);
    assert_eq!(after.cell_at(pos(3, 3)).map(|c| c.ch), Some('a'));
    assert_eq!(after.cell_at(pos(-1, -1)).map(|c| c.ch), Some('q'));
    assert_eq!(after.cell_at(pos(70, 20)), None);
}

#[test]
fn a_rollback_needs_a_cutoff() {
    let board = load_board(Vec::new(), Vec::new());
    let r = run_point_in_time(PointInTimeCutoff::default(), &board, true);
    assert!(matches!(r, Err(Refusal::NoCutoff)));
}

#[test]
fn filters_are_put_together_from_their_parts() {
    let f = author_filter(3, None, Some(1), Some(2));
    assert_eq!(f.author_id, Some(3));
    assert_eq!(f.ts_range, Some((1, 2)));
    assert_eq!(author_filter(3, None, Some(1), None).ts_range, None);
    let rect = WorldRect { a: pos(0, 0), b: pos(1, 1) };
    let g = region_filter(rect, Some(8));
    assert_eq!(g.region, Some(rect));
    assert_eq!(g.author_id, Some(8));
    assert!(!g.is_unbounded());
}

#[test]
fn a_summary_counts_and_shows() {
    let mut outcomes = Vec::new();
    for i in 0..25i16 {
        outcomes.push(RevertOutcome::Restore {
            pos: pos(i, -i),
            restore_to: None,
            current: Some(cell(pos(i, -i), 'z', if i % 5 == 0 { 9 } else { 2 }, 0)),
            earliest_targeted_action_id: 1,
            targeted_touch_count: 1,
        });
    }
    let s = print_summary(&outcomes);
    assert_eq!(s.restored, 25);
    assert_eq!(s.overwritten, 0);
    assert_eq!(s.unchanged, 0);
    assert_eq!(s.authors, vec![(2, 20), (9, 5)]);
    assert_eq!(s.lines.len(), 20);
    assert_eq!(s.lines[0], "  (0,0): 'z' (author 9) -> <empty>");
    assert_eq!(s.lines[1], "  (1,-1): 'z' (author 2) -> <empty>");
    assert_eq!(s.more, 5);
}

#[test]
fn an_inspection_lists_what_is_in_scope() {
    let (chunks, segments) = history();
    let board = load_board(chunks, segments);
    let all = run_inspect(&board, &Inspection { region: None, ts_from: None, ts_to: None });
    assert_eq!(all.len(), 2);
    assert_eq!((all[0].action_id, all[0].changes), (1, 1));
    assert_eq!((all[1].action_id, all[1].changes), (2, 2));
    let rect = WorldRect { a: pos(64, 16), b: pos(100, 31) };
    let some = run_inspect(&board, &Inspection { region: Some(rect), ts_from: Some(15), ts_to: Some(20) });
    assert_eq!(some.len(), 1);
    assert_eq!((some[0].action_id, some[0].author_id, some[0].ts, some[0].changes), (2, 6, 20, 1));
    let none = run_inspect(&board, &Inspection { region: None, ts_from: Some(21), ts_to: None });
    assert!(none.is_empty());
}

fn user(user_id: u32, name: &str) -> UserAccount {
    UserAccount {
        user_id,
        username: name.to_string(),
        original_anon_name: name.to_string(),
        password_hash: None,
        session_token: String::new(),
        is_anonymous: false,
        protected_cells: 0,
    }
}

#[test]
fn account_numbers_are_moved_down_once() {
    let snap = WorldSnapshot {
        based_on_segment_id: 4,
        next_rid: 2,
        next_uid: 3,
        total_cells: 2,
        users: vec![user(1, "system"), user(2, "ann")],
        regions: vec![StoredRegion {
            id: 1,
            bounds: WorldRect { a: pos(0, 0), b: pos(1, 1) },
            label: "home".to_string(),
            owner_id: 2,
        }],
        authors_count: vec![3, 4, 7],
        chunks: vec![StoredChunk {
            coords: ChunkCoords { x: 0, y: 0 },
            cells: vec![cell(pos(0, 0), 'a', 2, 0), cell(pos(1, 0), 'b', 0, 0)],
        }],
    };
    let moved = shift_uids_minus_1(snap).unwrap();
    assert_eq!(moved.next_uid, 2);
    assert_eq!(moved.users[0].user_id, 0);
    assert_eq!(moved.users[1].user_id, 1);
    assert_eq!(moved.regions[0].owner_id, 1);
    assert_eq!(moved.authors_count, vec![7, 7]);
    assert_eq!(moved.chunks[0].cells[0].author_id, 1);
    assert_eq!(moved.chunks[0].cells[1].author_id, 0);
    assert_eq!(moved.based_on_segment_id, 4);
    assert!(shift_uids_minus_1(moved).is_none());
}
