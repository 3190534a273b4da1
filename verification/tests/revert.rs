use walloftext::color::Rgb;
use walloftext::coords::{ChunkCoords, ChunkLocalCoords, WorldCoords, WorldRect};
use walloftext::model::{Action, CellChange, StoredChunk, StoredChunkCell};
use walloftext::revert::{
    compute_point_in_time_revert, compute_revert, compute_state_as_of, PointInTimeCutoff,
    RevertFilter, RevertOutcome, SkipReason, MAX_REVERT_POSITIONS,
};

fn pos(x: i16, y: i16) -> WorldCoords {
    WorldCoords { x, y }
}

fn cell(ch: char, author_id: u32, ts: i64) -> StoredChunkCell {
    StoredChunkCell {
        local: ChunkLocalCoords { x: 0, y: 0 },
        ch,
        color: Rgb(255, 255, 255),
        author_id,
        ts,
    }
}

fn action(action_id: u64, author_id: u32, ts: i64, changes: Vec<CellChange>) -> Action {
    Action {
        action_id,
        author_id,
        ts,
        changes,
    }
}

fn change(
    p: WorldCoords,
    old: Option<StoredChunkCell>,
    new: Option<StoredChunkCell>,
) -> CellChange {
    CellChange { pos: p, old, new }
}

#[test]
fn author_revert_restores_to_before_earliest_targeted_touch() {
    let p = pos(1, 1);
    let actions = vec![
        action(1, 1, 100, vec![change(p, None, Some(cell('X', 1, 100)))]),
        action(
            2,
            1,
            101,
            vec![change(p, Some(cell('X', 1, 100)), Some(cell('Y', 1, 101)))],
        ),
    ];
    let filter = RevertFilter {
        author_id: Some(1),
        ..Default::default()
    };
    let current = |_: WorldCoords| Some(cell('Y', 1, 101));
    let outcomes = compute_revert(&filter, &actions, current);
    assert_eq!(outcomes.len(), 1);
    match &outcomes[0] {
        RevertOutcome::Restore { restore_to, .. } => assert!(restore_to.is_none()),
        other => panic!("expected Restore, got {other:?}"),
    }
}

#[test]
fn innocent_overwrite_is_preserved_not_stomped() {
    let p = pos(2, 2);
    let legit = cell('A', 5, 100);
    let griefed = cell('X', 1, 101);
    let fixed = cell('B', 5, 102);
    let actions = vec![
        action(1, 5, 100, vec![change(p, None, Some(legit.clone()))]),
        action(
            2,
            1,
            101,
            vec![change(p, Some(legit.clone()), Some(griefed.clone()))],
        ),
        action(
            3,
            5,
            102,
            vec![change(p, Some(griefed.clone()), Some(fixed.clone()))],
        ),
    ];
    let filter = RevertFilter {
        author_id: Some(1),
        ..Default::default()
    };
    let current = |_: WorldCoords| Some(fixed.clone());
    let outcomes = compute_revert(&filter, &actions, current);
    assert_eq!(outcomes.len(), 1);
    match &outcomes[0] {
        RevertOutcome::Skipped {
            reason: SkipReason::OverwrittenByOther { by_author, .. },
            ..
        } => assert_eq!(*by_author, 5),
        other => panic!("expected Skipped(OverwrittenByOther), got {other:?}"),
    }
}

#[test]
fn attribution_is_preserved_on_restore() {
    let p = pos(3, 3);
    let legit = cell('A', 7, 100);
    let griefed = cell('X', 1, 101);
    let actions = vec![
        action(1, 7, 100, vec![change(p, None, Some(legit.clone()))]),
        action(
            2,
            1,
            101,
            vec![change(p, Some(legit.clone()), Some(griefed.clone()))],
        ),
    ];
    let filter = RevertFilter {
        author_id: Some(1),
        ..Default::default()
    };
    let current = |_: WorldCoords| Some(griefed.clone());
    let outcomes = compute_revert(&filter, &actions, current);
    assert_eq!(outcomes.len(), 1);
    match &outcomes[0] {
        RevertOutcome::Restore { restore_to, .. } => {
            let restored = restore_to.as_ref().expect("should restore to legit cell");
            assert_eq!(
                restored.author_id, 7,
                "attribution must stay with original author, not the acting admin"
            );
            assert_eq!(restored.ch, 'A');
            assert_eq!(restored.ts, 100);
        }
        other => panic!("expected Restore, got {other:?}"),
    }
}

#[test]
fn region_filter_catches_all_authors() {
    let inside = pos(1, 1);
    let outside = pos(100, 100);
    let rect = WorldRect::new(pos(0, 0), pos(10, 10));
    let actions = vec![
        action(
            1,
            1,
            100,
            vec![change(inside, None, Some(cell('X', 1, 100)))],
        ),
        action(
            2,
            2,
            100,
            vec![change(outside, None, Some(cell('X', 2, 100)))],
        ),
    ];
    let filter = RevertFilter {
        region: Some(rect),
        ..Default::default()
    };
    let current = |p: WorldCoords| {
        if p == inside {
            Some(cell('X', 1, 100))
        } else {
            Some(cell('X', 2, 100))
        }
    };
    let outcomes = compute_revert(&filter, &actions, current);
    assert_eq!(outcomes.len(), 1);
    match &outcomes[0] {
        RevertOutcome::Restore { pos, .. } => assert_eq!(*pos, inside),
        other => panic!("expected Restore for inside pos, got {other:?}"),
    }
}

#[test]
fn combined_author_and_region_filter_is_anded() {
    let p = pos(1, 1);
    let rect = WorldRect::new(pos(0, 0), pos(10, 10));
    let actions = vec![action(
        1,
        2,
        100,
        vec![change(p, None, Some(cell('X', 2, 100)))],
    )];
    let filter = RevertFilter {
        author_id: Some(1),
        region: Some(rect),
        ..Default::default()
    };
    let current = |_: WorldCoords| Some(cell('X', 2, 100));
    let outcomes = compute_revert(&filter, &actions, current);
    assert!(
        outcomes.is_empty(),
        "author mismatch must exclude the change even though region matches"
    );
}

#[test]
fn no_change_skip_when_restore_equals_current() {
    let p = pos(1, 1);
    let actions = vec![action(
        1,
        1,
        100,
        vec![change(p, None, Some(cell('X', 1, 100)))],
    )];
    let filter = RevertFilter {
        author_id: Some(1),
        ..Default::default()
    };
    let current = |_: WorldCoords| None;
    let outcomes = compute_revert(&filter, &actions, current);
    assert_eq!(outcomes.len(), 1);
    assert!(matches!(
        outcomes[0],
        RevertOutcome::Skipped {
            reason: SkipReason::NoChange,
            ..
        }
    ));
}

#[test]
fn range_bounds_targeting_not_scan_window() {
    let p = pos(1, 1);
    let actions = vec![
        action(1, 1, 100, vec![change(p, None, Some(cell('X', 1, 100)))]),
        action(
            2,
            1,
            200,
            vec![change(p, Some(cell('X', 1, 100)), Some(cell('Z', 1, 200)))],
        ),
    ];
    let filter = RevertFilter {
        author_id: Some(1),
        action_id_range: Some((1, 1)),
        ..Default::default()
    };
    let current = |_: WorldCoords| Some(cell('Z', 1, 200));
    let outcomes = compute_revert(&filter, &actions, current);
    assert_eq!(outcomes.len(), 1);
    assert!(
        matches!(
            outcomes[0],
            RevertOutcome::Skipped {
                reason: SkipReason::OverwrittenByOther { .. },
                ..
            }
        ),
        "action outside the id range must still count as the last (non-targeted) touch: {:?}",
        outcomes[0]
    );
}

#[test]
fn point_in_time_nulls_positions_created_after_cutoff() {
    let p = pos(4, 4);
    let snapshot_chunks: Vec<StoredChunk> = vec![];
    let actions = vec![action(
        5,
        1,
        500,
        vec![change(p, None, Some(cell('N', 1, 500)))],
    )];
    let cutoff = PointInTimeCutoff {
        before_action_id: Some(5),
        ..Default::default()
    };
    let target = compute_state_as_of(&cutoff, &snapshot_chunks, &actions);
    assert!(
        !target.contains_key(&p),
        "position shouldn't exist in the pre-cutoff scratch board"
    );

    let current = |_: WorldCoords| Some(cell('N', 1, 500));
    let outcomes = compute_point_in_time_revert(&target, std::iter::once(p), current);
    assert_eq!(outcomes.len(), 1);
    match &outcomes[0] {
        RevertOutcome::Restore { restore_to, .. } => assert!(restore_to.is_none()),
        other => panic!("expected Restore to None, got {other:?}"),
    }
}

#[test]
fn point_in_time_respects_region_scoping() {
    let inside = pos(1, 1);
    let outside = pos(50, 50);
    let rect = WorldRect::new(pos(0, 0), pos(10, 10));
    let snapshot_chunks: Vec<StoredChunk> = vec![];
    let actions = vec![action(
        1,
        1,
        100,
        vec![
            change(inside, None, Some(cell('A', 1, 100))),
            change(outside, None, Some(cell('B', 1, 100))),
        ],
    )];
    let cutoff = PointInTimeCutoff {
        before_action_id: Some(2),
        region: Some(rect),
        ..Default::default()
    };
    let target = compute_state_as_of(&cutoff, &snapshot_chunks, &actions);
    assert!(target.contains_key(&inside));
    assert!(
        !target.contains_key(&outside),
        "out-of-region position must not be seeded"
    );
}

#[test]
fn unbounded_filter_is_rejected() {
    assert!(RevertFilter::default().is_unbounded());
    assert!(
        !RevertFilter {
            author_id: Some(1),
            ..Default::default()
        }
        .is_unbounded()
    );
}

#[test]
fn cap_enforcement_example() {
    let outcomes: Vec<RevertOutcome> = (0..(MAX_REVERT_POSITIONS + 1))
        .map(|i| RevertOutcome::Restore {
            pos: pos((i % 1000) as i16, (i / 1000) as i16),
            restore_to: None,
            current: Some(cell('X', 1, 0)),
            earliest_targeted_action_id: 0,
            targeted_touch_count: 1,
        })
        .collect();
    let restore_count = outcomes
        .iter()
        .filter(|o| matches!(o, RevertOutcome::Restore { .. }))
        .count();
    assert!(restore_count > MAX_REVERT_POSITIONS);
}
