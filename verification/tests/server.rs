use walloftext::color::Rgb;
use walloftext::coords::{ChunkCoords, WorldCoords, WorldRect};
use walloftext::error::AppError;
use walloftext::model::{SegmentEvent, StoredRegion};
use walloftext::msg::{CellWrite, ClientMsg, RestoreCoord, ServerMsg};
use walloftext::protocol::Moment;
use walloftext::session::{Outgoing, Session};
use walloftext::state::{AppState, CELL_BUCKET_MAX};

fn pos(x: i16, y: i16) -> WorldCoords {
    WorldCoords { x, y }
}

fn write(x: i16, y: i16, ch: char) -> CellWrite {
    CellWrite { pos: pos(x, y), ch: Some(ch), color: Rgb(9, 8, 7) }
}

fn moment(now: u64) -> Moment {
    Moment { now, instant: 0, refilled: CELL_BUCKET_MAX, token: format!("t{now}") }
}

fn join(state: &mut AppState, conn_id: u64, token: &str) -> Session {
    let who = state.identify(None, token.to_string());
    state.admit_client(conn_id, "1.2.3.4".to_string(), who).session
}

#[test]
fn a_client_is_greeted_and_recognised_again() {
    let mut state = AppState::new();
    let who = state.identify(None, "tok".to_string());
    assert!(who.is_anon);
    assert_eq!(who.name, format!("anonymous#{}", who.uid));
    assert_eq!(who.token, "tok");
    assert_eq!(state.get_session("tok"), Some(who.uid));
    let uid = who.uid;
    let a = state.admit_client(7, "ip".to_string(), who);
    assert_eq!(a.session.user_id, uid);
    assert!(a.displaced.is_empty());
    assert!(a.greeting.iter().any(|m| matches!(
        m,
        ServerMsg::Welcome { author_id, session_token, .. }
            if *author_id == uid && session_token == "tok"
    )));
    let again = state.identify(Some("tok".to_string()), "other".to_string());
    assert_eq!(again.uid, uid);
    let b = state.admit_client(8, "ip".to_string(), again);
    assert_eq!(b.displaced.len(), 1);
    assert_eq!(b.displaced[0].0, 7);
    let third = state.identify(Some("unknown".to_string()), "fresh".to_string());
    assert_ne!(third.uid, uid);
}

#[test]
fn writing_shows_on_the_board_and_in_the_news() {
    let mut state = AppState::new();
    let mut ann = join(&mut state, 1, "a");
    let _ben = join(&mut state, 2, "b");
    let cells = vec![write(3, 4, 'x'), write(-70, -20, 'y')];
    let out = state.handle_message(&mut ann, ClientMsg::SetCellBatch { cells, commit: true }, moment(5));
    assert!(out.is_empty());
    assert_eq!(state.current_cell(pos(3, 4)).unwrap().ch, 'x');
    assert_eq!(state.current_cell(pos(-70, -20)).unwrap().author_id, ann.user_id);
    assert_eq!(state.total_cells, 2);
    let news = state.take_news();
    assert!(!news.is_empty());
    for (_, m) in &news {
        match m {
            ServerMsg::CellUpdateBatch { updates, authors } => {
                assert_eq!(updates.len(), 2);
                assert_eq!(authors.len(), 1);
                assert_eq!(authors[0].0, ann.user_id);
            }
            _ => panic!("unexpected news"),
        }
    }
    assert!(state.take_news().is_empty());
}

#[test]
fn news_goes_only_to_those_who_see_it() {
    let mut state = AppState::new();
    let mut ann = join(&mut state, 1, "a");
    let mut ben = join(&mut state, 2, "b");
    let far = WorldRect { a: pos(1000, 1000), b: pos(1100, 1100) };
    state.handle_message(&mut ben, ClientMsg::UpdateViewport(far), moment(1));
    let cells = vec![write(0, 0, 'x')];
    state.handle_message(&mut ann, ClientMsg::SetCellBatch { cells, commit: true }, moment(2));
    let news = state.take_news();
    assert_eq!(news.iter().map(|n| n.0).collect::<Vec<_>>(), vec![1]);
}

#[test]
fn writing_can_be_taken_back_from_memory() {
    let mut state = AppState::new();
    let mut ann = join(&mut state, 1, "a");
    for (i, ch) in ['p', 'q'].iter().enumerate() {
        let cells = vec![write(0, 0, *ch)];
        state.handle_message(
            &mut ann,
            ClientMsg::SetCellBatch { cells, commit: true },
            moment(i as u64),
        );
    }
    assert_eq!(state.current_cell(pos(0, 0)).unwrap().ch, 'q');
    let cells = vec![RestoreCoord { pos: pos(0, 0) }];
    let out = state.handle_message(&mut ann, ClientMsg::RestoreCellBatch { cells }, moment(9));
    assert!(out.is_empty());
    assert_eq!(state.current_cell(pos(0, 0)).unwrap().ch, 'p');
}

#[test]
fn writing_too_fast_is_refused_with_the_places() {
    let mut state = AppState::new();
    let mut ann = join(&mut state, 1, "a");
    let cells = vec![write(0, 0, 'x'), write(1, 0, 'y')];
    let at = Moment { now: 1, instant: 10, refilled: 1, token: String::new() };
    let out = state.handle_message(&mut ann, ClientMsg::SetCellBatch { cells, commit: true }, at);
    assert_eq!(out.len(), 1);
    assert!(matches!(
        &out[0],
        Outgoing::Back(ServerMsg::DeniedBatch { positions, reason })
            if positions == &vec![pos(0, 0), pos(1, 0)] && reason == "rate limited: slow down"
    ));
    assert!(state.current_cell(pos(0, 0)).is_none());
    assert_eq!(state.cell_bucket(ann.user_id, 0), (1, 10));
}

#[test]
fn the_bucket_is_capped_and_emptied() {
    let mut state = AppState::new();
    assert_eq!(state.cell_bucket(4, 33), (200, 33));
    assert!(state.check_cell_rate(4, 150, 9999, 40).is_ok());
    assert_eq!(state.cell_bucket(4, 0), (50, 40));
    assert!(state.check_cell_rate(4, 51, 50, 41).is_err());
    assert!(state.check_cell_rate(0, 100_000, 0, 42).is_ok());
    assert!(state.check_cell_rate(4, 0, 0, 43).is_ok());
}

fn region(owner_id: u32, a: WorldCoords, b: WorldCoords) -> StoredRegion {
    StoredRegion { id: 0, bounds: WorldRect { a, b }, label: "home".to_string(), owner_id }
}

#[test]
fn a_region_keeps_others_out() {
    let mut state = AppState::new();
    let mut ann = join(&mut state, 1, "a");
    let mut ben = join(&mut state, 2, "b");
    ann.is_anon = false;
    let bounds = WorldRect { a: pos(0, 0), b: pos(3, 3) };
    let out = state.protect(&ann, bounds, "mine");
    assert!(out.iter().any(|o| matches!(o, Outgoing::All(ServerMsg::RegionAdded(r)) if r.label == "mine")));
    let cells = vec![write(1, 1, 'x'), write(9, 9, 'y')];
    let out = state.handle_message(&mut ben, ClientMsg::SetCellBatch { cells, commit: true }, moment(1));
    assert_eq!(out.len(), 1);
    assert!(matches!(&out[0], Outgoing::Back(ServerMsg::Denied { pos: p, .. }) if *p == pos(1, 1)));
    assert!(state.current_cell(pos(1, 1)).is_none());
    assert!(state.current_cell(pos(9, 9)).is_some());
    assert!(state.check_region_access(ann.user_id, pos(1, 1)).is_none());
    assert!(state.check_region_access(ben.user_id, pos(1, 1)).is_some());
}

#[test]
fn regions_have_a_quota() {
    let mut state = AppState::new();
    let ann = join(&mut state, 1, "a").user_id;
    let r = state.add_region(region(ann, pos(0, 0), pos(16, 16)));
    assert_eq!(r.unwrap_err().to_text(), "quota: too large (289 cells, max 256)");
    let id = state.add_region(region(ann, pos(0, 0), pos(15, 15))).unwrap();
    let r = state.add_region(region(ann, pos(100, 100), pos(100, 100)));
    assert_eq!(r.unwrap_err().to_text(), "quota: quota: 256/256 cells used");
    assert!(state.add_region(region(0, pos(100, 100), pos(300, 300))).is_ok());
    let r = state.add_region(region(ann, pos(5, 5), pos(4, 4)));
    assert!(matches!(r, Err(AppError::BadInput(why)) if why == "empty region"));
    assert_eq!(state.find_region_at(pos(15, 15)).unwrap().id, id);
    assert!(state.find_region_at(pos(16, 15)).is_none());
    assert!(matches!(state.remove_region(id, ann + 1), Ok(false)));
    assert!(matches!(state.remove_region(id, ann), Ok(true)));
    assert!(state.find_region_at(pos(15, 15)).is_none());
    assert!(matches!(state.remove_region(id, ann), Ok(false)));
    assert!(state.add_region(region(ann, pos(0, 0), pos(15, 15))).is_ok());
}

#[test]
fn somebody_registers_logs_out_and_logs_in_again() {
    let mut state = AppState::new();
    let mut ann = join(&mut state, 1, "a");
    let m = state.log_in(&mut ann, " ann ", "secret", 100);
    assert!(matches!(m, ServerMsg::AuthOk { username, .. } if username == "ann"));
    assert!(!ann.is_anon);
    let uid = ann.user_id;
    assert_eq!(state.username_of(uid), "ann");
    let m = state.log_out(&mut ann, "f".to_string());
    assert!(matches!(m, Some(ServerMsg::Welcome { .. })));
    assert!(ann.is_anon);
    let m = state.log_in(&mut ann, "ann", "wrong", 101);
    assert!(matches!(m, ServerMsg::AuthFail { reason } if reason == "invalid credentials"));
    let m = state.log_in(&mut ann, "ann", "secret", 102);
    assert!(matches!(m, ServerMsg::AuthOk { .. }));
    assert_eq!(ann.user_id, uid);
}

#[test]
fn names_and_passwords_have_a_length() {
    let mut state = AppState::new();
    let mut ann = join(&mut state, 1, "a");
    let m = state.log_in(&mut ann, "a", "secret", 1);
    assert!(matches!(m, ServerMsg::AuthFail { reason } if reason == "username: 2–24 chars"));
    let m = state.log_in(&mut ann, "aaaaaaaaaaaaaaaaaaaaaaaaa", "secret", 1);
    assert!(matches!(m, ServerMsg::AuthFail { .. }));
    let m = state.log_in(&mut ann, "ann", "abc", 1);
    assert!(matches!(m, ServerMsg::AuthFail { reason } if reason == "password: min 4 chars"));
}

#[test]
fn guessing_passwords_is_throttled() {
    let mut state = AppState::new();
    let mut ann = join(&mut state, 1, "a");
    state.log_in(&mut ann, "ann", "secret", 1);
    state.log_out(&mut ann, "f".to_string());
    let mut refused = 0;
    for _ in 0..30 {
        if let ServerMsg::AuthFail { reason } = state.log_in(&mut ann, "ann", "wrong", 1000) {
            if reason != "invalid credentials" {
                refused += 1;
            }
        }
    }
    assert!(refused > 0);
    assert!(state.check_rate_limit("1.2.3.4", 1000).is_err());
    assert!(state.check_rate_limit("5.6.7.8", 1000).is_ok());
    state.clear_login_throttle("1.2.3.4");
    assert!(state.check_rate_limit("1.2.3.4", 1000).is_ok());
}

#[test]
fn hashes_depend_on_name_and_password() {
    let h = AppState::hash_pw("ann", "secret");
    assert_eq!(h, AppState::hash_pw("ann", "secret"));
    assert_ne!(h, AppState::hash_pw("ben", "secret"));
    assert_ne!(h, AppState::hash_pw("ann", "secret2"));
    assert_ne!(h, "secret");
    let t = AppState::generate_token(5, &"ThreadId(1)".to_string());
    assert_ne!(t, AppState::generate_token(6, &"ThreadId(1)".to_string()));
    assert_ne!(t, AppState::generate_token(5, &"ThreadId(2)".to_string()));
}

#[test]
fn a_password_can_be_reset() {
    let mut state = AppState::new();
    let mut ann = join(&mut state, 1, "a");
    state.log_in(&mut ann, "ann", "secret", 1);
    assert!(state.reset_password("ann").is_ok());
    assert!(state.reset_password("nobody").is_err());
    assert!(state.verify_user("ann", "other"));
    assert!(state.verify_user("ann", "other"));
    assert!(!state.verify_user("ann", "secret"));
}

#[test]
fn chunks_and_colors_are_fetched() {
    let mut state = AppState::new();
    let mut ann = join(&mut state, 1, "a");
    let cells = vec![write(64, 16, 'x'), write(66, 18, 'y')];
    state.handle_message(&mut ann, ClientMsg::SetCellBatch { cells, commit: true }, moment(1));
    let chunk = ChunkCoords { x: 1, y: 1 };
    let (cells, authors) = state.get_chunk_with_authors(chunk);
    assert_eq!(cells.len(), 2);
    assert_eq!(authors.get(&ann.user_id), Some(&state.username_of(ann.user_id)));
    let lod = state.get_lod_colors(chunk, 4);
    assert_eq!(lod.len(), 1);
    assert_eq!(lod[0].color, Rgb(9, 8, 7));
    match state.stats() {
        ServerMsg::Stats { total_cells, online, top_authors } => {
            assert_eq!(total_cells, 2);
            assert_eq!(online, 1);
            assert_eq!(top_authors.len(), 1);
        }
        _ => panic!("no stats"),
    }
}

#[test]
fn leaving_is_told() {
    let mut state = AppState::new();
    let mut ann = join(&mut state, 1, "a");
    let _ben = join(&mut state, 2, "b");
    let out = state.handle_message(
        &mut ann,
        ClientMsg::UpdateCursor { pos: pos(5, 5), color: Rgb(1, 1, 1) },
        moment(1),
    );
    assert!(out.iter().any(|o| matches!(o, Outgoing::To(2, ServerMsg::CursorUpdate { pos: p, .. }) if *p == pos(5, 5))));
    let notes = state.disconnect(1);
    assert!(notes.iter().any(|(id, m)| *id == 2 && matches!(m, ServerMsg::CursorLeft { user_id } if *user_id == ann.user_id)));
    assert!(state.disconnect(1).is_empty());
}

#[test]
fn what_is_done_is_logged() {
    let mut state = AppState::new();
    let mut ann = join(&mut state, 1, "a");
    state.outbox.clear();
    let cells = vec![write(0, 0, 'x')];
    state.handle_message(&mut ann, ClientMsg::SetCellBatch { cells, commit: true }, moment(7));
    assert_eq!(state.outbox.len(), 1);
    match &state.outbox[0] {
        SegmentEvent::Action(a) => {
            assert_eq!(a.author_id, ann.user_id);
            assert_eq!(a.ts, 7);
            assert_eq!(a.changes.len(), 1);
            assert_eq!(a.changes[0].old, None);
        }
        _ => panic!("not an action"),
    }
}

#[test]
fn drafts_are_shown_but_not_kept() {
    let mut state = AppState::new();
    let mut ann = join(&mut state, 1, "a");
    let cells = vec![write(0, 0, 'x')];
    state.handle_message(&mut ann, ClientMsg::SetCellBatch { cells, commit: false }, moment(7));
    assert!(state.current_cell(pos(0, 0)).is_none());
    assert_eq!(state.take_news().len(), 1);
}

#[test]
fn a_region_keeps_others_from_undoing() {
    let mut state = AppState::new();
    let mut ann = join(&mut state, 1, "a");
    let mut ben = join(&mut state, 2, "b");
    ann.is_anon = false;
    let cells = vec![write(1, 1, 'x')];
    state.handle_message(&mut ann, ClientMsg::SetCellBatch { cells, commit: true }, moment(1));
    state.protect(&ann, WorldRect { a: pos(0, 0), b: pos(3, 3) }, "mine");
    let undo = || ClientMsg::RestoreCellBatch { cells: vec![RestoreCoord { pos: pos(1, 1) }] };
    let out = state.handle_message(&mut ben, undo(), moment(2));
    assert!(matches!(&out[0], Outgoing::Back(ServerMsg::Denied { pos: p, .. }) if *p == pos(1, 1)));
    assert_eq!(state.current_cell(pos(1, 1)).unwrap().ch, 'x');
    assert!(state.handle_message(&mut ann, undo(), moment(3)).is_empty());
    assert!(state.current_cell(pos(1, 1)).is_none());
}

#[test]
fn an_account_has_one_connection() {
    let mut state = AppState::new();
    let who = state.identify(None, "tok".to_string());
    let uid = who.uid;
    state.admit_client(7, "ip".to_string(), who);
    let again = state.identify(Some("tok".to_string()), "other".to_string());
    state.admit_client(8, "ip".to_string(), again);
    assert!(state.connections.get(&7).is_none());
    assert_eq!(state.connections.get(&8).unwrap().user_id, uid);
}
