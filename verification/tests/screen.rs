use walloftext::actions::Action;
use walloftext::color::Rgb;
use walloftext::coords::{WorldCoords, WorldRect};
use walloftext::editor::Editor;
use walloftext::http::{base_url, extract_ip, Header};
use walloftext::info::pos_text;
use walloftext::keys::{
    on_keydown, on_mobile_char, on_mobile_key, on_mousedown, KeyCommand, KeyPress, PressCommand,
};
use walloftext::layout::{SavedLayout, SavedPanel};
use walloftext::logbook::contiguous_word;
use walloftext::msg::{CellUpdateEntry, ClientMsg, RegionRecord};
use walloftext::nav::{anchor_text, read_anchor, read_goto, socket_url};
use walloftext::panels::{find_widget, widgets, Widget};
use walloftext::pointer::{
    on_mouseup, on_touchend, on_touchmove, on_touchstart, MoveCommand, TouchCommand,
};
use walloftext::ruler::{region_style, ruler_marks, ruler_step};
use walloftext::ui::{HoveredLink, Order};

fn pos(x: i16, y: i16) -> WorldCoords {
    WorldCoords { x, y }
}

fn editor() -> Editor {
    Editor::new(Rgb(0, 255, 65))
}

fn key(name: &str, ctrl: bool, shift: bool) -> KeyPress {
    KeyPress {
        key: name.to_string(),
        code: String::new(),
        ctrl,
        shift,
        alt: false,
        meta: false,
    }
}

#[test]
fn keys_move_type_and_command() {
    let r = on_keydown(&key("ArrowLeft", false, false), false, true);
    assert!(matches!(r.command, KeyCommand::Act(Action::MoveCursor { dx: -1, dy: 0 })));
    let r = on_keydown(&key("ArrowUp", false, true), false, true);
    assert!(matches!(r.command, KeyCommand::Act(Action::SelectExtendBy { dx: 0, dy: -1 })));
    let undo = KeyPress { code: "KeyZ".to_string(), ..key("z", true, false) };
    let r = on_keydown(&undo, false, true);
    assert!(r.prevent_default);
    assert!(matches!(r.command, KeyCommand::Act(Action::Undo)));
    let r = on_keydown(&key("q", false, false), false, true);
    assert!(matches!(r.command, KeyCommand::Act(Action::TypeChar('q'))));
    let r = on_keydown(&key("q", false, false), true, true);
    assert!(!r.prevent_default);
    assert!(matches!(r.command, KeyCommand::Nothing));
}

#[test]
fn on_screen_keys_are_read_too() {
    assert!(matches!(on_mobile_char('\n'), Some(Action::MobileNewline)));
    assert!(matches!(on_mobile_char('\u{8}'), Some(Action::MobileBackspace)));
    assert!(matches!(on_mobile_char('a'), Some(Action::MobileChar('a'))));
    assert!(on_mobile_char('\u{7f}').is_none());
    assert!(matches!(on_mobile_key("Enter", false, true), Some(Action::MobileNewline)));
    assert!(matches!(on_mobile_key("Z", true, true), Some(Action::Undo)));
    assert!(on_mobile_key("Enter", false, false).is_none());
}

#[test]
fn buttons_pan_or_act_on_a_cell() {
    assert!(matches!(on_mousedown(1, false, false, true), PressCommand::Pan { prevent_default: true }));
    assert!(matches!(on_mousedown(0, true, false, true), PressCommand::Pan { prevent_default: true }));
    assert!(matches!(on_mousedown(0, false, false, false), PressCommand::Pan { prevent_default: false }));
    assert!(matches!(on_mousedown(0, false, true, true), PressCommand::Extend));
    assert!(matches!(on_mousedown(0, false, false, true), PressCommand::Jump));
    assert!(matches!(on_mousedown(2, false, false, true), PressCommand::Nothing));
}

#[test]
fn moving_the_mouse_pans_drags_or_hovers() {
    let mut e = editor();
    e.dispatch(Action::PasteText("#1,2".to_string()), 0);
    assert!(matches!(e.on_mousemove(true, pos(0, 0), None), MoveCommand::Pan));
    match e.on_mousemove(false, pos(2, 0), None) {
        MoveCommand::Hover { pos: p, link } => {
            assert_eq!(p, pos(2, 0));
            assert!(matches!(link, Some(HoveredLink::Coord(q)) if q == pos(1, 2)));
        }
        _ => panic!("no hover"),
    }
    assert!(matches!(e.on_mousemove(false, pos(2, 0), Some(pos(2, 0))), MoveCommand::Stay));
    e.ui.cursor.sel.drag = true;
    assert!(matches!(e.on_mousemove(false, pos(3, 3), None), MoveCommand::Drag(p) if p == pos(3, 3)));
    assert_eq!(on_mouseup(true, pos(0, 0)).len(), 1);
    let up = on_mouseup(false, pos(4, 4));
    assert!(matches!(&up[1], Action::SelectEnd { pos: p } if *p == pos(4, 4)));
}

#[test]
fn fingers_are_counted() {
    assert_eq!(on_touchstart(1), TouchCommand::One);
    assert_eq!(on_touchstart(2), TouchCommand::Two);
    assert_eq!(on_touchstart(3), TouchCommand::Nothing);
    assert_eq!(on_touchmove(1, 1), TouchCommand::One);
    assert_eq!(on_touchmove(2, 1), TouchCommand::Nothing);
    assert_eq!(on_touchend(1, 2), TouchCommand::TwoToOne);
    assert_eq!(on_touchend(0, 1), TouchCommand::End);
}

#[test]
fn panels_open_and_close() {
    let mut e = editor();
    e.toggle("panel-stats");
    assert!(e.panels.is_open("panel-stats"));
    let orders = e.net.take_orders();
    assert!(orders.iter().any(|o| matches!(o, Order::ShowPanel(p) if p == "panel-stats")));
    assert!(orders.iter().any(|o| matches!(o, Order::Send(ClientMsg::FetchStats))));
    assert!(orders.iter().any(|o| matches!(o, Order::SaveLayout)));
    e.toggle("panel-stats");
    assert!(!e.panels.is_open("panel-stats"));
    e.toggle("nonsense");
    assert!(!e.panels.is_open("nonsense"));
    assert_eq!(find_widget("colorbar"), Some(Widget::ColorBar));
    assert_eq!(find_widget("nonsense"), None);
    assert_eq!(widgets().len(), 11);
}

#[test]
fn only_what_has_changed_is_drawn() {
    let mut e = editor();
    e.render_dirty();
    assert!(e.render_dirty().is_empty());
    e.mark_dirty(Widget::Stats.dirty_bit());
    assert_eq!(e.render_dirty(), vec![Widget::Stats]);
    e.schedule_render();
    e.schedule_render();
    let frames = e.net.take_orders().iter().filter(|o| matches!(o, Order::RequestFrame)).count();
    assert_eq!(frames, 1);
    e.mark_canvas_dirty();
    assert!(e.on_frame());
    assert!(!e.on_frame());
}

#[test]
fn the_layout_comes_back_on_the_next_visit() {
    let mut e = editor();
    e.set_color("#102030");
    e.move_to(pos(11, -12));
    e.add_bookmark("home".to_string());
    e.add_bookmark(String::new());
    e.open_panel("panel-log");
    let saved = e.save_layout(&vec![(Widget::Log, "5px".to_string(), "6px".to_string())]);
    let mut f = editor();
    let steps = f.load_layout(Some(saved));
    assert_eq!(f.ui.color, Rgb(0x10, 0x20, 0x30));
    assert_eq!(f.ui.bookmarks.len(), 2);
    assert_eq!(f.ui.bookmarks[0].0, "home");
    assert_eq!(f.ui.bookmarks[1].0, "(11,-12)");
    assert_eq!(f.bookmark_place(0), pos(11, -12));
    assert_eq!(f.bookmark_place(9), pos(0, 0));
    assert!(f.panels.is_open("panel-log"));
    assert!(!f.panels.is_open("panel-help"));
    let log = steps.iter().find(|s| s.widget == Widget::Log).unwrap();
    assert!(log.show);
    assert_eq!(log.move_to, Some(("5px".to_string(), "6px".to_string())));
    f.remove_bookmark(0);
    f.remove_bookmark(7);
    assert_eq!(f.ui.bookmarks.len(), 1);
}

#[test]
fn a_first_visit_opens_the_help() {
    let mut e = editor();
    assert!(e.load_layout(None).is_empty());
    assert!(e.panels.is_open("panel-help"));
    let odd = SavedLayout {
        color: None,
        bookmarks: Some(vec![("far".to_string(), 99_999, -99_999)]),
        panels: vec![SavedPanel {
            widget: Widget::Auth,
            open: false,
            left: Some(String::new()),
            top: Some("1px".to_string()),
        }],
    };
    let steps = e.load_layout(Some(odd));
    assert_eq!(e.ui.bookmarks[0].1, 2047);
    assert_eq!(e.ui.bookmarks[0].2, -2048);
    assert!(steps[0].move_to.is_none());
    assert!(!steps[0].show);
}

#[test]
fn requests_are_sent_or_refused() {
    let mut e = editor();
    e.request_login(String::new(), "x".to_string());
    assert!(matches!(&e.net.take_orders()[0], Order::Status(s) if s == "enter credentials"));
    e.request_login("ann".to_string(), "secret".to_string());
    assert!(matches!(&e.net.take_orders()[0], Order::Send(ClientMsg::Login { username, .. }) if username == "ann"));
    e.request_region("here".to_string());
    assert!(matches!(&e.net.take_orders()[0], Order::Status(s) if s == "select area first"));
    e.dispatch(Action::SelectExtendBy { dx: 3, dy: 2 }, 0);
    e.net.take_orders();
    e.request_region(String::new());
    match &e.net.take_orders()[0] {
        Order::Send(ClientMsg::AddRegion { bounds, label }) => {
            assert_eq!(label, "protected");
            assert_eq!(bounds.area(), 12);
        }
        _ => panic!("no request"),
    }
    e.request_logout();
    assert!(e.net.take_orders().iter().any(|o| matches!(o, Order::Send(ClientMsg::Logout))));
}

#[test]
fn places_are_written_into_the_address_and_read_back() {
    assert_eq!(anchor_text(-5, 17, 150), "?at=-5,17,150");
    let (x, y, zoom) = read_anchor(&anchor_text(-5, 17, 150)).unwrap();
    assert_eq!((x, y), (-5, 17));
    assert_eq!(zoom.as_deref(), Some("150"));
    assert!(read_anchor("?other=1").is_none());
    assert_eq!(read_goto("3,4"), Some(pos(3, 4)));
    assert_eq!(read_goto("nowhere"), None);
    assert_eq!(socket_url("https:", "host", "tok"), "wss://host/ws?token=tok");
    assert!(socket_url("http:", "host", "").starts_with("ws://host/ws"));
    assert_eq!(pos_text(pos(-1, 2)), "-1,2");
}

#[test]
fn addresses_come_from_the_headers() {
    let text = |s: &str| Header::Text(s.to_string());
    assert_eq!(extract_ip(&text("1.1.1.1"), &text("2.2.2.2")), "1.1.1.1");
    assert_eq!(extract_ip(&Header::Missing, &text("2.2.2.2")), "2.2.2.2");
    assert_eq!(base_url(&text("https"), &text("a.b"), &text("c.d")), "https://a.b");
}

#[test]
fn a_word_is_told_of_as_a_word() {
    let u = |x: i16, ch: char| CellUpdateEntry {
        pos: pos(x, 0),
        ch: Some(ch),
        color: Rgb(0, 0, 0),
        ts: 0,
        author_id: 3,
    };
    let updates = vec![u(0, 'c'), u(1, 'a'), u(2, 't'), u(9, 'x')];
    assert_eq!(contiguous_word(&updates, 0, 3), Some("cat".to_string()));
    assert_eq!(contiguous_word(&updates, 0, 4), None);
}

#[test]
fn rulers_step_in_round_numbers() {
    let s = ruler_step(7);
    assert!(s >= 7);
    let marks = ruler_marks(-20, 20, 10, true);
    assert!(marks.contains(&-20) && marks.contains(&10) && !marks.contains(&0));
    assert!(ruler_marks(-20, 20, 10, false).contains(&0));
    let r = RegionRecord {
        id: 1,
        bounds: WorldRect { a: pos(0, 0), b: pos(4, 4) },
        label: String::new(),
        owner_id: 7,
        owner: String::new(),
    };
    let style = region_style(&r, 7, pos(2, 2), false);
    assert!(style.mine && style.highlighted);
    let style = region_style(&r, 8, pos(9, 9), false);
    assert!(!style.mine && !style.highlighted);
}
