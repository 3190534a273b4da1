//! What the keys mean.

use vstd::prelude::*;

use crate::actions::Action;
use crate::text::{chars_of, is_control, is_control_char, same_text};

verus! {

/// What a key asks for. Some of it can be done only where the size of the view is
/// known.
pub enum KeyCommand {
    Nothing,
    Zoom { dir: i32 },
    ZoomReset,
    /// Read the clipboard, and paste what it holds.
    Paste,
    PageDown,
    PageUp,
    Act(Action),
}

/// What is to be done about a key, and whether the browser is kept from doing
/// what it would.
pub struct KeyOutcome {
    pub prevent_default: bool,
    pub command: KeyCommand,
}

/// A key that was pressed.
pub struct KeyPress {
    /// The character it gives, or its name.
    pub key: String,
    /// Where on the keyboard it is.
    pub code: String,
    pub ctrl: bool,
    pub shift: bool,
    pub alt: bool,
    pub meta: bool,
}

/// The panel that a key with `Ctrl` opens and closes.
pub open spec fn panel_of(code: Seq<char>) -> Option<Seq<char>> {
    if code == "KeyR"@ || code == "KeyP"@ {
        Some("panel-regions"@)
    } else if code == "KeyS"@ {
        Some("panel-stats"@)
    } else if code == "KeyL"@ {
        Some("panel-log"@)
    } else if code == "KeyU"@ {
        Some("panel-auth"@)
    } else if code == "KeyG"@ {
        Some("panel-snap"@)
    } else if code == "KeyH"@ {
        Some("panel-help"@)
    } else {
        None
    }
}

/// `c` is what a key with `Ctrl` asks for.
pub open spec fn ctrl_means(code: Seq<char>, c: KeyCommand) -> bool {
    if code == "Equal"@ || code == "NumpadAdd"@ {
        c == (KeyCommand::Zoom { dir: 1 })
    } else if code == "Minus"@ || code == "NumpadSubtract"@ {
        c == (KeyCommand::Zoom { dir: (-1) as i32 })
    } else if code == "Digit0"@ || code == "Numpad0"@ {
        c is ZoomReset
    } else if code == "KeyC"@ {
        c == KeyCommand::Act(Action::CopySelection)
    } else if code == "KeyZ"@ {
        c == KeyCommand::Act(Action::Undo)
    } else if code == "KeyV"@ {
        c is Paste
    } else {
        match panel_of(code) {
            Some(id) => c matches KeyCommand::Act(Action::TogglePanel(s)) && s@ == id,
            None => c is Nothing,
        }
    }
}

/// Moving the cursor, or stretching the selection.
pub open spec fn step(dx: i64, dy: i64, shift: bool) -> KeyCommand {
    KeyCommand::Act(
        if shift {
            Action::SelectExtendBy { dx, dy }
        } else {
            Action::MoveCursor { dx, dy }
        },
    )
}

/// What a key without `Ctrl` asks for.
pub open spec fn plain_command(key: Seq<char>, shift: bool) -> KeyCommand {
    if key == "ArrowRight"@ {
        step(1, 0, shift)
    } else if key == "ArrowLeft"@ {
        step((-1) as i64, 0, shift)
    } else if key == "ArrowDown"@ {
        step(0, 1, shift)
    } else if key == "ArrowUp"@ {
        step(0, (-1) as i64, shift)
    } else if key == "PageDown"@ {
        KeyCommand::PageDown
    } else if key == "PageUp"@ {
        KeyCommand::PageUp
    } else if key == "Home"@ {
        KeyCommand::Act(Action::MoveCursorLineStart)
    } else if key == "Enter"@ {
        KeyCommand::Act(Action::MoveCursorNewline)
    } else if key == "Tab"@ {
        KeyCommand::Act(Action::MoveCursor { dx: 4, dy: 0 })
    } else if key == "Backspace"@ {
        KeyCommand::Act(Action::DeleteBackward)
    } else if key == "Delete"@ {
        KeyCommand::Act(Action::DeleteForward)
    } else if key.len() == 1 && !is_control(key[0]) {
        KeyCommand::Act(Action::TypeChar(key[0]))
    } else {
        KeyCommand::Nothing
    }
}

/// `r` is what is to be done about `k`, while the characters can be read or not,
/// and while a text field has the keys or not.
pub open spec fn key_means(k: KeyPress, in_text_field: bool, glyph_mode: bool, r: KeyOutcome) -> bool {
    if in_text_field {
        !r.prevent_default && r.command is Nothing
    } else if k.key@ == "Escape"@ {
        !r.prevent_default && r.command == KeyCommand::Act(Action::SelectClear)
    } else if k.ctrl && !k.meta {
        r.prevent_default && ctrl_means(k.code@, r.command)
    } else if k.meta || k.alt || !glyph_mode {
        !r.prevent_default && r.command is Nothing
    } else {
        r.prevent_default && r.command == plain_command(k.key@, k.shift)
    }
}

fn panel_for(code: &str) -> (r: Option<String>)
    ensures
        match (r, panel_of(code@)) {
            (Some(s), Some(id)) => s@ == id,
            (None, None) => true,
            _ => false,
        },
{
    if same_text(code, "KeyR") || same_text(code, "KeyP") {
        Some("panel-regions".to_string())
    } else if same_text(code, "KeyS") {
        Some("panel-stats".to_string())
    } else if same_text(code, "KeyL") {
        Some("panel-log".to_string())
    } else if same_text(code, "KeyU") {
        Some("panel-auth".to_string())
    } else if same_text(code, "KeyG") {
        Some("panel-snap".to_string())
    } else if same_text(code, "KeyH") {
        Some("panel-help".to_string())
    } else {
        None
    }
}

fn ctrl_command(code: &str) -> (r: KeyCommand)
    ensures
        ctrl_means(code@, r),
{
    if same_text(code, "Equal") || same_text(code, "NumpadAdd") {
        KeyCommand::Zoom { dir: 1 }
    } else if same_text(code, "Minus") || same_text(code, "NumpadSubtract") {
        KeyCommand::Zoom { dir: -1 }
    } else if same_text(code, "Digit0") || same_text(code, "Numpad0") {
        KeyCommand::ZoomReset
    } else if same_text(code, "KeyC") {
        KeyCommand::Act(Action::CopySelection)
    } else if same_text(code, "KeyZ") {
        KeyCommand::Act(Action::Undo)
    } else if same_text(code, "KeyV") {
        KeyCommand::Paste
    } else {
        match panel_for(code) {
            Some(id) => KeyCommand::Act(Action::TogglePanel(id)),
            None => KeyCommand::Nothing,
        }
    }
}

fn step_command(dx: i64, dy: i64, shift: bool) -> (r: KeyCommand)
    ensures
        r == step(dx, dy, shift),
{
    if shift {
        KeyCommand::Act(Action::SelectExtendBy { dx, dy })
    } else {
        KeyCommand::Act(Action::MoveCursor { dx, dy })
    }
}

fn key_command(key: &str, shift: bool) -> (r: KeyCommand)
    ensures
        r == plain_command(key@, shift),
{
    if same_text(key, "ArrowRight") {
        step_command(1, 0, shift)
    } else if same_text(key, "ArrowLeft") {
        step_command(-1, 0, shift)
    } else if same_text(key, "ArrowDown") {
        step_command(0, 1, shift)
    } else if same_text(key, "ArrowUp") {
        step_command(0, -1, shift)
    } else if same_text(key, "PageDown") {
        KeyCommand::PageDown
    } else if same_text(key, "PageUp") {
        KeyCommand::PageUp
    } else if same_text(key, "Home") {
        KeyCommand::Act(Action::MoveCursorLineStart)
    } else if same_text(key, "Enter") {
        KeyCommand::Act(Action::MoveCursorNewline)
    } else if same_text(key, "Tab") {
        KeyCommand::Act(Action::MoveCursor { dx: 4, dy: 0 })
    } else if same_text(key, "Backspace") {
        KeyCommand::Act(Action::DeleteBackward)
    } else if same_text(key, "Delete") {
        KeyCommand::Act(Action::DeleteForward)
    } else {
        let v = chars_of(key);
        if v.len() == 1 && !is_control_char(v[0]) {
            KeyCommand::Act(Action::TypeChar(v[0]))
        } else {
            KeyCommand::Nothing
        }
    }
}

/// What is to be done about a key.
pub fn on_keydown(k: &KeyPress, in_text_field: bool, glyph_mode: bool) -> (r: KeyOutcome)
    ensures
        key_means(*k, in_text_field, glyph_mode, r),
{
    if in_text_field {
        return KeyOutcome { prevent_default: false, command: KeyCommand::Nothing };
    }
    if same_text(k.key.as_str(), "Escape") {
        return KeyOutcome {
            prevent_default: false,
            command: KeyCommand::Act(Action::SelectClear),
        };
    }
    if k.ctrl && !k.meta {
        return KeyOutcome { prevent_default: true, command: ctrl_command(k.code.as_str()) };
    }
    if k.meta || k.alt || !glyph_mode {
        return KeyOutcome { prevent_default: false, command: KeyCommand::Nothing };
    }
    KeyOutcome { prevent_default: true, command: key_command(k.key.as_str(), k.shift) }
}

/// What a character that an on-screen keyboard sends asks for.
pub open spec fn mobile_command(c: char) -> Option<Action> {
    if c == '\n' || c == '\r' {
        Some(Action::MobileNewline)
    } else if c as u32 == 8 {
        Some(Action::MobileBackspace)
    } else if !is_control(c) {
        Some(Action::MobileChar(c))
    } else {
        None
    }
}

pub fn on_mobile_char(c: char) -> (r: Option<Action>)
    ensures
        r == mobile_command(c),
{
    if c == '\n' || c == '\r' {
        Some(Action::MobileNewline)
    } else if c as u32 == 8 {
        Some(Action::MobileBackspace)
    } else if !is_control_char(c) {
        Some(Action::MobileChar(c))
    } else {
        None
    }
}

/// What a key of an on-screen keyboard asks for; nothing, if it is left to the
/// browser.
pub open spec fn mobile_key_command(key: Seq<char>, ctrl: bool, glyph_mode: bool) -> Option<Action> {
    if !glyph_mode {
        None
    } else if ctrl {
        if key == "z"@ || key == "Z"@ {
            Some(Action::Undo)
        } else {
            None
        }
    } else if key == "ArrowLeft"@ {
        Some(Action::MoveCursor { dx: (-1) as i64, dy: 0 })
    } else if key == "ArrowRight"@ {
        Some(Action::MoveCursor { dx: 1, dy: 0 })
    } else if key == "ArrowUp"@ {
        Some(Action::MoveCursor { dx: 0, dy: (-1) as i64 })
    } else if key == "ArrowDown"@ {
        Some(Action::MoveCursor { dx: 0, dy: 1 })
    } else if key == "Backspace"@ {
        Some(Action::MobileBackspace)
    } else if key == "Enter"@ {
        Some(Action::MobileNewline)
    } else {
        None
    }
}

pub fn on_mobile_key(key: &str, ctrl: bool, glyph_mode: bool) -> (r: Option<Action>)
    ensures
        r == mobile_key_command(key@, ctrl, glyph_mode),
{
    if !glyph_mode {
        None
    } else if ctrl {
        if same_text(key, "z") || same_text(key, "Z") {
            Some(Action::Undo)
        } else {
            None
        }
    } else if same_text(key, "ArrowLeft") {
        Some(Action::MoveCursor { dx: -1, dy: 0 })
    } else if same_text(key, "ArrowRight") {
        Some(Action::MoveCursor { dx: 1, dy: 0 })
    } else if same_text(key, "ArrowUp") {
        Some(Action::MoveCursor { dx: 0, dy: -1 })
    } else if same_text(key, "ArrowDown") {
        Some(Action::MoveCursor { dx: 0, dy: 1 })
    } else if same_text(key, "Backspace") {
        Some(Action::MobileBackspace)
    } else if same_text(key, "Enter") {
        Some(Action::MobileNewline)
    } else {
        None
    }
}

/// What a button of the mouse asks for over the board.
pub enum PressCommand {
    Nothing,
    /// Move the view. The browser is kept from doing what it would, or not.
    Pan { prevent_default: bool },
    /// Act on the cell under the pointer.
    Extend,
    Jump,
}

/// What pressing a button asks for.
pub fn on_mousedown(button: i16, alt: bool, shift: bool, glyph_mode: bool) -> (r: PressCommand)
    ensures
        r == (if button == 1 || (button == 0 && alt) {
            PressCommand::Pan { prevent_default: true }
        } else if button != 0 {
            PressCommand::Nothing
        } else if !glyph_mode {
            PressCommand::Pan { prevent_default: false }
        } else if shift {
            PressCommand::Extend
        } else {
            PressCommand::Jump
        }),
{
    if button == 1 || (button == 0 && alt) {
        PressCommand::Pan { prevent_default: true }
    } else if button != 0 {
        PressCommand::Nothing
    } else if !glyph_mode {
        PressCommand::Pan { prevent_default: false }
    } else if shift {
        PressCommand::Extend
    } else {
        PressCommand::Jump
    }
}

} // verus!
