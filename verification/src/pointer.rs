//! What the mouse and the fingers ask for over the board.

use vstd::prelude::*;

use crate::actions::Action;
use crate::coords::WorldCoords;
use crate::editor::Editor;
use crate::link::{detect_link, link_at, LinkView};
use crate::ui::HoveredLink;

verus! {

/// What moving the mouse asks for.
pub enum MoveCommand {
    /// Move the view.
    Pan,
    /// Mark up to the cell.
    Drag(WorldCoords),
    /// The pointer is over another cell, which may be part of a link.
    Hover { pos: WorldCoords, link: Option<HoveredLink> },
    /// The pointer is over the same cell as before.
    Stay,
}

/// `l` is where the cell leads.
pub open spec fn leads(l: Option<HoveredLink>, to: Option<LinkView>) -> bool {
    match (l, to) {
        (Some(l), Some(v)) => l@ == v,
        (None, None) => true,
        _ => false,
    }
}

impl Editor {
    /// What moving the mouse to a cell asks for.
    pub fn on_mousemove(&self, panning: bool, pos: WorldCoords, hover: Option<WorldCoords>) -> (r:
        MoveCommand)
        requires
            self.wf(),
            pos.on_board(),
        ensures
            if panning {
                r is Pan
            } else if self@.ui.cursor.sel.drag {
                r == MoveCommand::Drag(pos)
            } else if hover != Some(pos) {
                r matches MoveCommand::Hover { pos: p, link } && p == pos && leads(
                    link,
                    link_at(self@.board.nodes, pos),
                )
            } else {
                r is Stay
            },
    {
        if panning {
            return MoveCommand::Pan;
        }
        if self.ui.cursor.sel.drag {
            return MoveCommand::Drag(pos);
        }
        let same = match hover {
            Some(h) => h == pos,
            None => false,
        };
        if same {
            MoveCommand::Stay
        } else {
            MoveCommand::Hover { pos, link: detect_link(&self.board.chunk_manager, pos) }
        }
    }
}

/// What letting go of the mouse asks for, in turn.
pub fn on_mouseup(was_panning: bool, pos: WorldCoords) -> (r: Vec<Action>)
    ensures
        r@ == (if was_panning {
            seq![Action::PanEnd]
        } else {
            seq![Action::PanEnd, Action::SelectEnd { pos }]
        }),
{
    let mut out: Vec<Action> = Vec::new();
    out.push(Action::PanEnd);
    if !was_panning {
        out.push(Action::SelectEnd { pos });
    }
    out
}

/// What a change of the fingers on the board asks for.
#[derive(Debug, Clone, Copy, PartialEq, Eq, Structural)]
pub enum TouchCommand {
    Nothing,
    /// One finger: the board is tapped or moved.
    One,
    /// Two fingers: the board is zoomed.
    Two,
    /// One of two fingers is left.
    TwoToOne,
    /// The last finger is gone, or all but more than one are.
    End,
}

/// Fingers come down: `n` of them are on the board now.
pub fn on_touchstart(n: u32) -> (r: TouchCommand)
    ensures
        r == (if n == 1 {
            TouchCommand::One
        } else if n == 2 {
            TouchCommand::Two
        } else {
            TouchCommand::Nothing
        }),
{
    if n == 1 {
        TouchCommand::One
    } else if n == 2 {
        TouchCommand::Two
    } else {
        TouchCommand::Nothing
    }
}

/// Fingers move: as many as were there before, or nothing is made of it.
pub fn on_touchmove(n: u32, before: u32) -> (r: TouchCommand)
    ensures
        r == (if n == 1 && before == 1 {
            TouchCommand::One
        } else if n == 2 && before == 2 {
            TouchCommand::Two
        } else {
            TouchCommand::Nothing
        }),
{
    if n == 1 && before == 1 {
        TouchCommand::One
    } else if n == 2 && before == 2 {
        TouchCommand::Two
    } else {
        TouchCommand::Nothing
    }
}

/// Fingers are lifted: `left` of them are still there.
pub fn on_touchend(left: u32, before: u32) -> (r: TouchCommand)
    ensures
        r == (if before == 2 && left == 1 {
            TouchCommand::TwoToOne
        } else {
            TouchCommand::End
        }),
{
    if before == 2 && left == 1 {
        TouchCommand::TwoToOne
    } else {
        TouchCommand::End
    }
}

} // verus!
