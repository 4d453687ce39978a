//! Where a cell lies, and what the keyboard and the mouse do to it.

use vstd::prelude::*;
use vstd::string::StrSliceExecFns;
use crate::gui::board::Board;
use crate::gui::cell::CellValue;
use crate::text::{char_to_digit, digit_value};

verus! {

/// The column and the row of a cell.
#[derive(Clone, Copy, Debug)]
pub struct CellPosition {
    pub x: u16,
    pub y: u16,
}

/// The four keys that move the focus.
#[derive(Clone, Copy, Debug, PartialEq, Eq)]
pub enum Arrow {
    Left,
    Right,
    Up,
    Down,
}

/// What can happen to a cell.
#[derive(Debug)]
pub enum CellEvent {
    /// A key that types the given text.
    Character(String),
    /// Backspace or delete.
    Erase,
    /// One of the arrow keys.
    Arrow(Arrow),
    /// A press of a mouse button.
    Click,
    /// Anything else.
    Other,
}

/// What is to be done about the focus after an event.
#[derive(Clone, Copy, Debug)]
pub enum FocusChange {
    /// Nothing.
    Keep,
    /// Hand the focus to the cell at this position.
    MoveTo(CellPosition),
    /// Ask for the focus.
    Request,
    /// Give the focus up.
    Resign,
}

/// The background that a cell is painted with.
#[derive(Clone, Copy, Debug, PartialEq, Eq)]
pub enum CellShade {
    /// That of a cell given by the puzzle.
    Fixed,
    /// That of the cell that has the focus.
    Focused,
    /// That of any other cell.
    Plain,
}

/// The background for a cell. A cell given by the puzzle never has the focus.
pub fn shade(value: &CellValue, focused: bool) -> (res: CellShade)
    requires
        !(value is Fixed && focused),
    ensures
        res == if value is Fixed {
            CellShade::Fixed
        } else if focused {
            CellShade::Focused
        } else {
            CellShade::Plain
        },
{
    if value.is_fixed() {
        CellShade::Fixed
    } else if focused {
        CellShade::Focused
    } else {
        CellShade::Plain
    }
}

/// The digit from 1 to 9 that the last character of `typed` stands for.
pub open spec fn typed_digit(typed: Seq<char>) -> Option<u16> {
    if typed.len() == 0 {
        None
    } else {
        match digit_value(typed.last()) {
            Some(v) => if 1 <= v <= 9 {
                Some(v as u16)
            } else {
                None
            },
            None => None,
        }
    }
}

/// The digit from 1 to 9 that the last character of `typed` stands for.
pub fn digit_typed(typed: &str) -> (res: Option<u16>)
    ensures
        res == typed_digit(typed@),
{
    let n = typed.unicode_len();
    if n == 0 {
        return None;
    }
    match char_to_digit(typed.get_char(n - 1)) {
        Some(v) => if 1 <= v && v <= 9 {
            Some(v as u16)
        } else {
            None
        },
        None => None,
    }
}

impl CellPosition {
    /// The number of the cell when the cells are counted row by row.
    pub fn to_absolute(self) -> (id: u16)
        requires
            self.y * 9 + self.x <= u16::MAX,
        ensures
            id == self.y * 9 + self.x,
    {
        self.y * 9 + self.x
    }

    /// The position lies on the board.
    pub open spec fn on_board(self) -> bool {
        self.x < 9 && self.y < 9
    }
}

impl Board {
    /// The cell at `(x, y)` is the player's to fill in.
    pub open spec fn free(self, x: int, y: int) -> bool {
        0 <= x < 9 && 0 <= y < 9 && !(self.cells[x][y] is Fixed)
    }

    /// Where the focus goes from `pos` on an arrow key: to the nearest
    /// cell in that direction that the player may fill in, and nowhere if
    /// there is none.
    pub open spec fn focus_after(self, pos: CellPosition, arrow: Arrow, to: CellPosition) -> bool {
        match arrow {
            Arrow::Right => {
                &&& to.y == pos.y
                &&& to.x == pos.x || (pos.x < to.x && self.free(to.x as int, pos.y as int))
                &&& forall|x: int|
                    pos.x < x < 9 && (to.x == pos.x || x < to.x) ==> !#[trigger] self.free(
                        x,
                        pos.y as int,
                    )
            },
            Arrow::Left => {
                &&& to.y == pos.y
                &&& to.x == pos.x || (to.x < pos.x && self.free(to.x as int, pos.y as int))
                &&& forall|x: int|
                    0 <= x < pos.x && (to.x == pos.x || to.x < x) ==> !#[trigger] self.free(
                        x,
                        pos.y as int,
                    )
            },
            Arrow::Down => {
                &&& to.x == pos.x
                &&& to.y == pos.y || (pos.y < to.y && self.free(pos.x as int, to.y as int))
                &&& forall|y: int|
                    pos.y < y < 9 && (to.y == pos.y || y < to.y) ==> !#[trigger] self.free(
                        pos.x as int,
                        y,
                    )
            },
            Arrow::Up => {
                &&& to.x == pos.x
                &&& to.y == pos.y || (to.y < pos.y && self.free(pos.x as int, to.y as int))
                &&& forall|y: int|
                    0 <= y < pos.y && (to.y == pos.y || to.y < y) ==> !#[trigger] self.free(
                        pos.x as int,
                        y,
                    )
            },
        }
    }

    /// Where the focus goes from `pos` on an arrow key.
    pub fn shift_focus(&self, pos: CellPosition, arrow: Arrow) -> (to: CellPosition)
        requires
            pos.on_board(),
        ensures
            to.on_board(),
            self.focus_after(pos, arrow, to),
    {
        let x_pos: usize = pos.x as usize;
        let y_pos: usize = pos.y as usize;
        match arrow {
            Arrow::Right => {
                let mut x: usize = x_pos + 1;
                while x < 9
                    invariant
                        arrow is Right,
                        pos.on_board(),
                        x_pos == pos.x,
                        y_pos == pos.y,
                        x_pos < x <= 9,
                        y_pos < 9,
                        forall|a: int| x_pos < a < x ==> !#[trigger] self.free(a, y_pos as int),
                    decreases 9 - x,
                {
                    if !self.cells[x][y_pos].is_fixed() {
                        return CellPosition { x: x as u16, y: pos.y };
                    }
                    x += 1;
                }
                pos
            },
            Arrow::Left => {
                let mut x: usize = x_pos;
                while x > 0
                    invariant
                        arrow is Left,
                        pos.on_board(),
                        x_pos == pos.x,
                        y_pos == pos.y,
                        x <= x_pos < 9,
                        y_pos < 9,
                        forall|a: int| x <= a < x_pos ==> !#[trigger] self.free(a, y_pos as int),
                    decreases x,
                {
                    x -= 1;
                    if !self.cells[x][y_pos].is_fixed() {
                        return CellPosition { x: x as u16, y: pos.y };
                    }
                }
                pos
            },
            Arrow::Down => {
                let mut y: usize = y_pos + 1;
                while y < 9
                    invariant
                        arrow is Down,
                        pos.on_board(),
                        x_pos == pos.x,
                        y_pos == pos.y,
                        y_pos < y <= 9,
                        x_pos < 9,
                        forall|b: int| y_pos < b < y ==> !#[trigger] self.free(x_pos as int, b),
                    decreases 9 - y,
                {
                    if !self.cells[x_pos][y].is_fixed() {
                        return CellPosition { x: pos.x, y: y as u16 };
                    }
                    y += 1;
                }
                pos
            },
            Arrow::Up => {
                let mut y: usize = y_pos;
                while y > 0
                    invariant
                        arrow is Up,
                        pos.on_board(),
                        x_pos == pos.x,
                        y_pos == pos.y,
                        y <= y_pos < 9,
                        x_pos < 9,
                        forall|b: int| y <= b < y_pos ==> !#[trigger] self.free(x_pos as int, b),
                    decreases y,
                {
                    y -= 1;
                    if !self.cells[x_pos][y].is_fixed() {
                        return CellPosition { x: pos.x, y: y as u16 };
                    }
                }
                pos
            },
        }
    }

    /// What an event at the cell at `pos` leaves in that cell.
    pub open spec fn cell_after(self, pos: CellPosition, event: CellEvent) -> CellValue {
        let was = self.cells[pos.x as int][pos.y as int];
        if was is Fixed {
            was
        } else {
            match event {
                CellEvent::Character(typed) => match typed_digit(typed@) {
                    Some(num) => CellValue::Unfixed(Some(num)),
                    None => was,
                },
                CellEvent::Erase => CellValue::Unfixed(None),
                _ => was,
            }
        }
    }

    /// Applies an event to the cell at `pos`: a digit from 1 to 9 is
    /// entered, backspace and delete empty the cell, an arrow key moves the
    /// focus if the cell has it, and a click hands the focus over or takes
    /// it away. A cell given by the puzzle takes no event.
    pub fn handle_event(
        &mut self,
        pos: CellPosition,
        event: &CellEvent,
        is_focused: bool,
        has_focus: bool,
    ) -> (change: FocusChange)
        requires
            pos.on_board(),
        ensures
            final(self).cells[pos.x as int][pos.y as int] == old(self).cell_after(pos, *event),
            forall|x: int, y: int|
                0 <= x < 9 && 0 <= y < 9 && (x != pos.x || y != pos.y) ==> final(self).cells[x][y]
                    == old(self).cells[x][y],
            match change {
                FocusChange::Keep => old(self).cells[pos.x as int][pos.y as int] is Fixed || (
                match *event {
                    CellEvent::Arrow(_) => !is_focused,
                    CellEvent::Click => false,
                    _ => true,
                }),
                FocusChange::MoveTo(to) => !(old(self).cells[pos.x as int][pos.y as int] is Fixed)
                    && is_focused && to.on_board() && (*event matches CellEvent::Arrow(arrow)
                    && old(self).focus_after(pos, arrow, to)),
                FocusChange::Request => !(old(self).cells[pos.x as int][pos.y as int] is Fixed)
                    && *event is Click && !has_focus,
                FocusChange::Resign => !(old(self).cells[pos.x as int][pos.y as int] is Fixed)
                    && *event is Click && has_focus,
            },
    {
        let x: usize = pos.x as usize;
        let y: usize = pos.y as usize;
        if self.cells[x][y].is_fixed() {
            return FocusChange::Keep;
        }
        match event {
            CellEvent::Character(typed) => {
                if let Some(num) = digit_typed(typed.as_str()) {
                    self.cells[x][y] = CellValue::Unfixed(Some(num));
                }
                FocusChange::Keep
            },
            CellEvent::Erase => {
                self.cells[x][y] = CellValue::Unfixed(None);
                FocusChange::Keep
            },
            CellEvent::Arrow(arrow) => {
                if is_focused {
                    FocusChange::MoveTo(self.shift_focus(pos, *arrow))
                } else {
                    FocusChange::Keep
                }
            },
            CellEvent::Click => {
                if has_focus {
                    FocusChange::Resign
                } else {
                    FocusChange::Request
                }
            },
            CellEvent::Other => FocusChange::Keep,
        }
    }
}

} // verus!
