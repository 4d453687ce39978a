//! What one cell of the grid shows.

use vstd::prelude::*;
use crate::text::{digit_char, digit_to_char};

verus! {

/// A cell is either given by the puzzle, or the player's to fill in.
#[derive(Clone, Copy, Debug, PartialEq, Eq)]
pub enum CellValue {
    /// A digit of the puzzle.
    Fixed(u16),
    /// What the player has entered, if anything.
    Unfixed(Option<u16>),
}

/// The decimal digits of `n`.
pub open spec fn decimal_text(n: nat) -> Seq<char>
    decreases n,
{
    if n < 10 {
        seq![digit_char(n as int)]
    } else {
        decimal_text(n / 10).push(digit_char((n % 10) as int))
    }
}

/// Appends the decimal digits of `n` to `text`.
pub fn push_decimal(text: &mut String, n: u16)
    ensures
        final(text)@ == old(text)@ + decimal_text(n as nat),
    decreases n,
{
    if n >= 10 {
        push_decimal(text, n / 10);
    }
    text.push(digit_to_char((n % 10) as u8));
    assert(text@ =~= old(text)@ + decimal_text(n as nat));
}

impl CellValue {
    /// Whether the cell is given by the puzzle.
    pub fn is_fixed(&self) -> (res: bool)
        ensures
            res == (self is Fixed),
    {
        matches!(self, Self::Fixed(_))
    }

    /// The number in the cell, if there is one.
    pub open spec fn number(self) -> Option<u16> {
        match self {
            CellValue::Fixed(val) => Some(val),
            CellValue::Unfixed(val) => val,
        }
    }

    /// The number in the cell, if there is one.
    pub fn value(&self) -> (res: Option<u16>)
        ensures
            res == self.number(),
    {
        match self {
            CellValue::Fixed(val) => Some(*val),
            CellValue::Unfixed(val) => *val,
        }
    }

    /// What the cell shows.
    pub open spec fn shown(self) -> Seq<char> {
        match self.number() {
            Some(val) => decimal_text(val as nat),
            None => Seq::empty(),
        }
    }

    /// What the cell shows: its number, or nothing.
    pub fn text(&self) -> (text: String)
        ensures
            text@ == self.shown(),
    {
        let mut text = String::new();
        match self.value() {
            Some(val) => {
                push_decimal(&mut text, val);
                assert(text@ =~= decimal_text(val as nat));
            },
            None => {},
        }
        text
    }
}

impl Default for CellValue {
    fn default() -> (res: Self)
        ensures
            res == CellValue::Unfixed(None),
    {
        Self::Unfixed(None)
    }
}

impl From<CellValue> for Option<u16> {
    fn from(cell: CellValue) -> (res: Option<u16>) {
        cell.value()
    }
}

impl vstd::std_specs::convert::FromSpecImpl<CellValue> for Option<u16> {
    open spec fn obeys_from_spec() -> bool {
        true
    }

    open spec fn from_spec(cell: CellValue) -> Option<u16> {
        cell.number()
    }
}

} // verus!
