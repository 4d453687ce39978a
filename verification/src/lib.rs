//! A Sudoku solver: candidate masks with reverse indices, propagation of
//! naked and hidden singles, and a backtracking search on top of it.
//!
//! - [`bits`]: nine-bit sets in a `u16`.
//! - [`candidates`]: the model, a grid of candidate sets and its 27 units.
//! - [`propagation`]: what a step of propagation does to the model.
//! - [`solver`]: the state, `eliminate`, `set_digit`, and `search`; in
//!   [`solver::cascade`], the order in which propagation does its work.
//! - [`laws`]: theorems about the solver as a whole.
//! - [`board`], [`gui`]: puzzles as text and as the board that is played on.
//! - [`puzzle_file`]: the packed file of puzzles.
//! - [`config`], [`text`]: how colours and numbers are written.
//! - [`arrays`]: arrays of nine, given by what they hold.

use vstd::prelude::*;

pub mod arrays;
pub mod bits;
pub mod board;
pub mod candidates;
pub mod config;
pub mod gui;
pub mod laws;
pub mod propagation;
pub mod puzzle_file;
pub mod solver;
pub mod text;

verus! {

/// The pieces of the frame that a board is drawn in.
#[derive(Clone, Copy)]
pub enum UnicodeBox {
    /// The upper edge, with its corners.
    Top,
    /// The lower edge, with its corners.
    Bottom,
    /// An upright bar.
    Vertical,
    /// A rule across the board, with its crossings.
    Horizontal,
}

impl UnicodeBox {
    /// The characters of the piece.
    pub open spec fn glyphs(self) -> Seq<char> {
        match self {
            UnicodeBox::Top => seq!['\u{256D}'] + text::repeated('\u{2500}', 11) + seq!['\u{256E}'],
            UnicodeBox::Bottom => seq!['\u{2570}'] + text::repeated('\u{2500}', 11) + seq![
                '\u{256F}',
            ],
            UnicodeBox::Vertical => seq!['\u{2502}'],
            UnicodeBox::Horizontal => seq!['\u{2502}'] + text::repeated('\u{2500}', 3) + seq![
                '\u{253c}',
            ] + text::repeated('\u{2500}', 3) + seq!['\u{253c}'] + text::repeated('\u{2500}', 3)
                + seq!['\u{2502}'],
        }
    }

    /// Appends the piece to `text`.
    pub fn render_onto(self, text: &mut String)
        ensures
            final(text)@ == old(text)@ + self.glyphs(),
    {
        match self {
            UnicodeBox::Top => {
                text.push('\u{256D}');
                text::push_repeated(text, '\u{2500}', 11);
                text.push('\u{256E}');
            },
            UnicodeBox::Bottom => {
                text.push('\u{2570}');
                text::push_repeated(text, '\u{2500}', 11);
                text.push('\u{256F}');
            },
            UnicodeBox::Vertical => {
                text.push('\u{2502}');
            },
            UnicodeBox::Horizontal => {
                text.push('\u{2502}');
                text::push_repeated(text, '\u{2500}', 3);
                text.push('\u{253c}');
                text::push_repeated(text, '\u{2500}', 3);
                text.push('\u{253c}');
                text::push_repeated(text, '\u{2500}', 3);
                text.push('\u{2502}');
            },
        }
        assert(text@ =~= old(text)@ + self.glyphs());
    }

    /// The piece as text.
    pub fn render(self) -> (text: String)
        ensures
            text@ == self.glyphs(),
    {
        let mut text = String::new();
        self.render_onto(&mut text);
        assert(text@ =~= self.glyphs());
        text
    }
}

} // verus!
