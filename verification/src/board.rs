//! A puzzle as it is written down: 81 digits, row by row, `0` for a square
//! that is not filled in.

use vstd::prelude::*;
use vstd::string::StrSliceExecFns;
use crate::arrays::{grid_of, lemma_first, lemma_grid_of};
use crate::text::{char_to_digit, digit_char, digit_value};
use crate::UnicodeBox;
use owo_colors::OwoColorize;

verus! {

/// Why a text is no board.
#[derive(Debug, PartialEq, Eq)]
pub enum BoardError {
    /// The text has this many characters, not 81.
    InvalidLength(usize),
    /// The character `cell` at `index` is no digit.
    InvalidCell { index: usize, cell: char },
}

/// The digits of a puzzle, `squares[row][column]`, `0` for an empty square.
#[derive(PartialEq, Eq)]
pub struct Board {
    squares: [[usize; 9]; 9],
}

/// Every character of `text` before `n` is a digit.
pub open spec fn digits_before(text: Seq<char>, n: int) -> bool {
    forall|i: int| 0 <= i < n ==> (#[trigger] digit_value(text[i])) is Some
}

/// What reading `text` as a board gives, where `grid` is the board read
/// in case there is one.
pub open spec fn reads_as(text: Seq<char>, res: Result<[[usize; 9]; 9], BoardError>) -> bool {
    match res {
        Ok(grid) => {
            &&& text.len() == 81
            &&& forall|i: int|
                0 <= i < 81 ==> digit_value(#[trigger] text[i]) == Some(grid[i / 9][i % 9] as int)
        },
        Err(BoardError::InvalidLength(n)) => n == text.len() && n != 81,
        Err(BoardError::InvalidCell { index, cell }) => {
            &&& text.len() == 81
            &&& index < 81
            &&& cell == text[index as int]
            &&& digit_value(cell) is None
            &&& digits_before(text, index as int)
        },
    }
}

/// The escape sequence that turns the text green, the digit `cell`, and
/// the escape sequence that turns the colour back.
pub open spec fn green_digit_text(cell: int) -> Seq<char> {
    seq!['\u{1b}', '[', '3', '2', 'm', digit_char(cell), '\u{1b}', '[', '3', '9', 'm']
}

/// `OwoColorize::green` of owo-colors on a one-digit number, as `Display`
/// writes it: `ESC [ 3 2 m`, the number, `ESC [ 3 9 m`.
#[verifier::external_body]
fn green_digit(cell: usize) -> (res: String)
    requires
        cell <= 9,
    ensures
        res@ == green_digit_text(cell as int),
{
    format!("{}", cell.green())
}

/// The line for the squares `row` of a board, between bars.
pub open spec fn row_text(row: [usize; 9], n: int) -> Seq<char>
    decreases n,
{
    if n <= 0 {
        Seq::empty()
    } else {
        row_text(row, n - 1) + (if (n - 1) % 3 == 0 {
            UnicodeBox::Vertical.glyphs()
        } else {
            Seq::empty()
        }) + (if row[n - 1] == 0 {
            seq![' ']
        } else {
            green_digit_text(row[n - 1] as int)
        })
    }
}

/// The first `n` lines of squares of a board, with a rule before every
/// fourth of them.
pub open spec fn rows_text(grid: [[usize; 9]; 9], n: int) -> Seq<char>
    decreases n,
{
    if n <= 0 {
        Seq::empty()
    } else {
        rows_text(grid, n - 1) + (if n % 4 == 0 {
            UnicodeBox::Horizontal.glyphs().push('\n')
        } else {
            Seq::empty()
        }) + row_text(grid[n - 1], 9) + UnicodeBox::Vertical.glyphs().push('\n')
    }
}

impl Board {
    /// The digits of the board, `[row][column]`.
    pub closed spec fn grid(self) -> [[usize; 9]; 9] {
        self.squares
    }

    #[verifier::type_invariant]
    spec fn digits_only(self) -> bool {
        forall|r: int, c: int| 0 <= r < 9 && 0 <= c < 9 ==> #[trigger] self.squares[r][c] <= 9
    }

    /// The digits of the board, `[row][column]`.
    pub fn squares(&self) -> (grid: [[usize; 9]; 9])
        ensures
            grid == self.grid(),
    {
        self.squares
    }

    /// Reads a board from 81 digits, row by row.
    pub fn parse(value: &str) -> (res: Result<Board, BoardError>)
        ensures
            reads_as(value@, outcome(res)),
    {
        let mut squares = [[0usize; 9]; 9];
        let length = value.unicode_len();
        if length != 81 {
            return Err(BoardError::InvalidLength(length));
        }
        let mut index: usize = 0;
        while index < 81
            invariant
                index <= 81,
                value@.len() == 81,
                forall|i: int|
                    0 <= i < index ==> digit_value(#[trigger] value@[i]) == Some(
                        squares[i / 9][i % 9] as int,
                    ),
                forall|r: int, c: int| 0 <= r < 9 && 0 <= c < 9 ==> #[trigger] squares[r][c] <= 9,
            decreases 81 - index,
        {
            let x = index % 9;
            let y = index / 9;
            let cell = value.get_char(index);
            match char_to_digit(cell) {
                Some(pos) => {
                    let ghost before = squares;
                    squares[y][x] = pos as usize;
                    assert forall|i: int| 0 <= i < index + 1 implies digit_value(
                        #[trigger] value@[i],
                    ) == Some(squares[i / 9][i % 9] as int) by {
                        if i < index {
                            assert(i / 9 != y || i % 9 != x);
                            assert(squares[i / 9][i % 9] == before[i / 9][i % 9]);
                        }
                    }
                },
                None => {
                    return Err(BoardError::InvalidCell { index, cell });
                },
            }
            index += 1;
        }
        Ok(Board { squares })
    }

    /// What `render` writes.
    pub open spec fn rendered(self) -> Seq<char> {
        UnicodeBox::Top.glyphs().push('\n') + rows_text(self.grid(), 9)
            + UnicodeBox::Bottom.glyphs()
    }

    /// Draws the board in a frame, the digits in green.
    pub fn render(&self) -> (text: String)
        ensures
            text@ == self.rendered(),
    {
        proof {
            use_type_invariant(self);
        }
        let mut text = UnicodeBox::Top.render();
        text.push('\n');
        let ghost head = text@;
        assert(text@ =~= head + rows_text(self.grid(), 0));
        let mut y: usize = 1;
        while y <= 9
            invariant
                1 <= y <= 10,
                text@ == head + rows_text(self.grid(), y - 1),
                forall|r: int, c: int|
                    0 <= r < 9 && 0 <= c < 9 ==> #[trigger] self.squares[r][c] <= 9,
            decreases 10 - y,
        {
            if y % 4 == 0 {
                UnicodeBox::Horizontal.render_onto(&mut text);
                text.push('\n');
            }
            let ghost row_start = text@;
            let mut x: usize = 0;
            assert(text@ =~= row_start + row_text(self.grid()[y - 1], 0));
            while x < 9
                invariant
                    1 <= y <= 9,
                    x <= 9,
                    text@ == row_start + row_text(self.grid()[y - 1], x as int),
                    forall|r: int, c: int|
                        0 <= r < 9 && 0 <= c < 9 ==> #[trigger] self.squares[r][c] <= 9,
                decreases 9 - x,
            {
                if x % 3 == 0 {
                    UnicodeBox::Vertical.render_onto(&mut text);
                }
                let cell = self.squares[y - 1][x];
                if cell == 0 {
                    text.push(' ');
                    assert(text@ =~= row_start + row_text(self.grid()[y - 1], x + 1));
                } else {
                    assert(self.squares[y - 1][x as int] <= 9);
                    let coloured = green_digit(cell);
                    crate::text::push_text(&mut text, &coloured);
                    assert(text@ =~= row_start + row_text(self.grid()[y - 1], x + 1));
                }
                x += 1;
            }
            UnicodeBox::Vertical.render_onto(&mut text);
            text.push('\n');
            assert(text@ =~= head + rows_text(self.grid(), y as int));
            y += 1;
        }
        UnicodeBox::Bottom.render_onto(&mut text);
        assert(text@ =~= self.rendered());
        text
    }
}

impl TryFrom<&str> for Board {
    type Error = BoardError;

    fn try_from(value: &str) -> (res: Result<Board, BoardError>)
        ensures
            reads_as(value@, outcome(res)),
    {
        let res = Board::parse(value);
        proof {
            lemma_one_reading(value@, outcome(res), outcome(parsed(value@)));
            lemma_outcome(res, parsed(value@));
        }
        res
    }
}

impl vstd::std_specs::convert::TryFromSpecImpl<&str> for Board {
    open spec fn obeys_try_from_spec() -> bool {
        true
    }

    open spec fn try_from_spec(v: &str) -> Result<Board, BoardError> {
        parsed(v@)
    }
}

/// The one result that reading `text` as a board can have.
pub closed spec fn parsed(text: Seq<char>) -> Result<Board, BoardError> {
    choose|res: Result<Board, BoardError>| #[trigger] reads_as(text, outcome(res))
}

/// Reading a text gives what `reads_as` says: `parsed` is the board of its
/// 81 digits, or the length that is not 81, or the first character that
/// is no digit.
pub proof fn lemma_parsed_reads(text: Seq<char>)
    requires
        text.len() <= usize::MAX,
    ensures
        reads_as(text, outcome(parsed(text))),
{
    let bad = |i: int| digit_value(text[i]) is None;
    if text.len() != 81 {
        let found: Result<Board, BoardError> = Err(
            BoardError::InvalidLength(text.len() as usize),
        );
        assert(reads_as(text, outcome(found)));
        lemma_some_reading(text, found);
    } else if exists|i: int| 0 <= i < 81 && #[trigger] bad(i) {
        let index = lemma_first(bad, 81);
        let found: Result<Board, BoardError> = Err(
            BoardError::InvalidCell { index: index as usize, cell: text[index] },
        );
        assert forall|j: int| 0 <= j < index implies (#[trigger] digit_value(text[j])) is Some by {
            assert(!bad(j));
        }
        assert(reads_as(text, outcome(found)));
        lemma_some_reading(text, found);
    } else {
        let digits = |r: int, c: int| digit_value(text[9 * r + c]).unwrap() as usize;
        lemma_grid_of(digits);
        let board = Board { squares: grid_of(digits) };
        assert forall|i: int| 0 <= i < 81 implies digit_value(#[trigger] text[i]) == Some(
            board.grid()[i / 9][i % 9] as int,
        ) by {
            assert(!bad(i));
            assert(9 * (i / 9) + i % 9 == i);
            assert(grid_of(digits)[i / 9][i % 9] == digits(i / 9, i % 9));
        }
        assert(reads_as(text, outcome(Ok(board))));
        lemma_some_reading(text, Ok(board));
    }
}

/// Where a text reads as something, `parsed` is a reading of it.
proof fn lemma_some_reading(text: Seq<char>, found: Result<Board, BoardError>)
    requires
        reads_as(text, outcome(found)),
    ensures
        reads_as(text, outcome(parsed(text))),
{
}

/// The result of reading a board, with the board taken as its digits.
pub open spec fn outcome(res: Result<Board, BoardError>) -> Result<[[usize; 9]; 9], BoardError> {
    match res {
        Ok(board) => Ok(board.grid()),
        Err(e) => Err(e),
    }
}

/// Readings with the same digits are the same.
proof fn lemma_outcome(a: Result<Board, BoardError>, b: Result<Board, BoardError>)
    requires
        outcome(a) == outcome(b),
    ensures
        a == b,
{
}

/// A text reads as one board, or fails in one way.
pub proof fn lemma_one_reading(
    text: Seq<char>,
    first: Result<[[usize; 9]; 9], BoardError>,
    second: Result<[[usize; 9]; 9], BoardError>,
)
    requires
        reads_as(text, first),
        reads_as(text, second),
    ensures
        first == second,
{
    match (first, second) {
        (Ok(a), Ok(b)) => {
            assert forall|r: int| 0 <= r < 9 implies a[r] == b[r] by {
                assert forall|c: int| 0 <= c < 9 implies a[r][c] == b[r][c] by {
                    let i = 9 * r + c;
                    assert(i / 9 == r && i % 9 == c);
                    assert(digit_value(text[i]) == Some(a[i / 9][i % 9] as int));
                    assert(digit_value(text[i]) == Some(b[i / 9][i % 9] as int));
                }
                assert(a[r] =~= b[r]);
            }
            assert(a =~= b);
        },
        (Ok(a), Err(BoardError::InvalidCell { index, cell })) => {
            assert(digit_value(text[index as int]) is Some);
        },
        (Err(BoardError::InvalidCell { index, cell }), Ok(b)) => {
            assert(digit_value(text[index as int]) is Some);
        },
        (
            Err(BoardError::InvalidCell { index: i1, cell: c1 }),
            Err(BoardError::InvalidCell { index: i2, cell: c2 }),
        ) => {
            if i1 < i2 {
                assert(digit_value(text[i1 as int]) is Some);
            }
            if i2 < i1 {
                assert(digit_value(text[i2 as int]) is Some);
            }
        },
        _ => {},
    }
}

} // verus!
