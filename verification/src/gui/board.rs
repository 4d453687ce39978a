//! The board that the grid shows, and the way from it to the solver.

use vstd::prelude::*;
use vstd::string::StrSliceExecFns;
use crate::arrays::{grid_of, lemma_first, lemma_grid_of};
use crate::bits::{lemma_holds_all, lemma_in_range, single, subset};
use crate::board::{digits_before, BoardError};
use crate::candidates::{
    lemma_refines_self, lemma_refines_trans, mask_at, refines, stable, Candidates,
};
use crate::gui::cell::CellValue;
use crate::propagation::{lemma_avoids_others, lemma_single_stays};
use crate::candidates::possible;
use crate::solver::{blank_grid, count_at, propagated, Solver, SolverError, Spread};
use crate::text::{char_to_digit, digit_value};

verus! {

/// What each cell shows, `cells[x][y]` with `x` the column and `y` the row.
#[derive(Clone, Copy)]
pub struct Board {
    pub cells: [[CellValue; 9]; 9],
}

/// The cell that the digit `v` of a puzzle makes: none for `0`.
pub open spec fn cell_of(v: int) -> CellValue {
    if v > 0 {
        CellValue::Fixed(v as u16)
    } else {
        CellValue::Unfixed(None)
    }
}

/// The cell that the `i`-th character of a text stands for.
pub open spec fn nth_cell(cells: [[CellValue; 9]; 9], i: int) -> CellValue {
    cells[i % 9][i / 9]
}

/// What reading `text` as a board gives.
pub open spec fn reads_as(text: Seq<char>, res: Result<Board, BoardError>) -> bool {
    match res {
        Ok(board) => {
            &&& text.len() == 81
            &&& forall|i: int|
                0 <= i < 81 ==> digit_value(text[i]) is Some && #[trigger] nth_cell(board.cells, i)
                    == cell_of(digit_value(text[i]).unwrap())
        },
        Err(BoardError::InvalidLength(n)) => n == text.len() && n != 81,
        Err(BoardError::InvalidCell { index, cell }) => {
            &&& text.len() == 81
            &&& index < 81
            &&& cell == text[index as int]
            &&& digit_value(cell) is None
            &&& digits_before(text, index as int)
        },
    }
}

impl Default for Board {
    fn default() -> (res: Self)
        ensures
            forall|x: int, y: int|
                0 <= x < 9 && 0 <= y < 9 ==> #[trigger] res.cells[x][y] == CellValue::Unfixed(None),
    {
        Board::empty()
    }
}

impl Board {
    /// The board on which no cell holds a number.
    pub fn empty() -> (res: Self)
        ensures
            forall|x: int, y: int|
                0 <= x < 9 && 0 <= y < 9 ==> #[trigger] res.cells[x][y] == CellValue::Unfixed(None),
    {
        let e = CellValue::Unfixed(None);
        let column = [e, e, e, e, e, e, e, e, e];
        Board { cells: [column, column, column, column, column, column, column, column, column] }
    }

    /// Reads a board from 81 digits, row by row, `0` for an empty cell.
    pub fn parse(value: &str) -> (res: Result<Board, BoardError>)
        ensures
            reads_as(value@, res),
    {
        let mut cells = Board::empty().cells;
        let length = value.unicode_len();
        if length != 81 {
            return Err(BoardError::InvalidLength(length));
        }
        let mut index: usize = 0;
        while index < 81
            invariant
                index <= 81,
                value@.len() == 81,
                digits_before(value@, index as int),
                forall|i: int|
                    0 <= i < index ==> digit_value(value@[i]) is Some && #[trigger] nth_cell(
                        cells,
                        i,
                    ) == cell_of(digit_value(value@[i]).unwrap()),
                forall|i: int|
                    index <= i < 81 ==> #[trigger] nth_cell(cells, i) == CellValue::Unfixed(None),
            decreases 81 - index,
        {
            let x = index % 9;
            let y = index / 9;
            let cell = value.get_char(index);
            match char_to_digit(cell) {
                Some(pos) => {
                    let ghost before = cells;
                    if pos > 0 {
                        cells[x][y] = CellValue::Fixed(pos as u16);
                    }
                    assert forall|i: int| 0 <= i < 81 && i != index implies #[trigger] nth_cell(
                        cells,
                        i,
                    ) == nth_cell(before, i) by {
                        assert(i % 9 != x || i / 9 != y);
                    }
                    assert(nth_cell(before, index as int) == CellValue::Unfixed(None));
                },
                None => {
                    return Err(BoardError::InvalidCell { index, cell });
                },
            }
            index += 1;
        }
        Ok(Board { cells })
    }

    /// The digit, counted from 0, that the clue in cell `(x, y)` asks for.
    pub open spec fn clue(self, x: int, y: int) -> Option<int> {
        match self.cells[x][y].number() {
            Some(v) => Some(v - 1),
            None => None,
        }
    }

    /// Every number on the board is a digit from 1 to 9.
    pub open spec fn digits_only(self) -> bool {
        forall|x: int, y: int|
            0 <= x < 9 && 0 <= y < 9 ==> (#[trigger] self.clue(x, y) matches Some(d) ==> 0 <= d < 9)
    }

    /// The grid `g` holds, in each of the first `n` cells (counted row by
    /// row) that has a number, that number alone.
    pub open spec fn fits_first(self, g: Candidates, n: int) -> bool {
        forall|x: int, y: int|
            0 <= x < 9 && 0 <= y < 9 && 9 * y + x < n ==> (#[trigger] self.clue(x, y) matches Some(
                d,
            ) ==> mask_at(g, x, y) == single(d))
    }

    /// What setting up the first `n` cells (counted row by row) comes to:
    /// from the blank grid, each number in turn is assigned, if it is a
    /// digit from 1 to 9 and still a candidate of its cell.
    pub open spec fn set_up(self, n: nat) -> Spread
        decreases n,
    {
        if n == 0 {
            Spread::Done(blank_grid(), None)
        } else {
            match self.set_up((n - 1) as nat) {
                Spread::Done(g, h) => match self.clue((n - 1) % 9, (n - 1) / 9) {
                    Some(d) => if 0 <= d < 9 && possible(g, (n - 1) % 9, (n - 1) / 9, d) {
                        propagated(g, h, (n - 1) % 9, (n - 1) / 9, !single(d))
                    } else {
                        Spread::Failed
                    },
                    None => Spread::Done(g, h),
                },
                other => other,
            }
        }
    }

    /// What setting up comes to with one cell more.
    pub proof fn lemma_set_up_next(self, n: nat, g: Candidates, h: Option<(usize, usize)>)
        requires
            self.set_up(n) == Spread::Done(g, h),
        ensures
            self.set_up(n + 1) == match self.clue(n as int % 9, n as int / 9) {
                Some(d) => if 0 <= d < 9 && possible(g, n as int % 9, n as int / 9, d) {
                    propagated(g, h, n as int % 9, n as int / 9, !single(d))
                } else {
                    Spread::Failed
                },
                None => Spread::Done(g, h),
            },
    {
        assert(((n + 1) - 1) as nat == n);
    }

    /// A board without numbers sets up to the blank grid, with no cell
    /// cached.
    pub proof fn lemma_blank_set_up(self, n: nat)
        requires
            self.blank_first(81),
            n <= 81,
        ensures
            self.set_up(n) == Spread::Done(blank_grid(), None),
        decreases n,
    {
        if n > 0 {
            self.lemma_blank_set_up((n - 1) as nat);
            let i = (n - 1) as int;
            assert(self.clue(i % 9, i / 9) is None);
        }
    }

    /// Once setting up has failed, it has failed for good.
    pub proof fn lemma_set_up_failed(self, n: nat, m: nat)
        requires
            n <= m,
            self.set_up(n) == Spread::Failed,
        ensures
            self.set_up(m) == Spread::Failed,
        decreases m,
    {
        if n < m {
            self.lemma_set_up_failed(n, (m - 1) as nat);
        }
    }

    /// None of the first `n` cells (counted row by row) has a number.
    pub open spec fn blank_first(self, n: int) -> bool {
        forall|x: int, y: int|
            0 <= x < 9 && 0 <= y < 9 && 9 * y + x < n ==> (#[trigger] self.clue(x, y)) is None
    }

    /// The grid `g` holds, in each cell that has a number, that number alone.
    pub open spec fn fits(self, g: Candidates) -> bool {
        self.fits_first(g, 81)
    }
}

impl Solver {
    /// What `from_board` gives: the greatest stable grid that holds the
    /// numbers of the board, or `InvalidPuzzle` where a number is no digit
    /// from 1 to 9 or no stable grid holds them all. For a board without
    /// numbers no cell is cached; otherwise the cached cell, if there is
    /// one, has at most two candidates. Which cell it is follows from the
    /// order of the work, which `set_up` lays down.
    pub open spec fn propagated_from(board: Board, res: Result<Solver, SolverError>) -> bool {
        match res {
            Ok(solver) => {
                &&& solver.wf()
                &&& board.digits_only()
                &&& board.fits(solver.board)
                &&& forall|g: Candidates|
                    stable(g) && #[trigger] board.fits(g) ==> refines(g, solver.board)
                &&& board.set_up(81) == Spread::Done(solver.board, solver.next_square_candidate)
                &&& board.blank_first(81) ==> solver.next_square_candidate is None
                &&& solver.next_square_candidate matches Some(c) ==> count_at(
                    solver.board,
                    c.0 as int,
                    c.1 as int,
                ) <= 2
            },
            Err(e) => {
                &&& e == SolverError::InvalidPuzzle
                &&& !board.digits_only() || forall|g: Candidates|
                    stable(g) ==> !#[trigger] board.fits(g)
                &&& board.set_up(81) == Spread::Failed
            },
        }
    }

    /// Sets up the solver for a board: starts from the state in which
    /// everything is possible, and assigns every number on the board.
    pub fn from_board(board: &Board) -> (res: Result<Solver, SolverError>)
        ensures
            Solver::propagated_from(*board, res),
    {
        let mut solver = Solver::new();
        let ghost blank = solver;
        proof {
            lemma_refines_self(blank.board);
            lemma_holds_all();
            assert forall|g: Candidates| stable(g) implies refines(g, solver.board) by {
                assert forall|a: int, b: int| 0 <= a < 9 && 0 <= b < 9 implies subset(
                    #[trigger] mask_at(g, a, b),
                    mask_at(solver.board, a, b),
                ) by {
                    lemma_in_range(mask_at(g, a, b));
                }
            }
        }
        let mut y: usize = 0;
        while y < 9
            invariant
                y <= 9,
                solver.wf(),
                blank.next_square_candidate is None,
                blank.sound(),
                refines(solver.board, blank.board),
                blank.cache_follows(solver),
                board.set_up((9 * y) as nat) == Spread::Done(
                    solver.board,
                    solver.next_square_candidate,
                ),
                board.blank_first(9 * y) ==> solver.next_square_candidate is None,
                board.fits_first(solver.board, 9 * y),
                forall|x: int, b: int|
                    0 <= x < 9 && 0 <= b < y ==> (#[trigger] board.clue(x, b) matches Some(d) ==> 0
                        <= d < 9),
                forall|g: Candidates|
                    stable(g) && #[trigger] board.fits_first(g, 9 * y) ==> refines(g, solver.board),
            decreases 9 - y,
        {
            let mut x: usize = 0;
            while x < 9
                invariant
                    y < 9,
                    x <= 9,
                    solver.wf(),
                    blank.next_square_candidate is None,
                    blank.sound(),
                    refines(solver.board, blank.board),
                    blank.cache_follows(solver),
                    board.set_up((9 * y + x) as nat) == Spread::Done(
                        solver.board,
                        solver.next_square_candidate,
                    ),
                    board.blank_first(9 * y + x) ==> solver.next_square_candidate is None,
                    board.fits_first(solver.board, 9 * y + x),
                    forall|a: int, b: int|
                        0 <= a < 9 && 0 <= b < 9 && 9 * b + a < 9 * y + x ==> (
                        #[trigger] board.clue(a, b) matches Some(d) ==> 0 <= d < 9),
                    forall|g: Candidates|
                        stable(g) && #[trigger] board.fits_first(g, 9 * y + x) ==> refines(
                            g,
                            solver.board,
                        ),
                decreases 9 - x,
            {
                let ghost n = 9 * y + x;
                let ghost before = solver;
                proof {
                    board.lemma_set_up_next(n as nat, before.board, before.next_square_candidate);
                }
                match board.cells[x][y].value() {
                    Some(val) => {
                        if val < 1 || val > 9 {
                            proof {
                                assert(board.clue(x as int, y as int) == Some(val - 1));
                                assert(n % 9 == x && n / 9 == y);
                                assert(board.set_up((n + 1) as nat) == Spread::Failed);
                                board.lemma_set_up_failed((n + 1) as nat, 81);
                            }
                            return Err(SolverError::InvalidPuzzle);
                        }
                        let digit = (val - 1) as usize;
                        proof {
                            assert(board.clue(x as int, y as int) == Some(digit as int));
                        }
                        match solver.set_digit(x, y, digit) {
                            Ok(()) => {},
                            Err(_) => {
                                proof {
                                    assert forall|g: Candidates| stable(g) implies !#[trigger] board.fits(
                                        g,
                                    ) by {
                                        if board.fits(g) {
                                            assert(board.fits_first(g, n));
                                            assert(board.clue(x as int, y as int) == Some(digit as int));
                                            assert(mask_at(g, x as int, y as int) == single(digit as int));
                                            lemma_avoids_others(g, x as int, y as int, digit as int);
                                        }
                                    }
                                    assert(n % 9 == x && n / 9 == y);
                                    assert(board.set_up((n + 1) as nat) == Spread::Failed);
                                    board.lemma_set_up_failed((n + 1) as nat, 81);
                                }
                                return Err(SolverError::InvalidPuzzle);
                            },
                        }
                        proof {
                            lemma_refines_trans(solver.board, before.board, blank.board);
                            blank.lemma_cache_follows(before, solver);
                            assert forall|g: Candidates|
                                stable(g) && #[trigger] board.fits_first(g, n + 1) implies refines(
                                g,
                                solver.board,
                            ) by {
                                assert(board.fits_first(g, n));
                                assert(board.clue(x as int, y as int) == Some(digit as int));
                                assert(mask_at(g, x as int, y as int) == single(digit as int));
                                lemma_avoids_others(g, x as int, y as int, digit as int);
                            }
                            assert forall|a: int, b: int|
                                0 <= a < 9 && 0 <= b < 9 && 9 * b + a < n + 1 implies (
                            #[trigger] board.clue(a, b) matches Some(d) ==> mask_at(
                                solver.board,
                                a,
                                b,
                            ) == single(d)) by {
                                if 9 * b + a < n {
                                    if let Some(d) = board.clue(a, b) {
                                        assert(mask_at(before.board, a, b) == single(d));
                                        assert(subset(
                                            mask_at(solver.board, a, b),
                                            mask_at(before.board, a, b),
                                        ));
                                        assert(mask_at(solver.board, a, b) != 0);
                                        lemma_single_stays(mask_at(solver.board, a, b), d);
                                    }
                                } else {
                                    assert(a == x && b == y);
                                }
                            }
                        }
                    },
                    None => {
                        proof {
                            assert(board.clue(x as int, y as int) is None);
                            assert forall|g: Candidates|
                                stable(g) && #[trigger] board.fits_first(g, n + 1) implies refines(
                                g,
                                solver.board,
                            ) by {
                                assert(board.fits_first(g, n));
                            }
                        }
                    },
                }
                proof {
                    assert(n % 9 == x && n / 9 == y);
                    assert(board.set_up((n + 1) as nat) == Spread::Done(
                        solver.board,
                        solver.next_square_candidate,
                    ));
                }
                x += 1;
            }
            assert(9 * y + 9 == 9 * (y + 1));
            y += 1;
        }
        Ok(solver)
    }
}

impl TryFrom<&str> for Board {
    type Error = BoardError;

    fn try_from(value: &str) -> (res: Result<Board, BoardError>)
        ensures
            reads_as(value@, res),
    {
        let res = Board::parse(value);
        proof {
            lemma_one_reading(value@, res, parsed(value@));
        }
        res
    }
}

impl vstd::std_specs::convert::TryFromSpecImpl<&str> for Board {
    open spec fn obeys_try_from_spec() -> bool {
        true
    }

    open spec fn try_from_spec(v: &str) -> Result<Board, BoardError> {
        parsed(v@)
    }
}

/// The one result that reading `text` as a board can have.
pub closed spec fn parsed(text: Seq<char>) -> Result<Board, BoardError> {
    choose|res: Result<Board, BoardError>| #[trigger] reads_as(text, res)
}

/// Reading a text gives what `reads_as` says: `parsed` is the board of its
/// 81 digits, or the length that is not 81, or the first character that
/// is no digit.
pub proof fn lemma_parsed_reads(text: Seq<char>)
    requires
        text.len() <= usize::MAX,
    ensures
        reads_as(text, parsed(text)),
{
    let bad = |i: int| digit_value(text[i]) is None;
    if text.len() != 81 {
        let found: Result<Board, BoardError> = Err(
            BoardError::InvalidLength(text.len() as usize),
        );
        assert(reads_as(text, found));
        lemma_some_reading(text, found);
    } else if exists|i: int| 0 <= i < 81 && #[trigger] bad(i) {
        let index = lemma_first(bad, 81);
        let found: Result<Board, BoardError> = Err(
            BoardError::InvalidCell { index: index as usize, cell: text[index] },
        );
        assert forall|j: int| 0 <= j < index implies (#[trigger] digit_value(text[j])) is Some by {
            assert(!bad(j));
        }
        assert(reads_as(text, found));
        lemma_some_reading(text, found);
    } else {
        let cells = |x: int, y: int| cell_of(digit_value(text[9 * y + x]).unwrap());
        lemma_grid_of(cells);
        let board = Board { cells: grid_of(cells) };
        assert forall|i: int| 0 <= i < 81 implies digit_value(text[i]) is Some && #[trigger] nth_cell(
            board.cells,
            i,
        ) == cell_of(digit_value(text[i]).unwrap()) by {
            assert(!bad(i));
            assert(9 * (i / 9) + i % 9 == i);
            assert(grid_of(cells)[i % 9][i / 9] == cells(i % 9, i / 9));
        }
        assert(reads_as(text, Ok(board)));
        lemma_some_reading(text, Ok(board));
    }
}

/// Where a text reads as something, `parsed` is a reading of it.
proof fn lemma_some_reading(text: Seq<char>, found: Result<Board, BoardError>)
    requires
        reads_as(text, found),
    ensures
        reads_as(text, parsed(text)),
{
}

/// A text reads as one board, or fails in one way.
pub proof fn lemma_one_reading(
    text: Seq<char>,
    first: Result<Board, BoardError>,
    second: Result<Board, BoardError>,
)
    requires
        reads_as(text, first),
        reads_as(text, second),
    ensures
        first == second,
{
    match (first, second) {
        (Ok(a), Ok(b)) => {
            assert forall|x: int| 0 <= x < 9 implies a.cells[x] == b.cells[x] by {
                assert forall|y: int| 0 <= y < 9 implies a.cells[x][y] == b.cells[x][y] by {
                    let i = 9 * y + x;
                    assert(i % 9 == x && i / 9 == y);
                    assert(nth_cell(a.cells, i) == nth_cell(b.cells, i));
                }
                assert(a.cells[x] =~= b.cells[x]);
            }
            assert(a.cells =~= b.cells);
        },
        (Ok(a), Err(BoardError::InvalidCell { index, cell })) => {
            assert(nth_cell(a.cells, index as int) == cell_of(
                digit_value(text[index as int]).unwrap(),
            ));
        },
        (Err(BoardError::InvalidCell { index, cell }), Ok(b)) => {
            assert(nth_cell(b.cells, index as int) == cell_of(
                digit_value(text[index as int]).unwrap(),
            ));
        },
        (
            Err(BoardError::InvalidCell { index: i1, cell: c1 }),
            Err(BoardError::InvalidCell { index: i2, cell: c2 }),
        ) => {
            if i1 < i2 {
                assert(digit_value(text[i1 as int]) is Some);
            }
            if i2 < i1 {
                assert(digit_value(text[i2 as int]) is Some);
            }
        },
        _ => {},
    }
}

} // verus!
