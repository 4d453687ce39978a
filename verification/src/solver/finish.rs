//! Telling a finished board, and writing a board out.

use vstd::prelude::*;
use crate::bits::{
    holds, lemma_empty, lemma_holds_single, lemma_in_range, lemma_popcount_one,
    lemma_popcount_zero, lowest, popcount, single, ALL_DIGITS,
};
use crate::candidates::{
    lemma_unit_of_cell, lemma_units, mask_at, place_in, touches, unit_x, unit_y, Candidates,
};
use crate::solver::{unit_cell, Solver};
use crate::text::{digit_char, digit_to_char};

verus! {

/// Cell `(x, y)` holds one digit and nothing else.
pub open spec fn cell_resolved(g: Candidates, x: int, y: int) -> bool {
    exists|d: int| 0 <= d < 9 && mask_at(g, x, y) == #[trigger] single(d)
}

/// Every cell holds one digit, and no row, column or block holds a digit twice.
pub open spec fn solved_grid(g: Candidates) -> bool {
    &&& forall|x: int, y: int| 0 <= x < 9 && 0 <= y < 9 ==> #[trigger] cell_resolved(g, x, y)
    &&& forall|u: int, k1: int, k2: int|
        0 <= u < 27 && 0 <= k1 < 9 && 0 <= k2 < 9 && k1 != k2 ==> #[trigger] mask_at(
            g,
            unit_x(u, k1),
            unit_y(u, k1),
        ) != #[trigger] mask_at(g, unit_x(u, k2), unit_y(u, k2))
}

/// Cell `(x, y)` holds one digit, and no other cell of its row, column or
/// block holds the same.
pub open spec fn cell_clear(g: Candidates, x: int, y: int) -> bool {
    &&& cell_resolved(g, x, y)
    &&& forall|u: int, k: int|
        0 <= u < 27 && 0 <= k < 9 && touches(u, x, y) && k != place_in(u, x, y) ==> #[trigger] mask_at(
            g,
            unit_x(u, k),
            unit_y(u, k),
        ) != mask_at(g, x, y)
}

/// A mask holds one digit and nothing else exactly when it has one member
/// and lies within the nine digits.
pub proof fn lemma_resolved_mask(m: u16)
    ensures
        (popcount(m) == 1 && m <= ALL_DIGITS) <==> (exists|d: int|
            0 <= d < 9 && m == #[trigger] single(d)),
{
    if popcount(m) == 1 && m <= ALL_DIGITS {
        lemma_popcount_zero(m);
        lemma_empty(m);
        let d = choose|d: int| holds(m, d);
        lemma_popcount_one(m, d);
        lemma_in_range(m);
        assert(0 <= d < 9 && m == single(d));
    }
    if exists|d: int| 0 <= d < 9 && m == #[trigger] single(d) {
        let d = choose|d: int| 0 <= d < 9 && m == #[trigger] single(d);
        lemma_holds_single(d);
        lemma_popcount_one(m, d);
    }
}

/// The digit, from 1 to 9, that a mask with one digit stands for.
pub open spec fn printed_digit(m: u16) -> Option<u8> {
    if exists|d: int| 0 <= d < 9 && m == #[trigger] single(d) {
        Some(((choose|d: int| 0 <= d < 9 && m == #[trigger] single(d)) + 1) as u8)
    } else {
        None
    }
}

/// The character that stands for a cell: its digit, or `x` while it is open.
pub open spec fn cell_glyph(m: u16) -> char {
    match printed_digit(m) {
        Some(digit) => digit_char(digit as int),
        None => 'x',
    }
}

/// The digit of a mask with one digit is that digit.
pub proof fn lemma_lone_digit(m: u16, d: int)
    requires
        0 <= d < 9,
        m == single(d),
    ensures
        printed_digit(m) == Some((d + 1) as u8),
{
    let e = choose|e: int| 0 <= e < 9 && m == #[trigger] single(e);
    lemma_holds_single(d);
    lemma_holds_single(e);
    assert(holds(single(e), d));
}

impl Solver {
    /// Whether the board is a finished Sudoku: every cell holds one digit,
    /// and no row, column or block holds a digit twice.
    pub fn solved(&self) -> (res: bool)
        ensures
            res == solved_grid(self.board),
    {
        let mut y: usize = 0;
        while y < 9
            invariant
                y <= 9,
                forall|a: int, b: int|
                    0 <= a < 9 && 0 <= b < y ==> #[trigger] cell_clear(self.board, a, b),
            decreases 9 - y,
        {
            let mut x: usize = 0;
            while x < 9
                invariant
                    y < 9,
                    x <= 9,
                    forall|a: int, b: int|
                        0 <= a < 9 && 0 <= b < 9 && (b < y || (b == y && a < x))
                            ==> #[trigger] cell_clear(self.board, a, b),
                decreases 9 - x,
            {
                let cell = self.board[x][y];
                proof {
                    lemma_units(x as int, y as int);
                    lemma_resolved_mask(cell);
                    assert(cell == mask_at(self.board, x as int, y as int));
                }
                if cell.count_ones() != 1 || cell > ALL_DIGITS {
                    assert(!cell_resolved(self.board, x as int, y as int));
                    return false;
                }
                if self.repeated_in_unit(y, x) || self.repeated_in_unit(9 + x, y)
                    || self.repeated_in_unit(18 + 3 * (y / 3) + x / 3, x % 3 + 3 * (y % 3)) {
                    return false;
                }
                proof {
                    assert forall|u: int, k: int|
                        0 <= u < 27 && 0 <= k < 9 && touches(u, x as int, y as int) && k
                            != place_in(u, x as int, y as int) implies #[trigger] mask_at(
                        self.board,
                        unit_x(u, k),
                        unit_y(u, k),
                    ) != mask_at(self.board, x as int, y as int) by {}
                }
                x += 1;
            }
            y += 1;
        }
        proof {
            assert forall|u: int, k1: int, k2: int|
                0 <= u < 27 && 0 <= k1 < 9 && 0 <= k2 < 9 && k1 != k2 implies #[trigger] mask_at(
                self.board,
                unit_x(u, k1),
                unit_y(u, k1),
            ) != #[trigger] mask_at(self.board, unit_x(u, k2), unit_y(u, k2)) by {
                lemma_unit_of_cell(u, k1);
                assert(cell_clear(self.board, unit_x(u, k1), unit_y(u, k1)));
            }
            assert forall|a: int, b: int| 0 <= a < 9 && 0 <= b < 9 implies #[trigger] cell_resolved(
                self.board,
                a,
                b,
            ) by {
                assert(cell_clear(self.board, a, b));
            }
        }
        true
    }

    /// Whether the mask of the `place`-th cell of unit `u` stands in
    /// another cell of that unit too.
    fn repeated_in_unit(&self, u: usize, place: usize) -> (res: bool)
        requires
            u < 27,
            place < 9,
        ensures
            res == exists|k: int|
                0 <= k < 9 && k != place && #[trigger] mask_at(
                    self.board,
                    unit_x(u as int, k),
                    unit_y(u as int, k),
                ) == mask_at(self.board, unit_x(u as int, place as int), unit_y(u as int, place as int)),
    {
        let (x, y) = unit_cell(u, place);
        let mine = self.board[x][y];
        let mut k: usize = 0;
        while k < 9
            invariant
                k <= 9,
                u < 27,
                place < 9,
                mine == mask_at(self.board, unit_x(u as int, place as int), unit_y(u as int, place as int)),
                forall|j: int|
                    0 <= j < k && j != place ==> #[trigger] mask_at(
                        self.board,
                        unit_x(u as int, j),
                        unit_y(u as int, j),
                    ) != mine,
            decreases 9 - k,
        {
            if k != place {
                let (a, b) = unit_cell(u, k);
                if self.board[a][b] == mine {
                    assert(mask_at(self.board, unit_x(u as int, k as int), unit_y(u as int, k as int)) == mine);
                    return true;
                }
            }
            k += 1;
        }
        false
    }

    /// The digit, from 1 to 9, that cell `(x, y)` is resolved to.
    pub fn resolved_digit(&self, x: usize, y: usize) -> (res: Option<u8>)
        requires
            x < 9,
            y < 9,
        ensures
            res == printed_digit(mask_at(self.board, x as int, y as int)),
    {
        let cell = self.board[x][y];
        proof {
            lemma_resolved_mask(cell);
            lemma_popcount_zero(cell);
        }
        if cell.count_ones() == 1 && cell <= ALL_DIGITS {
            let d = lowest(cell);
            proof {
                lemma_popcount_one(cell, d as int);
                lemma_in_range(cell);
                lemma_lone_digit(cell, d as int);
            }
            Some((d + 1) as u8)
        } else {
            None
        }
    }

    /// The board as 81 characters, row by row: the digit of a resolved
    /// cell, and `x` for a cell that is still open.
    pub fn render(&self) -> (text: String)
        ensures
            text@.len() == 81,
            forall|i: int|
                0 <= i < 81 ==> #[trigger] text@[i] == cell_glyph(mask_at(self.board, i % 9, i / 9)),
    {
        let mut text = String::new();
        let mut index: usize = 0;
        while index < 81
            invariant
                index <= 81,
                text@.len() == index,
                forall|i: int|
                    0 <= i < index ==> #[trigger] text@[i] == cell_glyph(
                        mask_at(self.board, i % 9, i / 9),
                    ),
            decreases 81 - index,
        {
            match self.resolved_digit(index % 9, index / 9) {
                Some(digit) => {
                    text.push(digit_to_char(digit));
                },
                None => {
                    text.push('x');
                },
            }
            index += 1;
        }
        text
    }
}

} // verus!
