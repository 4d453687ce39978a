//! The solver's state and its two operations, `eliminate` and `set_digit`.
//!
//! A state is well formed when its reverse indices agree with its board,
//! nothing has run out of candidates or of places, and nothing is left to
//! propagate. The state in which everything is possible is well formed,
//! and a successful call keeps a state well formed. A call that fails
//! leaves the state as far as propagation got: it is of no further use.

use vstd::prelude::*;
use crate::arrays::lemma_grid_of;
use crate::bits::{
    contains, digit_bit, holds, lemma_empty, lemma_extensional, lemma_holds_all,
    lemma_holds_and_not, lemma_holds_single, lemma_in_range, lemma_popcount_mono,
    lemma_popcount_zero, single, subset, ALL_DIGITS,
};
use crate::candidates::{
    avoids, cells_nonempty, closed, has_place, hidden_pending, in_range, lemma_refines_self,
    lemma_unit_of_cell, lemma_weight_holds, mask_at, naked_pending, possible, refines, stable,
    unit_possible, unit_x, unit_y, units_nonempty, Candidates,
};
use crate::propagation::{
    keeps_avoiding, lemma_avoids_others, no_stable_avoiding, nothing_new_pending,
};

mod branch;
pub mod cascade;
mod engine;
mod finish;

pub use cascade::{
    blank_grid, lemma_blank_grid, lemma_blank_grid_holds_all, outcome_of, propagated, spread,
    strike, struck_cell, Spread,
};
pub use branch::{
    branch_cell, count_at, first_fewest, found_of, lemma_first_fewest_is_one, misses_below,
    no_open_cell, no_solution, scanned_before, search, searched, searched_from,
};
pub use finish::{
    cell_clear, cell_glyph, cell_resolved, lemma_lone_digit, lemma_resolved_mask, printed_digit,
    solved_grid,
};

verus! {

/// Why a call could not go through.
#[derive(Clone, Copy, Debug, PartialEq, Eq, Structural)]
pub enum SolverError {
    /// Some cell ran out of candidates, or some digit ran out of places in
    /// a row, column or block.
    Contradiction,
    /// The given clues contradict each other.
    InvalidPuzzle,
}

/// The candidates of every cell, together with three reverse indices that
/// say, for each row, column and block and for each digit, where in that
/// unit the digit can still go.
#[derive(Clone, Copy)]
pub struct Solver {
    /// The candidate mask of each cell, indexed `[x][y]`.
    pub board: Candidates,
    /// Indexed `[block row][block column][digit]`: the places of the block,
    /// `x % 3 + 3 * (y % 3)`, where the digit is still a candidate.
    pub possible_blocks: [[[u16; 9]; 3]; 3],
    /// Indexed `[row][digit]`: the columns where the digit is still a candidate.
    pub possible_rows: [[u16; 9]; 9],
    /// Indexed `[column][digit]`: the rows where the digit is still a candidate.
    pub possible_cols: [[u16; 9]; 9],
    /// A cell that had two candidates when it was last touched. It may be
    /// out of date.
    pub next_square_candidate: Option<(usize, usize)>,
}

/// The `k`-th cell of unit `u`.
pub fn unit_cell(u: usize, k: usize) -> (cell: (usize, usize))
    requires
        u < 27,
        k < 9,
    ensures
        cell.0 == unit_x(u as int, k as int),
        cell.1 == unit_y(u as int, k as int),
        cell.0 < 9,
        cell.1 < 9,
{
    if u < 9 {
        (k, u)
    } else if u < 18 {
        (u - 9, k)
    } else {
        (3 * ((u - 18) % 3) + k % 3, 3 * ((u - 18) / 3) + k / 3)
    }
}

/// `t` is the greatest stable grid that refines `s` and lists none of the
/// digits of `mask` at `(x, y)`.
pub open spec fn greatest_avoiding(t: Candidates, s: Candidates, x: int, y: int, mask: u16) -> bool {
    &&& stable(t)
    &&& refines(t, s)
    &&& avoids(t, x, y, mask)
    &&& keeps_avoiding(t, s, x, y, mask)
}

impl Solver {
    /// The reverse index of unit `u` for digit `d`: the places of the unit
    /// where the digit is recorded as possible.
    pub open spec fn index(self, u: int, d: int) -> u16 {
        if u < 9 {
            self.possible_rows[u][d]
        } else if u < 18 {
            self.possible_cols[u - 9][d]
        } else {
            self.possible_blocks[(u - 18) / 3][(u - 18) % 3][d]
        }
    }

    /// The reverse indices say what the board says.
    pub open spec fn indexed(self) -> bool {
        forall|u: int, d: int|
            0 <= u < 27 && 0 <= d < 9 ==> {
                &&& #[trigger] self.index(u, d) <= ALL_DIGITS
                &&& forall|k: int|
                    0 <= k < 9 ==> holds(self.index(u, d), k) == #[trigger] unit_possible(
                        self.board,
                        u,
                        k,
                        d,
                    )
            }
    }

    /// The cached cell, if there is one, lies on the board.
    pub open spec fn hint_on_board(self) -> bool {
        self.next_square_candidate matches Some(c) ==> c.0 < 9 && c.1 < 9
    }

    /// The state is consistent: masks are within range, the reverse indices
    /// agree with the board, and no cell and no index entry is empty.
    pub open spec fn sound(self) -> bool {
        &&& in_range(self.board)
        &&& cells_nonempty(self.board)
        &&& self.indexed()
        &&& forall|u: int, d: int| 0 <= u < 27 && 0 <= d < 9 ==> #[trigger] self.index(u, d) != 0
        &&& self.hint_on_board()
    }

    /// The state is consistent and nothing is left to propagate.
    pub open spec fn wf(self) -> bool {
        &&& self.sound()
        &&& closed(self.board)
    }

    /// The state in which every digit is a candidate everywhere.
    pub fn new() -> (solver: Solver)
        ensures
            solver.wf(),
            forall|x: int, y: int|
                0 <= x < 9 && 0 <= y < 9 ==> #[trigger] mask_at(solver.board, x, y) == ALL_DIGITS,
            solver.next_square_candidate is None,
            solver.board == blank_grid(),
    {
        let solver = Solver {
            board: [[ALL_DIGITS; 9]; 9],
            possible_blocks: [[[ALL_DIGITS; 9]; 3]; 3],
            possible_rows: [[ALL_DIGITS; 9]; 9],
            possible_cols: [[ALL_DIGITS; 9]; 9],
            next_square_candidate: None,
        };
        proof {
            lemma_holds_all();
            lemma_blank_grid(solver.board);
            assert forall|u: int, d: int| 0 <= u < 27 && 0 <= d < 9 implies #[trigger] solver.index(
                u,
                d,
            ) == ALL_DIGITS by {}
            assert forall|u: int, k: int| 0 <= u < 27 && 0 <= k < 9 implies mask_at(
                solver.board,
                #[trigger] unit_x(u, k),
                #[trigger] unit_y(u, k),
            ) == ALL_DIGITS by {
                lemma_unit_of_cell(u, k);
            }
            assert forall|u: int, k1: int, k2: int, d: int| !#[trigger] naked_pending(
                solver.board,
                u,
                k1,
                k2,
                d,
            ) by {
                if 0 <= u < 27 && 0 <= k1 < 9 && 0 <= d < 9 {
                    lemma_holds_single(d);
                    assert(holds(ALL_DIGITS, if d == 0 { 1int } else { 0int }));
                }
            }
            assert forall|u: int, k: int, d: int| !#[trigger] hidden_pending(
                solver.board,
                u,
                k,
                d,
            ) by {
                if 0 <= u < 27 && 0 <= k < 9 && 0 <= d < 9 {
                    let k2 = if k == 0 { 1int } else { 0int };
                    lemma_unit_of_cell(u, k2);
                    assert(unit_possible(solver.board, u, k2, d));
                }
            }
        }
        solver
    }

    /// The reverse index of unit `u` for digit `d`.
    pub fn unit_mask(&self, u: usize, d: usize) -> (mask: u16)
        requires
            u < 27,
            d < 9,
        ensures
            mask == self.index(u as int, d as int),
    {
        if u < 9 {
            self.possible_rows[u][d]
        } else if u < 18 {
            self.possible_cols[u - 9][d]
        } else {
            self.possible_blocks[(u - 18) / 3][(u - 18) % 3][d]
        }
    }

    /// The cached cell of `after` is the one that was cached in `self`, or
    /// a cell that has lost candidates since and has at most two left.
    pub open spec fn cache_follows(self, after: Solver) -> bool {
        after.next_square_candidate == self.next_square_candidate || (
        after.next_square_candidate matches Some(c) && c.0 < 9 && c.1 < 9 && count_at(
            after.board,
            c.0 as int,
            c.1 as int,
        ) <= 2 && mask_at(after.board, c.0 as int, c.1 as int) != mask_at(
            self.board,
            c.0 as int,
            c.1 as int,
        ))
    }

    /// What `eliminate` does to a consistent state.
    ///
    /// Whatever comes of it, no cell gains a candidate. When it succeeds,
    /// the state is consistent again, `(x, y)` lists none of the digits of
    /// `mask`, nothing is left to propagate that was not left before, and
    /// no stable grid that avoids the digits there is lost; from a well
    /// formed state it moves to a well formed one, whose board is the
    /// greatest stable grid below the old one that avoids the digits. When
    /// it fails, there is no stable grid below the old board that avoids
    /// them. Where the cell lists none of the digits already, nothing
    /// changes. Where the cell is left with two candidates, it is the cell
    /// that is cached. Whether the call succeeds, and with what board and
    /// what cached cell, is what `propagated` says: the work is done in
    /// the order that `spread` lays down.
    pub open spec fn eliminated(
        self,
        x: int,
        y: int,
        mask: u16,
        res: Result<(), SolverError>,
        after: Solver,
    ) -> bool {
        &&& refines(after.board, self.board)
        &&& res matches Ok(_) ==> {
            &&& after.sound()
            &&& avoids(after.board, x, y, mask)
            &&& keeps_avoiding(after.board, self.board, x, y, mask)
            &&& nothing_new_pending(after.board, self.board)
            &&& self.cache_follows(after)
        }
        &&& res is Ok && self.wf() ==> after.wf() && greatest_avoiding(
            after.board,
            self.board,
            x,
            y,
            mask,
        )
        &&& res matches Err(e) ==> e == SolverError::Contradiction && no_stable_avoiding(
            self.board,
            x,
            y,
            mask,
        )
        &&& avoids(self.board, x, y, mask) ==> res is Ok && after == self
        &&& res is Ok && !avoids(self.board, x, y, mask) && count_at(after.board, x, y) == 2
            ==> after.next_square_candidate == Some((x as usize, y as usize))
        &&& propagated(self.board, self.next_square_candidate, x, y, mask) == outcome_of(
            res,
            after,
        )
    }

    /// Strikes the digits of `digits_to_eliminate` from the candidates of
    /// cell `(x, y)` and propagates everything that follows from it. After
    /// a failure the state is as far as propagation got: its reverse
    /// indices may not agree with its board any more.
    pub fn eliminate(&mut self, x: usize, y: usize, digits_to_eliminate: u16) -> (res: Result<
        (),
        SolverError,
    >)
        requires
            old(self).sound(),
            x < 9,
            y < 9,
        ensures
            old(self).eliminated(x as int, y as int, digits_to_eliminate, res, *final(self)),
    {
        let res = self.propagate(x, y, digits_to_eliminate);
        proof {
            if res is Ok {
                self.lemma_sound_units();
            }
        }
        res
    }

    /// Makes `digit` (counted from 0) the one candidate of cell `(x, y)`
    /// and propagates everything that follows from it. A digit that is no
    /// candidate of the cell is refused, and the state is left as it was.
    pub fn set_digit(&mut self, x: usize, y: usize, digit: usize) -> (res: Result<(), SolverError>)
        requires
            old(self).sound(),
            x < 9,
            y < 9,
            digit < 9,
        ensures
            old(self).eliminated(x as int, y as int, !single(digit as int), res, *final(self)),
            res is Ok ==> mask_at(final(self).board, x as int, y as int) == single(digit as int),
            !possible(old(self).board, x as int, y as int, digit as int) ==> res is Err
                && *final(self) == *old(self),
    {
        let ghost before = *self;
        proof {
            lemma_holds_single(digit as int);
            lemma_avoids_others(before.board, x as int, y as int, digit as int);
            lemma_refines_self(before.board);
        }
        if !contains(self.board[x][y], digit) {
            proof {
                assert forall|g: Candidates|
                    stable(g) && #[trigger] refines(g, before.board) implies !avoids(
                    g,
                    x as int,
                    y as int,
                    !single(digit as int),
                ) by {
                    lemma_avoids_others(g, x as int, y as int, digit as int);
                    assert(subset(
                        mask_at(g, x as int, y as int),
                        mask_at(before.board, x as int, y as int),
                    ));
                }
            }
            proof {
                before.lemma_refused(x as int, y as int, digit as int);
            }
            return Err(SolverError::Contradiction);
        }
        let res = self.propagate(x, y, !digit_bit(digit));
        proof {
            if res is Ok {
                self.lemma_sound_units();
                lemma_avoids_others(self.board, x as int, y as int, digit as int);
            }
        }
        res
    }

    /// Propagation fails at once where all the candidates of a cell are
    /// to be struck: assigning a digit that is no candidate fails.
    pub proof fn lemma_refused(self, x: int, y: int, d: int)
        requires
            self.sound(),
            0 <= x < 9,
            0 <= y < 9,
            0 <= d < 9,
            !possible(self.board, x, y, d),
        ensures
            propagated(self.board, self.next_square_candidate, x, y, !single(d)) == Spread::Failed,
    {
        let m = mask_at(self.board, x, y);
        let remove = m & !single(d);
        lemma_holds_single(d);
        lemma_holds_and_not(m, single(d));
        lemma_holds_and_not(m, remove);
        lemma_empty(m);
        lemma_empty(remove);
        lemma_empty(m & !remove);
        lemma_in_range(m);
        assert(m != 0 && m <= ALL_DIGITS);
        let j = choose|j: int| holds(m, j);
        assert(holds(remove, j));
        assert forall|i: int| !holds(m & !remove, i) by {}
        lemma_popcount_zero(m);
        lemma_weight_holds(self.board, x, y);
        let struck = strike(self.board, x, y, remove);
        lemma_grid_of(|a: int, b: int| struck_cell(self.board, x, y, remove, a, b));
        assert(mask_at(struck, x, y) == m & !remove);
    }

    /// Following the cached cell over two steps is following it over both.
    pub proof fn lemma_cache_follows(self, mid: Solver, after: Solver)
        requires
            mid.sound(),
            after.sound(),
            refines(mid.board, self.board),
            refines(after.board, mid.board),
            self.cache_follows(mid),
            mid.cache_follows(after),
        ensures
            self.cache_follows(after),
    {
        if after.next_square_candidate != self.next_square_candidate {
            let c = after.next_square_candidate->0;
            let (a, b) = (c.0 as int, c.1 as int);
            assert(subset(mask_at(mid.board, a, b), mask_at(self.board, a, b)));
            assert(subset(mask_at(after.board, a, b), mask_at(mid.board, a, b)));
            lemma_popcount_mono(mask_at(after.board, a, b), mask_at(mid.board, a, b));
            if mask_at(after.board, a, b) == mask_at(self.board, a, b) {
                lemma_extensional(mask_at(mid.board, a, b), mask_at(self.board, a, b));
            }
        }
    }

    /// A consistent state has a place for every digit in every unit.
    pub proof fn lemma_sound_units(self)
        requires
            self.sound(),
        ensures
            units_nonempty(self.board),
    {
        assert forall|u: int, d: int| 0 <= u < 27 && 0 <= d < 9 implies #[trigger] has_place(
            self.board,
            u,
            d,
        ) by {
            let m = self.index(u, d);
            assert(m != 0 && m <= ALL_DIGITS);
            lemma_empty(m);
            lemma_in_range(m);
            let k = choose|k: int| holds(m, k);
            assert(unit_possible(self.board, u, k, d));
        }
    }

    /// A state stays consistent whatever cell on the board is cached.
    pub(crate) proof fn lemma_hint_apart(self, other: Solver)
        requires
            self.sound(),
            other.board == self.board,
            other.possible_rows == self.possible_rows,
            other.possible_cols == self.possible_cols,
            other.possible_blocks == self.possible_blocks,
            other.hint_on_board(),
        ensures
            other.sound(),
    {
        assert forall|u: int, d: int| 0 <= u < 27 && 0 <= d < 9 implies #[trigger] other.index(u, d)
            == self.index(u, d) by {}
    }
}

} // verus!
