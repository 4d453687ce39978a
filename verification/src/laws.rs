//! What holds of the solver as a whole: theorems that relate its
//! operations to each other and to the rules of Sudoku.

use vstd::prelude::*;
use vstd::relations::injective_on;
use vstd::set_lib::{lemma_int_range, lemma_map_size, lemma_subset_equality, set_int_range};
use crate::bits::{
    count_below, holds, lemma_empty, lemma_extensional, lemma_holds_all, lemma_holds_and,
    lemma_holds_and_not, lemma_holds_not, lemma_holds_single, lemma_in_range,
    lemma_popcount_one, popcount, single, subset, ALL_DIGITS,
};
use crate::candidates::{
    avoids, has_place, hidden_pending, lemma_unit_of_cell, lemma_weight_mono, mask_at,
    naked_pending, refines, resolved, stable, unit_possible, unit_x, unit_y, weight, Candidates,
};
use crate::gui::board::Board;
use crate::propagation::{lemma_avoids_refined, lemma_single_stays};
use crate::solver::{
    cell_resolved, greatest_avoiding, lemma_resolved_mask, no_solution, solved_grid, spread,
    Solver, SolverError,
};

verus! {

/// The members of `mask` below `n`.
pub open spec fn members_below(mask: u16, n: nat) -> Set<int> {
    Set::new(|i: int| 0 <= i < n && holds(mask, i))
}

/// The places of unit `u` where digit `d` is still a candidate.
pub open spec fn places(g: Candidates, u: int, d: int) -> Set<int> {
    Set::new(|k: int| unit_possible(g, u, k, d))
}

/// The digit that the `k`-th cell of unit `u` is resolved to.
pub open spec fn digit_at(g: Candidates, u: int, k: int) -> int {
    choose|d: int| 0 <= d < 9 && mask_at(g, unit_x(u, k), unit_y(u, k)) == #[trigger] single(d)
}

/// Some cell of unit `u` is resolved to digit `d`.
pub open spec fn digit_in_unit(g: Candidates, u: int, d: int) -> bool {
    exists|k: int| 0 <= k < 9 && mask_at(g, unit_x(u, k), unit_y(u, k)) == single(d)
}

/// Every row, column and block holds every digit.
pub open spec fn all_digits_everywhere(g: Candidates) -> bool {
    forall|u: int, d: int| 0 <= u < 27 && 0 <= d < 9 ==> #[trigger] digit_in_unit(g, u, d)
}

/// The members of a mask below `n` are as many as `count_below` counts.
pub proof fn lemma_members_counted(mask: u16, n: nat)
    ensures
        members_below(mask, n).finite(),
        members_below(mask, n).len() == count_below(mask, n),
    decreases n,
{
    if n == 0 {
        assert(members_below(mask, 0) =~= Set::empty());
    } else {
        lemma_members_counted(mask, (n - 1) as nat);
        if holds(mask, n - 1) {
            assert(members_below(mask, n) =~= members_below(mask, (n - 1) as nat).insert(n - 1));
        } else {
            assert(members_below(mask, n) =~= members_below(mask, (n - 1) as nat));
        }
    }
}

/// In a consistent state, the number of bits set in the reverse index of
/// a unit for a digit is the number of cells of that unit that still list
/// the digit. For a row, the index entry is `possible_rows[row][digit]`;
/// for a column, `possible_cols[column][digit]`; for a block,
/// `possible_blocks[block row][block column][digit]`.
pub proof fn lemma_index_counts_places(state: Solver, u: int, d: int)
    requires
        state.sound(),
        0 <= u < 27,
        0 <= d < 9,
    ensures
        places(state.board, u, d).finite(),
        popcount(state.index(u, d)) == places(state.board, u, d).len(),
        u < 9 ==> state.index(u, d) == state.possible_rows[u][d],
        9 <= u < 18 ==> state.index(u, d) == state.possible_cols[u - 9][d],
        18 <= u ==> state.index(u, d) == state.possible_blocks[(u - 18) / 3][(u - 18) % 3][d],
{
    let m = state.index(u, d);
    assert(m <= ALL_DIGITS);
    lemma_in_range(m);
    lemma_members_counted(m, 16);
    assert forall|k: int| unit_possible(state.board, u, k, d) == (0 <= k < 16 && holds(m, k)) by {
        if 0 <= k < 9 {
            assert(holds(m, k) == unit_possible(state.board, u, k, d));
        }
    }
    assert(places(state.board, u, d) =~= members_below(m, 16));
}

/// Striking the same digits from the same cell a second time succeeds and
/// changes nothing.
pub proof fn lemma_eliminate_twice(
    start: Solver,
    once: Solver,
    twice: Solver,
    x: int,
    y: int,
    mask: u16,
    second: Result<(), SolverError>,
)
    requires
        start.eliminated(x, y, mask, Ok(()), once),
        once.eliminated(x, y, mask, second, twice),
    ensures
        second is Ok,
        twice == once,
{
}

/// Whatever comes of striking digits, no cell gains a candidate, and the
/// candidates of all cells, counted together, do not grow.
pub proof fn lemma_candidates_never_grow(
    start: Solver,
    after: Solver,
    x: int,
    y: int,
    mask: u16,
    res: Result<(), SolverError>,
)
    requires
        start.eliminated(x, y, mask, res, after),
    ensures
        refines(after.board, start.board),
        weight(after.board) <= weight(start.board),
{
    lemma_weight_mono(after.board, start.board);
}

/// A cell within the nine digits avoids every digit but `d` exactly when
/// it avoids the other eight.
pub proof fn lemma_others_are_eight(g: Candidates, x: int, y: int, d: int)
    requires
        0 <= x < 9,
        0 <= y < 9,
        0 <= d < 9,
        mask_at(g, x, y) <= ALL_DIGITS,
    ensures
        avoids(g, x, y, !single(d)) <==> avoids(g, x, y, ALL_DIGITS & !single(d)),
{
    let m = mask_at(g, x, y);
    let eight = ALL_DIGITS & !single(d);
    lemma_in_range(m);
    lemma_holds_all();
    lemma_holds_not(single(d));
    lemma_holds_and_not(ALL_DIGITS, single(d));
    lemma_holds_and(m, !single(d));
    lemma_holds_and(m, eight);
    lemma_empty(m & !single(d));
    lemma_empty(m & eight);
    if avoids(g, x, y, !single(d)) {
        assert forall|i: int| !holds(m & eight, i) by {
            assert(!holds(m & !single(d), i));
        }
    }
    if avoids(g, x, y, eight) {
        assert forall|i: int| !holds(m & !single(d), i) by {
            assert(!holds(m & eight, i));
        }
    }
}

/// Two consistent states with the same board and the same cached cell
/// are the same state: the reverse indices follow from the board.
pub proof fn lemma_board_and_cache_are_all(a: Solver, b: Solver)
    requires
        a.sound(),
        b.sound(),
        a.board == b.board,
        a.next_square_candidate == b.next_square_candidate,
    ensures
        a == b,
{
    assert forall|u: int, d: int| 0 <= u < 27 && 0 <= d < 9 implies #[trigger] a.index(u, d)
        == b.index(u, d) by {
        let m = a.index(u, d);
        let n = b.index(u, d);
        assert(m <= ALL_DIGITS && n <= ALL_DIGITS);
        lemma_in_range(m);
        lemma_in_range(n);
        assert forall|k: int| 0 <= k < 16 implies holds(m, k) == holds(n, k) by {
            if k < 9 {
                assert(holds(m, k) == unit_possible(a.board, u, k, d));
                assert(holds(n, k) == unit_possible(b.board, u, k, d));
            }
        }
        lemma_extensional(m, n);
    }
    assert forall|r: int| 0 <= r < 9 implies a.possible_rows[r] == b.possible_rows[r] by {
        assert forall|d: int| 0 <= d < 9 implies a.possible_rows[r][d] == b.possible_rows[r][d] by {
            assert(a.index(r, d) == b.index(r, d));
        }
        assert(a.possible_rows[r] =~= b.possible_rows[r]);
    }
    assert(a.possible_rows =~= b.possible_rows);
    assert forall|c: int| 0 <= c < 9 implies a.possible_cols[c] == b.possible_cols[c] by {
        assert forall|d: int| 0 <= d < 9 implies a.possible_cols[c][d] == b.possible_cols[c][d] by {
            assert(a.index(9 + c, d) == b.index(9 + c, d));
        }
        assert(a.possible_cols[c] =~= b.possible_cols[c]);
    }
    assert(a.possible_cols =~= b.possible_cols);
    assert forall|i: int| 0 <= i < 3 implies a.possible_blocks[i] == b.possible_blocks[i] by {
        assert forall|j: int| 0 <= j < 3 implies a.possible_blocks[i][j]
            == b.possible_blocks[i][j] by {
            assert forall|d: int| 0 <= d < 9 implies a.possible_blocks[i][j][d]
                == b.possible_blocks[i][j][d] by {
                let u = 18 + 3 * i + j;
                assert((u - 18) / 3 == i && (u - 18) % 3 == j);
                assert(a.index(u, d) == b.index(u, d));
            }
            assert(a.possible_blocks[i][j] =~= b.possible_blocks[i][j]);
        }
        assert(a.possible_blocks[i] =~= b.possible_blocks[i]);
    }
    assert(a.possible_blocks =~= b.possible_blocks);
}

/// Two calls that strike the same candidates from a cell come to the
/// same: what a mask holds beyond the candidates of the cell is of no
/// account.
pub proof fn lemma_spread_by_what_is_struck(
    fuel: nat,
    g: Candidates,
    h: Option<(usize, usize)>,
    x: int,
    y: int,
    first: u16,
    second: u16,
)
    requires
        mask_at(g, x, y) & first == mask_at(g, x, y) & second,
    ensures
        spread(fuel, g, h, x, y, first) == spread(fuel, g, h, x, y, second),
{
}

/// Assigning a digit that is a candidate and striking the other eight
/// are one and the same: they succeed or fail together, and where they
/// succeed they leave the same state, in every field.
pub proof fn lemma_assigning_is_striking_the_rest(
    start: Solver,
    assigned: Solver,
    struck: Solver,
    x: int,
    y: int,
    d: int,
    first: Result<(), SolverError>,
    second: Result<(), SolverError>,
)
    requires
        start.sound(),
        0 <= x < 9,
        0 <= y < 9,
        0 <= d < 9,
        start.eliminated(x, y, !single(d), first, assigned),
        start.eliminated(x, y, ALL_DIGITS & !single(d), second, struck),
    ensures
        first is Ok <==> second is Ok,
        first is Ok ==> assigned == struck,
{
    let m = mask_at(start.board, x, y);
    assert(m <= ALL_DIGITS);
    lemma_in_range(m);
    lemma_holds_all();
    lemma_holds_not(single(d));
    lemma_holds_and_not(ALL_DIGITS, single(d));
    lemma_holds_and(m, !single(d));
    lemma_holds_and(m, ALL_DIGITS & !single(d));
    lemma_extensional(m & !single(d), m & (ALL_DIGITS & !single(d)));
    lemma_spread_by_what_is_struck(
        weight(start.board),
        start.board,
        start.next_square_candidate,
        x,
        y,
        !single(d),
        ALL_DIGITS & !single(d),
    );
    if first is Ok {
        lemma_board_and_cache_are_all(assigned, struck);
    }
}

/// The greatest stable grid below a grid that avoids given digits in a
/// given cell is one grid: whatever way it is reached by, the candidates
/// are the same.
pub proof fn lemma_greatest_is_one(
    a: Candidates,
    b: Candidates,
    s: Candidates,
    x: int,
    y: int,
    mask: u16,
)
    requires
        greatest_avoiding(a, s, x, y, mask),
        greatest_avoiding(b, s, x, y, mask),
    ensures
        a == b,
{
    lemma_mutual_refinement(a, b);
}

/// Two grids that refine each other are the same grid.
pub proof fn lemma_mutual_refinement(a: Candidates, b: Candidates)
    requires
        refines(a, b),
        refines(b, a),
    ensures
        a == b,
{
    assert forall|x: int| 0 <= x < 9 implies a[x] == b[x] by {
        assert forall|y: int| 0 <= y < 9 implies a[x][y] == b[x][y] by {
            assert(subset(mask_at(a, x, y), mask_at(b, x, y)));
            assert(subset(mask_at(b, x, y), mask_at(a, x, y)));
            lemma_extensional(mask_at(a, x, y), mask_at(b, x, y));
        }
        assert(a[x] =~= b[x]);
    }
    assert(a =~= b);
}

/// Two assignments give the same candidates in either order, where both
/// orders go through.
pub proof fn lemma_assignments_commute(
    start: Solver,
    first: Solver,
    first_then_second: Solver,
    second: Solver,
    second_then_first: Solver,
    x1: int,
    y1: int,
    m1: u16,
    x2: int,
    y2: int,
    m2: u16,
)
    requires
        start.wf(),
        0 <= x1 < 9 && 0 <= y1 < 9 && 0 <= x2 < 9 && 0 <= y2 < 9,
        start.eliminated(x1, y1, m1, Ok(()), first),
        first.eliminated(x2, y2, m2, Ok(()), first_then_second),
        start.eliminated(x2, y2, m2, Ok(()), second),
        second.eliminated(x1, y1, m1, Ok(()), second_then_first),
    ensures
        first_then_second.board == second_then_first.board,
{
    let a = first_then_second.board;
    let b = second_then_first.board;
    crate::candidates::lemma_refines_trans(a, first.board, start.board);
    crate::candidates::lemma_refines_trans(b, second.board, start.board);
    lemma_avoids_refined(a, first.board, x1, y1, m1);
    lemma_avoids_refined(b, second.board, x2, y2, m2);
    assert(refines(a, second.board));
    assert(refines(a, b));
    assert(refines(b, first.board));
    assert(refines(b, a));
    lemma_mutual_refinement(a, b);
}

/// A function from the nine places to the nine digits that never gives
/// the same digit twice gives every digit.
pub proof fn lemma_pigeonhole(f: spec_fn(int) -> int, d: int)
    requires
        forall|k: int| 0 <= k < 9 ==> 0 <= #[trigger] f(k) < 9,
        forall|k1: int, k2: int|
            0 <= k1 < 9 && 0 <= k2 < 9 && k1 != k2 ==> #[trigger] f(k1) != #[trigger] f(k2),
        0 <= d < 9,
    ensures
        exists|k: int| 0 <= k < 9 && #[trigger] f(k) == d,
{
    let nine = set_int_range(0, 9);
    lemma_int_range(0, 9);
    assert(injective_on(f, nine));
    let image = nine.map(f);
    lemma_map_size(nine, image, f);
    assert(image.subset_of(nine)) by {
        assert forall|e: int| image.contains(e) implies nine.contains(e) by {
            let k = choose|k: int| nine.contains(k) && e == f(k);
        }
    }
    lemma_subset_equality(image, nine);
    assert(nine.contains(d));
    assert(image.contains(d));
    let k = choose|k: int| nine.contains(k) && d == f(k);
    assert(0 <= k < 9 && f(k) == d);
}

/// A board that `solved` accepts is a finished Sudoku: every row, every
/// column and every block holds each of the nine digits, once.
pub proof fn lemma_solved_is_sudoku(g: Candidates)
    requires
        solved_grid(g),
    ensures
        all_digits_everywhere(g),
{
    assert forall|u: int, d: int| 0 <= u < 27 && 0 <= d < 9 implies #[trigger] digit_in_unit(
        g,
        u,
        d,
    ) by {
        let f = |k: int| digit_at(g, u, k);
        assert forall|k: int| 0 <= k < 9 implies 0 <= #[trigger] f(k) < 9 && mask_at(
            g,
            unit_x(u, k),
            unit_y(u, k),
        ) == single(f(k)) by {
            lemma_unit_of_cell(u, k);
            assert(cell_resolved(g, unit_x(u, k), unit_y(u, k)));
        }
        assert forall|k1: int, k2: int|
            0 <= k1 < 9 && 0 <= k2 < 9 && k1 != k2 implies #[trigger] f(k1) != #[trigger] f(
            k2,
        ) by {
            assert(mask_at(g, unit_x(u, k1), unit_y(u, k1)) != mask_at(
                g,
                unit_x(u, k2),
                unit_y(u, k2),
            ));
        }
        lemma_pigeonhole(f, d);
        let k = choose|k: int| 0 <= k < 9 && #[trigger] f(k) == d;
        assert(mask_at(g, unit_x(u, k), unit_y(u, k)) == single(d));
    }
}

/// A finished Sudoku is a grid that propagation can rest at, with every
/// cell down to one candidate.
pub proof fn lemma_solved_is_stable(g: Candidates)
    requires
        solved_grid(g),
    ensures
        stable(g),
        resolved(g),
{
    lemma_solved_is_sudoku(g);
    assert forall|x: int, y: int| 0 <= x < 9 && 0 <= y < 9 implies {
        &&& #[trigger] mask_at(g, x, y) <= ALL_DIGITS
        &&& mask_at(g, x, y) != 0
        &&& popcount(mask_at(g, x, y)) == 1
    } by {
        assert(cell_resolved(g, x, y));
        lemma_resolved_mask(mask_at(g, x, y));
        crate::bits::lemma_popcount_zero(mask_at(g, x, y));
    }
    assert forall|u: int, d: int| 0 <= u < 27 && 0 <= d < 9 implies #[trigger] has_place(
        g,
        u,
        d,
    ) by {
        assert(digit_in_unit(g, u, d));
        let k = choose|k: int| 0 <= k < 9 && mask_at(g, unit_x(u, k), unit_y(u, k)) == single(d);
        lemma_unit_of_cell(u, k);
        lemma_holds_single(d);
        assert(unit_possible(g, u, k, d));
    }
    assert forall|u: int, k1: int, k2: int, d: int| !#[trigger] naked_pending(
        g,
        u,
        k1,
        k2,
        d,
    ) by {
        if naked_pending(g, u, k1, k2, d) {
            lemma_unit_of_cell(u, k2);
            let m = mask_at(g, unit_x(u, k2), unit_y(u, k2));
            assert(cell_resolved(g, unit_x(u, k2), unit_y(u, k2)));
            lemma_resolved_mask(m);
            lemma_popcount_one(m, d);
        }
    }
    assert forall|u: int, k: int, d: int| !#[trigger] hidden_pending(g, u, k, d) by {
        if hidden_pending(g, u, k, d) {
            lemma_unit_of_cell(u, k);
            let m = mask_at(g, unit_x(u, k), unit_y(u, k));
            assert(cell_resolved(g, unit_x(u, k), unit_y(u, k)));
            lemma_resolved_mask(m);
            lemma_popcount_one(m, d);
        }
    }
}

/// A grid that propagation can rest at, with every cell down to one
/// candidate, is a finished Sudoku.
pub proof fn lemma_stable_resolved_is_solved(g: Candidates)
    requires
        stable(g),
        resolved(g),
    ensures
        solved_grid(g),
{
    assert forall|x: int, y: int| 0 <= x < 9 && 0 <= y < 9 implies #[trigger] cell_resolved(
        g,
        x,
        y,
    ) by {
        assert(popcount(mask_at(g, x, y)) == 1 && mask_at(g, x, y) <= ALL_DIGITS);
        lemma_resolved_mask(mask_at(g, x, y));
    }
    assert forall|u: int, k1: int, k2: int|
        0 <= u < 27 && 0 <= k1 < 9 && 0 <= k2 < 9 && k1 != k2 implies #[trigger] mask_at(
        g,
        unit_x(u, k1),
        unit_y(u, k1),
    ) != #[trigger] mask_at(g, unit_x(u, k2), unit_y(u, k2)) by {
        lemma_unit_of_cell(u, k1);
        lemma_unit_of_cell(u, k2);
        let m = mask_at(g, unit_x(u, k1), unit_y(u, k1));
        assert(cell_resolved(g, unit_x(u, k1), unit_y(u, k1)));
        let d = choose|d: int| 0 <= d < 9 && m == #[trigger] single(d);
        if m == mask_at(g, unit_x(u, k2), unit_y(u, k2)) {
            lemma_holds_single(d);
            assert(unit_possible(g, u, k2, d));
            assert(naked_pending(g, u, k1, k2, d));
        }
    }
}

/// A finished Sudoku that search finds below the state set up for a board
/// holds the numbers of the board.
pub proof fn lemma_solution_fits_board(board: Board, start: Solver, found: Candidates)
    requires
        Solver::propagated_from(board, Ok(start)),
        refines(found, start.board),
        solved_grid(found),
    ensures
        board.fits(found),
{
    lemma_solved_is_stable(found);
    assert forall|x: int, y: int| 0 <= x < 9 && 0 <= y < 9 implies (
    #[trigger] board.clue(x, y) matches Some(d) ==> mask_at(found, x, y) == single(d)) by {
        if let Some(d) = board.clue(x, y) {
            assert(mask_at(start.board, x, y) == single(d));
            assert(subset(mask_at(found, x, y), mask_at(start.board, x, y)));
            assert(mask_at(found, x, y) != 0);
            lemma_single_stays(mask_at(found, x, y), d);
        }
    }
}

/// Where a board is set up and search then finds nothing, no finished
/// Sudoku holds the numbers of the board.
pub proof fn lemma_search_is_complete(board: Board, start: Solver)
    requires
        Solver::propagated_from(board, Ok(start)),
        no_solution(start.board),
    ensures
        forall|g: Candidates| solved_grid(g) ==> !#[trigger] board.fits(g),
{
    assert forall|g: Candidates| solved_grid(g) implies !#[trigger] board.fits(g) by {
        lemma_solved_is_stable(g);
        if board.fits(g) {
            assert(refines(g, start.board));
        }
    }
}

/// Where a board of digits from 1 to 9 is refused as an invalid puzzle, no
/// finished Sudoku holds the numbers of the board.
pub proof fn lemma_invalid_puzzle_has_no_solution(board: Board, e: SolverError)
    requires
        Solver::propagated_from(board, Err(e)),
        board.digits_only(),
    ensures
        forall|g: Candidates| solved_grid(g) ==> !#[trigger] board.fits(g),
{
    assert forall|g: Candidates| solved_grid(g) implies !#[trigger] board.fits(g) by {
        lemma_solved_is_stable(g);
    }
}

} // verus!
