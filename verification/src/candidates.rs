//! The mathematical model of a Sudoku position: a 9×9 grid of candidate
//! sets, the 27 units (rows, columns, blocks) that constrain it, and what it
//! means for such a grid to be closed under propagation.
//!
//! Cells are addressed as `(x, y)` with `x` the column and `y` the row,
//! both from 0 to 8. Digits are counted from 0: digit `d` stands for the
//! printed digit `d + 1`.

use vstd::prelude::*;
use crate::bits::{
    holds, lemma_popcount_mono, lemma_popcount_strict, popcount, single, subset, ALL_DIGITS,
};

verus! {

/// One candidate mask per cell, indexed `[x][y]`.
pub type Candidates = [[u16; 9]; 9];

/// The candidate mask of cell `(x, y)`.
pub open spec fn mask_at(g: Candidates, x: int, y: int) -> u16 {
    g[x][y]
}

/// Whether digit `d` is still a candidate of cell `(x, y)`.
pub open spec fn possible(g: Candidates, x: int, y: int, d: int) -> bool {
    0 <= x < 9 && 0 <= y < 9 && 0 <= d < 9 && holds(mask_at(g, x, y), d)
}

/// Units 0 to 8 are the rows, 9 to 17 the columns, 18 to 26 the blocks
/// (row-major). This is the column of the `k`-th cell of unit `u`.
pub open spec fn unit_x(u: int, k: int) -> int {
    if u < 9 {
        k
    } else if u < 18 {
        u - 9
    } else {
        3 * ((u - 18) % 3) + k % 3
    }
}

/// The row of the `k`-th cell of unit `u`.
pub open spec fn unit_y(u: int, k: int) -> int {
    if u < 9 {
        u
    } else if u < 18 {
        k
    } else {
        3 * ((u - 18) / 3) + k / 3
    }
}

/// The unit that is the row of cell `(x, y)`; the cell is its `x`-th.
pub open spec fn row_unit(y: int) -> int {
    y
}

/// The unit that is the column of cell `(x, y)`; the cell is its `y`-th.
pub open spec fn col_unit(x: int) -> int {
    9 + x
}

/// The unit that is the block of cell `(x, y)`.
pub open spec fn block_unit(x: int, y: int) -> int {
    18 + 3 * (y / 3) + x / 3
}

/// The place of cell `(x, y)` inside its block.
pub open spec fn block_pos(x: int, y: int) -> int {
    x % 3 + 3 * (y % 3)
}

/// Whether unit `u` is the row, the column or the block of cell `(x, y)`.
pub open spec fn touches(u: int, x: int, y: int) -> bool {
    u == row_unit(y) || u == col_unit(x) || u == block_unit(x, y)
}

/// The place of cell `(x, y)` in a unit that it belongs to.
pub open spec fn place_in(u: int, x: int, y: int) -> int {
    if u < 9 {
        x
    } else if u < 18 {
        y
    } else {
        block_pos(x, y)
    }
}

/// Whether digit `d` is still a candidate of the `k`-th cell of unit `u`.
pub open spec fn unit_possible(g: Candidates, u: int, k: int, d: int) -> bool {
    0 <= u < 27 && 0 <= k < 9 && possible(g, unit_x(u, k), unit_y(u, k), d)
}

/// Every mask lies within the nine digits.
pub open spec fn in_range(g: Candidates) -> bool {
    forall|x: int, y: int| 0 <= x < 9 && 0 <= y < 9 ==> #[trigger] mask_at(g, x, y) <= ALL_DIGITS
}

/// `t` allows nothing that `s` forbids.
pub open spec fn refines(t: Candidates, s: Candidates) -> bool {
    forall|x: int, y: int|
        0 <= x < 9 && 0 <= y < 9 ==> subset(#[trigger] mask_at(t, x, y), mask_at(s, x, y))
}

/// No cell has run out of candidates.
pub open spec fn cells_nonempty(g: Candidates) -> bool {
    forall|x: int, y: int| 0 <= x < 9 && 0 <= y < 9 ==> #[trigger] mask_at(g, x, y) != 0
}

/// Digit `d` still has a place in unit `u`.
pub open spec fn has_place(g: Candidates, u: int, d: int) -> bool {
    exists|k: int| #[trigger] unit_possible(g, u, k, d)
}

/// Every digit still has a place in every unit.
pub open spec fn units_nonempty(g: Candidates) -> bool {
    forall|u: int, d: int| 0 <= u < 27 && 0 <= d < 9 ==> #[trigger] has_place(g, u, d)
}

/// A naked single that has not been propagated: the `k1`-th cell of unit
/// `u` holds `d` alone, and yet the `k2`-th cell of that unit still lists `d`.
pub open spec fn naked_pending(g: Candidates, u: int, k1: int, k2: int, d: int) -> bool {
    &&& 0 <= u < 27
    &&& 0 <= k1 < 9
    &&& 0 <= k2 < 9
    &&& 0 <= d < 9
    &&& k1 != k2
    &&& mask_at(g, unit_x(u, k1), unit_y(u, k1)) == single(d)
    &&& unit_possible(g, u, k2, d)
}

/// `k` is the one place left for digit `d` in unit `u`.
pub open spec fn only_place(g: Candidates, u: int, k: int, d: int) -> bool {
    &&& unit_possible(g, u, k, d)
    &&& forall|k2: int| #[trigger] unit_possible(g, u, k2, d) ==> k2 == k
}

/// A hidden single that has not been propagated: `k` is the one place left
/// for `d` in unit `u`, and yet that cell lists other digits too.
pub open spec fn hidden_pending(g: Candidates, u: int, k: int, d: int) -> bool {
    &&& only_place(g, u, k, d)
    &&& mask_at(g, unit_x(u, k), unit_y(u, k)) != single(d)
}

/// Nothing is left to propagate: the digit of every resolved cell is gone
/// from the rest of its row, column and block, and a digit with one place
/// left in a unit is the only candidate there.
pub open spec fn closed(g: Candidates) -> bool {
    &&& forall|u: int, k1: int, k2: int, d: int| !#[trigger] naked_pending(g, u, k1, k2, d)
    &&& forall|u: int, k: int, d: int| !#[trigger] hidden_pending(g, u, k, d)
}

/// A grid that propagation can rest at: within range, with a candidate in
/// every cell and a place for every digit in every unit, and closed.
pub open spec fn stable(g: Candidates) -> bool {
    &&& in_range(g)
    &&& cells_nonempty(g)
    &&& units_nonempty(g)
    &&& closed(g)
}

/// Cell `(x, y)` of `g` lists none of the digits of `mask`.
pub open spec fn avoids(g: Candidates, x: int, y: int, mask: u16) -> bool {
    mask_at(g, x, y) & mask == 0
}

/// Every cell is down to one candidate.
pub open spec fn resolved(g: Candidates) -> bool {
    forall|x: int, y: int| 0 <= x < 9 && 0 <= y < 9 ==> popcount(#[trigger] mask_at(g, x, y)) == 1
}

/// The candidates of the first `n` cells, counted together.
pub open spec fn weight_below(g: Candidates, n: nat) -> nat
    decreases n,
{
    if n == 0 {
        0
    } else {
        weight_below(g, (n - 1) as nat) + popcount(mask_at(g, (n - 1) / 9, (n - 1) % 9))
    }
}

/// The candidates of all 81 cells, counted together.
pub open spec fn weight(g: Candidates) -> nat {
    weight_below(g, 81)
}

/// The cells of a unit lie on the board, and each cell is the `x`-th of its
/// row, the `y`-th of its column, and has its place in its block.
pub proof fn lemma_units(x: int, y: int)
    requires
        0 <= x < 9,
        0 <= y < 9,
    ensures
        unit_x(row_unit(y), x) == x && unit_y(row_unit(y), x) == y,
        unit_x(col_unit(x), y) == x && unit_y(col_unit(x), y) == y,
        unit_x(block_unit(x, y), block_pos(x, y)) == x,
        unit_y(block_unit(x, y), block_pos(x, y)) == y,
        0 <= row_unit(y) < 9 <= col_unit(x) < 18 <= block_unit(x, y) < 27,
        0 <= block_pos(x, y) < 9,
{
}

/// A cell belongs to three units only: its row, its column and its block.
pub proof fn lemma_unit_of_cell(u: int, k: int)
    requires
        0 <= u < 27,
        0 <= k < 9,
    ensures
        0 <= unit_x(u, k) < 9,
        0 <= unit_y(u, k) < 9,
        u < 9 ==> u == row_unit(unit_y(u, k)) && k == unit_x(u, k),
        9 <= u < 18 ==> u == col_unit(unit_x(u, k)) && k == unit_y(u, k),
        18 <= u ==> u == block_unit(unit_x(u, k), unit_y(u, k)) && k == block_pos(
            unit_x(u, k),
            unit_y(u, k),
        ),
{
}

/// Two different places of a unit are two different cells.
pub proof fn lemma_unit_places_differ(u: int, k1: int, k2: int)
    requires
        0 <= u < 27,
        0 <= k1 < 9,
        0 <= k2 < 9,
        k1 != k2,
    ensures
        unit_x(u, k1) != unit_x(u, k2) || unit_y(u, k1) != unit_y(u, k2),
{
}

/// Every grid refines itself.
pub proof fn lemma_refines_self(g: Candidates)
    ensures
        refines(g, g),
{
}

/// A refinement of a refinement is a refinement.
pub proof fn lemma_refines_trans(a: Candidates, b: Candidates, c: Candidates)
    requires
        refines(a, b),
        refines(b, c),
    ensures
        refines(a, c),
{
    assert forall|x: int, y: int| 0 <= x < 9 && 0 <= y < 9 implies subset(
        #[trigger] mask_at(a, x, y),
        mask_at(c, x, y),
    ) by {
        assert(subset(mask_at(a, x, y), mask_at(b, x, y)));
        assert(subset(mask_at(b, x, y), mask_at(c, x, y)));
    }
}

/// Over the first `n` cells, a grid weighs no more than one it refines.
pub proof fn lemma_weight_below_mono(t: Candidates, s: Candidates, n: nat)
    requires
        refines(t, s),
        n <= 81,
    ensures
        weight_below(t, n) <= weight_below(s, n),
    decreases n,
{
    if n > 0 {
        lemma_weight_below_mono(t, s, (n - 1) as nat);
        let x = (n - 1) / 9;
        let y = (n - 1) % 9;
        assert(subset(mask_at(t, x, y), mask_at(s, x, y)));
        lemma_popcount_mono(mask_at(t, x, y), mask_at(s, x, y));
    }
}

/// Over the first `n` cells, a grid weighs less than one it refines once
/// one of those cells has lost a candidate.
pub proof fn lemma_weight_below_strict(
    t: Candidates,
    s: Candidates,
    n: nat,
    x: int,
    y: int,
    d: int,
)
    requires
        refines(t, s),
        n <= 81,
        0 <= x < 9,
        0 <= y < 9,
        9 * x + y < n,
        holds(mask_at(s, x, y), d),
        !holds(mask_at(t, x, y), d),
    ensures
        weight_below(t, n) < weight_below(s, n),
    decreases n,
{
    let a = (n - 1) / 9;
    let b = (n - 1) % 9;
    assert(subset(mask_at(t, a, b), mask_at(s, a, b)));
    if n - 1 == 9 * x + y {
        assert(a == x && b == y);
        lemma_weight_below_mono(t, s, (n - 1) as nat);
        lemma_popcount_strict(mask_at(t, x, y), mask_at(s, x, y), d);
    } else {
        lemma_weight_below_strict(t, s, (n - 1) as nat, x, y, d);
        lemma_popcount_mono(mask_at(t, a, b), mask_at(s, a, b));
    }
}

/// The first `n` cells weigh at least what any one of them holds.
pub proof fn lemma_weight_below_holds(g: Candidates, n: nat, x: int, y: int)
    requires
        n <= 81,
        0 <= x < 9,
        0 <= y < 9,
        9 * x + y < n,
    ensures
        weight_below(g, n) >= popcount(mask_at(g, x, y)),
    decreases n,
{
    if n - 1 == 9 * x + y {
        assert((n - 1) / 9 == x && (n - 1) % 9 == y);
    } else {
        lemma_weight_below_holds(g, (n - 1) as nat, x, y);
    }
}

/// A grid weighs at least what any one of its cells holds.
pub proof fn lemma_weight_holds(g: Candidates, x: int, y: int)
    requires
        0 <= x < 9,
        0 <= y < 9,
    ensures
        weight(g) >= popcount(mask_at(g, x, y)),
{
    lemma_weight_below_holds(g, 81, x, y);
}

/// A grid weighs no more than one it refines.
pub proof fn lemma_weight_mono(t: Candidates, s: Candidates)
    requires
        refines(t, s),
    ensures
        weight(t) <= weight(s),
{
    lemma_weight_below_mono(t, s, 81);
}

/// A grid weighs less than one it refines once a cell has lost a candidate.
pub proof fn lemma_weight_strict(t: Candidates, s: Candidates, x: int, y: int, d: int)
    requires
        refines(t, s),
        0 <= x < 9,
        0 <= y < 9,
        holds(mask_at(s, x, y), d),
        !holds(mask_at(t, x, y), d),
    ensures
        weight(t) < weight(s),
{
    lemma_weight_below_strict(t, s, 81, x, y, d);
}

} // verus!
