//! The order in which propagation goes about its work, as a function of
//! the board and of the cached cell.
//!
//! What board a successful propagation ends with does not depend on the
//! order: it is the greatest stable grid. Which cell is cached does. This
//! module says, step by step, what is struck when; the functions of the
//! engine are proved to do just that. `fuel` bounds how many times a cell
//! may be struck from; the candidates of the board, counted together, are
//! always enough.

use vstd::prelude::*;
use crate::arrays::{grid_of, lemma_grid_of};
use crate::bits::{holds, popcount, single, ALL_DIGITS};
use crate::candidates::{
    block_pos, block_unit, col_unit, has_place, mask_at, only_place, row_unit, touches,
    unit_possible, unit_x, unit_y, weight, Candidates,
};
use crate::propagation::struck;
use crate::solver::{Solver, SolverError};

verus! {

/// What a step of propagation comes to.
pub enum Spread {
    /// The fuel ran out.
    Starved,
    /// A cell ran out of candidates, or a digit of places.
    Failed,
    /// The board and the cached cell that the step ends with.
    Done(Candidates, Option<(usize, usize)>),
}

/// Cell `(a, b)` of `g` once the digits of `mask` are struck from `(x, y)`.
pub open spec fn struck_cell(g: Candidates, x: int, y: int, mask: u16, a: int, b: int) -> u16 {
    if a == x && b == y {
        mask_at(g, a, b) & !mask
    } else {
        mask_at(g, a, b)
    }
}

/// `g` with the digits of `mask` struck from cell `(x, y)`.
pub open spec fn strike(g: Candidates, x: int, y: int, mask: u16) -> Candidates {
    grid_of(|a: int, b: int| struck_cell(g, x, y, mask, a, b))
}

/// After the digits of `removed` were struck from `(x, y)`, the cell has
/// a candidate left, and each of the digits has a place left in the row,
/// the column and the block of the cell.
pub open spec fn left_standing(g: Candidates, x: int, y: int, removed: u16) -> bool {
    &&& mask_at(g, x, y) != 0
    &&& forall|u: int, d: int|
        0 <= u < 27 && 0 <= d < 9 && touches(u, x, y) && holds(removed, d) ==> #[trigger] has_place(
            g,
            u,
            d,
        )
}

/// The one member of a mask with one member.
pub open spec fn lone(m: u16) -> int {
    choose|d: int| holds(m, d)
}

/// The one place left for digit `d` in unit `u`.
pub open spec fn last_place(g: Candidates, u: int, d: int) -> int {
    choose|k: int| only_place(g, u, k, d)
}

/// Strikes the digits of `mask` from `(x, y)`; then, if the cell is left
/// with one candidate, strikes it from the row, the column and the block
/// of the cell; then assigns each struck digit where it has one place
/// left in these three; and at last caches the cell if it has two
/// candidates.
pub open spec fn spread(
    fuel: nat,
    g: Candidates,
    h: Option<(usize, usize)>,
    x: int,
    y: int,
    mask: u16,
) -> Spread
    decreases fuel, 0nat, 0nat,
{
    let remove = mask_at(g, x, y) & mask;
    if remove == 0 {
        Spread::Done(g, h)
    } else if fuel == 0 {
        Spread::Starved
    } else {
        let struck = strike(g, x, y, remove);
        if !left_standing(struck, x, y, remove) {
            Spread::Failed
        } else {
            let purged = if popcount(mask_at(struck, x, y)) == 1 {
                spread_purge((fuel - 1) as nat, struck, h, x, y, lone(mask_at(struck, x, y)))
            } else {
                Spread::Done(struck, h)
            };
            match purged {
                Spread::Done(g2, h2) => match spread_settle(
                    (fuel - 1) as nat,
                    g2,
                    h2,
                    x,
                    y,
                    remove,
                    0,
                ) {
                    Spread::Done(g3, h3) => Spread::Done(
                        g3,
                        if popcount(mask_at(g3, x, y)) == 2 {
                            Some((x as usize, y as usize))
                        } else {
                            h3
                        },
                    ),
                    other => other,
                },
                other => other,
            }
        }
    }
}

/// Strikes `d` from the other cells of the row of `(x, y)`, then of its
/// column, then of its block.
pub open spec fn spread_purge(
    fuel: nat,
    g: Candidates,
    h: Option<(usize, usize)>,
    x: int,
    y: int,
    d: int,
) -> Spread
    decreases fuel, 3nat, 0nat,
{
    match spread_purge_unit(fuel, g, h, g, row_unit(y), x, d, 0) {
        Spread::Done(g1, h1) => match spread_purge_unit(fuel, g1, h1, g1, col_unit(x), y, d, 0) {
            Spread::Done(g2, h2) => spread_purge_unit(
                fuel,
                g2,
                h2,
                g2,
                block_unit(x, y),
                block_pos(x, y),
                d,
                0,
            ),
            other => other,
        },
        other => other,
    }
}

/// Strikes `d` from the cells of unit `u` from the `k`-th on that listed
/// it in `start`, but for the `keep`-th.
pub open spec fn spread_purge_unit(
    fuel: nat,
    g: Candidates,
    h: Option<(usize, usize)>,
    start: Candidates,
    u: int,
    keep: int,
    d: int,
    k: int,
) -> Spread
    decreases fuel, 2nat, 9 - k,
{
    if k >= 9 || k < 0 {
        Spread::Done(g, h)
    } else if k != keep && unit_possible(start, u, k, d) {
        match spread(fuel, g, h, unit_x(u, k), unit_y(u, k), single(d)) {
            Spread::Done(g1, h1) => spread_purge_unit(fuel, g1, h1, start, u, keep, d, k + 1),
            other => other,
        }
    } else {
        spread_purge_unit(fuel, g, h, start, u, keep, d, k + 1)
    }
}

/// Assigns each of the digits of `removed` from `d` on where it has one
/// place left in the row, the column or the block of `(x, y)`.
pub open spec fn spread_settle(
    fuel: nat,
    g: Candidates,
    h: Option<(usize, usize)>,
    x: int,
    y: int,
    removed: u16,
    d: int,
) -> Spread
    decreases fuel, 5nat, 9 - d,
{
    if d >= 9 || d < 0 {
        Spread::Done(g, h)
    } else if holds(removed, d) {
        match spread_settle_digit(fuel, g, h, x, y, d) {
            Spread::Done(g1, h1) => spread_settle(fuel, g1, h1, x, y, removed, d + 1),
            other => other,
        }
    } else {
        spread_settle(fuel, g, h, x, y, removed, d + 1)
    }
}

/// Assigns `d` where it has one place left in the row of `(x, y)`, then
/// in its column, then in its block.
pub open spec fn spread_settle_digit(
    fuel: nat,
    g: Candidates,
    h: Option<(usize, usize)>,
    x: int,
    y: int,
    d: int,
) -> Spread
    decreases fuel, 4nat, 0nat,
{
    match spread_settle_unit(fuel, g, h, row_unit(y), d) {
        Spread::Done(g1, h1) => match spread_settle_unit(fuel, g1, h1, col_unit(x), d) {
            Spread::Done(g2, h2) => spread_settle_unit(fuel, g2, h2, block_unit(x, y), d),
            other => other,
        },
        other => other,
    }
}

/// Assigns `d` in unit `u` if it has one place left there.
pub open spec fn spread_settle_unit(
    fuel: nat,
    g: Candidates,
    h: Option<(usize, usize)>,
    u: int,
    d: int,
) -> Spread
    decreases fuel, 1nat, 0nat,
{
    if exists|k: int| only_place(g, u, k, d) {
        spread(
            fuel,
            g,
            h,
            unit_x(u, last_place(g, u, d)),
            unit_y(u, last_place(g, u, d)),
            !single(d),
        )
    } else {
        Spread::Done(g, h)
    }
}

/// The grid in which every digit is a candidate everywhere.
pub open spec fn blank_grid() -> Candidates {
    grid_of(|a: int, b: int| ALL_DIGITS)
}

/// In the blank grid every digit is a candidate everywhere.
pub proof fn lemma_blank_grid_holds_all()
    ensures
        forall|x: int, y: int|
            0 <= x < 9 && 0 <= y < 9 ==> #[trigger] mask_at(blank_grid(), x, y) == ALL_DIGITS,
{
    lemma_grid_of(|a: int, b: int| ALL_DIGITS);
    assert forall|x: int, y: int| 0 <= x < 9 && 0 <= y < 9 implies #[trigger] mask_at(
        blank_grid(),
        x,
        y,
    ) == ALL_DIGITS by {
        assert(blank_grid()[x][y] == ALL_DIGITS);
    }
}

/// A grid in which every digit is a candidate everywhere is the blank grid.
pub proof fn lemma_blank_grid(g: Candidates)
    requires
        forall|x: int, y: int| 0 <= x < 9 && 0 <= y < 9 ==> #[trigger] mask_at(g, x, y) == ALL_DIGITS,
    ensures
        g == blank_grid(),
{
    lemma_grid_of(|a: int, b: int| ALL_DIGITS);
    let r = blank_grid();
    assert forall|a: int| 0 <= a < 9 implies g[a] == r[a] by {
        assert forall|b: int| 0 <= b < 9 implies g[a][b] == r[a][b] by {
            assert(mask_at(g, a, b) == ALL_DIGITS);
        }
        assert(g[a] =~= r[a]);
    }
    assert(g =~= r);
}

/// What striking the digits of `mask` from `(x, y)` comes to, with all
/// that follows from it.
pub open spec fn propagated(
    g: Candidates,
    h: Option<(usize, usize)>,
    x: int,
    y: int,
    mask: u16,
) -> Spread {
    spread(weight(g), g, h, x, y, mask)
}

/// What a call came to: the board and the cached cell that it left, or
/// its failure.
pub open spec fn outcome_of(res: Result<(), SolverError>, after: Solver) -> Spread {
    match res {
        Ok(_) => Spread::Done(after.board, after.next_square_candidate),
        Err(_) => Spread::Failed,
    }
}

impl Solver {
    /// From `self`, `spread` comes to `end`, whatever fuel there is beyond
    /// the candidates of the board.
    pub open spec fn spreads_to(self, x: int, y: int, mask: u16, end: Spread) -> bool {
        forall|fuel: nat|
            fuel >= weight(self.board) ==> #[trigger] spread(
                fuel,
                self.board,
                self.next_square_candidate,
                x,
                y,
                mask,
            ) == end
    }

    /// From `self`, `spread_purge` comes to `end`.
    pub open spec fn purges_to(self, x: int, y: int, d: int, end: Spread) -> bool {
        forall|fuel: nat|
            fuel >= weight(self.board) ==> #[trigger] spread_purge(
                fuel,
                self.board,
                self.next_square_candidate,
                x,
                y,
                d,
            ) == end
    }

    /// From `self`, `spread_purge_unit` from place `k` on comes to what it
    /// comes to from `start` from place 0 on.
    pub open spec fn purging_unit(self, start: Solver, u: int, keep: int, d: int, k: int) -> bool {
        forall|fuel: nat|
            fuel >= weight(start.board) ==> #[trigger] spread_purge_unit(
                fuel,
                start.board,
                start.next_square_candidate,
                start.board,
                u,
                keep,
                d,
                0,
            ) == spread_purge_unit(
                fuel,
                self.board,
                self.next_square_candidate,
                start.board,
                u,
                keep,
                d,
                k,
            )
    }

    /// From `self`, `spread_purge_unit` comes to `end`.
    pub open spec fn purges_unit_to(self, u: int, keep: int, d: int, end: Spread) -> bool {
        forall|fuel: nat|
            fuel >= weight(self.board) ==> #[trigger] spread_purge_unit(
                fuel,
                self.board,
                self.next_square_candidate,
                self.board,
                u,
                keep,
                d,
                0,
            ) == end
    }

    /// From `self`, `spread_settle` from digit `d` on comes to what it
    /// comes to from `start` from digit 0 on.
    pub open spec fn settling(self, start: Solver, x: int, y: int, removed: u16, d: int) -> bool {
        forall|fuel: nat|
            fuel >= weight(start.board) ==> #[trigger] spread_settle(
                fuel,
                start.board,
                start.next_square_candidate,
                x,
                y,
                removed,
                0,
            ) == spread_settle(fuel, self.board, self.next_square_candidate, x, y, removed, d)
    }

    /// From `self`, `spread_settle` comes to `end`.
    pub open spec fn settles_to(self, x: int, y: int, removed: u16, end: Spread) -> bool {
        forall|fuel: nat|
            fuel >= weight(self.board) ==> #[trigger] spread_settle(
                fuel,
                self.board,
                self.next_square_candidate,
                x,
                y,
                removed,
                0,
            ) == end
    }

    /// From `self`, `spread_settle_digit` comes to `end`.
    pub open spec fn settles_digit_to(self, x: int, y: int, d: int, end: Spread) -> bool {
        forall|fuel: nat|
            fuel >= weight(self.board) ==> #[trigger] spread_settle_digit(
                fuel,
                self.board,
                self.next_square_candidate,
                x,
                y,
                d,
            ) == end
    }

    /// From `self`, `spread_settle_unit` comes to `end`.
    pub open spec fn settles_unit_to(self, u: int, d: int, end: Spread) -> bool {
        forall|fuel: nat|
            fuel >= weight(self.board) ==> #[trigger] spread_settle_unit(
                fuel,
                self.board,
                self.next_square_candidate,
                u,
                d,
            ) == end
    }
}

/// A grid with digits struck from a cell is `strike` of the grid.
pub proof fn lemma_struck_is_strike(t: Candidates, s: Candidates, x: int, y: int, mask: u16)
    requires
        struck(t, s, x, y, mask),
    ensures
        t == strike(s, x, y, mask),
{
    let f = |a: int, b: int| struck_cell(s, x, y, mask, a, b);
    lemma_grid_of(f);
    let r = strike(s, x, y, mask);
    assert forall|a: int| 0 <= a < 9 implies t[a] == r[a] by {
        assert forall|b: int| 0 <= b < 9 implies t[a][b] == r[a][b] by {
            assert(mask_at(t, a, b) == f(a, b));
            assert(grid_of(f)[a][b] == f(a, b));
        }
        assert(t[a] =~= r[a]);
    }
    assert(t =~= r);
}

} // verus!
