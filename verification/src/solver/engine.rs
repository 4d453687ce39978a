//! Propagation: striking candidates and following up on what that forces.
//!
//! `propagate` is the heart of it. Each of the functions here takes a
//! consistent state and, when it succeeds, returns one that is consistent,
//! refines the old one, has nothing left to propagate that the old one had
//! not, and has lost no stable grid that the step was bound to keep. When
//! it fails, the old state had no such grid; no cell has gained a
//! candidate even then. Each does its work in the order that its
//! counterpart in `cascade` lays down, which fixes the cached cell.

use vstd::prelude::*;
use crate::bits::{
    contains, digit_bit, holds, lemma_empty, lemma_extensional, lemma_holds_and,
    lemma_holds_and_not, lemma_holds_single, lemma_in_range, lemma_popcount_one,
    lemma_popcount_zero,
    lemma_subset_in_range, lowest, popcount, single, subset, ALL_DIGITS,
};
use crate::candidates::{
    avoids, block_pos, block_unit, col_unit, has_place, hidden_pending, lemma_refines_self,
    lemma_refines_trans, lemma_unit_of_cell, lemma_unit_places_differ, lemma_units,
    lemma_weight_holds, lemma_weight_mono, lemma_weight_strict, mask_at, naked_pending, only_place, place_in,
    refines, row_unit, stable, touches, unit_possible, unit_x, unit_y, weight, Candidates,
};
use crate::propagation::{
    keeps_avoiding, keeps_stable, lemma_avoids_others, lemma_avoids_part, lemma_avoids_refined,
    lemma_avoids_single, lemma_refines_possible, lemma_single_stays,
    lemma_stable_respects_hidden, lemma_stable_respects_naked, lemma_struck_hidden,
    lemma_struck_naked, lemma_struck_refines, no_stable, no_stable_avoiding,
    nothing_new_pending, struck,
};
use crate::solver::branch::count_at;
use crate::solver::cascade::{
    last_place, left_standing, lemma_struck_is_strike, lone, outcome_of, spread, spread_purge,
    spread_purge_unit, spread_settle, spread_settle_digit, spread_settle_unit, strike, Spread,
};
use crate::solver::{unit_cell, Solver, SolverError};

verus! {

impl Solver {
    /// Strikes the digits of `mask` from cell `(x, y)` and follows up on
    /// everything that this forces: a cell left with one candidate has that
    /// digit struck from the rest of its row, column and block, and a digit
    /// left with one place in a unit is assigned there.
    pub(super) fn propagate(&mut self, x: usize, y: usize, mask: u16) -> (res: Result<(), SolverError>)
        requires
            old(self).sound(),
            x < 9,
            y < 9,
        ensures
            refines(final(self).board, old(self).board),
            res matches Ok(_) ==> {
                &&& final(self).sound()
                &&& avoids(final(self).board, x as int, y as int, mask)
                &&& nothing_new_pending(final(self).board, old(self).board)
                &&& old(self).cache_follows(*final(self))
                &&& keeps_avoiding(final(self).board, old(self).board, x as int, y as int, mask)
            },
            res matches Err(e) ==> {
                &&& e == SolverError::Contradiction
                &&& no_stable_avoiding(old(self).board, x as int, y as int, mask)
            },
            avoids(old(self).board, x as int, y as int, mask) ==> res is Ok && *final(self) == *old(self),
            res is Ok && !avoids(old(self).board, x as int, y as int, mask) && count_at(
                final(self).board,
                x as int,
                y as int,
            ) == 2 ==> final(self).next_square_candidate == Some((x, y)),
            old(self).spreads_to(x as int, y as int, mask, outcome_of(res, *final(self))),
        decreases weight(old(self).board), 0nat,
    {
        let ghost before = *self;
        let remove = self.board[x][y] & mask;
        if remove == 0 {
            proof {
                lemma_refines_self(before.board);
            }
            return Ok(());
        }
        proof {
            lemma_holds_and(mask_at(before.board, x as int, y as int), mask);
        }
        match self.strip(x, y, remove) {
            Ok(()) => {},
            Err(e) => {
                proof {
                    assert forall|g: Candidates|
                        stable(g) && #[trigger] refines(g, before.board) implies !avoids(
                        g,
                        x as int,
                        y as int,
                        mask,
                    ) by {
                        if avoids(g, x as int, y as int, mask) {
                            lemma_avoids_part(g, x as int, y as int, mask, remove);
                        }
                    }
                    lemma_popcount_zero(mask_at(before.board, x as int, y as int));
                    lemma_weight_holds(before.board, x as int, y as int);
                    assert forall|fuel: nat| fuel >= weight(before.board) implies #[trigger] spread(
                        fuel,
                        before.board,
                        before.next_square_candidate,
                        x as int,
                        y as int,
                        mask,
                    ) == Spread::Failed by {}
                }
                return Err(e);
            },
        }
        let ghost stripped = *self;
        proof {
            before.lemma_stripped(stripped, x as int, y as int, mask, remove);
            lemma_struck_is_strike(stripped.board, before.board, x as int, y as int, remove);
        }
        let remaining = self.board[x][y];
        if remaining.count_ones() == 1 {
            let digit = lowest(remaining);
            proof {
                lemma_popcount_one(remaining, digit as int);
                lemma_in_range(remaining);
                lemma_holds_single(digit as int);
                assert(lone(remaining) == digit);
            }
            match self.purge(x, y, digit) {
                Ok(()) => {},
                Err(e) => {
                    proof {
                        assert forall|fuel: nat| fuel >= weight(before.board) implies
                            #[trigger] spread(
                        fuel,
                        before.board,
                        before.next_square_candidate,
                        x as int,
                        y as int,
                        mask,
                    ) == Spread::Failed by {
                            assert(spread_purge(
                        (fuel - 1) as nat,
                        stripped.board,
                        stripped.next_square_candidate,
                        x as int,
                        y as int,
                        digit as int,
                    ) == Spread::Failed);
                        }
                    }
                    return Err(e);
                },
            }
            proof {
                let purged = *self;
                assert forall|fuel: nat| fuel >= weight(before.board) implies
                    #[trigger] spread_purge(
                        (fuel - 1) as nat,
                        stripped.board,
                        stripped.next_square_candidate,
                        x as int,
                        y as int,
                        digit as int,
                    ) == Spread::Done(purged.board, purged.next_square_candidate) by {}
            }
            proof {
                let purged = *self;
                assert forall|u: int, k: int, d: int|
                    0 <= d < 9 && remaining == single(d) && 0 <= u < 27 && touches(
                        u,
                        x as int,
                        y as int,
                    ) && k != place_in(u, x as int, y as int) implies !#[trigger] unit_possible(
                    purged.board,
                    u,
                    k,
                    d,
                ) by {
                    lemma_holds_single(d);
                }
            }
        } else {
            proof {
                assert forall|d: int| 0 <= d < 9 implies remaining != single(d) by {
                    lemma_holds_single(d);
                    lemma_popcount_one(single(d), d);
                }
            }
        }
        let ghost purged = *self;
        assert(forall|u: int, k: int, d: int|
            0 <= d < 9 && remaining == single(d) && 0 <= u < 27 && touches(u, x as int, y as int)
                && k != place_in(u, x as int, y as int) ==> !#[trigger] unit_possible(
                purged.board,
                u,
                k,
                d,
            ));
        proof {
            lemma_refines_self(stripped.board);
            lemma_refines_trans(purged.board, stripped.board, before.board);
            lemma_weight_mono(purged.board, stripped.board);
        }
        match self.settle(x, y, remove) {
            Ok(()) => {},
            Err(e) => {
                proof {
                    assert forall|fuel: nat| fuel >= weight(before.board) implies #[trigger] spread(
                        fuel,
                        before.board,
                        before.next_square_candidate,
                        x as int,
                        y as int,
                        mask,
                    ) == Spread::Failed by {
                        if popcount(remaining) == 1 {
                            let digit = lone(remaining);
                            assert(spread_purge(
                        (fuel - 1) as nat,
                        stripped.board,
                        stripped.next_square_candidate,
                        x as int,
                        y as int,
                        digit as int,
                    ) == Spread::Done(purged.board, purged.next_square_candidate));
                        }
                        assert(spread_settle(
                        (fuel - 1) as nat,
                        purged.board,
                        purged.next_square_candidate,
                        x as int,
                        y as int,
                        remove,
                        0,
                    ) == Spread::Failed);
                    }
                }
                return Err(e);
            },
        }
        let ghost settled = *self;
        if self.board[x][y].count_ones() == 2 {
            self.next_square_candidate = Some((x, y));
        }
        proof {
            lemma_refines_trans(settled.board, purged.board, before.board);
            lemma_refines_trans(settled.board, purged.board, stripped.board);
            before.lemma_cache_follows(stripped, purged);
            before.lemma_cache_follows(purged, settled);
            assert forall|fuel: nat| fuel >= weight(before.board) implies #[trigger] spread(
                        fuel,
                        before.board,
                        before.next_square_candidate,
                        x as int,
                        y as int,
                        mask,
                    ) == Spread::Done(self.board, self.next_square_candidate) by {
                if popcount(remaining) == 1 {
                    let digit = lone(remaining);
                    assert(spread_purge(
                        (fuel - 1) as nat,
                        stripped.board,
                        stripped.next_square_candidate,
                        x as int,
                        y as int,
                        digit as int,
                    ) == Spread::Done(purged.board, purged.next_square_candidate));
                }
                assert(spread_settle(
                        (fuel - 1) as nat,
                        purged.board,
                        purged.next_square_candidate,
                        x as int,
                        y as int,
                        remove,
                        0,
                    ) == Spread::Done(settled.board, settled.next_square_candidate));
            }
            lemma_avoids_refined(settled.board, stripped.board, x as int, y as int, mask);
            settled.lemma_hint_apart(*self);
            assert forall|u: int, k1: int, k2: int, d: int| #[trigger]
                naked_pending(settled.board, u, k1, k2, d) implies naked_pending(
                before.board,
                u,
                k1,
                k2,
                d,
            ) by {
                assert(naked_pending(purged.board, u, k1, k2, d));
                assert(naked_pending(stripped.board, u, k1, k2, d));
                lemma_struck_naked(stripped.board, before.board, x as int, y as int, remove, u, k1, k2, d);
                if !naked_pending(before.board, u, k1, k2, d) {
                    lemma_unit_of_cell(u, k1);
                    assert(remaining == single(d));
                    assert(touches(u, x as int, y as int) && k1 == place_in(u, x as int, y as int));
                    assert(!unit_possible(purged.board, u, k2, d));
                }
            }
            assert forall|u: int, k: int, d: int| #[trigger]
                hidden_pending(settled.board, u, k, d) implies hidden_pending(
                before.board,
                u,
                k,
                d,
            ) by {
                assert(hidden_pending(purged.board, u, k, d));
                assert(hidden_pending(stripped.board, u, k, d));
                lemma_struck_hidden(stripped.board, before.board, x as int, y as int, remove, u, k, d);
                if !hidden_pending(before.board, u, k, d) {
                    let p = choose|p: int|
                        0 <= p < 9 && unit_x(u, p) == x && unit_y(u, p) == y;
                    lemma_unit_of_cell(u, p);
                    assert(touches(u, x as int, y as int));
                }
            }
        }
        Ok(())
    }

    /// What holds once the digits `remove`, the candidates of `(x, y)`
    /// among those of `mask`, have been struck from that cell.
    proof fn lemma_stripped(self, after: Solver, x: int, y: int, mask: u16, remove: u16)
        requires
            0 <= x < 9,
            0 <= y < 9,
            remove == mask_at(self.board, x, y) & mask,
            remove != 0,
            struck(after.board, self.board, x, y, remove),
        ensures
            refines(after.board, self.board),
            avoids(after.board, x, y, mask),
            keeps_avoiding(after.board, self.board, x, y, mask),
            weight(after.board) < weight(self.board),
            nothing_new_pending(self.board, self.board),
    {
        let c = mask_at(self.board, x, y);
        lemma_struck_refines(after.board, self.board, x, y, remove);
        lemma_holds_and(c, mask);
        lemma_holds_and_not(c, remove);
        lemma_holds_and(c & !remove, mask);
        lemma_empty((c & !remove) & mask);
        assert forall|i: int| !holds((c & !remove) & mask, i) by {}
        lemma_empty(remove);
        let j = choose|j: int| holds(remove, j);
        lemma_weight_strict(after.board, self.board, x, y, j);
        assert forall|g: Candidates|
            stable(g) && #[trigger] refines(g, self.board) && avoids(
                g,
                x,
                y,
                mask,
            ) implies refines(g, after.board) by {
            lemma_avoids_part(g, x, y, mask, remove);
        }
    }

    /// Strikes place `k` from the reverse index of unit `u` for digit `d`,
    /// and returns what is left of that entry.
    fn clear_place(&mut self, u: usize, d: usize, k: usize) -> (left: u16)
        requires
            u < 27,
            d < 9,
            k < 9,
        ensures
            left == old(self).index(u as int, d as int) & !single(k as int),
            final(self).index(u as int, d as int) == left,
            forall|u2: int, d2: int|
                0 <= u2 < 27 && 0 <= d2 < 9 && (u2 != u || d2 != d)
                    ==> #[trigger] final(self).index(u2, d2) == old(self).index(u2, d2),
            final(self).board == old(self).board,
            final(self).next_square_candidate == old(self).next_square_candidate,
    {
        let keep = !digit_bit(k);
        if u < 9 {
            self.possible_rows[u][d] &= keep;
            self.possible_rows[u][d]
        } else if u < 18 {
            self.possible_cols[u - 9][d] &= keep;
            self.possible_cols[u - 9][d]
        } else {
            self.possible_blocks[(u - 18) / 3][(u - 18) % 3][d] &= keep;
            self.possible_blocks[(u - 18) / 3][(u - 18) % 3][d]
        }
    }

    /// What the reverse index of unit `u` for digit `e` is while the digits
    /// of `mask` below `n` have been struck from cell `(x, y)` of `self`.
    pub open spec fn struck_index(self, x: int, y: int, mask: u16, n: int, u: int, e: int) -> u16 {
        if e < n && holds(mask, e) && touches(u, x, y) {
            self.index(u, e) & !single(place_in(u, x, y))
        } else {
            self.index(u, e)
        }
    }

    /// Strikes the digits of `mask`, all of them candidates of `(x, y)`,
    /// from that cell and from the reverse indices, and fails when the cell
    /// or an index entry is left empty.
    fn strip(&mut self, x: usize, y: usize, mask: u16) -> (res: Result<(), SolverError>)
        requires
            old(self).sound(),
            x < 9,
            y < 9,
            subset(mask, mask_at(old(self).board, x as int, y as int)),
        ensures
            refines(final(self).board, old(self).board),
            res matches Ok(_) ==> {
                &&& final(self).sound()
                &&& struck(final(self).board, old(self).board, x as int, y as int, mask)
                &&& final(self).next_square_candidate == old(self).next_square_candidate
            },
            res is Ok <==> left_standing(
                strike(old(self).board, x as int, y as int, mask),
                x as int,
                y as int,
                mask,
            ),
            res matches Err(e) ==> {
                &&& e == SolverError::Contradiction
                &&& forall|g: Candidates|
                    stable(g) && #[trigger] refines(g, old(self).board) ==> !avoids(
                        g,
                        x as int,
                        y as int,
                        mask,
                    )
            },
    {
        let ghost before = *self;
        let kept = self.board[x][y] & !mask;
        self.board[x][y] = kept;
        assert(struck(self.board, before.board, x as int, y as int, mask));
        if kept == 0 {
            proof {
                lemma_struck_refines(self.board, before.board, x as int, y as int, mask);
                lemma_struck_is_strike(self.board, before.board, x as int, y as int, mask);
                assert forall|g: Candidates|
                    stable(g) && #[trigger] refines(g, before.board) implies !avoids(
                    g,
                    x as int,
                    y as int,
                    mask,
                ) by {
                    lemma_cell_exhausted(before.board, g, x as int, y as int, mask);
                }
            }
            return Err(SolverError::Contradiction);
        }
        let row = y;
        let col = 9 + x;
        let block = 18 + 3 * (y / 3) + x / 3;
        let place = x % 3 + 3 * (y % 3);
        let mut d: usize = 0;
        assert forall|u: int, e: int| 0 <= u < 27 && 0 <= e < 9 implies #[trigger] self.index(u, e)
            != 0 by {
            assert(self.index(u, e) == before.index(u, e));
        }
        while d < 9
            invariant
                d <= 9,
                before == *old(self),
                x < 9,
                y < 9,
                row == row_unit(y as int),
                col == col_unit(x as int),
                block == block_unit(x as int, y as int),
                place == block_pos(x as int, y as int),
                before.sound(),
                subset(mask, mask_at(before.board, x as int, y as int)),
                struck(self.board, before.board, x as int, y as int, mask),
                self.next_square_candidate == before.next_square_candidate,
                forall|u: int, e: int|
                    0 <= u < 27 && 0 <= e < 9 ==> #[trigger] self.index(u, e)
                        == before.struck_index(x as int, y as int, mask, d as int, u, e),
                forall|u: int, e: int|
                    0 <= u < 27 && 0 <= e < 9 ==> #[trigger] self.index(u, e) != 0,
            decreases 9 - d,
        {
            if contains(mask, d) {
                let ghost mid = *self;
                let left_col = self.clear_place(col, d, y);
                let left_row = self.clear_place(row, d, x);
                let left_block = self.clear_place(block, d, place);
                if left_col == 0 || left_row == 0 || left_block == 0 {
                    proof {
                        let u = if left_col == 0 {
                            col as int
                        } else if left_row == 0 {
                            row as int
                        } else {
                            block as int
                        };
                        assert(before.index(u, d as int) == mid.index(u, d as int));
                        lemma_struck_refines(self.board, before.board, x as int, y as int, mask);
                        lemma_struck_is_strike(self.board, before.board, x as int, y as int, mask);
                        before.lemma_no_place_left(
                            self.board,
                            x as int,
                            y as int,
                            mask,
                            u,
                            d as int,
                        );
                        assert forall|g: Candidates|
                            stable(g) && #[trigger] refines(g, before.board) implies !avoids(
                            g,
                            x as int,
                            y as int,
                            mask,
                        ) by {
                            before.lemma_unit_exhausted(g, x as int, y as int, mask, u, d as int);
                        }
                    }
                    return Err(SolverError::Contradiction);
                }
            }
            d += 1;
        }
        proof {
            before.lemma_struck_sound(*self, x as int, y as int, mask);
            lemma_struck_is_strike(self.board, before.board, x as int, y as int, mask);
            self.lemma_sound_units();
        }
        Ok(())
    }

    /// Once the last place of a struck digit in a unit of the cell is
    /// struck from the index, the digit has no place left in that unit.
    proof fn lemma_no_place_left(self, g: Candidates, x: int, y: int, mask: u16, u: int, d: int)
        requires
            self.sound(),
            0 <= x < 9,
            0 <= y < 9,
            0 <= d < 9,
            0 <= u < 27,
            touches(u, x, y),
            holds(mask, d),
            struck(g, self.board, x, y, mask),
            self.index(u, d) & !single(place_in(u, x, y)) == 0,
        ensures
            !has_place(g, u, d),
    {
        let p = place_in(u, x, y);
        lemma_units(x, y);
        lemma_holds_and_not(self.index(u, d), single(p));
        lemma_holds_single(p);
        lemma_empty(self.index(u, d) & !single(p));
        lemma_holds_and_not(mask_at(self.board, x, y), mask);
        assert forall|k: int| !#[trigger] unit_possible(g, u, k, d) by {
            if unit_possible(g, u, k, d) {
                lemma_unit_of_cell(u, k);
                if k != p {
                    lemma_unit_places_differ(u, k, p);
                    assert(unit_possible(self.board, u, k, d));
                    assert(holds(self.index(u, d), k));
                    assert(!holds(self.index(u, d) & !single(p), k));
                }
            }
        }
    }

    /// Striking digits from a cell and their places from the reverse
    /// indices keeps a state consistent, as long as nothing is left empty.
    proof fn lemma_struck_sound(self, after: Solver, x: int, y: int, mask: u16)
        requires
            self.sound(),
            0 <= x < 9,
            0 <= y < 9,
            struck(after.board, self.board, x, y, mask),
            after.next_square_candidate == self.next_square_candidate,
            mask_at(after.board, x, y) != 0,
            forall|u: int, e: int|
                0 <= u < 27 && 0 <= e < 9 ==> #[trigger] after.index(u, e) == self.struck_index(
                    x,
                    y,
                    mask,
                    9,
                    u,
                    e,
                ),
            forall|u: int, e: int| 0 <= u < 27 && 0 <= e < 9 ==> #[trigger] after.index(u, e) != 0,
        ensures
            after.sound(),
            refines(after.board, self.board),
    {
        let c = mask_at(self.board, x, y);
        lemma_holds_and_not(c, mask);
        assert forall|a: int, b: int| 0 <= a < 9 && 0 <= b < 9 implies subset(
            #[trigger] mask_at(after.board, a, b),
            mask_at(self.board, a, b),
        ) by {}
        assert forall|a: int, b: int| 0 <= a < 9 && 0 <= b < 9 implies #[trigger] mask_at(
            after.board,
            a,
            b,
        ) <= ALL_DIGITS by {
            assert(mask_at(self.board, a, b) <= ALL_DIGITS);
            lemma_subset_in_range(mask_at(after.board, a, b), mask_at(self.board, a, b));
        }
        assert forall|a: int, b: int| 0 <= a < 9 && 0 <= b < 9 implies #[trigger] mask_at(
            after.board,
            a,
            b,
        ) != 0 by {
            assert(mask_at(self.board, a, b) != 0);
        }
        assert forall|u: int, e: int| 0 <= u < 27 && 0 <= e < 9 implies {
            &&& #[trigger] after.index(u, e) <= ALL_DIGITS
            &&& forall|k: int|
                0 <= k < 9 ==> holds(after.index(u, e), k) == #[trigger] unit_possible(
                    after.board,
                    u,
                    k,
                    e,
                )
        } by {
            let was = self.index(u, e);
            let now = after.index(u, e);
            assert(now == self.struck_index(x, y, mask, 9, u, e));
            assert(was <= ALL_DIGITS);
            let p = place_in(u, x, y);
            lemma_holds_and_not(was, single(p));
            lemma_units(x, y);
            if touches(u, x, y) {
                lemma_holds_single(p);
            }
            assert(subset(now, was));
            lemma_subset_in_range(now, was);
            assert forall|k: int| 0 <= k < 9 implies holds(now, k) == #[trigger] unit_possible(
                after.board,
                u,
                k,
                e,
            ) by {
                lemma_unit_of_cell(u, k);
                assert(holds(was, k) == unit_possible(self.board, u, k, e));
                let a = unit_x(u, k);
                let b = unit_y(u, k);
                if touches(u, x, y) && k != p {
                    lemma_unit_places_differ(u, k, p);
                }
            }
        }
    }

    /// Once a cell would be left empty, no stable refinement avoids the
    /// digits that were to be struck from it.
    proof fn lemma_unit_exhausted(self, g: Candidates, x: int, y: int, mask: u16, u: int, d: int)
        requires
            self.sound(),
            0 <= x < 9,
            0 <= y < 9,
            0 <= d < 9,
            0 <= u < 27,
            touches(u, x, y),
            holds(mask, d),
            self.index(u, d) & !single(place_in(u, x, y)) == 0,
            stable(g),
            refines(g, self.board),
        ensures
            !avoids(g, x, y, mask),
    {
        let p = place_in(u, x, y);
        lemma_units(x, y);
        assert(has_place(g, u, d));
        let k = choose|k: int| unit_possible(g, u, k, d);
        lemma_unit_of_cell(u, k);
        assert(subset(mask_at(g, unit_x(u, k), unit_y(u, k)), mask_at(self.board, unit_x(u, k), unit_y(u, k))));
        assert(unit_possible(self.board, u, k, d));
        assert(holds(self.index(u, d), k));
        lemma_holds_and_not(self.index(u, d), single(p));
        lemma_holds_single(p);
        lemma_empty(self.index(u, d) & !single(p));
        assert(!holds(self.index(u, d) & !single(p), k));
        assert(k == p);
        lemma_holds_and(mask_at(g, x, y), mask);
        lemma_empty(mask_at(g, x, y) & mask);
        assert(holds(mask_at(g, x, y) & mask, d));
    }

    /// Strikes `d`, the one candidate of cell `(x, y)`, from the other
    /// cells of its row, of its column and of its block.
    fn purge(&mut self, x: usize, y: usize, d: usize) -> (res: Result<(), SolverError>)
        requires
            old(self).sound(),
            x < 9,
            y < 9,
            d < 9,
            mask_at(old(self).board, x as int, y as int) == single(d as int),
        ensures
            refines(final(self).board, old(self).board),
            res matches Ok(_) ==> {
                &&& final(self).sound()
                &&& nothing_new_pending(final(self).board, old(self).board)
                &&& old(self).cache_follows(*final(self))
                &&& keeps_stable(final(self).board, old(self).board)
                &&& forall|u: int, k: int|
                    0 <= u < 27 && touches(u, x as int, y as int) && k != place_in(
                        u,
                        x as int,
                        y as int,
                    ) ==> !#[trigger] unit_possible(final(self).board, u, k, d as int)
            },
            res matches Err(e) ==> {
                &&& e == SolverError::Contradiction
                &&& no_stable(old(self).board)
            },
            old(self).purges_to(x as int, y as int, d as int, outcome_of(res, *final(self))),
        decreases weight(old(self).board), 2nat,
    {
        let ghost before = *self;
        proof {
            lemma_units(x as int, y as int);
        }
        match self.purge_unit(y, x, d) {
            Ok(()) => {},
            Err(e) => {
                proof {
                    assert forall|fuel: nat| fuel >= weight(before.board) implies
                        #[trigger] spread_purge(
                        fuel,
                        before.board,
                        before.next_square_candidate,
                        x as int,
                        y as int,
                        d as int,
                    ) == Spread::Failed by {
                        assert(spread_purge_unit(
                        fuel,
                        before.board,
                        before.next_square_candidate,
                        before.board,
                        row_unit(y as int),
                        x as int,
                        d as int,
                        0,
                    ) == Spread::Failed);
                    }
                }
                return Err(e);
            },
        }
        let ghost first = *self;
        proof {
            lemma_weight_mono(first.board, before.board);
            assert(subset(mask_at(first.board, x as int, y as int), mask_at(before.board, x as int, y as int)));
            lemma_single_stays(mask_at(first.board, x as int, y as int), d as int);
        }
        match self.purge_unit(9 + x, y, d) {
            Ok(()) => {},
            Err(e) => {
                proof {
                    assert forall|fuel: nat| fuel >= weight(before.board) implies
                        #[trigger] spread_purge(
                        fuel,
                        before.board,
                        before.next_square_candidate,
                        x as int,
                        y as int,
                        d as int,
                    ) == Spread::Failed by {
                        assert(spread_purge_unit(
                        fuel,
                        before.board,
                        before.next_square_candidate,
                        before.board,
                        row_unit(y as int),
                        x as int,
                        d as int,
                        0,
                    ) == Spread::Done(first.board, first.next_square_candidate));
                        assert(spread_purge_unit(
                        fuel,
                        first.board,
                        first.next_square_candidate,
                        first.board,
                        col_unit(x as int),
                        y as int,
                        d as int,
                        0,
                    ) == Spread::Failed);
                    }
                }
                return Err(e);
            },
        }
        let ghost second = *self;
        proof {
            lemma_refines_trans(second.board, first.board, before.board);
            before.lemma_cache_follows(first, second);
            lemma_weight_mono(second.board, before.board);
            assert(subset(mask_at(second.board, x as int, y as int), mask_at(before.board, x as int, y as int)));
            lemma_single_stays(mask_at(second.board, x as int, y as int), d as int);
        }
        match self.purge_unit(18 + 3 * (y / 3) + x / 3, x % 3 + 3 * (y % 3), d) {
            Ok(()) => {},
            Err(e) => {
                proof {
                    assert forall|fuel: nat| fuel >= weight(before.board) implies
                        #[trigger] spread_purge(
                        fuel,
                        before.board,
                        before.next_square_candidate,
                        x as int,
                        y as int,
                        d as int,
                    ) == Spread::Failed by {
                        assert(spread_purge_unit(
                        fuel,
                        before.board,
                        before.next_square_candidate,
                        before.board,
                        row_unit(y as int),
                        x as int,
                        d as int,
                        0,
                    ) == Spread::Done(first.board, first.next_square_candidate));
                        assert(spread_purge_unit(
                        fuel,
                        first.board,
                        first.next_square_candidate,
                        first.board,
                        col_unit(x as int),
                        y as int,
                        d as int,
                        0,
                    ) == Spread::Done(second.board, second.next_square_candidate));
                        assert(spread_purge_unit(
                        fuel,
                        second.board,
                        second.next_square_candidate,
                        second.board,
                        block_unit(x as int, y as int),
                        block_pos(x as int, y as int),
                        d as int,
                        0,
                    ) == Spread::Failed);
                    }
                }
                return Err(e);
            },
        }
        proof {
            let last = *self;
            lemma_refines_trans(last.board, second.board, before.board);
            before.lemma_cache_follows(second, last);
            assert forall|fuel: nat| fuel >= weight(before.board) implies #[trigger] spread_purge(
                fuel,
                before.board,
                before.next_square_candidate,
                x as int,
                y as int,
                d as int,
            ) == Spread::Done(last.board, last.next_square_candidate) by {
                assert(spread_purge_unit(
                        fuel,
                        before.board,
                        before.next_square_candidate,
                        before.board,
                        row_unit(y as int),
                        x as int,
                        d as int,
                        0,
                    ) == Spread::Done(first.board, first.next_square_candidate));
                assert(spread_purge_unit(
                        fuel,
                        first.board,
                        first.next_square_candidate,
                        first.board,
                        col_unit(x as int),
                        y as int,
                        d as int,
                        0,
                    ) == Spread::Done(second.board, second.next_square_candidate));
                assert(spread_purge_unit(
                        fuel,
                        second.board,
                        second.next_square_candidate,
                        second.board,
                        block_unit(x as int, y as int),
                        block_pos(x as int, y as int),
                        d as int,
                        0,
                    ) == Spread::Done(last.board, last.next_square_candidate));
            }
            assert forall|u: int, k: int|
                0 <= u < 27 && touches(u, x as int, y as int) && k != place_in(
                    u,
                    x as int,
                    y as int,
                ) implies !#[trigger] unit_possible(last.board, u, k, d as int) by {
                if unit_possible(last.board, u, k, d as int) {
                    lemma_refines_possible(last.board, second.board, u, k, d as int);
                    lemma_refines_possible(second.board, first.board, u, k, d as int);
                }
            }
        }
        Ok(())
    }

    /// Strikes `d` from every cell of unit `u` but the `keep`-th, which
    /// holds `d` alone.
    fn purge_unit(&mut self, u: usize, keep: usize, d: usize) -> (res: Result<(), SolverError>)
        requires
            old(self).sound(),
            u < 27,
            keep < 9,
            d < 9,
            mask_at(old(self).board, unit_x(u as int, keep as int), unit_y(u as int, keep as int))
                == single(d as int),
        ensures
            refines(final(self).board, old(self).board),
            res matches Ok(_) ==> {
                &&& final(self).sound()
                &&& nothing_new_pending(final(self).board, old(self).board)
                &&& old(self).cache_follows(*final(self))
                &&& keeps_stable(final(self).board, old(self).board)
                &&& forall|k: int|
                    k != keep ==> !#[trigger] unit_possible(final(self).board, u as int, k, d as int)
            },
            res matches Err(e) ==> {
                &&& e == SolverError::Contradiction
                &&& no_stable(old(self).board)
            },
            old(self).purges_unit_to(u as int, keep as int, d as int, outcome_of(res, *final(self))),
        decreases weight(old(self).board), 1nat,
    {
        let ghost start = *self;
        let places = self.unit_mask(u, d) & !digit_bit(keep);
        proof {
            lemma_holds_and_not(self.index(u as int, d as int), single(keep as int));
            lemma_holds_single(keep as int);
            lemma_refines_self(start.board);
        }
        let mut k: usize = 0;
        while k < 9
            invariant
                k <= 9,
                u < 27,
                keep < 9,
                d < 9,
                start == *old(self),
                start.sound(),
                self.sound(),
                refines(self.board, start.board),
                nothing_new_pending(self.board, start.board),
                start.cache_follows(*self),
                keeps_stable(self.board, start.board),
                mask_at(start.board, unit_x(u as int, keep as int), unit_y(u as int, keep as int))
                    == single(d as int),
                self.purging_unit(start, u as int, keep as int, d as int, k as int),
                forall|j: int|
                    #![trigger holds(places, j)]
                    #![trigger unit_possible(start.board, u as int, j, d as int)]
                    0 <= j < 9 ==> (holds(places, j) <==> j != keep && unit_possible(
                        start.board,
                        u as int,
                        j,
                        d as int,
                    )),
                forall|j: int|
                    0 <= j < k && j != keep ==> !#[trigger] unit_possible(
                        self.board,
                        u as int,
                        j,
                        d as int,
                    ),
            decreases 9 - k,
        {
            let ghost prev = *self;
            if contains(places, k) {
                let (px, py) = unit_cell(u, k);
                proof {
                    lemma_weight_mono(prev.board, start.board);
                    assert(unit_possible(start.board, u as int, k as int, d as int) && k != keep);
                }
                match self.propagate(px, py, digit_bit(d)) {
                    Ok(()) => {},
                    Err(e) => {
                        proof {
                            assert forall|g: Candidates| stable(g) implies !#[trigger] refines(
                                g,
                                start.board,
                            ) by {
                                if refines(g, start.board) {
                                    lemma_stable_respects_naked(
                                        g,
                                        start.board,
                                        u as int,
                                        keep as int,
                                        k as int,
                                        d as int,
                                    );
                                    assert(refines(g, prev.board));
                                }
                            }
                            assert forall|fuel: nat| fuel >= weight(start.board) implies
                                #[trigger] spread_purge_unit(
                                fuel,
                                start.board,
                                start.next_square_candidate,
                                start.board,
                                u as int,
                                keep as int,
                                d as int,
                                0,
                            ) == Spread::Failed by {
                                assert(spread_purge_unit(
                                fuel,
                                start.board,
                                start.next_square_candidate,
                                start.board,
                                u as int,
                                keep as int,
                                d as int,
                                0,
                            ) == spread_purge_unit(
                                fuel,
                                prev.board,
                                prev.next_square_candidate,
                                start.board,
                                u as int,
                                keep as int,
                                d as int,
                                k as int,
                            ));
                                assert(spread(
                                fuel,
                                prev.board,
                                prev.next_square_candidate,
                                px as int,
                                py as int,
                                single(d as int),
                            ) == Spread::Failed);
                            }
                        }
                        return Err(e);
                    },
                }
                proof {
                    let next = *self;
                    lemma_refines_trans(next.board, prev.board, start.board);
                    start.lemma_cache_follows(prev, next);
                    assert forall|fuel: nat| fuel >= weight(start.board) implies
                        #[trigger] spread_purge_unit(
                                fuel,
                                start.board,
                                start.next_square_candidate,
                                start.board,
                                u as int,
                                keep as int,
                                d as int,
                                0,
                            ) == spread_purge_unit(
                                fuel,
                                next.board,
                                next.next_square_candidate,
                                start.board,
                                u as int,
                                keep as int,
                                d as int,
                                k + 1,
                            ) by {
                        assert(spread_purge_unit(
                                fuel,
                                start.board,
                                start.next_square_candidate,
                                start.board,
                                u as int,
                                keep as int,
                                d as int,
                                0,
                            ) == spread_purge_unit(
                                fuel,
                                prev.board,
                                prev.next_square_candidate,
                                start.board,
                                u as int,
                                keep as int,
                                d as int,
                                k as int,
                            ));
                        assert(spread(
                                fuel,
                                prev.board,
                                prev.next_square_candidate,
                                px as int,
                                py as int,
                                single(d as int),
                            ) == Spread::Done(next.board, next.next_square_candidate));
                    }
                    assert forall|g: Candidates|
                        stable(g) && #[trigger] refines(g, start.board) implies refines(
                        g,
                        next.board,
                    ) by {
                        lemma_stable_respects_naked(
                            g,
                            start.board,
                            u as int,
                            keep as int,
                            k as int,
                            d as int,
                        );
                        assert(refines(g, prev.board));
                    }
                    lemma_avoids_single(next.board, px as int, py as int, d as int);
                }
            }
            proof {
                let next = *self;
                assert forall|fuel: nat| fuel >= weight(start.board) implies
                    #[trigger] spread_purge_unit(
                                fuel,
                                start.board,
                                start.next_square_candidate,
                                start.board,
                                u as int,
                                keep as int,
                                d as int,
                                0,
                            ) == spread_purge_unit(
                                fuel,
                                next.board,
                                next.next_square_candidate,
                                start.board,
                                u as int,
                                keep as int,
                                d as int,
                                k + 1,
                            ) by {
                    assert(spread_purge_unit(
                                fuel,
                                start.board,
                                start.next_square_candidate,
                                start.board,
                                u as int,
                                keep as int,
                                d as int,
                                0,
                            ) == spread_purge_unit(
                                fuel,
                                prev.board,
                                prev.next_square_candidate,
                                start.board,
                                u as int,
                                keep as int,
                                d as int,
                                k as int,
                            ));
                    assert(holds(places, k as int) <==> k != keep && unit_possible(
                        start.board,
                        u as int,
                        k as int,
                        d as int,
                    ));
                }
                assert forall|j: int| 0 <= j < k + 1 && j != keep implies !#[trigger] unit_possible(
                    next.board,
                    u as int,
                    j,
                    d as int,
                ) by {
                    if unit_possible(next.board, u as int, j, d as int) {
                        lemma_refines_possible(next.board, prev.board, u as int, j, d as int);
                        lemma_refines_possible(prev.board, start.board, u as int, j, d as int);
                    }
                }
            }
            k += 1;
        }
        Ok(())
    }

    /// Assigns each of the digits of `removed` where it has one place left
    /// in the row, the column or the block of cell `(x, y)`.
    fn settle(&mut self, x: usize, y: usize, removed: u16) -> (res: Result<(), SolverError>)
        requires
            old(self).sound(),
            x < 9,
            y < 9,
        ensures
            refines(final(self).board, old(self).board),
            res matches Ok(_) ==> {
                &&& final(self).sound()
                &&& nothing_new_pending(final(self).board, old(self).board)
                &&& old(self).cache_follows(*final(self))
                &&& keeps_stable(final(self).board, old(self).board)
                &&& forall|u: int, k: int, d: int|
                    touches(u, x as int, y as int) && holds(removed, d) ==> !#[trigger] hidden_pending(
                        final(self).board,
                        u,
                        k,
                        d,
                    )
            },
            res matches Err(e) ==> {
                &&& e == SolverError::Contradiction
                &&& no_stable(old(self).board)
            },
            old(self).settles_to(x as int, y as int, removed, outcome_of(res, *final(self))),
        decreases weight(old(self).board), 3nat,
    {
        let ghost start = *self;
        proof {
            lemma_refines_self(start.board);
        }
        let mut d: usize = 0;
        while d < 9
            invariant
                d <= 9,
                x < 9,
                y < 9,
                start == *old(self),
                self.sound(),
                refines(self.board, start.board),
                nothing_new_pending(self.board, start.board),
                start.cache_follows(*self),
                keeps_stable(self.board, start.board),
                self.settling(start, x as int, y as int, removed, d as int),
                forall|u: int, k: int, e: int|
                    touches(u, x as int, y as int) && holds(removed, e) && e < d ==> !#[trigger] hidden_pending(
                        self.board,
                        u,
                        k,
                        e,
                    ),
            decreases 9 - d,
        {
            let ghost prev = *self;
            if contains(removed, d) {
                proof {
                    lemma_weight_mono(prev.board, start.board);
                }
                match self.settle_digit(x, y, d) {
                    Ok(()) => {},
                    Err(e) => {
                        proof {
                            assert forall|fuel: nat| fuel >= weight(start.board) implies
                                #[trigger] spread_settle(
                            fuel,
                            start.board,
                            start.next_square_candidate,
                            x as int,
                            y as int,
                            removed,
                            0,
                        ) == Spread::Failed by {
                                assert(spread_settle(
                            fuel,
                            start.board,
                            start.next_square_candidate,
                            x as int,
                            y as int,
                            removed,
                            0,
                        ) == spread_settle(
                            fuel,
                            prev.board,
                            prev.next_square_candidate,
                            x as int,
                            y as int,
                            removed,
                            d as int,
                        ));
                                assert(spread_settle_digit(
                            fuel,
                            prev.board,
                            prev.next_square_candidate,
                            x as int,
                            y as int,
                            d as int,
                        ) == Spread::Failed);
                            }
                        }
                        return Err(e);
                    },
                }
                proof {
                    let next = *self;
                    lemma_refines_trans(self.board, prev.board, start.board);
                    start.lemma_cache_follows(prev, *self);
                    assert forall|fuel: nat| fuel >= weight(start.board) implies
                        #[trigger] spread_settle(
                            fuel,
                            start.board,
                            start.next_square_candidate,
                            x as int,
                            y as int,
                            removed,
                            0,
                        ) == spread_settle(
                            fuel,
                            next.board,
                            next.next_square_candidate,
                            x as int,
                            y as int,
                            removed,
                            d + 1,
                        ) by {
                        assert(spread_settle(
                            fuel,
                            start.board,
                            start.next_square_candidate,
                            x as int,
                            y as int,
                            removed,
                            0,
                        ) == spread_settle(
                            fuel,
                            prev.board,
                            prev.next_square_candidate,
                            x as int,
                            y as int,
                            removed,
                            d as int,
                        ));
                        assert(spread_settle_digit(
                            fuel,
                            prev.board,
                            prev.next_square_candidate,
                            x as int,
                            y as int,
                            d as int,
                        ) == Spread::Done(next.board, next.next_square_candidate));
                    }
                }
            } else {
                proof {
                    assert forall|fuel: nat| fuel >= weight(start.board) implies
                        #[trigger] spread_settle(
                            fuel,
                            start.board,
                            start.next_square_candidate,
                            x as int,
                            y as int,
                            removed,
                            0,
                        ) == spread_settle(
                            fuel,
                            prev.board,
                            prev.next_square_candidate,
                            x as int,
                            y as int,
                            removed,
                            d + 1,
                        ) by {
                        assert(spread_settle(
                            fuel,
                            start.board,
                            start.next_square_candidate,
                            x as int,
                            y as int,
                            removed,
                            0,
                        ) == spread_settle(
                            fuel,
                            prev.board,
                            prev.next_square_candidate,
                            x as int,
                            y as int,
                            removed,
                            d as int,
                        ));
                    }
                }
            }
            d += 1;
        }
        proof {
            assert forall|u: int, k: int, e: int|
                touches(u, x as int, y as int) && holds(removed, e) implies !#[trigger] hidden_pending(
                self.board,
                u,
                k,
                e,
            ) by {
                if hidden_pending(self.board, u, k, e) {
                    assert(unit_possible(self.board, u, k, e));
                }
            }
        }
        Ok(())
    }

    /// Assigns digit `d` where it has one place left in the row, the
    /// column or the block of cell `(x, y)`.
    fn settle_digit(&mut self, x: usize, y: usize, d: usize) -> (res: Result<(), SolverError>)
        requires
            old(self).sound(),
            x < 9,
            y < 9,
            d < 9,
        ensures
            refines(final(self).board, old(self).board),
            res matches Ok(_) ==> {
                &&& final(self).sound()
                &&& nothing_new_pending(final(self).board, old(self).board)
                &&& old(self).cache_follows(*final(self))
                &&& keeps_stable(final(self).board, old(self).board)
                &&& forall|u: int, k: int|
                    touches(u, x as int, y as int) ==> !#[trigger] hidden_pending(
                        final(self).board,
                        u,
                        k,
                        d as int,
                    )
            },
            res matches Err(e) ==> {
                &&& e == SolverError::Contradiction
                &&& no_stable(old(self).board)
            },
            old(self).settles_digit_to(x as int, y as int, d as int, outcome_of(res, *final(self))),
        decreases weight(old(self).board), 2nat,
    {
        let ghost before = *self;
        match self.settle_unit(y, d) {
            Ok(()) => {},
            Err(e) => {
                proof {
                    lemma_units(x as int, y as int);
                    assert forall|fuel: nat| fuel >= weight(before.board) implies
                        #[trigger] spread_settle_digit(
                        fuel,
                        before.board,
                        before.next_square_candidate,
                        x as int,
                        y as int,
                        d as int,
                    ) == Spread::Failed by {
                        assert(spread_settle_unit(
                            fuel,
                            before.board,
                            before.next_square_candidate,
                            row_unit(y as int),
                            d as int,
                        ) == Spread::Failed);
                    }
                }
                return Err(e);
            },
        }
        let ghost first = *self;
        proof {
            lemma_weight_mono(first.board, before.board);
        }
        match self.settle_unit(9 + x, d) {
            Ok(()) => {},
            Err(e) => {
                proof {
                    lemma_units(x as int, y as int);
                    assert forall|fuel: nat| fuel >= weight(before.board) implies
                        #[trigger] spread_settle_digit(
                        fuel,
                        before.board,
                        before.next_square_candidate,
                        x as int,
                        y as int,
                        d as int,
                    ) == Spread::Failed by {
                        assert(spread_settle_unit(
                            fuel,
                            before.board,
                            before.next_square_candidate,
                            row_unit(y as int),
                            d as int,
                        ) == Spread::Done(first.board, first.next_square_candidate));
                        assert(spread_settle_unit(
                            fuel,
                            first.board,
                            first.next_square_candidate,
                            col_unit(x as int),
                            d as int,
                        ) == Spread::Failed);
                    }
                }
                return Err(e);
            },
        }
        let ghost second = *self;
        proof {
            lemma_refines_trans(second.board, first.board, before.board);
            before.lemma_cache_follows(first, second);
            lemma_weight_mono(second.board, before.board);
        }
        match self.settle_unit(18 + 3 * (y / 3) + x / 3, d) {
            Ok(()) => {},
            Err(e) => {
                proof {
                    lemma_units(x as int, y as int);
                    assert forall|fuel: nat| fuel >= weight(before.board) implies
                        #[trigger] spread_settle_digit(
                        fuel,
                        before.board,
                        before.next_square_candidate,
                        x as int,
                        y as int,
                        d as int,
                    ) == Spread::Failed by {
                        assert(spread_settle_unit(
                            fuel,
                            before.board,
                            before.next_square_candidate,
                            row_unit(y as int),
                            d as int,
                        ) == Spread::Done(first.board, first.next_square_candidate));
                        assert(spread_settle_unit(
                            fuel,
                            first.board,
                            first.next_square_candidate,
                            col_unit(x as int),
                            d as int,
                        ) == Spread::Done(second.board, second.next_square_candidate));
                        assert(spread_settle_unit(
                            fuel,
                            second.board,
                            second.next_square_candidate,
                            block_unit(x as int, y as int),
                            d as int,
                        ) == Spread::Failed);
                    }
                }
                return Err(e);
            },
        }
        proof {
            let last = *self;
            lemma_units(x as int, y as int);
            lemma_refines_trans(self.board, second.board, before.board);
            before.lemma_cache_follows(second, *self);
            assert forall|fuel: nat| fuel >= weight(before.board) implies
                #[trigger] spread_settle_digit(
                fuel,
                before.board,
                before.next_square_candidate,
                x as int,
                y as int,
                d as int,
            ) == Spread::Done(last.board, last.next_square_candidate) by {
                assert(spread_settle_unit(
                    fuel,
                    before.board,
                    before.next_square_candidate,
                    row_unit(y as int),
                    d as int,
                ) == Spread::Done(first.board, first.next_square_candidate));
                assert(spread_settle_unit(
                    fuel,
                    first.board,
                    first.next_square_candidate,
                    col_unit(x as int),
                    d as int,
                ) == Spread::Done(second.board, second.next_square_candidate));
                assert(spread_settle_unit(
                    fuel,
                    second.board,
                    second.next_square_candidate,
                    block_unit(x as int, y as int),
                    d as int,
                ) == Spread::Done(last.board, last.next_square_candidate));
            }
        }
        Ok(())
    }

    /// Assigns digit `d` in unit `u` if it has one place left there.
    fn settle_unit(&mut self, u: usize, d: usize) -> (res: Result<(), SolverError>)
        requires
            old(self).sound(),
            u < 27,
            d < 9,
        ensures
            refines(final(self).board, old(self).board),
            res matches Ok(_) ==> {
                &&& final(self).sound()
                &&& nothing_new_pending(final(self).board, old(self).board)
                &&& old(self).cache_follows(*final(self))
                &&& keeps_stable(final(self).board, old(self).board)
                &&& forall|k: int| !#[trigger] hidden_pending(final(self).board, u as int, k, d as int)
            },
            res matches Err(e) ==> {
                &&& e == SolverError::Contradiction
                &&& no_stable(old(self).board)
            },
            old(self).settles_unit_to(u as int, d as int, outcome_of(res, *final(self))),
        decreases weight(old(self).board), 1nat,
    {
        let ghost before = *self;
        let places = self.unit_mask(u, d);
        if places.count_ones() == 1 {
            let k = lowest(places);
            proof {
                before.lemma_index_single(u as int, d as int, k as int);
                let j = last_place(before.board, u as int, d as int);
                assert(only_place(before.board, u as int, j, d as int));
                assert(j == k);
            }
            let (px, py) = unit_cell(u, k);
            match self.propagate(px, py, !digit_bit(d)) {
                Ok(()) => {},
                Err(e) => {
                    proof {
                        assert forall|g: Candidates| stable(g) implies !#[trigger] refines(
                            g,
                            before.board,
                        ) by {
                            if refines(g, before.board) {
                                lemma_stable_respects_hidden(
                                    g,
                                    before.board,
                                    u as int,
                                    k as int,
                                    d as int,
                                );
                            }
                        }
                        assert forall|fuel: nat| fuel >= weight(before.board) implies
                            #[trigger] spread_settle_unit(
                            fuel,
                            before.board,
                            before.next_square_candidate,
                            u as int,
                            d as int,
                        ) == Spread::Failed by {
                            assert(spread(
                                fuel,
                                before.board,
                                before.next_square_candidate,
                                px as int,
                                py as int,
                                !single(d as int),
                            ) == Spread::Failed);
                        }
                    }
                    return Err(e);
                },
            }
            proof {
                let after = *self;
                assert forall|fuel: nat| fuel >= weight(before.board) implies
                    #[trigger] spread_settle_unit(
                    fuel,
                    before.board,
                    before.next_square_candidate,
                    u as int,
                    d as int,
                ) == Spread::Done(after.board, after.next_square_candidate) by {
                    assert(spread(
                        fuel,
                        before.board,
                        before.next_square_candidate,
                        px as int,
                        py as int,
                        !single(d as int),
                    ) == Spread::Done(after.board, after.next_square_candidate));
                }
                assert forall|g: Candidates|
                    stable(g) && #[trigger] refines(g, before.board) implies refines(
                    g,
                    after.board,
                ) by {
                    lemma_stable_respects_hidden(g, before.board, u as int, k as int, d as int);
                }
                lemma_avoids_others(after.board, px as int, py as int, d as int);
                assert forall|j: int| !#[trigger] hidden_pending(
                    after.board,
                    u as int,
                    j,
                    d as int,
                ) by {
                    if hidden_pending(after.board, u as int, j, d as int) {
                        assert(hidden_pending(before.board, u as int, j, d as int));
                    }
                }
            }
        } else {
            proof {
                lemma_refines_self(before.board);
                assert forall|j: int| !#[trigger] hidden_pending(
                    before.board,
                    u as int,
                    j,
                    d as int,
                ) by {
                    before.lemma_index_many(u as int, d as int, j);
                }
                assert forall|j: int| !only_place(before.board, u as int, j, d as int) by {
                    before.lemma_index_many(u as int, d as int, j);
                }
            }
        }
        Ok(())
    }

    /// An index entry with one member names the one place left.
    proof fn lemma_index_single(self, u: int, d: int, k: int)
        requires
            self.sound(),
            0 <= u < 27,
            0 <= d < 9,
            popcount(self.index(u, d)) == 1,
            holds(self.index(u, d), k),
        ensures
            0 <= k < 9,
            only_place(self.board, u, k, d),
    {
        let m = self.index(u, d);
        assert(m <= ALL_DIGITS);
        lemma_in_range(m);
        lemma_popcount_one(m, k);
        lemma_holds_single(k);
        assert(holds(m, k) == unit_possible(self.board, u, k, d));
        assert forall|k2: int| #[trigger] unit_possible(self.board, u, k2, d) implies k2 == k by {
            assert(holds(m, k2));
        }
    }

    /// Where an index entry has not exactly one member, the digit has not
    /// one place left, and no hidden single is pending.
    proof fn lemma_index_many(self, u: int, d: int, k: int)
        requires
            self.sound(),
            0 <= u < 27,
            0 <= d < 9,
            popcount(self.index(u, d)) != 1,
        ensures
            !only_place(self.board, u, k, d),
            !hidden_pending(self.board, u, k, d),
    {
        let m = self.index(u, d);
        if only_place(self.board, u, k, d) {
            assert(m <= ALL_DIGITS);
            lemma_in_range(m);
            assert(holds(m, k));
            lemma_holds_single(k);
            assert forall|i: int| 0 <= i < 16 implies holds(m, i) == holds(single(k), i) by {
                if holds(m, i) {
                    assert(unit_possible(self.board, u, i, d));
                }
            }
            lemma_extensional(m, single(k));
            lemma_popcount_one(m, k);
        }
    }
}

/// Once a cell would be left empty, no stable refinement avoids the digits
/// that were to be struck from it.
pub proof fn lemma_cell_exhausted(s: Candidates, g: Candidates, x: int, y: int, mask: u16)
    requires
        0 <= x < 9,
        0 <= y < 9,
        mask_at(s, x, y) & !mask == 0,
        stable(g),
        refines(g, s),
    ensures
        !avoids(g, x, y, mask),
{
    let c = mask_at(g, x, y);
    assert(c != 0);
    assert(subset(c, mask_at(s, x, y)));
    lemma_empty(c);
    let d = choose|d: int| holds(c, d);
    lemma_holds_and_not(mask_at(s, x, y), mask);
    lemma_empty(mask_at(s, x, y) & !mask);
    assert(!holds(mask_at(s, x, y) & !mask, d));
    lemma_holds_and(c, mask);
    lemma_empty(c & mask);
    assert(holds(c & mask, d));
}

} // verus!
