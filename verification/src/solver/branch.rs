//! Choosing the cell to branch on, and the search that branches.

use vstd::prelude::*;
use crate::bits::{
    contains, holds, lemma_empty, lemma_holds_single, lemma_in_range, lemma_popcount_many,
    lemma_popcount_one, lemma_popcount_zero, popcount, single, subset, ALL_DIGITS,
};
use crate::candidates::{
    lemma_refines_self, lemma_refines_trans, lemma_weight_holds, lemma_weight_strict, mask_at,
    refines, weight,
    Candidates,
};
use crate::laws::{lemma_solved_is_stable, lemma_stable_resolved_is_solved};
use crate::propagation::lemma_avoids_others;
use crate::solver::cascade::{propagated, Spread};
use crate::solver::finish::solved_grid;
use crate::solver::Solver;

verus! {

/// How many candidates cell `(x, y)` has.
pub open spec fn count_at(g: Candidates, x: int, y: int) -> nat {
    popcount(mask_at(g, x, y))
}

/// Whether `(a, b)` comes before `(x, y)` when the board is walked column
/// by column, each column from the top.
pub open spec fn scanned_before(a: int, b: int, x: int, y: int) -> bool {
    a < x || (a == x && b < y)
}

/// `(x, y)` is the first cell, column by column, among the open cells with
/// the fewest candidates.
pub open spec fn first_fewest(g: Candidates, x: int, y: int) -> bool {
    &&& 0 <= x < 9
    &&& 0 <= y < 9
    &&& count_at(g, x, y) >= 2
    &&& forall|a: int, b: int|
        0 <= a < 9 && 0 <= b < 9 && #[trigger] count_at(g, a, b) >= 2 ==> count_at(g, x, y)
            <= count_at(g, a, b) && (scanned_before(a, b, x, y) ==> count_at(g, x, y) < count_at(
            g,
            a,
            b,
        ))
}

/// Of the open cells with the fewest candidates only one comes first.
pub proof fn lemma_first_fewest_is_one(g: Candidates, a: int, b: int, c: int, d: int)
    requires
        first_fewest(g, a, b),
        first_fewest(g, c, d),
    ensures
        a == c && b == d,
{
    assert(count_at(g, a, b) >= 2 && count_at(g, c, d) >= 2);
}

/// The cell to branch on: the cached cell `h` if it has two candidates,
/// else the first of the open cells with the fewest candidates, if any
/// cell is open.
pub open spec fn branch_cell(g: Candidates, h: Option<(usize, usize)>) -> Option<(usize, usize)> {
    if h matches Some(c) && c.0 < 9 && c.1 < 9 && count_at(g, c.0 as int, c.1 as int) == 2 {
        h
    } else if exists|x: int, y: int| first_fewest(g, x, y) {
        let c = choose|x: int, y: int| first_fewest(g, x, y);
        Some((c.0 as usize, c.1 as usize))
    } else {
        None
    }
}

/// What `search` finds: the board and the cached cell of the state that
/// it comes back with.
pub open spec fn found_of(res: Option<Solver>) -> Option<(Candidates, Option<(usize, usize)>)> {
    match res {
        Some(found) => Some((found.board, found.next_square_candidate)),
        None => None,
    }
}

/// The search, step by step: with no cell to branch on the state comes
/// back; else the candidates of the branch cell are tried from the lowest
/// digit up, and the first that leads to a finished board gives the
/// result. `fuel` bounds the depth; the candidates of the board, counted
/// together, are always enough.
pub open spec fn searched(fuel: nat, g: Candidates, h: Option<(usize, usize)>) -> Option<
    (Candidates, Option<(usize, usize)>),
>
    decreases fuel, 10int,
{
    match branch_cell(g, h) {
        None => Some((g, h)),
        Some(c) => if fuel == 0 {
            None
        } else {
            searched_from(fuel, g, h, c.0 as int, c.1 as int, 0)
        },
    }
}

/// The search over the candidates of `(x, y)` from digit `bit` on.
pub open spec fn searched_from(
    fuel: nat,
    g: Candidates,
    h: Option<(usize, usize)>,
    x: int,
    y: int,
    bit: int,
) -> Option<(Candidates, Option<(usize, usize)>)>
    decreases fuel, 9 - bit,
{
    if bit >= 9 || bit < 0 || fuel == 0 {
        None
    } else if holds(mask_at(g, x, y), bit) {
        match propagated(g, h, x, y, !single(bit)) {
            Spread::Done(g1, h1) => match searched((fuel - 1) as nat, g1, h1) {
                Some(found) => Some(found),
                None => searched_from(fuel, g, h, x, y, bit + 1),
            },
            _ => searched_from(fuel, g, h, x, y, bit + 1),
        }
    } else {
        searched_from(fuel, g, h, x, y, bit + 1)
    }
}

/// No cell of `g` has two candidates or more.
pub open spec fn no_open_cell(g: Candidates) -> bool {
    forall|x: int, y: int| 0 <= x < 9 && 0 <= y < 9 ==> #[trigger] count_at(g, x, y) < 2
}

/// No finished Sudoku refines `s`: there is no way to finish the board.
pub open spec fn no_solution(s: Candidates) -> bool {
    forall|g: Candidates| solved_grid(g) ==> !#[trigger] refines(g, s)
}

/// Cell `(x, y)` of `g` lists no digit below `n`.
pub open spec fn misses_below(g: Candidates, x: int, y: int, n: int) -> bool {
    forall|e: int| 0 <= e < n ==> !holds(mask_at(g, x, y), e)
}

impl Solver {
    /// The cached cell is on the board and has two candidates.
    pub open spec fn hint_valid(self) -> bool {
        self.next_square_candidate matches Some(c) && c.0 < 9 && c.1 < 9 && count_at(
            self.board,
            c.0 as int,
            c.1 as int,
        ) == 2
    }

    /// What the scan knows when it stands before cell `(i, j)`: no cell so
    /// far had two candidates, and `best`, with `fewest` candidates, is the
    /// first of the open cells so far with the fewest.
    pub open spec fn scan_so_far(self, i: int, j: int, fewest: int, best: Option<(usize, usize)>) -> bool {
        &&& forall|a: int, b: int|
            0 <= a < 9 && 0 <= b < 9 && scanned_before(a, b, i, j) && #[trigger] count_at(
                self.board,
                a,
                b,
            ) >= 2 ==> fewest <= count_at(self.board, a, b)
        &&& 2 < fewest
        &&& match best {
            Some(c) => {
                &&& c.0 < 9
                &&& c.1 < 9
                &&& scanned_before(c.0 as int, c.1 as int, i, j)
                &&& count_at(self.board, c.0 as int, c.1 as int) == fewest
                &&& forall|a: int, b: int|
                    0 <= a < 9 && 0 <= b < 9 && scanned_before(a, b, c.0 as int, c.1 as int)
                        && #[trigger] count_at(self.board, a, b) >= 2 ==> fewest < count_at(
                        self.board,
                        a,
                        b,
                    )
            },
            None => fewest == 17 && forall|a: int, b: int|
                0 <= a < 9 && 0 <= b < 9 && scanned_before(a, b, i, j) ==> #[trigger] count_at(
                    self.board,
                    a,
                    b,
                ) < 2,
        }
    }

    /// Picks the cell to branch on: the cached cell if it still has two
    /// candidates, else the first cell, column by column, among the open
    /// cells with the fewest candidates. `None` means that no cell is open.
    pub fn get_next_square_to_assign(self) -> (res: Option<(usize, usize)>)
        ensures
            self.hint_valid() ==> res == self.next_square_candidate,
            !self.hint_valid() ==> match res {
                Some(c) => first_fewest(self.board, c.0 as int, c.1 as int),
                None => forall|x: int, y: int|
                    0 <= x < 9 && 0 <= y < 9 ==> #[trigger] count_at(self.board, x, y) < 2,
            },
            res == branch_cell(self.board, self.next_square_candidate),
    {
        let res = self.pick();
        proof {
            if !self.hint_valid() {
                match res {
                    Some(c) => {
                        let first = choose|x: int, y: int| first_fewest(self.board, x, y);
                        lemma_first_fewest_is_one(
                            self.board,
                            c.0 as int,
                            c.1 as int,
                            first.0,
                            first.1,
                        );
                    },
                    None => {
                        assert forall|x: int, y: int| !first_fewest(self.board, x, y) by {
                            if first_fewest(self.board, x, y) {
                                assert(count_at(self.board, x, y) < 2);
                            }
                        }
                    },
                }
            }
        }
        res
    }

    /// Picks the cell to branch on.
    fn pick(self) -> (res: Option<(usize, usize)>)
        ensures
            self.hint_valid() ==> res == self.next_square_candidate,
            !self.hint_valid() ==> match res {
                Some(c) => first_fewest(self.board, c.0 as int, c.1 as int),
                None => forall|x: int, y: int|
                    0 <= x < 9 && 0 <= y < 9 ==> #[trigger] count_at(self.board, x, y) < 2,
            },
    {
        if let Some((x, y)) = self.next_square_candidate {
            if x < 9 && y < 9 && self.board[x][y].count_ones() == 2 {
                return Some((x, y));
            }
        }
        let mut smallest_count: u32 = 17;
        let mut smallest: Option<(usize, usize)> = None;
        let mut i: usize = 0;
        while i < 9
            invariant
                i <= 9,
                !self.hint_valid(),
                self.scan_so_far(i as int, 0, smallest_count as int, smallest),
            decreases 9 - i,
        {
            let mut j: usize = 0;
            while j < 9
                invariant
                    i < 9,
                    j <= 9,
                    !self.hint_valid(),
                    self.scan_so_far(i as int, j as int, smallest_count as int, smallest),
                decreases 9 - j,
            {
                let count = self.board[i][j].count_ones();
                proof {
                    lemma_popcount_zero(self.board[i as int][j as int]);
                    assert(count == count_at(self.board, i as int, j as int));
                }
                if count == 2 {
                    return Some((i, j));
                }
                if count > 1 && count < smallest_count {
                    smallest_count = count;
                    smallest = Some((i, j));
                }
                j += 1;
            }
            i += 1;
        }
        smallest
    }
}

/// Looks for a way to finish the board: branches on the cell that
/// `get_next_square_to_assign` picks, tries its candidates from the lowest
/// digit up, each on a copy of the state, and returns the first finished
/// Sudoku that it comes to. `None` means that there is none. A state with
/// no open cell comes back as it is. Which finished Sudoku is found, where
/// there are several, is what `searched` says.
pub fn search(board: Solver) -> (res: Option<Solver>)
    requires
        board.wf(),
    ensures
        res matches Some(found) ==> {
            &&& found.wf()
            &&& refines(found.board, board.board)
            &&& solved_grid(found.board)
        },
        res is None ==> no_solution(board.board),
        no_open_cell(board.board) ==> res == Some(board),
        forall|fuel: nat|
            fuel >= weight(board.board) ==> #[trigger] searched(
                fuel,
                board.board,
                board.next_square_candidate,
            ) == found_of(res),
    decreases weight(board.board),
{
    match board.get_next_square_to_assign() {
        None => {
            proof {
                lemma_refines_self(board.board);
                assert forall|x: int, y: int| 0 <= x < 9 && 0 <= y < 9 implies popcount(
                    #[trigger] mask_at(board.board, x, y),
                ) == 1 by {
                    assert(count_at(board.board, x, y) < 2);
                    lemma_popcount_zero(mask_at(board.board, x, y));
                }
                board.lemma_sound_units();
                lemma_stable_resolved_is_solved(board.board);
            }
            Some(board)
        },
        Some((x, y)) => {
            let digits = board.board[x][y];
            assert(count_at(board.board, x as int, y as int) >= 2);
            proof {
                lemma_weight_holds(board.board, x as int, y as int);
            }
            let mut bit: usize = 0;
            while bit < 9
                invariant
                    bit <= 9,
                    x < 9,
                    y < 9,
                    board.wf(),
                    digits == mask_at(board.board, x as int, y as int),
                    count_at(board.board, x as int, y as int) >= 2,
                    weight(board.board) >= 2,
                    branch_cell(board.board, board.next_square_candidate) == Some((x, y)),
                    forall|fuel: nat|
                        fuel >= weight(board.board) ==> #[trigger] searched_from(
                            fuel,
                            board.board,
                            board.next_square_candidate,
                            x as int,
                            y as int,
                            0,
                        ) == searched_from(
                            fuel,
                            board.board,
                            board.next_square_candidate,
                            x as int,
                            y as int,
                            bit as int,
                        ),
                    forall|g: Candidates|
                        solved_grid(g) && #[trigger] refines(g, board.board) ==> misses_below(
                            g,
                            x as int,
                            y as int,
                            bit as int,
                        ),
                decreases 9 - bit,
            {
                if contains(digits, bit) {
                    let mut board_copy = board;
                    let assigned = board_copy.set_digit(x, y, bit);
                    if assigned.is_ok() {
                        proof {
                            let pair = lemma_popcount_many(digits);
                            lemma_holds_single(bit as int);
                            let j = if pair.0 == bit { pair.1 } else { pair.0 };
                            lemma_weight_strict(board_copy.board, board.board, x as int, y as int, j);
                        }
                        match search(board_copy) {
                            Some(solution) => {
                                proof {
                                    lemma_refines_trans(
                                        solution.board,
                                        board_copy.board,
                                        board.board,
                                    );
                                    assert forall|fuel: nat| fuel >= weight(board.board) implies
                                        #[trigger] searched(
                                        fuel,
                                        board.board,
                                        board.next_square_candidate,
                                    ) == found_of(Some(solution)) by {
                                        assert(searched_from(
                                fuel,
                                board.board,
                                board.next_square_candidate,
                                x as int,
                                y as int,
                                0,
                            ) == searched_from(
                                fuel,
                                board.board,
                                board.next_square_candidate,
                                x as int,
                                y as int,
                                bit as int,
                            ));
                                        assert(searched(
                                            (fuel - 1) as nat,
                                            board_copy.board,
                                            board_copy.next_square_candidate,
                                        ) == found_of(Some(solution)));
                                    }
                                }
                                return Some(solution);
                            },
                            None => {
                                proof {
                                    assert forall|fuel: nat| fuel >= weight(board.board) implies
                                        #[trigger] searched_from(
                                fuel,
                                board.board,
                                board.next_square_candidate,
                                x as int,
                                y as int,
                                0,
                            ) == searched_from(
                                fuel,
                                board.board,
                                board.next_square_candidate,
                                x as int,
                                y as int,
                                bit + 1,
                            ) by {
                                assert(searched_from(
                                fuel,
                                board.board,
                                board.next_square_candidate,
                                x as int,
                                y as int,
                                0,
                            ) == searched_from(
                                fuel,
                                board.board,
                                board.next_square_candidate,
                                x as int,
                                y as int,
                                bit as int,
                            ));
                                assert(searched(
                                            (fuel - 1) as nat,
                                            board_copy.board,
                                            board_copy.next_square_candidate,
                                        ) == found_of(None));
                                    }
                                }
                            },
                        }
                    } else {
                        proof {
                            assert forall|fuel: nat| fuel >= weight(board.board) implies
                                #[trigger] searched_from(
                                fuel,
                                board.board,
                                board.next_square_candidate,
                                x as int,
                                y as int,
                                0,
                            ) == searched_from(
                                fuel,
                                board.board,
                                board.next_square_candidate,
                                x as int,
                                y as int,
                                bit + 1,
                            ) by {
                                assert(searched_from(
                                fuel,
                                board.board,
                                board.next_square_candidate,
                                x as int,
                                y as int,
                                0,
                            ) == searched_from(
                                fuel,
                                board.board,
                                board.next_square_candidate,
                                x as int,
                                y as int,
                                bit as int,
                            ));
                            }
                        }
                    }
                    proof {
                        assert forall|g: Candidates|
                            solved_grid(g) && #[trigger] refines(
                                g,
                                board.board,
                            ) implies misses_below(g, x as int, y as int, bit + 1) by {
                            lemma_solved_is_stable(g);
                            assert(misses_below(g, x as int, y as int, bit as int));
                            let m = mask_at(g, x as int, y as int);
                            if holds(m, bit as int) {
                                assert(popcount(m) == 1);
                                lemma_popcount_one(m, bit as int);
                                lemma_avoids_others(g, x as int, y as int, bit as int);
                            }
                        }
                    }
                } else {
                    proof {
                        assert forall|g: Candidates|
                            solved_grid(g) && #[trigger] refines(
                                g,
                                board.board,
                            ) implies misses_below(g, x as int, y as int, bit + 1) by {
                            assert(misses_below(g, x as int, y as int, bit as int));
                            assert(subset(mask_at(g, x as int, y as int), digits));
                        }
                        assert forall|fuel: nat| fuel >= weight(board.board) implies
                            #[trigger] searched_from(
                                fuel,
                                board.board,
                                board.next_square_candidate,
                                x as int,
                                y as int,
                                0,
                            ) == searched_from(
                                fuel,
                                board.board,
                                board.next_square_candidate,
                                x as int,
                                y as int,
                                bit + 1,
                            ) by {
                                assert(searched_from(
                                fuel,
                                board.board,
                                board.next_square_candidate,
                                x as int,
                                y as int,
                                0,
                            ) == searched_from(
                                fuel,
                                board.board,
                                board.next_square_candidate,
                                x as int,
                                y as int,
                                bit as int,
                            ));
                        }
                    }
                }
                bit += 1;
            }
            proof {
                assert forall|g: Candidates| solved_grid(g) implies !#[trigger] refines(
                    g,
                    board.board,
                ) by {
                    if refines(g, board.board) {
                        lemma_solved_is_stable(g);
                        assert(misses_below(g, x as int, y as int, 9));
                        let m = mask_at(g, x as int, y as int);
                        assert(m != 0 && m <= ALL_DIGITS);
                        lemma_empty(m);
                        lemma_in_range(m);
                        let e = choose|e: int| holds(m, e);
                        assert(0 <= e < 9);
                    }
                }
                assert forall|fuel: nat| fuel >= weight(board.board) implies #[trigger] searched(
                    fuel,
                    board.board,
                    board.next_square_candidate,
                ) == found_of(None) by {
                    assert(searched_from(
                        fuel,
                        board.board,
                        board.next_square_candidate,
                        x as int,
                        y as int,
                        0,
                    ) == searched_from(
                        fuel,
                        board.board,
                        board.next_square_candidate,
                        x as int,
                        y as int,
                        9,
                    ));
                }
            }
            None
        },
    }
}

} // verus!
