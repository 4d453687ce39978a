use ukodus::gui::Board;
use ukodus::solver::{unit_cell, Solver, SolverError};

const HARD: &str =
    "400000805030000000000700000020000060000080400000010000000603070500200000104000000";

fn same_state(a: &Solver, b: &Solver) -> bool {
    a.board == b.board
        && a.possible_rows == b.possible_rows
        && a.possible_cols == b.possible_cols
        && a.possible_blocks == b.possible_blocks
        && a.next_square_candidate == b.next_square_candidate
}

fn indices_agree_with_board(solver: &Solver) -> bool {
    for digit in 0..9 {
        for i in 0..9 {
            let mut in_row = 0;
            let mut in_column = 0;
            let mut in_block = 0;
            for k in 0..9 {
                let row_cell = solver.board[k][i];
                let column_cell = solver.board[i][k];
                let block_cell = solver.board[3 * (i % 3) + k % 3][3 * (i / 3) + k / 3];
                if row_cell & (1 << digit) != 0 {
                    in_row += 1;
                }
                if (row_cell & (1 << digit) != 0) != (solver.possible_rows[i][digit] & (1 << k) != 0)
                {
                    return false;
                }
                if column_cell & (1 << digit) != 0 {
                    in_column += 1;
                }
                if (column_cell & (1 << digit) != 0)
                    != (solver.possible_cols[i][digit] & (1 << k) != 0)
                {
                    return false;
                }
                if block_cell & (1 << digit) != 0 {
                    in_block += 1;
                }
                if (block_cell & (1 << digit) != 0)
                    != (solver.possible_blocks[i / 3][i % 3][digit] & (1 << k) != 0)
                {
                    return false;
                }
            }
            if solver.possible_rows[i][digit].count_ones() != in_row
                || solver.possible_cols[i][digit].count_ones() != in_column
                || solver.possible_blocks[i / 3][i % 3][digit].count_ones() != in_block
            {
                return false;
            }
        }
    }
    true
}

#[test]
fn new_state_allows_everything() {
    let solver = Solver::new();
    assert_eq!(solver.board, [[0x1ff; 9]; 9]);
    assert_eq!(solver.possible_rows, [[0x1ff; 9]; 9]);
    assert_eq!(solver.possible_cols, [[0x1ff; 9]; 9]);
    assert_eq!(solver.possible_blocks, [[[0x1ff; 9]; 3]; 3]);
    assert_eq!(solver.next_square_candidate, None);
    assert!(indices_agree_with_board(&solver));
}

#[test]
fn assignment_strikes_the_digit_from_the_peers() {
    let mut solver = Solver::new();
    solver.set_digit(4, 4, 4).unwrap();
    assert_eq!(solver.board[4][4], 1 << 4);
    assert_eq!(solver.board[4][0], 0x1ef);
    assert_eq!(solver.board[0][4], 0x1ef);
    assert_eq!(solver.board[3][3], 0x1ef);
    assert_eq!(solver.board[5][5], 0x1ef);
    assert_eq!(solver.board[0][0], 0x1ff);
    assert_eq!(solver.board[2][6], 0x1ff);
    assert_eq!(solver.possible_rows[4][4], 1 << 4);
    assert_eq!(solver.possible_cols[4][4], 1 << 4);
    assert_eq!(solver.possible_blocks[1][1][4], 1 << 4);
    assert_eq!(solver.possible_rows[4][0], 0x1ff & !(1 << 4));
    assert!(indices_agree_with_board(&solver));
}

#[test]
fn elimination_down_to_one_digit_is_an_assignment() {
    let mut by_elimination = Solver::new();
    by_elimination.eliminate(4, 4, 0x1ff & !(1 << 4)).unwrap();
    let mut by_assignment = Solver::new();
    by_assignment.set_digit(4, 4, 4).unwrap();
    assert!(same_state(&by_elimination, &by_assignment));
}

#[test]
fn digit_with_one_place_left_in_a_row_is_assigned_there() {
    let mut solver = Solver::new();
    for x in 1..9 {
        solver.eliminate(x, 0, 1).unwrap();
    }
    assert_eq!(solver.board[0][0], 1);
    assert_eq!(solver.board[0][1], 0x1fe);
    assert_eq!(solver.board[1][1], 0x1fe);
    assert_eq!(solver.board[1][0], 0x1fe);
    assert_eq!(solver.board[3][3], 0x1ff);
    assert_eq!(solver.possible_rows[0][0], 1);
    assert!(indices_agree_with_board(&solver));
}

#[test]
fn digit_with_one_place_left_in_a_column_or_block_is_assigned_there() {
    let mut column = Solver::new();
    for y in 0..8 {
        column.eliminate(6, y, 1 << 8).unwrap();
    }
    assert_eq!(column.board[6][8], 1 << 8);
    assert_eq!(column.board[0][8], 0x0ff);
    let mut block = Solver::new();
    for k in 0..8 {
        block.eliminate(3 + k % 3, 6 + k / 3, 1 << 2).unwrap();
    }
    assert_eq!(block.board[5][8], 1 << 2);
    assert_eq!(block.board[5][0], 0x1ff & !(1 << 2));
    assert_eq!(block.board[0][8], 0x1ff & !(1 << 2));
    assert!(indices_agree_with_board(&block));
}

#[test]
fn elimination_of_absent_digits_changes_nothing() {
    let mut solver = Solver::new();
    solver.set_digit(2, 2, 0).unwrap();
    let before = solver;
    solver.eliminate(2, 2, 0x1fe).unwrap();
    assert!(same_state(&solver, &before));
    solver.eliminate(5, 2, 1).unwrap();
    assert!(same_state(&solver, &before));
    solver.eliminate(7, 7, 0).unwrap();
    assert!(same_state(&solver, &before));
    solver.eliminate(7, 7, 0xfe00).unwrap();
    assert!(same_state(&solver, &before));
}

#[test]
fn elimination_twice_is_elimination_once() {
    let mut solver = Solver::from_board(&Board::parse(HARD).unwrap()).unwrap();
    solver.eliminate(1, 0, 0b1_0000_0011).unwrap();
    let once = solver;
    solver.eliminate(1, 0, 0b1_0000_0011).unwrap();
    assert!(same_state(&solver, &once));
    assert!(indices_agree_with_board(&solver));
}

#[test]
fn elimination_of_every_digit_is_a_contradiction() {
    let mut solver = Solver::new();
    assert_eq!(solver.eliminate(0, 0, 0x1ff), Err(SolverError::Contradiction));
}

#[test]
fn elimination_of_the_last_candidate_is_a_contradiction() {
    let mut solver = Solver::new();
    solver.set_digit(0, 0, 3).unwrap();
    assert_eq!(solver.eliminate(0, 0, 1 << 3), Err(SolverError::Contradiction));
}

#[test]
fn last_place_of_a_digit_is_taken_by_a_cell_that_listed_more() {
    let mut solver = Solver::new();
    solver.eliminate(8, 2, 0x1ff & !0b11).unwrap();
    solver.eliminate(8, 3, 0x1ff & !0b11).unwrap();
    solver.set_digit(0, 0, 0).unwrap();
    solver.set_digit(3, 1, 0).unwrap();
    assert_eq!(solver.possible_rows[2][0], 0b1_1100_0000);
    solver.eliminate(6, 2, 1).unwrap();
    assert_eq!(solver.possible_rows[2][0], 0b1_1000_0000);
    assert_eq!(solver.board[8][2], 0b11);
    assert_eq!(solver.eliminate(7, 2, 1), Ok(()));
    assert_eq!(solver.board[8][2], 0b01);
    assert_eq!(solver.board[8][3], 0b10);
    assert_eq!(solver.possible_rows[2][0], 0b1_0000_0000);
    assert!(indices_agree_with_board(&solver));
}

#[test]
fn digit_with_one_place_left_after_assignments_is_assigned() {
    let mut solver = Solver::new();
    solver.set_digit(0, 0, 0).unwrap();
    solver.set_digit(3, 1, 0).unwrap();
    solver.set_digit(8, 5, 0).unwrap();
    assert_eq!(solver.possible_rows[2][0], 0b0_1100_0000);
    assert_eq!(solver.eliminate(6, 2, 1), Ok(()));
    assert_eq!(solver.board[7][2], 1);
    assert_eq!(solver.possible_rows[2][0], 0b0_1000_0000);
    assert!(indices_agree_with_board(&solver));
}

#[test]
fn no_cell_gains_a_candidate_when_propagation_fails() {
    let mut solver = Solver::new();
    solver.eliminate(1, 0, 0x1ff & !0b11).unwrap();
    solver.eliminate(2, 0, 0x1ff & !0b11).unwrap();
    let before = solver;
    assert_eq!(solver.set_digit(0, 0, 0), Err(SolverError::Contradiction));
    let mut total = 0;
    let mut total_before = 0;
    for x in 0..9 {
        for y in 0..9 {
            assert_eq!(solver.board[x][y] & !before.board[x][y], 0);
            total += solver.board[x][y].count_ones();
            total_before += before.board[x][y].count_ones();
        }
    }
    assert!(total <= total_before);
    let mut solver = Solver::new();
    assert_eq!(solver.eliminate(4, 4, 0x1ff), Err(SolverError::Contradiction));
    for x in 0..9 {
        for y in 0..9 {
            assert_eq!(solver.board[x][y] & !0x1ff, 0);
        }
    }
}

#[test]
fn assignment_is_elimination_of_the_other_eight() {
    let start = Solver::from_board(&Board::parse(HARD).unwrap()).unwrap();
    for (x, y, digit) in [(1usize, 0usize, 0usize), (6, 7, 5), (6, 7, 8), (4, 4, 1)] {
        if start.board[x][y] & (1 << digit) == 0 {
            continue;
        }
        let mut assigned = start;
        let mut struck = start;
        let first = assigned.set_digit(x, y, digit);
        let second = struck.eliminate(x, y, 0x1ff & !(1 << digit));
        assert_eq!(first, second);
        if first.is_ok() {
            assert!(same_state(&assigned, &struck));
        }
    }
}

#[test]
fn assignment_of_a_candidate_goes_through() {
    let mut solver = Solver::new();
    assert_eq!(solver.set_digit(0, 0, 4), Ok(()));
    assert_eq!(solver.board[0][0], 1 << 4);
}

#[test]
fn assignment_of_a_struck_digit_is_refused() {
    let mut solver = Solver::new();
    solver.set_digit(0, 0, 4).unwrap();
    let before = solver;
    assert_eq!(solver.set_digit(7, 0, 4), Err(SolverError::Contradiction));
    assert!(same_state(&solver, &before));
    assert_eq!(solver.set_digit(0, 0, 3), Err(SolverError::Contradiction));
    assert!(same_state(&solver, &before));
}

#[test]
fn assignment_resolves_a_peer_with_two_candidates() {
    let mut solver = Solver::new();
    solver.eliminate(1, 0, 0x1ff & !0b11).unwrap();
    assert_eq!(solver.board[1][0], 0b11);
    assert_eq!(solver.set_digit(0, 0, 0), Ok(()));
    assert_eq!(solver.board[0][0], 0b01);
    assert_eq!(solver.board[1][0], 0b10);
    assert_eq!(solver.board[2][0], 0x1ff & !0b11);
    assert_eq!(solver.board[1][8], 0x1ff & !0b10);
    assert!(indices_agree_with_board(&solver));
}

#[test]
fn assignment_that_empties_a_peer_is_a_contradiction() {
    let mut solver = Solver::new();
    solver.eliminate(1, 0, 0x1ff & !0b11).unwrap();
    solver.eliminate(2, 0, 0x1ff & !0b11).unwrap();
    assert_eq!(solver.board[1][0], 0b11);
    assert_eq!(solver.board[2][0], 0b11);
    assert_eq!(solver.set_digit(0, 0, 0), Err(SolverError::Contradiction));
}

#[test]
fn indices_count_the_cells_after_every_step() {
    let mut solver = Solver::new();
    for index in 0..81 {
        let digit = HARD.as_bytes()[index] - b'0';
        if digit > 0 {
            solver.set_digit(index % 9, index / 9, (digit - 1) as usize).unwrap();
            assert!(indices_agree_with_board(&solver));
        }
    }
    solver.eliminate(1, 0, 1 << 0).unwrap();
    assert!(indices_agree_with_board(&solver));
}

#[test]
fn candidates_never_come_back() {
    let mut solver = Solver::new();
    let mut before = solver.board;
    for index in 0..81 {
        let digit = HARD.as_bytes()[index] - b'0';
        if digit > 0 {
            solver.set_digit(index % 9, index / 9, (digit - 1) as usize).unwrap();
            for x in 0..9 {
                for y in 0..9 {
                    assert_eq!(solver.board[x][y] & !before[x][y], 0);
                    assert_ne!(solver.board[x][y], 0);
                }
            }
            before = solver.board;
        }
    }
}

#[test]
fn cell_left_with_two_candidates_is_cached() {
    let mut solver = Solver::new();
    solver.eliminate(2, 3, 0x1fc).unwrap();
    assert_eq!(solver.board[2][3], 0b11);
    assert_eq!(solver.next_square_candidate, Some((2, 3)));
    assert_eq!(solver.get_next_square_to_assign(), Some((2, 3)));
}

#[test]
fn stale_cache_gives_way_to_a_scan() {
    let mut solver = Solver::new();
    solver.eliminate(2, 3, 0x1fc).unwrap();
    solver.set_digit(2, 3, 0).unwrap();
    assert_eq!(solver.next_square_candidate, Some((2, 3)));
    assert_eq!(solver.board[2][3].count_ones(), 1);
    assert_eq!(solver.board[0][3].count_ones(), 8);
    assert_eq!(solver.get_next_square_to_assign(), Some((0, 3)));
}

#[test]
fn scan_stops_at_the_first_cell_with_two_candidates() {
    let mut solver = Solver::new();
    solver.eliminate(7, 1, 0x1fc).unwrap();
    solver.eliminate(5, 5, 0x1fc).unwrap();
    assert_eq!(solver.get_next_square_to_assign(), Some((5, 5)));
    solver.next_square_candidate = Some((7, 1));
    assert_eq!(solver.get_next_square_to_assign(), Some((7, 1)));
    solver.next_square_candidate = None;
    assert_eq!(solver.get_next_square_to_assign(), Some((5, 5)));
    solver.next_square_candidate = Some((0, 0));
    assert_eq!(solver.get_next_square_to_assign(), Some((5, 5)));
    solver.next_square_candidate = Some((40, 2));
    assert_eq!(solver.get_next_square_to_assign(), Some((5, 5)));
}

#[test]
fn scan_takes_the_first_of_the_cells_with_the_fewest_candidates() {
    let mut solver = Solver::new();
    solver.eliminate(6, 2, 0x1f0).unwrap();
    solver.eliminate(4, 8, 0x1f8).unwrap();
    solver.eliminate(4, 1, 0x1f8).unwrap();
    solver.eliminate(1, 1, 0x1e0).unwrap();
    assert_eq!(solver.next_square_candidate, None);
    assert_eq!(solver.get_next_square_to_assign(), Some((4, 1)));
}

#[test]
fn no_cell_is_open_on_a_finished_board() {
    let solution =
        "693875412145632798782194356357421869816957234429368175274519683968743521531286947";
    let solver = Solver::from_board(&Board::parse(solution).unwrap()).unwrap();
    assert_eq!(solver.get_next_square_to_assign(), None);
}

#[test]
fn units_are_rows_then_columns_then_blocks() {
    assert_eq!(unit_cell(0, 0), (0, 0));
    assert_eq!(unit_cell(4, 7), (7, 4));
    assert_eq!(unit_cell(9, 3), (0, 3));
    assert_eq!(unit_cell(17, 2), (8, 2));
    assert_eq!(unit_cell(18, 0), (0, 0));
    assert_eq!(unit_cell(18, 8), (2, 2));
    assert_eq!(unit_cell(19, 4), (4, 1));
    assert_eq!(unit_cell(22, 5), (5, 4));
    assert_eq!(unit_cell(26, 6), (6, 8));
}

#[test]
fn unit_mask_reads_the_three_indices() {
    let mut solver = Solver::new();
    solver.set_digit(7, 4, 2).unwrap();
    assert_eq!(solver.unit_mask(4, 2), 1 << 7);
    assert_eq!(solver.unit_mask(9 + 7, 2), 1 << 4);
    assert_eq!(solver.unit_mask(18 + 3 + 2, 2), 1 << 4);
    assert_eq!(solver.unit_mask(4, 3), 0x1ff & !(1 << 7));
    assert_eq!(solver.unit_mask(0, 2), 0x1ff & !(1 << 7));
}
