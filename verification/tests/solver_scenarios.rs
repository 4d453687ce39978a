use ukodus::gui::{Board, CellValue};
use ukodus::solver::{search, Solver, SolverError};

const CLUES_17: &str =
    "000075400000000008080190000300001060000000034000068170204000603900000020530200000";
const SOLUTION_17: &str =
    "693875412145632798782194356357421869816957234429368175274519683968743521531286947";
const HARD: &str =
    "400000805030000000000700000020000060000080400000010000000603070500200000104000000";
const HARD_SOLUTION: &str =
    "417369825632158947958724316825437169791586432346912758289643571573291684164875293";
const DEAD_END: &str =
    "490000805030000000000700000020000060000080400000010000000603070500200000104000000";

fn load(puzzle: &str) -> Result<Solver, SolverError> {
    Solver::from_board(&Board::parse(puzzle).unwrap())
}

fn is_permutation(cells: [u16; 9]) -> bool {
    let mut seen = 0u16;
    for cell in cells {
        if cell.count_ones() != 1 {
            return false;
        }
        seen |= cell;
    }
    seen == 0x1ff
}

fn every_unit_is_a_permutation(solver: &Solver) -> bool {
    for i in 0..9 {
        let mut row = [0u16; 9];
        let mut column = [0u16; 9];
        let mut block = [0u16; 9];
        for k in 0..9 {
            row[k] = solver.board[k][i];
            column[k] = solver.board[i][k];
            block[k] = solver.board[3 * (i % 3) + k % 3][3 * (i / 3) + k / 3];
        }
        if !is_permutation(row) || !is_permutation(column) || !is_permutation(block) {
            return false;
        }
    }
    true
}

#[test]
fn empty_puzzle_branches_on_a_cell_with_nine_candidates() {
    let solver = load(&"0".repeat(81)).unwrap();
    for x in 0..9 {
        for y in 0..9 {
            assert_eq!(solver.board[x][y], 0x1ff);
        }
    }
    assert_eq!(solver.possible_rows, [[0x1ff; 9]; 9]);
    assert_eq!(solver.possible_cols, [[0x1ff; 9]; 9]);
    assert_eq!(solver.possible_blocks, [[[0x1ff; 9]; 3]; 3]);
    assert_eq!(solver.next_square_candidate, None);
    let (x, y) = solver.get_next_square_to_assign().unwrap();
    assert_eq!((x, y), (0, 0));
    assert_eq!(solver.board[x][y].count_ones(), 9);
}

#[test]
fn empty_puzzle_is_finished_by_search() {
    let solution = search(Solver::new()).unwrap();
    assert!(solution.solved());
    assert!(every_unit_is_a_permutation(&solution));
    assert_eq!(
        solution.render(),
        "147235689259648731368197245471852963593461827682379514714986352936524178825713496"
    );
}

#[test]
fn one_empty_cell_is_filled_by_propagation_alone() {
    let mut puzzle = String::from(SOLUTION_17);
    puzzle.replace_range(40..41, "0");
    let solver = load(&puzzle).unwrap();
    assert_eq!(solver.get_next_square_to_assign(), None);
    assert!(solver.solved());
    assert_eq!(solver.render(), SOLUTION_17);
    assert_eq!(solver.resolved_digit(4, 4), Some(5));
}

#[test]
fn seventeen_clue_puzzle_has_its_known_solution() {
    let solver = load(CLUES_17).unwrap();
    let solution = search(solver).unwrap();
    assert!(solution.solved());
    assert_eq!(solution.render(), SOLUTION_17);
}

#[test]
fn two_fives_in_a_row_are_an_invalid_puzzle() {
    let mut puzzle = "0".repeat(81);
    puzzle.replace_range(0..1, "5");
    puzzle.replace_range(7..8, "5");
    assert!(matches!(load(&puzzle), Err(SolverError::InvalidPuzzle)));
}

#[test]
fn two_fives_in_a_column_or_block_are_an_invalid_puzzle() {
    let mut column = "0".repeat(81);
    column.replace_range(3..4, "5");
    column.replace_range(75..76, "5");
    assert!(matches!(load(&column), Err(SolverError::InvalidPuzzle)));
    let mut block = "0".repeat(81);
    block.replace_range(30..31, "5");
    block.replace_range(41..42, "5");
    assert!(matches!(load(&block), Err(SolverError::InvalidPuzzle)));
}

#[test]
fn clue_that_is_no_digit_is_an_invalid_puzzle() {
    let mut board = Board::empty();
    board.cells[2][2] = CellValue::Fixed(12);
    assert!(matches!(Solver::from_board(&board), Err(SolverError::InvalidPuzzle)));
    let mut board = Board::empty();
    board.cells[2][2] = CellValue::Unfixed(Some(0));
    assert!(matches!(Solver::from_board(&board), Err(SolverError::InvalidPuzzle)));
}

#[test]
fn numbers_that_the_player_entered_count_as_clues() {
    let mut board = Board::empty();
    board.cells[3][1] = CellValue::Unfixed(Some(7));
    let solver = Solver::from_board(&board).unwrap();
    assert_eq!(solver.board[3][1], 1 << 6);
    assert_eq!(solver.board[3][0], 0x1ff & !(1 << 6));
}

#[test]
fn hard_puzzle_needs_branching_and_is_solved() {
    let solver = load(HARD).unwrap();
    assert!(!solver.solved());
    assert_eq!(
        solver.render(),
        "4xxxxx8x5x3xxxxxxxxxx7xxxxxx2xxxxx6xxxxx8x4xxx4xx1xxxxxxx6x3x7x5x32x1xxx1x4xxxxxx"
    );
    assert_eq!(solver.get_next_square_to_assign(), Some((6, 7)));
    let solution = search(solver).unwrap();
    assert!(solution.solved());
    assert!(every_unit_is_a_permutation(&solution));
    assert_eq!(solution.render(), HARD_SOLUTION);
}

#[test]
fn solution_keeps_the_clues() {
    let solver = load(HARD).unwrap();
    let solution = search(solver).unwrap();
    for x in 0..9 {
        for y in 0..9 {
            assert_eq!(solution.board[x][y] & !solver.board[x][y], 0);
        }
    }
}

#[test]
fn puzzle_without_solution_is_searched_to_the_end() {
    let solver = load(DEAD_END).unwrap();
    assert!(solver.get_next_square_to_assign().is_some());
    assert!(search(solver).is_none());
}

#[test]
fn search_returns_a_solved_board_as_it_is() {
    let solver = load(SOLUTION_17).unwrap();
    let found = search(solver).unwrap();
    assert_eq!(found.board, solver.board);
    assert_eq!(found.possible_rows, solver.possible_rows);
    assert_eq!(found.possible_cols, solver.possible_cols);
    assert_eq!(found.possible_blocks, solver.possible_blocks);
    assert_eq!(found.next_square_candidate, solver.next_square_candidate);
    assert_eq!(found.render(), SOLUTION_17);
}

#[test]
fn search_returns_a_propagated_board_with_its_cached_cell() {
    let mut puzzle = String::from(SOLUTION_17);
    puzzle.replace_range(40..41, "0");
    let solver = load(&puzzle).unwrap();
    let found = search(solver).unwrap();
    assert_eq!(found.board, solver.board);
    assert_eq!(found.next_square_candidate, solver.next_square_candidate);
}

#[test]
fn cached_cell_after_set_up_has_at_most_two_candidates() {
    let solver = load(HARD).unwrap();
    let (x, y) = solver.next_square_candidate.unwrap();
    assert!(solver.board[x][y].count_ones() <= 2);
    assert_eq!((x, y), (6, 7));
}

#[test]
fn clues_may_be_assigned_in_any_order() {
    let forward = load(HARD).unwrap();
    let mut backward = Solver::new();
    for index in (0..81).rev() {
        let digit = HARD.as_bytes()[index] - b'0';
        if digit > 0 {
            backward.set_digit(index % 9, index / 9, (digit - 1) as usize).unwrap();
        }
    }
    assert_eq!(forward.board, backward.board);
    assert_eq!(forward.possible_rows, backward.possible_rows);
    assert_eq!(forward.possible_cols, backward.possible_cols);
    assert_eq!(forward.possible_blocks, backward.possible_blocks);
}

#[test]
fn solved_rejects_open_and_conflicting_boards() {
    assert!(!Solver::new().solved());
    assert!(!load(HARD).unwrap().solved());
    let mut swapped = search(load(HARD).unwrap()).unwrap();
    let left = swapped.board[0][0];
    swapped.board[0][0] = swapped.board[1][0];
    swapped.board[1][0] = left;
    assert!(!swapped.solved());
    let mut doubled = search(load(HARD).unwrap()).unwrap();
    doubled.board[8][8] = doubled.board[7][8];
    assert!(!doubled.solved());
    let mut stray = search(load(HARD).unwrap()).unwrap();
    stray.board[4][4] = 1 << 12;
    assert!(!stray.solved());
}

#[test]
fn render_marks_open_cells() {
    let mut solver = Solver::new();
    solver.set_digit(0, 0, 8).unwrap();
    solver.set_digit(8, 8, 0).unwrap();
    let text = solver.render();
    assert_eq!(text.len(), 81);
    assert_eq!(&text[0..1], "9");
    assert_eq!(&text[80..81], "1");
    assert_eq!(&text[1..80], "x".repeat(79));
    assert_eq!(solver.resolved_digit(0, 0), Some(9));
    assert_eq!(solver.resolved_digit(1, 0), None);
}

#[test]
fn render_reads_row_by_row() {
    let mut solver = Solver::new();
    solver.set_digit(3, 0, 1).unwrap();
    let text = solver.render();
    assert_eq!(&text[3..4], "2");
    assert_eq!(&text[27..28], "x");
}
