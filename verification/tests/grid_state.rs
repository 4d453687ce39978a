use ukodus::board::BoardError;
use ukodus::gui::gridcell::{digit_typed, shade};
use ukodus::gui::{
    Arrow, Board, CellEvent, CellPosition, CellShade, CellValue, FocusChange, Keys,
};

const CLUES_17: &str =
    "000075400000000008080190000300001060000000034000068170204000603900000020530200000";

fn at(x: u16, y: u16) -> CellPosition {
    CellPosition { x, y }
}

fn moved(change: FocusChange) -> Option<(u16, u16)> {
    match change {
        FocusChange::MoveTo(to) => Some((to.x, to.y)),
        _ => None,
    }
}

#[test]
fn cell_is_fixed_when_the_puzzle_gives_it() {
    assert!(CellValue::Fixed(3).is_fixed());
    assert!(!CellValue::Unfixed(Some(3)).is_fixed());
    assert!(!CellValue::Unfixed(None).is_fixed());
}

#[test]
fn cell_is_empty_by_default() {
    assert_eq!(CellValue::default(), CellValue::Unfixed(None));
}

#[test]
fn cell_gives_its_number() {
    assert_eq!(CellValue::Fixed(4).value(), Some(4));
    assert_eq!(CellValue::Unfixed(Some(9)).value(), Some(9));
    assert_eq!(CellValue::Unfixed(None).value(), None);
    assert_eq!(Option::<u16>::from(CellValue::Fixed(4)), Some(4));
    assert_eq!(Option::<u16>::from(CellValue::Unfixed(Some(2))), Some(2));
    assert_eq!(Option::<u16>::from(CellValue::Unfixed(None)), None);
}

#[test]
fn cell_shows_its_number_or_nothing() {
    assert_eq!(CellValue::Fixed(7).text(), "7");
    assert_eq!(CellValue::Unfixed(Some(1)).text(), "1");
    assert_eq!(CellValue::Unfixed(None).text(), "");
    assert_eq!(CellValue::Fixed(0).text(), "0");
    assert_eq!(CellValue::Fixed(10).text(), "10");
    assert_eq!(CellValue::Unfixed(Some(65535)).text(), "65535");
    assert_eq!(CellValue::Fixed(4096).text(), "4096");
}

#[test]
fn board_is_empty_by_default() {
    let board = Board::default();
    for x in 0..9 {
        for y in 0..9 {
            assert_eq!(board.cells[x][y], CellValue::Unfixed(None));
        }
    }
}

#[test]
fn board_is_read_with_the_column_first() {
    let board = Board::parse(CLUES_17).unwrap();
    assert_eq!(board.cells[4][0], CellValue::Fixed(7));
    assert_eq!(board.cells[5][0], CellValue::Fixed(5));
    assert_eq!(board.cells[8][1], CellValue::Fixed(8));
    assert_eq!(board.cells[0][8], CellValue::Fixed(5));
    assert_eq!(board.cells[0][4], CellValue::Unfixed(None));
    assert_eq!(board.cells[0][0], CellValue::Unfixed(None));
}

#[test]
fn try_from_reads_the_board_that_parse_reads() {
    let tried = Board::try_from(CLUES_17).unwrap();
    let parsed = Board::parse(CLUES_17).unwrap();
    assert_eq!(tried.cells, parsed.cells);
    assert_eq!(Board::try_from("").err(), Some(BoardError::InvalidLength(0)));
}

#[test]
fn board_text_must_be_81_digits() {
    assert_eq!(Board::parse("123").err(), Some(BoardError::InvalidLength(3)));
    let mut text = String::from(CLUES_17);
    text.replace_range(80..81, "?");
    assert_eq!(
        Board::parse(&text).err(),
        Some(BoardError::InvalidCell { index: 80, cell: '?' })
    );
}

#[test]
fn position_counts_row_by_row() {
    assert_eq!(at(0, 0).to_absolute(), 0);
    assert_eq!(at(8, 0).to_absolute(), 8);
    assert_eq!(at(0, 1).to_absolute(), 9);
    assert_eq!(at(4, 7).to_absolute(), 67);
    assert_eq!(at(8, 8).to_absolute(), 80);
}

#[test]
fn focus_moves_to_the_nearest_free_cell() {
    let board = Board::parse(CLUES_17).unwrap();
    let to = board.shift_focus(at(3, 0), Arrow::Right);
    assert_eq!((to.x, to.y), (7, 0));
    let to = board.shift_focus(at(7, 0), Arrow::Left);
    assert_eq!((to.x, to.y), (3, 0));
    let to = board.shift_focus(at(0, 4), Arrow::Up);
    assert_eq!((to.x, to.y), (0, 2));
    let to = board.shift_focus(at(0, 2), Arrow::Down);
    assert_eq!((to.x, to.y), (0, 4));
    let to = board.shift_focus(at(1, 1), Arrow::Right);
    assert_eq!((to.x, to.y), (2, 1));
    let to = board.shift_focus(at(1, 1), Arrow::Down);
    assert_eq!((to.x, to.y), (1, 3));
}

#[test]
fn focus_stays_where_no_free_cell_lies_ahead() {
    let board = Board::parse(CLUES_17).unwrap();
    let to = board.shift_focus(at(0, 5), Arrow::Down);
    assert_eq!((to.x, to.y), (0, 5));
    let to = board.shift_focus(at(0, 0), Arrow::Left);
    assert_eq!((to.x, to.y), (0, 0));
    let to = board.shift_focus(at(0, 0), Arrow::Up);
    assert_eq!((to.x, to.y), (0, 0));
    let to = board.shift_focus(at(8, 0), Arrow::Right);
    assert_eq!((to.x, to.y), (8, 0));
    let to = board.shift_focus(at(7, 1), Arrow::Right);
    assert_eq!((to.x, to.y), (7, 1));
}

#[test]
fn last_typed_character_is_the_digit() {
    assert_eq!(digit_typed("5"), Some(5));
    assert_eq!(digit_typed("a7"), Some(7));
    assert_eq!(digit_typed("9"), Some(9));
    assert_eq!(digit_typed("1"), Some(1));
    assert_eq!(digit_typed("0"), None);
    assert_eq!(digit_typed("7a"), None);
    assert_eq!(digit_typed(""), None);
    assert_eq!(digit_typed("\u{663}"), None);
}

#[test]
fn typed_digit_is_entered() {
    let mut board = Board::parse(CLUES_17).unwrap();
    let change = board.handle_event(at(0, 0), &CellEvent::Character(String::from("6")), true, true);
    assert!(matches!(change, FocusChange::Keep));
    assert_eq!(board.cells[0][0], CellValue::Unfixed(Some(6)));
    board.handle_event(at(0, 0), &CellEvent::Character(String::from("0")), true, true);
    assert_eq!(board.cells[0][0], CellValue::Unfixed(Some(6)));
    board.handle_event(at(0, 0), &CellEvent::Character(String::from("q")), true, true);
    assert_eq!(board.cells[0][0], CellValue::Unfixed(Some(6)));
    board.handle_event(at(0, 0), &CellEvent::Character(String::from("2")), false, false);
    assert_eq!(board.cells[0][0], CellValue::Unfixed(Some(2)));
    assert_eq!(board.cells[1][0], CellValue::Unfixed(None));
    assert_eq!(board.cells[4][0], CellValue::Fixed(7));
}

#[test]
fn erase_empties_the_cell() {
    let mut board = Board::parse(CLUES_17).unwrap();
    board.handle_event(at(2, 2), &CellEvent::Character(String::from("6")), true, true);
    let change = board.handle_event(at(2, 2), &CellEvent::Erase, true, true);
    assert!(matches!(change, FocusChange::Keep));
    assert_eq!(board.cells[2][2], CellValue::Unfixed(None));
}

#[test]
fn fixed_cell_takes_no_event() {
    let mut board = Board::parse(CLUES_17).unwrap();
    let events = [
        CellEvent::Character(String::from("6")),
        CellEvent::Erase,
        CellEvent::Arrow(Arrow::Left),
        CellEvent::Click,
        CellEvent::Other,
    ];
    for event in events.iter() {
        let change = board.handle_event(at(4, 0), event, true, true);
        assert!(matches!(change, FocusChange::Keep));
        assert_eq!(board.cells[4][0], CellValue::Fixed(7));
    }
}

#[test]
fn arrow_moves_the_focus_of_the_focused_cell_only() {
    let mut board = Board::parse(CLUES_17).unwrap();
    let change = board.handle_event(at(3, 0), &CellEvent::Arrow(Arrow::Right), true, false);
    assert_eq!(moved(change), Some((7, 0)));
    let change = board.handle_event(at(3, 0), &CellEvent::Arrow(Arrow::Right), false, true);
    assert!(matches!(change, FocusChange::Keep));
    let change = board.handle_event(at(0, 0), &CellEvent::Arrow(Arrow::Up), true, true);
    assert_eq!(moved(change), Some((0, 0)));
    assert_eq!(board.cells[3][0], CellValue::Unfixed(None));
}

#[test]
fn click_toggles_the_focus() {
    let mut board = Board::parse(CLUES_17).unwrap();
    let change = board.handle_event(at(0, 0), &CellEvent::Click, false, false);
    assert!(matches!(change, FocusChange::Request));
    let change = board.handle_event(at(0, 0), &CellEvent::Click, false, true);
    assert!(matches!(change, FocusChange::Resign));
    let change = board.handle_event(at(0, 0), &CellEvent::Other, true, true);
    assert!(matches!(change, FocusChange::Keep));
}

#[test]
fn shade_follows_the_cell_and_the_focus() {
    assert_eq!(shade(&CellValue::Fixed(1), false), CellShade::Fixed);
    assert_eq!(shade(&CellValue::Unfixed(None), true), CellShade::Focused);
    assert_eq!(shade(&CellValue::Unfixed(Some(3)), true), CellShade::Focused);
    assert_eq!(shade(&CellValue::Unfixed(Some(3)), false), CellShade::Plain);
}

#[test]
fn theme_entries_have_their_names() {
    assert_eq!(Keys::CELL_BORDER_WIDTH, "dev.config.gui.cell-border-width");
    assert_eq!(Keys::THEME_BG, "dev.config.theme.bg");
    assert_eq!(Keys::THEME_GRID_BG, "dev.config.theme.grid-bg");
    assert_eq!(Keys::THEME_CELL_FG, "dev.config.theme.cell-fg");
    assert_eq!(Keys::THEME_CELL_BG, "dev.config.theme.cell-bg");
    assert_eq!(Keys::THEME_CELL_BG_FOCUSED, "dev.config.theme.cell-bg-focused");
    assert_eq!(Keys::THEME_CELL_BG_FIXED, "dev.config.theme.cell-bg-fixed");
    assert_eq!(Keys::THEME_CELL_BORDER, "dev.config.theme.cell-border");
}
