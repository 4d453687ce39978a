use ukodus::board::{Board, BoardError};
use ukodus::UnicodeBox;

const CLUES_17: &str =
    "000075400000000008080190000300001060000000034000068170204000603900000020530200000";

#[test]
fn board_is_read_row_by_row() {
    let board = Board::parse(CLUES_17).unwrap();
    let squares = board.squares();
    assert_eq!(squares[0], [0, 0, 0, 0, 7, 5, 4, 0, 0]);
    assert_eq!(squares[1], [0, 0, 0, 0, 0, 0, 0, 0, 8]);
    assert_eq!(squares[8], [5, 3, 0, 2, 0, 0, 0, 0, 0]);
    assert_eq!(squares[2][1], 8);
    assert_eq!(squares[1][2], 0);
}

#[test]
fn try_from_reads_what_parse_reads() {
    let tried = Board::try_from(CLUES_17).unwrap();
    let parsed = Board::parse(CLUES_17).unwrap();
    assert!(tried == parsed);
    assert_eq!(
        Board::try_from("12").err(),
        Some(BoardError::InvalidLength(2))
    );
}

#[test]
fn text_of_another_length_is_refused() {
    assert_eq!(Board::parse("").err(), Some(BoardError::InvalidLength(0)));
    assert_eq!(
        Board::parse(&"1".repeat(80)).err(),
        Some(BoardError::InvalidLength(80))
    );
    assert_eq!(
        Board::parse(&"1".repeat(82)).err(),
        Some(BoardError::InvalidLength(82))
    );
}

#[test]
fn length_is_counted_in_characters() {
    let text = "\u{e9}".repeat(81);
    assert_eq!(
        Board::parse(&text).err(),
        Some(BoardError::InvalidCell { index: 0, cell: '\u{e9}' })
    );
}

#[test]
fn character_that_is_no_digit_is_refused() {
    let mut text = String::from(CLUES_17);
    text.replace_range(13..14, ".");
    assert_eq!(
        Board::parse(&text).err(),
        Some(BoardError::InvalidCell { index: 13, cell: '.' })
    );
    text.replace_range(5..6, "x");
    assert_eq!(
        Board::parse(&text).err(),
        Some(BoardError::InvalidCell { index: 5, cell: 'x' })
    );
}

#[test]
fn frame_pieces_are_drawn_with_box_characters() {
    assert_eq!(UnicodeBox::Top.render(), "╭───────────╮");
    assert_eq!(UnicodeBox::Bottom.render(), "╰───────────╯");
    assert_eq!(UnicodeBox::Vertical.render(), "│");
    assert_eq!(UnicodeBox::Horizontal.render(), "│───┼───┼───│");
}

#[test]
fn frame_pieces_are_appended() {
    let mut text = String::from("ab");
    UnicodeBox::Vertical.render_onto(&mut text);
    UnicodeBox::Top.render_onto(&mut text);
    assert_eq!(text, "ab│╭───────────╮");
}

#[test]
fn empty_board_is_drawn_in_its_frame() {
    let board = Board::parse(&"0".repeat(81)).unwrap();
    let expected = [
        "╭───────────╮",
        "│   │   │   │",
        "│   │   │   │",
        "│   │   │   │",
        "│───┼───┼───│",
        "│   │   │   │",
        "│   │   │   │",
        "│   │   │   │",
        "│   │   │   │",
        "│───┼───┼───│",
        "│   │   │   │",
        "│   │   │   │",
        "╰───────────╯",
    ]
    .join("\n");
    assert_eq!(board.render(), expected);
}

#[test]
fn digits_are_drawn_in_green() {
    let mut text = "0".repeat(81);
    text.replace_range(0..1, "5");
    text.replace_range(17..18, "9");
    let board = Board::parse(&text).unwrap();
    let expected = [
        "╭───────────╮",
        "│\u{1b}[32m5\u{1b}[39m  │   │   │",
        "│   │   │  \u{1b}[32m9\u{1b}[39m│",
        "│   │   │   │",
        "│───┼───┼───│",
        "│   │   │   │",
        "│   │   │   │",
        "│   │   │   │",
        "│   │   │   │",
        "│───┼───┼───│",
        "│   │   │   │",
        "│   │   │   │",
        "╰───────────╯",
    ]
    .join("\n");
    assert_eq!(board.render(), expected);
}
