use bitstream_io::{BigEndian, BitWrite, BitWriter};
use ukodus::puzzle_file::{puzzle_count, read_puzzle, PackedPuzzle, PuzzleFileError};

const FIRST: &str =
    "....754.........8.8.19....3....1.6........34....6817.2.4...6.39......2.53.2......";
const SECOND: &str =
    "4.....8.5.3..........7......2.....6.....8.4......1.......6.3.7.5..2.....1.4......";

fn text_of(bytes: &[u8], puzzle_no: u32) -> Result<String, PuzzleFileError> {
    read_puzzle(bytes, puzzle_no).map(|puzzle| puzzle.representation)
}

fn pack(puzzles: &[&str]) -> Vec<u8> {
    let mut bytes = Vec::new();
    {
        let mut writer = BitWriter::endian(&mut bytes, BigEndian);
        writer.write(32, puzzles.len() as u32).unwrap();
        for puzzle in puzzles {
            let filled = puzzle.chars().filter(|c| *c != '.').count();
            writer.write(16, (puzzle.chars().count() + 4 * filled) as u32).unwrap();
            for cell in puzzle.chars() {
                match cell.to_digit(16) {
                    Some(digit) => {
                        writer.write_bit(true).unwrap();
                        writer.write(4, digit).unwrap();
                    }
                    None => writer.write_bit(false).unwrap(),
                }
            }
        }
        writer.byte_align().unwrap();
    }
    bytes
}

#[test]
fn count_is_the_first_four_bytes() {
    assert_eq!(puzzle_count(&[0, 0, 0, 7]), Some(7));
    assert_eq!(puzzle_count(&[1, 2, 3, 4, 5]), Some(0x01020304));
    assert_eq!(puzzle_count(&[0xff, 0xff, 0xff, 0xff]), Some(u32::MAX));
    assert_eq!(puzzle_count(&pack(&[FIRST, SECOND])), Some(2));
}

#[test]
fn count_needs_four_bytes() {
    assert_eq!(puzzle_count(&[]), None);
    assert_eq!(puzzle_count(&[0, 0, 1]), None);
}

#[test]
fn empty_puzzle_is_81_zero_bits() {
    let mut bytes = vec![0, 0, 0, 1, 0, 81];
    bytes.extend_from_slice(&[0; 11]);
    assert_eq!(text_of(&bytes, 1), Ok(".".repeat(81)));
}

#[test]
fn filled_cell_is_a_set_bit_and_four_bits_of_digit() {
    let mut bytes = vec![0, 0, 0, 1, 0, 85, 0b1010_1000];
    bytes.extend_from_slice(&[0; 10]);
    let mut expected = String::from("5");
    expected.push_str(&".".repeat(80));
    assert_eq!(text_of(&bytes, 1), Ok(expected));
    let mut bytes = vec![0, 0, 0, 1, 0, 85, 0b0110_0100];
    bytes.extend_from_slice(&[0; 10]);
    let mut expected = String::from(".9");
    expected.push_str(&".".repeat(79));
    assert_eq!(text_of(&bytes, 1), Ok(expected));
}

#[test]
fn zero_is_a_digit_of_the_file() {
    let mut bytes = vec![0, 0, 0, 1, 0, 85, 0b1000_0000];
    bytes.extend_from_slice(&[0; 10]);
    let mut expected = String::from("0");
    expected.push_str(&".".repeat(80));
    assert_eq!(text_of(&bytes, 1), Ok(expected));
}

#[test]
fn puzzles_are_found_by_their_number() {
    let bytes = pack(&[FIRST, SECOND]);
    assert_eq!(text_of(&bytes, 1), Ok(String::from(FIRST)));
    assert_eq!(text_of(&bytes, 2), Ok(String::from(SECOND)));
    assert_eq!(text_of(&bytes, 0), Ok(String::from(FIRST)));
}

#[test]
fn puzzle_comes_with_its_stated_length() {
    let bytes = pack(&[FIRST, SECOND]);
    assert_eq!(
        read_puzzle(&bytes, 1),
        Ok(PackedPuzzle { length: 81 + 4 * 25, representation: String::from(FIRST) })
    );
    assert_eq!(read_puzzle(&bytes, 2).unwrap().length, 81 + 4 * 17);
    let mut bytes = vec![0, 0, 0, 1, 0xab, 0xcd];
    bytes.extend_from_slice(&[0; 11]);
    assert_eq!(
        read_puzzle(&bytes, 1),
        Ok(PackedPuzzle { length: 0xabcd, representation: ".".repeat(81) })
    );
}

#[test]
fn puzzle_beyond_the_end_is_truncated() {
    let bytes = pack(&[FIRST, SECOND]);
    assert_eq!(text_of(&bytes, 3), Err(PuzzleFileError::Truncated));
    assert_eq!(text_of(&bytes, 400), Err(PuzzleFileError::Truncated));
}

#[test]
fn file_that_ends_early_is_truncated() {
    let bytes = pack(&[FIRST, SECOND]);
    assert_eq!(text_of(&bytes[..3], 1), Err(PuzzleFileError::Truncated));
    assert_eq!(text_of(&bytes[..5], 1), Err(PuzzleFileError::Truncated));
    assert_eq!(text_of(&bytes[..6], 1), Err(PuzzleFileError::Truncated));
    assert_eq!(text_of(&bytes[..20], 1), Err(PuzzleFileError::Truncated));
    assert_eq!(
        text_of(&bytes[..bytes.len() - 1], 2),
        Err(PuzzleFileError::Truncated)
    );
    assert_eq!(text_of(&bytes[..30], 2), Err(PuzzleFileError::Truncated));
}

#[test]
fn number_above_nine_is_no_digit() {
    let mut bytes = vec![0, 0, 0, 1, 0, 85, 0b1111_1000];
    bytes.extend_from_slice(&[0; 10]);
    assert_eq!(text_of(&bytes, 1), Err(PuzzleFileError::InvalidDigit(15)));
    let mut bytes = vec![0, 0, 0, 1, 0, 85, 0b0110_1000];
    bytes.extend_from_slice(&[0; 10]);
    assert_eq!(text_of(&bytes, 1), Err(PuzzleFileError::InvalidDigit(10)));
}

#[test]
fn length_before_a_puzzle_is_what_is_skipped() {
    let mut bytes = vec![0, 0, 0, 2, 0, 8, 0xff, 0, 81];
    bytes.extend_from_slice(&[0; 11]);
    assert_eq!(text_of(&bytes, 2), Ok(".".repeat(81)));
    assert_eq!(text_of(&bytes, 1), Err(PuzzleFileError::InvalidDigit(15)));
}
