//! The packed puzzle file: a 32-bit count of puzzles, then for each puzzle
//! its length in bits as 16 bits and its 81 cells, an empty cell as one
//! `0` bit and a filled one as a `1` bit followed by the digit in 4 bits.
//! Everything is big-endian.

use vstd::prelude::*;
use bitstream_io::{BigEndian, BitRead, BitReader};
use std::io::Cursor;
use crate::text::{digit_char, digit_to_char};

verus! {

/// A big-endian bit reader of bitstream-io over the bytes of a file.
#[verifier::external_body]
pub struct BitSource {
    reader: BitReader<Cursor<Vec<u8>>, BigEndian>,
}

/// The bits that a reader has not handed out yet, the next one first.
pub uninterp spec fn bits_left(reader: BitSource) -> Seq<bool>;

/// The bits of `bytes`, the most significant bit of each byte first.
pub open spec fn bits_of(bytes: Seq<u8>) -> Seq<bool> {
    Seq::new(8 * bytes.len(), |i: int| (bytes[i / 8] >> ((7 - i % 8) as u8)) & 1 == 1)
}

/// The number that `bits` spell, the most significant bit first.
pub open spec fn big_endian(bits: Seq<bool>) -> nat
    decreases bits.len(),
{
    if bits.len() == 0 {
        0
    } else {
        2 * big_endian(bits.drop_last()) + if bits.last() {
            1nat
        } else {
            0nat
        }
    }
}

/// `BitReader::endian` of bitstream-io with `BigEndian` on a slice of
/// bytes: a reader that has all the bits of the slice before it, the most
/// significant bit of each byte first.
#[verifier::external_body]
fn open(data: &[u8]) -> (reader: BitSource)
    ensures
        bits_left(reader) == bits_of(data@),
{
    BitSource { reader: BitReader::endian(Cursor::new(data.to_vec()), BigEndian) }
}

/// `BitRead::read` of bitstream-io into a `u32`: hands out the next `bits`
/// bits as a number, the most significant first, or fails where fewer
/// bits are left, and then says nothing of the reader.
#[verifier::external_body]
fn read_bits(reader: &mut BitSource, bits: u32) -> (res: Option<u32>)
    requires
        bits <= 32,
    ensures
        match res {
            Some(value) => {
                &&& bits <= bits_left(*old(reader)).len()
                &&& value == big_endian(bits_left(*old(reader)).take(bits as int))
                &&& bits_left(*final(reader)) == bits_left(*old(reader)).skip(bits as int)
            },
            None => bits_left(*old(reader)).len() < bits,
        },
{
    reader.reader.read::<u32>(bits).ok()
}

/// `BitRead::skip` of bitstream-io: passes over the next `bits` bits, or
/// fails where fewer bits are left, and then says nothing of the reader.
#[verifier::external_body]
fn skip_bits(reader: &mut BitSource, bits: u32) -> (done: bool)
    ensures
        done ==> bits <= bits_left(*old(reader)).len() && bits_left(*final(reader)) == bits_left(
            *old(reader),
        ).skip(bits as int),
        !done ==> bits_left(*old(reader)).len() < bits,
{
    reader.reader.skip(bits).is_ok()
}

/// Why a puzzle could not be read from a file.
#[derive(Clone, Copy, Debug, PartialEq, Eq)]
pub enum PuzzleFileError {
    /// The file ends before the puzzle does.
    Truncated,
    /// A filled cell holds this number, which is no digit.
    InvalidDigit(u32),
}

/// A puzzle as the file holds it.
#[derive(Debug, PartialEq, Eq)]
pub struct PackedPuzzle {
    /// The length of the puzzle in bits, as the file states it.
    pub length: u16,
    /// The 81 cells: `.` for an empty cell, its digit for a filled one.
    pub representation: String,
}

/// What is left of `bits` after `k` puzzles, each with its length before
/// it, if there are as many.
pub open spec fn after_puzzles(bits: Seq<bool>, k: nat) -> Option<Seq<bool>>
    decreases k,
{
    if k == 0 {
        Some(bits)
    } else {
        match after_puzzles(bits, (k - 1) as nat) {
            Some(rest) => if rest.len() < 16 || rest.len() - 16 < big_endian(rest.take(16)) {
                None
            } else {
                Some(rest.skip(16).skip(big_endian(rest.take(16)) as int))
            },
            None => None,
        }
    }
}

/// `text` before whatever `rest` reads as.
pub open spec fn after_text(text: Seq<char>, rest: Result<Seq<char>, PuzzleFileError>) -> Result<
    Seq<char>,
    PuzzleFileError,
> {
    match rest {
        Ok(more) => Ok(text + more),
        Err(e) => Err(e),
    }
}

/// The next `n` cells of `bits` as text: `.` for an empty cell, its digit
/// for a filled one.
pub open spec fn cells_text(bits: Seq<bool>, n: nat) -> Result<Seq<char>, PuzzleFileError>
    decreases n,
{
    if n == 0 {
        Ok(Seq::empty())
    } else if bits.len() < 1 {
        Err(PuzzleFileError::Truncated)
    } else if !bits[0] {
        after_text(seq!['.'], cells_text(bits.skip(1), (n - 1) as nat))
    } else if bits.len() < 5 {
        Err(PuzzleFileError::Truncated)
    } else if big_endian(bits.skip(1).take(4)) > 9 {
        Err(PuzzleFileError::InvalidDigit(big_endian(bits.skip(1).take(4)) as u32))
    } else {
        after_text(
            seq![digit_char(big_endian(bits.skip(1).take(4)) as int)],
            cells_text(bits.skip(1).skip(4), (n - 1) as nat),
        )
    }
}

/// The number of puzzles that the file says it holds.
pub open spec fn counted(bits: Seq<bool>) -> Option<u32> {
    if bits.len() < 32 {
        None
    } else {
        Some(big_endian(bits.take(32)) as u32)
    }
}

/// How many puzzles of a file stand before puzzle `puzzle_no`, the first
/// being number 1 (and 0 standing for the first too).
pub open spec fn puzzles_before(puzzle_no: u32) -> nat {
    if puzzle_no == 0 {
        0
    } else {
        (puzzle_no - 1) as nat
    }
}

/// Puzzle `puzzle_no` of a file: the length it is stated with, and its text.
pub open spec fn puzzle_text(bits: Seq<bool>, puzzle_no: u32) -> Result<
    (u16, Seq<char>),
    PuzzleFileError,
> {
    if bits.len() < 32 {
        Err(PuzzleFileError::Truncated)
    } else {
        match after_puzzles(bits.skip(32), puzzles_before(puzzle_no)) {
            Some(rest) => if rest.len() < 16 {
                Err(PuzzleFileError::Truncated)
            } else {
                match cells_text(rest.skip(16), 81) {
                    Ok(text) => Ok((big_endian(rest.take(16)) as u16, text)),
                    Err(e) => Err(e),
                }
            },
            None => Err(PuzzleFileError::Truncated),
        }
    }
}

/// What reading a puzzle gives, with the text taken as its characters.
pub open spec fn read_outcome(res: Result<PackedPuzzle, PuzzleFileError>) -> Result<
    (u16, Seq<char>),
    PuzzleFileError,
> {
    match res {
        Ok(puzzle) => Ok((puzzle.length, puzzle.representation@)),
        Err(e) => Err(e),
    }
}

/// The number of puzzles that the file says it holds, or `None` where the
/// file is too short to say.
pub fn puzzle_count(data: &[u8]) -> (count: Option<u32>)
    ensures
        count == counted(bits_of(data@)),
{
    let mut reader = open(data);
    read_bits(&mut reader, 32)
}

/// Reads puzzle `puzzle_no` of a file, the first being number 1: passes
/// over the puzzles before it by their stated lengths, then reads its 81
/// cells.
pub fn read_puzzle(data: &[u8], puzzle_no: u32) -> (res: Result<PackedPuzzle, PuzzleFileError>)
    ensures
        read_outcome(res) == puzzle_text(bits_of(data@), puzzle_no),
{
    let ghost goal = puzzle_text(bits_of(data@), puzzle_no);
    let ghost target = puzzles_before(puzzle_no);
    let mut reader = open(data);
    if read_bits(&mut reader, 32).is_none() {
        return Err(PuzzleFileError::Truncated);
    }
    let ghost body = bits_left(reader);
    let mut passed: u32 = 1;
    while passed < puzzle_no
        invariant
            goal == puzzle_text(bits_of(data@), puzzle_no),
            1 <= passed,
            passed - 1 <= target,
            target == puzzles_before(puzzle_no),
            after_puzzles(body, (passed - 1) as nat) == Some(bits_left(reader)),
            body == bits_of(data@).skip(32),
            bits_of(data@).len() >= 32,
        decreases puzzle_no - passed,
    {
        let ghost rest = bits_left(reader);
        assert(after_puzzles(body, passed as nat) == if rest.len() < 16 || rest.len() - 16
            < big_endian(rest.take(16)) {
            None
        } else {
            Some(rest.skip(16).skip(big_endian(rest.take(16)) as int))
        });
        let skip_length = match read_bits(&mut reader, 16) {
            Some(length) => length,
            None => {
                proof {
                    lemma_no_more_puzzles(body, (passed - 1) as nat, target);
                }
                return Err(PuzzleFileError::Truncated);
            },
        };
        if !skip_bits(&mut reader, skip_length) {
            proof {
                lemma_no_more_puzzles(body, (passed - 1) as nat, target);
            }
            return Err(PuzzleFileError::Truncated);
        }
        passed += 1;
    }
    let ghost record = bits_left(reader);
    let length = match read_bits(&mut reader, 16) {
        Some(length) => {
            proof {
                lemma_big_endian_bound(record.take(16));
            }
            length as u16
        },
        None => {
            return Err(PuzzleFileError::Truncated);
        },
    };
    let mut representation = String::new();
    let mut cell: usize = 0;
    proof {
        lemma_after_nothing(cells_text(bits_left(reader), 81));
    }
    while cell < 81
        invariant
            cell <= 81,
            goal == puzzle_text(bits_of(data@), puzzle_no),
            goal == match cells_text(record.skip(16), 81) {
                Ok(text) => Ok((length, text)),
                Err(e) => Err(e),
            },
            cells_text(record.skip(16), 81) == after_text(
                representation@,
                cells_text(bits_left(reader), (81 - cell) as nat),
            ),
        decreases 81 - cell,
    {
        let ghost before = representation@;
        let ghost bits = bits_left(reader);
        let filled = match read_bits(&mut reader, 1) {
            Some(filled) => filled,
            None => {
                return Err(PuzzleFileError::Truncated);
            },
        };
        proof {
            lemma_one_bit(bits.take(1));
            assert(bits.take(1)[0] == bits[0]);
            reveal_with_fuel(cells_text, 2);
        }
        if filled == 0 {
            representation.push('.');
            proof {
                lemma_after_text(before, seq!['.'], cells_text(bits.skip(1), (80 - cell) as nat));
                assert(representation@ =~= before + seq!['.']);
            }
        } else {
            let num = match read_bits(&mut reader, 4) {
                Some(num) => num,
                None => {
                    return Err(PuzzleFileError::Truncated);
                },
            };
            if num > 9 {
                return Err(PuzzleFileError::InvalidDigit(num));
            }
            representation.push(digit_to_char(num as u8));
            proof {
                lemma_after_text(
                    before,
                    seq![digit_char(num as int)],
                    cells_text(bits.skip(1).skip(4), (80 - cell) as nat),
                );
                assert(representation@ =~= before + seq![digit_char(num as int)]);
            }
        }
        cell += 1;
    }
    proof {
        assert(representation@ + Seq::<char>::empty() =~= representation@);
    }
    Ok(PackedPuzzle { length, representation })
}

/// Bits spell a number below two to the power of their count.
pub proof fn lemma_big_endian_bound(bits: Seq<bool>)
    ensures
        big_endian(bits) < vstd::arithmetic::power2::pow2(bits.len()),
    decreases bits.len(),
{
    vstd::arithmetic::power2::lemma2_to64();
    if bits.len() > 0 {
        lemma_big_endian_bound(bits.drop_last());
        vstd::arithmetic::power2::lemma_pow2_unfold(bits.len());
    } else {
        assert(vstd::arithmetic::power2::pow2(0) == 1);
    }
}

/// Nothing put before a reading leaves the reading.
pub proof fn lemma_after_nothing(rest: Result<Seq<char>, PuzzleFileError>)
    ensures
        after_text(Seq::empty(), rest) == rest,
{
    match rest {
        Ok(more) => assert(Seq::<char>::empty() + more =~= more),
        Err(_) => {},
    }
}

/// One bit spells 1 when it is set, and 0 when it is not.
pub proof fn lemma_one_bit(bits: Seq<bool>)
    requires
        bits.len() == 1,
    ensures
        big_endian(bits) == if bits[0] {
            1nat
        } else {
            0nat
        },
{
    assert(big_endian(bits.drop_last()) == 0);
}

/// Text put before text put before a reading.
pub proof fn lemma_after_text(
    head: Seq<char>,
    next: Seq<char>,
    rest: Result<Seq<char>, PuzzleFileError>,
)
    ensures
        after_text(head, after_text(next, rest)) == after_text(head + next, rest),
{
    match rest {
        Ok(more) => assert(head + (next + more) =~= (head + next) + more),
        Err(_) => {},
    }
}

/// Where a file ends within its first `k + 1` puzzles, it holds no more
/// than `k` of them.
pub proof fn lemma_no_more_puzzles(bits: Seq<bool>, k: nat, n: nat)
    requires
        k < n,
        after_puzzles(bits, k + 1) is None,
    ensures
        after_puzzles(bits, n) is None,
    decreases n,
{
    if n > k + 1 {
        lemma_no_more_puzzles(bits, k, (n - 1) as nat);
    }
}

} // verus!
