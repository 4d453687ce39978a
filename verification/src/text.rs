//! Building text character by character.

use vstd::prelude::*;
use vstd::string::StrSliceExecFns;

verus! {

/// `String::push` of the standard library: appends the character to the
/// end of the string.
pub assume_specification[ String::push ](text: &mut String, c: char)
    ensures
        final(text)@ == old(text)@.push(c),
;

/// `n` times the character `c`.
pub open spec fn repeated(c: char, n: nat) -> Seq<char> {
    Seq::new(n, |i: int| c)
}

/// Appends `c` to `text`, `n` times over.
pub fn push_repeated(text: &mut String, c: char, n: usize)
    ensures
        final(text)@ == old(text)@ + repeated(c, n as nat),
{
    let mut i: usize = 0;
    assert(text@ =~= old(text)@ + repeated(c, 0));
    while i < n
        invariant
            i <= n,
            text@ == old(text)@ + repeated(c, i as nat),
        decreases n - i,
    {
        text.push(c);
        i += 1;
        assert(text@ =~= old(text)@ + repeated(c, i as nat));
    }
}

/// Appends the characters of `more` to `text`.
pub fn push_text(text: &mut String, more: &String)
    ensures
        final(text)@ == old(text)@ + more@,
{
    let n = more.as_str().unicode_len();
    let mut i: usize = 0;
    assert(text@ =~= old(text)@ + more@.subrange(0, 0));
    while i < n
        invariant
            i <= n,
            n == more@.len(),
            text@ == old(text)@ + more@.subrange(0, i as int),
        decreases n - i,
    {
        text.push(more.as_str().get_char(i));
        i += 1;
        assert(text@ =~= old(text)@ + more@.subrange(0, i as int));
    }
    assert(more@.subrange(0, n as int) =~= more@);
}

/// The character that prints digit `d`.
pub open spec fn digit_char(d: int) -> char {
    (d + 48) as char
}

/// The value of a decimal digit, or `None` for any other character.
pub open spec fn digit_value(c: char) -> Option<int> {
    if '0' <= c <= '9' {
        Some(c as int - 48)
    } else {
        None
    }
}

/// The character that prints the digit `d`.
pub fn digit_to_char(d: u8) -> (c: char)
    requires
        d <= 9,
    ensures
        c == digit_char(d as int),
        digit_value(c) == Some(d as int),
{
    (d + 48) as char
}

/// The value of `c` if it is a decimal digit.
pub fn char_to_digit(c: char) -> (d: Option<u8>)
    ensures
        d matches Some(v) ==> digit_value(c) == Some(v as int) && v <= 9,
        d is None ==> digit_value(c) is None,
{
    if c >= '0' && c <= '9' {
        Some(((c as u32) - 48) as u8)
    } else {
        None
    }
}

} // verus!
