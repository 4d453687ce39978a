//! How a colour of the theme is written in the settings.

use vstd::prelude::*;

verus! {

/// The character for one hexadecimal digit, in lower case.
pub open spec fn hex_char(d: int) -> char {
    if d < 10 {
        (d + 48) as char
    } else {
        (d + 87) as char
    }
}

/// The hexadecimal digits of `n`, without leading zeros.
pub open spec fn hex_text(n: nat) -> Seq<char>
    decreases n,
{
    if n < 16 {
        seq![hex_char(n as int)]
    } else {
        hex_text(n / 16).push(hex_char((n % 16) as int))
    }
}

/// What `color_text` writes for a colour.
pub open spec fn color_written(r: u8, g: u8, b: u8, a: u8) -> Seq<char> {
    seq!['0', 'x'] + hex_text(r as nat) + hex_text(g as nat) + hex_text(b as nat) + hex_text(
        a as nat,
    )
}

/// The character for one hexadecimal digit, in lower case.
pub fn hex_digit(d: u8) -> (c: char)
    requires
        d < 16,
    ensures
        c == hex_char(d as int),
{
    if d < 10 {
        (d + 48) as char
    } else {
        (d + 87) as char
    }
}

/// Appends the hexadecimal digits of `n`, without leading zeros.
pub fn push_hex(text: &mut String, n: u8)
    ensures
        final(text)@ == old(text)@ + hex_text(n as nat),
{
    if n >= 16 {
        text.push(hex_digit(n / 16));
    }
    text.push(hex_digit(n % 16));
    proof {
        reveal_with_fuel(hex_text, 2);
        assert(text@ =~= old(text)@ + hex_text(n as nat));
    }
}

/// A colour as the settings hold it: `0x`, then red, green, blue and
/// alpha in hexadecimal, each without leading zeros.
pub fn color_text(r: u8, g: u8, b: u8, a: u8) -> (text: String)
    ensures
        text@ == color_written(r, g, b, a),
{
    let mut text = String::new();
    text.push('0');
    text.push('x');
    push_hex(&mut text, r);
    push_hex(&mut text, g);
    push_hex(&mut text, b);
    push_hex(&mut text, a);
    assert(text@ =~= color_written(r, g, b, a));
    text
}

} // verus!
