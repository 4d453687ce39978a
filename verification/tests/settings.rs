use ukodus::config::{color_text, hex_digit};

#[test]
fn hex_digits_are_lower_case() {
    assert_eq!(hex_digit(0), '0');
    assert_eq!(hex_digit(9), '9');
    assert_eq!(hex_digit(10), 'a');
    assert_eq!(hex_digit(15), 'f');
}

#[test]
fn colour_is_written_in_hexadecimal() {
    assert_eq!(color_text(0x26, 0x27, 0x2b, 0xff), "0x26272bff");
    assert_eq!(color_text(0xd9, 0xe9, 0xff, 0xff), "0xd9e9ffff");
    assert_eq!(color_text(16, 255, 128, 171), "0x10ff80ab");
}

#[test]
fn small_components_are_written_without_leading_zeros() {
    assert_eq!(color_text(0, 0, 0, 255), "0x000ff");
    assert_eq!(color_text(1, 2, 3, 4), "0x1234");
    assert_eq!(color_text(15, 16, 0, 9), "0xf1009");
    assert_eq!(
        color_text(0, 10, 255, 1),
        format!("0x{:x}{:x}{:x}{:x}", 0, 10, 255, 1)
    );
}
