use ukodus::bits::{contains, digit_bit, lowest, ALL_DIGITS};

#[test]
fn all_digits_are_the_nine_low_bits() {
    assert_eq!(ALL_DIGITS, 0b1_1111_1111);
    assert_eq!(ALL_DIGITS.count_ones(), 9);
}

#[test]
fn digit_bit_sets_one_bit() {
    assert_eq!(digit_bit(0), 1);
    assert_eq!(digit_bit(4), 16);
    assert_eq!(digit_bit(8), 256);
    assert_eq!(digit_bit(15), 0x8000);
}

#[test]
fn contains_tests_one_bit() {
    assert!(contains(0b101, 0));
    assert!(!contains(0b101, 1));
    assert!(contains(0b101, 2));
    assert!(!contains(0, 7));
    assert!(contains(0x8000, 15));
}

#[test]
fn lowest_is_the_least_member() {
    assert_eq!(lowest(1), 0);
    assert_eq!(lowest(0b1100), 2);
    assert_eq!(lowest(0x100), 8);
    assert_eq!(lowest(0x8000), 15);
}
