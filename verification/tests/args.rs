use floating::{read_argument, strip_hex_prefixes, Argument};
use num_bigint::BigUint;

fn some(v: u128) -> Option<BigUint> {
    Some(BigUint::from(v))
}

#[test]
fn hex_arguments_are_bit_patterns() {
    assert_eq!(read_argument("0x3f800000"), Argument::Hex(some(0x3f80_0000)));
    assert_eq!(read_argument("0xDEADbeef"), Argument::Hex(some(0xdead_beef)));
    assert_eq!(
        read_argument("0x123456789abcdef0123456789abcdef"),
        Argument::Hex(some(0x0123_4567_89ab_cdef_0123_4567_89ab_cdef))
    );
    assert_eq!(read_argument("0x0"), Argument::Hex(some(0)));
}

#[test]
fn every_leading_hex_prefix_is_dropped() {
    assert_eq!(read_argument("0x0x10"), Argument::Hex(some(0x10)));
    assert_eq!(read_argument("0x0x0x7"), Argument::Hex(some(7)));
    assert_eq!(strip_hex_prefixes(b"0x0x10"), b"10");
    assert_eq!(strip_hex_prefixes(b"0x"), b"");
    assert_eq!(strip_hex_prefixes(b"0x0"), b"0");
    assert_eq!(strip_hex_prefixes(b"10x0x"), b"10x0x");
    assert_eq!(strip_hex_prefixes(b"0X10"), b"0X10");
    assert_eq!(strip_hex_prefixes(b""), b"");
    assert_eq!(strip_hex_prefixes(b"0"), b"0");
}

#[test]
fn hex_arguments_without_digits_give_no_pattern() {
    assert_eq!(read_argument("0x"), Argument::Hex(None));
    assert_eq!(read_argument("0xzz"), Argument::Hex(None));
    assert_eq!(read_argument("0x1.5"), Argument::Hex(None));
    assert_eq!(read_argument("0x 12"), Argument::Hex(None));
}

#[test]
fn decimal_integers_are_patterns_and_numbers() {
    assert_eq!(read_argument("0"), Argument::Integer(some(0), 0));
    assert_eq!(read_argument("42"), Argument::Integer(some(42), 42));
    assert_eq!(read_argument("4503599627370496"), Argument::Integer(some(1 << 52), 1 << 52));
    assert_eq!(
        read_argument("18446744073709551615"),
        Argument::Integer(some(u64::MAX as u128), u64::MAX)
    );
    assert_eq!(read_argument("+5"), Argument::Integer(some(5), 5));
    assert_eq!(read_argument("007"), Argument::Integer(some(7), 7));
}

#[test]
fn everything_else_is_left_for_the_float_reader() {
    for arg in ["1.0", "-1", "1e10", "inf", "NaN", "", "abc", "0X10", "18446744073709551616", "1_0", " 1"] {
        assert_eq!(read_argument(arg), Argument::Float, "{:?}", arg);
    }
}
