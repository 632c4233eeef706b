use floating::{to_flopoco, to_hardfloat, Binary16, Binary32, Binary64};
use num_bigint::BigUint;

fn w(v: u128) -> BigUint {
    BigUint::from(v)
}

#[test]
fn recoded_halves() {
    for (bits, expected) in [
        (0x0000u128, 0x0_0000u128),
        (0x8000, 0x1_0000),
        (0x7c00, 0x0_c000),
        (0xfc00, 0x1_c000),
        (0x7e00, 0x0_e000),
        (0x0001, 0x0_2600),
        (0x03ff, 0x0_4bff),
        (0x0400, 0x0_4800),
        (0x3c00, 0x0_8000),
    ] {
        assert_eq!(to_hardfloat::<Binary16>(&w(bits)), w(expected), "{:#x}", bits);
    }
}

#[test]
fn recoded_singles() {
    for (bits, expected) in [
        (0x0000_0000u128, 0x0_0000_0000u128),
        (0x8000_0000, 0x1_0000_0000),
        (0x7f80_0000, 0x0_c000_0000),
        (0xff80_0000, 0x1_c000_0000),
        (0x7fc0_0000, 0x0_e000_0000),
        (0x0000_0001, 0x0_3640_0000),
        (0x007f_ffff, 0x0_417f_ffff),
        (0x0080_0000, 0x0_4100_0000),
        (0x3f80_0000, 0x0_8000_0000),
    ] {
        assert_eq!(to_hardfloat::<Binary32>(&w(bits)), w(expected), "{:#x}", bits);
    }
}

#[test]
fn recoded_doubles() {
    for (bits, expected) in [
        (0x0000_0000_0000_0000u128, 0x0_0000_0000_0000_0000u128),
        (0x8000_0000_0000_0000, 0x1_0000_0000_0000_0000),
        (0x7ff0_0000_0000_0000, 0x0_c000_0000_0000_0000),
        (0xfff0_0000_0000_0000, 0x1_c000_0000_0000_0000),
        (0x7ff8_0000_0000_0000, 0x0_e000_0000_0000_0000),
        (0x0000_0000_0000_0001, 0x0_3cf8_0000_0000_0000),
        (0x000f_ffff_ffff_ffff, 0x0_402f_ffff_ffff_ffff),
        (0x0010_0000_0000_0000, 0x0_4020_0000_0000_0000),
        (0x3ff0_0000_0000_0000, 0x0_8000_0000_0000_0000),
    ] {
        assert_eq!(to_hardfloat::<Binary64>(&w(bits)), w(expected), "{:#x}", bits);
    }
}

#[test]
fn recoded_subnormal_is_shifted_over_its_leading_zeros() {
    // Mantissa 0b101 of binary16 has seven leading zeros in its ten bits.
    let recoded = to_hardfloat::<Binary16>(&w(0x8005));
    let sign = 1u128 << 16;
    let exp = (16 + 2 - 7) << 10;
    let sig = 0b101 << 7;
    assert_eq!(recoded, w(sign | exp | sig));
}

#[test]
fn recoded_normal_adds_the_offset_to_the_exponent() {
    // -pi in binary32: exponent 128 becomes 128 + 2^7 + 1.
    let recoded = to_hardfloat::<Binary32>(&w(0xc049_0fdb));
    assert_eq!(recoded, w((1 << 32) | (257 << 23) | 0x49_0fdb));
}

#[test]
fn flopoco_classifies_in_the_top_two_bits() {
    for (bits, expected) in [
        (0x0000u128, 0x0_0000u128),
        (0x8000, 0x0_0000),
        (0x7c00, 0x2_0000),
        (0xfc00, 0x2_8000),
        (0x7e00, 0x3_0000),
        (0xfe01, 0x3_8000),
        (0x0400, 0x1_0400),
        (0x3c00, 0x1_3c00),
        (0xbc01, 0x1_bc01),
    ] {
        assert_eq!(to_flopoco::<Binary16>(&w(bits)), w(expected), "{:#x}", bits);
    }
    for (bits, expected) in [
        (0x0000_0000u128, 0x0_0000_0000u128),
        (0x7f80_0000, 0x2_0000_0000),
        (0xff80_0000, 0x2_8000_0000),
        (0x7fc0_0000, 0x3_0000_0000),
        (0x0080_0000, 0x1_0080_0000),
        (0x3f80_0000, 0x1_3f80_0000),
        (0xc049_0fdb, 0x1_c049_0fdb),
    ] {
        assert_eq!(to_flopoco::<Binary32>(&w(bits)), w(expected), "{:#x}", bits);
    }
    for (bits, expected) in [
        (0x0000_0000_0000_0000u128, 0x0_0000_0000_0000_0000u128),
        (0x7ff0_0000_0000_0000, 0x2_0000_0000_0000_0000),
        (0xfff0_0000_0000_0000, 0x2_8000_0000_0000_0000),
        (0x7ff8_0000_0000_0000, 0x3_0000_0000_0000_0000),
        (0x0010_0000_0000_0000, 0x1_0010_0000_0000_0000),
        (0x3ff0_0000_0000_0000, 0x1_3ff0_0000_0000_0000),
    ] {
        assert_eq!(to_flopoco::<Binary64>(&w(bits)), w(expected), "{:#x}", bits);
    }
}
