use floating::{
    bit, extract, from_biguint, pack, range, to_biguint, Binary16, Binary32, Binary64, FloatType,
};
use num_bigint::BigUint;

fn n(v: u64) -> BigUint {
    BigUint::from(v)
}

#[test]
fn format_widths_and_names() {
    assert_eq!((Binary16::EXP, Binary16::SIG, Binary16::NAME), (5, 11, "f16"));
    assert_eq!((Binary32::EXP, Binary32::SIG, Binary32::NAME), (8, 24, "f32"));
    assert_eq!((Binary64::EXP, Binary64::SIG, Binary64::NAME), (11, 53, "f64"));
    assert_eq!((Binary16::WIDTH, Binary32::WIDTH, Binary64::WIDTH), (16, 32, 64));
}

#[test]
fn bias_and_max_exp() {
    assert_eq!(Binary16::bias(), n(15));
    assert_eq!(Binary32::bias(), n(127));
    assert_eq!(Binary64::bias(), n(1023));
    assert_eq!(Binary16::max_exp(), n(31));
    assert_eq!(Binary32::max_exp(), n(255));
    assert_eq!(Binary64::max_exp(), n(2047));
}

#[test]
fn range_takes_bits_right_aligned() {
    let num = n(0b1101_0110);
    assert_eq!(range::<Binary32>(&num, 7, 4), n(0b1101));
    assert_eq!(range::<Binary32>(&num, 3, 0), n(0b0110));
    assert_eq!(range::<Binary32>(&num, 4, 1), n(0b1011));
    assert_eq!(range::<Binary32>(&num, 2, 2), n(1));
    assert_eq!(range::<Binary32>(&num, 3, 3), n(0));
    assert_eq!(range::<Binary32>(&num, 20, 6), n(0b11));
    assert_eq!(range::<Binary32>(&num, 40, 9), n(0));
    let wide = (n(0xdead_beef) << 64usize) + n(0x0123_4567_89ab_cdef);
    assert_eq!(range::<Binary64>(&wide, 95, 64), n(0xdead_beef));
    assert_eq!(range::<Binary64>(&wide, 71, 56), n(0xef01));
}

#[test]
fn bit_takes_one_bit() {
    let num = n(0b1010);
    assert_eq!(bit::<Binary16>(&num, 0), n(0));
    assert_eq!(bit::<Binary16>(&num, 1), n(1));
    assert_eq!(bit::<Binary16>(&num, 2), n(0));
    assert_eq!(bit::<Binary16>(&num, 3), n(1));
    assert_eq!(bit::<Binary16>(&num, 200), n(0));
    assert_eq!(bit::<Binary16>(&(n(1) << 130usize), 130), n(1));
}

#[test]
fn extract_splits_the_three_fields() {
    let one = extract::<Binary64>(&n(1.0f64.to_bits()));
    assert_eq!(one, (n(0), n(1023), n(0)));
    let x = extract::<Binary64>(&n((-0.1f64).to_bits()));
    assert_eq!(x, (n(1), n(1019), n(0x9_9999_9999_999a)));
    let y = extract::<Binary32>(&n(0xc0490fdb));
    assert_eq!(y, (n(1), n(128), n(0x490fdb)));
    let z = extract::<Binary16>(&n(0x7bff));
    assert_eq!(z, (n(0), n(30), n(0x3ff)));
}

#[test]
fn pack_concatenates_the_three_fields() {
    assert_eq!(pack::<Binary64>(&n(0), &n(1023), &n(0)), n(0x3ff0_0000_0000_0000));
    assert_eq!(pack::<Binary32>(&n(1), &n(128), &n(0x490fdb)), n(0xc0490fdb));
    assert_eq!(pack::<Binary16>(&n(1), &n(31), &n(0x3ff)), n(0xffff));
    assert_eq!(pack::<Binary16>(&n(0), &n(0), &n(0)), n(0));
}

#[test]
fn pack_of_extract_is_the_pattern() {
    let mut state = 0x0dd0_5eed_1234_5678u64;
    for _ in 0..2000 {
        state ^= state << 13;
        state ^= state >> 7;
        state ^= state << 17;
        let b64 = n(state);
        let (s, e, m) = extract::<Binary64>(&b64);
        assert_eq!(pack::<Binary64>(&s, &e, &m), b64);
        let b32 = n(state >> 32);
        let (s, e, m) = extract::<Binary32>(&b32);
        assert_eq!(pack::<Binary32>(&s, &e, &m), b32);
        let b16 = n(state >> 48);
        let (s, e, m) = extract::<Binary16>(&b16);
        assert_eq!(pack::<Binary16>(&s, &e, &m), b16);
    }
}

#[test]
fn extract_of_pack_is_the_fields() {
    for (s, e, m) in [(0u64, 0u64, 0u64), (1, 0, 1), (0, 254, 0x7f_ffff), (1, 255, 0), (1, 1, 0x40_0000)] {
        let packed = pack::<Binary32>(&n(s), &n(e), &n(m));
        assert_eq!(extract::<Binary32>(&packed), (n(s), n(e), n(m)));
    }
}

#[test]
fn machine_words_go_in_and_out() {
    assert_eq!(to_biguint(0), BigUint::from(0u32));
    assert_eq!(to_biguint(0x3ff0_0000_0000_0000), BigUint::from(0x3ff0_0000_0000_0000u64));
    assert_eq!(to_biguint(u64::MAX), BigUint::from(u64::MAX));
    assert_eq!(from_biguint(&BigUint::from(0u32)), 0);
    assert_eq!(from_biguint(&BigUint::from(0xc049_0fdbu32)), 0xc049_0fdb);
    assert_eq!(from_biguint(&BigUint::from(u64::MAX)), u64::MAX);
    let wide = (BigUint::from(0xabcdu32) << 64usize) + BigUint::from(0x1234_5678u32);
    assert_eq!(from_biguint(&wide), 0x1234_5678);
    assert_eq!(from_biguint(&(BigUint::from(7u32) << 64usize)), 0);
}
