use floating::{
    effective_add, effective_sub, print_float, round, rshift_sticky, softfloat_add, softfloat_sub,
    Binary16, Binary32, Binary64,
};
use num_bigint::BigUint;

fn bits_of(x: f64) -> BigUint {
    BigUint::from(x.to_bits())
}

fn low_u64(b: &BigUint) -> u64 {
    b.iter_u64_digits().next().unwrap_or(0)
}

fn add64(a: f64, b: f64) -> f64 {
    f64::from_bits(low_u64(&softfloat_add::<Binary64>(&bits_of(a), &bits_of(b))))
}

fn sub64(a: f64, b: f64) -> f64 {
    f64::from_bits(low_u64(&softfloat_sub::<Binary64>(&bits_of(a), &bits_of(b))))
}

fn add32(a: u32, b: u32) -> u32 {
    low_u64(&softfloat_add::<Binary32>(&BigUint::from(a), &BigUint::from(b))) as u32
}

fn sub32(a: u32, b: u32) -> u32 {
    low_u64(&softfloat_sub::<Binary32>(&BigUint::from(a), &BigUint::from(b))) as u32
}

fn add16(a: u16, b: u16) -> u16 {
    low_u64(&softfloat_add::<Binary16>(&BigUint::from(a), &BigUint::from(b))) as u16
}

fn sub16(a: u16, b: u16) -> u16 {
    low_u64(&softfloat_sub::<Binary16>(&BigUint::from(a), &BigUint::from(b))) as u16
}

/// The host's result, with the NaN that the host makes out of two
/// infinities replaced by the positive quiet NaN: hosts disagree on the sign
/// of that one.
fn host_bits(result: f64, a: f64, b: f64) -> u64 {
    if result.is_nan() && a.is_infinite() && b.is_infinite() {
        0x7ff8_0000_0000_0000
    } else {
        result.to_bits()
    }
}

fn next_random(state: &mut u64) -> u64 {
    *state ^= *state << 13;
    *state ^= *state >> 7;
    *state ^= *state << 17;
    *state
}

#[test]
fn add_test() {
    for (a, b) in vec![
        // normal + normal
        (1.0, 1.1),
        (1.0, 2.0),
        (0.1, 0.2),
        (0.1, -0.2),
        (0.1, -0.1),
        (4503599627370496.0, 0.4),
        (4503599627370496.0, 0.5),
        (4503599627370496.0, 0.6),
        // subnormal/zero + normal
        (0.0, 0.1),
        (1.0 / 1.5E+308, 0.1),
        // subnormal/zero + subnormal/zero
        (1.0 / 1.5E+308, 1.0 / 1.0E+308),
        (0.0, 1.0 / 1.0E+308),
        (0.0, 0.0),
        (-0.0, 0.0),
        // inf/nan + inf/nan
        (f64::INFINITY, f64::NAN),
        (f64::INFINITY, -f64::NAN),
        (f64::NAN, f64::NAN),
        (-f64::NAN, f64::NAN),
        (f64::INFINITY, f64::INFINITY),
        (-f64::INFINITY, -f64::INFINITY),
        (-f64::INFINITY, f64::INFINITY),
    ] {
        println!("a={}({})", a, print_float::<Binary64>(&bits_of(a)));
        println!("b={}({})", b, print_float::<Binary64>(&bits_of(b)));

        let a_plus_b = a + b;
        let soft_a_plus_b = add64(a, b);
        println!("a+b={}({})", a_plus_b, print_float::<Binary64>(&bits_of(a_plus_b)));
        println!(
            "soft a+b={}({})",
            soft_a_plus_b,
            print_float::<Binary64>(&bits_of(soft_a_plus_b))
        );
        assert_eq!(host_bits(a_plus_b, a, b), soft_a_plus_b.to_bits());

        let b_plus_a = b + a;
        let soft_b_plus_a = add64(b, a);
        println!("b+a={}({})", b_plus_a, print_float::<Binary64>(&bits_of(b_plus_a)));
        println!(
            "soft b+a={}({})",
            soft_b_plus_a,
            print_float::<Binary64>(&bits_of(soft_b_plus_a))
        );
        assert_eq!(host_bits(b_plus_a, b, a), soft_b_plus_a.to_bits());

        let a_minus_b = a - b;
        let soft_a_minus_b = sub64(a, b);
        println!("a-b={}({})", a_minus_b, print_float::<Binary64>(&bits_of(a_minus_b)));
        println!(
            "soft a-b={}({})",
            soft_a_minus_b,
            print_float::<Binary64>(&bits_of(soft_a_minus_b))
        );
        assert_eq!(host_bits(a_minus_b, a, b), soft_a_minus_b.to_bits());

        let b_minus_a = b - a;
        let soft_b_minus_a = sub64(b, a);
        println!("b-a={}({})", b_minus_a, print_float::<Binary64>(&bits_of(b_minus_a)));
        println!(
            "soft b-a={}({})",
            soft_b_minus_a,
            print_float::<Binary64>(&bits_of(soft_b_minus_a))
        );
        assert_eq!(host_bits(b_minus_a, b, a), soft_b_minus_a.to_bits());
    }
}

#[test]
fn lib_test() {
    for (a, b) in vec![
        (1.0, 1.1),
        (1.0, 2.0),
        (0.1, 0.2),
        (0.0, 0.1),
        (1.0 / 1.5E+308, 1.0 / 1.0E+308),
        (f64::INFINITY, f64::NAN),
    ] {
        let c = a + b;
        let soft_c = add64(a, b);
        println!("a={}({})", a, print_float::<Binary64>(&bits_of(a)));
        println!("b={}({})", b, print_float::<Binary64>(&bits_of(b)));
        println!("a+b={}({})", c, print_float::<Binary64>(&bits_of(c)));
        println!("soft a+b={}({})", soft_c, print_float::<Binary64>(&bits_of(soft_c)));
        assert_eq!(c.to_bits(), soft_c.to_bits());
    }
}

#[test]
fn inf_minus_inf_is_the_positive_quiet_nan() {
    let inf = f64::INFINITY;
    assert_eq!(sub64(inf, inf).to_bits(), 0x7ff8_0000_0000_0000);
    assert_eq!(sub64(-inf, -inf).to_bits(), 0x7ff8_0000_0000_0000);
    assert_eq!(add64(-inf, inf).to_bits(), 0x7ff8_0000_0000_0000);
    assert_eq!(add64(inf, -inf).to_bits(), 0x7ff8_0000_0000_0000);
    assert!((inf - inf).is_nan());
    assert_eq!(sub32(0x7f80_0000, 0x7f80_0000), 0x7fc0_0000);
    assert_eq!(add16(0x7c00, 0xfc00), 0x7e00);
}

#[test]
fn normal_doubles_match_the_host() {
    let mut state = 0x9e37_79b9_7f4a_7c15u64;
    for _ in 0..20000 {
        let r = next_random(&mut state);
        let exp_a = 1 + (r >> 8) % 2046;
        let spread = (r >> 40) % 121;
        let exp_b = (exp_a + spread).saturating_sub(60).clamp(1, 2046);
        let a = (next_random(&mut state) & 0x800f_ffff_ffff_ffff) | (exp_a << 52);
        let b = (next_random(&mut state) & 0x800f_ffff_ffff_ffff) | (exp_b << 52);
        let (x, y) = (f64::from_bits(a), f64::from_bits(b));
        assert_eq!(add64(x, y).to_bits(), (x + y).to_bits(), "{:#x} + {:#x}", a, b);
        assert_eq!(sub64(x, y).to_bits(), (x - y).to_bits(), "{:#x} - {:#x}", a, b);
    }
}

#[test]
fn normal_singles_match_the_host() {
    let mut state = 0x2545_f491_4f6c_dd1du64;
    for _ in 0..20000 {
        let r = next_random(&mut state);
        let exp_a = 1 + ((r >> 8) % 254) as u32;
        let spread = ((r >> 40) % 61) as u32;
        let exp_b = (exp_a + spread).saturating_sub(30).clamp(1, 254);
        let a = (next_random(&mut state) as u32 & 0x807f_ffff) | (exp_a << 23);
        let b = (next_random(&mut state) as u32 & 0x807f_ffff) | (exp_b << 23);
        let (x, y) = (f32::from_bits(a), f32::from_bits(b));
        assert_eq!(add32(a, b), (x + y).to_bits(), "{:#x} + {:#x}", a, b);
        assert_eq!(sub32(a, b), (x - y).to_bits(), "{:#x} - {:#x}", a, b);
    }
}

#[test]
fn subnormal_pairs_and_zeros_match_the_host() {
    let mut state = 0x1234_5678_9abc_def1u64;
    for _ in 0..5000 {
        let a = next_random(&mut state) & 0x800f_ffff_ffff_ffff;
        let b = next_random(&mut state) & 0x800f_ffff_ffff_ffff;
        let (x, y) = (f64::from_bits(a), f64::from_bits(b));
        assert_eq!(add64(x, y).to_bits(), (x + y).to_bits(), "{:#x} + {:#x}", a, b);
        assert_eq!(sub64(x, y).to_bits(), (x - y).to_bits(), "{:#x} - {:#x}", a, b);
        let n = f64::from_bits(next_random(&mut state) % 0x7ff0_0000_0000_0000);
        let n = if n.is_subnormal() { 1.5 } else { n };
        for zero in [0.0, -0.0] {
            assert_eq!(add64(n, zero).to_bits(), (n + zero).to_bits());
            assert_eq!(add64(zero, n).to_bits(), (zero + n).to_bits());
            assert_eq!(sub64(n, zero).to_bits(), (n - zero).to_bits());
            assert_eq!(sub64(zero, n).to_bits(), (zero - n).to_bits());
        }
    }
}

#[test]
fn ties_round_to_even() {
    // 1 + 2^-24 lies halfway between 1 and its successor: the even one wins.
    assert_eq!(add32(0x3f80_0000, 0x3380_0000), 0x3f80_0000);
    assert_eq!(add32(0x3f80_0001, 0x3380_0000), 0x3f80_0002);
    // A sticky bit above the half breaks the tie upwards.
    assert_eq!(add32(0x3f80_0000, 0x3380_0001), 0x3f80_0001);
    assert_eq!(sub32(0x3f80_0000, 0x3380_0001), 0x3f7f_ffff);
}

#[test]
fn rounding_carry_reaches_the_next_binade() {
    assert_eq!(add32(0x3fff_ffff, 0x3380_0000), 0x4000_0000);
    assert_eq!(sub32(0x3fff_ffff, 0x3380_0000), 0x3fff_fffe);
}

#[test]
fn overflow_gives_infinity() {
    assert_eq!(add64(f64::MAX, f64::MAX), f64::INFINITY);
    assert_eq!(sub64(-f64::MAX, f64::MAX), f64::NEG_INFINITY);
    assert_eq!(add32(0x7f7f_ffff, 0x7f7f_ffff), 0x7f80_0000);
    assert_eq!(add32(0x7f7f_ffff, 0x7300_0000), 0x7f80_0000);
    assert_eq!(add32(0x7f7f_ffff, 0x72ff_ffff), 0x7f7f_ffff);
    assert_eq!(add16(0x7bff, 0x7bff), 0x7c00);
    assert_eq!(add16(0x7bff, 0x5000), 0x7c00);
    assert_eq!(add16(0x7bff, 0x4fff), 0x7c00);
    assert_eq!(sub16(0xfbff, 0x7bff), 0xfc00);
}

#[test]
fn cancellation_reaches_the_subnormals() {
    assert_eq!(sub32(0x00c0_0000, 0x0080_0000), 0x0040_0000);
    assert_eq!(sub32(0x0100_0000, 0x00ff_ffff), 0x0000_0001);
    assert_eq!(add16(0x0801, 0x8800), 0x0002);
    assert_eq!(sub32(0x0080_0000, 0x0100_0000), 0x8080_0000);
}

#[test]
fn subnormal_sum_promotes_to_the_smallest_normal() {
    assert_eq!(add32(0x007f_ffff, 0x0000_0001), 0x0080_0000);
    assert_eq!(add16(0x03ff, 0x0001), 0x0400);
    assert_eq!(add32(0x0000_0001, 0x0000_0001), 0x0000_0002);
    assert_eq!(sub32(0x0000_0001, 0x0000_0002), 0x8000_0001);
    assert_eq!(sub16(0x0001, 0x0001), 0x0000);
}

#[test]
fn subnormal_aligns_by_the_difference_of_the_exponent_fields() {
    // Against a normal operand a subnormal is shifted by the difference of
    // the stored exponents, here by one place.
    assert_eq!(add32(0x0080_0000, 0x0000_0002), 0x0080_0001);
    assert_eq!(sub32(0x0080_0000, 0x0000_0002), 0x007f_ffff);
    assert_eq!(add16(0x0400, 0x0002), 0x0401);
    assert_eq!(sub16(0x0400, 0x0002), 0x03ff);
}

#[test]
fn half_precision_sums() {
    for (a, b, sum, difference) in [
        (0x3c00, 0x3c00, 0x4000, 0x0000),
        (0x3c00, 0x1400, 0x3c01, 0x3bfe),
        (0x3555, 0x3555, 0x3955, 0x0000),
        (0x4248, 0x3e00, 0x44a4, 0x3e90),
        (0x0001, 0x0001, 0x0002, 0x0000),
    ] {
        assert_eq!(add16(a, b), sum);
        assert_eq!(sub16(a, b), difference);
    }
}

#[test]
fn nan_operand_is_handed_on() {
    let nan = 0x7fc0_1234u32;
    let negative_nan = 0xffa0_0001u32;
    assert_eq!(add32(nan, 0x3f80_0000), nan);
    assert_eq!(add32(0x3f80_0000, nan), nan);
    assert_eq!(sub32(0x3f80_0000, negative_nan), negative_nan);
    assert_eq!(sub32(negative_nan, 0x3f80_0000), negative_nan);
    assert_eq!(add32(0x7f80_0000, nan), nan);
    assert_eq!(add32(nan, 0xff80_0000), nan);
    // Of two NaNs the first is handed on.
    assert_eq!(add32(nan, negative_nan), nan);
    assert_eq!(add32(negative_nan, nan), negative_nan);
    assert_eq!(sub32(nan, negative_nan), nan);
}

#[test]
fn infinity_takes_the_sign_of_the_result() {
    let one = 0x3f80_0000u32;
    let inf = 0x7f80_0000u32;
    let negative_inf = 0xff80_0000u32;
    assert_eq!(add32(one, inf), inf);
    assert_eq!(add32(inf, one), inf);
    assert_eq!(add32(one, negative_inf), negative_inf);
    assert_eq!(sub32(one, inf), negative_inf);
    assert_eq!(sub32(one, negative_inf), inf);
    assert_eq!(sub32(inf, one), inf);
    assert_eq!(add32(inf, inf), inf);
    assert_eq!(sub32(negative_inf, inf), negative_inf);
    assert_eq!(sub64(1.0, f64::INFINITY), f64::NEG_INFINITY);
}

#[test]
fn bits_above_the_width_are_ignored() {
    let one = BigUint::from(0x3f80_0000u32);
    let wide = BigUint::from(0xabcd_3f80_0000u64);
    assert_eq!(softfloat_add::<Binary32>(&wide, &one), BigUint::from(0x4000_0000u32));
    assert_eq!(softfloat_sub::<Binary32>(&one, &wide), BigUint::from(0u32));
}

#[test]
fn round_is_nearest_even_by_three_bits() {
    let cases: [(u64, u64); 10] = [
        (0b1010_000, 0b1010),
        (0b1010_011, 0b1010),
        (0b1010_100, 0b1010),
        (0b1011_100, 0b1100),
        (0b1010_101, 0b1011),
        (0b1010_111, 0b1011),
        (0b1111_100, 0b10000),
        (0b100, 0),
        (0b101, 1),
        (0, 0),
    ];
    for (x, expected) in cases {
        assert_eq!(round(&BigUint::from(x)), BigUint::from(expected), "{:#b}", x);
    }
    let wide = (BigUint::from(1u32) << 100usize) + BigUint::from(0b1100u32);
    assert_eq!(round(&wide), (BigUint::from(1u32) << 97usize) + BigUint::from(2u32));
}

#[test]
fn rshift_sticky_keeps_lost_bits_in_the_lowest() {
    let cases: [(u64, u64, u64); 8] = [
        (0b10100, 2, 0b101),
        (0b10110, 2, 0b101),
        (0b10010, 2, 0b101),
        (0b10000, 2, 0b100),
        (0b10000, 0, 0b10000),
        (0b10000, 5, 0b1),
        (0b10000, 4000, 0b1),
        (0, 7, 0),
    ];
    for (x, shift, expected) in cases {
        assert_eq!(rshift_sticky(&BigUint::from(x), shift), BigUint::from(expected));
    }
}

#[test]
fn effective_operations_on_fields() {
    let big = |v: u32| BigUint::from(v);
    // 1.0 and 1.0 in binary32: exponent 127, mantissa 0.
    let sum = effective_add::<Binary32>(&big(0), &big(127), &big(0), &big(0), &big(127), &big(0));
    assert_eq!(sum, big(0x4000_0000));
    // The result of an effective addition carries the first operand's sign.
    let sum = effective_add::<Binary32>(&big(1), &big(127), &big(0), &big(0), &big(126), &big(0));
    assert_eq!(sum, big(0xbfc0_0000));
    // 1.0 less 1.5: the smaller first operand flips the sign.
    let difference = effective_sub::<Binary32>(
        &big(0),
        &big(127),
        &big(0),
        &big(0),
        &big(127),
        &big(0x40_0000),
    );
    assert_eq!(difference, big(0xbf00_0000));
    let difference =
        effective_sub::<Binary32>(&big(1), &big(128), &big(0), &big(1), &big(127), &big(0));
    assert_eq!(difference, big(0xbf80_0000));
    let zero =
        effective_sub::<Binary32>(&big(1), &big(127), &big(5), &big(0), &big(127), &big(5));
    assert_eq!(zero, big(0));
}

#[test]
fn subnormals_far_below_a_normal_match_the_host() {
    let mut state = 0x0f1e_2d3c_4b5a_6978u64;
    for _ in 0..5000 {
        let exp = 55 + next_random(&mut state) % (2047 - 55);
        let normal = (next_random(&mut state) & 0x800f_ffff_ffff_ffff) | (exp << 52);
        let subnormal = (next_random(&mut state) & 0x800f_ffff_ffff_ffff) | 1;
        let (x, y) = (f64::from_bits(normal), f64::from_bits(subnormal));
        assert_eq!(add64(x, y).to_bits(), (x + y).to_bits(), "{:#x} + {:#x}", normal, subnormal);
        assert_eq!(add64(y, x).to_bits(), (y + x).to_bits(), "{:#x} + {:#x}", subnormal, normal);
        assert_eq!(sub64(x, y).to_bits(), (x - y).to_bits(), "{:#x} - {:#x}", normal, subnormal);
        assert_eq!(sub64(y, x).to_bits(), (y - x).to_bits(), "{:#x} - {:#x}", subnormal, normal);
    }
}
