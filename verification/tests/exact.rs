use floating::{softfloat_add, softfloat_sub, Binary16};
use num_bigint::BigUint;

fn pattern(v: u16) -> BigUint {
    BigUint::from(v)
}

fn sum16(a: u16, b: u16) -> u16 {
    softfloat_add::<Binary16>(&pattern(a), &pattern(b)).iter_u32_digits().next().unwrap_or(0) as u16
}

fn difference16(a: u16, b: u16) -> u16 {
    softfloat_sub::<Binary16>(&pattern(a), &pattern(b)).iter_u32_digits().next().unwrap_or(0) as u16
}

fn exponent(bits: u16) -> u64 {
    ((bits >> 10) & 0x1f) as u64
}

fn mantissa(bits: u16) -> u64 {
    (bits & 0x3ff) as u64
}

fn nan(bits: u16) -> bool {
    exponent(bits) == 31 && mantissa(bits) != 0
}

fn infinite(bits: u16) -> bool {
    exponent(bits) == 31 && mantissa(bits) == 0
}

/// The magnitude of a finite half in units of the smallest subnormal.
fn magnitude(bits: u16) -> u64 {
    if exponent(bits) == 0 {
        mantissa(bits)
    } else {
        (mantissa(bits) + 0x400) << (exponent(bits) - 1)
    }
}

/// The positive half nearest to `n` units, ties to even.
fn nearest(n: u64) -> u16 {
    let len = 64 - n.leading_zeros() as u64;
    let k = len.saturating_sub(11);
    let q = n >> k;
    let r = n - (q << k);
    let unit = 1u64 << k;
    let up = 2 * r > unit || (2 * r == unit && q % 2 == 1);
    let rounded = k * 0x400 + q + up as u64;
    rounded.min(0x7c00) as u16
}

/// The half that the exact sum of two signed magnitudes rounds to.
fn rounded_sum(sign_a: u16, a: u64, sign_b: u16, b: u64) -> u16 {
    if sign_a == sign_b {
        sign_a | nearest(a + b)
    } else if a > b {
        sign_a | nearest(a - b)
    } else if a < b {
        sign_b | nearest(b - a)
    } else {
        0
    }
}

/// A subnormal next to a normal whose exponent field is below 11 + 2.
fn mixed(a: u16, b: u16) -> bool {
    let subnormal = |x: u16| exponent(x) == 0 && mantissa(x) != 0;
    let near = |x: u16| 0 < exponent(x) && exponent(x) < 13;
    (subnormal(a) && near(b)) || (subnormal(b) && near(a))
}

fn samples(step: usize) -> Vec<u16> {
    let mut out: Vec<u16> = (0..=u16::MAX).step_by(step).collect();
    out.extend([0x0001, 0x03ff, 0x0400, 0x0401, 0x07ff, 0x0800, 0x3bff, 0x3c00, 0x3c01]);
    out.extend([0x7bff, 0x7800, 0x8000, 0x8001, 0x83ff, 0x8400, 0xbc00, 0xfbff]);
    out.extend([0x7c00, 0xfc00, 0x7c01, 0xfe00, 0xffff]);
    out
}

#[test]
fn sums_are_the_exact_sum_rounded_to_nearest_even() {
    for &a in samples(211).iter() {
        for &b in samples(173).iter() {
            if exponent(a) == 31 || exponent(b) == 31 || mixed(a, b) {
                continue;
            }
            let (sa, sb) = (a & 0x8000, b & 0x8000);
            let expected = rounded_sum(sa, magnitude(a), sb, magnitude(b));
            assert_eq!(sum16(a, b), expected, "{:#06x} + {:#06x}", a, b);
            let expected = rounded_sum(sa, magnitude(a), sb ^ 0x8000, magnitude(b));
            assert_eq!(difference16(a, b), expected, "{:#06x} - {:#06x}", a, b);
        }
    }
}

#[test]
fn neighbouring_exponents_cancel_exactly() {
    // Every pair of normal halves one or no exponent apart.
    for exp in 1u16..30 {
        for (ma, mb) in [(0u16, 0x3ff), (0, 1), (1, 0), (0x3ff, 0x3ff), (0x155, 0x2aa), (0x200, 0)] {
            for other in [exp, exp + 1] {
                let a = (other << 10) | ma;
                let b = (exp << 10) | mb;
                let expected = rounded_sum(0, magnitude(a), 0x8000, magnitude(b));
                assert_eq!(difference16(a, b), expected, "{:#06x} - {:#06x}", a, b);
                assert_eq!(sum16(a, b | 0x8000), expected, "{:#06x} + -{:#06x}", a, b);
            }
        }
    }
}

#[test]
fn nan_comes_only_from_nan_or_from_opposing_infinities() {
    for &a in samples(499).iter() {
        for &b in samples(401).iter() {
            let opposite = infinite(a) && infinite(b) && (a ^ b) & 0x8000 != 0;
            let equal = infinite(a) && infinite(b) && (a ^ b) & 0x8000 == 0;
            assert_eq!(nan(sum16(a, b)), nan(a) || nan(b) || opposite, "{:#x} {:#x}", a, b);
            assert_eq!(nan(difference16(a, b)), nan(a) || nan(b) || equal, "{:#x} {:#x}", a, b);
        }
    }
}

#[test]
fn subtracting_is_adding_the_negated_pattern() {
    for &a in samples(499).iter() {
        for &b in samples(401).iter() {
            if nan(b) {
                continue;
            }
            assert_eq!(difference16(a, b), sum16(a, b ^ 0x8000), "{:#x} {:#x}", a, b);
        }
    }
    // A NaN keeps its own sign either way.
    assert_eq!(difference16(0x3c00, 0x7e00), 0x7e00);
    assert_eq!(sum16(0x3c00, 0xfe00), 0xfe00);
}
