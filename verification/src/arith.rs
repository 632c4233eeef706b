//! Facts about powers of two, bit length and the bitwise operations on
//! natural numbers, which the proofs in the other modules rest on.

use crate::bignum::{bit_len, digits_value, nat_and, nat_or};
use vstd::arithmetic::div_mod::{
    lemma_breakdown, lemma_div_denominator, lemma_fundamental_div_mod,
    lemma_fundamental_div_mod_converse,
};
use vstd::arithmetic::power2::{
    lemma2_to64, lemma_pow2_adds, lemma_pow2_pos, lemma_pow2_strictly_increases,
    lemma_pow2_unfold, pow2,
};
use vstd::prelude::*;

verus! {

/// The first few powers of two, and 2^64.
pub proof fn lemma_pow2_small()
    ensures
        pow2(0) == 1,
        pow2(1) == 2,
        pow2(2) == 4,
        pow2(3) == 8,
        pow2(4) == 16,
        pow2(32) == 0x1_0000_0000,
        pow2(64) == 0x1_0000_0000_0000_0000,
{
    lemma2_to64();
}

/// Each power of two is positive and half of the next.
pub proof fn lemma_pow2_step(n: nat)
    ensures
        pow2(n) >= 1,
        pow2(n + 1) == 2 * pow2(n),
{
    lemma_pow2_pos(n);
    lemma_pow2_unfold(n + 1);
}

/// Powers of two multiply by adding exponents.
pub proof fn lemma_pow2_sum(a: nat, b: nat)
    ensures
        pow2(a + b) == pow2(a) * pow2(b),
        pow2(a) >= 1,
        pow2(b) >= 1,
{
    lemma_pow2_adds(a, b);
    lemma_pow2_pos(a);
    lemma_pow2_pos(b);
}

/// Powers of two grow with the exponent.
pub proof fn lemma_pow2_le(a: nat, b: nat)
    requires
        a <= b,
    ensures
        1 <= pow2(a) <= pow2(b),
{
    lemma_pow2_pos(a);
    if a < b {
        lemma_pow2_strictly_increases(a, b);
    }
}

/// Dividing by two powers of two in turn divides by their product.
pub proof fn lemma_div_pow2_twice(x: nat, a: nat, b: nat)
    ensures
        (x / pow2(a)) / pow2(b) == x / pow2(a + b),
{
    lemma_pow2_sum(a, b);
    lemma_div_denominator(x as int, pow2(a) as int, pow2(b) as int);
}

/// The low `a + b` bits are the low `a` bits below the next `b` bits.
pub proof fn lemma_mod_pow2_split(x: nat, a: nat, b: nat)
    ensures
        x % pow2(a + b) == pow2(a) * ((x / pow2(a)) % pow2(b)) + x % pow2(a),
{
    lemma_pow2_sum(a, b);
    lemma_breakdown(x as int, pow2(a) as int, pow2(b) as int);
}

/// A quotient and a remainder below the divisor determine division.
pub proof fn lemma_div_mod_unique(x: nat, d: nat, q: nat, r: nat)
    requires
        r < d,
        x == q * d + r,
    ensures
        x / d == q,
        x % d == r,
{
    lemma_fundamental_div_mod_converse(x as int, d as int, q as int, r as int);
}

/// Any number is its quotient times the divisor plus its remainder.
pub proof fn lemma_div_mod_parts(x: nat, d: nat)
    requires
        d > 0,
    ensures
        x == d * (x / d) + x % d,
        x % d < d,
{
    lemma_fundamental_div_mod(x as int, d as int);
}

/// AND with zero is zero.
pub proof fn lemma_and_zero(a: nat)
    ensures
        nat_and(a, 0) == 0,
    decreases a,
{
    if a != 0 {
        lemma_and_zero(a / 2);
    }
}

/// AND with a mask of `k` low ones keeps the low `k` bits.
pub proof fn lemma_and_low_mask(x: nat, k: nat)
    ensures
        pow2(k) >= 1,
        nat_and(x, (pow2(k) - 1) as nat) == x % pow2(k),
    decreases k,
{
    lemma_pow2_pos(k);
    let mask = (pow2(k) - 1) as nat;
    if k == 0 {
        lemma_pow2_small();
        lemma_and_zero(x);
        assert(mask == 0);
        assert(x % 1 == 0);
    } else if x == 0 {
        lemma_div_mod_unique(0, pow2(k), 0, 0);
        assert(nat_and(0, mask) == 0);
    } else {
        let j = (k - 1) as nat;
        let half_mask = (pow2(j) - 1) as nat;
        lemma_pow2_step(j);
        assert(j + 1 == k);
        assert(mask == 2 * half_mask + 1);
        assert(mask / 2 == half_mask);
        assert(mask % 2 == 1);
        lemma_and_low_mask(x / 2, j);
        let kept = (x / 2) % pow2(j);
        assert(nat_and(x / 2, half_mask) == kept);
        assert(nat_and(x, mask) == 2 * nat_and(x / 2, mask / 2) + x % 2);
        assert(nat_and(x, mask) == 2 * kept + x % 2);
        // The low k bits are the lowest bit below the next k - 1.
        lemma_div_mod_parts(x / 2, pow2(j));
        let rest = (x / 2) / pow2(j);
        assert(x == rest * pow2(k) + (2 * kept + x % 2)) by (nonlinear_arith)
            requires
                x == 2 * (x / 2) + x % 2,
                x / 2 == pow2(j) * rest + kept,
                pow2(k) == 2 * pow2(j),
        ;
        assert(2 * kept + x % 2 < pow2(k));
        lemma_div_mod_unique(x, pow2(k), rest, 2 * kept + x % 2);
    }
}

/// OR with zero changes nothing.
pub proof fn lemma_or_zero(a: nat)
    ensures
        nat_or(a, 0) == a,
        nat_or(0, a) == a,
{
}

/// OR with one sets the lowest bit.
pub proof fn lemma_or_one(x: nat)
    ensures
        nat_or(x, 1) == if x % 2 == 1 {
            x
        } else {
            x + 1
        },
{
    if x != 0 {
        lemma_or_zero(x / 2);
        assert(1nat / 2 == 0);
    }
}

/// OR of a number shifted left by `k` with a number below 2^k is their sum.
pub proof fn lemma_or_disjoint(x: nat, k: nat, y: nat)
    requires
        y < pow2(k),
    ensures
        nat_or(x * pow2(k), y) == x * pow2(k) + y,
    decreases k,
{
    let a = x * pow2(k);
    if k == 0 {
        lemma_pow2_small();
    } else if a != 0 && y != 0 {
        let j = (k - 1) as nat;
        lemma_pow2_step(j);
        assert(a == 2 * (x * pow2(j))) by (nonlinear_arith)
            requires
                a == x * pow2(k),
                pow2(k) == 2 * pow2(j),
        ;
        assert(a / 2 == x * pow2(j));
        assert(a % 2 == 0);
        lemma_or_disjoint(x, j, y / 2);
    }
}

/// A number lies between the powers of two that its bit length names.
pub proof fn lemma_bit_len_bounds(n: nat)
    ensures
        n < pow2(bit_len(n)),
        n > 0 ==> bit_len(n) >= 1 && pow2((bit_len(n) - 1) as nat) <= n,
    decreases n,
{
    if n == 0 {
        lemma_pow2_small();
    } else {
        lemma_bit_len_bounds(n / 2);
        lemma_pow2_step(bit_len(n / 2));
        if n / 2 > 0 {
            lemma_pow2_step((bit_len(n / 2) - 1) as nat);
        } else {
            lemma_pow2_small();
        }
    }
}

/// The bit length is the only exponent whose powers of two bracket a number.
pub proof fn lemma_bit_len_unique(n: nat, k: nat)
    requires
        k >= 1,
        pow2((k - 1) as nat) <= n < pow2(k),
    ensures
        bit_len(n) == k,
{
    lemma_pow2_pos((k - 1) as nat);
    lemma_bit_len_bounds(n);
    let b = bit_len(n);
    if b < k {
        lemma_pow2_le(b, (k - 1) as nat);
    } else if b > k {
        lemma_pow2_le(k, (b - 1) as nat);
    }
}

/// Shifting a non-zero number left by `k` adds `k` to its bit length.
pub proof fn lemma_bit_len_shift(n: nat, k: nat)
    requires
        n > 0,
    ensures
        bit_len(n * pow2(k)) == bit_len(n) + k,
{
    lemma_bit_len_bounds(n);
    let b = bit_len(n);
    lemma_pow2_sum((b - 1) as nat, k);
    lemma_pow2_sum(b, k);
    assert(pow2((b - 1) as nat) * pow2(k) <= n * pow2(k) < pow2(b) * pow2(k)) by (nonlinear_arith)
        requires
            pow2((b - 1) as nat) <= n < pow2(b),
            pow2(k) >= 1,
    ;
    assert((b - 1) as nat + k == (b + k - 1) as nat);
    lemma_bit_len_unique(n * pow2(k), b + k);
}

/// A number below `2^k` has at most `k` bits.
pub proof fn lemma_bit_len_at_most(n: nat, k: nat)
    requires
        n < pow2(k),
    ensures
        bit_len(n) <= k,
{
    lemma_bit_len_bounds(n);
    if bit_len(n) > k {
        lemma_pow2_le(k, (bit_len(n) - 1) as nat);
    }
}

/// Shifting a number of `b` bits left by `j` keeps it below `2^t` as long as
/// `b + j` does not exceed `t`.
pub proof fn lemma_shift_below(n: nat, j: nat, t: nat)
    requires
        bit_len(n) + j <= t,
    ensures
        n * pow2(j) < pow2(t),
{
    let b = bit_len(n);
    lemma_bit_len_bounds(n);
    lemma_pow2_sum(b, j);
    lemma_pow2_le(b + j, t);
    assert(n * pow2(j) < pow2(b) * pow2(j)) by (nonlinear_arith)
        requires
            n < pow2(b),
            pow2(j) >= 1,
    ;
}

/// Shifting a non-zero number left until it has `t` bits puts it between
/// `2^(t-1)` and `2^t`.
pub proof fn lemma_normalize(n: nat, t: nat)
    requires
        n > 0,
        bit_len(n) <= t,
    ensures
        pow2((t - 1) as nat) <= n * pow2((t - bit_len(n)) as nat) < pow2(t),
{
    let b = bit_len(n);
    let k = (t - b) as nat;
    lemma_bit_len_bounds(n);
    lemma_shift_below(n, k, t);
    lemma_pow2_sum((b - 1) as nat, k);
    assert((b - 1) as nat + k == (t - 1) as nat);
    assert(pow2((b - 1) as nat) * pow2(k) <= n * pow2(k)) by (nonlinear_arith)
        requires
            pow2((b - 1) as nat) <= n,
            pow2(k) >= 1,
    ;
}

/// Shifts by one, three and four places are multiplication or division by
/// two, eight and sixteen.
pub proof fn lemma_small_shifts(x: nat)
    ensures
        x * pow2(0) == x,
        x * pow2(1) == 2 * x,
        x * pow2(3) == 8 * x,
        x * pow2(4) == 16 * x,
        x / pow2(0) == x,
        x / pow2(1) == x / 2,
        x / pow2(3) == x / 8,
        x % pow2(1) == x % 2,
        x % pow2(2) == x % 4,
        x % pow2(3) == x % 8,
{
    lemma_pow2_small();
}

/// The lowest base-2^64 digit of a number is its remainder modulo 2^64.
pub proof fn lemma_digits_low(d: Seq<u64>)
    ensures
        d.len() == 0 ==> digits_value(d) == 0,
        d.len() > 0 ==> digits_value(d) % 0x1_0000_0000_0000_0000 == d[0],
{
    if d.len() > 0 {
        let rest = digits_value(d.drop_first());
        lemma_div_mod_unique(digits_value(d), 0x1_0000_0000_0000_0000, rest, d[0] as nat);
    }
}

} // verus!
