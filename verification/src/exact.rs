//! What the kernel computes, as arithmetic: the exact sum or difference of
//! the operands' magnitudes, rounded to the nearest value of the format with
//! ties to even.
//!
//! Magnitudes are counted in units of the smallest subnormal, so every
//! finite pattern stands for a natural number and sums are exact.

use crate::add::{round_grs, sticky_shift};
use crate::add::{lemma_round_bounds, lemma_sticky_half};
use crate::arith::{
    lemma_bit_len_at_most, lemma_bit_len_bounds, lemma_bit_len_shift, lemma_bit_len_unique,
    lemma_div_mod_parts, lemma_div_mod_unique, lemma_div_pow2_twice, lemma_mod_pow2_split,
    lemma_normalize, lemma_pow2_le, lemma_pow2_small, lemma_pow2_step, lemma_pow2_sum,
    lemma_shift_below, lemma_small_shifts,
};
use crate::bignum::bit_len;
use crate::format::{lemma_fields_fit, lemma_layout_weights, lemma_pack_fields, Layout};
use crate::laws::lemma_absorb_zero;
use vstd::arithmetic::power2::pow2;
use vstd::prelude::*;

verus! {

/// `n` without its `k` low bits, rounded to nearest by what they hold: up
/// above the half, down below it, to the even neighbour on the half.
pub open spec fn round_at(n: nat, k: nat) -> nat {
    let q = n / pow2(k);
    let r = n % pow2(k);
    if 2 * r > pow2(k) || (2 * r == pow2(k) && q % 2 == 1) {
        q + 1
    } else {
        q
    }
}

impl Layout {
    /// The magnitude of a finite value in units of the smallest subnormal.
    pub open spec fn magnitude(self, exp: nat, man: nat) -> nat {
        if exp == 0 {
            man
        } else {
            (man + self.hidden()) * pow2((exp - 1) as nat)
        }
    }

    /// The pattern of positive infinity.
    pub open spec fn infinity(self) -> nat {
        self.max_exp() * self.hidden()
    }

    /// A pattern below the sign bit, held at infinity.
    pub open spec fn clamped(self, pattern: nat) -> nat {
        if pattern >= self.infinity() {
            self.infinity()
        } else {
            pattern
        }
    }

    /// A subnormal operand meets a normal one whose exponent field is below
    /// `S + 2`: near enough for the subnormal's bits to reach the rounding.
    pub open spec fn mixed(self, ea: nat, ma: nat, eb: nat, mb: nat) -> bool {
        (ea == 0 && ma != 0 && 0 < eb < self.sig + 2) || (eb == 0 && mb != 0 && 0 < ea < self.sig
            + 2)
    }

    /// The magnitude of a finite pattern in units of the smallest subnormal.
    pub open spec fn magnitude_of(self, bits: nat) -> nat {
        self.magnitude(self.exp_of(bits), self.man_of(bits))
    }

    /// Of two patterns one is subnormal and the other a normal near it.
    pub open spec fn mixed_pair(self, a: nat, b: nat) -> bool {
        self.mixed(self.exp_of(a), self.man_of(a), self.exp_of(b), self.man_of(b))
    }

    /// The pattern of the exact sum of two signed magnitudes, rounded to
    /// nearest with ties to even: the common sign above the rounded sum of
    /// the magnitudes, or the sign of the larger above their rounded
    /// difference; opposite equal magnitudes give positive zero.
    pub open spec fn rounded_sum(self, sa: nat, na: nat, sb: nat, nb: nat) -> nat {
        if sa == sb {
            sa * self.sign_weight() + self.nearest(na + nb)
        } else if na > nb {
            sa * self.sign_weight() + self.nearest((na - nb) as nat)
        } else if na < nb {
            sb * self.sign_weight() + self.nearest((nb - na) as nat)
        } else {
            0
        }
    }

    /// The number of low bits of `n` that do not fit a significand.
    pub open spec fn dropped_bits(self, n: nat) -> nat {
        if bit_len(n) > self.sig {
            (bit_len(n) - self.sig) as nat
        } else {
            0
        }
    }

    /// The positive pattern nearest to a magnitude of `n` units, ties to
    /// even: `n` itself while it fits the significand; beyond that, `n`
    /// rounded to the `S` leading bits under the exponent that counts the
    /// bits dropped; infinity past the largest finite value.
    pub open spec fn nearest(self, n: nat) -> nat {
        let k = self.dropped_bits(n);
        self.clamped(k * self.hidden() + round_at(n, k))
    }
}

/// A settled result is the sign above the pattern `exp * 2^(S-1) + man`,
/// held at infinity.
pub proof fn lemma_settle_pattern(l: Layout, sign: nat, exp: nat, man: nat)
    requires
        l.valid(),
        man < 2 * l.hidden(),
    ensures
        l.settle(sign, exp, man) == sign * l.sign_weight() + l.clamped(exp * l.hidden() + man),
{
    lemma_layout_weights(l);
    let h = l.hidden();
    let top = l.max_exp();
    let (e, m) = if man >= h {
        (exp + 1, (man - h) as nat)
    } else {
        (exp, man)
    };
    assert(e * h + m == exp * h + man) by (nonlinear_arith)
        requires
            (e == exp + 1 && m + h == man) || (e == exp && m == man),
    ;
    assert((e >= top) <==> (e * h + m >= top * h)) by (nonlinear_arith)
        requires
            m < h,
    ;
    assert(top * h + 0 == top * h);
}

/// Scaling a number by `2^j` scales its quotient by `2^(k+j)` not at all and
/// its remainder by `2^j`.
pub proof fn lemma_scaled_div_mod(x: nat, j: nat, k: nat)
    ensures
        (x * pow2(j)) / pow2(k + j) == x / pow2(k),
        (x * pow2(j)) % pow2(k + j) == (x % pow2(k)) * pow2(j),
{
    lemma_pow2_sum(k, j);
    lemma_div_mod_parts(x, pow2(k));
    let q = x / pow2(k);
    let r = x % pow2(k);
    assert(x * pow2(j) == q * pow2(k + j) + r * pow2(j)) by (nonlinear_arith)
        requires
            x == pow2(k) * q + r,
            pow2(k + j) == pow2(k) * pow2(j),
    ;
    assert(r * pow2(j) < pow2(k + j)) by (nonlinear_arith)
        requires
            r < pow2(k),
            pow2(j) >= 1,
            pow2(k + j) == pow2(k) * pow2(j),
    ;
    lemma_div_mod_unique(x * pow2(j), pow2(k + j), q, r * pow2(j));
}

/// Rounding does not depend on the scale: `j` more low zeros and `j` more
/// bits dropped give the same result.
pub proof fn lemma_round_at_scaled(x: nat, j: nat, k: nat)
    ensures
        round_at(x * pow2(j), k + j) == round_at(x, k),
{
    lemma_scaled_div_mod(x, j, k);
    lemma_pow2_sum(k, j);
    let r = x % pow2(k);
    assert((2 * (r * pow2(j)) > pow2(k + j)) <==> (2 * r > pow2(k))) by (nonlinear_arith)
        requires
            pow2(j) >= 1,
            pow2(k + j) == pow2(k) * pow2(j),
    ;
    assert((2 * (r * pow2(j)) == pow2(k + j)) <==> (2 * r == pow2(k))) by (nonlinear_arith)
        requires
            pow2(j) >= 1,
            pow2(k + j) == pow2(k) * pow2(j),
    ;
}

/// Two sticky shifts in a row are one sticky shift over both distances.
pub proof fn lemma_sticky_compose(x: nat, a: nat, b: nat)
    ensures
        sticky_shift(sticky_shift(x, a), b) == sticky_shift(x, a + b),
{
    lemma_pow2_small();
    lemma_pow2_le(0, a);
    lemma_pow2_le(0, b);
    let q = x / pow2(a);
    let r = x % pow2(a);
    let s = sticky_shift(x, a);
    lemma_div_pow2_twice(x, a, b);
    lemma_mod_pow2_split(x, a, b);
    if b == 0 {
        assert(s / pow2(b) == s);
        assert(s % pow2(b) == 0);
    } else {
        let j = (b - 1) as nat;
        lemma_pow2_step(j);
        assert(1 + j == b);
        // Halving first shows that setting the lowest bit of an even
        // number changes neither the quotient nor whether the remainder
        // vanishes.
        lemma_div_pow2_twice(q, 1, j);
        lemma_div_pow2_twice(s, 1, j);
        lemma_mod_pow2_split(q, 1, j);
        lemma_mod_pow2_split(s, 1, j);
        assert(s / 2 == q / 2);
        let pa = pow2(a);
        let t = q % pow2(b);
        assert((pa * t == 0) <==> (t == 0)) by (nonlinear_arith)
            requires
                pa >= 1,
                t >= 0,
        ;
    }
}

/// Rounding by guard, round and sticky after a sticky shift is rounding to
/// nearest, ties to even, of the number before the shift.
pub proof fn lemma_round_grs_sticky(x: nat, j: nat)
    ensures
        round_grs(sticky_shift(x, j)) == round_at(x, j + 3),
{
    lemma_pow2_small();
    lemma_pow2_le(0, j);
    lemma_pow2_sum(j, 3);
    lemma_div_pow2_twice(x, j, 3);
    lemma_mod_pow2_split(x, j, 3);
    lemma_div_mod_parts(x, pow2(j));
    let p = pow2(j);
    let q = x / p;
    let r = x % p;
    let c = q % 8;
    let low = x % pow2(j + 3);
    assert(low == p * c + r);
    assert(pow2(j + 3) == 8 * p);
    assert(c < 4 ==> 2 * low < 8 * p) by (nonlinear_arith)
        requires
            low == p * c + r,
            r < p,
    ;
    assert(c > 4 ==> 2 * low > 8 * p) by (nonlinear_arith)
        requires
            low == p * c + r,
            p >= 1,
    ;
    assert(c == 4 ==> 2 * low == 8 * p + 2 * r) by (nonlinear_arith)
        requires
            low == p * c + r,
    ;
}

/// A sticky shift passes over an even multiple of the power shifted out.
pub proof fn lemma_sticky_plus_multiple(y: nat, x: nat, k: nat)
    requires
        y % 2 == 0,
    ensures
        sticky_shift(y * pow2(k) + x, k) == y + sticky_shift(x, k),
{
    lemma_pow2_le(0, k);
    lemma_div_mod_parts(x, pow2(k));
    let q = x / pow2(k);
    let r = x % pow2(k);
    assert(y * pow2(k) + x == (y + q) * pow2(k) + r) by (nonlinear_arith)
        requires
            x == pow2(k) * q + r,
    ;
    lemma_div_mod_unique(y * pow2(k) + x, pow2(k), y + q, r);
}

/// A sticky shift of an even multiple less a smaller number is the multiple's
/// quotient less the sticky shift of that number.
pub proof fn lemma_sticky_minus(y: nat, x: nat, k: nat)
    requires
        y % 2 == 0,
        x <= y * pow2(k),
    ensures
        sticky_shift(x, k) <= y,
        sticky_shift((y * pow2(k) - x) as nat, k) == y - sticky_shift(x, k),
{
    lemma_pow2_le(0, k);
    lemma_div_mod_parts(x, pow2(k));
    let p = pow2(k);
    let q = x / p;
    let r = x % p;
    let d = (y * p - x) as nat;
    assert(q <= y) by (nonlinear_arith)
        requires
            p * q + r <= y * p,
            p >= 1,
    ;
    if r == 0 {
        assert(d == (y - q) * p + 0) by (nonlinear_arith)
            requires
                d == y * p - x,
                x == p * q,
                q <= y,
        ;
        lemma_div_mod_unique(d, p, (y - q) as nat, 0);
    } else {
        assert(q < y) by (nonlinear_arith)
            requires
                p * q + r <= y * p,
                r > 0,
                p >= 1,
        ;
        assert(d == (y - q - 1) * p + (p - r)) by (nonlinear_arith)
            requires
                d == y * p - x,
                x == p * q + r,
                q < y,
        ;
        lemma_div_mod_unique(d, p, (y - q - 1) as nat, (p - r) as nat);
    }
}

/// A sticky shift by one place, doubled again, rounds as the number itself.
pub proof fn lemma_round_grs_halved(z: nat)
    ensures
        round_grs(2 * sticky_shift(z, 1)) == round_grs(z),
{
    lemma_small_shifts(z);
    let q = z / 2;
    let s = sticky_shift(z, 1);
    assert(z / pow2(1) == q);
    assert(z % pow2(1) == z % 2);
    if z % 2 == 0 {
        assert(s == q);
        assert(2 * s == z);
    } else if q % 2 == 0 {
        assert(s == q + 1);
        assert(2 * s == z + 1);
        assert(z % 4 == 1);
        assert(z % 8 == 1 || z % 8 == 5);
        assert((z + 1) / 8 == z / 8);
        assert((z + 1) % 8 == z % 8 + 1);
    } else {
        assert(s == q);
        assert(2 * s == z - 1);
        assert(z % 4 == 3);
        assert(z % 8 == 3 || z % 8 == 7);
        assert((z - 1) / 8 == z / 8);
        assert((z - 1) % 8 == z % 8 - 1);
    }
}

/// After a left shift by one place the three low bits still round as the
/// number would with one bit more kept.
pub proof fn lemma_round_grs_doubled(x: nat, d: nat)
    requires
        d >= 1,
    ensures
        round_grs(2 * sticky_shift(x, d)) == round_at(x, d + 2),
{
    let z = sticky_shift(x, (d - 1) as nat);
    lemma_sticky_compose(x, (d - 1) as nat, 1);
    assert((d - 1) as nat + 1 == d);
    assert(sticky_shift(z, 1) == sticky_shift(x, d));
    lemma_round_grs_halved(z);
    lemma_round_grs_sticky(x, (d - 1) as nat);
    assert((d - 1) as nat + 3 == d + 2);
}

/// Rounding with no bits dropped changes nothing.
pub proof fn lemma_round_at_zero(n: nat)
    ensures
        round_at(n, 0) == n,
{
    lemma_pow2_small();
}

/// A quotient by a positive number lies below a bound exactly when the
/// number lies below the bound's multiple.
pub proof fn lemma_div_below(x: nat, p: nat, c: nat)
    requires
        p > 0,
    ensures
        (x / p < c) <==> (x < c * p),
{
    lemma_div_mod_parts(x, p);
    let q = x / p;
    let r = x % p;
    assert((q < c) <==> (p * q + r < c * p)) by (nonlinear_arith)
        requires
            r < p,
            p > 0,
    ;
}

/// The nearest pattern to a number below `2^S` is the number itself.
pub proof fn lemma_nearest_small(l: Layout, n: nat)
    requires
        l.valid(),
        n < 2 * l.hidden(),
    ensures
        l.nearest(n) == l.clamped(n),
{
    lemma_pow2_step((l.sig - 1) as nat);
    assert((l.sig - 1) as nat + 1 == l.sig);
    lemma_bit_len_at_most(n, l.sig);
    lemma_round_at_zero(n);
    assert(0 * l.hidden() == 0);
}

/// The nearest pattern to `m * 2^j`, where `m` has `S + k` bits: `m` rounded
/// to its `S` leading bits, under the exponent `k + j`.
pub proof fn lemma_nearest_scaled(l: Layout, m: nat, j: nat, k: nat)
    requires
        l.valid(),
        m > 0,
        bit_len(m) == l.sig + k,
    ensures
        l.nearest(m * pow2(j)) == l.clamped((k + j) * l.hidden() + round_at(m, k)),
{
    lemma_bit_len_shift(m, j);
    lemma_round_at_scaled(m, j, k);
}

/// A significand with its hidden bit has `S` bits, and a normal magnitude as
/// many more as its exponent exceeds one.
pub proof fn lemma_magnitude_bits(l: Layout, exp: nat, man: nat)
    requires
        l.valid(),
        exp >= 1,
        man < l.hidden(),
    ensures
        bit_len(man + l.hidden()) == l.sig,
        bit_len(l.magnitude(exp, man)) == l.sig + exp - 1,
        l.magnitude(exp, man) > 0,
{
    lemma_pow2_step((l.sig - 1) as nat);
    assert((l.sig - 1) as nat + 1 == l.sig);
    lemma_bit_len_unique(man + l.hidden(), l.sig);
    lemma_bit_len_shift(man + l.hidden(), (exp - 1) as nat);
    lemma_pow2_le(0, (exp - 1) as nat);
    assert((man + l.hidden()) * pow2((exp - 1) as nat) > 0) by (nonlinear_arith)
        requires
            man + l.hidden() > 0,
            pow2((exp - 1) as nat) >= 1,
    ;
}

/// Two subnormals or zeros add exactly.
pub proof fn lemma_subnormal_sum_exact(l: Layout, sign: nat, ma: nat, mb: nat)
    requires
        l.valid(),
        ma < l.hidden(),
        mb < l.hidden(),
    ensures
        l.settle(sign, 0, ma + mb) == sign * l.sign_weight() + l.nearest(ma + mb),
{
    lemma_settle_pattern(l, sign, 0, ma + mb);
    lemma_nearest_small(l, ma + mb);
    assert(0 * l.hidden() == 0);
}

/// Two normal magnitudes of one exponent add to the nearest pattern.
pub proof fn lemma_same_exponent_sum_exact(l: Layout, sign: nat, exp: nat, ma: nat, mb: nat)
    requires
        l.valid(),
        exp >= 1,
        exp != l.max_exp(),
        ma < l.hidden(),
        mb < l.hidden(),
    ensures
        l.effective_add(sign, exp, ma, sign, exp, mb) == sign * l.sign_weight() + l.nearest(
            l.magnitude(exp, ma) + l.magnitude(exp, mb),
        ),
{
    let h = l.hidden();
    let c = ma + mb + 2 * h;
    let c2 = if c % 4 == 3 {
        c + 2
    } else {
        c
    };
    let j = (exp - 1) as nat;
    lemma_pow2_small();
    lemma_layout_weights(l);
    lemma_pow2_step((l.sig - 1) as nat);
    lemma_pow2_step(l.sig);
    assert((l.sig - 1) as nat + 1 == l.sig);
    lemma_bit_len_unique(c, l.sig + 1);
    lemma_nearest_scaled(l, c, j, 1);
    assert(round_at(c, 1) == c2 / 2);
    lemma_settle_pattern(l, sign, exp + 1, (c2 / 2 - h) as nat);
    assert((exp + 1) * h + (c2 / 2 - h) == (1 + j) * h + c2 / 2) by (nonlinear_arith)
        requires
            exp == j + 1,
            c2 / 2 >= h,
    ;
    assert(l.magnitude(exp, ma) + l.magnitude(exp, mb) == c * pow2(j)) by (nonlinear_arith)
        requires
            l.magnitude(exp, ma) == (ma + h) * pow2(j),
            l.magnitude(exp, mb) == (mb + h) * pow2(j),
            c == ma + mb + 2 * h,
    ;
}

/// A normal magnitude plus zero is itself, and that is the nearest pattern.
pub proof fn lemma_aligned_zero_exact(l: Layout, sign: nat, exp: nat, man: nat)
    requires
        l.valid(),
        l.fields_fit(sign, exp, man),
        0 < exp < l.max_exp(),
    ensures
        l.aligned_sum(sign, exp, man, 0, 0) == sign * l.sign_weight() + l.nearest(
            l.magnitude(exp, man),
        ),
        l.aligned_difference(sign, exp, man, 0, 0) == sign * l.sign_weight() + l.nearest(
            l.magnitude(exp, man),
        ),
{
    let h = l.hidden();
    let a = man + h;
    let j = (exp - 1) as nat;
    lemma_absorb_zero(l, sign, exp, man);
    lemma_magnitude_bits(l, exp, man);
    lemma_nearest_scaled(l, a, j, 0);
    lemma_round_at_zero(a);
    assert((0 + j) * h + a == exp * h + man) by (nonlinear_arith)
        requires
            exp == j + 1,
            a == man + h,
    ;
    assert(exp * h + man < l.max_exp() * h) by (nonlinear_arith)
        requires
            exp < l.max_exp(),
            man < h,
    ;
}

/// Two normal magnitudes of different exponents add to the nearest pattern.
pub proof fn lemma_aligned_sum_exact(
    l: Layout,
    sign: nat,
    big_exp: nat,
    big_man: nat,
    small_exp: nat,
    small_man: nat,
)
    requires
        l.valid(),
        1 <= small_exp < big_exp,
        big_man < l.hidden(),
        small_man < l.hidden(),
    ensures
        l.aligned_sum(sign, big_exp, big_man, small_exp, small_man) == sign * l.sign_weight()
            + l.nearest(l.magnitude(big_exp, big_man) + l.magnitude(small_exp, small_man)),
{
    let h = l.hidden();
    let a = big_man + h;
    let b = small_man + h;
    let d = (big_exp - small_exp) as nat;
    let j = (small_exp - 1) as nat;
    let m = a * pow2(d) + b;
    let x = (8 * a) * pow2(d) + 8 * b;
    let p = pow2(d);
    lemma_pow2_small();
    lemma_layout_weights(l);
    lemma_pow2_le(1, d);
    lemma_pow2_step((l.sig - 1) as nat);
    assert((l.sig - 1) as nat + 1 == l.sig);
    // The aligned sum is one sticky shift of the exact sum, scaled by 2^d.
    lemma_sticky_plus_multiple(8 * a, 8 * b, d);
    let sum = 8 * a + sticky_shift(8 * b, d);
    assert(sum == sticky_shift(x, d));
    lemma_sticky_half(8 * b, d, 8 * h);
    assert(x == m * pow2(3)) by (nonlinear_arith)
        requires
            x == (8 * a) * p + 8 * b,
            m == a * p + b,
            pow2(3) == 8,
    ;
    // The exact sum is the magnitudes' sum, scaled by the smaller exponent.
    lemma_pow2_sum(d, j);
    assert(d + j == (big_exp - 1) as nat);
    assert(l.magnitude(big_exp, big_man) + l.magnitude(small_exp, small_man) == m * pow2(j))
        by (nonlinear_arith)
        requires
            l.magnitude(big_exp, big_man) == a * pow2((big_exp - 1) as nat),
            l.magnitude(small_exp, small_man) == b * pow2(j),
            pow2((big_exp - 1) as nat) == p * pow2(j),
            m == a * p + b,
    ;
    // Whether the sum carries shows in the bit length of the exact sum.
    lemma_pow2_sum((l.sig - 1) as nat, d);
    lemma_pow2_sum(l.sig, d);
    lemma_pow2_sum(l.sig + 1, d);
    lemma_pow2_step(l.sig);
    assert(pow2((l.sig - 1) as nat + d) <= m < pow2(l.sig + 1 + d)) by (nonlinear_arith)
        requires
            m == a * p + b,
            h <= a < 2 * h,
            b < 2 * h,
            p >= 2,
            pow2((l.sig - 1) as nat + d) == h * p,
            pow2(l.sig + 1 + d) == (4 * h) * p,
    ;
    lemma_div_below(x, p, 16 * h);
    assert((x < (16 * h) * p) <==> (m < pow2(l.sig + d))) by (nonlinear_arith)
        requires
            x == 8 * m,
            pow2(l.sig + d) == (2 * h) * p,
    ;
    lemma_div_mod_parts(x, p);
    if sum < 16 * h {
        assert(m < pow2(l.sig + d));
        assert((l.sig - 1) as nat + d == (l.sig + d - 1) as nat);
        lemma_bit_len_unique(m, l.sig + d);
        lemma_nearest_scaled(l, m, j, d);
        lemma_round_grs_sticky(x, d);
        lemma_round_at_scaled(m, 3, d);
        let r = round_grs(sum);
        assert(r == round_at(m, d));
        lemma_round_bounds(sum, h, 2 * h);
        lemma_settle_pattern(l, sign, big_exp, (r - h) as nat);
        assert(big_exp * h + (r - h) == (d + j) * h + r) by (nonlinear_arith)
            requires
                big_exp == d + j + 1,
                r >= h,
        ;
    } else {
        assert(m >= pow2(l.sig + d));
        assert(l.sig + 1 + d == l.sig + d + 1);
        lemma_bit_len_unique(m, l.sig + d + 1);
        lemma_nearest_scaled(l, m, j, d + 1);
        lemma_sticky_compose(x, d, 1);
        lemma_round_grs_sticky(x, d + 1);
        lemma_round_at_scaled(m, 3, d + 1);
        let carried = sticky_shift(sum, 1);
        let r = round_grs(carried);
        assert(r == round_at(m, d + 1));
        lemma_sticky_half(sum, 1, 16 * h);
        lemma_small_shifts(sum);
        lemma_round_bounds(carried, h, 2 * h);
        lemma_settle_pattern(l, sign, big_exp + 1, (r - h) as nat);
        assert((big_exp + 1) * h + (r - h) == (d + 1 + j) * h + r) by (nonlinear_arith)
            requires
                big_exp == d + j + 1,
                r >= h,
        ;
    }
}

/// A normal magnitude whose exponent field is at least `S + 2` takes up a
/// subnormal added to it or taken from it without a trace, and so does the
/// nearest pattern to the exact result.
pub proof fn lemma_aligned_far_exact(l: Layout, sign: nat, exp: nat, man: nat, small: nat)
    requires
        l.valid(),
        l.fields_fit(sign, exp, man),
        l.sig + 2 <= exp < l.max_exp(),
        0 < small < l.hidden(),
    ensures
        l.magnitude(exp, man) > small,
        l.aligned_sum(sign, exp, man, 0, small) == sign * l.sign_weight() + l.nearest(
            l.magnitude(exp, man) + small,
        ),
        l.aligned_difference(sign, exp, man, 0, small) == sign * l.sign_weight() + l.nearest(
            (l.magnitude(exp, man) - small) as nat,
        ),
{
    let h = l.hidden();
    let a = man + h;
    let k = (exp - 1) as nat;
    let p = pow2(k);
    let same = sign * l.sign_weight() + l.clamped(exp * h + man);
    lemma_pow2_small();
    lemma_layout_weights(l);
    lemma_pow2_step((l.sig - 1) as nat);
    assert((l.sig - 1) as nat + 1 == l.sig);
    lemma_pow2_sum((l.sig - 1) as nat, 3);
    lemma_pow2_sum((l.sig - 1) as nat, 4);
    assert((l.sig - 1) as nat + 3 == l.sig + 2);
    assert((l.sig - 1) as nat + 4 == l.sig + 3);
    lemma_small_shifts(h);
    lemma_pow2_le(l.sig + 2, exp);
    lemma_pow2_le(l.sig + 1, k);
    lemma_pow2_step(l.sig);
    lemma_pow2_step(k);
    assert(k + 1 == exp);
    assert(4 * h <= p);
    // The subnormal is shifted out whole and leaves the sticky bit.
    lemma_div_below(8 * small, pow2(exp), 1);
    lemma_div_mod_parts(8 * small, pow2(exp));
    assert(sticky_shift(8 * small, exp) == 1) by {
        let q = (8 * small) / pow2(exp);
        let r = (8 * small) % pow2(exp);
        assert(q == 0);
        assert(8 * small == pow2(exp) * q + r);
        assert(pow2(exp) * q == 0) by (nonlinear_arith)
            requires
                q == 0,
        ;
    }
    assert(exp * h + man == k * h + a) by (nonlinear_arith)
        requires
            exp == k + 1,
            a == man + h,
    ;
    // The sum rounds down to the normal operand.
    lemma_round_bounds(8 * a, a, a + 1);
    assert(round_grs(8 * a + 1) == a);
    lemma_settle_pattern(l, sign, exp, man);
    assert(l.aligned_sum(sign, exp, man, 0, small) == same);
    let n_sum = a * p + small;
    lemma_pow2_sum((l.sig - 1) as nat, k);
    lemma_pow2_sum(l.sig, k);
    assert(pow2((l.sig - 1) as nat + k) <= n_sum < pow2(l.sig + k)) by (nonlinear_arith)
        requires
            n_sum == a * p + small,
            h <= a < 2 * h,
            small < h,
            4 * h <= p,
            pow2((l.sig - 1) as nat + k) == h * p,
            pow2(l.sig + k) == (2 * h) * p,
    ;
    assert((l.sig - 1) as nat + k == (l.sig + k - 1) as nat);
    lemma_bit_len_unique(n_sum, l.sig + k);
    lemma_div_mod_unique(n_sum, p, a, small);
    assert(round_at(n_sum, k) == a);
    assert(l.nearest(n_sum) == l.clamped(k * h + a));
    // The difference rounds up to it.
    let d = (8 * a - 1) as nat;
    let n_diff = (a * p - small) as nat;
    assert(a * p > small) by (nonlinear_arith)
        requires
            a >= h,
            p >= 4 * h,
            small < h,
            h >= 1,
    ;
    if man > 0 {
        lemma_bit_len_unique(d, l.sig + 3);
        lemma_cancel_rounded_normal(l, sign, exp, d, 0);
        lemma_small_shifts(d);
        assert(round_grs(d) == a);
        assert((exp - 0 - 1) as nat == k);
        assert(n_diff == (a - 1) * p + (p - small)) by (nonlinear_arith)
            requires
                n_diff == a * p - small,
                small < p,
                a >= 1,
        ;
        assert(pow2((l.sig - 1) as nat + k) <= n_diff < pow2(l.sig + k)) by (nonlinear_arith)
            requires
                n_diff == (a - 1) * p + (p - small),
                h < a < 2 * h,
                small < p,
                small > 0,
                pow2((l.sig - 1) as nat + k) == h * p,
                pow2(l.sig + k) == (2 * h) * p,
        ;
        lemma_bit_len_unique(n_diff, l.sig + k);
        lemma_div_mod_unique(n_diff, p, (a - 1) as nat, (p - small) as nat);
        assert(round_at(n_diff, k) == a);
    } else {
        let kk = (k - 1) as nat;
        let pp = pow2(kk);
        lemma_pow2_step(kk);
        assert(kk + 1 == k);
        assert(2 * h <= pp);
        lemma_bit_len_unique(d, l.sig + 2);
        lemma_cancel_rounded_normal(l, sign, exp, d, 1);
        lemma_small_shifts(d);
        assert(round_grs(2 * d) == 2 * h);
        assert((exp - 1 - 1) as nat == kk);
        assert(kk * h + 2 * h == k * h + a) by (nonlinear_arith)
            requires
                k == kk + 1,
                a == h,
        ;
        assert(n_diff == (2 * h - 1) * pp + (pp - small)) by (nonlinear_arith)
            requires
                n_diff == a * p - small,
                a == h,
                p == 2 * pp,
                small < pp,
        ;
        lemma_pow2_sum((l.sig - 1) as nat, kk);
        lemma_pow2_sum(l.sig, kk);
        assert(pow2((l.sig - 1) as nat + kk) <= n_diff < pow2(l.sig + kk)) by (nonlinear_arith)
            requires
                n_diff == (2 * h - 1) * pp + (pp - small),
                h >= 1,
                0 < small < pp,
                pow2((l.sig - 1) as nat + kk) == h * pp,
                pow2(l.sig + kk) == (2 * h) * pp,
        ;
        assert((l.sig - 1) as nat + kk == (l.sig + kk - 1) as nat);
        lemma_bit_len_unique(n_diff, l.sig + kk);
        lemma_div_mod_unique(n_diff, pp, (2 * h - 1) as nat, (pp - small) as nat);
        assert(round_at(n_diff, kk) == 2 * h);
    }
}

/// Adding the magnitudes of two finite operands of one sign gives the
/// pattern nearest to the exact sum, unless a subnormal meets a normal near
/// it.
pub proof fn lemma_effective_add_exact(
    l: Layout,
    sign: nat,
    ea: nat,
    ma: nat,
    eb: nat,
    mb: nat,
)
    requires
        l.valid(),
        l.fields_fit(sign, ea, ma),
        l.fields_fit(sign, eb, mb),
        ea < l.max_exp(),
        eb < l.max_exp(),
        !l.mixed(ea, ma, eb, mb),
    ensures
        l.effective_add(sign, ea, ma, sign, eb, mb) == sign * l.sign_weight() + l.nearest(
            l.magnitude(ea, ma) + l.magnitude(eb, mb),
        ),
{
    if ea == eb {
        if ea == 0 {
            lemma_subnormal_sum_exact(l, sign, ma, mb);
        } else {
            lemma_same_exponent_sum_exact(l, sign, ea, ma, mb);
        }
    } else if ea > eb {
        if eb != 0 {
            lemma_aligned_sum_exact(l, sign, ea, ma, eb, mb);
        } else if mb == 0 {
            lemma_aligned_zero_exact(l, sign, ea, ma);
        } else {
            lemma_aligned_far_exact(l, sign, ea, ma, mb);
        }
    } else {
        if ea != 0 {
            lemma_aligned_sum_exact(l, sign, eb, mb, ea, ma);
        } else if ma == 0 {
            lemma_aligned_zero_exact(l, sign, eb, mb);
        } else {
            lemma_aligned_far_exact(l, sign, eb, mb, ma);
        }
    }
}

/// Magnitudes are ordered as exponent and mantissa are, exponent first.
pub proof fn lemma_magnitude_order(l: Layout, ea: nat, ma: nat, eb: nat, mb: nat)
    requires
        l.valid(),
        ma < l.hidden(),
        mb < l.hidden(),
    ensures
        ea > eb ==> l.magnitude(ea, ma) > l.magnitude(eb, mb),
        ea == eb ==> (l.magnitude(ea, ma) > l.magnitude(eb, mb) <==> ma > mb),
        ea == eb ==> (l.magnitude(ea, ma) == l.magnitude(eb, mb) <==> ma == mb),
{
    let h = l.hidden();
    lemma_layout_weights(l);
    if ea > eb {
        let pa = pow2((ea - 1) as nat);
        lemma_pow2_le(0, (ea - 1) as nat);
        assert((ma + h) * pa >= h * pa >= h) by (nonlinear_arith)
            requires
                pa >= 1,
        ;
        if eb >= 1 {
            let pb = pow2((eb - 1) as nat);
            lemma_pow2_step((eb - 1) as nat);
            assert((eb - 1) as nat + 1 == eb);
            lemma_pow2_le(eb, (ea - 1) as nat);
            assert((mb + h) * pb < h * pa) by (nonlinear_arith)
                requires
                    mb < h,
                    2 * pb <= pa,
                    pb >= 1,
            ;
        }
    } else if ea == eb && ea >= 1 {
        let p = pow2((ea - 1) as nat);
        lemma_pow2_le(0, (ea - 1) as nat);
        assert((ma > mb) <==> ((ma + h) * p > (mb + h) * p)) by (nonlinear_arith)
            requires
                p >= 1,
        ;
        assert((ma == mb) <==> ((ma + h) * p == (mb + h) * p)) by (nonlinear_arith)
            requires
                p >= 1,
        ;
    }
}

/// The quotient of a number by a power of two that it reaches has as many
/// fewer bits as the power's exponent.
pub proof fn lemma_bit_len_div(x: nat, d: nat)
    requires
        x >= pow2(d),
    ensures
        bit_len(x) > d,
        bit_len(x / pow2(d)) == bit_len(x) - d,
{
    let b = bit_len(x);
    let p = pow2(d);
    lemma_pow2_le(0, d);
    lemma_bit_len_bounds(x);
    if b <= d {
        lemma_pow2_le(b, d);
    }
    lemma_pow2_sum((b - d) as nat, d);
    lemma_pow2_sum((b - 1 - d) as nat, d);
    assert((b - d) as nat + d == b);
    assert((b - 1 - d) as nat + d == (b - 1) as nat);
    lemma_div_below(x, p, pow2((b - d) as nat));
    lemma_div_below(x, p, pow2((b - 1 - d) as nat));
    assert((b - 1 - d) as nat == ((b - d) as nat - 1) as nat);
    lemma_bit_len_unique(x / p, (b - d) as nat);
}

/// A sticky shift of a number that reaches the power shifted out takes as
/// many bits off its length as places were shifted.
pub proof fn lemma_sticky_bit_len(x: nat, d: nat)
    requires
        x >= pow2(d),
    ensures
        bit_len(sticky_shift(x, d)) == bit_len(x) - d,
{
    lemma_bit_len_div(x, d);
    let q = x / pow2(d);
    let t = (bit_len(x) - d) as nat;
    lemma_bit_len_bounds(q);
    lemma_pow2_step((t - 1) as nat);
    assert((t - 1) as nat + 1 == t);
    let half = pow2((t - 1) as nat);
    assert(bit_len(q) == t);
    lemma_pow2_le(0, d);
    lemma_div_below(x, pow2(d), 1);
    assert(q > 0);
    assert(half <= q < 2 * half);
    if q % 2 == 0 {
        assert(q == 2 * (q / 2));
        assert(q + 1 < 2 * half);
    }
    lemma_bit_len_unique(sticky_shift(x, d), t);
}

/// Two subnormals or zeros subtract exactly.
pub proof fn lemma_subnormal_difference_exact(l: Layout, sign: nat, d: nat)
    requires
        l.valid(),
        d < l.hidden(),
    ensures
        l.pack(sign, 0, d) == sign * l.sign_weight() + l.nearest(d),
{
    lemma_layout_weights(l);
    lemma_nearest_small(l, d);
    assert(0 * l.hidden() == 0);
    assert(l.max_exp() * l.hidden() >= l.hidden()) by (nonlinear_arith)
        requires
            l.max_exp() >= 1,
    ;
}

/// The difference of two normal mantissas of one exponent is packed as the
/// pattern nearest to the exact difference, which it equals.
pub proof fn lemma_cancel_exact_exact(l: Layout, sign: nat, exp: nat, d: nat)
    requires
        l.valid(),
        1 <= exp < l.max_exp(),
        1 <= d < l.hidden(),
    ensures
        l.cancel_exact(sign, exp, d) == sign * l.sign_weight() + l.nearest(
            d * pow2((exp - 1) as nat),
        ),
{
    let h = l.hidden();
    let n = d * pow2((exp - 1) as nat);
    lemma_layout_weights(l);
    lemma_bit_len_bounds(d);
    lemma_bit_len_at_most(d, (l.sig - 1) as nat);
    let k = (l.sig - bit_len(d)) as nat;
    if k < exp {
        let y = d * pow2(k);
        let jj = (exp - 1 - k) as nat;
        lemma_normalize(d, l.sig);
        lemma_pow2_step((l.sig - 1) as nat);
        assert((l.sig - 1) as nat + 1 == l.sig);
        lemma_bit_len_unique(y, l.sig);
        lemma_pow2_sum(k, jj);
        assert(k + jj == (exp - 1) as nat);
        assert(n == y * pow2(jj)) by (nonlinear_arith)
            requires
                n == d * pow2((exp - 1) as nat),
                y == d * pow2(k),
                pow2((exp - 1) as nat) == pow2(k) * pow2(jj),
        ;
        lemma_nearest_scaled(l, y, jj, 0);
        lemma_round_at_zero(y);
        assert((exp - k) * h + (y - h) == (0 + jj) * h + y) by (nonlinear_arith)
            requires
                exp == jj + 1 + k,
                y >= h,
        ;
        assert((0 + jj) * h + y < l.max_exp() * h) by (nonlinear_arith)
            requires
                jj + 2 <= l.max_exp(),
                y < 2 * h,
        ;
    } else {
        lemma_shift_below(d, (exp - 1) as nat, (l.sig - 1) as nat);
        lemma_subnormal_difference_exact(l, sign, n);
    }
}

/// A difference with three rounding bits whose leading one lies `shift`
/// places below the top is packed, where the exponent allows the shift, as
/// the sign above the lowered exponent and the rounded significand.
pub proof fn lemma_cancel_rounded_normal(l: Layout, sign: nat, exp: nat, diff: nat, shift: nat)
    requires
        l.valid(),
        diff > 0,
        bit_len(diff) + shift == l.sig + 3,
        shift < exp,
    ensures
        l.hidden() <= round_grs(diff * pow2(shift)) <= 2 * l.hidden(),
        l.cancel_rounded(sign, exp, diff) == sign * l.sign_weight() + l.clamped(
            (exp - shift - 1) as nat * l.hidden() + round_grs(diff * pow2(shift)),
        ),
{
    let h = l.hidden();
    let v = round_grs(diff * pow2(shift));
    lemma_pow2_small();
    lemma_pow2_sum((l.sig - 1) as nat, 3);
    lemma_pow2_sum((l.sig - 1) as nat, 4);
    assert((l.sig - 1) as nat + 3 == (l.sig + 3 - 1) as nat);
    assert((l.sig - 1) as nat + 4 == l.sig + 3);
    lemma_small_shifts(h);
    lemma_normalize(diff, l.sig + 3);
    lemma_round_bounds(diff * pow2(shift), h, 2 * h);
    lemma_settle_pattern(l, sign, (exp - shift) as nat, (v - h) as nat);
    assert((exp - shift) * h + (v - h) == (exp - shift - 1) * h + v) by (nonlinear_arith)
        requires
            shift < exp,
            v >= h,
    ;
}

/// Two normal magnitudes of different exponents subtract to the nearest
/// pattern.
pub proof fn lemma_aligned_difference_exact(
    l: Layout,
    sign: nat,
    big_exp: nat,
    big_man: nat,
    small_exp: nat,
    small_man: nat,
)
    requires
        l.valid(),
        1 <= small_exp < big_exp,
        big_man < l.hidden(),
        small_man < l.hidden(),
    ensures
        l.magnitude(big_exp, big_man) > l.magnitude(small_exp, small_man),
        l.aligned_difference(sign, big_exp, big_man, small_exp, small_man) == sign
            * l.sign_weight() + l.nearest(
            (l.magnitude(big_exp, big_man) - l.magnitude(small_exp, small_man)) as nat,
        ),
{
    let h = l.hidden();
    let a = big_man + h;
    let b = small_man + h;
    let d = (big_exp - small_exp) as nat;
    let j = (small_exp - 1) as nat;
    let p = pow2(d);
    let m = (a * p - b) as nat;
    let x = ((8 * a) * p - 8 * b) as nat;
    let n = (l.magnitude(big_exp, big_man) - l.magnitude(small_exp, small_man)) as nat;
    lemma_pow2_small();
    lemma_layout_weights(l);
    lemma_magnitude_order(l, big_exp, big_man, small_exp, small_man);
    lemma_pow2_le(1, d);
    lemma_pow2_step((l.sig - 1) as nat);
    assert((l.sig - 1) as nat + 1 == l.sig);
    assert(b < a * p) by (nonlinear_arith)
        requires
            b < 2 * h,
            a >= h,
            p >= 2,
    ;
    assert(8 * b <= (8 * a) * p) by (nonlinear_arith)
        requires
            b < a * p,
    ;
    // The aligned difference is one sticky shift of the exact difference,
    // scaled by 2^d.
    lemma_sticky_minus(8 * a, 8 * b, d);
    let diff = (8 * a - sticky_shift(8 * b, d)) as nat;
    assert(diff == sticky_shift(x, d));
    assert(x == m * pow2(3) && x == 8 * m) by (nonlinear_arith)
        requires
            x == (8 * a) * p - 8 * b,
            m == a * p - b,
            b < a * p,
            pow2(3) == 8,
    ;
    lemma_pow2_sum(d, j);
    assert(d + j == (big_exp - 1) as nat);
    assert(n == m * pow2(j)) by (nonlinear_arith)
        requires
            n == a * pow2((big_exp - 1) as nat) - b * pow2(j),
            pow2((big_exp - 1) as nat) == p * pow2(j),
            m == a * p - b,
            b < a * p,
    ;
    // The length of the difference follows from the length of the exact one.
    lemma_pow2_sum(l.sig, d);
    assert(m < pow2(l.sig + d)) by (nonlinear_arith)
        requires
            m == a * p - b,
            b < a * p,
            a < 2 * h,
            pow2(l.sig + d) == (2 * h) * p,
    ;
    lemma_bit_len_at_most(m, l.sig + d);
    lemma_bit_len_shift(m, 3);
    assert(x >= p) by (nonlinear_arith)
        requires
            x == 8 * (a * p - b),
            b < 2 * h,
            a >= h,
            p >= 2,
            h >= 2,
    ;
    lemma_sticky_bit_len(x, d);
    let shift = (l.sig + d - bit_len(m)) as nat;
    assert(bit_len(diff) + shift == l.sig + 3);
    if d >= 2 {
        // Exponents two or more apart leave room for one place of
        // cancellation at most.
        lemma_pow2_sum((l.sig - 1) as nat, (d - 1) as nat);
        lemma_pow2_step((d - 1) as nat);
        assert((d - 1) as nat + 1 == d);
        let half = pow2((d - 1) as nat);
        lemma_pow2_le(1, (d - 1) as nat);
        assert(m >= h * half) by (nonlinear_arith)
            requires
                m == a * p - b,
                b < 2 * h,
                a >= h,
                p == 2 * half,
                half >= 2,
        ;
        lemma_bit_len_bounds(m);
        assert((l.sig - 1) as nat + (d - 1) as nat == l.sig + d - 2);
        if bit_len(m) < l.sig + d - 1 {
            lemma_pow2_le(bit_len(m), (l.sig + d - 2) as nat);
        }
        assert(shift <= 1);
    }
    if shift < big_exp {
        lemma_cancel_rounded_normal(l, sign, big_exp, diff, shift);
        let v = round_grs(diff * pow2(shift));
        if shift == 0 {
            lemma_small_shifts(diff);
            lemma_nearest_scaled(l, m, j, d);
            lemma_round_grs_sticky(x, d);
            lemma_round_at_scaled(m, 3, d);
            assert((big_exp - shift - 1) as nat * h == (d + j) * h) by (nonlinear_arith)
                requires
                    (big_exp - shift - 1) as nat == d + j,
            ;
        } else if shift == 1 {
            lemma_small_shifts(diff);
            lemma_nearest_scaled(l, m, j, (d - 1) as nat);
            lemma_round_grs_doubled(x, d);
            lemma_round_at_scaled(m, 3, (d - 1) as nat);
            assert((d - 1) as nat + 3 == d + 2);
            assert((big_exp - shift - 1) as nat * h == ((d - 1) as nat + j) * h)
                by (nonlinear_arith)
                requires
                    (big_exp - shift - 1) as nat == (d - 1) as nat + j,
            ;
        } else {
            // One exponent apart nothing was shifted out, and the
            // difference stays exact however far it is shifted left.
            assert(d == 1);
            lemma_exact_cancellation(l, m, j, shift);
            assert(diff == 4 * m);
            let y = m * pow2((shift - 1) as nat);
            lemma_pow2_step((shift - 1) as nat);
            assert((shift - 1) as nat + 1 == shift);
            assert(diff * pow2(shift) == 8 * y) by (nonlinear_arith)
                requires
                    diff == 4 * m,
                    y == m * pow2((shift - 1) as nat),
                    pow2(shift) == 2 * pow2((shift - 1) as nat),
            ;
            lemma_round_bounds(8 * y, y, y + 1);
            assert((big_exp - shift - 1) as nat * h == (0 + (j + 1 - shift) as nat) * h)
                by (nonlinear_arith)
                requires
                    (big_exp - shift - 1) as nat == 0 + (j + 1 - shift) as nat,
            ;
        }
    } else {
        assert(d == 1);
        assert(diff == 4 * m);
        let e = (big_exp - 1) as nat;
        lemma_pow2_step(j);
        assert(j + 1 == e);
        assert(diff * pow2(e) == 8 * n) by (nonlinear_arith)
            requires
                diff == 4 * m,
                n == m * pow2(j),
                pow2(e) == 2 * pow2(j),
        ;
        lemma_round_bounds(8 * n, n, n + 1);
        lemma_shift_below(m, j, (l.sig - 1) as nat);
        lemma_settle_pattern(l, sign, 0, n);
        lemma_nearest_small(l, n);
        assert(0 * h == 0);
    }
}

/// A number of fewer than `S` bits, shifted left until it has `S`, is the
/// significand of the nearest pattern to any further multiple of it.
pub proof fn lemma_exact_cancellation(l: Layout, m: nat, j: nat, shift: nat)
    requires
        l.valid(),
        m > 0,
        shift >= 1,
        bit_len(m) + shift == l.sig + 1,
        shift <= j + 1,
    ensures
        l.nearest(m * pow2(j)) == l.clamped(
            (0 + (j + 1 - shift) as nat) * l.hidden() + m * pow2((shift - 1) as nat),
        ),
{
    let y = m * pow2((shift - 1) as nat);
    let jj = (j + 1 - shift) as nat;
    lemma_bit_len_shift(m, (shift - 1) as nat);
    lemma_pow2_sum((shift - 1) as nat, jj);
    assert((shift - 1) as nat + jj == j);
    assert(m * pow2(j) == y * pow2(jj)) by (nonlinear_arith)
        requires
            y == m * pow2((shift - 1) as nat),
            pow2(j) == pow2((shift - 1) as nat) * pow2(jj),
    ;
    lemma_nearest_scaled(l, y, jj, 0);
    lemma_round_at_zero(y);
}

/// Subtracting the magnitudes of two finite operands gives the pattern
/// nearest to the exact difference, under the sign of the larger, unless a
/// subnormal meets a normal near it.
pub proof fn lemma_effective_sub_exact(
    l: Layout,
    sa: nat,
    ea: nat,
    ma: nat,
    sb: nat,
    eb: nat,
    mb: nat,
)
    requires
        l.valid(),
        l.fields_fit(sa, ea, ma),
        l.fields_fit(sb, eb, mb),
        ea < l.max_exp(),
        eb < l.max_exp(),
        !l.mixed(ea, ma, eb, mb),
    ensures
        l.effective_sub(sa, ea, ma, sb, eb, mb) == l.rounded_sum(
            sa,
            l.magnitude(ea, ma),
            (1 - sa) as nat,
            l.magnitude(eb, mb),
        ),
{
    let flipped = (1 - sa) as nat;
    lemma_magnitude_order(l, ea, ma, eb, mb);
    lemma_magnitude_order(l, eb, mb, ea, ma);
    if ea == eb {
        if ma == mb {
        } else if ea == 0 {
            if ma > mb {
                lemma_subnormal_difference_exact(l, sa, (ma - mb) as nat);
            } else {
                lemma_subnormal_difference_exact(l, flipped, (mb - ma) as nat);
            }
        } else {
            let p = pow2((ea - 1) as nat);
            let h = l.hidden();
            if ma > mb {
                lemma_cancel_exact_exact(l, sa, ea, (ma - mb) as nat);
                assert((ma - mb) * p == (ma + h) * p - (mb + h) * p) by (nonlinear_arith)
                    requires
                        ma > mb,
                ;
            } else {
                lemma_cancel_exact_exact(l, flipped, ea, (mb - ma) as nat);
                assert((mb - ma) * p == (mb + h) * p - (ma + h) * p) by (nonlinear_arith)
                    requires
                        mb > ma,
                ;
            }
        }
    } else if ea > eb {
        if eb != 0 {
            lemma_aligned_difference_exact(l, sa, ea, ma, eb, mb);
        } else if mb == 0 {
            lemma_aligned_zero_exact(l, sa, ea, ma);
        } else {
            lemma_aligned_far_exact(l, sa, ea, ma, mb);
        }
    } else {
        if ea != 0 {
            lemma_aligned_difference_exact(l, flipped, eb, mb, ea, ma);
        } else if ma == 0 {
            lemma_aligned_zero_exact(l, flipped, eb, mb);
        } else {
            lemma_aligned_far_exact(l, flipped, eb, mb, ma);
        }
    }
}

/// The sum of two finite patterns is the pattern nearest to the exact sum of
/// the values they stand for, ties to even, unless one is subnormal and the
/// other a normal with an exponent field below `S + 2`: those are aligned by
/// the difference of the exponent fields, and their sum need not be the
/// nearest pattern.
pub proof fn lemma_add_correctly_rounded(l: Layout, a: nat, b: nat)
    requires
        l.valid(),
        l.exp_of(a) != l.max_exp(),
        l.exp_of(b) != l.max_exp(),
        !l.mixed_pair(a, b),
    ensures
        l.added(a, b) == l.rounded_sum(
            l.sign_of(a),
            l.magnitude_of(a),
            l.sign_of(b),
            l.magnitude_of(b),
        ),
{
    lemma_fields_fit(l, a);
    lemma_fields_fit(l, b);
    let sa = l.sign_of(a);
    let sb = l.sign_of(b);
    if sa != sb {
        assert((1 - sa) as nat == sb);
        lemma_effective_sub_exact(l, sa, l.exp_of(a), l.man_of(a), sb, l.exp_of(b), l.man_of(b));
    } else {
        lemma_effective_add_exact(l, sa, l.exp_of(a), l.man_of(a), l.exp_of(b), l.man_of(b));
    }
}

/// The difference of two finite patterns is the pattern nearest to the exact
/// difference of the values they stand for, ties to even, unless one is
/// subnormal and the other a normal with an exponent field below `S + 2`.
pub proof fn lemma_sub_correctly_rounded(l: Layout, a: nat, b: nat)
    requires
        l.valid(),
        l.exp_of(a) != l.max_exp(),
        l.exp_of(b) != l.max_exp(),
        !l.mixed_pair(a, b),
    ensures
        l.subtracted(a, b) == l.rounded_sum(
            l.sign_of(a),
            l.magnitude_of(a),
            (1 - l.sign_of(b)) as nat,
            l.magnitude_of(b),
        ),
{
    lemma_fields_fit(l, a);
    lemma_fields_fit(l, b);
    let sa = l.sign_of(a);
    let sb = l.sign_of(b);
    if sa != sb {
        assert((1 - sb) as nat == sa);
        lemma_effective_add_exact(l, sa, l.exp_of(a), l.man_of(a), l.exp_of(b), l.man_of(b));
    } else {
        lemma_effective_sub_exact(l, sa, l.exp_of(a), l.man_of(a), sb, l.exp_of(b), l.man_of(b));
    }
}

/// What makes the nearest pattern nearest: where it is finite, it stands for
/// a multiple of the unit in the last place kept, no farther from `n` than
/// half that unit, and for an even multiple where `n` lies on the half.
/// Where no bit is dropped it stands for `n` itself.
pub proof fn lemma_nearest_is_near(l: Layout, n: nat)
    requires
        l.valid(),
        l.nearest(n) < l.infinity(),
    ensures
        l.sign_of(l.nearest(n)) == 0,
        l.magnitude_of(l.nearest(n)) % pow2(l.dropped_bits(n)) == 0,
        2 * (l.magnitude_of(l.nearest(n)) - n) <= pow2(l.dropped_bits(n)),
        2 * (n - l.magnitude_of(l.nearest(n))) <= pow2(l.dropped_bits(n)),
        2 * (l.magnitude_of(l.nearest(n)) - n) == pow2(l.dropped_bits(n)) || 2 * (n
            - l.magnitude_of(l.nearest(n))) == pow2(l.dropped_bits(n)) ==> (l.magnitude_of(
            l.nearest(n),
        ) / pow2(l.dropped_bits(n))) % 2 == 0,
        l.dropped_bits(n) == 0 ==> l.magnitude_of(l.nearest(n)) == n,
{
    let h = l.hidden();
    let k = l.dropped_bits(n);
    let p = pow2(k);
    let v0 = round_at(n, k);
    let r = l.nearest(n);
    lemma_layout_weights(l);
    lemma_pow2_small();
    lemma_pow2_le(0, k);
    lemma_pow2_step((l.sig - 1) as nat);
    assert((l.sig - 1) as nat + 1 == l.sig);
    lemma_bit_len_bounds(n);
    assert(r == k * h + v0);
    if k == 0 {
        if bit_len(n) < l.sig {
            lemma_pow2_le(bit_len(n), l.sig);
        }
        assert(n < 2 * h);
        lemma_round_at_zero(n);
        assert(0 * h == 0);
        lemma_div_mod_parts(n, h);
        let e = n / h;
        let m = n % h;
        assert(e < 2) by (nonlinear_arith)
            requires
                n == h * e + m,
                n < 2 * h,
        ;
        assert(l.pack(0, e, m) == n) by (nonlinear_arith)
            requires
                l.pack(0, e, m) == 0 * l.sign_weight() + e * h + m,
                n == h * e + m,
        ;
        lemma_pack_fields(l, 0, e, m);
        assert((m + h) * pow2(0) == m + h) by (nonlinear_arith)
            requires
                pow2(0) == 1,
        ;
        assert(e == 1 ==> n == m + h) by (nonlinear_arith)
            requires
                n == h * e + m,
        ;
        assert(e == 0 ==> n == m) by (nonlinear_arith)
            requires
                n == h * e + m,
        ;
    } else {
        lemma_pow2_sum((l.sig - 1) as nat, k);
        lemma_pow2_sum(l.sig, k);
        assert((l.sig - 1) as nat + k == (bit_len(n) - 1) as nat);
        assert(l.sig + k == bit_len(n));
        lemma_div_below(n, p, h);
        lemma_div_below(n, p, 2 * h);
        lemma_div_mod_parts(n, p);
        let q = n / p;
        let rem = n % p;
        assert(h <= q < 2 * h);
        let (e, m) = if v0 < 2 * h {
            (k + 1, (v0 - h) as nat)
        } else {
            (k + 2, 0nat)
        };
        assert(e * h + m == k * h + v0) by (nonlinear_arith)
            requires
                (e == k + 1 && m + h == v0) || (e == k + 2 && m == 0 && v0 == 2 * h),
        ;
        assert(e < l.max_exp()) by (nonlinear_arith)
            requires
                e * h + m < l.max_exp() * h,
                h >= 1,
        ;
        assert(l.pack(0, e, m) == e * h + m) by (nonlinear_arith)
            requires
                l.pack(0, e, m) == 0 * l.sign_weight() + e * h + m,
        ;
        lemma_pack_fields(l, 0, e, m);
        lemma_pow2_step(k);
        let mag = l.magnitude(e, m);
        assert(mag == v0 * p) by (nonlinear_arith)
            requires
                mag == (m + h) * pow2((e - 1) as nat),
                (e == k + 1 && m + h == v0 && pow2((e - 1) as nat) == p) || (e == k + 2 && m == 0
                    && v0 == 2 * h && pow2((e - 1) as nat) == 2 * p),
        ;
        lemma_div_mod_unique(mag, p, v0, 0);
        assert(mag - n == (v0 - q) * p - rem) by (nonlinear_arith)
            requires
                mag == v0 * p,
                n == p * q + rem,
        ;
        assert(v0 == q || v0 == q + 1);
        assert(mag - n == (if v0 == q {
            0 - rem
        } else {
            p - rem
        })) by (nonlinear_arith)
            requires
                mag - n == (v0 - q) * p - rem,
                v0 == q || v0 == q + 1,
        ;
    }
}

} // verus!
