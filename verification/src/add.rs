//! The addition and subtraction kernel.
//!
//! Both operations decompose their operands and dispatch on the signs to an
//! effective addition (magnitudes add) or an effective subtraction
//! (magnitudes subtract). Operands with different exponents are aligned with
//! three extra low bits, guard, round and sticky, which decide the rounding
//! to nearest, ties to even.
//!
//! The smaller operand is aligned by the difference of the two exponent
//! fields, also where its own field is zero. For all other operands the
//! result is the exact sum rounded; see
//! [`mixed`](crate::format::Layout::mixed) for the pairs left out.

use crate::arith::{
    lemma_and_low_mask, lemma_bit_len_at_most, lemma_bit_len_bounds, lemma_div_mod_parts, lemma_div_pow2_twice, lemma_normalize, lemma_or_one, lemma_pow2_le,
    lemma_pow2_small, lemma_pow2_step, lemma_pow2_sum, lemma_shift_below, lemma_small_shifts,
};
use crate::bignum::{
    big_add, big_and, big_bits, big_eq, big_from, big_lt, big_or, big_shl, big_shr, big_sub,
    big_value, bit_len,
};
use crate::format::{
    extract, from_biguint, layout_of, lemma_layout_weights, lemma_pack_fields, pack,
    FloatType, Layout,
};
use num_bigint::BigUint;
use vstd::arithmetic::power2::pow2;
use vstd::prelude::*;

verus! {

/// `m` shifted right by `k` places, with the lowest bit of the result set if
/// any one was shifted out.
pub open spec fn sticky_shift(m: nat, k: nat) -> nat {
    let q = m / pow2(k);
    if m % pow2(k) != 0 && q % 2 == 0 {
        q + 1
    } else {
        q
    }
}

/// `x` without its three low bits, rounded to nearest by them: up above the
/// half, down below it, and to the even neighbour on the half.
pub open spec fn round_grs(x: nat) -> nat {
    let q = x / 8;
    let low = x % 8;
    if low > 4 || (low == 4 && q % 2 == 1) {
        q + 1
    } else {
        q
    }
}

impl Layout {
    /// The significand that a mantissa stands for: with the hidden bit unless
    /// the exponent field is zero.
    pub open spec fn with_hidden(self, exp: nat, man: nat) -> nat {
        if exp == 0 {
            man
        } else {
            man + self.hidden()
        }
    }

    /// The pattern of a finite result whose mantissa may have reached the
    /// hidden bit: that carry moves into the exponent, and an exponent that
    /// reaches the maximum gives infinity.
    pub open spec fn settle(self, sign: nat, exp: nat, man: nat) -> nat {
        let (e, m) = if man >= self.hidden() {
            (exp + 1, (man - self.hidden()) as nat)
        } else {
            (exp, man)
        };
        if e >= self.max_exp() {
            self.pack(sign, self.max_exp(), 0)
        } else {
            self.pack(sign, e, m)
        }
    }

    /// The pattern of one operand, which is infinite or NaN, handed on.
    pub open spec fn propagate(self, sa: nat, ma: nat, sb: nat, mb: nat) -> nat {
        if ma != 0 || mb == 0 {
            self.pack(sa, self.max_exp(), ma)
        } else {
            self.pack(sb, self.max_exp(), mb)
        }
    }

    /// The result where only the second operand is infinite or NaN: a NaN is
    /// handed on as it is, an infinity takes the sign of the result.
    pub open spec fn second_special(self, sign: nat, sb: nat, mb: nat) -> nat {
        if mb != 0 {
            self.pack(sb, self.max_exp(), mb)
        } else {
            self.pack(sign, self.max_exp(), 0)
        }
    }

    /// Sum of two finite magnitudes with different exponents, the first the
    /// larger: the smaller is aligned by a sticky shift over the difference of
    /// the exponent fields; a sum that carries is brought back by a sticky
    /// shift of one place; the sum is rounded by its three low bits.
    pub open spec fn aligned_sum(
        self,
        sign: nat,
        big_exp: nat,
        big_man: nat,
        small_exp: nat,
        small_man: nat,
    ) -> nat {
        let small = sticky_shift(
            8 * self.with_hidden(small_exp, small_man),
            (big_exp - small_exp) as nat,
        );
        let sum = 8 * (big_man + self.hidden()) + small;
        if sum >= 16 * self.hidden() {
            self.settle(
                sign,
                big_exp + 1,
                (round_grs(sticky_shift(sum, 1)) - self.hidden()) as nat,
            )
        } else {
            self.settle(sign, big_exp, (round_grs(sum) - self.hidden()) as nat)
        }
    }

    /// Magnitudes add: the operands have the same effective sign.
    pub open spec fn effective_add(
        self,
        sa: nat,
        ea: nat,
        ma: nat,
        sb: nat,
        eb: nat,
        mb: nat,
    ) -> nat {
        if ea == eb {
            if ea == 0 {
                self.settle(sa, 0, ma + mb)
            } else if ea == self.max_exp() {
                self.propagate(sa, ma, sb, mb)
            } else {
                let c = ma + mb + 2 * self.hidden();
                let c = if c % 4 == 3 {
                    c + 2
                } else {
                    c
                };
                self.settle(sa, ea + 1, (c / 2 - self.hidden()) as nat)
            }
        } else if ea == self.max_exp() {
            self.pack(sa, ea, ma)
        } else if eb == self.max_exp() {
            self.second_special(sa, sb, mb)
        } else if ea > eb {
            self.aligned_sum(sa, ea, ma, eb, mb)
        } else {
            self.aligned_sum(sa, eb, mb, ea, ma)
        }
    }

    /// The pattern of a non-zero difference `d` of two mantissas under the
    /// exponent `exp`: shifted left until its leading one is the hidden bit,
    /// the exponent lowered by as much; where the exponent would reach zero
    /// the result is subnormal.
    pub open spec fn cancel_exact(self, sign: nat, exp: nat, d: nat) -> nat {
        let k = (self.sig - bit_len(d)) as nat;
        if k < exp {
            self.pack(sign, (exp - k) as nat, (d * pow2(k) - self.hidden()) as nat)
        } else {
            self.pack(sign, 0, d * pow2((exp - 1) as nat))
        }
    }

    /// The pattern of a non-zero difference `d` that carries three rounding
    /// bits, under the exponent `exp`: normalised as in
    /// [`cancel_exact`](Layout::cancel_exact), then rounded.
    pub open spec fn cancel_rounded(self, sign: nat, exp: nat, d: nat) -> nat {
        let k = (self.sig + 3 - bit_len(d)) as nat;
        if k < exp {
            self.settle(
                sign,
                (exp - k) as nat,
                (round_grs(d * pow2(k)) - self.hidden()) as nat,
            )
        } else {
            self.settle(sign, 0, round_grs(d * pow2((exp - 1) as nat)))
        }
    }

    /// Difference of two finite magnitudes with different exponents, the
    /// first the larger.
    pub open spec fn aligned_difference(
        self,
        sign: nat,
        big_exp: nat,
        big_man: nat,
        small_exp: nat,
        small_man: nat,
    ) -> nat {
        let small = sticky_shift(
            8 * self.with_hidden(small_exp, small_man),
            (big_exp - small_exp) as nat,
        );
        self.cancel_rounded(sign, big_exp, (8 * (big_man + self.hidden()) - small) as nat)
    }

    /// The canonical quiet NaN: positive, with only the top mantissa bit set.
    pub open spec fn quiet_nan(self) -> nat {
        self.pack(0, self.max_exp(), pow2((self.sig - 2) as nat))
    }

    /// Magnitudes subtract: the operands have opposite effective signs. The
    /// result takes the first operand's sign where that operand is the larger
    /// and the other sign where it is the smaller; equal magnitudes give +0.
    pub open spec fn effective_sub(
        self,
        sa: nat,
        ea: nat,
        ma: nat,
        sb: nat,
        eb: nat,
        mb: nat,
    ) -> nat {
        let flipped = (1 - sa) as nat;
        if ea == eb {
            if ea == self.max_exp() {
                if ma == 0 && mb == 0 {
                    self.quiet_nan()
                } else {
                    self.propagate(sa, ma, sb, mb)
                }
            } else if ma == mb {
                0
            } else if ea == 0 {
                if ma > mb {
                    self.pack(sa, 0, (ma - mb) as nat)
                } else {
                    self.pack(flipped, 0, (mb - ma) as nat)
                }
            } else {
                if ma > mb {
                    self.cancel_exact(sa, ea, (ma - mb) as nat)
                } else {
                    self.cancel_exact(flipped, ea, (mb - ma) as nat)
                }
            }
        } else if ea == self.max_exp() {
            self.pack(sa, ea, ma)
        } else if eb == self.max_exp() {
            self.second_special(flipped, sb, mb)
        } else if ea > eb {
            self.aligned_difference(sa, ea, ma, eb, mb)
        } else {
            self.aligned_difference(flipped, eb, mb, ea, ma)
        }
    }

    /// The pattern of the sum of two patterns.
    pub open spec fn added(self, a: nat, b: nat) -> nat {
        if self.sign_of(a) != self.sign_of(b) {
            self.effective_sub(
                self.sign_of(a),
                self.exp_of(a),
                self.man_of(a),
                self.sign_of(b),
                self.exp_of(b),
                self.man_of(b),
            )
        } else {
            self.effective_add(
                self.sign_of(a),
                self.exp_of(a),
                self.man_of(a),
                self.sign_of(b),
                self.exp_of(b),
                self.man_of(b),
            )
        }
    }

    /// The pattern of the difference of two patterns.
    pub open spec fn subtracted(self, a: nat, b: nat) -> nat {
        if self.sign_of(a) != self.sign_of(b) {
            self.effective_add(
                self.sign_of(a),
                self.exp_of(a),
                self.man_of(a),
                self.sign_of(b),
                self.exp_of(b),
                self.man_of(b),
            )
        } else {
            self.effective_sub(
                self.sign_of(a),
                self.exp_of(a),
                self.man_of(a),
                self.sign_of(b),
                self.exp_of(b),
                self.man_of(b),
            )
        }
    }
}

/// A sticky shift never grows its operand.
pub proof fn lemma_sticky_le(m: nat, k: nat)
    ensures
        sticky_shift(m, k) <= m,
{
    lemma_pow2_le(0, k);
    lemma_div_mod_parts(m, pow2(k));
    let q = m / pow2(k);
    assert(q <= pow2(k) * q) by (nonlinear_arith)
        requires
            pow2(k) >= 1,
    ;
}

/// A sticky shift by at least one place takes a number below `2 * b`, with
/// `b` even, below `b`.
pub proof fn lemma_sticky_half(m: nat, k: nat, b: nat)
    requires
        k >= 1,
        m < 2 * b,
        b % 2 == 0,
    ensures
        sticky_shift(m, k) < b,
{
    lemma_pow2_small();
    lemma_div_pow2_twice(m, 1, (k - 1) as nat);
    assert(1 + (k - 1) as nat == k);
    lemma_pow2_le(0, (k - 1) as nat);
    let half = m / 2;
    lemma_div_mod_parts(half, pow2((k - 1) as nat));
    let q = half / pow2((k - 1) as nat);
    assert(q <= pow2((k - 1) as nat) * q) by (nonlinear_arith)
        requires
            pow2((k - 1) as nat) >= 1,
    ;
    assert(m / pow2(k) == q);
}

/// Rounding a number between `8 * lo` and `8 * hi` lands between `lo` and
/// `hi`; a multiple of eight rounds to its eighth.
pub proof fn lemma_round_bounds(x: nat, lo: nat, hi: nat)
    requires
        8 * lo <= x < 8 * hi,
    ensures
        lo <= round_grs(x) <= hi,
        x % 8 == 0 ==> round_grs(x) == x / 8,
{
}

/// Rounds to nearest, ties to even, by the three low bits (guard, round and
/// sticky), and drops them.
pub fn round(man: &BigUint) -> (r: BigUint)
    ensures
        big_value(r) == round_grs(big_value(*man)),
{
    let one = big_from(1);
    let four = big_from(4);
    let seven = big_from(7);
    proof {
        lemma_pow2_small();
        lemma_small_shifts(big_value(*man));
        lemma_and_low_mask(big_value(*man), 3);
        lemma_and_low_mask(big_value(*man) / 8, 1);
    }
    let low_bits = big_and(man, &seven);
    let res = big_shr(man, 3);
    if big_lt(&low_bits, &four) {
        res
    } else if big_lt(&four, &low_bits) {
        big_add(&res, &one)
    } else if big_eq(&big_and(&res, &one), &one) {
        big_add(&res, &one)
    } else {
        res
    }
}

/// Shifts right by `shift` places and sets the lowest bit of the result if
/// any one was shifted out. The shift must be below 2^32.
pub fn rshift_sticky(man: &BigUint, shift: u64) -> (r: BigUint)
    requires
        shift <= u32::MAX,
    ensures
        big_value(r) == sticky_shift(big_value(*man), shift as nat),
{
    let zero = big_from(0);
    let one = big_from(1);
    proof {
        lemma_and_low_mask(big_value(*man), shift as nat);
        lemma_or_one(big_value(*man) / pow2(shift as nat));
    }
    let mask = big_sub(&big_shl(&one, shift), &one);
    let shifted = big_shr(man, shift);
    if !big_eq(&big_and(man, &mask), &zero) {
        big_or(&shifted, &one)
    } else {
        shifted
    }
}

/// Packs a finite result whose exponent may have reached the maximum:
/// from there on it is infinity.
fn clamp<T: FloatType>(sign: &BigUint, exp: &BigUint, man: &BigUint) -> (r: BigUint)
    requires
        big_value(*sign) < 2,
        big_value(*man) < layout_of::<T>().hidden(),
    ensures
        big_value(r) == if big_value(*exp) >= layout_of::<T>().max_exp() {
            layout_of::<T>().pack(big_value(*sign), layout_of::<T>().max_exp(), 0)
        } else {
            layout_of::<T>().pack(big_value(*sign), big_value(*exp), big_value(*man))
        },
        big_value(r) < pow2(layout_of::<T>().width()),
{
    proof {
        T::layout_is_valid();
        lemma_layout_weights(layout_of::<T>());
    }
    let top = T::max_exp();
    if big_lt(exp, &top) {
        pack::<T>(sign, exp, man)
    } else {
        pack::<T>(sign, &top, &big_from(0))
    }
}

/// Packs a finite result whose mantissa may have reached the hidden bit.
fn settle<T: FloatType>(sign: &BigUint, exp: &BigUint, man: &BigUint) -> (r: BigUint)
    requires
        big_value(*sign) < 2,
        big_value(*man) < 2 * layout_of::<T>().hidden(),
    ensures
        big_value(r) == layout_of::<T>().settle(
            big_value(*sign),
            big_value(*exp),
            big_value(*man),
        ),
        big_value(r) < pow2(layout_of::<T>().width()),
{
    proof {
        T::layout_is_valid();
    }
    let one = big_from(1);
    let norm_bit = big_shl(&one, (T::SIG - 1) as u64);
    if big_lt(man, &norm_bit) {
        clamp::<T>(sign, exp, man)
    } else {
        clamp::<T>(sign, &big_add(exp, &one), &big_sub(man, &norm_bit))
    }
}

/// Rounds a significand that has its leading one at the hidden bit and three
/// rounding bits below, strips the hidden bit and packs.
fn round_settle<T: FloatType>(sign: &BigUint, exp: &BigUint, sig: &BigUint) -> (r: BigUint)
    requires
        big_value(*sign) < 2,
        8 * layout_of::<T>().hidden() <= big_value(*sig) < 16 * layout_of::<T>().hidden(),
    ensures
        big_value(r) == layout_of::<T>().settle(
            big_value(*sign),
            big_value(*exp),
            (round_grs(big_value(*sig)) - layout_of::<T>().hidden()) as nat,
        ),
        big_value(r) < pow2(layout_of::<T>().width()),
{
    let ghost h = layout_of::<T>().hidden();
    proof {
        T::layout_is_valid();
        lemma_round_bounds(big_value(*sig), h, 2 * h);
    }
    let one = big_from(1);
    let norm_bit = big_shl(&one, (T::SIG - 1) as u64);
    let rounded = round(sig);
    let man = big_sub(&rounded, &norm_bit);
    settle::<T>(sign, exp, &man)
}

/// The smaller operand, with three rounding bits, aligned to the larger by a
/// sticky shift.
fn align<T: FloatType>(exp: &BigUint, man: &BigUint, shift: u64) -> (r: BigUint)
    requires
        shift <= u32::MAX,
    ensures
        big_value(r) == sticky_shift(
            8 * layout_of::<T>().with_hidden(big_value(*exp), big_value(*man)),
            shift as nat,
        ),
{
    proof {
        T::layout_is_valid();
    }
    let zero = big_from(0);
    let one = big_from(1);
    let norm_bit = big_shl(&one, (T::SIG - 1) as u64);
    proof {
        lemma_small_shifts(big_value(*man));
        lemma_small_shifts(big_value(*man) + big_value(norm_bit));
    }
    let norm = if big_eq(exp, &zero) {
        big_shl(man, 3)
    } else {
        big_shl(&big_add(man, &norm_bit), 3)
    };
    rshift_sticky(&norm, shift)
}

/// Adds two finite magnitudes with different exponents, the first the larger.
fn aligned_sum<T: FloatType>(
    sign: &BigUint,
    big_exp: &BigUint,
    big_man: &BigUint,
    small_exp: &BigUint,
    small_man: &BigUint,
) -> (r: BigUint)
    requires
        big_value(*sign) < 2,
        big_value(*small_exp) < big_value(*big_exp) < pow2(layout_of::<T>().exp),
        big_value(*big_man) < layout_of::<T>().hidden(),
        big_value(*small_man) < layout_of::<T>().hidden(),
    ensures
        big_value(r) == layout_of::<T>().aligned_sum(
            big_value(*sign),
            big_value(*big_exp),
            big_value(*big_man),
            big_value(*small_exp),
            big_value(*small_man),
        ),
        big_value(r) < pow2(layout_of::<T>().width()),
{
    let ghost l = layout_of::<T>();
    let ghost h = l.hidden();
    let ghost aligned = 8 * l.with_hidden(big_value(*small_exp), big_value(*small_man));
    let ghost diff = (big_value(*big_exp) - big_value(*small_exp)) as nat;
    proof {
        T::layout_is_valid();
        lemma_pow2_small();
        lemma_pow2_le(l.exp, 32);
        lemma_sticky_le(aligned, diff);
    }
    let one = big_from(1);
    let norm_bit = big_shl(&one, (T::SIG - 1) as u64);
    let exp_diff = from_biguint(&big_sub(big_exp, small_exp));
    let small = align::<T>(small_exp, small_man, exp_diff);
    let norm_big = big_shl(&big_add(big_man, &norm_bit), 3);
    let sum = big_add(&norm_big, &small);
    let limit = big_shl(&norm_bit, 4);
    proof {
        lemma_small_shifts(big_value(*big_man) + h);
        lemma_small_shifts(h);
        lemma_small_shifts(big_value(sum));
    }
    if big_lt(&sum, &limit) {
        round_settle::<T>(sign, big_exp, &sum)
    } else {
        proof {
            lemma_sticky_half(big_value(sum), 1, 16 * h);
        }
        round_settle::<T>(sign, &big_add(big_exp, &one), &rshift_sticky(&sum, 1))
    }
}

/// Normalises and packs a non-zero difference of two mantissas.
fn cancel_exact<T: FloatType>(sign: &BigUint, exp: &BigUint, diff: &BigUint) -> (r: BigUint)
    requires
        big_value(*sign) < 2,
        1 <= big_value(*exp) < pow2(layout_of::<T>().exp),
        1 <= big_value(*diff) < layout_of::<T>().hidden(),
    ensures
        big_value(r) == layout_of::<T>().cancel_exact(
            big_value(*sign),
            big_value(*exp),
            big_value(*diff),
        ),
        big_value(r) < pow2(layout_of::<T>().width()),
{
    let ghost l = layout_of::<T>();
    let ghost d = big_value(*diff);
    let ghost e = big_value(*exp);
    proof {
        T::layout_is_valid();
        lemma_pow2_small();
        lemma_layout_weights(l);
        lemma_bit_len_bounds(d);
        lemma_bit_len_at_most(d, (l.sig - 1) as nat);
        lemma_pow2_step((l.sig - 1) as nat);
    }
    let one = big_from(1);
    let norm_bit = big_shl(&one, (T::SIG - 1) as u64);
    let len = big_bits(diff);
    let k: u64 = T::SIG as u64 - len;
    let shift_big = big_from(k);
    if big_lt(&shift_big, exp) {
        proof {
            lemma_normalize(d, l.sig);
        }
        let exp_c = big_sub(exp, &shift_big);
        let man = big_sub(&big_shl(diff, k), &norm_bit);
        pack::<T>(sign, &exp_c, &man)
    } else {
        proof {
            lemma_shift_below(d, (e - 1) as nat, (l.sig - 1) as nat);
        }
        let shift = from_biguint(exp) - 1;
        let man = big_shl(diff, shift);
        pack::<T>(sign, &big_from(0), &man)
    }
}

/// Normalises, rounds and packs a non-zero difference that carries three
/// rounding bits.
fn cancel_rounded<T: FloatType>(sign: &BigUint, exp: &BigUint, diff: &BigUint) -> (r: BigUint)
    requires
        big_value(*sign) < 2,
        1 <= big_value(*exp) < pow2(layout_of::<T>().exp),
        1 <= big_value(*diff) < 16 * layout_of::<T>().hidden(),
    ensures
        big_value(r) == layout_of::<T>().cancel_rounded(
            big_value(*sign),
            big_value(*exp),
            big_value(*diff),
        ),
        big_value(r) < pow2(layout_of::<T>().width()),
{
    let ghost l = layout_of::<T>();
    let ghost h = l.hidden();
    let ghost d = big_value(*diff);
    let ghost e = big_value(*exp);
    proof {
        T::layout_is_valid();
        lemma_pow2_small();
        lemma_layout_weights(l);
        lemma_pow2_sum((l.sig - 1) as nat, 3);
        lemma_pow2_sum((l.sig - 1) as nat, 4);
        assert((l.sig - 1) as nat + 3 == l.sig + 2);
        assert((l.sig - 1) as nat + 4 == l.sig + 3);
        lemma_small_shifts(h);
        lemma_bit_len_bounds(d);
        lemma_bit_len_at_most(d, l.sig + 3);
    }
    let len = big_bits(diff);
    let k: u64 = (T::SIG as u64 + 3) - len;
    let shift_big = big_from(k);
    if big_lt(&shift_big, exp) {
        proof {
            lemma_normalize(d, l.sig + 3);
            assert((l.sig + 3 - 1) as nat == l.sig + 2);
        }
        let exp_c = big_sub(exp, &shift_big);
        let sig = big_shl(diff, k);
        round_settle::<T>(sign, &exp_c, &sig)
    } else {
        proof {
            lemma_shift_below(d, (e - 1) as nat, l.sig + 2);
            lemma_round_bounds(d * pow2((e - 1) as nat), 0, h);
        }
        let shift = from_biguint(exp) - 1;
        let sig = big_shl(diff, shift);
        let rounded = round(&sig);
        settle::<T>(sign, &big_from(0), &rounded)
    }
}

/// Subtracts two finite magnitudes with different exponents, the first the
/// larger.
fn aligned_difference<T: FloatType>(
    sign: &BigUint,
    big_exp: &BigUint,
    big_man: &BigUint,
    small_exp: &BigUint,
    small_man: &BigUint,
) -> (r: BigUint)
    requires
        big_value(*sign) < 2,
        big_value(*small_exp) < big_value(*big_exp) < pow2(layout_of::<T>().exp),
        big_value(*big_man) < layout_of::<T>().hidden(),
        big_value(*small_man) < layout_of::<T>().hidden(),
    ensures
        big_value(r) == layout_of::<T>().aligned_difference(
            big_value(*sign),
            big_value(*big_exp),
            big_value(*big_man),
            big_value(*small_exp),
            big_value(*small_man),
        ),
        big_value(r) < pow2(layout_of::<T>().width()),
{
    let ghost l = layout_of::<T>();
    let ghost h = l.hidden();
    let ghost aligned = 8 * l.with_hidden(big_value(*small_exp), big_value(*small_man));
    let ghost diff = (big_value(*big_exp) - big_value(*small_exp)) as nat;
    proof {
        T::layout_is_valid();
        lemma_pow2_small();
        lemma_pow2_le(l.exp, 32);
        lemma_layout_weights(l);
        lemma_sticky_half(aligned, diff, 8 * h);
    }
    let one = big_from(1);
    let norm_bit = big_shl(&one, (T::SIG - 1) as u64);
    let exp_diff = from_biguint(&big_sub(big_exp, small_exp));
    let small = align::<T>(small_exp, small_man, exp_diff);
    let norm_big = big_shl(&big_add(big_man, &norm_bit), 3);
    proof {
        lemma_small_shifts(big_value(*big_man) + h);
    }
    let difference = big_sub(&norm_big, &small);
    cancel_rounded::<T>(sign, big_exp, &difference)
}

/// Adds the magnitudes of two decomposed operands and packs the result with
/// the first operand's sign. A NaN operand is handed on as it is.
pub fn effective_add<T: FloatType>(
    sign_a: &BigUint,
    exp_a: &BigUint,
    man_a: &BigUint,
    sign_b: &BigUint,
    exp_b: &BigUint,
    man_b: &BigUint,
) -> (r: BigUint)
    requires
        layout_of::<T>().fields_fit(big_value(*sign_a), big_value(*exp_a), big_value(*man_a)),
        layout_of::<T>().fields_fit(big_value(*sign_b), big_value(*exp_b), big_value(*man_b)),
    ensures
        big_value(r) == layout_of::<T>().effective_add(
            big_value(*sign_a),
            big_value(*exp_a),
            big_value(*man_a),
            big_value(*sign_b),
            big_value(*exp_b),
            big_value(*man_b),
        ),
        big_value(r) < pow2(layout_of::<T>().width()),
{
    let ghost l = layout_of::<T>();
    let ghost h = l.hidden();
    proof {
        T::layout_is_valid();
        lemma_pow2_small();
        lemma_layout_weights(l);
    }
    let zero = big_from(0);
    let one = big_from(1);
    let top = T::max_exp();
    if big_eq(exp_a, exp_b) {
        if big_eq(exp_a, &zero) {
            settle::<T>(sign_a, &zero, &big_add(man_a, man_b))
        } else if big_eq(exp_a, &top) {
            if !big_eq(man_a, &zero) || big_eq(man_b, &zero) {
                pack::<T>(sign_a, exp_a, man_a)
            } else {
                pack::<T>(sign_b, exp_b, man_b)
            }
        } else {
            let two = big_from(2);
            let three = big_from(3);
            let norm_bit = big_shl(&one, (T::SIG - 1) as u64);
            let norm_a = big_add(man_a, &norm_bit);
            let norm_b = big_add(man_b, &norm_bit);
            let exp_c = big_add(exp_a, &one);
            let sum = big_add(&norm_a, &norm_b);
            proof {
                lemma_and_low_mask(big_value(sum), 2);
                lemma_small_shifts(big_value(sum));
                lemma_small_shifts(big_value(sum) + 2);
            }
            let rounded = if big_eq(&big_and(&sum, &three), &three) {
                big_add(&sum, &two)
            } else {
                sum
            };
            let man_c = big_sub(&big_shr(&rounded, 1), &norm_bit);
            settle::<T>(sign_a, &exp_c, &man_c)
        }
    } else if big_eq(exp_a, &top) {
        pack::<T>(sign_a, exp_a, man_a)
    } else if big_eq(exp_b, &top) {
        if !big_eq(man_b, &zero) {
            pack::<T>(sign_b, exp_b, man_b)
        } else {
            pack::<T>(sign_a, &top, &zero)
        }
    } else if big_lt(exp_b, exp_a) {
        aligned_sum::<T>(sign_a, exp_a, man_a, exp_b, man_b)
    } else {
        aligned_sum::<T>(sign_a, exp_b, man_b, exp_a, man_a)
    }
}

/// Subtracts the magnitudes of two decomposed operands and packs the result:
/// with the first operand's sign where that operand is the larger, with the
/// other sign where it is the smaller, and as +0 where they are equal. A NaN
/// operand is handed on as it is, and two infinities give the quiet NaN.
pub fn effective_sub<T: FloatType>(
    sign_a: &BigUint,
    exp_a: &BigUint,
    man_a: &BigUint,
    sign_b: &BigUint,
    exp_b: &BigUint,
    man_b: &BigUint,
) -> (r: BigUint)
    requires
        layout_of::<T>().fields_fit(big_value(*sign_a), big_value(*exp_a), big_value(*man_a)),
        layout_of::<T>().fields_fit(big_value(*sign_b), big_value(*exp_b), big_value(*man_b)),
    ensures
        big_value(r) == layout_of::<T>().effective_sub(
            big_value(*sign_a),
            big_value(*exp_a),
            big_value(*man_a),
            big_value(*sign_b),
            big_value(*exp_b),
            big_value(*man_b),
        ),
        big_value(r) < pow2(layout_of::<T>().width()),
{
    let ghost l = layout_of::<T>();
    proof {
        T::layout_is_valid();
        lemma_pow2_small();
        lemma_layout_weights(l);
        lemma_pow2_step((l.sig - 2) as nat);
        lemma_pack_fields(l, 0, 0, 0);
    }
    let zero = big_from(0);
    let one = big_from(1);
    let top = T::max_exp();
    if big_eq(exp_a, exp_b) {
        if big_eq(exp_a, &top) {
            if big_eq(man_a, &zero) && big_eq(man_b, &zero) {
                pack::<T>(&zero, &top, &big_shl(&one, (T::SIG - 2) as u64))
            } else if !big_eq(man_a, &zero) {
                pack::<T>(sign_a, exp_a, man_a)
            } else {
                pack::<T>(sign_b, exp_b, man_b)
            }
        } else if big_eq(man_a, man_b) {
            zero
        } else if big_eq(exp_a, &zero) {
            if big_lt(man_b, man_a) {
                pack::<T>(sign_a, &zero, &big_sub(man_a, man_b))
            } else {
                pack::<T>(&big_sub(&one, sign_a), &zero, &big_sub(man_b, man_a))
            }
        } else {
            if big_lt(man_b, man_a) {
                cancel_exact::<T>(sign_a, exp_a, &big_sub(man_a, man_b))
            } else {
                cancel_exact::<T>(&big_sub(&one, sign_a), exp_a, &big_sub(man_b, man_a))
            }
        }
    } else if big_eq(exp_a, &top) {
        pack::<T>(sign_a, exp_a, man_a)
    } else if big_eq(exp_b, &top) {
        if !big_eq(man_b, &zero) {
            pack::<T>(sign_b, exp_b, man_b)
        } else {
            pack::<T>(&big_sub(&one, sign_a), &top, &zero)
        }
    } else if big_lt(exp_b, exp_a) {
        aligned_difference::<T>(sign_a, exp_a, man_a, exp_b, man_b)
    } else {
        aligned_difference::<T>(&big_sub(&one, sign_a), exp_b, man_b, exp_a, man_a)
    }
}

/// The sum of two patterns of format `T`. Bits above the format's width are
/// ignored.
///
/// Operands of one sign add their magnitudes, operands of opposite signs
/// subtract them. What that comes to is stated by the laws of this crate:
/// finite operands give the exact sum rounded to nearest, ties to even
/// ([`lemma_add_correctly_rounded`](crate::exact::lemma_add_correctly_rounded)),
/// and a NaN comes only from a NaN or from infinities of opposite signs
/// ([`lemma_add_nan_iff`](crate::laws::lemma_add_nan_iff)).
pub fn softfloat_add<T: FloatType>(a: &BigUint, b: &BigUint) -> (r: BigUint)
    ensures
        big_value(r) == layout_of::<T>().added(big_value(*a), big_value(*b)),
        big_value(r) < pow2(layout_of::<T>().width()),
{
    proof {
        T::layout_is_valid();
    }
    let (sign_a, exp_a, man_a) = extract::<T>(a);
    let (sign_b, exp_b, man_b) = extract::<T>(b);
    if !big_eq(&sign_a, &sign_b) {
        effective_sub::<T>(&sign_a, &exp_a, &man_a, &sign_b, &exp_b, &man_b)
    } else {
        effective_add::<T>(&sign_a, &exp_a, &man_a, &sign_b, &exp_b, &man_b)
    }
}

/// The difference of two patterns of format `T`. Bits above the format's
/// width are ignored.
///
/// Operands of one sign subtract their magnitudes, operands of opposite
/// signs add them. Finite operands give the exact difference rounded to
/// nearest, ties to even
/// ([`lemma_sub_correctly_rounded`](crate::exact::lemma_sub_correctly_rounded)),
/// and a NaN comes only from a NaN or from infinities of one sign
/// ([`lemma_sub_nan_iff`](crate::laws::lemma_sub_nan_iff)).
pub fn softfloat_sub<T: FloatType>(a: &BigUint, b: &BigUint) -> (r: BigUint)
    ensures
        big_value(r) == layout_of::<T>().subtracted(big_value(*a), big_value(*b)),
        big_value(r) < pow2(layout_of::<T>().width()),
{
    proof {
        T::layout_is_valid();
    }
    let (sign_a, exp_a, man_a) = extract::<T>(a);
    let (sign_b, exp_b, man_b) = extract::<T>(b);
    if !big_eq(&sign_a, &sign_b) {
        effective_add::<T>(&sign_a, &exp_a, &man_a, &sign_b, &exp_b, &man_b)
    } else {
        effective_sub::<T>(&sign_a, &exp_a, &man_a, &sign_b, &exp_b, &man_b)
    }
}

} // verus!
