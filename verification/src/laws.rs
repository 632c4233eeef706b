//! Laws of addition and subtraction, stated over patterns as numbers.

use crate::add::{lemma_round_bounds, lemma_sticky_half, lemma_sticky_le, round_grs, sticky_shift};
use crate::arith::{
    lemma_bit_len_at_most, lemma_bit_len_bounds, lemma_bit_len_unique, lemma_div_mod_unique,
    lemma_normalize, lemma_pow2_le, lemma_pow2_small, lemma_pow2_step, lemma_pow2_sum,
    lemma_shift_below, lemma_small_shifts,
};
use crate::bignum::bit_len;
use crate::format::{
    lemma_fields_fit, lemma_fields_pack, lemma_layout_weights, lemma_pack_fields, FloatClass,
    Layout,
};
use vstd::arithmetic::power2::pow2;
use vstd::prelude::*;

verus! {

impl Layout {
    /// The pattern of negative zero: only the sign bit set.
    pub open spec fn negative_zero(self) -> nat {
        self.sign_weight()
    }

    /// Two patterns are NaNs that differ in sign or payload.
    pub open spec fn distinct_nans(self, a: nat, b: nat) -> bool {
        &&& self.class_of(a) == FloatClass::Nan
        &&& self.class_of(b) == FloatClass::Nan
        &&& (self.sign_of(a) != self.sign_of(b) || self.man_of(a) != self.man_of(b))
    }

    /// The pattern with the opposite sign.
    pub open spec fn negated(self, bits: nat) -> nat {
        self.pack((1 - self.sign_of(bits)) as nat, self.exp_of(bits), self.man_of(bits))
    }

    /// A pattern of the format's width that has the given sign and is not a
    /// NaN.
    pub open spec fn is_number_signed(self, bits: nat, sign: nat) -> bool {
        &&& bits < pow2(self.width())
        &&& self.sign_of(bits) == sign
        &&& self.class_of(bits) != FloatClass::Nan
    }

    /// Two patterns are infinities of opposite signs.
    pub open spec fn opposite_infinities(self, a: nat, b: nat) -> bool {
        &&& self.class_of(a) == FloatClass::Infinite
        &&& self.class_of(b) == FloatClass::Infinite
        &&& self.sign_of(a) != self.sign_of(b)
    }

    /// Two patterns are infinities of one sign.
    pub open spec fn equal_infinities(self, a: nat, b: nat) -> bool {
        &&& self.class_of(a) == FloatClass::Infinite
        &&& self.class_of(b) == FloatClass::Infinite
        &&& self.sign_of(a) == self.sign_of(b)
    }

    /// A pattern is zero, subnormal or normal.
    pub open spec fn is_finite(self, bits: nat) -> bool {
        self.exp_of(bits) != self.max_exp()
    }
}

/// A sticky shift of zero is zero.
pub proof fn lemma_sticky_zero(k: nat)
    ensures
        sticky_shift(0, k) == 0,
{
    lemma_pow2_le(0, k);
    lemma_div_mod_unique(0, pow2(k), 0, 0);
}

/// The fields of positive and of negative zero.
pub proof fn lemma_zero_fields(l: Layout)
    requires
        l.valid(),
    ensures
        l.sign_of(0) == 0,
        l.exp_of(0) == 0,
        l.man_of(0) == 0,
        l.sign_of(l.negative_zero()) == 1,
        l.exp_of(l.negative_zero()) == 0,
        l.man_of(l.negative_zero()) == 0,
        l.negative_zero() < pow2(l.width()),
        l.pack(0, 0, 0) == 0,
        l.pack(1, 0, 0) == l.negative_zero(),
{
    lemma_layout_weights(l);
    lemma_pack_fields(l, 0, 0, 0);
    lemma_pack_fields(l, 1, 0, 0);
    assert(l.pack(0, 0, 0) == 0);
    assert(l.pack(1, 0, 0) == l.negative_zero());
}

/// A normal magnitude with zero added to it or taken from it is unchanged.
pub proof fn lemma_absorb_zero(l: Layout, sign: nat, exp: nat, man: nat)
    requires
        l.valid(),
        l.fields_fit(sign, exp, man),
        0 < exp < l.max_exp(),
    ensures
        l.aligned_sum(sign, exp, man, 0, 0) == l.pack(sign, exp, man),
        l.aligned_difference(sign, exp, man, 0, 0) == l.pack(sign, exp, man),
{
    let h = l.hidden();
    let d = 8 * (man + h);
    lemma_layout_weights(l);
    lemma_pow2_small();
    lemma_sticky_zero(exp);
    lemma_round_bounds(d, man + h, man + h + 1);
    lemma_pow2_sum((l.sig - 1) as nat, 3);
    lemma_pow2_sum((l.sig - 1) as nat, 4);
    assert((l.sig - 1) as nat + 3 == (l.sig + 3 - 1) as nat);
    assert((l.sig - 1) as nat + 4 == l.sig + 3);
    lemma_small_shifts(h);
    lemma_bit_len_unique(d, l.sig + 3);
    lemma_small_shifts(d);
}

/// Adding magnitudes does not depend on the order of the operands, unless
/// both are NaNs with different payloads.
pub proof fn lemma_effective_add_commutes(
    l: Layout,
    sign: nat,
    ea: nat,
    ma: nat,
    eb: nat,
    mb: nat,
)
    requires
        !(ea == l.max_exp() && eb == l.max_exp() && ma != 0 && mb != 0 && ma != mb),
    ensures
        l.effective_add(sign, ea, ma, sign, eb, mb) == l.effective_add(sign, eb, mb, sign, ea, ma),
{
    if ea == eb {
        if ea == 0 {
            assert(ma + mb == mb + ma);
        } else if ea == l.max_exp() {
        } else {
            assert(ma + mb + 2 * l.hidden() == mb + ma + 2 * l.hidden());
        }
    }
}

/// Subtracting magnitudes of operands with opposite signs does not depend on
/// the order of the operands, unless both are NaNs.
pub proof fn lemma_effective_sub_commutes(
    l: Layout,
    sa: nat,
    ea: nat,
    ma: nat,
    sb: nat,
    eb: nat,
    mb: nat,
)
    requires
        sa < 2,
        sb < 2,
        sa != sb,
        !(ea == l.max_exp() && eb == l.max_exp() && ma != 0 && mb != 0),
    ensures
        l.effective_sub(sa, ea, ma, sb, eb, mb) == l.effective_sub(sb, eb, mb, sa, ea, ma),
{
    assert((1 - sa) as nat == sb);
    assert((1 - sb) as nat == sa);
}

/// Addition commutes bit for bit, unless the operands are two NaNs that
/// differ in sign or payload: of those, each order hands on its first.
pub proof fn lemma_add_commutes(l: Layout, a: nat, b: nat)
    requires
        l.valid(),
        !l.distinct_nans(a, b),
    ensures
        l.added(a, b) == l.added(b, a),
{
    lemma_fields_fit(l, a);
    lemma_fields_fit(l, b);
    let sa = l.sign_of(a);
    let ea = l.exp_of(a);
    let ma = l.man_of(a);
    let sb = l.sign_of(b);
    let eb = l.exp_of(b);
    let mb = l.man_of(b);
    lemma_layout_weights(l);
    if sa != sb {
        lemma_effective_sub_commutes(l, sa, ea, ma, sb, eb, mb);
    } else {
        lemma_effective_add_commutes(l, sa, ea, ma, eb, mb);
    }
}

/// Adding positive zero to a pattern of the format's width gives the
/// pattern back, unless the pattern is negative zero.
pub proof fn lemma_add_zero(l: Layout, x: nat)
    requires
        l.valid(),
        x < pow2(l.width()),
        x != l.negative_zero(),
    ensures
        l.added(x, 0) == x,
{
    lemma_layout_weights(l);
    lemma_zero_fields(l);
    lemma_fields_fit(l, x);
    lemma_fields_pack(l, x);
    let s = l.sign_of(x);
    let e = l.exp_of(x);
    let m = l.man_of(x);
    if 0 < e < l.max_exp() {
        lemma_absorb_zero(l, s, e, m);
    }
}

/// Negative zero plus positive zero is positive zero.
pub proof fn lemma_add_opposite_zeros(l: Layout)
    requires
        l.valid(),
    ensures
        l.added(l.negative_zero(), 0) == 0,
        l.added(0, l.negative_zero()) == 0,
{
    lemma_layout_weights(l);
    lemma_zero_fields(l);
}

/// A finite pattern minus itself is positive zero.
pub proof fn lemma_sub_self(l: Layout, x: nat)
    requires
        l.valid(),
        l.is_finite(x),
    ensures
        l.subtracted(x, x) == 0,
{
}

/// Subtracting negative zero from a pattern of the format's width gives
/// the pattern back, unless the pattern is negative zero itself.
pub proof fn lemma_sub_negative_zero(l: Layout, x: nat)
    requires
        l.valid(),
        x < pow2(l.width()),
        x != l.negative_zero(),
    ensures
        l.subtracted(x, l.negative_zero()) == x,
{
    lemma_layout_weights(l);
    lemma_zero_fields(l);
    lemma_fields_fit(l, x);
    lemma_fields_pack(l, x);
    let s = l.sign_of(x);
    let e = l.exp_of(x);
    let m = l.man_of(x);
    if 0 < e < l.max_exp() {
        lemma_absorb_zero(l, s, e, m);
    }
}

/// Subtracting a pattern that is not a NaN is adding the pattern with the
/// opposite sign. A NaN is handed on with the sign it has, so for it the two
/// differ.
pub proof fn lemma_sub_is_add_of_negated(l: Layout, a: nat, b: nat)
    requires
        l.valid(),
        l.class_of(b) != FloatClass::Nan,
    ensures
        l.subtracted(a, b) == l.added(a, l.negated(b)),
{
    lemma_layout_weights(l);
    lemma_fields_fit(l, a);
    lemma_fields_fit(l, b);
    lemma_pack_fields(l, (1 - l.sign_of(b)) as nat, l.exp_of(b), l.man_of(b));
}

/// Packed fields that fit are a NaN exactly when the exponent is the
/// maximum and the mantissa is not zero.
pub proof fn lemma_pack_class(l: Layout, sign: nat, exp: nat, man: nat)
    requires
        l.valid(),
        l.fields_fit(sign, exp, man),
    ensures
        l.pack(sign, exp, man) < pow2(l.width()),
        l.sign_of(l.pack(sign, exp, man)) == sign,
        l.class_of(l.pack(sign, exp, man)) == l.class_of_fields(exp, man),
{
    lemma_pack_fields(l, sign, exp, man);
}

/// A settled result is a number with the sign it was given.
pub proof fn lemma_settle_shape(l: Layout, sign: nat, exp: nat, man: nat)
    requires
        l.valid(),
        sign < 2,
        man < 2 * l.hidden(),
    ensures
        l.is_number_signed(l.settle(sign, exp, man), sign),
{
    lemma_layout_weights(l);
    let h = l.hidden();
    let (e, m) = if man >= h {
        (exp + 1, (man - h) as nat)
    } else {
        (exp, man)
    };
    if e >= l.max_exp() {
        lemma_pack_class(l, sign, l.max_exp(), 0);
    } else {
        lemma_pack_class(l, sign, e, m);
    }
}

/// The sum of two finite magnitudes with different exponents is a number.
pub proof fn lemma_aligned_sum_shape(
    l: Layout,
    sign: nat,
    big_exp: nat,
    big_man: nat,
    small_exp: nat,
    small_man: nat,
)
    requires
        l.valid(),
        sign < 2,
        small_exp < big_exp,
        big_man < l.hidden(),
        small_man < l.hidden(),
    ensures
        l.is_number_signed(l.aligned_sum(sign, big_exp, big_man, small_exp, small_man), sign),
{
    let h = l.hidden();
    let aligned = 8 * l.with_hidden(small_exp, small_man);
    let d = (big_exp - small_exp) as nat;
    let sum = 8 * (big_man + h) + sticky_shift(aligned, d);
    lemma_layout_weights(l);
    lemma_pow2_small();
    lemma_sticky_le(aligned, d);
    if sum >= 16 * h {
        lemma_sticky_half(sum, 1, 16 * h);
        lemma_small_shifts(sum);
        lemma_round_bounds(sticky_shift(sum, 1), h, 2 * h);
        lemma_settle_shape(
            l,
            sign,
            big_exp + 1,
            (round_grs(sticky_shift(sum, 1)) - h) as nat,
        );
    } else {
        lemma_round_bounds(sum, h, 2 * h);
        lemma_settle_shape(l, sign, big_exp, (round_grs(sum) - h) as nat);
    }
}

/// A normalised difference of two mantissas is a number.
pub proof fn lemma_cancel_exact_shape(l: Layout, sign: nat, exp: nat, d: nat)
    requires
        l.valid(),
        sign < 2,
        1 <= exp < l.max_exp(),
        1 <= d < l.hidden(),
    ensures
        l.is_number_signed(l.cancel_exact(sign, exp, d), sign),
{
    lemma_layout_weights(l);
    lemma_bit_len_bounds(d);
    lemma_bit_len_at_most(d, (l.sig - 1) as nat);
    lemma_pow2_step((l.sig - 1) as nat);
    assert((l.sig - 1) as nat + 1 == l.sig);
    let k = (l.sig - bit_len(d)) as nat;
    if k < exp {
        lemma_normalize(d, l.sig);
        lemma_pack_class(l, sign, (exp - k) as nat, (d * pow2(k) - l.hidden()) as nat);
    } else {
        lemma_shift_below(d, (exp - 1) as nat, (l.sig - 1) as nat);
        lemma_pack_class(l, sign, 0, d * pow2((exp - 1) as nat));
    }
}

/// A normalised and rounded difference is a number.
pub proof fn lemma_cancel_rounded_shape(l: Layout, sign: nat, exp: nat, d: nat)
    requires
        l.valid(),
        sign < 2,
        exp >= 1,
        1 <= d < 16 * l.hidden(),
    ensures
        l.is_number_signed(l.cancel_rounded(sign, exp, d), sign),
{
    let h = l.hidden();
    lemma_layout_weights(l);
    lemma_pow2_small();
    lemma_pow2_sum((l.sig - 1) as nat, 3);
    lemma_pow2_sum((l.sig - 1) as nat, 4);
    assert((l.sig - 1) as nat + 3 == l.sig + 2);
    assert((l.sig - 1) as nat + 4 == l.sig + 3);
    lemma_small_shifts(h);
    lemma_bit_len_bounds(d);
    lemma_bit_len_at_most(d, l.sig + 3);
    let k = (l.sig + 3 - bit_len(d)) as nat;
    if k < exp {
        lemma_normalize(d, l.sig + 3);
        assert((l.sig + 3 - 1) as nat == l.sig + 2);
        lemma_round_bounds(d * pow2(k), h, 2 * h);
        lemma_settle_shape(l, sign, (exp - k) as nat, (round_grs(d * pow2(k)) - h) as nat);
    } else {
        lemma_shift_below(d, (exp - 1) as nat, l.sig + 2);
        lemma_round_bounds(d * pow2((exp - 1) as nat), 0, h);
        lemma_settle_shape(l, sign, 0, round_grs(d * pow2((exp - 1) as nat)));
    }
}

/// The difference of two finite magnitudes with different exponents is a
/// number.
pub proof fn lemma_aligned_difference_shape(
    l: Layout,
    sign: nat,
    big_exp: nat,
    big_man: nat,
    small_exp: nat,
    small_man: nat,
)
    requires
        l.valid(),
        sign < 2,
        small_exp < big_exp,
        big_man < l.hidden(),
        small_man < l.hidden(),
    ensures
        l.is_number_signed(
            l.aligned_difference(sign, big_exp, big_man, small_exp, small_man),
            sign,
        ),
{
    let h = l.hidden();
    let aligned = 8 * l.with_hidden(small_exp, small_man);
    let d = (big_exp - small_exp) as nat;
    lemma_layout_weights(l);
    lemma_sticky_half(aligned, d, 8 * h);
    lemma_cancel_rounded_shape(
        l,
        sign,
        big_exp,
        (8 * (big_man + h) - sticky_shift(aligned, d)) as nat,
    );
}

/// Effective addition gives a NaN exactly when an operand is one; any other
/// result carries the first operand's sign.
pub proof fn lemma_effective_add_shape(
    l: Layout,
    sa: nat,
    ea: nat,
    ma: nat,
    sb: nat,
    eb: nat,
    mb: nat,
)
    requires
        l.valid(),
        l.fields_fit(sa, ea, ma),
        l.fields_fit(sb, eb, mb),
    ensures
        l.effective_add(sa, ea, ma, sb, eb, mb) < pow2(l.width()),
        l.class_of(l.effective_add(sa, ea, ma, sb, eb, mb)) == FloatClass::Nan <==> (
        l.class_of_fields(ea, ma) == FloatClass::Nan || l.class_of_fields(eb, mb)
            == FloatClass::Nan),
        l.class_of(l.effective_add(sa, ea, ma, sb, eb, mb)) != FloatClass::Nan ==> l.sign_of(
            l.effective_add(sa, ea, ma, sb, eb, mb),
        ) == sa,
{
    lemma_layout_weights(l);
    let top = l.max_exp();
    if ea == top || eb == top {
        lemma_pack_class(l, sa, top, ma);
        lemma_pack_class(l, sb, top, mb);
        lemma_pack_class(l, sa, top, 0);
    } else if ea == eb {
        if ea == 0 {
            lemma_settle_shape(l, sa, 0, ma + mb);
        } else {
            let c = ma + mb + 2 * l.hidden();
            let c2 = if c % 4 == 3 {
                c + 2
            } else {
                c
            };
            lemma_settle_shape(l, sa, ea + 1, (c2 / 2 - l.hidden()) as nat);
        }
    } else if ea > eb {
        lemma_aligned_sum_shape(l, sa, ea, ma, eb, mb);
    } else {
        lemma_aligned_sum_shape(l, sa, eb, mb, ea, ma);
    }
}

/// Effective subtraction gives a NaN exactly when an operand is one or both
/// are infinite.
pub proof fn lemma_effective_sub_shape(
    l: Layout,
    sa: nat,
    ea: nat,
    ma: nat,
    sb: nat,
    eb: nat,
    mb: nat,
)
    requires
        l.valid(),
        l.fields_fit(sa, ea, ma),
        l.fields_fit(sb, eb, mb),
    ensures
        l.effective_sub(sa, ea, ma, sb, eb, mb) < pow2(l.width()),
        l.class_of(l.effective_sub(sa, ea, ma, sb, eb, mb)) == FloatClass::Nan <==> (
        l.class_of_fields(ea, ma) == FloatClass::Nan || l.class_of_fields(eb, mb)
            == FloatClass::Nan || (ea == l.max_exp() && eb == l.max_exp())),
{
    lemma_layout_weights(l);
    let top = l.max_exp();
    let flipped = (1 - sa) as nat;
    if ea == top || eb == top {
        lemma_pow2_step((l.sig - 2) as nat);
        assert((l.sig - 2) as nat + 1 == (l.sig - 1) as nat);
        lemma_pack_class(l, 0, top, pow2((l.sig - 2) as nat));
        lemma_pack_class(l, sa, top, ma);
        lemma_pack_class(l, sb, top, mb);
        lemma_pack_class(l, flipped, top, 0);
    } else if ea == eb {
        lemma_pack_class(l, 0, 0, 0);
        assert(l.pack(0, 0, 0) == 0);
        if ma == mb {
        } else if ea == 0 {
            if ma > mb {
                lemma_pack_class(l, sa, 0, (ma - mb) as nat);
            } else {
                lemma_pack_class(l, flipped, 0, (mb - ma) as nat);
            }
        } else {
            if ma > mb {
                lemma_cancel_exact_shape(l, sa, ea, (ma - mb) as nat);
            } else {
                lemma_cancel_exact_shape(l, flipped, ea, (mb - ma) as nat);
            }
        }
    } else if ea > eb {
        lemma_aligned_difference_shape(l, sa, ea, ma, eb, mb);
    } else {
        lemma_aligned_difference_shape(l, flipped, eb, mb, ea, ma);
    }
}

/// A sum is a NaN only where an operand is one or where infinities of
/// opposite signs meet; every sum is a pattern of the format's width.
pub proof fn lemma_add_nan_iff(l: Layout, a: nat, b: nat)
    requires
        l.valid(),
    ensures
        l.added(a, b) < pow2(l.width()),
        l.class_of(l.added(a, b)) == FloatClass::Nan <==> (l.class_of(a) == FloatClass::Nan
            || l.class_of(b) == FloatClass::Nan || l.opposite_infinities(a, b)),
{
    lemma_fields_fit(l, a);
    lemma_fields_fit(l, b);
    lemma_effective_add_shape(
        l,
        l.sign_of(a),
        l.exp_of(a),
        l.man_of(a),
        l.sign_of(b),
        l.exp_of(b),
        l.man_of(b),
    );
    lemma_effective_sub_shape(
        l,
        l.sign_of(a),
        l.exp_of(a),
        l.man_of(a),
        l.sign_of(b),
        l.exp_of(b),
        l.man_of(b),
    );
}

/// A difference is a NaN only where an operand is one or where infinities
/// of one sign meet; every difference is a pattern of the format's width.
pub proof fn lemma_sub_nan_iff(l: Layout, a: nat, b: nat)
    requires
        l.valid(),
    ensures
        l.subtracted(a, b) < pow2(l.width()),
        l.class_of(l.subtracted(a, b)) == FloatClass::Nan <==> (l.class_of(a) == FloatClass::Nan
            || l.class_of(b) == FloatClass::Nan || l.equal_infinities(a, b)),
{
    lemma_fields_fit(l, a);
    lemma_fields_fit(l, b);
    lemma_effective_add_shape(
        l,
        l.sign_of(a),
        l.exp_of(a),
        l.man_of(a),
        l.sign_of(b),
        l.exp_of(b),
        l.man_of(b),
    );
    lemma_effective_sub_shape(
        l,
        l.sign_of(a),
        l.exp_of(a),
        l.man_of(a),
        l.sign_of(b),
        l.exp_of(b),
        l.man_of(b),
    );
}

} // verus!
