//! Conversions from the standard encoding to the recoded and the FloPoCo
//! encodings.
//!
//! The recoded form is one bit wider than the standard one: its exponent
//! field has `E + 1` bits and tags zero, subnormal, normal, infinite and NaN
//! values by distinct ranges. The FloPoCo form is two bits wider: two
//! classification bits stand above the sign, and subnormals have no encoding.

use crate::arith::{
    lemma_bit_len_at_most, lemma_bit_len_bounds, lemma_or_disjoint, lemma_pow2_small,
    lemma_pow2_step, lemma_pow2_sum, lemma_shift_below,
};
use crate::bignum::{
    big_add, big_bits, big_eq, big_from, big_or, big_shl, big_sub, big_value, bit_len,
};
use crate::format::{
    extract, layout_of, lemma_layout_weights, Binary16, Binary32, Binary64, FloatClass,
    FloatType, Layout,
};
use num_bigint::BigUint;
use vstd::arithmetic::power2::{lemma2_to64, pow2};
use vstd::prelude::*;

verus! {

impl Layout {
    /// The formats that have a recoded form: the exponent range is wide
    /// enough to normalise every subnormal.
    pub open spec fn recodable(self) -> bool {
        self.sig <= pow2((self.exp - 1) as nat) + 4
    }

    /// Leading zeros of a mantissa within its `S - 1` bits.
    pub open spec fn leading_zeros(self, man: nat) -> nat {
        (self.sig - 1 - bit_len(man)) as nat
    }

    /// The recoded exponent field, `E + 1` bits wide.
    pub open spec fn recoded_exp(self, exp: nat, man: nat) -> nat {
        let half = pow2((self.exp - 1) as nat);
        match self.class_of_fields(exp, man) {
            FloatClass::Zero => 0,
            FloatClass::Subnormal => (half + 2 - self.leading_zeros(man)) as nat,
            FloatClass::Infinite => 6 * pow2((self.exp - 2) as nat),
            FloatClass::Nan => 7 * pow2((self.exp - 2) as nat),
            FloatClass::Normal => exp + half + 1,
        }
    }

    /// The recoded mantissa field: a subnormal's mantissa is shifted left
    /// over its leading zeros.
    pub open spec fn recoded_sig(self, exp: nat, man: nat) -> nat {
        match self.class_of_fields(exp, man) {
            FloatClass::Zero => 0,
            FloatClass::Subnormal => man * pow2(self.leading_zeros(man)),
            FloatClass::Infinite => 0,
            FloatClass::Nan => 0,
            FloatClass::Normal => man,
        }
    }

    /// The recoded form of a pattern: sign, recoded exponent and recoded
    /// mantissa, most significant first.
    pub open spec fn recoded(self, bits: nat) -> nat {
        let exp = self.exp_of(bits);
        let man = self.man_of(bits);
        self.sign_of(bits) * pow2(self.width()) + self.recoded_exp(exp, man) * self.hidden()
            + self.recoded_sig(exp, man)
    }

    /// The FloPoCo form of a pattern that is not subnormal: classification,
    /// sign, exponent and mantissa, most significant first. Zero is all
    /// zeros; infinities and NaNs keep only their sign.
    pub open spec fn flopoco(self, bits: nat) -> nat {
        let sign = self.sign_of(bits);
        let exp = self.exp_of(bits);
        let man = self.man_of(bits);
        match self.class_of_fields(exp, man) {
            FloatClass::Zero => 0,
            FloatClass::Subnormal => 0,
            FloatClass::Infinite => 2 * pow2(self.width()) + sign * self.sign_weight(),
            FloatClass::Nan => 3 * pow2(self.width()) + sign * self.sign_weight(),
            FloatClass::Normal => pow2(self.width()) + sign * self.sign_weight() + exp
                * self.hidden() + man,
        }
    }
}

/// The recoded exponent fits `E + 1` bits and the recoded mantissa `S - 1`.
pub proof fn lemma_recoded_fields_fit(l: Layout, exp: nat, man: nat)
    requires
        l.valid(),
        l.recodable(),
        exp < pow2(l.exp),
        man < l.hidden(),
    ensures
        l.recoded_exp(exp, man) < pow2(l.exp + 1),
        l.recoded_sig(exp, man) < l.hidden(),
        l.class_of_fields(exp, man) == FloatClass::Subnormal ==> l.leading_zeros(man) <= pow2(
            (l.exp - 1) as nat,
        ) + 2 && bit_len(man) + l.leading_zeros(man) == l.sig - 1,
{
    lemma_layout_weights(l);
    lemma_pow2_small();
    lemma_pow2_step((l.exp - 2) as nat);
    lemma_pow2_step((l.exp - 1) as nat);
    lemma_pow2_step(l.exp);
    assert((l.exp - 2) as nat + 1 == (l.exp - 1) as nat);
    assert((l.exp - 1) as nat + 1 == l.exp);
    if l.class_of_fields(exp, man) == FloatClass::Subnormal {
        lemma_bit_len_bounds(man);
        lemma_bit_len_at_most(man, (l.sig - 1) as nat);
        lemma_shift_below(man, l.leading_zeros(man), (l.sig - 1) as nat);
    }
}

/// Joins three fields with OR: the lowest is `low_width` bits wide and the
/// middle one fits below the top field's position.
fn join(
    top: &BigUint,
    top_shift: u64,
    mid: &BigUint,
    low_width: u64,
    low: &BigUint,
) -> (r: BigUint)
    requires
        low_width <= top_shift <= u32::MAX,
        big_value(*mid) < pow2((top_shift - low_width) as nat),
        big_value(*low) < pow2(low_width as nat),
    ensures
        big_value(r) == big_value(*top) * pow2(top_shift as nat) + big_value(*mid) * pow2(
            low_width as nat,
        ) + big_value(*low),
{
    let ghost t = big_value(*top);
    let ghost m = big_value(*mid);
    let ghost w = low_width as nat;
    let ghost gap = (top_shift - low_width) as nat;
    proof {
        lemma_pow2_sum(gap, w);
        assert(gap + w == top_shift as nat);
        assert(m * pow2(w) < pow2(gap) * pow2(w)) by (nonlinear_arith)
            requires
                m < pow2(gap),
                pow2(w) >= 1,
        ;
        lemma_or_disjoint(t, top_shift as nat, m * pow2(w));
        assert(t * pow2(top_shift as nat) + m * pow2(w) == (t * pow2(gap) + m) * pow2(w))
            by (nonlinear_arith)
            requires
                pow2(top_shift as nat) == pow2(gap) * pow2(w),
        ;
        lemma_or_disjoint(t * pow2(gap) + m, w, big_value(*low));
    }
    let high = big_or(&big_shl(top, top_shift), &big_shl(mid, low_width));
    big_or(&high, low)
}

/// Recodes a pattern of format `T`. The format must have a recoded form;
/// binary16, binary32 and binary64 do.
pub fn to_hardfloat<T: FloatType>(num: &BigUint) -> (r: BigUint)
    requires
        layout_of::<T>().recodable(),
    ensures
        big_value(r) == layout_of::<T>().recoded(big_value(*num)),
        big_value(r) < pow2(layout_of::<T>().width() + 1),
{
    proof {
        T::layout_is_valid();
    }
    let ghost l = layout_of::<T>();
    let zero = big_from(0);
    let one = big_from(1);
    let (sign, exp_in, sig_in) = extract::<T>(num);
    proof {
        lemma_pow2_small();
        lemma_layout_weights(l);
        lemma_recoded_fields_fit(l, big_value(exp_in), big_value(sig_in));
        lemma_pow2_step(l.width());
        lemma_pow2_sum(l.exp + 1, (l.sig - 1) as nat);
        assert(l.exp + 1 + (l.sig - 1) as nat == l.width());
    }
    let is_zero_exp_in = big_eq(&exp_in, &zero);
    let is_zero_sig_in = big_eq(&sig_in, &zero);
    let pow2k = big_shl(&one, (T::EXP - 1) as u64);
    let (exp, sig) = if is_zero_exp_in && is_zero_sig_in {
        (big_from(0), big_from(0))
    } else if is_zero_exp_in {
        let n: u64 = (T::SIG - 1) as u64 - big_bits(&sig_in);
        let exp = big_sub(&big_add(&pow2k, &big_from(2)), &big_from(n));
        let sig = big_shl(&sig_in, n);
        (exp, sig)
    } else if big_eq(&exp_in, &T::max_exp()) {
        if is_zero_sig_in {
            (big_shl(&big_from(6), (T::EXP - 2) as u64), big_from(0))
        } else {
            (big_shl(&big_from(7), (T::EXP - 2) as u64), big_from(0))
        }
    } else {
        (big_add(&big_add(&exp_in, &pow2k), &one), sig_in)
    };
    let r = join(&sign, (T::EXP + T::SIG) as u64, &exp, (T::SIG - 1) as u64, &sig);
    proof {
        let e = big_value(exp);
        let s = big_value(sign);
        assert(s * pow2(l.width()) + e * l.hidden() + big_value(sig) < 2 * pow2(l.width()))
            by (nonlinear_arith)
            requires
                s < 2,
                e < pow2(l.exp + 1),
                big_value(sig) < l.hidden(),
                pow2(l.exp + 1) * l.hidden() == pow2(l.width()),
        ;
    }
    r
}

/// Converts a pattern of format `T` to the FloPoCo form. The pattern must
/// not be subnormal: the FloPoCo form has no encoding for it.
pub fn to_flopoco<T: FloatType>(num: &BigUint) -> (r: BigUint)
    requires
        layout_of::<T>().class_of(big_value(*num)) != FloatClass::Subnormal,
    ensures
        big_value(r) == layout_of::<T>().flopoco(big_value(*num)),
        big_value(r) < pow2(layout_of::<T>().width() + 2),
{
    proof {
        T::layout_is_valid();
    }
    let ghost l = layout_of::<T>();
    let zero = big_from(0);
    let (sign, exp_in, sig_in) = extract::<T>(num);
    proof {
        lemma_pow2_small();
        lemma_layout_weights(l);
        lemma_pow2_step(l.width());
        lemma_pow2_step(l.width() + 1);
        lemma_pow2_sum(l.exp + 1, (l.sig - 1) as nat);
        lemma_pow2_step(l.exp);
        assert(l.exp + 1 + (l.sig - 1) as nat == l.width());
    }
    let is_zero_exp_in = big_eq(&exp_in, &zero);
    let is_zero_sig_in = big_eq(&sig_in, &zero);
    if is_zero_exp_in {
        zero
    } else {
        let (exn, exp, sig) = if big_eq(&exp_in, &T::max_exp()) {
            if is_zero_sig_in {
                (big_from(2), big_from(0), big_from(0))
            } else {
                (big_from(3), big_from(0), big_from(0))
            }
        } else {
            (big_from(1), exp_in, sig_in)
        };
        // The sign joins the exponent as the top bit of a field of E + 1 bits.
        let signed_exp = big_add(&big_shl(&sign, T::EXP as u64), &exp);
        proof {
            assert(big_value(signed_exp) < pow2(l.exp + 1)) by (nonlinear_arith)
                requires
                    big_value(signed_exp) == big_value(sign) * pow2(l.exp) + big_value(exp),
                    big_value(sign) < 2,
                    big_value(exp) < pow2(l.exp),
                    pow2(l.exp + 1) == 2 * pow2(l.exp),
            ;
        }
        let r = join(&exn, (T::EXP + T::SIG) as u64, &signed_exp, (T::SIG - 1) as u64, &sig);
        proof {
            let x = big_value(exn);
            let s = big_value(sign);
            let e = big_value(exp);
            let m = big_value(sig);
            let h = l.hidden();
            assert((s * pow2(l.exp) + e) * h == s * l.sign_weight() + e * h) by (nonlinear_arith)
                requires
                    l.sign_weight() == h * pow2(l.exp),
            ;
            assert(s * l.sign_weight() + e * h + m < pow2(l.width())) by (nonlinear_arith)
                requires
                    s < 2,
                    e < pow2(l.exp),
                    m < h,
                    l.sign_weight() == h * pow2(l.exp),
                    pow2(l.width()) == 2 * l.sign_weight(),
            ;
            assert(x * pow2(l.width()) <= 3 * pow2(l.width())) by (nonlinear_arith)
                requires
                    x <= 3,
            ;
            assert(e == 0 ==> e * h == 0) by (nonlinear_arith);
            assert(x == 1 ==> x * pow2(l.width()) == pow2(l.width())) by (nonlinear_arith);
        }
        r
    }
}

/// The three standard formats have a recoded form.
pub proof fn lemma_standard_recodable()
    ensures
        Binary16::layout().recodable(),
        Binary32::layout().recodable(),
        Binary64::layout().recodable(),
{
    lemma2_to64();
}

} // verus!
