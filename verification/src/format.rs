//! Binary floating-point formats and the bit-field codec.
//!
//! A format has `E` exponent bits and a significand of `S` bits, of which the
//! leading one is hidden: a pattern of `E + S` bits holds the sign in its top
//! bit, then the biased exponent, then the `S - 1` stored mantissa bits.

use crate::arith::{
    lemma_and_low_mask, lemma_digits_low, lemma_div_mod_parts, lemma_div_mod_unique, lemma_div_pow2_twice,
    lemma_pow2_le, lemma_pow2_small, lemma_pow2_step, lemma_pow2_sum,
};
use crate::bignum::{
    big_add, big_and, big_from, big_shl, big_shr, big_sub, big_u64_digits, big_value,
};
use num_bigint::BigUint;
use vstd::arithmetic::power2::{lemma2_to64, lemma2_to64_rest, pow2};
use vstd::prelude::*;

verus! {

/// A binary floating-point format, given by its field widths.
///
/// The constants are what executable code reads; [`layout`](FloatType::layout)
/// is the same widths as numbers, for contracts. An implementation proves
/// that the two agree and that the widths are within the library's limits,
/// so every function of the library accepts every format.
pub trait FloatType: Copy {
    /// Width of the exponent field in bits.
    const EXP: usize;

    /// Width of the significand in bits, the hidden leading bit included.
    const SIG: usize;

    /// Total width of a pattern in bits.
    const WIDTH: usize = Self::EXP + Self::SIG;

    /// Short name of the format.
    const NAME: &'static str;

    /// The widths of the format as numbers.
    spec fn layout() -> Layout;

    /// The constants are the widths of the layout; both fields are at least
    /// two bits wide and no wider than [`MAX_EXP`] and [`MAX_SIG`].
    proof fn layout_is_valid()
        ensures
            Self::EXP == Self::layout().exp,
            Self::SIG == Self::layout().sig,
            2 <= Self::EXP <= MAX_EXP,
            2 <= Self::SIG <= MAX_SIG,
            Self::layout().valid(),
    ;

    /// The exponent bias, `2^(E-1) - 1`.
    fn bias() -> (r: BigUint)
        ensures
            big_value(r) == Self::layout().bias(),
    {
        proof {
            Self::layout_is_valid();
            lemma_pow2_le(0, (Self::EXP - 1) as nat);
        }
        let one = big_from(1);
        big_sub(&big_shl(&one, (Self::EXP - 1) as u64), &one)
    }

    /// The largest biased exponent, `2^E - 1`.
    fn max_exp() -> (r: BigUint)
        ensures
            big_value(r) == Self::layout().max_exp(),
    {
        proof {
            Self::layout_is_valid();
            lemma_pow2_le(0, Self::EXP as nat);
        }
        let one = big_from(1);
        big_sub(&big_shl(&one, Self::EXP as u64), &one)
    }
}

/// IEEE-754 binary16: 5 exponent bits, 11 significand bits.
#[derive(Clone, Copy)]
pub struct Binary16;

/// IEEE-754 binary32: 8 exponent bits, 24 significand bits.
#[derive(Clone, Copy)]
pub struct Binary32;

/// IEEE-754 binary64: 11 exponent bits, 53 significand bits.
#[derive(Clone, Copy)]
pub struct Binary64;

impl FloatType for Binary16 {
    const EXP: usize = 5;

    const SIG: usize = 11;

    const NAME: &'static str = "f16";

    open spec fn layout() -> Layout {
        Layout { exp: 5, sig: 11 }
    }

    proof fn layout_is_valid() {
    }
}

impl FloatType for Binary32 {
    const EXP: usize = 8;

    const SIG: usize = 24;

    const NAME: &'static str = "f32";

    open spec fn layout() -> Layout {
        Layout { exp: 8, sig: 24 }
    }

    proof fn layout_is_valid() {
    }
}

impl FloatType for Binary64 {
    const EXP: usize = 11;

    const SIG: usize = 53;

    const NAME: &'static str = "f64";

    open spec fn layout() -> Layout {
        Layout { exp: 11, sig: 53 }
    }

    proof fn layout_is_valid() {
    }
}

/// Largest significand width the library computes with.
pub const MAX_SIG: usize = 0x1000_0000;

/// Largest exponent width the library computes with: exponents then fit a
/// machine word and every alignment shift stays below 2^32.
pub const MAX_EXP: usize = 32;

/// The widths of a format as numbers: what contracts say of a
/// [`FloatType`].
pub struct Layout {
    pub exp: nat,
    pub sig: nat,
}

/// The five classes of a bit pattern.
#[derive(Clone, Copy, Debug, PartialEq, Eq, Structural)]
pub enum FloatClass {
    Zero,
    Subnormal,
    Normal,
    Infinite,
    Nan,
}

/// The layout of format `T`.
pub open spec fn layout_of<T: FloatType>() -> Layout {
    T::layout()
}

/// Bits `upper` down to `lower` of `n`, right-aligned.
pub open spec fn bits_range(n: nat, upper: nat, lower: nat) -> nat {
    (n / pow2(lower)) % pow2((upper - lower + 1) as nat)
}

impl Layout {
    /// Both fields are at least two bits wide.
    pub open spec fn valid(self) -> bool {
        self.exp >= 2 && self.sig >= 2
    }

    /// Total width of a pattern.
    pub open spec fn width(self) -> nat {
        self.exp + self.sig
    }

    /// The hidden bit: one above the stored mantissa, `2^(S-1)`.
    pub open spec fn hidden(self) -> nat {
        pow2((self.sig - 1) as nat)
    }

    /// The exponent bias, `2^(E-1) - 1`.
    pub open spec fn bias(self) -> nat {
        (pow2((self.exp - 1) as nat) - 1) as nat
    }

    /// The largest biased exponent, `2^E - 1`, which marks infinities and NaNs.
    pub open spec fn max_exp(self) -> nat {
        (pow2(self.exp) - 1) as nat
    }

    /// The weight of the sign bit, `2^(W-1)`.
    pub open spec fn sign_weight(self) -> nat {
        pow2((self.width() - 1) as nat)
    }

    /// The sign bit of a pattern.
    pub open spec fn sign_of(self, bits: nat) -> nat {
        (bits / self.sign_weight()) % 2
    }

    /// The biased exponent field of a pattern.
    pub open spec fn exp_of(self, bits: nat) -> nat {
        (bits / self.hidden()) % pow2(self.exp)
    }

    /// The stored mantissa field of a pattern.
    pub open spec fn man_of(self, bits: nat) -> nat {
        bits % self.hidden()
    }

    /// Each field fits its declared width.
    pub open spec fn fields_fit(self, sign: nat, exp: nat, man: nat) -> bool {
        sign < 2 && exp < pow2(self.exp) && man < self.hidden()
    }

    /// The pattern that concatenates sign, exponent and mantissa.
    pub open spec fn pack(self, sign: nat, exp: nat, man: nat) -> nat {
        sign * self.sign_weight() + exp * self.hidden() + man
    }

    /// The class of a decomposed pattern.
    pub open spec fn class_of_fields(self, exp: nat, man: nat) -> FloatClass {
        if exp == 0 {
            if man == 0 {
                FloatClass::Zero
            } else {
                FloatClass::Subnormal
            }
        } else if exp == self.max_exp() {
            if man == 0 {
                FloatClass::Infinite
            } else {
                FloatClass::Nan
            }
        } else {
            FloatClass::Normal
        }
    }

    /// The class of a pattern.
    pub open spec fn class_of(self, bits: nat) -> FloatClass {
        self.class_of_fields(self.exp_of(bits), self.man_of(bits))
    }
}

/// The pattern that holds the given bits.
pub fn to_biguint(bits: u64) -> (r: BigUint)
    ensures
        big_value(r) == bits,
{
    big_from(bits)
}

/// The low 64 bits of a pattern.
pub fn from_biguint(num: &BigUint) -> (r: u64)
    ensures
        r == big_value(*num) % 0x1_0000_0000_0000_0000,
{
    let digits = big_u64_digits(num);
    proof {
        lemma_digits_low(digits@);
    }
    if digits.len() > 0 {
        digits[0]
    } else {
        0
    }
}

/// Bits `upper` down to `lower` of `num`, right-aligned. `upper` must not be
/// below `lower`, and the range must be narrower than 2^32 bits.
pub fn range<T: FloatType>(num: &BigUint, upper: usize, lower: usize) -> (r: BigUint)
    requires
        lower <= upper,
        upper - lower < u32::MAX,
    ensures
        big_value(r) == bits_range(big_value(*num), upper as nat, lower as nat),
{
    let width: u64 = (upper - lower) as u64 + 1;
    let one = big_from(1);
    let top = big_shl(&one, width);
    proof {
        lemma_and_low_mask(big_value(*num) / pow2(lower as nat), width as nat);
    }
    let mask = big_sub(&top, &one);
    let shifted = big_shr(num, lower as u64);
    big_and(&shifted, &mask)
}

/// Bit `idx` of `num`, as zero or one.
pub fn bit<T: FloatType>(num: &BigUint, idx: usize) -> (r: BigUint)
    ensures
        big_value(r) == bits_range(big_value(*num), idx as nat, idx as nat),
        big_value(r) == (big_value(*num) / pow2(idx as nat)) % 2,
{
    let one = big_from(1);
    let shifted = big_shr(num, idx as u64);
    proof {
        lemma_pow2_small();
        lemma_and_low_mask(big_value(shifted), 1);
    }
    big_and(&shifted, &one)
}

/// Splits a pattern into sign, biased exponent and stored mantissa. Bits
/// above the format's width are ignored.
pub fn extract<T: FloatType>(num: &BigUint) -> (r: (BigUint, BigUint, BigUint))
    ensures
        big_value(r.0) == layout_of::<T>().sign_of(big_value(*num)),
        big_value(r.1) == layout_of::<T>().exp_of(big_value(*num)),
        big_value(r.2) == layout_of::<T>().man_of(big_value(*num)),
        layout_of::<T>().fields_fit(big_value(r.0), big_value(r.1), big_value(r.2)),
{
    proof {
        T::layout_is_valid();
        lemma_pow2_small();
        lemma_fields_fit(layout_of::<T>(), big_value(*num));
    }
    (
        bit::<T>(num, T::EXP + T::SIG - 1),
        range::<T>(num, T::EXP + T::SIG - 2, T::SIG - 1),
        range::<T>(num, T::SIG - 2, 0),
    )
}

/// Concatenates sign, biased exponent and stored mantissa into a pattern.
/// Each field must fit its declared width.
pub fn pack<T: FloatType>(sign: &BigUint, exp: &BigUint, man: &BigUint) -> (r: BigUint)
    requires
        layout_of::<T>().fields_fit(big_value(*sign), big_value(*exp), big_value(*man)),
    ensures
        big_value(r) == layout_of::<T>().pack(big_value(*sign), big_value(*exp), big_value(*man)),
        big_value(r) < pow2(layout_of::<T>().width()),
{
    proof {
        T::layout_is_valid();
        lemma_pack_fields(
            layout_of::<T>(),
            big_value(*sign),
            big_value(*exp),
            big_value(*man),
        );
    }
    let high = big_shl(sign, (T::EXP + T::SIG - 1) as u64);
    let mid = big_shl(exp, (T::SIG - 1) as u64);
    big_add(&big_add(&high, &mid), man)
}

/// The fields of any pattern fit their widths.
pub proof fn lemma_fields_fit(l: Layout, bits: nat)
    requires
        l.valid(),
    ensures
        l.fields_fit(l.sign_of(bits), l.exp_of(bits), l.man_of(bits)),
{
    lemma_pow2_le(0, l.exp);
    lemma_pow2_le(0, (l.sig - 1) as nat);
    lemma_div_mod_parts(bits / l.hidden(), pow2(l.exp));
    lemma_div_mod_parts(bits, l.hidden());
}

/// The sign bit weighs as much as the hidden bit times `2^E`, and a pattern
/// holds twice that many values.
pub proof fn lemma_layout_weights(l: Layout)
    requires
        l.valid(),
    ensures
        l.hidden() >= 2,
        pow2(l.exp) >= 4,
        l.max_exp() >= 3,
        l.sign_weight() == l.hidden() * pow2(l.exp),
        pow2(l.width()) == 2 * l.sign_weight(),
{
    lemma_pow2_small();
    lemma_pow2_le(1, (l.sig - 1) as nat);
    lemma_pow2_le(2, l.exp);
    lemma_pow2_sum((l.sig - 1) as nat, l.exp);
    assert((l.sig - 1) as nat + l.exp == (l.width() - 1) as nat);
    lemma_pow2_step((l.width() - 1) as nat);
}

/// Unpacking what was packed gives the fields back: the pattern is below
/// `2^W`, and its sign, exponent and mantissa are the ones put in.
pub proof fn lemma_pack_fields(l: Layout, sign: nat, exp: nat, man: nat)
    requires
        l.valid(),
        l.fields_fit(sign, exp, man),
    ensures
        l.pack(sign, exp, man) < pow2(l.width()),
        l.sign_of(l.pack(sign, exp, man)) == sign,
        l.exp_of(l.pack(sign, exp, man)) == exp,
        l.man_of(l.pack(sign, exp, man)) == man,
{
    lemma_layout_weights(l);
    let h = l.hidden();
    let p = pow2(l.exp);
    let top = l.sign_weight();
    let bits = l.pack(sign, exp, man);
    let low = exp * h + man;
    assert(low < top) by (nonlinear_arith)
        requires
            low == exp * h + man,
            man < h,
            exp < p,
            top == h * p,
    ;
    assert(bits == (sign * p + exp) * h + man) by (nonlinear_arith)
        requires
            bits == sign * top + exp * h + man,
            top == h * p,
    ;
    assert(sign * top <= top) by (nonlinear_arith)
        requires
            sign < 2,
    ;
    lemma_div_mod_unique(bits, h, sign * p + exp, man);
    lemma_div_mod_unique(sign * p + exp, p, sign, exp);
    lemma_div_mod_unique(bits, top, sign, low);
}

/// Packing the fields of a pattern of at most `W` bits gives the pattern back.
pub proof fn lemma_fields_pack(l: Layout, bits: nat)
    requires
        l.valid(),
        bits < pow2(l.width()),
    ensures
        l.pack(l.sign_of(bits), l.exp_of(bits), l.man_of(bits)) == bits,
{
    lemma_layout_weights(l);
    let h = l.hidden();
    let p = pow2(l.exp);
    let top = l.sign_weight();
    lemma_div_mod_parts(bits, h);
    lemma_div_mod_parts(bits / h, p);
    lemma_div_pow2_twice(bits, (l.sig - 1) as nat, l.exp);
    assert((l.sig - 1) as nat + l.exp == (l.width() - 1) as nat);
    let s = bits / top;
    assert((bits / h) / p == s);
    lemma_div_mod_parts(bits, top);
    assert(s < 2) by (nonlinear_arith)
        requires
            bits == top * s + bits % top,
            bits < 2 * top,
    ;
    assert(l.sign_of(bits) == s);
    let e = l.exp_of(bits);
    let m = l.man_of(bits);
    assert(bits == s * top + e * h + m) by (nonlinear_arith)
        requires
            bits == h * (bits / h) + m,
            bits / h == p * s + e,
            top == h * p,
    ;
}

/// The numbers that the three standard layouts are made of: the hidden bit,
/// the weight of the sign bit, the largest exponent and the bias. With them
/// the fields of a given pattern can be worked out.
pub proof fn lemma_standard_layouts()
    ensures
        Binary16::layout().hidden() == 0x400,
        Binary16::layout().sign_weight() == 0x8000,
        Binary16::layout().max_exp() == 31,
        Binary16::layout().bias() == 15,
        pow2(Binary16::layout().exp) == 32,
        Binary32::layout().hidden() == 0x80_0000,
        Binary32::layout().sign_weight() == 0x8000_0000,
        Binary32::layout().max_exp() == 255,
        Binary32::layout().bias() == 127,
        pow2(Binary32::layout().exp) == 256,
        Binary64::layout().hidden() == 0x10_0000_0000_0000,
        Binary64::layout().sign_weight() == 0x8000_0000_0000_0000,
        Binary64::layout().max_exp() == 2047,
        Binary64::layout().bias() == 1023,
        pow2(Binary64::layout().exp) == 2048,
{
    lemma2_to64();
    lemma2_to64_rest();
}

} // verus!
