//! Printable decompositions of patterns in the three encodings.

use crate::bignum::{big_to_str_radix, big_value, radix_digits};
use crate::format::{bit, bits_range, extract, layout_of, range, FloatType, Layout};
use num_bigint::BigUint;
use vstd::prelude::*;

verus! {

/// `digits` with zeros put before it until it is `width` characters long.
pub open spec fn zero_padded(digits: Seq<char>, width: nat) -> Seq<char> {
    if digits.len() >= width {
        digits
    } else {
        Seq::new((width - digits.len()) as nat, |i: int| '0') + digits
    }
}

/// A number in decimal.
pub open spec fn decimal(n: nat) -> Seq<char> {
    radix_digits(n, 10)
}

impl Layout {
    /// The text for a standard pattern: sign and exponent in decimal, the
    /// mantissa in binary, padded with zeros to its `S - 1` bits.
    pub open spec fn printed(self, bits: nat) -> Seq<char> {
        "sign="@ + decimal(self.sign_of(bits)) + ",exp="@ + decimal(self.exp_of(bits)) + ",man="@
            + zero_padded(radix_digits(self.man_of(bits), 2), (self.sig - 1) as nat)
    }

    /// The text for a recoded pattern: the sign above an exponent of `E + 1`
    /// bits and a mantissa of `S - 1` bits, all in decimal.
    pub open spec fn printed_recoded(self, bits: nat) -> Seq<char> {
        "sign="@ + decimal(bits_range(bits, self.width(), self.width())) + ",exp="@ + decimal(
            bits_range(bits, (self.width() - 1) as nat, (self.sig - 1) as nat),
        ) + ",sig="@ + decimal(bits_range(bits, (self.sig - 2) as nat, 0))
    }

    /// The text for a FloPoCo pattern: the two classification bits, then
    /// sign, exponent and mantissa, all in decimal.
    pub open spec fn printed_flopoco(self, bits: nat) -> Seq<char> {
        "exn="@ + decimal(bits_range(bits, self.width() + 1, self.width())) + ",sign="@ + decimal(
            bits_range(bits, (self.width() - 1) as nat, (self.width() - 1) as nat),
        ) + ",exp="@ + decimal(
            bits_range(bits, (self.width() - 2) as nat, (self.sig - 1) as nat),
        ) + ",sig="@ + decimal(bits_range(bits, (self.sig - 2) as nat, 0))
    }
}

/// Puts zeros before `digits` until it is `width` characters long.
fn zero_pad(digits: String, width: usize) -> (r: String)
    ensures
        r@ == zero_padded(digits@, width as nat),
{
    let len = digits.as_str().unicode_len();
    if len >= width {
        return digits;
    }
    let mut out = String::new();
    let mut i: usize = len;
    while i < width
        invariant
            len <= i <= width,
            out@ =~= Seq::new((i - len) as nat, |j: int| '0'),
        decreases width - i,
    {
        proof {
            reveal_strlit("0");
        }
        out.append("0");
        i += 1;
    }
    out.append(digits.as_str());
    assert(out@ =~= zero_padded(digits@, width as nat));
    out
}

/// The decomposition of a standard pattern of format `T`, as
/// `sign=..,exp=..,man=..`.
pub fn print_float<T: FloatType>(bits: &BigUint) -> (r: String)
    ensures
        r@ == layout_of::<T>().printed(big_value(*bits)),
{
    proof {
        T::layout_is_valid();
    }
    let (sign, exp, man) = extract::<T>(bits);
    let mut out = String::from_str("sign=");
    out.append(big_to_str_radix(&sign, 10).as_str());
    out.append(",exp=");
    out.append(big_to_str_radix(&exp, 10).as_str());
    out.append(",man=");
    out.append(zero_pad(big_to_str_radix(&man, 2), T::SIG - 1).as_str());
    out
}

/// The decomposition of a recoded pattern of format `T`, as
/// `sign=..,exp=..,sig=..`.
pub fn print_hardfloat<T: FloatType>(bits: &BigUint) -> (r: String)
    ensures
        r@ == layout_of::<T>().printed_recoded(big_value(*bits)),
{
    proof {
        T::layout_is_valid();
    }
    let sign = bit::<T>(bits, T::SIG + T::EXP);
    let exp = range::<T>(bits, T::SIG + T::EXP - 1, T::SIG - 1);
    let sig = range::<T>(bits, T::SIG - 2, 0);
    let mut out = String::from_str("sign=");
    out.append(big_to_str_radix(&sign, 10).as_str());
    out.append(",exp=");
    out.append(big_to_str_radix(&exp, 10).as_str());
    out.append(",sig=");
    out.append(big_to_str_radix(&sig, 10).as_str());
    out
}

/// The decomposition of a FloPoCo pattern of format `T`, as
/// `exn=..,sign=..,exp=..,sig=..`.
pub fn print_flopoco<T: FloatType>(bits: &BigUint) -> (r: String)
    ensures
        r@ == layout_of::<T>().printed_flopoco(big_value(*bits)),
{
    proof {
        T::layout_is_valid();
    }
    let exn = range::<T>(bits, T::SIG + T::EXP + 1, T::SIG + T::EXP);
    let sign = bit::<T>(bits, T::SIG + T::EXP - 1);
    let exp = range::<T>(bits, T::SIG + T::EXP - 2, T::SIG - 1);
    let sig = range::<T>(bits, T::SIG - 2, 0);
    let mut out = String::from_str("exn=");
    out.append(big_to_str_radix(&exn, 10).as_str());
    out.append(",sign=");
    out.append(big_to_str_radix(&sign, 10).as_str());
    out.append(",exp=");
    out.append(big_to_str_radix(&exp, 10).as_str());
    out.append(",sig=");
    out.append(big_to_str_radix(&sig, 10).as_str());
    out
}

} // verus!
