//! The computed parts of an inspection report: the three encodings of a
//! pattern side by side, and a long pattern cut into words of one format.

use crate::bignum::{big_bits, big_to_str_radix, big_value, bit_len, radix_digits};
use crate::format::{layout_of, range, FloatClass, FloatType, Layout};
use crate::print::{print_flopoco, print_float, print_hardfloat};
use crate::recode::{to_flopoco, to_hardfloat};
use num_bigint::BigUint;
use vstd::arithmetic::power2::pow2;
use vstd::prelude::*;

verus! {

/// A number in hexadecimal, lower case, behind `0x`.
pub open spec fn hex(n: nat) -> Seq<char> {
    "0x"@ + radix_digits(n, 16)
}

/// One line of a report: four spaces, the encoding's prefix and the format's
/// name, then the pattern in hexadecimal with its decomposition in brackets.
pub open spec fn report_line(
    prefix: Seq<char>,
    name: Seq<char>,
    bits: nat,
    detail: Seq<char>,
) -> Seq<char> {
    "    "@ + prefix + name + ": "@ + hex(bits) + "("@ + detail + ")\n"@
}

/// Word `i` of `n`, counted from the least significant, in words of `width`
/// bits.
pub open spec fn word_at(n: nat, width: nat, i: nat) -> nat {
    (n / pow2(i * width)) % pow2(width)
}

impl Layout {
    /// The three lines that show a pattern in the standard, the recoded and
    /// the FloPoCo encoding.
    pub open spec fn encodings_report(self, name: Seq<char>, bits: nat) -> Seq<char> {
        report_line(""@, name, bits, self.printed(bits)) + report_line(
            "h"@,
            name,
            self.recoded(bits),
            self.printed_recoded(self.recoded(bits)),
        ) + report_line(
            "fpc"@,
            name,
            self.flopoco(bits),
            self.printed_flopoco(self.flopoco(bits)),
        )
    }
}

/// A pattern in hexadecimal behind `0x`.
pub fn hex_string(bits: &BigUint) -> (r: String)
    ensures
        r@ == hex(big_value(*bits)),
{
    let mut out = String::from_str("0x");
    out.append(big_to_str_radix(bits, 16).as_str());
    out
}

/// Builds one line of a report.
fn line(prefix: &str, name: &str, bits: &BigUint, detail: String) -> (r: String)
    ensures
        r@ == report_line(prefix@, name@, big_value(*bits), detail@),
{
    let mut out = String::from_str("    ");
    out.append(prefix);
    out.append(name);
    out.append(": ");
    out.append(hex_string(bits).as_str());
    out.append("(");
    out.append(detail.as_str());
    out.append(")\n");
    out
}

/// The three report lines for a pattern of format `T`: the standard
/// encoding, the recoded one (prefix `h`) and the FloPoCo one (prefix
/// `fpc`). The format must have a recoded form and the pattern must not be
/// subnormal, for which there is no FloPoCo encoding.
pub fn float_to_hex_lines<T: FloatType>(bits: &BigUint) -> (r: String)
    requires
        layout_of::<T>().recodable(),
        layout_of::<T>().class_of(big_value(*bits)) != FloatClass::Subnormal,
    ensures
        r@ == layout_of::<T>().encodings_report(T::NAME@, big_value(*bits)),
{
    proof {
        T::layout_is_valid();
    }
    let hardfloat = to_hardfloat::<T>(bits);
    let flopoco = to_flopoco::<T>(bits);
    let mut out = line("", T::NAME, bits, print_float::<T>(bits));
    out.append(line("h", T::NAME, &hardfloat, print_hardfloat::<T>(&hardfloat)).as_str());
    out.append(line("fpc", T::NAME, &flopoco, print_flopoco::<T>(&flopoco)).as_str());
    out
}

/// Cuts a pattern into words of the width of format `T`, least significant
/// word first: as many words as cover its bits, none for zero. The pattern's
/// bit count plus the width must fit a machine word.
pub fn split_words<T: FloatType>(num: &BigUint) -> (r: Vec<BigUint>)
    requires
        bit_len(big_value(*num)) + T::EXP + T::SIG <= usize::MAX,
    ensures
        (r@.len() - 1) * layout_of::<T>().width() < bit_len(big_value(*num)) <= r@.len()
            * layout_of::<T>().width(),
        forall|i: int|
            0 <= i < r@.len() ==> big_value(#[trigger] r@[i]) == word_at(
                big_value(*num),
                layout_of::<T>().width(),
                i as nat,
            ),
{
    proof {
        T::layout_is_valid();
    }
    let width: usize = T::EXP + T::SIG;
    let num_bits: u64 = big_bits(num);
    let mut words: Vec<BigUint> = Vec::new();
    let mut offset: usize = 0;
    assert(words@.len() * width == 0) by (nonlinear_arith)
        requires
            words@.len() == 0,
    ;
    while (offset as u64) < num_bits
        invariant
            width == layout_of::<T>().width(),
            num_bits == bit_len(big_value(*num)),
            num_bits + width <= usize::MAX,
            offset == words@.len() * width,
            offset < num_bits + width,
            forall|i: int|
                0 <= i < words@.len() ==> big_value(#[trigger] words@[i]) == word_at(
                    big_value(*num),
                    width as nat,
                    i as nat,
                ),
        decreases num_bits + width - offset,
    {
        proof {
            T::layout_is_valid();
        }
        let word = range::<T>(num, offset + width - 1, offset);
        proof {
            let n = words@.len();
            assert((n + 1) * width == n * width + width) by (nonlinear_arith);
        }
        words.push(word);
        offset += width;
    }
    proof {
        let n = words@.len();
        assert((n - 1) * width == n * width - width) by (nonlinear_arith);
    }
    words
}

} // verus!
