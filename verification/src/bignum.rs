//! The arbitrary-precision unsigned integer the library computes with.
//!
//! Every bit pattern and every field in this crate is a `num_bigint::BigUint`.
//! Verus cannot look inside one, so this module names the natural number that
//! a `BigUint` holds ([`big_value`]) and states, for each operation the
//! library uses, how the result's number follows from the operands' numbers.
//! Those statements are taken on trust; everything built on them is proved.

use num_bigint::BigUint;
use vstd::arithmetic::div_mod::lemma_div_decreases;
use vstd::arithmetic::power2::pow2;
use vstd::prelude::*;

verus! {

#[verifier::external_type_specification]
#[verifier::external_body]
pub struct ExBigUint(BigUint);

/// The natural number that a `BigUint` holds.
pub uninterp spec fn big_value(b: BigUint) -> nat;

/// Bitwise AND of two natural numbers, bit by bit from the least significant.
pub open spec fn nat_and(a: nat, b: nat) -> nat
    decreases a,
{
    if a == 0 {
        0
    } else {
        2 * nat_and(a / 2, b / 2) + if a % 2 == 1 && b % 2 == 1 {
            1nat
        } else {
            0nat
        }
    }
}

/// Bitwise OR of two natural numbers, bit by bit from the least significant.
pub open spec fn nat_or(a: nat, b: nat) -> nat
    decreases a + b,
{
    if a == 0 {
        b
    } else if b == 0 {
        a
    } else {
        2 * nat_or(a / 2, b / 2) + if a % 2 == 1 || b % 2 == 1 {
            1nat
        } else {
            0nat
        }
    }
}

/// The fewest bits that can express `n`: zero for zero, otherwise one more
/// than the index of the leading one.
pub open spec fn bit_len(n: nat) -> nat
    decreases n,
{
    if n == 0 {
        0
    } else {
        1 + bit_len(n / 2)
    }
}

/// The number written by base-2^64 digits, least significant digit first.
pub open spec fn digits_value(d: Seq<u64>) -> nat
    decreases d.len(),
{
    if d.len() == 0 {
        0
    } else {
        d[0] as nat + 0x1_0000_0000_0000_0000 * digits_value(d.drop_first())
    }
}

/// The character for one digit below 36: `0`-`9`, then `a`-`z`.
pub open spec fn digit_char(d: nat) -> char {
    "0123456789abcdefghijklmnopqrstuvwxyz"@[d as int]
}

/// The digits of `n` in the given radix, most significant first, without
/// leading zeros; zero is the single digit `0`.
pub open spec fn radix_digits(n: nat, radix: nat) -> Seq<char>
    decreases n,
    when radix >= 2
    via radix_digits_decreases
{
    if n < radix {
        seq![digit_char(n)]
    } else {
        radix_digits(n / radix, radix).push(digit_char(n % radix))
    }
}

#[via_fn]
proof fn radix_digits_decreases(n: nat, radix: nat) {
    if n >= radix {
        lemma_div_decreases(n as int, radix as int);
    }
}

/// `BigUint::from(u64)`: the result holds exactly `v`.
#[verifier::external_body]
pub(crate) fn big_from(v: u64) -> (r: BigUint)
    ensures
        big_value(r) == v,
{
    BigUint::from(v)
}

/// `BigUint::to_u64_digits`: the base-2^64 digits of the number, least
/// significant first. Nothing is claimed about how many digits come back.
#[verifier::external_body]
pub(crate) fn big_u64_digits(a: &BigUint) -> (d: Vec<u64>)
    ensures
        digits_value(d@) == big_value(*a),
{
    a.to_u64_digits()
}

/// `&BigUint << u64`: multiplication by a power of two. The shift is kept
/// below 2^32 so that the digit count fits every `usize`.
#[verifier::external_body]
pub(crate) fn big_shl(a: &BigUint, n: u64) -> (r: BigUint)
    requires
        n <= u32::MAX,
    ensures
        big_value(r) == big_value(*a) * pow2(n as nat),
{
    a << n
}

/// `&BigUint >> u64`: floor division by a power of two.
#[verifier::external_body]
pub(crate) fn big_shr(a: &BigUint, n: u64) -> (r: BigUint)
    ensures
        big_value(r) == big_value(*a) / pow2(n as nat),
{
    a >> n
}

/// `&BigUint + &BigUint`: the sum.
#[verifier::external_body]
pub(crate) fn big_add(a: &BigUint, b: &BigUint) -> (r: BigUint)
    ensures
        big_value(r) == big_value(*a) + big_value(*b),
{
    a + b
}

/// `&BigUint - &BigUint`: the difference. The crate panics when the
/// subtrahend is the larger, so that case is excluded.
#[verifier::external_body]
pub(crate) fn big_sub(a: &BigUint, b: &BigUint) -> (r: BigUint)
    requires
        big_value(*a) >= big_value(*b),
    ensures
        big_value(r) == big_value(*a) - big_value(*b),
{
    a - b
}

/// `&BigUint & &BigUint`: bitwise AND.
#[verifier::external_body]
pub(crate) fn big_and(a: &BigUint, b: &BigUint) -> (r: BigUint)
    ensures
        big_value(r) == nat_and(big_value(*a), big_value(*b)),
{
    a & b
}

/// `&BigUint | &BigUint`: bitwise OR.
#[verifier::external_body]
pub(crate) fn big_or(a: &BigUint, b: &BigUint) -> (r: BigUint)
    ensures
        big_value(r) == nat_or(big_value(*a), big_value(*b)),
{
    a | b
}

/// `BigUint == BigUint`: equality of the numbers held.
#[verifier::external_body]
pub(crate) fn big_eq(a: &BigUint, b: &BigUint) -> (r: bool)
    ensures
        r == (big_value(*a) == big_value(*b)),
{
    a == b
}

/// `BigUint < BigUint`: the order of the numbers held.
#[verifier::external_body]
pub(crate) fn big_lt(a: &BigUint, b: &BigUint) -> (r: bool)
    ensures
        r == (big_value(*a) < big_value(*b)),
{
    a < b
}

/// `BigUint::bits`: the fewest bits that can express the number.
#[verifier::external_body]
pub(crate) fn big_bits(a: &BigUint) -> (r: u64)
    ensures
        r == bit_len(big_value(*a)),
{
    a.bits()
}

/// `BigUint::to_str_radix`: the digits in the given radix, lower case, most
/// significant first. The crate panics on a radix outside 2 to 36.
#[verifier::external_body]
pub(crate) fn big_to_str_radix(a: &BigUint, radix: u32) -> (s: String)
    requires
        2 <= radix <= 36,
    ensures
        s@ == radix_digits(big_value(*a), radix as nat),
{
    a.to_str_radix(radix)
}

} // verus!
