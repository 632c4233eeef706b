//! Reading an argument of the inspector: as a bit pattern behind `0x`, as a
//! decimal integer that is both a bit pattern and a number, or as something
//! left for the host to read as a float.

use crate::bignum::big_value;
use num_bigint::BigUint;
use vstd::prelude::*;
use vstd::slice::slice_subrange;
use vstd::string::StringSliceAdditionalSpecFns;

verus! {

/// What `BigUint::parse_bytes` reads out of a text in a radix from 2 to 36,
/// where it reads anything.
pub uninterp spec fn parsed_number(text: Seq<u8>, radix: nat) -> Option<nat>;

/// What `str::parse::<u64>` reads out of a text, where it reads anything.
pub uninterp spec fn parsed_u64(text: Seq<char>) -> Option<u64>;

/// The number held by a pattern that may be missing.
pub open spec fn number_of(pattern: Option<BigUint>) -> Option<nat> {
    match pattern {
        Some(v) => Some(big_value(v)),
        None => None,
    }
}

/// The text starts with `0x`.
pub open spec fn hex_prefixed(text: Seq<u8>) -> bool {
    text.len() >= 2 && text[0] == 0x30 && text[1] == 0x78
}

/// The text without every `0x` that it leads with.
pub open spec fn without_hex_prefixes(text: Seq<u8>) -> Seq<u8>
    decreases text.len(),
{
    if hex_prefixed(text) {
        without_hex_prefixes(text.subrange(2, text.len() as int))
    } else {
        text
    }
}

/// The three ways to read an argument.
#[derive(Debug, PartialEq, Eq)]
pub enum Argument {
    /// Behind `0x`: the bit pattern that the hexadecimal digits give, if they
    /// give one.
    Hex(Option<BigUint>),
    /// A decimal integer: the bit pattern that its digits give, if they give
    /// one, and the integer itself.
    Integer(Option<BigUint>, u64),
    /// Anything else: left to be read as a float.
    Float,
}

/// `BigUint::parse_bytes`: the number that the text holds in the radix, or
/// nothing. The crate panics on a radix outside 2 to 36.
#[verifier::external_body]
fn big_parse_bytes(text: &[u8], radix: u32) -> (r: Option<BigUint>)
    requires
        2 <= radix <= 36,
    ensures
        number_of(r) == parsed_number(text@, radix as nat),
{
    BigUint::parse_bytes(text, radix)
}

/// `str::parse::<u64>`: the integer that the text holds, or nothing.
#[verifier::external_body]
fn parse_u64(text: &str) -> (r: Option<u64>)
    ensures
        r == parsed_u64(text@),
{
    text.parse::<u64>().ok()
}

/// Past a `0x` at `start`, what is left to strip is what follows it.
proof fn lemma_strip_step(text: Seq<u8>, start: int)
    requires
        0 <= start,
        start + 2 <= text.len(),
        text[start] == 0x30,
        text[start + 1] == 0x78,
    ensures
        without_hex_prefixes(text.subrange(start, text.len() as int)) == without_hex_prefixes(
            text.subrange(start + 2, text.len() as int),
        ),
{
    let rest = text.subrange(start, text.len() as int);
    assert(rest.len() >= 2);
    assert(rest[0] == text[start]);
    assert(rest[1] == text[start + 1]);
    assert(hex_prefixed(rest));
    assert(rest.subrange(2, rest.len() as int) =~= text.subrange(start + 2, text.len() as int));
}

/// Where no `0x` stands at `start`, nothing is left to strip.
proof fn lemma_strip_done(text: Seq<u8>, start: int)
    requires
        0 <= start <= text.len(),
        start + 2 > text.len() || text[start] != 0x30 || text[start + 1] != 0x78,
    ensures
        without_hex_prefixes(text.subrange(start, text.len() as int)) == text.subrange(
            start,
            text.len() as int,
        ),
{
    let rest = text.subrange(start, text.len() as int);
    if rest.len() >= 2 {
        assert(rest[0] == text[start]);
        assert(rest[1] == text[start + 1]);
    }
    assert(!hex_prefixed(rest));
}

/// Drops every `0x` that the text leads with.
pub fn strip_hex_prefixes<'a>(text: &'a [u8]) -> (r: &'a [u8])
    ensures
        r@ == without_hex_prefixes(text@),
{
    let mut start: usize = 0;
    assert(text@.subrange(0, text@.len() as int) =~= text@);
    while text.len() - start >= 2 && text[start] == 0x30 && text[start + 1] == 0x78
        invariant
            start <= text.len(),
            without_hex_prefixes(text@) == without_hex_prefixes(
                text@.subrange(start as int, text@.len() as int),
            ),
        decreases text.len() - start,
    {
        proof {
            lemma_strip_step(text@, start as int);
        }
        start += 2;
    }
    proof {
        lemma_strip_done(text@, start as int);
    }
    slice_subrange(text, start, text.len())
}

/// Reads an argument. Behind `0x` it is a bit pattern in hexadecimal, with
/// every leading `0x` dropped; otherwise, where it reads as an unsigned
/// integer of 64 bits, it is that integer and the bit pattern of its decimal
/// digits; otherwise it is left to be read as a float.
pub fn read_argument(arg: &str) -> (r: Argument)
    ensures
        match r {
            Argument::Hex(pattern) => hex_prefixed(arg.spec_bytes()) && number_of(pattern)
                == parsed_number(without_hex_prefixes(arg.spec_bytes()), 16),
            Argument::Integer(pattern, n) => !hex_prefixed(arg.spec_bytes()) && parsed_u64(arg@)
                == Some(n) && number_of(pattern) == parsed_number(arg.spec_bytes(), 10),
            Argument::Float => !hex_prefixed(arg.spec_bytes()) && parsed_u64(arg@) is None,
        },
{
    let text = arg.as_bytes();
    if text.len() >= 2 && text[0] == 0x30 && text[1] == 0x78 {
        Argument::Hex(big_parse_bytes(strip_hex_prefixes(text), 16))
    } else {
        match parse_u64(arg) {
            Some(n) => Argument::Integer(big_parse_bytes(text, 10), n),
            None => Argument::Float,
        }
    }
}

} // verus!
