//! Classification of bit patterns.

use crate::bignum::{big_eq, big_from, big_value};
use crate::format::{extract, layout_of, FloatClass, FloatType};
use num_bigint::BigUint;
use vstd::prelude::*;

verus! {

/// The class of a pattern of format `T`: zero, subnormal, normal, infinite
/// or NaN, by its exponent and mantissa fields.
pub fn softfloat_classify<T: FloatType>(a: &BigUint) -> (r: FloatClass)
    ensures
        r == layout_of::<T>().class_of(big_value(*a)),
{
    proof {
        T::layout_is_valid();
    }
    let zero = big_from(0);
    let (_sign_a, exp_a, man_a) = extract::<T>(a);
    let top = T::max_exp();
    if big_eq(&exp_a, &zero) && big_eq(&man_a, &zero) {
        FloatClass::Zero
    } else if big_eq(&exp_a, &zero) {
        FloatClass::Subnormal
    } else if big_eq(&exp_a, &top) && big_eq(&man_a, &zero) {
        FloatClass::Infinite
    } else if big_eq(&exp_a, &top) {
        FloatClass::Nan
    } else {
        FloatClass::Normal
    }
}

} // verus!
