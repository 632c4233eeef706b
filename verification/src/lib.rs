//! Software IEEE-754 binary addition and subtraction over arbitrary-precision
//! bit patterns, with conversions to the recoded and FloPoCo encodings.

pub mod add;
pub mod args;
pub mod arith;
pub mod bignum;
pub mod classify;
pub mod exact;
pub mod format;
pub mod laws;
pub mod print;
pub mod recode;
pub mod report;

pub use add::{effective_add, effective_sub, round, rshift_sticky, softfloat_add, softfloat_sub};
pub use args::{read_argument, strip_hex_prefixes, Argument};
pub use classify::softfloat_classify;
pub use format::{
    bit, extract, from_biguint, pack, range, to_biguint, Binary16, Binary32, Binary64,
    FloatClass, FloatType,
};
pub use print::{print_flopoco, print_float, print_hardfloat};
pub use recode::{to_flopoco, to_hardfloat};
pub use report::{float_to_hex_lines, hex_string, split_words};
