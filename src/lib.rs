//! Recursive partition sort of double-precision floating-point values.
//!
//! Values are handled through their IEEE-754 binary64 bit patterns (`f64::to_bits`),
//! and compared exactly as the floating-point `<` and `>=` operators compare them.
use vstd::prelude::*;

pub mod float_bits;
pub mod sort;

verus! {

} // verus!
