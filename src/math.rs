//! Helpers around numbers: variable names, and the shared rounding and divisor
//! functions.
use vstd::prelude::*;

pub use crate::{gcf, lcm, round_i32, round_i64, Operation, PlaceValue};

use crate::scan::chars_of;
use crate::VARIABLES;

verus! {

/// The variable name at a position drawn among the letters of `VARIABLES`;
/// a uniform draw gives a uniformly chosen name.
pub fn rand_variable(index: usize) -> (c: char)
    requires
        index < VARIABLES@.len(),
    ensures
        c == VARIABLES@[index as int],
{
    let chars = chars_of(VARIABLES);
    chars[index]
}

} // verus!
