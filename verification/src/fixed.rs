//! Fixed-point numbers.
//!
//! Lengths and coordinates are binary fixed-point numbers held in an `i128`,
//! with [`FRAC_BITS`] bits behind the point. A whole number of units `u` is
//! the value `u * ONE`. Halving such a number is exact as long as bits are
//! left behind the point, which the trees' depth limit sees to.

use vstd::prelude::*;
use crate::node_traits::two_pow;

verus! {

/// The number of bits behind the binary point.
pub const FRAC_BITS: u32 = 40;

/// The fixed-point number one: two to the power [`FRAC_BITS`].
pub const ONE: i128 = 1_099_511_627_776;

/// What a slot for a neighbour's size holds while no neighbour is known: the
/// fixed-point number minus one.
pub const UNKNOWN_SIZE: i128 = -1_099_511_627_776;

/// No coordinate of a node, and no edge length, is further from zero.
pub const COORD_LIMIT: i128 = 1_267_650_600_228_229_401_496_703_205_376;

/// The fixed-point number that stands for a whole number of units.
pub open spec fn fixed(units: int) -> int {
    units * ONE
}

pub proof fn lemma_one_is_power()
    ensures
        ONE == two_pow(40),
        two_pow(8) == 256,
        two_pow(32) == 0x1_0000_0000,
{
    reveal_with_fuel(two_pow, 41);
}

/// The fixed-point number for a whole number of units.
pub fn to_fixed(units: i64) -> (value: i128)
    ensures
        value == fixed(units as int),
{
    let wide: i128 = units as i128;
    assert(wide * ONE == fixed(units as int));
    assert(-0x8000_0000_0000_0000 * ONE <= wide * ONE <= 0x8000_0000_0000_0000 * ONE)
        by (nonlinear_arith)
        requires
            -0x8000_0000_0000_0000 <= wide <= 0x8000_0000_0000_0000,
            ONE > 0,
    ;
    wide * ONE
}

} // verus!
