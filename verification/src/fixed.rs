//! Fixed-point arithmetic for costs.
//!
//! A cost is a `u128` counting thousandths: [`UNIT`] stands for `1.0`. The
//! largest value, [`INFINITE`], stands for "no cost recorded"; sums saturate
//! at it, so that an infinite cost stays infinite whatever is added to it.
use vstd::prelude::*;

verus! {

/// The fixed-point representation of `1.0`.
pub const UNIT: u128 = 1000;

/// The cost of what has not been reached.
pub const INFINITE: u128 = 0xffff_ffff_ffff_ffff_ffff_ffff_ffff_ffff;

/// The sum of two costs, cut off at `INFINITE`.
pub open spec fn sum(a: u128, b: u128) -> u128 {
    if a + b >= INFINITE {
        INFINITE
    } else {
        (a + b) as u128
    }
}

/// Adds two costs; the result is `INFINITE` as soon as the exact sum reaches it.
pub fn saturating_sum(a: u128, b: u128) -> (r: u128)
    ensures
        r == sum(a, b),
{
    a.saturating_add(b)
}

/// The cost of `steps` whole units.
pub fn whole(steps: usize) -> (r: u128)
    ensures
        r == steps * UNIT,
        r < INFINITE,
{
    (steps as u128) * UNIT
}

} // verus!
