//! Fixed-point trust values: an integer number of millionths.
use vstd::prelude::*;

verus! {

/// The fixed-point unit: a score of `SCALE` is full trust (1.0).
pub const SCALE: u64 = 1_000_000;

/// Scores strictly below this value mark a weak link (0.3).
pub const WEAK_LINK_THRESHOLD: u64 = 300_000;

/// `a * w`, both read as fractions of `SCALE`, rounded down and capped at `u64::MAX`.
pub open spec fn scaled_product(a: u64, w: u64) -> u64 {
    let p = (a as int) * (w as int) / (SCALE as int);
    if p > u64::MAX as int { u64::MAX } else { p as u64 }
}

/// Multiplies two fixed-point values.
pub fn attenuate(a: u64, w: u64) -> (r: u64)
    ensures
        r == scaled_product(a, w),
        w <= SCALE ==> r <= a,
{
    let a2: u128 = a as u128;
    let w2: u128 = w as u128;
    proof {
        assert(a2 * w2 <= u64::MAX as int * u64::MAX as int) by (nonlinear_arith)
            requires a2 <= u64::MAX, w2 <= u64::MAX;
    }
    let p: u128 = a2 * w2 / (SCALE as u128);
    proof {
        if w <= SCALE {
            assert((a as int) * (w as int) <= (a as int) * (SCALE as int)) by (nonlinear_arith)
                requires w <= SCALE;
            assert((a as int) * (w as int) / (SCALE as int) <= a as int) by (nonlinear_arith)
                requires (a as int) * (w as int) <= (a as int) * (SCALE as int), SCALE > 0;
        }
    }
    if p > u64::MAX as u128 {
        u64::MAX
    } else {
        p as u64
    }
}

/// The smaller of two values.
pub fn min_score(a: u64, b: u64) -> (r: u64)
    ensures
        r == if a <= b { a } else { b },
{
    if a <= b { a } else { b }
}

} // verus!
