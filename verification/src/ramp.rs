//! The strength ramp: a clamped linear interpolation mapping a distance
//! into `[0, SCALE]` between a minimum and a maximum threshold.
use crate::clampi;
use crate::num::tdiv;
use crate::SCALE;
use vstd::prelude::*;
use vstd::arithmetic::div_mod::{
    lemma_div_is_ordered, lemma_div_multiples_vanish, lemma_div_pos_is_pos,
};

verus! {

/// Mathematical strength ramp: 0 at `min` and below, `SCALE` at `max`
/// and above, linear in between (truncated to raw units).
pub open spec fn strength_spec(min: int, max: int, x: int) -> int {
    tdiv((clampi(x, min, max) - min) * (SCALE as int), max - min)
}

/// Strength ramp on raw fixed-point values.
pub fn strength(min: i64, max: i64, x: i64) -> (r: i64)
    requires
        -FACTOR_BOUND <= min < max <= FACTOR_BOUND,
        -FACTOR_BOUND <= x <= FACTOR_BOUND,
    ensures
        r == strength_spec(min as int, max as int, x as int),
        0 <= r <= SCALE,
{
    let c = crate::clamp_i64(x, min, max);
    let num = (c - min) * SCALE;
    proof {
        lemma_strength_range(min as int, max as int, x as int);
    }
    crate::num::sdiv(num, max - min)
}

/// Bound used by the ramp's contracts; wide enough for every distance
/// the engine feeds it.
pub const FACTOR_BOUND: i64 = 4_000_000_000;

/// The ramp stays inside `[0, SCALE]`.
pub proof fn lemma_strength_range(min: int, max: int, x: int)
    requires
        min < max,
    ensures
        0 <= strength_spec(min, max, x) <= SCALE,
{
    let c = clampi(x, min, max);
    let s = SCALE as int;
    let d = max - min;
    assert(0 <= c - min <= d);
    assert(0 <= (c - min) * s <= d * s) by (nonlinear_arith)
        requires
            0 <= c - min <= d,
            s == 1000,
    ;
    lemma_div_pos_is_pos((c - min) * s, d);
    lemma_div_is_ordered((c - min) * s, d * s, d);
    lemma_div_multiples_vanish(s, d);
}

/// The ramp is exactly 0 at `min` and below, and exactly `SCALE` at
/// `max` and above.
pub proof fn lemma_strength_endpoints(min: int, max: int, x: int)
    requires
        min < max,
    ensures
        x <= min ==> strength_spec(min, max, x) == 0,
        x >= max ==> strength_spec(min, max, x) == SCALE,
{
    let s = SCALE as int;
    let d = max - min;
    if x <= min {
        assert(clampi(x, min, max) == min);
        assert((0int) * s == 0);
        assert(tdiv(0, d) == 0) by {
            lemma_div_pos_is_pos(0, d);
            lemma_div_is_ordered(0, 0, d);
            vstd::arithmetic::div_mod::lemma_basic_div(0, d);
        }
    }
    if x >= max {
        assert(clampi(x, min, max) == max);
        lemma_div_multiples_vanish(s, d);
        assert((max - min) * s == d * s);
        assert(tdiv(d * s, d) == s) by {
            lemma_div_pos_is_pos(d * s, d);
        }
    }
}

/// The ramp is monotone: a larger input never gives a smaller strength.
pub proof fn lemma_strength_monotone(min: int, max: int, x1: int, x2: int)
    requires
        min < max,
        x1 <= x2,
    ensures
        strength_spec(min, max, x1) <= strength_spec(min, max, x2),
{
    let s = SCALE as int;
    let d = max - min;
    let c1 = clampi(x1, min, max);
    let c2 = clampi(x2, min, max);
    assert(0 <= c1 - min <= c2 - min);
    assert((c1 - min) * s <= (c2 - min) * s) by (nonlinear_arith)
        requires
            0 <= c1 - min <= c2 - min,
            s == 1000,
    ;
    lemma_div_is_ordered((c1 - min) * s, (c2 - min) * s, d);
    lemma_div_pos_is_pos((c1 - min) * s, d);
    lemma_div_pos_is_pos((c2 - min) * s, d);
}

} // verus!
