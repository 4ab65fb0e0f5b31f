//! A boids-style flocking core: agents steer toward or away from a
//! player, separate from, align with and cohere to their neighbours,
//! and integrate velocity and position once per tick.
//!
//! All quantities are fixed-point integers: [`SCALE`] raw units stand
//! for one world unit. Every public function carries a contract that
//! pins its result to a mathematical model of the same computation.
use vstd::prelude::*;

pub mod engine;
pub mod index;
pub mod num;
pub mod ramp;
pub mod rng;
pub mod vec2;

verus! {

/// Number of raw fixed-point units per world unit. All positions,
/// velocities and tunable factors in this crate are integers measured
/// in these raw units.
pub const SCALE: i64 = 1000;

/// Largest position coordinate (in raw units) a tick accepts.
pub const POS_LIMIT: i64 = 1_000_000_000;

/// Largest velocity coordinate (in raw units) a tick accepts.
pub const VEL_LIMIT: i64 = 2_000_000;

/// Largest value (in raw units) of any tunable factor, distance bound,
/// speed band edge or query radius.
pub const FACTOR_LIMIT: i64 = 1_000_000;

/// Smallest admissible divisor floor for neighbour distances.
pub const MIN_DISTANCE_FLOOR: i64 = 100;

/// Largest admissible neighbour count for the k-nearest query mode.
pub const K_LIMIT: usize = 32;

/// Largest admissible elapsed time per tick, in raw units of a second.
pub const DELTA_LIMIT: i64 = 10_000;

/// Largest admissible speed multiplier for position integration.
pub const SPEED_LIMIT: i64 = 100;

/// Largest admissible agent population per tick.
pub const N_LIMIT: usize = 100_000;

/// How far one integration step can move a coordinate:
/// `2 * FACTOR_LIMIT * DELTA_LIMIT * SPEED_LIMIT / SCALE`.
pub const MOVE_LIMIT: i64 = 2_000_000_000;

/// Clamp `x` into the interval `[lo, hi]`.
pub fn clamp_i64(x: i64, lo: i64, hi: i64) -> (r: i64)
    requires
        lo <= hi,
    ensures
        r == clampi(x as int, lo as int, hi as int),
{
    if x < lo {
        lo
    } else if x > hi {
        hi
    } else {
        x
    }
}

/// Mathematical clamp on integers.
pub open spec fn clampi(x: int, lo: int, hi: int) -> int {
    if x < lo {
        lo
    } else if x > hi {
        hi
    } else {
        x
    }
}

} // verus!
