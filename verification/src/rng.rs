//! Deterministic initial placement: a seeded wyrand stream drives one
//! raw draw per agent, and each draw is folded into a position inside a
//! square about the origin.
//!
//! The generator state is a plain `u64` seed owned by this crate; the
//! single trusted item below delegates one draw to the outside
//! generator, whose step is small enough to state exactly.
use crate::engine::Agent;
use crate::num::lemma_mod_bound_nonneg;
use crate::vec2::{v2_bounded, v2_zero, Vec2, V2};
use vstd::prelude::*;
use vstd::arithmetic::div_mod::lemma_fundamental_div_mod_converse;

verus! {

/// First wyrand constant: the seed increment.
pub const WY_INC: u64 = 0x2d35_8dcc_aa6c_78a5;

/// Second wyrand constant: the xor mask folded into the product.
pub const WY_XOR: u64 = 0x8bb8_4b93_962e_acc9;

/// One seed advance of the wyrand generator: a wrapping add of
/// [`WY_INC`].
pub open spec fn wy_next(s: u64) -> u64 {
    (((s as int) + (WY_INC as int)) % 0x1_0000_0000_0000_0000) as u64
}

/// The output of one wyrand draw from seed `s0`: the advanced seed is
/// multiplied, as a 128-bit product, by itself xor [`WY_XOR`], and the
/// product's two halves are folded together.
pub open spec fn wy_out(s0: u64) -> u64 {
    let s = wy_next(s0);
    let t = (s as u128) * ((s ^ WY_XOR) as u128);
    (((t as int) % 0x1_0000_0000_0000_0000) as u64) ^ (((t as int)
        / 0x1_0000_0000_0000_0000) as u64)
}

/// Relies on `fastrand::Rng::with_seed`, which stores the given seed
/// unchanged, and `fastrand::Rng::u64` over the full range, which
/// performs exactly one wyrand step on that seed: the result is the
/// pure function [`wy_out`] of the seed alone.
#[verifier::external_body]
fn wyrand_u64(seed: u64) -> (n: u64)
    ensures
        n == wy_out(seed),
{
    fastrand::Rng::with_seed(seed).u64(..)
}

/// Advance a wyrand seed by one step.
pub fn wy_advance(s: u64) -> (r: u64)
    ensures
        r == wy_next(s),
{
    if s <= u64::MAX - WY_INC {
        proof {
            let m = 0x1_0000_0000_0000_0000int;
            lemma_fundamental_div_mod_converse((s as int) + (WY_INC as int), m, 0, (s as int)
                + (WY_INC as int));
        }
        s + WY_INC
    } else {
        proof {
            let m = 0x1_0000_0000_0000_0000int;
            lemma_fundamental_div_mod_converse((s as int) + (WY_INC as int), m, 1, (s as int)
                + (WY_INC as int) - m);
        }
        s - (u64::MAX - WY_INC) - 1
    }
}

/// The wyrand seed after `i` advances from `seed`.
pub open spec fn seed_at(seed: u64, i: nat) -> u64
    decreases i,
{
    if i == 0 {
        seed
    } else {
        wy_next(seed_at(seed, (i - 1) as nat))
    }
}

/// Where one raw draw places an agent: each 32-bit half of the draw is
/// reduced onto `[-half_width, half_width]`.
pub open spec fn placement(raw: u64, half_width: int) -> V2 {
    let side = 2 * half_width + 1;
    V2 {
        x: ((raw as int) % 0x1_0000_0000) % side - half_width,
        y: ((raw as int) / 0x1_0000_0000) % side - half_width,
    }
}

/// Fold a raw draw into a position inside the spawn square.
pub fn place(raw: u64, half_width: i64) -> (p: Vec2)
    requires
        0 <= half_width <= crate::POS_LIMIT,
    ensures
        p@ == placement(raw, half_width as int),
        v2_bounded(p@, half_width as int),
{
    let side: u64 = 2 * (half_width as u64) + 1;
    let lo_bits: u64 = raw % 0x1_0000_0000;
    let hi_bits: u64 = raw / 0x1_0000_0000;
    proof {
        lemma_mod_bound_nonneg(lo_bits as int, side as int);
        lemma_mod_bound_nonneg(hi_bits as int, side as int);
    }
    let x: i64 = (lo_bits % side) as i64 - half_width;
    let y: i64 = (hi_bits % side) as i64 - half_width;
    Vec2 { x, y }
}

/// Spawn `count` agents with identities `0 .. count`, zero velocity,
/// and wyrand-driven positions inside the square of the given
/// half-width: one draw per agent, from the seed's advance sequence.
pub fn spawn_flock(count: usize, half_width: i64, seed: u64) -> (agents: Vec<Agent>)
    requires
        0 <= half_width <= crate::POS_LIMIT,
        count <= crate::N_LIMIT,
    ensures
        agents@.len() == count,
        forall|i: int|
            0 <= i < count ==> {
                &&& (#[trigger] agents@[i]).id == i as u64
                &&& agents@[i].vel@ == v2_zero()
                &&& agents@[i].pos@ == placement(wy_out(seed_at(seed, i as nat)), half_width as int)
                &&& v2_bounded(agents@[i].pos@, half_width as int)
            },
{
    let mut agents: Vec<Agent> = Vec::new();
    let mut cur: u64 = seed;
    let mut i: usize = 0;
    while i < count
        invariant
            0 <= i <= count,
            count <= crate::N_LIMIT,
            0 <= half_width <= crate::POS_LIMIT,
            agents@.len() == i,
            cur == seed_at(seed, i as nat),
            forall|j: int|
                0 <= j < i ==> {
                    &&& (#[trigger] agents@[j]).id == j as u64
                    &&& agents@[j].vel@ == v2_zero()
                    &&& agents@[j].pos@ == placement(
                        wy_out(seed_at(seed, j as nat)),
                        half_width as int,
                    )
                    &&& v2_bounded(agents@[j].pos@, half_width as int)
                },
        decreases count - i,
    {
        let raw = wyrand_u64(cur);
        let pos = place(raw, half_width);
        agents.push(Agent { id: i as u64, pos, vel: Vec2 { x: 0, y: 0 } });
        cur = wy_advance(cur);
        i = i + 1;
        proof {
            assert(seed_at(seed, i as nat) == wy_next(seed_at(seed, (i - 1) as nat)));
        }
    }
    agents
}

} // verus!
