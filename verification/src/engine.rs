//! The steering engine and integrator: per-agent force composition over
//! the spatial index and the per-tick snapshot, then velocity and
//! position updates, all pinned to one mathematical model of the tick.
use crate::clampi;
use crate::index::{
    knn_spec, pts_ok, radius_spec, IdPoint, Neighbor, SpatialIndex,
};
use crate::num::{
    absi, lemma_sqrt_exists, lemma_tdiv_mag, sdiv, sqrt_of, tdiv,
};
use crate::ramp::{strength, strength_spec};
use crate::vec2::{
    clamp_len_spec, len2, lemma_clamp_len_band, norm_spec, scale_div_spec, v2_add, v2_bounded,
    v2_neg, v2_sub, v2_zero, Vec2, V2,
};
use crate::{
    DELTA_LIMIT, FACTOR_LIMIT, K_LIMIT, MIN_DISTANCE_FLOOR, MOVE_LIMIT, N_LIMIT, POS_LIMIT, SCALE,
    SPEED_LIMIT, VEL_LIMIT,
};
use std::collections::HashMap;
use vstd::prelude::*;
use vstd::arithmetic::mul::lemma_mul_inequality;

verus! {

/// One flocking agent: a stable identity, a position and a velocity,
/// all in raw fixed-point units.
#[derive(Clone, Copy, PartialEq, Eq, Structural, Debug)]
pub struct Agent {
    pub id: u64,
    pub pos: Vec2,
    pub vel: Vec2,
}

/// The player: a position driven from outside, and the observed
/// velocity derived from its last move (informational only).
#[derive(Clone, Copy, PartialEq, Eq, Structural, Debug)]
pub struct Player {
    pub pos: Vec2,
    pub vel: Vec2,
}

/// How the player acts on the flock: an attraction that peaks at a
/// moderate distance, or a repulsion that fades out with distance.
#[derive(Clone, Copy, PartialEq, Eq, Structural, Debug)]
pub enum PlayerMode {
    Follow,
    Avoid,
}

/// How neighbours are fetched: every point within the radius, or at
/// most k nearest within it.
#[derive(Clone, Copy, PartialEq, Eq, Structural, Debug)]
pub enum QueryMode {
    Radius,
    KNearest,
}

/// Every tunable constant of the model, in raw fixed-point units.
#[derive(Clone, Copy, PartialEq, Eq, Structural, Debug)]
pub struct Config {
    pub player_mode: PlayerMode,
    pub query_mode: QueryMode,
    pub use_cohesion: bool,
    pub max_steering_force: i64,
    pub max_velocity: i64,
    pub min_velocity: i64,
    pub min_distance: i64,
    pub follow_factor: i64,
    pub avoid_factor: i64,
    pub min_avoid_distance: i64,
    pub max_avoid_distance: i64,
    pub center_factor: i64,
    pub min_center_distance: i64,
    pub max_center_distance: i64,
    pub separation_factor: i64,
    pub alignment_factor: i64,
    pub cohesion_factor: i64,
    pub neighbor_radius: i64,
    pub neighbor_k: usize,
    pub speed_scale: i64,
}

impl Config {
    /// The bounds every tick requires of its configuration.
    pub open spec fn valid(self) -> bool {
        &&& 0 <= self.max_steering_force <= FACTOR_LIMIT
        &&& 0 <= self.min_velocity <= self.max_velocity <= FACTOR_LIMIT
        &&& MIN_DISTANCE_FLOOR <= self.min_distance <= FACTOR_LIMIT
        &&& 0 <= self.follow_factor <= FACTOR_LIMIT
        &&& 0 <= self.avoid_factor <= FACTOR_LIMIT
        &&& 0 <= self.center_factor <= FACTOR_LIMIT
        &&& 0 <= self.separation_factor <= FACTOR_LIMIT
        &&& 0 <= self.alignment_factor <= FACTOR_LIMIT
        &&& 0 <= self.cohesion_factor <= FACTOR_LIMIT
        &&& 0 <= self.min_avoid_distance < self.max_avoid_distance <= FACTOR_LIMIT
        &&& 0 <= self.min_center_distance < self.max_center_distance <= FACTOR_LIMIT
        &&& 1 <= self.neighbor_radius <= FACTOR_LIMIT
        &&& self.neighbor_k <= K_LIMIT
        &&& 0 <= self.speed_scale <= SPEED_LIMIT
    }

    /// The reference constants of the model: the avoiding, cohering
    /// flock with a bounded k-nearest neighbourhood.
    pub fn reference() -> (c: Config)
        ensures
            c.valid(),
            c.player_mode == PlayerMode::Avoid,
            c.query_mode == QueryMode::KNearest,
            c.use_cohesion,
            c.max_steering_force == 750,
            c.max_velocity == 5000,
            c.min_velocity == 0,
            c.min_distance == 500,
            c.separation_factor == 1500,
            c.alignment_factor == 700,
            c.cohesion_factor == 500,
            c.neighbor_radius == 5000,
            c.neighbor_k == 10,
            c.speed_scale == 10,
    {
        Config {
            player_mode: PlayerMode::Avoid,
            query_mode: QueryMode::KNearest,
            use_cohesion: true,
            max_steering_force: 750,
            max_velocity: 5000,
            min_velocity: 0,
            min_distance: 500,
            follow_factor: 1000,
            avoid_factor: 8000,
            min_avoid_distance: 500,
            max_avoid_distance: 40000,
            center_factor: 1000,
            min_center_distance: 50000,
            max_center_distance: 150000,
            separation_factor: 1500,
            alignment_factor: 700,
            cohesion_factor: 500,
            neighbor_radius: 5000,
            neighbor_k: 10,
            speed_scale: 10,
        }
    }
}

/// An agent the tick accepts: position and velocity inside the caps.
pub open spec fn agent_ok(a: Agent) -> bool {
    v2_bounded(a.pos@, POS_LIMIT as int) && v2_bounded(a.vel@, VEL_LIMIT as int)
}

/// A whole population the tick accepts.
pub open spec fn agents_ok(s: Seq<Agent>) -> bool {
    &&& forall|i: int| 0 <= i < s.len() ==> agent_ok(#[trigger] s[i])
    &&& forall|i: int, j: int|
        0 <= i < j < s.len() ==> (#[trigger] s[i]).id != (#[trigger] s[j]).id
}

/// The spatial-index view of a population: one point per agent.
pub open spec fn points_of(s: Seq<Agent>) -> Seq<IdPoint> {
    Seq::new(s.len(), |i: int| IdPoint { id: s[i].id, pos: s[i].pos })
}

/// The read-only snapshot of a population, keyed by identity.
pub open spec fn snap_map(s: Seq<Agent>) -> Map<u64, Agent>
    decreases s.len(),
{
    if s.len() == 0 {
        Map::empty()
    } else {
        snap_map(s.drop_last()).insert(s.last().id, s.last())
    }
}

/// A snapshot whose every entry is an acceptable agent.
pub open spec fn snap_ok(m: Map<u64, Agent>) -> bool {
    forall|id: u64| m.dom().contains(id) ==> agent_ok(#[trigger] m[id])
}

/// The rational decay `SCALE^2 / (S + u + u^2/2S + u^3/6S^2)` standing
/// in for the exponential fall-off of the follow force, on `[0, 12*S]`.
pub open spec fn exp_decay_spec(x: int) -> int {
    let u = tdiv(x, 3);
    let u2 = tdiv(u * u, SCALE as int);
    let u3 = tdiv(u2 * u, SCALE as int);
    let den = (SCALE as int) + u + tdiv(u2, 2) + tdiv(u3, 6);
    tdiv((SCALE as int) * (SCALE as int), den)
}

/// Rational stand-in for the exponential decay of the follow force.
pub fn exp_decay(x: i64) -> (r: i64)
    requires
        0 <= x <= 12 * SCALE,
    ensures
        r == exp_decay_spec(x as int),
        0 <= r <= SCALE,
{
    let u = sdiv(x, 3);
    proof {
        lemma_tdiv_mag(x as int, 3, 4 * (SCALE as int));
        assert(0 <= u <= 4000);
        assert(0 <= (u as int) * (u as int) <= 16_000_000) by (nonlinear_arith)
            requires
                0 <= u as int <= 4000,
        ;
    }
    let u2 = sdiv(u * u, SCALE);
    proof {
        lemma_tdiv_mag((u as int) * (u as int), SCALE as int, 16 * (SCALE as int));
        assert(0 <= u2 <= 16_000);
        assert(0 <= (u2 as int) * (u as int) <= 64_000_000) by (nonlinear_arith)
            requires
                0 <= u2 as int <= 16_000,
                0 <= u as int <= 4000,
        ;
    }
    let u3 = sdiv(u2 * u, SCALE);
    proof {
        lemma_tdiv_mag((u2 as int) * (u as int), SCALE as int, 64 * (SCALE as int));
        assert(0 <= u3 <= 64_000);
        lemma_tdiv_mag(u2 as int, 2, 16 * (SCALE as int));
        lemma_tdiv_mag(u3 as int, 6, 64 * (SCALE as int));
    }
    let den = SCALE + u + sdiv(u2, 2) + sdiv(u3, 6);
    proof {
        assert(SCALE <= den);
        lemma_tdiv_mag((SCALE as int) * (SCALE as int), den as int, SCALE as int);
    }
    sdiv(SCALE * SCALE, den)
}

/// The player-avoid force: repulsion from the player, full inside the
/// inner avoid radius, fading to nothing at the outer one.
pub open spec fn avoid_spec(a_pos: V2, player: V2, cfg: Config) -> V2 {
    let to_p = v2_sub(player, a_pos);
    let d = sqrt_of(len2(to_p));
    let dc = clampi(d, cfg.min_avoid_distance as int, cfg.max_avoid_distance as int);
    let s = strength_spec(cfg.min_avoid_distance as int, cfg.max_avoid_distance as int, dc);
    let mag = tdiv(cfg.avoid_factor * ((SCALE as int) - s), SCALE as int);
    scale_div_spec(v2_neg(norm_spec(to_p)), mag, SCALE as int)
}

/// The player-follow force: attraction that peaks at a moderate
/// distance and decays both very close and very far.
pub open spec fn follow_spec(a_pos: V2, player: V2, cfg: Config) -> V2 {
    let to_p = v2_sub(player, a_pos);
    let d = sqrt_of(len2(to_p));
    let dc = clampi(d, 0, 12 * SCALE as int);
    let e = exp_decay_spec(dc);
    let mag = tdiv(tdiv(dc * e, SCALE as int) * cfg.follow_factor, SCALE as int);
    scale_div_spec(norm_spec(to_p), mag, SCALE as int)
}

/// The force the player exerts, by the configured policy.
pub open spec fn player_force_spec(a_pos: V2, player: V2, cfg: Config) -> V2 {
    match cfg.player_mode {
        PlayerMode::Follow => follow_spec(a_pos, player, cfg),
        PlayerMode::Avoid => avoid_spec(a_pos, player, cfg),
    }
}

/// The centering force: zero inside the inner radius, a full pull back
/// to the origin beyond the outer one, ramping linearly between.
pub open spec fn center_spec(a_pos: V2, cfg: Config) -> V2 {
    let d = sqrt_of(len2(a_pos));
    let s = strength_spec(cfg.min_center_distance as int, cfg.max_center_distance as int, d);
    let mag = tdiv(cfg.center_factor * s, SCALE as int);
    scale_div_spec(v2_neg(norm_spec(a_pos)), mag, SCALE as int)
}

/// Running totals of the neighbour pass: separation, alignment, the
/// position sum and the neighbour count.
pub ghost struct Acc {
    pub sep: V2,
    pub ali: V2,
    pub sum: V2,
    pub cnt: int,
}

/// Fold the neighbour answers into the running totals, skipping the
/// agent itself and any identity missing from the snapshot.
pub open spec fn accum_spec(nbrs: Seq<Neighbor>, snap: Map<u64, Agent>, a: Agent, cfg: Config) -> Acc
    decreases nbrs.len(),
{
    if nbrs.len() == 0 {
        Acc { sep: v2_zero(), ali: v2_zero(), sum: v2_zero(), cnt: 0 }
    } else {
        let prev = accum_spec(nbrs.drop_last(), snap, a, cfg);
        let n = nbrs.last();
        if n.id == a.id {
            prev
        } else if snap.dom().contains(n.id) {
            let other = snap[n.id];
            let d = if n.dist < cfg.min_distance {
                cfg.min_distance as int
            } else {
                n.dist as int
            };
            Acc {
                sep: v2_add(
                    prev.sep,
                    scale_div_spec(
                        norm_spec(v2_sub(a.pos@, other.pos@)),
                        cfg.separation_factor as int,
                        d,
                    ),
                ),
                ali: v2_add(
                    prev.ali,
                    scale_div_spec(norm_spec(other.vel@), cfg.alignment_factor as int, d),
                ),
                sum: v2_add(prev.sum, other.pos@),
                cnt: prev.cnt + 1,
            }
        } else {
            prev
        }
    }
}

/// The cohesion force: a pull toward the mean neighbour position, when
/// cohesion is configured and any neighbour was found.
pub open spec fn cohesion_spec(acc: Acc, a: Agent, cfg: Config) -> V2 {
    if cfg.use_cohesion && acc.cnt > 0 {
        let mean = V2 { x: tdiv(acc.sum.x, acc.cnt), y: tdiv(acc.sum.y, acc.cnt) };
        scale_div_spec(
            norm_spec(v2_sub(mean, a.pos@)),
            cfg.cohesion_factor as int,
            SCALE as int,
        )
    } else {
        v2_zero()
    }
}

/// The neighbour answers an agent steers by, per the configured mode.
pub open spec fn neighbors_spec(pts: Seq<IdPoint>, a: Agent, cfg: Config) -> Seq<Neighbor> {
    match cfg.query_mode {
        QueryMode::Radius => radius_spec(pts, a.pos@, cfg.neighbor_radius as int),
        QueryMode::KNearest => knn_spec(
            pts,
            a.pos@,
            cfg.neighbor_radius as int,
            cfg.neighbor_k as int,
        ),
    }
}

/// The combined steering force of one agent: player force, centering,
/// separation, alignment and cohesion, clamped to the force cap.
pub open spec fn steer_spec(
    pts: Seq<IdPoint>,
    snap: Map<u64, Agent>,
    a: Agent,
    player: V2,
    cfg: Config,
) -> V2 {
    let nbrs = neighbors_spec(pts, a, cfg);
    let acc = accum_spec(nbrs, snap, a, cfg);
    let total = v2_add(
        v2_add(
            v2_add(
                v2_add(player_force_spec(a.pos@, player, cfg), center_spec(a.pos@, cfg)),
                acc.sep,
            ),
            acc.ali,
        ),
        cohesion_spec(acc, a, cfg),
    );
    clamp_len_spec(total, 0, cfg.max_steering_force as int)
}

/// One integration step: the force joins the velocity, the velocity is
/// clamped into the speed band, and the position advances by the
/// velocity scaled by elapsed time and the speed multiplier.
pub open spec fn integrate_spec(a: Agent, f: V2, delta: int, cfg: Config) -> Agent {
    let v = clamp_len_spec(v2_add(a.vel@, f), cfg.min_velocity as int, cfg.max_velocity as int);
    let dx = tdiv(v.x * delta * cfg.speed_scale, SCALE as int);
    let dy = tdiv(v.y * delta * cfg.speed_scale, SCALE as int);
    Agent {
        id: a.id,
        pos: Vec2 { x: (a.pos@.x + dx) as i64, y: (a.pos@.y + dy) as i64 },
        vel: Vec2 { x: v.x as i64, y: v.y as i64 },
    }
}

/// The whole tick: every agent's next state, each computed from the
/// same pre-tick population.
pub open spec fn tick_spec(agents: Seq<Agent>, player: V2, delta: int, cfg: Config) -> Seq<Agent> {
    Seq::new(
        agents.len(),
        |i: int|
            integrate_spec(
                agents[i],
                steer_spec(points_of(agents), snap_map(agents), agents[i], player, cfg),
                delta,
                cfg,
            ),
    )
}

/// Largest coordinate of a single force term.
pub const TERM_LIMIT: i64 = 12_000_000;

/// Largest coordinate of a single separation or alignment contribution.
pub const CONTRIB_LIMIT: i64 = 10_000_000;

/// The next player state: the observed position if one arrived this
/// tick, else the last known one; the velocity is the move just made.
pub open spec fn player_next_spec(prev: Player, observed: Option<Vec2>) -> Player {
    let pos = match observed {
        Option::Some(p) => p,
        Option::None => prev.pos,
    };
    Player {
        pos,
        vel: Vec2 { x: (pos@.x - prev.pos@.x) as i64, y: (pos@.y - prev.pos@.y) as i64 },
    }
}

/// Advance the player to the observed position, keeping the last known
/// one when none arrived; the velocity records the move just made.
pub fn player_next(prev: Player, observed: Option<Vec2>) -> (p: Player)
    requires
        v2_bounded(prev.pos@, POS_LIMIT as int),
        observed is Some ==> v2_bounded(observed->0@, POS_LIMIT as int),
    ensures
        p == player_next_spec(prev, observed),
        v2_bounded(p.pos@, POS_LIMIT as int),
{
    let pos = match observed {
        Option::Some(q) => q,
        Option::None => prev.pos,
    };
    Player { pos, vel: Vec2 { x: pos.x - prev.pos.x, y: pos.y - prev.pos.y } }
}

/// The force the player exerts on an agent at `a_pos`.
fn player_force(a_pos: Vec2, player: Vec2, cfg: &Config) -> (f: Vec2)
    requires
        cfg.valid(),
        v2_bounded(a_pos@, POS_LIMIT as int),
        v2_bounded(player@, POS_LIMIT as int),
    ensures
        f@ == player_force_spec(a_pos@, player@, *cfg),
        v2_bounded(f@, TERM_LIMIT as int),
{
    let to_p = player.sub(a_pos);
    let d_u = to_p.length();
    proof {
        assert(0 <= len2(to_p@) <= 8_000_000_000_000_000_000) by (nonlinear_arith)
            requires
                absi(to_p@.x) <= 2 * (POS_LIMIT as int),
                absi(to_p@.y) <= 2 * (POS_LIMIT as int),
                len2(to_p@) == to_p@.x * to_p@.x + to_p@.y * to_p@.y,
                POS_LIMIT == 1_000_000_000i64,
                MOVE_LIMIT == 2_000_000_000i64,
        ;
        crate::index::lemma_sqrt_small(len2(to_p@), d_u as int);
    }
    let d = d_u as i64;
    let unit = to_p.normalize_or_zero();
    match cfg.player_mode {
        PlayerMode::Avoid => {
            let dc = crate::clamp_i64(d, cfg.min_avoid_distance, cfg.max_avoid_distance);
            let s = strength(cfg.min_avoid_distance, cfg.max_avoid_distance, dc);
            proof {
                assert(0 <= (cfg.avoid_factor as int) * ((SCALE - s) as int)
                    <= 1_000_000_000) by (nonlinear_arith)
                    requires
                        0 <= cfg.avoid_factor <= FACTOR_LIMIT as int,
                        0 <= (SCALE - s) as int <= SCALE as int,
                        SCALE == 1000i64,
                        FACTOR_LIMIT == 1_000_000i64,
                ;
            }
            let num = cfg.avoid_factor * (SCALE - s);
            proof {
                lemma_tdiv_mag(num as int, SCALE as int, FACTOR_LIMIT as int);
            }
            let mag = sdiv(num, SCALE);
            let dir = unit.neg();
            proof {
                lemma_mul_inequality(mag as int, FACTOR_LIMIT as int, SCALE as int);
                assert(absi(dir@.x * mag) <= (TERM_LIMIT as int) * (SCALE as int))
                    by (nonlinear_arith)
                    requires
                        absi(dir@.x) <= SCALE as int,
                        0 <= mag <= FACTOR_LIMIT as int,
                        SCALE == 1000i64,
                        FACTOR_LIMIT == 1_000_000i64,
                        TERM_LIMIT == 12_000_000i64,
                ;
                assert(absi(dir@.y * mag) <= (TERM_LIMIT as int) * (SCALE as int))
                    by (nonlinear_arith)
                    requires
                        absi(dir@.y) <= SCALE as int,
                        0 <= mag <= FACTOR_LIMIT as int,
                        SCALE == 1000i64,
                        FACTOR_LIMIT == 1_000_000i64,
                        TERM_LIMIT == 12_000_000i64,
                ;
                lemma_tdiv_mag(dir@.x * mag, SCALE as int, TERM_LIMIT as int);
                lemma_tdiv_mag(dir@.y * mag, SCALE as int, TERM_LIMIT as int);
            }
            dir.scale_div(mag, SCALE)
        }
        PlayerMode::Follow => {
            let dc = crate::clamp_i64(d, 0, 12 * SCALE);
            let e = exp_decay(dc);
            proof {
                assert(0 <= dc * e <= 12 * (SCALE as int) * (SCALE as int)) by (nonlinear_arith)
                    requires
                        0 <= dc as int <= 12 * (SCALE as int),
                        0 <= e as int <= SCALE as int,
                        SCALE == 1000i64,
                ;
                lemma_tdiv_mag((dc * e) as int, SCALE as int, 12 * (SCALE as int));
            }
            let q1 = sdiv(dc * e, SCALE);
            proof {
                assert(0 <= q1 * cfg.follow_factor <= (TERM_LIMIT as int) * (SCALE as int))
                    by (nonlinear_arith)
                    requires
                        0 <= q1 as int <= 12 * (SCALE as int),
                        0 <= cfg.follow_factor <= FACTOR_LIMIT as int,
                        SCALE == 1000i64,
                        FACTOR_LIMIT == 1_000_000i64,
                        TERM_LIMIT == 12_000_000i64,
                ;
                lemma_tdiv_mag(q1 * cfg.follow_factor, SCALE as int, TERM_LIMIT as int);
            }
            let mag = sdiv(q1 * cfg.follow_factor, SCALE);
            proof {
                assert(absi(unit@.x * mag) <= (TERM_LIMIT as int) * (SCALE as int)
                    && absi(unit@.y * mag) <= (TERM_LIMIT as int) * (SCALE as int))
                    by (nonlinear_arith)
                    requires
                        absi(unit@.x) <= SCALE as int,
                        absi(unit@.y) <= SCALE as int,
                        0 <= mag <= TERM_LIMIT as int,
                        SCALE == 1000i64,
                        TERM_LIMIT == 12_000_000i64,
                ;
                lemma_tdiv_mag(unit@.x * mag, SCALE as int, TERM_LIMIT as int);
                lemma_tdiv_mag(unit@.y * mag, SCALE as int, TERM_LIMIT as int);
            }
            unit.scale_div(mag, SCALE)
        }
    }
}

/// The centering force on an agent at `a_pos`.
fn center_force(a_pos: Vec2, cfg: &Config) -> (f: Vec2)
    requires
        cfg.valid(),
        v2_bounded(a_pos@, POS_LIMIT as int),
    ensures
        f@ == center_spec(a_pos@, *cfg),
        v2_bounded(f@, TERM_LIMIT as int),
{
    let d_u = a_pos.length();
    proof {
        assert(0 <= len2(a_pos@) <= 8_000_000_000_000_000_000) by (nonlinear_arith)
            requires
                absi(a_pos@.x) <= POS_LIMIT as int,
                absi(a_pos@.y) <= POS_LIMIT as int,
                len2(a_pos@) == a_pos@.x * a_pos@.x + a_pos@.y * a_pos@.y,
                POS_LIMIT == 1_000_000_000i64,
                MOVE_LIMIT == 2_000_000_000i64,
        ;
        crate::index::lemma_sqrt_small(len2(a_pos@), d_u as int);
    }
    let d = d_u as i64;
    let s = strength(cfg.min_center_distance, cfg.max_center_distance, d);
    proof {
        assert(0 <= (cfg.center_factor as int) * (s as int) <= 1_000_000_000)
            by (nonlinear_arith)
            requires
                0 <= cfg.center_factor <= FACTOR_LIMIT as int,
                0 <= s as int <= SCALE as int,
                SCALE == 1000i64,
                FACTOR_LIMIT == 1_000_000i64,
        ;
    }
    let num = cfg.center_factor * s;
    proof {
        lemma_tdiv_mag(num as int, SCALE as int, FACTOR_LIMIT as int);
    }
    let mag = sdiv(num, SCALE);
    let dir = a_pos.normalize_or_zero().neg();
    proof {
        assert(absi(dir@.x * mag) <= (TERM_LIMIT as int) * (SCALE as int)
            && absi(dir@.y * mag) <= (TERM_LIMIT as int) * (SCALE as int)) by (nonlinear_arith)
            requires
                absi(dir@.x) <= SCALE as int,
                absi(dir@.y) <= SCALE as int,
                0 <= mag <= FACTOR_LIMIT as int,
                SCALE == 1000i64,
                FACTOR_LIMIT == 1_000_000i64,
                TERM_LIMIT == 12_000_000i64,
        ;
        lemma_tdiv_mag(dir@.x * mag, SCALE as int, TERM_LIMIT as int);
        lemma_tdiv_mag(dir@.y * mag, SCALE as int, TERM_LIMIT as int);
    }
    dir.scale_div(mag, SCALE)
}

/// One separation or alignment contribution: a unit direction scaled by
/// `factor / d`.
fn weigh(unit: Vec2, factor: i64, d: i64) -> (c: Vec2)
    requires
        v2_bounded(unit@, SCALE as int),
        0 <= factor <= FACTOR_LIMIT,
        MIN_DISTANCE_FLOOR <= d,
    ensures
        c@ == scale_div_spec(unit@, factor as int, d as int),
        v2_bounded(c@, CONTRIB_LIMIT as int),
{
    proof {
        assert(absi(unit@.x * factor) <= (CONTRIB_LIMIT as int) * (d as int)
            && absi(unit@.y * factor) <= (CONTRIB_LIMIT as int) * (d as int))
            by (nonlinear_arith)
            requires
                absi(unit@.x) <= SCALE as int,
                absi(unit@.y) <= SCALE as int,
                0 <= factor <= FACTOR_LIMIT as int,
                d as int >= MIN_DISTANCE_FLOOR as int,
                SCALE == 1000i64,
                FACTOR_LIMIT == 1_000_000i64,
                CONTRIB_LIMIT == 10_000_000i64,
                MIN_DISTANCE_FLOOR == 100i64,
        ;
        assert(absi(unit@.x * factor) <= 1_000_000_000 && absi(unit@.y * factor)
            <= 1_000_000_000) by (nonlinear_arith)
            requires
                absi(unit@.x) <= SCALE as int,
                absi(unit@.y) <= SCALE as int,
                0 <= factor <= FACTOR_LIMIT as int,
                SCALE == 1000i64,
                FACTOR_LIMIT == 1_000_000i64,
        ;
        lemma_tdiv_mag(unit@.x * factor, d as int, CONTRIB_LIMIT as int);
        lemma_tdiv_mag(unit@.y * factor, d as int, CONTRIB_LIMIT as int);
    }
    unit.scale_div(factor, d)
}

/// The combined steering force of one agent, from the rebuilt index and
/// the pre-tick snapshot.
fn steer_one(
    idx: &SpatialIndex,
    snap: &HashMap<u64, Agent>,
    a: &Agent,
    player: Vec2,
    cfg: &Config,
) -> (f: Vec2)
    requires
        cfg.valid(),
        pts_ok(idx@),
        idx@.len() <= N_LIMIT,
        snap_ok(snap@),
        agent_ok(*a),
        v2_bounded(player@, POS_LIMIT as int),
    ensures
        f@ == steer_spec(idx@, snap@, *a, player@, *cfg),
        v2_bounded(f@, cfg.max_steering_force as int),
{
    let nbrs: Vec<Neighbor> = match cfg.query_mode {
        QueryMode::Radius => idx.query_radius_unsorted(a.pos, cfg.neighbor_radius),
        QueryMode::KNearest => idx.query_k_nearest_within(
            a.pos,
            cfg.neighbor_radius,
            cfg.neighbor_k,
            true,
        ),
    };
    proof {
        assert(nbrs@ == neighbors_spec(idx@, *a, *cfg));
        assert(nbrs@.len() <= N_LIMIT);
    }
    let mut sep = Vec2 { x: 0, y: 0 };
    let mut ali = Vec2 { x: 0, y: 0 };
    let mut sum = Vec2 { x: 0, y: 0 };
    let mut cnt: i64 = 0;
    let mut t: usize = 0;
    while t < nbrs.len()
        invariant
            cfg.valid(),
            snap_ok(snap@),
            agent_ok(*a),
            nbrs@.len() <= N_LIMIT,
            0 <= t <= nbrs@.len(),
            sep@ == accum_spec(nbrs@.take(t as int), snap@, *a, *cfg).sep,
            ali@ == accum_spec(nbrs@.take(t as int), snap@, *a, *cfg).ali,
            sum@ == accum_spec(nbrs@.take(t as int), snap@, *a, *cfg).sum,
            cnt as int == accum_spec(nbrs@.take(t as int), snap@, *a, *cfg).cnt,
            0 <= cnt <= t,
            v2_bounded(sep@, t as int * CONTRIB_LIMIT as int),
            v2_bounded(ali@, t as int * CONTRIB_LIMIT as int),
            v2_bounded(sum@, cnt as int * POS_LIMIT as int),
        decreases nbrs@.len() - t,
    {
        let n = nbrs[t];
        proof {
            assert(nbrs@.take(t as int + 1).drop_last() =~= nbrs@.take(t as int));
            assert(nbrs@.take(t as int + 1).last() == nbrs@[t as int]);
        }
        if n.id != a.id {
            match snap.get(&n.id) {
                Option::Some(other_ref) => {
                    let other = *other_ref;
                    proof {
                        assert(snap@.dom().contains(n.id) && snap@[n.id] == other);
                        assert(agent_ok(other));
                    }
                    let d = if n.dist < cfg.min_distance {
                        cfg.min_distance
                    } else {
                        n.dist
                    };
                    let sdir = a.pos.sub(other.pos).normalize_or_zero();
                    let adir = other.vel.normalize_or_zero();
                    let sc = weigh(sdir, cfg.separation_factor, d);
                    let ac = weigh(adir, cfg.alignment_factor, d);
                    proof {
                        assert((t as int + 1) * (CONTRIB_LIMIT as int) == t as int * (
                        CONTRIB_LIMIT as int) + CONTRIB_LIMIT as int) by (nonlinear_arith);
                        assert((cnt as int + 1) * (POS_LIMIT as int) == cnt as int * (
                        POS_LIMIT as int) + POS_LIMIT as int) by (nonlinear_arith);
                    }
                    sep = sep.add(sc);
                    ali = ali.add(ac);
                    sum = sum.add(other.pos);
                    cnt = cnt + 1;
                }
                Option::None => {
                    proof {
                        assert(!snap@.dom().contains(n.id));
                        assert((t as int + 1) * (CONTRIB_LIMIT as int) >= t as int * (
                        CONTRIB_LIMIT as int)) by (nonlinear_arith);
                    }
                }
            }
        } else {
            proof {
                assert((t as int + 1) * (CONTRIB_LIMIT as int) >= t as int * (
                CONTRIB_LIMIT as int)) by (nonlinear_arith);
            }
        }
        t = t + 1;
    }
    proof {
        assert(nbrs@.take(nbrs@.len() as int) =~= nbrs@);
        assert(t as int * (CONTRIB_LIMIT as int) <= (N_LIMIT as int) * (CONTRIB_LIMIT as int))
            by (nonlinear_arith)
            requires
                0 <= t as int <= N_LIMIT as int,
        ;
        assert(cnt as int * (POS_LIMIT as int) <= (N_LIMIT as int) * (POS_LIMIT as int))
            by (nonlinear_arith)
            requires
                0 <= cnt as int <= N_LIMIT as int,
        ;
    }
    let ghost acc = accum_spec(nbrs@, snap@, *a, *cfg);
    let coh = if cfg.use_cohesion && cnt > 0 {
        proof {
            lemma_tdiv_mag(sum@.x, cnt as int, POS_LIMIT as int);
            lemma_tdiv_mag(sum@.y, cnt as int, POS_LIMIT as int);
        }
        let mean = Vec2 { x: sdiv(sum.x, cnt), y: sdiv(sum.y, cnt) };
        let unit = mean.sub(a.pos).normalize_or_zero();
        proof {
            assert(absi(unit@.x * cfg.cohesion_factor) <= (CONTRIB_LIMIT as int) * (SCALE as int)
                && absi(unit@.y * cfg.cohesion_factor) <= (CONTRIB_LIMIT as int) * (
            SCALE as int)) by (nonlinear_arith)
                requires
                    absi(unit@.x) <= SCALE as int,
                    absi(unit@.y) <= SCALE as int,
                    0 <= cfg.cohesion_factor <= FACTOR_LIMIT as int,
                    SCALE == 1000i64,
                    FACTOR_LIMIT == 1_000_000i64,
                    CONTRIB_LIMIT == 10_000_000i64,
            ;
            lemma_tdiv_mag(unit@.x * cfg.cohesion_factor, SCALE as int, CONTRIB_LIMIT as int);
            lemma_tdiv_mag(unit@.y * cfg.cohesion_factor, SCALE as int, CONTRIB_LIMIT as int);
        }
        unit.scale_div(cfg.cohesion_factor, SCALE)
    } else {
        Vec2 { x: 0, y: 0 }
    };
    proof {
        assert(coh@ == cohesion_spec(acc, *a, *cfg));
        assert(v2_bounded(coh@, CONTRIB_LIMIT as int));
    }
    let pf = player_force(a.pos, player, cfg);
    let cf = center_force(a.pos, cfg);
    let total = pf.add(cf).add(sep).add(ali).add(coh);
    proof {
        assert(v2_bounded(total@, crate::vec2::CLAMP_IN_LIMIT as int));
    }
    total.clamp_length_max(cfg.max_steering_force)
}

/// One integration step for one agent.
pub fn integrate(a: Agent, f: Vec2, delta: i64, cfg: &Config) -> (r: Agent)
    requires
        cfg.valid(),
        agent_ok(a),
        v2_bounded(f@, FACTOR_LIMIT as int),
        0 <= delta <= DELTA_LIMIT,
    ensures
        r == integrate_spec(a, f@, delta as int, *cfg),
        r.id == a.id,
        v2_bounded(r.vel@, cfg.max_velocity as int),
        v2_bounded(r.pos@, (POS_LIMIT + MOVE_LIMIT) as int),
{
    let vsum = a.vel.add(f);
    let v = vsum.clamp_length(cfg.min_velocity, cfg.max_velocity);
    proof {
        assert(absi(v@.x * delta * cfg.speed_scale) <= (MOVE_LIMIT as int) * (SCALE as int)
            && absi(v@.y * delta * cfg.speed_scale) <= (MOVE_LIMIT as int) * (SCALE as int))
            by (nonlinear_arith)
            requires
                absi(v@.x) <= cfg.max_velocity as int,
                absi(v@.y) <= cfg.max_velocity as int,
                0 <= cfg.max_velocity <= FACTOR_LIMIT as int,
                0 <= delta <= DELTA_LIMIT as int,
                0 <= cfg.speed_scale <= SPEED_LIMIT as int,
                FACTOR_LIMIT == 1_000_000i64,
                DELTA_LIMIT == 10_000i64,
                SPEED_LIMIT == 100i64,
                MOVE_LIMIT == 2_000_000_000i64,
                SCALE == 1000i64,
        ;
        assert(absi(v@.x * delta) <= 10_000_000_000 && absi(v@.y * delta)
            <= 10_000_000_000) by (nonlinear_arith)
            requires
                absi(v@.x) <= 1_000_000,
                absi(v@.y) <= 1_000_000,
                0 <= delta <= 10_000,
        ;
        lemma_tdiv_mag(v@.x * delta * cfg.speed_scale, SCALE as int, MOVE_LIMIT as int);
        lemma_tdiv_mag(v@.y * delta * cfg.speed_scale, SCALE as int, MOVE_LIMIT as int);
    }
    let dx = sdiv(v.x * delta * cfg.speed_scale, SCALE);
    let dy = sdiv(v.y * delta * cfg.speed_scale, SCALE);
    Agent { id: a.id, pos: Vec2 { x: a.pos.x + dx, y: a.pos.y + dy }, vel: v }
}

/// One full simulation tick: rebuild the index and the snapshot from
/// the pre-tick population, evaluate every agent's steering force
/// against them, and integrate. Every answer is a function of the given
/// population, player position, elapsed time and constants alone.
pub fn tick(agents: &Vec<Agent>, player: Vec2, delta: i64, cfg: &Config) -> (out: Vec<Agent>)
    requires
        cfg.valid(),
        agents_ok(agents@),
        agents@.len() <= N_LIMIT,
        v2_bounded(player@, POS_LIMIT as int),
        0 <= delta <= DELTA_LIMIT,
    ensures
        out@ == tick_spec(agents@, player@, delta as int, *cfg),
        out@.len() == agents@.len(),
        forall|i: int| 0 <= i < out@.len() ==> (#[trigger] out@[i]).id == agents@[i].id,
        forall|i: int|
            0 <= i < out@.len() ==> v2_bounded((#[trigger] out@[i]).vel@, cfg.max_velocity as int)
                && v2_bounded(out@[i].pos@, (POS_LIMIT + MOVE_LIMIT) as int),
{
    // Phase one: snapshot the whole population.
    let mut pts: Vec<IdPoint> = Vec::new();
    let mut i: usize = 0;
    while i < agents.len()
        invariant
            agents_ok(agents@),
            0 <= i <= agents@.len(),
            pts@.len() == i,
            forall|j: int|
                0 <= j < i ==> (#[trigger] pts@[j]) == (IdPoint {
                    id: agents@[j].id,
                    pos: agents@[j].pos,
                }),
        decreases agents@.len() - i,
    {
        let a = agents[i];
        pts.push(IdPoint { id: a.id, pos: a.pos });
        i = i + 1;
    }
    proof {
        assert(pts@ =~= points_of(agents@));
    }
    let mut snap: HashMap<u64, Agent> = HashMap::new();
    let mut i: usize = 0;
    while i < agents.len()
        invariant
            agents_ok(agents@),
            0 <= i <= agents@.len(),
            snap@ == snap_map(agents@.take(i as int)),
            snap_ok(snap@),
        decreases agents@.len() - i,
    {
        let a = agents[i];
        proof {
            assert(agents@.take(i as int + 1).drop_last() =~= agents@.take(i as int));
            assert(agents@.take(i as int + 1).last() == agents@[i as int]);
            assert(agent_ok(agents@[i as int]));
        }
        snap.insert(a.id, a);
        i = i + 1;
    }
    proof {
        assert(agents@.take(agents@.len() as int) =~= agents@);
        assert(snap@ == snap_map(agents@));
    }
    let mut index = SpatialIndex::new();
    index.rebuild(pts);
    proof {
        assert(index@ == points_of(agents@));
        assert(pts_ok(index@)) by {
            assert(forall|j: int|
                0 <= j < index@.len() ==> (#[trigger] index@[j]).id == agents@[j].id
                    && index@[j].pos == agents@[j].pos);
        }
    }
    // Phase two: evaluate and integrate every agent against the
    // snapshot; nothing the loop writes is read by a later agent.
    let mut out: Vec<Agent> = Vec::new();
    let mut i: usize = 0;
    while i < agents.len()
        invariant
            cfg.valid(),
            agents_ok(agents@),
            agents@.len() <= N_LIMIT,
            v2_bounded(player@, POS_LIMIT as int),
            0 <= delta <= DELTA_LIMIT,
            index@ == points_of(agents@),
            pts_ok(index@),
            snap@ == snap_map(agents@),
            snap_ok(snap@),
            0 <= i <= agents@.len(),
            out@.len() == i,
            forall|j: int|
                0 <= j < i ==> (#[trigger] out@[j]) == tick_spec(
                    agents@,
                    player@,
                    delta as int,
                    *cfg,
                )[j],
            forall|j: int|
                0 <= j < i ==> (#[trigger] out@[j]).id == agents@[j].id && v2_bounded(
                    out@[j].vel@,
                    cfg.max_velocity as int,
                ) && v2_bounded(out@[j].pos@, (POS_LIMIT + MOVE_LIMIT) as int),
        decreases agents@.len() - i,
    {
        let a = agents[i];
        proof {
            assert(agent_ok(agents@[i as int]));
            assert(index@.len() == agents@.len());
        }
        let f = steer_one(&index, &snap, &a, player, cfg);
        proof {
            assert(v2_bounded(f@, FACTOR_LIMIT as int));
        }
        let na = integrate(a, f, delta, cfg);
        out.push(na);
        i = i + 1;
    }
    proof {
        assert(out@ =~= tick_spec(agents@, player@, delta as int, *cfg));
    }
    out
}

/// One tick's outside input: the player position and the elapsed time.
#[derive(Clone, Copy, PartialEq, Eq, Structural, Debug)]
pub struct TickInput {
    pub player: Vec2,
    pub delta: i64,
}

/// A tick input the engine accepts.
pub open spec fn input_ok(t: TickInput) -> bool {
    v2_bounded(t.player@, POS_LIMIT as int) && 0 <= t.delta <= DELTA_LIMIT
}

/// The trajectory of a whole run: tick after tick, stopping early if
/// the population ever leaves the acceptable region.
pub open spec fn run_spec(agents: Seq<Agent>, inputs: Seq<TickInput>, cfg: Config) -> Seq<Agent>
    decreases inputs.len(),
{
    if inputs.len() == 0 {
        agents
    } else if agents_ok(agents) {
        run_spec(
            tick_spec(agents, inputs.first().player@, inputs.first().delta as int, cfg),
            inputs.drop_first(),
            cfg,
        )
    } else {
        agents
    }
}

/// Determinism: a run is a function of its seed state, its inputs and
/// its constants alone, so two runs given identical populations,
/// identical input sequences and identical constants produce identical
/// trajectories.
pub proof fn lemma_run_deterministic(
    a1: Seq<Agent>,
    a2: Seq<Agent>,
    in1: Seq<TickInput>,
    in2: Seq<TickInput>,
    c1: Config,
    c2: Config,
)
    requires
        a1 == a2,
        in1 == in2,
        c1 == c2,
    ensures
        run_spec(a1, in1, c1) == run_spec(a2, in2, c2),
{
}

/// Every position in the population lies inside the world box.
fn positions_ok(agents: &Vec<Agent>) -> (b: bool)
    ensures
        b == forall|i: int|
            0 <= i < agents@.len() ==> v2_bounded((#[trigger] agents@[i]).pos@, POS_LIMIT as int),
{
    let mut i: usize = 0;
    while i < agents.len()
        invariant
            0 <= i <= agents@.len(),
            forall|j: int|
                0 <= j < i ==> v2_bounded((#[trigger] agents@[j]).pos@, POS_LIMIT as int),
        decreases agents@.len() - i,
    {
        let a = agents[i];
        if a.pos.x > POS_LIMIT || a.pos.x < -POS_LIMIT || a.pos.y > POS_LIMIT || a.pos.y
            < -POS_LIMIT {
            proof {
                assert(!v2_bounded(agents@[i as int].pos@, POS_LIMIT as int));
            }
            return false;
        }
        i = i + 1;
    }
    true
}

/// Drive the flock through a whole input sequence, tick by tick,
/// stopping early if the population ever leaves the world box.
pub fn run_ticks(agents: Vec<Agent>, inputs: &Vec<TickInput>, cfg: &Config) -> (out: Vec<Agent>)
    requires
        cfg.valid(),
        agents_ok(agents@),
        agents@.len() <= N_LIMIT,
        forall|t: int| 0 <= t < inputs@.len() ==> input_ok(#[trigger] inputs@[t]),
    ensures
        out@ == run_spec(agents@, inputs@, *cfg),
{
    let ghost start = agents@;
    let mut cur = agents;
    let mut halted = false;
    let mut t: usize = 0;
    proof {
        assert(inputs@.skip(0) =~= inputs@);
    }
    while t < inputs.len() && !halted
        invariant
            cfg.valid(),
            0 <= t <= inputs@.len(),
            forall|u: int| 0 <= u < inputs@.len() ==> input_ok(#[trigger] inputs@[u]),
            !halted ==> cur@.len() <= N_LIMIT && (forall|i: int|
                0 <= i < cur@.len() ==> v2_bounded(
                    (#[trigger] cur@[i]).vel@,
                    VEL_LIMIT as int,
                )) && (forall|i: int, j: int|
                0 <= i < j < cur@.len() ==> (#[trigger] cur@[i]).id != (#[trigger] cur@[j]).id),
            run_spec(start, inputs@, *cfg) == (if halted {
                cur@
            } else {
                run_spec(cur@, inputs@.skip(t as int), *cfg)
            }),
        decreases inputs@.len() - t,
    {
        let ghost before = cur@;
        let ghost rest = inputs@.skip(t as int);
        proof {
            assert(rest.len() > 0);
            assert(rest.first() == inputs@[t as int]);
            assert(rest.drop_first() =~= inputs@.skip(t as int + 1));
        }
        if positions_ok(&cur) {
            proof {
                assert(agents_ok(cur@));
            }
            let inp = inputs[t];
            cur = tick(&cur, inp.player, inp.delta, cfg);
            proof {
                assert(cur@ == tick_spec(before, inp.player@, inp.delta as int, *cfg));
                assert(run_spec(before, rest, *cfg) == run_spec(
                    cur@,
                    inputs@.skip(t as int + 1),
                    *cfg,
                ));
                assert forall|i: int| 0 <= i < cur@.len() implies v2_bounded(
                    (#[trigger] cur@[i]).vel@,
                    VEL_LIMIT as int,
                ) by {
                    assert(v2_bounded(cur@[i].vel@, cfg.max_velocity as int));
                }
            }
        } else {
            proof {
                let i = choose|i: int|
                    0 <= i < cur@.len() && !v2_bounded(
                        (#[trigger] cur@[i]).pos@,
                        POS_LIMIT as int,
                    );
                assert(!agent_ok(cur@[i]));
                assert(!agents_ok(cur@));
                assert(run_spec(cur@, rest, *cfg) == cur@);
            }
            halted = true;
        }
        t = t + 1;
    }
    proof {
        if !halted {
            assert(inputs@.skip(inputs@.len() as int) =~= Seq::<TickInput>::empty());
            assert(run_spec(cur@, inputs@.skip(t as int), *cfg) == cur@);
        }
    }
    cur
}

/// The speed band after a tick: every agent's new velocity has squared
/// length at most `(MAX_VELOCITY + 1)^2` plus the rescale slack, and,
/// unless the pre-clamp velocity was exactly zero, at least
/// `MIN_VELOCITY^2 - 4 * MIN_VELOCITY` - the band edges, within the
/// truncation slack of fixed-point scaling.
pub proof fn lemma_tick_velocity_band(
    agents: Seq<Agent>,
    player: V2,
    delta: int,
    cfg: Config,
    i: int,
)
    requires
        cfg.valid(),
        0 <= i < agents.len(),
    ensures
        ({
            let v = tick_spec(agents, player, delta, cfg)[i].vel@;
            let lo = cfg.min_velocity as int;
            let hi = cfg.max_velocity as int;
            &&& len2(v) <= (hi + 1) * (hi + 1) + 2 * (lo * lo)
            &&& (v == v2_zero() || len2(v) >= lo * lo - 4 * lo)
        }),
{
    let a = agents[i];
    let f = steer_spec(points_of(agents), snap_map(agents), a, player, cfg);
    let u = v2_add(a.vel@, f);
    let lo = cfg.min_velocity as int;
    let hi = cfg.max_velocity as int;
    assert(len2(u) >= 0) by (nonlinear_arith)
        requires
            len2(u) == u.x * u.x + u.y * u.y,
    ;
    lemma_sqrt_exists(len2(u));
    let w = clamp_len_spec(u, lo, hi);
    crate::vec2::lemma_clamp_len_coords(u, lo, hi);
    lemma_clamp_len_band(u, lo, hi);
    let out = tick_spec(agents, player, delta, cfg)[i];
    assert(out == integrate_spec(a, f, delta, cfg));
    assert(out.vel@ == w) by {
        if u.x == 0 && u.y == 0 {
            assert(w == v2_zero());
        } else {
            assert(len2(u) > 0) by (nonlinear_arith)
                requires
                    u.x != 0 || u.y != 0,
                    len2(u) == u.x * u.x + u.y * u.y,
            ;
            assert(v2_bounded(w, hi));
        }
    }
    assert((hi + 1) * (hi + 1) >= 0 && lo * lo >= 0 && 2 * (lo * lo) >= 0) by (nonlinear_arith);
    if u.x == 0 && u.y == 0 {
        assert(w == v2_zero());
    } else {
        assert(len2(w) >= lo * lo - 4 * lo);
        if len2(u) >= lo * lo {
            assert(len2(w) <= (hi + 1) * (hi + 1));
        } else {
            assert(len2(w) <= 2 * (lo * lo));
        }
    }
}

/// The force cap: the combined steering force handed to the integrator
/// never exceeds the configured maximum, up to one raw unit of
/// truncation slack.
pub proof fn lemma_steering_force_bounded(
    pts: Seq<IdPoint>,
    snap: Map<u64, Agent>,
    a: Agent,
    player: V2,
    cfg: Config,
)
    requires
        cfg.valid(),
    ensures
        len2(steer_spec(pts, snap, a, player, cfg)) <= (cfg.max_steering_force as int + 1) * (
        cfg.max_steering_force as int + 1),
{
    let nbrs = neighbors_spec(pts, a, cfg);
    let acc = accum_spec(nbrs, snap, a, cfg);
    let total = v2_add(
        v2_add(
            v2_add(
                v2_add(player_force_spec(a.pos@, player, cfg), center_spec(a.pos@, cfg)),
                acc.sep,
            ),
            acc.ali,
        ),
        cohesion_spec(acc, a, cfg),
    );
    let ms = cfg.max_steering_force as int;
    assert(len2(total) >= 0) by (nonlinear_arith)
        requires
            len2(total) == total.x * total.x + total.y * total.y,
    ;
    lemma_sqrt_exists(len2(total));
    lemma_clamp_len_band(total, 0, ms);
    assert((ms + 1) * (ms + 1) >= 0) by (nonlinear_arith)
        requires
            ms >= 0,
    ;
    if total.x == 0 && total.y == 0 {
        assert(clamp_len_spec(total, 0, ms) == v2_zero());
    }
}

/// Separation weighting is monotone in the neighbour's distance: a
/// farther neighbour never pushes harder, so the inverse-distance
/// weight peaks at the distance floor, where it is capped.
pub proof fn lemma_separation_monotone(u: V2, f: int, d1: int, d2: int)
    requires
        1 <= d1 <= d2,
        0 <= f,
    ensures
        len2(scale_div_spec(u, f, d2)) <= len2(scale_div_spec(u, f, d1)),
{
    let c1 = scale_div_spec(u, f, d1);
    let c2 = scale_div_spec(u, f, d2);
    crate::num::lemma_tdiv_antitone(u.x * f, d1, d2);
    crate::num::lemma_tdiv_antitone(u.y * f, d1, d2);
    assert(c2.x * c2.x <= c1.x * c1.x && c2.y * c2.y <= c1.y * c1.y) by (nonlinear_arith)
        requires
            absi(c2.x) <= absi(c1.x),
            absi(c2.y) <= absi(c1.y),
    ;
}

/// Separation weighting is strictly stronger for a strictly closer
/// neighbour, whenever the scaled numerator `c` (a direction coordinate
/// times the separation factor) is large against both distances; on
/// equal inputs whose quotients collapse to the same raw unit the two
/// weights tie instead.
pub proof fn lemma_separation_strict(c: int, d1: int, d2: int)
    requires
        0 <= c,
        1 <= d1 < d2,
        c * (d2 - d1) >= d1 * d2,
    ensures
        tdiv(c, d1) > tdiv(c, d2),
{
    crate::num::lemma_tdiv_strict(c, d1, d2);
}

} // verus!
