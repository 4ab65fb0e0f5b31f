use flock::engine::{
    integrate, player_next, run_ticks, tick, Agent, Config, Player, PlayerMode, QueryMode,
    TickInput,
};
use flock::index::{IdPoint, SpatialIndex};
use flock::num::{isqrt, sdiv};
use flock::ramp::strength;
use flock::rng::{place, spawn_flock, wy_advance};
use flock::vec2::Vec2;
use flock::{clamp_i64, SCALE};

fn v(x: i64, y: i64) -> Vec2 {
    Vec2 { x, y }
}

/// All steering factors off; every test switches on just what it needs.
fn quiet_config() -> Config {
    let mut c = Config::reference();
    c.player_mode = PlayerMode::Avoid;
    c.query_mode = QueryMode::Radius;
    c.use_cohesion = false;
    c.avoid_factor = 0;
    c.center_factor = 0;
    c.separation_factor = 0;
    c.alignment_factor = 0;
    c.cohesion_factor = 0;
    c.follow_factor = 0;
    c
}

#[test]
fn isqrt_exact_and_rounded() {
    assert_eq!(isqrt(0), 0);
    assert_eq!(isqrt(1), 1);
    assert_eq!(isqrt(8), 2);
    assert_eq!(isqrt(9), 3);
    assert_eq!(isqrt(1_000_000), 1000);
    assert_eq!(isqrt(999_999), 999);
}

#[test]
fn sdiv_truncates_toward_zero() {
    assert_eq!(sdiv(7, 2), 3);
    assert_eq!(sdiv(-7, 2), -3);
    assert_eq!(sdiv(0, 5), 0);
}

#[test]
fn clamp_scalar() {
    assert_eq!(clamp_i64(5, 0, 10), 5);
    assert_eq!(clamp_i64(-5, 0, 10), 0);
    assert_eq!(clamp_i64(15, 0, 10), 10);
}

#[test]
fn strength_endpoints_and_clamping() {
    assert_eq!(strength(0, 1000, -5), 0);
    assert_eq!(strength(0, 1000, 0), 0);
    assert_eq!(strength(0, 1000, 500), 500);
    assert_eq!(strength(0, 1000, 1000), SCALE);
    assert_eq!(strength(0, 1000, 2000), SCALE);
}

#[test]
fn strength_monotone_samples() {
    let mut prev = 0;
    for x in [50_000i64, 75_000, 100_000, 125_000, 150_000, 175_000] {
        let s = strength(50_000, 150_000, x);
        assert!(s >= prev);
        prev = s;
    }
}

#[test]
fn normalize_zero_stays_zero() {
    let z = v(0, 0).normalize_or_zero();
    assert_eq!(z, v(0, 0));
}

#[test]
fn normalize_has_unit_length() {
    let n = v(3000, 4000).normalize_or_zero();
    assert_eq!(n, v(600, 800));
    assert_eq!(n.len2(), 1_000_000);
    let m = v(-5000, 0).normalize_or_zero();
    assert_eq!(m, v(-1000, 0));
}

#[test]
fn clamp_length_scales_down_and_up() {
    assert_eq!(v(3000, 4000).clamp_length(0, 1000), v(600, 800));
    assert_eq!(v(300, 400).clamp_length(1000, 5000), v(600, 800));
    assert_eq!(v(300, 400).clamp_length(0, 5000), v(300, 400));
    assert_eq!(v(0, 0).clamp_length(0, 5000), v(0, 0));
    assert_eq!(v(3000, 4000).clamp_length_max(750), v(450, 600));
}

#[test]
fn radius_query_roundtrip_against_brute_force() {
    let pts = vec![
        IdPoint { id: 0, pos: v(0, 0) },
        IdPoint { id: 1, pos: v(3000, 4000) },
        IdPoint { id: 2, pos: v(10_000, 0) },
        IdPoint { id: 3, pos: v(0, -2000) },
        IdPoint { id: 4, pos: v(-4999, 0) },
    ];
    let mut idx = SpatialIndex::new();
    idx.rebuild(pts.clone());
    let center = v(0, 0);
    let radius: i64 = 5000;
    let res = idx.query_radius_unsorted(center, radius);
    for p in &pts {
        let dx = (p.pos.x - center.x) as i128;
        let dy = (p.pos.y - center.y) as i128;
        let within = dx * dx + dy * dy <= (radius as i128) * (radius as i128);
        let found = res.iter().any(|n| n.id == p.id);
        assert_eq!(within, found, "point {} membership mismatch", p.id);
    }
    assert_eq!(res.len(), 4);
    let d1 = res.iter().find(|n| n.id == 1).unwrap().dist;
    assert_eq!(d1, 5000);
    let d3 = res.iter().find(|n| n.id == 3).unwrap().dist;
    assert_eq!(d3, 2000);
}

#[test]
fn radius_query_tolerates_duplicates_and_empty() {
    let mut idx = SpatialIndex::new();
    assert_eq!(idx.query_radius_unsorted(v(0, 0), 1000).len(), 0);
    idx.rebuild(vec![
        IdPoint { id: 7, pos: v(100, 100) },
        IdPoint { id: 8, pos: v(100, 100) },
    ]);
    let res = idx.query_radius_unsorted(v(0, 0), 1000);
    assert_eq!(res.len(), 2);
}

#[test]
fn k_nearest_returns_k_closest_sorted() {
    let pts = vec![
        IdPoint { id: 10, pos: v(3000, 0) },
        IdPoint { id: 11, pos: v(1000, 0) },
        IdPoint { id: 12, pos: v(0, 2000) },
        IdPoint { id: 13, pos: v(9000, 0) },
    ];
    let mut idx = SpatialIndex::new();
    idx.rebuild(pts);
    let res = idx.query_k_nearest_within(v(0, 0), 5000, 2, true);
    assert_eq!(res.len(), 2);
    assert_eq!(res[0].id, 11);
    assert_eq!(res[0].dist, 1000);
    assert_eq!(res[1].id, 12);
    assert_eq!(res[1].dist, 2000);
    let all = idx.query_k_nearest_within(v(0, 0), 5000, 10, true);
    assert_eq!(all.len(), 3);
    assert!(all[0].dist <= all[1].dist && all[1].dist <= all[2].dist);
    let none = idx.query_k_nearest_within(v(0, 0), 5000, 0, true);
    assert_eq!(none.len(), 0);
}

#[test]
fn tick_with_no_agents_is_empty() {
    let agents: Vec<Agent> = Vec::new();
    let cfg = Config::reference();
    let out = tick(&agents, v(0, 0), 16, &cfg);
    assert_eq!(out.len(), 0);
}

#[test]
fn separation_pushes_two_agents_apart() {
    // Two agents one world unit apart on the x-axis, separation alone.
    let mut cfg = quiet_config();
    cfg.separation_factor = 1000;
    cfg.min_distance = 500;
    let agents = vec![
        Agent { id: 0, pos: v(0, 0), vel: v(0, 0) },
        Agent { id: 1, pos: v(1000, 0), vel: v(0, 0) },
    ];
    // Player far away, and its factor is zero anyway.
    let out = tick(&agents, v(900_000_000, 900_000_000), 1000, &cfg);
    let gap_before = agents[1].pos.x - agents[0].pos.x;
    let gap_after = out[1].pos.x - out[0].pos.x;
    assert_eq!(out[0].pos, v(-7500, 0));
    assert_eq!(out[1].pos, v(8500, 0));
    assert!(gap_after > gap_before);
}

#[test]
fn separation_weight_grows_as_distance_shrinks() {
    // One neighbour at two different distances: the closer one draws a
    // larger counter-force.
    let mut cfg = quiet_config();
    cfg.separation_factor = 1000;
    cfg.min_distance = 500;
    cfg.max_steering_force = 1_000_000;
    let far = vec![
        Agent { id: 0, pos: v(0, 0), vel: v(0, 0) },
        Agent { id: 1, pos: v(4000, 0), vel: v(0, 0) },
    ];
    let near = vec![
        Agent { id: 0, pos: v(0, 0), vel: v(0, 0) },
        Agent { id: 1, pos: v(2000, 0), vel: v(0, 0) },
    ];
    let player = v(900_000_000, 900_000_000);
    let out_far = tick(&far, player, 1000, &cfg);
    let out_near = tick(&near, player, 1000, &cfg);
    let push_far = -out_far[0].vel.x;
    let push_near = -out_near[0].vel.x;
    assert!(push_near > push_far);
    assert!(push_far > 0);
}

#[test]
fn centering_turns_a_distant_agent_back() {
    let mut cfg = quiet_config();
    cfg.center_factor = 1000;
    cfg.max_steering_force = 2000;
    let agents = vec![Agent { id: 0, pos: v(200_000, 0), vel: v(0, 0) }];
    let out = tick(&agents, v(0, 0), 1000, &cfg);
    // The new velocity points toward the origin with positive magnitude.
    assert_eq!(out[0].vel, v(-1000, 0));
    assert!(out[0].vel.x < 0);
    assert_eq!(out[0].pos, v(190_000, 0));
}

#[test]
fn avoid_policy_repels_from_a_close_player() {
    let mut cfg = quiet_config();
    cfg.avoid_factor = 8000;
    cfg.max_steering_force = 750;
    let agents = vec![Agent { id: 0, pos: v(0, 0), vel: v(0, 0) }];
    let out = tick(&agents, v(2000, 0), 1000, &cfg);
    // The player sits to the right, so the agent accelerates left.
    assert!(out[0].vel.x < 0);
    assert_eq!(out[0].vel.y, 0);
}

#[test]
fn follow_policy_attracts_toward_the_player() {
    let mut cfg = quiet_config();
    cfg.player_mode = PlayerMode::Follow;
    cfg.follow_factor = 1000;
    cfg.max_steering_force = 5000;
    let agents = vec![Agent { id: 0, pos: v(0, 0), vel: v(0, 0) }];
    let out = tick(&agents, v(3000, 0), 1000, &cfg);
    assert!(out[0].vel.x > 0);
    assert_eq!(out[0].vel.y, 0);
}

#[test]
fn cohesion_pulls_toward_the_neighbourhood_mean() {
    let mut cfg = quiet_config();
    cfg.use_cohesion = true;
    cfg.cohesion_factor = 1000;
    let agents = vec![
        Agent { id: 0, pos: v(0, 0), vel: v(0, 0) },
        Agent { id: 1, pos: v(3000, 0), vel: v(0, 0) },
        Agent { id: 2, pos: v(3000, 1000), vel: v(0, 0) },
    ];
    let out = tick(&agents, v(900_000_000, 900_000_000), 1000, &cfg);
    assert!(out[0].vel.x > 0);
}

#[test]
fn velocity_stays_inside_the_speed_band() {
    let mut cfg = quiet_config();
    cfg.separation_factor = 1_000_000;
    cfg.min_distance = 500;
    cfg.max_steering_force = 1_000_000;
    cfg.max_velocity = 900;
    let agents = vec![
        Agent { id: 0, pos: v(0, 0), vel: v(0, 0) },
        Agent { id: 1, pos: v(600, 0), vel: v(0, 0) },
    ];
    let out = tick(&agents, v(900_000_000, 900_000_000), 1000, &cfg);
    for a in &out {
        let l2 = a.vel.len2();
        assert!(l2 <= 901 * 901, "speed above the cap: {}", l2);
    }
}

#[test]
fn integrate_applies_the_speed_scale() {
    let cfg = quiet_config();
    let a = Agent { id: 5, pos: v(100, 200), vel: v(0, 0) };
    let out = integrate(a, v(300, 400), 1000, &cfg);
    assert_eq!(out.id, 5);
    assert_eq!(out.vel, v(300, 400));
    // One second at speed scale 10: the velocity, ten times over.
    assert_eq!(out.pos, v(100 + 3000, 200 + 4000));
}

#[test]
fn player_keeps_last_known_position() {
    let p = Player { pos: v(100, 100), vel: v(0, 0) };
    let moved = player_next(p, Some(v(400, 500)));
    assert_eq!(moved.pos, v(400, 500));
    assert_eq!(moved.vel, v(300, 400));
    let held = player_next(moved, None);
    assert_eq!(held.pos, v(400, 500));
    assert_eq!(held.vel, v(0, 0));
}

#[test]
fn spawn_is_deterministic_and_matches_the_generator() {
    let a = spawn_flock(5, 50_000, 37);
    let b = spawn_flock(5, 50_000, 37);
    assert_eq!(a.len(), 5);
    for i in 0..5 {
        assert_eq!(a[i].id, i as u64);
        assert_eq!(a[i].vel, v(0, 0));
        assert_eq!(a[i].pos, b[i].pos);
        assert!(a[i].pos.x.abs() <= 50_000 && a[i].pos.y.abs() <= 50_000);
    }
    // The first draws of the wyrand stream from seed 37, folded onto
    // the spawn square; recomputed by hand from the generator's step.
    assert_eq!(a[0].pos, v(-26_411, -12_661));
    assert_eq!(a[1].pos, v(-2_832, -8_639));
    assert_eq!(a[2].pos, v(-36_111, -41_550));
    let c = spawn_flock(5, 50_000, 38);
    assert_ne!(a[0].pos, c[0].pos);
}

#[test]
fn place_folds_one_draw_into_the_square() {
    let raw: u64 = 1_430_828_283_725_662_990;
    assert_eq!(place(raw, 50_000), v(-26_411, -12_661));
    assert_eq!(place(0, 50_000), v(-50_000, -50_000));
}

#[test]
fn wy_advance_wraps() {
    assert_eq!(wy_advance(0), 0x2d35_8dcc_aa6c_78a5);
    assert_eq!(wy_advance(u64::MAX), 0x2d35_8dcc_aa6c_78a5 - 1);
}

#[test]
fn two_runs_are_bit_for_bit_identical() {
    let cfg = Config::reference();
    let start = spawn_flock(40, 50_000, 37);
    let inputs: Vec<TickInput> = (0..20)
        .map(|t| TickInput { player: v(1000 * t, -500 * t), delta: 16 })
        .collect();
    let one = run_ticks(start.clone(), &inputs, &cfg);
    let two = run_ticks(spawn_flock(40, 50_000, 37), &inputs, &cfg);
    assert_eq!(one.len(), two.len());
    for i in 0..one.len() {
        assert_eq!(one[i], two[i]);
    }
}

#[test]
fn reference_config_matches_the_model_constants() {
    let c = Config::reference();
    assert_eq!(c.max_steering_force, 750);
    assert_eq!(c.max_velocity, 5 * SCALE);
    assert_eq!(c.min_velocity, 0);
    assert_eq!(c.min_distance, 500);
    assert_eq!(c.neighbor_k, 10);
    assert_eq!(c.neighbor_radius, 5 * SCALE);
}

#[test]
fn exp_decay_is_monotone_and_bounded() {
    let mut prev = flock::engine::exp_decay(0);
    assert_eq!(prev, SCALE);
    for x in [1000i64, 3000, 6000, 9000, 12_000] {
        let e = flock::engine::exp_decay(x);
        assert!(e <= prev);
        assert!(e >= 0);
        prev = e;
    }
    assert_eq!(flock::engine::exp_decay(12_000), 42);
}
