use cyclic_pursuit::fixed::{isqrt, mul_div, SCALE};
use cyclic_pursuit::sim::{Config, SolveError, State};
use cyclic_pursuit::trig::{cos_units, ln_units, sin_units, TAU_UNITS};

const R10: i64 = 10 * SCALE;

fn radius_sq(p: cyclic_pursuit::sim::Point) -> i128 {
    (p.x as i128) * (p.x as i128) + (p.y as i128) * (p.y as i128)
}

#[test]
fn invariant_holds_through_stepping_and_solving() {
    let cfg = Config::default();
    let mut state = State::reinitialise(cfg.body_count, cfg.radius);
    assert!(state.check_well_formed());
    assert_eq!(state.positions.len(), cfg.body_count);
    assert_eq!(state.history.len(), cfg.body_count);
    for _ in 0..50 {
        state.step(&cfg);
        assert!(state.check_well_formed());
        for i in 0..cfg.body_count {
            let h = &state.history[i];
            assert_eq!(state.positions[i], h[h.len() - 1]);
        }
    }
    state.solve(&cfg).unwrap();
    assert!(state.check_well_formed());
    assert_eq!(state.positions.len(), cfg.body_count);
    for i in 0..cfg.body_count {
        let h = &state.history[i];
        assert!(!h.is_empty());
        assert_eq!(state.positions[i], h[h.len() - 1]);
    }
}

#[test]
fn start_positions_rotate_by_quarter_turn() {
    let state = State::reinitialise(4, R10);
    for i in 0..4 {
        let p = state.positions[i];
        let q = state.positions[(i + 1) % 4];
        // rotation by a quarter turn: (x, y) -> (-y, x)
        assert_eq!(q.x, -p.y);
        assert_eq!(q.y, p.x);
    }
}

#[test]
fn start_positions_match_float_circle() {
    let n = 7usize;
    let state = State::reinitialise(n, R10);
    for i in 0..n {
        let ang = 2.0 * std::f64::consts::PI * (i as f64) / (n as f64);
        let ex = (R10 as f64) * ang.cos();
        let ey = (R10 as f64) * ang.sin();
        assert!((state.positions[i].x as f64 - ex).abs() < 500.0);
        assert!((state.positions[i].y as f64 - ey).abs() < 500.0);
    }
}

#[test]
fn radius_non_increasing_under_stepping() {
    let cfg = Config {
        body_count: 4,
        radius: R10,
        speed: SCALE,
        timestep: 10_000,
    };
    let mut state = State::reinitialise(cfg.body_count, cfg.radius);
    let mut prev: Vec<i128> = state.positions.iter().map(|p| radius_sq(*p)).collect();
    for _ in 0..2000 {
        let complete = state.step(&cfg);
        for i in 0..cfg.body_count {
            let now = radius_sq(state.positions[i]);
            assert!(now <= prev[i]);
            prev[i] = now;
        }
        if complete {
            break;
        }
    }
}

#[test]
fn stepping_reaches_completion() {
    let cfg = Config {
        body_count: 4,
        radius: R10,
        speed: SCALE,
        timestep: 10_000,
    };
    let mut state = State::reinitialise(cfg.body_count, cfg.radius);
    let mut steps = 0usize;
    loop {
        let complete = state.step(&cfg);
        steps += 1;
        if complete {
            break;
        }
        assert!(steps < 5000, "no completion after {} steps", steps);
    }
    // R / (v cos beta) / dt is about 1414 steps for this configuration
    assert!(steps >= 1000 && steps < 3000, "completed after {} steps", steps);
    assert!(!state.running);
}

#[test]
fn solved_tracks_start_on_circle_and_end_near_centre() {
    let cfg = Config {
        body_count: 3,
        radius: R10,
        speed: SCALE,
        timestep: 1_000,
    };
    let start = State::reinitialise(cfg.body_count, cfg.radius);
    let mut state = State::reinitialise(cfg.body_count, cfg.radius);
    state.solve(&cfg).unwrap();
    for i in 0..cfg.body_count {
        // the first sample is exactly the starting position
        assert_eq!(state.history[i][0], start.positions[i]);
        // the final sample lies within one timestep's travel of the centre
        let last = state.positions[i];
        let r = (radius_sq(last) as f64).sqrt();
        assert!(r <= 1_100.0, "final radius {} too large", r);
    }
}

#[test]
fn solved_track_follows_float_spiral() {
    let cfg = Config {
        body_count: 3,
        radius: R10,
        speed: SCALE,
        timestep: 1_000,
    };
    let mut state = State::reinitialise(cfg.body_count, cfg.radius);
    state.solve(&cfg).unwrap();
    let n = 3.0f64;
    let beta = std::f64::consts::FRAC_PI_2 - std::f64::consts::PI / n;
    let v = 1.0f64;
    let w = v * beta.cos();
    let tang = v * beta.sin();
    let r0 = 10.0f64;
    let track = &state.history[1];
    let mid = track.len() / 2;
    let t = (mid as f64) * 0.001;
    let r = r0 - w * t;
    let theta = 2.0 * std::f64::consts::PI / n + (tang / w) * ((r).ln() - r0.ln());
    let ex = r * theta.cos() * (SCALE as f64);
    let ey = r * theta.sin() * (SCALE as f64);
    assert!((track[mid].x as f64 - ex).abs() < 20_000.0);
    assert!((track[mid].y as f64 - ey).abs() < 20_000.0);
}

#[test]
fn solve_rejects_nonpositive_speed() {
    for speed in [0i64, -SCALE] {
        let cfg = Config {
            body_count: 5,
            radius: R10,
            speed,
            timestep: 10_000,
        };
        let mut state = State::reinitialise(cfg.body_count, cfg.radius);
        let before_positions = state.positions.clone();
        let before_history = state.history.clone();
        let before_running = state.running;
        let r = state.solve(&cfg);
        assert_eq!(r, Err(SolveError::InvalidSpeed));
        assert_eq!(state.positions, before_positions);
        assert_eq!(state.history, before_history);
        assert_eq!(state.running, before_running);
    }
}

#[test]
fn solve_rejects_degenerate_geometry() {
    // a single body has no pursuit polygon
    let cfg1 = Config {
        body_count: 1,
        radius: R10,
        speed: SCALE,
        timestep: 10_000,
    };
    let mut s1 = State::reinitialise(1, R10);
    assert_eq!(s1.solve(&cfg1), Err(SolveError::DegenerateGeometry));
    // a speed of one unit makes the inward component round to zero
    let cfg2 = Config {
        body_count: 5,
        radius: R10,
        speed: 1,
        timestep: 10_000,
    };
    let mut s2 = State::reinitialise(5, R10);
    assert_eq!(s2.solve(&cfg2), Err(SolveError::DegenerateGeometry));
}

#[test]
fn reinitialise_twice_identical() {
    let a = State::reinitialise(5, R10);
    let b = State::reinitialise(5, R10);
    assert_eq!(a.positions, b.positions);
    assert_eq!(a.history.len(), b.history.len());
    for i in 0..5 {
        assert_eq!(a.history[i].len(), 1);
        assert_eq!(b.history[i].len(), 1);
        assert_eq!(a.history[i], b.history[i]);
    }
    assert!(!a.running && !b.running);
}

#[test]
fn zero_radius_completes_immediately() {
    let cfg = Config {
        body_count: 3,
        radius: 0,
        speed: SCALE,
        timestep: 10_000,
    };
    let mut state = State::reinitialise(3, 0);
    let complete = state.step(&cfg);
    assert!(complete);
    for i in 0..3 {
        assert_eq!(state.history[i].len(), 1);
        assert_eq!(state.positions[i], state.history[i][0]);
    }
    // solving from radius zero keeps each current position as the seed
    let mut solved = State::reinitialise(3, 0);
    solved.solve(&cfg).unwrap();
    for i in 0..3 {
        assert_eq!(solved.history[i].len(), 1);
        assert_eq!(solved.history[i][0], state.positions[i]);
    }
}

#[test]
fn coincident_bodies_skip_their_step() {
    // negative speed disables the stop threshold, and all bodies sit
    // on the same spot, so every body lacks a pursuit direction
    let cfg = Config {
        body_count: 3,
        radius: 0,
        speed: -SCALE,
        timestep: 10_000,
    };
    let mut state = State::reinitialise(3, 0);
    let complete = state.step(&cfg);
    assert!(!complete);
    for i in 0..3 {
        assert_eq!(state.history[i].len(), 1);
        assert_eq!(state.positions[i], state.history[i][0]);
    }
}

#[test]
fn initial_polygon_edges_connect_predecessors() {
    let state = State::reinitialise(4, R10);
    let (a, b) = state.initial_polygon_edge(0);
    assert_eq!(a, state.history[0][0]);
    assert_eq!(b, state.history[3][0]);
    let (c, d) = state.initial_polygon_edge(2);
    assert_eq!(c, state.history[2][0]);
    assert_eq!(d, state.history[1][0]);
}

#[test]
fn trig_matches_float() {
    let mut x = 0i64;
    while x <= TAU_UNITS {
        let xf = (x as f64) / (SCALE as f64);
        let s = sin_units(x) as f64 / (SCALE as f64);
        let c = cos_units(x) as f64 / (SCALE as f64);
        assert!((s - xf.sin()).abs() < 1.0e-4, "sin at {}", x);
        assert!((c - xf.cos()).abs() < 1.0e-4, "cos at {}", x);
        x += 10_007;
    }
}

#[test]
fn ln_matches_float() {
    for x in [1i64, 10, 999, 500_000, SCALE, 2 * SCALE, 55 * SCALE,
        1_000_000_000_000, 1_000_000_000_000_000_000]
    {
        let expect = ((x as f64) / (SCALE as f64)).ln() * (SCALE as f64);
        let got = ln_units(x) as f64;
        assert!((got - expect).abs() < 300.0, "ln at {}: {} vs {}", x, got, expect);
    }
}

#[test]
fn isqrt_is_floor_square_root() {
    assert_eq!(isqrt(0), 0);
    assert_eq!(isqrt(1), 1);
    assert_eq!(isqrt(3), 1);
    assert_eq!(isqrt(4), 2);
    assert_eq!(isqrt(15), 3);
    assert_eq!(isqrt(16), 4);
    assert_eq!(isqrt(1_000_000_000_000), 1_000_000);
    let big: u128 = 1_000_000_000_000_000_000;
    assert_eq!(isqrt(big * big), big);
    assert_eq!(isqrt(big * big + 1), big);
    assert_eq!(isqrt(big * big - 1), big - 1);
}

#[test]
fn mul_div_truncates_toward_zero() {
    assert_eq!(mul_div(7, 3, 2), 10);
    assert_eq!(mul_div(-7, 3, 2), -10);
    assert_eq!(mul_div(7, -3, 2), -10);
    assert_eq!(mul_div(-7, -3, 2), 10);
    assert_eq!(mul_div(1, 1, 2), 0);
    assert_eq!(mul_div(-1, 1, 2), 0);
}

#[test]
fn default_config_is_spec_startup() {
    let cfg = Config::default();
    assert_eq!(cfg.body_count, 5);
    assert_eq!(cfg.radius, 10 * SCALE);
    assert_eq!(cfg.speed, SCALE);
    assert_eq!(cfg.timestep, SCALE / 100);
}
