//! The simulation engine: state model, iterative stepping, and the
//! closed-form spiral solver.
//!
//! `n` bodies start evenly spaced on a circle; body `i` pursues body
//! `i - 1` (body `0` pursues body `n - 1`). The iterative mode advances
//! every body one timestep toward its predecessor, from a consistent
//! snapshot of the positions; the closed-form mode computes the whole
//! logarithmic-spiral trajectory of every body at once.

use vstd::prelude::*;
use vstd::arithmetic::mul::{
    lemma_mul_inequality, lemma_mul_left_inequality, lemma_mul_is_distributive_add_other_way,
};
use vstd::arithmetic::div_mod::{
    lemma_fundamental_div_mod_converse, lemma_div_is_ordered_by_denominator, lemma_basic_div,
};
use crate::fixed::{
    SCALE, POS_LIMIT, SPEED_LIMIT, TIMESTEP_LIMIT, COUNT_LIMIT, tdiv, mul_div, isqrt, sqrt_floor,
    lemma_tdiv_bound, lemma_tdiv_shrinks, lemma_tdiv_pos, lemma_tdiv_ordered,
};
use crate::trig::{
    HALF_PI_UNITS, PI_UNITS, TAU_UNITS, sin_units, cos_units, sin_units_spec, cos_units_spec,
    ln_units, ln_units_spec, norm_angle, norm_angle_spec,
};

verus! {

/// A point of the plane, one fixed-point scalar per axis.
#[derive(Clone, Copy, Debug, PartialEq, Eq, Structural)]
pub struct Point {
    pub x: i64,
    pub y: i64,
}

/// The externally editable configuration, in fixed-point units.
#[derive(Clone, Copy, Debug, PartialEq, Eq, Structural)]
pub struct Config {
    /// Number of pursuing bodies on the cycle.
    pub body_count: usize,
    /// Initial distance of every body from the origin.
    pub radius: i64,
    /// Magnitude of each body's displacement per time unit.
    pub speed: i64,
    /// Simulated time increment of one iterative step.
    pub timestep: i64,
}

/// Why a closed-form solve was rejected; the state is left untouched.
#[derive(Clone, Copy, Debug, PartialEq, Eq, Structural)]
pub enum SolveError {
    /// The closed-form trajectory needs a strictly positive speed.
    InvalidSpeed,
    /// Fewer than two bodies, or an inward speed that rounds to zero:
    /// the spiral's total time is unbounded at this precision.
    DegenerateGeometry,
}

/// The derived per-body state: current positions and full histories.
#[derive(Debug)]
pub struct State {
    /// Whether iterative stepping is active; stepping clears it on
    /// completion, and the driver may set or clear it between steps.
    pub running: bool,
    /// Current position of each body.
    pub positions: Vec<Point>,
    /// Every position each body has occupied, oldest first; seeded
    /// with the starting position, appended to by iterative steps,
    /// replaced wholesale by the closed-form solver.
    pub history: Vec<Vec<Point>>,
}

/// Both coordinates within the engine's coordinate box.
pub open spec fn in_box(p: Point) -> bool {
    &&& -POS_LIMIT <= p.x <= POS_LIMIT
    &&& -POS_LIMIT <= p.y <= POS_LIMIT
}

/// The state invariant: one history per body, no history empty, every
/// current position is the last entry of its body's history, and all
/// current positions lie in the coordinate box.
pub open spec fn well_formed(s: State) -> bool {
    &&& s.positions@.len() == s.history@.len()
    &&& forall|i: int| 0 <= i < s.history@.len() ==> (#[trigger] s.history@[i])@.len() >= 1
    &&& forall|i: int|
        0 <= i < s.positions@.len() ==> #[trigger] s.positions@[i] == s.history@[i]@.last()
    &&& forall|i: int| 0 <= i < s.positions@.len() ==> in_box(#[trigger] s.positions@[i])
}

/// The accepted configuration ranges (the machine limits of the
/// fixed-point model; callers clamp before building a `Config`).
pub open spec fn config_well_formed(cfg: Config) -> bool {
    &&& 1 <= cfg.body_count <= COUNT_LIMIT
    &&& 0 <= cfg.radius <= POS_LIMIT
    &&& -SPEED_LIMIT <= cfg.speed <= SPEED_LIMIT
    &&& 1 <= cfg.timestep <= TIMESTEP_LIMIT
}

/// The angle between consecutive starting positions: one `n`-th of a
/// full turn, rounded down to whole angle units.
pub open spec fn angle_step(n: int) -> int {
    tdiv(TAU_UNITS as int, n)
}

/// The starting angle of body `i`: `i` angle steps counter-clockwise
/// from angle zero.
pub open spec fn initial_angle(n: int, i: int) -> int {
    i * angle_step(n)
}

/// The point at fixed-point polar coordinates `(r, a)`.
pub open spec fn polar_point(r: int, a: int) -> Point {
    Point {
        x: tdiv(r * cos_units_spec(a), SCALE as int) as i64,
        y: tdiv(r * sin_units_spec(a), SCALE as int) as i64,
    }
}

/// The starting position of body `i` of `n` on the circle of radius `r`.
pub open spec fn initial_position(n: int, r: int, i: int) -> Point {
    polar_point(r, initial_angle(n, i))
}

/// A state exactly as `reinitialise` builds it: every body on the
/// circle, every history a single seed entry, stepping inactive.
pub open spec fn is_initial(s: State, n: int, r: int) -> bool {
    &&& s.positions@.len() == n
    &&& s.history@.len() == n
    &&& !s.running
    &&& forall|i: int| 0 <= i < n ==> #[trigger] s.positions@[i] == initial_position(n, r, i)
    &&& forall|i: int|
        0 <= i < n ==> (#[trigger] s.history@[i])@ == seq![initial_position(n, r, i)]
}

/// The per-step travel budget: speed times timestep, in units.
pub open spec fn threshold_units(cfg: Config) -> int {
    tdiv(cfg.speed * cfg.timestep, SCALE as int)
}

/// Squared distance of a point from the origin.
pub open spec fn sq_norm(p: Point) -> int {
    p.x * p.x + p.y * p.y
}

/// A body stops once it sits within one step's travel of the centre
/// (it would overshoot the centre within a single step).
pub open spec fn is_stopped(p: Point, t: int) -> bool {
    t > 0 && sq_norm(p) < t * t
}

/// The cyclic predecessor: the body that body `i` pursues.
pub open spec fn predecessor(i: int, n: int) -> int {
    if i == 0 {
        n - 1
    } else {
        i - 1
    }
}

/// Where body `i` moves this step, from a consistent snapshot `ps` of
/// all positions: `None` when the body is stopped, when it coincides
/// with its target (no direction exists), or when the candidate point
/// would leave the coordinate box; otherwise one travel budget along
/// the straight line toward the predecessor.
pub open spec fn step_candidate(ps: Seq<Point>, i: int, t: int) -> Option<Point> {
    let p = ps[i];
    let q = ps[predecessor(i, ps.len() as int)];
    if is_stopped(p, t) {
        None
    } else {
        let dx = q.x - p.x;
        let dy = q.y - p.y;
        if dx == 0 && dy == 0 {
            None
        } else {
            let len = sqrt_floor((dx * dx + dy * dy) as nat) as int;
            let nx = p.x + tdiv(dx * t, len);
            let ny = p.y + tdiv(dy * t, len);
            if -POS_LIMIT <= nx <= POS_LIMIT && -POS_LIMIT <= ny <= POS_LIMIT {
                Some(Point { x: nx as i64, y: ny as i64 })
            } else {
                None
            }
        }
    }
}

/// The position of body `i` after one step: the candidate if it moved,
/// its old position if not.
pub open spec fn stepped_position(ps: Seq<Point>, i: int, t: int) -> Point {
    match step_candidate(ps, i, t) {
        Some(c) => c,
        None => ps[i],
    }
}

/// Every body is stopped: the simulation is complete.
pub open spec fn all_stopped(ps: Seq<Point>, t: int) -> bool {
    forall|i: int| 0 <= i < ps.len() ==> is_stopped(#[trigger] ps[i], t)
}

/// The angle between a pursuer's velocity and the inward radial
/// direction in the symmetric configuration: pi/2 - pi/n.
pub open spec fn beta_units(n: int) -> int {
    HALF_PI_UNITS - tdiv(PI_UNITS as int, n)
}

/// The inward (radial) speed component: speed times cos(beta).
pub open spec fn inward_units(cfg: Config) -> int {
    tdiv(cfg.speed * cos_units_spec(beta_units(cfg.body_count as int)), SCALE as int)
}

/// The tangential speed component: speed times sin(beta).
pub open spec fn tangential_units(cfg: Config) -> int {
    tdiv(cfg.speed * sin_units_spec(beta_units(cfg.body_count as int)), SCALE as int)
}

/// The configurations the closed-form solver accepts: positive speed,
/// at least two bodies, and an inward speed of at least one unit.
pub open spec fn solve_accepted(cfg: Config) -> bool {
    cfg.speed > 0 && cfg.body_count >= 2 && inward_units(cfg) >= 1
}

/// Total time for a body to reach the centre: radius over inward
/// speed, in time units.
pub open spec fn total_time_units(cfg: Config) -> int {
    tdiv(cfg.radius * SCALE, inward_units(cfg))
}

/// How many instants are sampled: one per timestep strictly before
/// the total time (the ceiling of their quotient).
pub open spec fn sample_count(cfg: Config) -> int {
    tdiv(total_time_units(cfg) + cfg.timestep - 1, cfg.timestep as int)
}

/// tan(beta): tangential over inward speed, in fixed-point units.
pub open spec fn spiral_ratio(cfg: Config) -> int {
    tdiv(tangential_units(cfg) * SCALE, inward_units(cfg))
}

/// The radius at time `t`: the start radius less the inward travel.
pub open spec fn sample_radius(cfg: Config, t: int) -> int {
    cfg.radius - tdiv(inward_units(cfg) * t, SCALE as int)
}

/// The angle of body `i` at time `t`: its starting angle plus
/// tan(beta) times the drop in log-radius, reduced to one turn.
pub open spec fn sample_angle(cfg: Config, i: int, t: int) -> int {
    norm_angle_spec(
        initial_angle(cfg.body_count as int, i) + tdiv(
            spiral_ratio(cfg) * (ln_units_spec(sample_radius(cfg, t)) - ln_units_spec(
                cfg.radius as int,
            )),
            SCALE as int,
        ),
    )
}

/// The sampled point of body `i` at time `t` on its spiral.
pub open spec fn sample_point(cfg: Config, i: int, t: int) -> Point {
    polar_point(sample_radius(cfg, t), sample_angle(cfg, i, t))
}

/// The whole closed-form trajectory of body `i`, one point per
/// sampled instant `0, dt, 2 dt, ...` strictly before the total time.
pub open spec fn solve_track(cfg: Config, i: int) -> Seq<Point> {
    Seq::new(sample_count(cfg) as nat, |j: int| sample_point(cfg, i, j * cfg.timestep))
}

impl Default for Config {
    /// The startup configuration: five bodies, radius 10, unit speed,
    /// a timestep of one hundredth.
    fn default() -> (c: Config)
        ensures
            c == (Config { body_count: 5, radius: 10_000_000, speed: SCALE, timestep: 10_000 }),
            config_well_formed(c),
    {
        Config { body_count: 5, radius: 10 * SCALE, speed: SCALE, timestep: 10_000 }
    }
}

impl State {
    /// Place `body_count` bodies evenly on the circle of the given
    /// radius, starting at angle zero and proceeding counter-clockwise,
    /// and seed each body's history with its starting position. Any
    /// previous trajectory is discarded.
    pub fn reinitialise(body_count: usize, radius: i64) -> (s: State)
        requires
            1 <= body_count <= COUNT_LIMIT,
            0 <= radius <= POS_LIMIT,
        ensures
            is_initial(s, body_count as int, radius as int),
            well_formed(s),
    {
        let n = body_count;
        let delta = ((TAU_UNITS as u64) / (n as u64)) as i64;
        proof {
            lemma_tdiv_pos(TAU_UNITS as int, n as int);
            assert(delta == angle_step(n as int));
        }
        let mut positions: Vec<Point> = Vec::new();
        let mut history: Vec<Vec<Point>> = Vec::new();
        let mut i: usize = 0;
        while i < n
            invariant
                i <= n,
                1 <= n <= COUNT_LIMIT,
                0 <= radius <= POS_LIMIT,
                delta == angle_step(n as int),
                0 <= delta <= TAU_UNITS,
                (n as int) * delta <= TAU_UNITS,
                positions@.len() == i,
                history@.len() == i,
                forall|j: int|
                    0 <= j < i ==> #[trigger] positions@[j] == initial_position(
                        n as int,
                        radius as int,
                        j,
                    ),
                forall|j: int|
                    0 <= j < i ==> (#[trigger] history@[j])@ == seq![
                        initial_position(n as int, radius as int, j),
                    ],
                forall|j: int| 0 <= j < i ==> in_box(#[trigger] positions@[j]),
                forall|j: int|
                    0 <= j < i ==> #[trigger] positions@[j] == history@[j]@.last(),
            decreases n - i,
        {
            proof {
                lemma_mul_inequality(i as int, n as int, delta as int);
                assert((i as int) * delta >= 0) by (nonlinear_arith)
                    requires
                        0 <= i,
                        0 <= delta,
                ;
            }
            let angle = (i as i64) * delta;
            let c = cos_units(angle);
            let sn = sin_units(angle);
            proof {
                assert(-(radius as int) * (SCALE as int) <= (radius as int) * (c as int) <= (
                radius as int) * (SCALE as int)) by (nonlinear_arith)
                    requires
                        0 <= radius,
                        -SCALE <= c <= SCALE,
                ;
                assert(-(radius as int) * (SCALE as int) <= (radius as int) * (sn as int) <= (
                radius as int) * (SCALE as int)) by (nonlinear_arith)
                    requires
                        0 <= radius,
                        -SCALE <= sn <= SCALE,
                ;
                lemma_tdiv_bound((radius as int) * (c as int), SCALE as int, radius as int);
                lemma_tdiv_bound((radius as int) * (sn as int), SCALE as int, radius as int);
            }
            let px = mul_div(radius as i128, c as i128, SCALE as i128);
            let py = mul_div(radius as i128, sn as i128, SCALE as i128);
            let p = Point { x: px as i64, y: py as i64 };
            proof {
                assert(p == initial_position(n as int, radius as int, i as int));
            }
            positions.push(p);
            let mut seed: Vec<Point> = Vec::new();
            seed.push(p);
            history.push(seed);
            proof {
                assert(history@[i as int]@ =~= seq![
                    initial_position(n as int, radius as int, i as int),
                ]);
            }
            i = i + 1;
        }
        State { running: false, positions, history }
    }

    /// Advance every body by one timestep toward its cyclic
    /// predecessor, using the predecessor's position at the start of
    /// the step. Stopped bodies neither move nor record history; a
    /// body that coincides with its target skips the step. Returns
    /// whether the simulation is complete (every body stopped), and
    /// clears `running` on completion.
    pub fn step(&mut self, cfg: &Config) -> (complete: bool)
        requires
            well_formed(*old(self)),
            config_well_formed(*cfg),
        ensures
            well_formed(*final(self)),
            final(self).positions@.len() == old(self).positions@.len(),
            complete == all_stopped(old(self).positions@, threshold_units(*cfg)),
            final(self).running == (old(self).running && !complete),
            forall|i: int|
                0 <= i < old(self).positions@.len() ==> #[trigger] final(self).positions@[i]
                    == stepped_position(old(self).positions@, i, threshold_units(*cfg)),
            forall|i: int|
                0 <= i < old(self).positions@.len() ==> (#[trigger] final(self).history@[i])@ == (
                if step_candidate(old(self).positions@, i, threshold_units(*cfg)) is Some {
                    old(self).history@[i]@.push(
                        stepped_position(old(self).positions@, i, threshold_units(*cfg)),
                    )
                } else {
                    old(self).history@[i]@
                }),
    {
        let ghost ps0 = self.positions@;
        let n = self.positions.len();
        proof {
            assert(-((POS_LIMIT as int) * (SCALE as int)) <= (cfg.speed as int) * (
            cfg.timestep as int) <= (POS_LIMIT as int) * (SCALE as int)) by (nonlinear_arith)
                requires
                    -SPEED_LIMIT <= cfg.speed <= SPEED_LIMIT,
                    1 <= cfg.timestep <= TIMESTEP_LIMIT,
                    SPEED_LIMIT == 1_000_000_000_000_000,
                    TIMESTEP_LIMIT == 1_000_000_000,
                    POS_LIMIT == 1_000_000_000_000_000_000,
                    SCALE == 1_000_000,
            ;
            lemma_tdiv_bound(
                (cfg.speed as int) * (cfg.timestep as int),
                SCALE as int,
                POS_LIMIT as int,
            );
        }
        let t = mul_div(cfg.speed as i128, cfg.timestep as i128, SCALE as i128);
        let mut moved: Vec<Option<Point>> = Vec::new();
        let mut complete = true;
        let mut i: usize = 0;
        while i < n
            invariant
                i <= n,
                n == ps0.len(),
                self.positions@ == ps0,
                self.history@ == old(self).history@,
                self.running == old(self).running,
                well_formed(*self),
                config_well_formed(*cfg),
                t == threshold_units(*cfg),
                -POS_LIMIT <= t <= POS_LIMIT,
                moved@.len() == i,
                forall|j: int| 0 <= j < i ==> #[trigger] moved@[j] == step_candidate(
                    ps0,
                    j,
                    t as int,
                ),
                complete == (forall|j: int| 0 <= j < i ==> is_stopped(#[trigger] ps0[j], t as int)),
            decreases n - i,
        {
            let p = self.positions[i];
            let pred_i = if i > 0 {
                i - 1
            } else {
                n - 1
            };
            let q = self.positions[pred_i];
            let px = p.x as i128;
            let py = p.y as i128;
            proof {
                assert(0 <= px * px <= 1_000_000_000_000_000_000_000_000_000_000_000_000
                    && 0 <= py * py <= 1_000_000_000_000_000_000_000_000_000_000_000_000
                    && 0 <= t * t <= 1_000_000_000_000_000_000_000_000_000_000_000_000)
                    by (nonlinear_arith)
                    requires
                        -1_000_000_000_000_000_000 <= px <= 1_000_000_000_000_000_000,
                        -1_000_000_000_000_000_000 <= py <= 1_000_000_000_000_000_000,
                        -1_000_000_000_000_000_000 <= t <= 1_000_000_000_000_000_000,
                ;
            }
            let sq = px * px + py * py;
            let stopped = t > 0 && sq < t * t;
            if stopped {
                moved.push(None);
                proof {
                    assert(moved@[i as int] == step_candidate(ps0, i as int, t as int));
                }
            } else {
                complete = false;
                let dx = (q.x as i128) - (p.x as i128);
                let dy = (q.y as i128) - (p.y as i128);
                if dx == 0 && dy == 0 {
                    moved.push(None);
                } else {
                    proof {
                        assert(0 <= dx * dx <= 4_000_000_000_000_000_000_000_000_000_000_000_000
                            && 0 <= dy * dy <= 4_000_000_000_000_000_000_000_000_000_000_000_000
                            && dx * dx + dy * dy >= 1) by (nonlinear_arith)
                            requires
                                -2_000_000_000_000_000_000 <= dx <= 2_000_000_000_000_000_000,
                                -2_000_000_000_000_000_000 <= dy <= 2_000_000_000_000_000_000,
                                dx != 0 || dy != 0,
                        ;
                    }
                    let d2 = dx * dx + dy * dy;
                    let len_u = isqrt(d2 as u128);
                    proof {
                        assert(len_u >= 1) by (nonlinear_arith)
                            requires
                                len_u * len_u <= d2 as u128,
                                d2 as u128 >= 1,
                                (d2 as u128) < (len_u + 1) * (len_u + 1),
                        ;
                        assert(len_u <= 3_000_000_000_000_000_000) by (nonlinear_arith)
                            requires
                                len_u * len_u <= d2 as u128,
                                d2 as u128 <= 8_000_000_000_000_000_000_000_000_000_000_000_000u128,
                        ;
                        assert(-4_000_000_000_000_000_000_000_000_000_000_000_000 <= dx * t
                            <= 4_000_000_000_000_000_000_000_000_000_000_000_000
                            && -4_000_000_000_000_000_000_000_000_000_000_000_000 <= dy * t
                            <= 4_000_000_000_000_000_000_000_000_000_000_000_000) by (nonlinear_arith)
                            requires
                                -2_000_000_000_000_000_000 <= dx <= 2_000_000_000_000_000_000,
                                -2_000_000_000_000_000_000 <= dy <= 2_000_000_000_000_000_000,
                                -1_000_000_000_000_000_000 <= t <= 1_000_000_000_000_000_000,
                        ;
                    }
                    let len = len_u as i128;
                    let mx = mul_div(dx, t, len);
                    let my = mul_div(dy, t, len);
                    proof {
                        lemma_tdiv_shrinks(dx * t, len as int);
                        lemma_tdiv_shrinks(dy * t, len as int);
                    }
                    let nx = px + mx;
                    let ny = py + my;
                    if -(POS_LIMIT as i128) <= nx && nx <= (POS_LIMIT as i128) && -(
                    POS_LIMIT as i128) <= ny && ny <= (POS_LIMIT as i128) {
                        moved.push(Some(Point { x: nx as i64, y: ny as i64 }));
                    } else {
                        moved.push(None);
                    }
                    proof {
                        assert(moved@[i as int] == step_candidate(ps0, i as int, t as int));
                    }
                }
            }
            i = i + 1;
        }
        let mut k: usize = 0;
        while k < n
            invariant
                k <= n,
                n == ps0.len(),
                old(self).positions@ == ps0,
                well_formed(*old(self)),
                moved@.len() == n,
                forall|j: int| 0 <= j < n ==> #[trigger] moved@[j] == step_candidate(
                    ps0,
                    j,
                    t as int,
                ),
                self.positions@.len() == n,
                self.history@.len() == n,
                self.running == old(self).running,
                forall|j: int| k <= j < n ==> #[trigger] self.positions@[j] == ps0[j],
                forall|j: int| k <= j < n ==> #[trigger] self.history@[j] == old(self).history@[j],
                forall|j: int|
                    0 <= j < k ==> #[trigger] self.positions@[j] == stepped_position(
                        ps0,
                        j,
                        t as int,
                    ),
                forall|j: int|
                    0 <= j < k ==> (#[trigger] self.history@[j])@ == (if step_candidate(
                        ps0,
                        j,
                        t as int,
                    ) is Some {
                        old(self).history@[j]@.push(stepped_position(ps0, j, t as int))
                    } else {
                        old(self).history@[j]@
                    }),
                forall|j: int| 0 <= j < n ==> (#[trigger] self.history@[j])@.len() >= 1,
                forall|j: int|
                    0 <= j < n ==> #[trigger] self.positions@[j] == self.history@[j]@.last(),
                forall|j: int| 0 <= j < n ==> in_box(#[trigger] self.positions@[j]),
            decreases n - k,
        {
            let step_to = moved[k];
            match step_to {
                Some(c) => {
                    self.history[k].push(c);
                    self.positions[k] = c;
                },
                None => {},
            }
            k = k + 1;
        }
        if complete {
            self.running = false;
        }
        complete
    }

    /// Compute the whole logarithmic-spiral trajectory of every body
    /// analytically, replacing each body's history with its sampled
    /// spiral and moving each body to its last sample. Rejected, with
    /// the state untouched, when the speed is not positive, when fewer
    /// than two bodies are configured, or when the inward speed rounds
    /// to zero; a body whose track would be empty keeps its current
    /// position as the single history entry.
    #[verifier::rlimit(100)]
    pub fn solve(&mut self, cfg: &Config) -> (r: Result<(), SolveError>)
        requires
            well_formed(*old(self)),
            config_well_formed(*cfg),
            old(self).positions@.len() == cfg.body_count,
        ensures
            well_formed(*final(self)),
            final(self).positions@.len() == cfg.body_count,
            cfg.speed <= 0 ==> r == Err::<(), SolveError>(SolveError::InvalidSpeed) && *final(self)
                == *old(self),
            cfg.speed > 0 && !solve_accepted(*cfg) ==> r == Err::<(), SolveError>(
                SolveError::DegenerateGeometry,
            ) && *final(self) == *old(self),
            solve_accepted(*cfg) ==> {
                &&& r == Ok::<(), SolveError>(())
                &&& final(self).running == old(self).running
                &&& forall|i: int|
                    0 <= i < cfg.body_count ==> (#[trigger] final(self).history@[i])@ == (
                    if sample_count(*cfg) >= 1 {
                        solve_track(*cfg, i)
                    } else {
                        seq![old(self).positions@[i]]
                    })
                &&& forall|i: int|
                    0 <= i < cfg.body_count ==> #[trigger] final(self).positions@[i]
                        == final(self).history@[i]@.last()
            },
    {
        if cfg.speed <= 0 {
            return Err(SolveError::InvalidSpeed);
        }
        if cfg.body_count < 2 {
            return Err(SolveError::DegenerateGeometry);
        }
        let n = cfg.body_count;
        let beta = HALF_PI_UNITS - (((PI_UNITS as u64) / (n as u64)) as i64);
        proof {
            lemma_div_is_ordered_by_denominator(PI_UNITS as int, 2, n as int);
            lemma_tdiv_pos(PI_UNITS as int, n as int);
            assert(PI_UNITS as int / 2 == HALF_PI_UNITS as int);
            assert(beta == beta_units(n as int));
            assert(0 <= beta <= TAU_UNITS);
            assert(-((SPEED_LIMIT as int) * (SCALE as int)) <= (cfg.speed as int) * (
            cos_units_spec(beta as int)) <= (SPEED_LIMIT as int) * (SCALE as int))
                by (nonlinear_arith)
                requires
                    0 < cfg.speed <= SPEED_LIMIT,
                    -SCALE <= cos_units_spec(beta as int) <= SCALE,
            ;
            assert(-((SPEED_LIMIT as int) * (SCALE as int)) <= (cfg.speed as int) * (
            sin_units_spec(beta as int)) <= (SPEED_LIMIT as int) * (SCALE as int))
                by (nonlinear_arith)
                requires
                    0 < cfg.speed <= SPEED_LIMIT,
                    -SCALE <= sin_units_spec(beta as int) <= SCALE,
            ;
            assert((cfg.speed as int) * (SCALE as int) <= (SPEED_LIMIT as int) * (SCALE as int))
                by (nonlinear_arith)
                requires
                    0 < cfg.speed <= SPEED_LIMIT,
                    SCALE >= 1,
            ;
        }
        let c = cos_units(beta);
        let sn = sin_units(beta);
        proof {
            assert(-(cfg.speed as int) * (SCALE as int) <= (cfg.speed as int) * (c as int) <= (
            cfg.speed as int) * (SCALE as int)) by (nonlinear_arith)
                requires
                    0 < cfg.speed,
                    -SCALE <= c <= SCALE,
            ;
            assert(-(cfg.speed as int) * (SCALE as int) <= (cfg.speed as int) * (sn as int) <= (
            cfg.speed as int) * (SCALE as int)) by (nonlinear_arith)
                requires
                    0 < cfg.speed,
                    -SCALE <= sn <= SCALE,
            ;
            lemma_tdiv_bound((cfg.speed as int) * (c as int), SCALE as int, cfg.speed as int);
            lemma_tdiv_bound((cfg.speed as int) * (sn as int), SCALE as int, cfg.speed as int);
        }
        let w = mul_div(cfg.speed as i128, c as i128, SCALE as i128);
        if w <= 0 {
            return Err(SolveError::DegenerateGeometry);
        }
        let tang = mul_div(cfg.speed as i128, sn as i128, SCALE as i128);
        proof {
            assert(0 <= (cfg.radius as int) * (SCALE as int)
                <= 1_000_000_000_000_000_000_000_000) by (nonlinear_arith)
                requires
                    0 <= cfg.radius <= POS_LIMIT,
                    POS_LIMIT == 1_000_000_000_000_000_000,
                    SCALE == 1_000_000,
            ;
            lemma_tdiv_pos((cfg.radius as int) * (SCALE as int), w as int);
            lemma_tdiv_shrinks((cfg.radius as int) * (SCALE as int), w as int);
            assert(-(1_000_000_000_000_000_000_000_int) <= (tang as int) * (SCALE as int) <= (
            1_000_000_000_000_000_000_000_int)) by (nonlinear_arith)
                requires
                    -1_000_000_000_000_000 <= tang <= 1_000_000_000_000_000,
                    SCALE == 1_000_000,
            ;
            lemma_tdiv_shrinks((tang as int) * (SCALE as int), w as int);
        }
        let total = mul_div(cfg.radius as i128, SCALE as i128, w);
        let ratio = mul_div(tang, SCALE as i128, w);
        let dt = cfg.timestep as i128;
        let count = mul_div(total + dt - 1, 1, dt);
        let ln_r: i64 = if cfg.radius >= 1 {
            ln_units(cfg.radius)
        } else {
            0
        };
        let delta = ((TAU_UNITS as u64) / (n as u64)) as i64;
        proof {
            lemma_tdiv_pos(TAU_UNITS as int, n as int);
            assert(delta == angle_step(n as int));
        }
        let ghost w_total_bound = (cfg.radius as int) * (SCALE as int);
        let mut new_history: Vec<Vec<Point>> = Vec::new();
        let mut i: usize = 0;
        while i < n
            invariant
                i <= n,
                n == cfg.body_count,
                config_well_formed(*cfg),
                cfg.speed > 0,
                *self == *old(self),
                well_formed(*self),
                self.positions@.len() == n,
                1 <= w <= SPEED_LIMIT,
                w == inward_units(*cfg),
                tang == tangential_units(*cfg),
                total == total_time_units(*cfg),
                0 <= total,
                (w as int) * (total as int) <= w_total_bound,
                w_total_bound == (cfg.radius as int) * (SCALE as int),
                ratio == spiral_ratio(*cfg),
                -1_000_000_000_000_000_000_000 <= ratio <= 1_000_000_000_000_000_000_000,
                dt == cfg.timestep,
                count == sample_count(*cfg),
                cfg.radius >= 1 ==> ln_r == ln_units_spec(cfg.radius as int),
                -15_000_000 <= ln_r <= 33_000_000,
                delta == angle_step(n as int),
                0 <= delta <= TAU_UNITS,
                (n as int) * delta <= TAU_UNITS,
                new_history@.len() == i,
                forall|j: int|
                    0 <= j < i ==> (#[trigger] new_history@[j])@ == (if sample_count(*cfg) >= 1 {
                        solve_track(*cfg, j)
                    } else {
                        seq![old(self).positions@[j]]
                    }),
                forall|j: int| 0 <= j < i ==> (#[trigger] new_history@[j])@.len() >= 1,
                forall|j: int| 0 <= j < i ==> in_box((#[trigger] new_history@[j])@.last()),
            decreases n - i,
        {
            proof {
                lemma_mul_inequality(i as int, n as int, delta as int);
                assert((i as int) * delta >= 0) by (nonlinear_arith)
                    requires
                        0 <= i,
                        0 <= delta,
                ;
            }
            let theta0 = (i as i64) * delta;
            let mut track: Vec<Point> = Vec::new();
            let mut t: i128 = 0;
            while t < total
                invariant
                    config_well_formed(*cfg),
                    n == cfg.body_count,
                    i < n,
                    1 <= w <= SPEED_LIMIT,
                    w == inward_units(*cfg),
                    total == total_time_units(*cfg),
                    (w as int) * (total as int) <= w_total_bound,
                    w_total_bound == (cfg.radius as int) * (SCALE as int),
                    ratio == spiral_ratio(*cfg),
                    -1_000_000_000_000_000_000_000 <= ratio <= 1_000_000_000_000_000_000_000,
                    dt == cfg.timestep,
                    cfg.radius >= 1 ==> ln_r == ln_units_spec(cfg.radius as int),
                    -15_000_000 <= ln_r <= 33_000_000,
                    theta0 == initial_angle(n as int, i as int),
                    0 <= theta0 <= TAU_UNITS,
                    0 <= t,
                    t == (track@.len() as int) * (dt as int),
                    t < total + dt,
                    forall|jj: int|
                        0 <= jj < track@.len() ==> #[trigger] track@[jj] == sample_point(
                            *cfg,
                            i as int,
                            jj * (dt as int),
                        ),
                    forall|jj: int| 0 <= jj < track@.len() ==> in_box(#[trigger] track@[jj]),
                decreases total + dt - t,
            {
                proof {
                    // t < total and w >= 1 give w * t <= radius * SCALE - w,
                    // so the sampled radius stays at least 1.
                    lemma_mul_left_inequality(w as int, t as int, (total as int) - 1);
                    assert((w as int) * ((total as int) - 1) == (w as int) * (total as int) - (
                    w as int)) by (nonlinear_arith);
                    assert((w as int) * (t as int) >= 0) by (nonlinear_arith)
                        requires
                            w >= 1,
                            t >= 0,
                    ;
                    lemma_tdiv_pos((w as int) * (t as int), SCALE as int);
                    lemma_tdiv_shrinks((w as int) * (t as int), SCALE as int);
                    lemma_tdiv_ordered(
                        (w as int) * (t as int),
                        w_total_bound - 1,
                        SCALE as int,
                    );
                    assert((w_total_bound - 1) / (SCALE as int) == (cfg.radius as int) - 1
                        + ((SCALE as int) - 1) / (SCALE as int)) by {
                        lemma_fundamental_div_mod_converse(
                            w_total_bound - 1,
                            SCALE as int,
                            (cfg.radius as int) - 1,
                            (SCALE as int) - 1,
                        );
                        assert(w_total_bound - 1 == ((cfg.radius as int) - 1) * (SCALE as int) + (
                        (SCALE as int) - 1)) by (nonlinear_arith)
                            requires
                                w_total_bound == (cfg.radius as int) * (SCALE as int),
                                SCALE == 1_000_000,
                        ;
                        lemma_basic_div((SCALE as int) - 1, SCALE as int);
                    }
                }
                let wt = mul_div(w, t, SCALE as i128);
                let r_t = (cfg.radius as i128) - wt;
                let lnr_t = ln_units(r_t as i64);
                let dln = (lnr_t as i128) - (ln_r as i128);
                proof {
                    assert(-50_000_000_000_000_000_000_000_000_000 <= (ratio as int) * (
                    dln as int) <= 50_000_000_000_000_000_000_000_000_000) by (nonlinear_arith)
                        requires
                            -1_000_000_000_000_000_000_000 <= ratio
                                <= 1_000_000_000_000_000_000_000,
                            -50_000_000 <= dln <= 50_000_000,
                    ;
                    lemma_tdiv_shrinks((ratio as int) * (dln as int), SCALE as int);
                }
                let dtheta = mul_div(ratio, dln, SCALE as i128);
                let ang = norm_angle((theta0 as i128) + dtheta);
                let cc = cos_units(ang);
                let ss = sin_units(ang);
                proof {
                    assert(-(r_t as int) * (SCALE as int) <= (r_t as int) * (cc as int) <= (
                    r_t as int) * (SCALE as int)) by (nonlinear_arith)
                        requires
                            r_t >= 0,
                            -SCALE <= cc <= SCALE,
                    ;
                    assert(-(r_t as int) * (SCALE as int) <= (r_t as int) * (ss as int) <= (
                    r_t as int) * (SCALE as int)) by (nonlinear_arith)
                        requires
                            r_t >= 0,
                            -SCALE <= ss <= SCALE,
                    ;
                    lemma_tdiv_bound((r_t as int) * (cc as int), SCALE as int, r_t as int);
                    lemma_tdiv_bound((r_t as int) * (ss as int), SCALE as int, r_t as int);
                }
                let sx = mul_div(r_t, cc as i128, SCALE as i128);
                let sy = mul_div(r_t, ss as i128, SCALE as i128);
                let sp = Point { x: sx as i64, y: sy as i64 };
                proof {
                    assert(r_t as int == sample_radius(*cfg, t as int));
                    assert(ang as int == sample_angle(*cfg, i as int, t as int));
                    assert(sp == sample_point(*cfg, i as int, t as int));
                }
                track.push(sp);
                proof {
                    lemma_mul_is_distributive_add_other_way(
                        dt as int,
                        (track@.len() as int) - 1,
                        1,
                    );
                }
                t = t + dt;
            }
            proof {
                // The loop sampled exactly ceil(total / dt) instants.
                let len = track@.len() as int;
                if total >= 1 {
                    assert(len >= 1);
                    assert((len - 1) * (dt as int) == len * (dt as int) - (dt as int))
                        by (nonlinear_arith);
                    assert((len - 1) * (dt as int) < total as int);
                    assert(total as int <= len * (dt as int));
                    lemma_fundamental_div_mod_converse(
                        (total as int) + (dt as int) - 1,
                        dt as int,
                        len,
                        (total as int) + (dt as int) - 1 - len * (dt as int),
                    );
                    assert(count == len);
                    assert(track@ =~= solve_track(*cfg, i as int));
                } else {
                    if len >= 1 {
                        lemma_mul_inequality(1, len, dt as int);
                        assert(false);
                    }
                    assert(len == 0);
                    lemma_basic_div((dt as int) - 1, dt as int);
                    assert(count == 0);
                }
            }
            if track.len() == 0 {
                let seed = self.positions[i];
                track.push(seed);
                proof {
                    assert(track@ =~= seq![old(self).positions@[i as int]]);
                }
            }
            new_history.push(track);
            i = i + 1;
        }
        self.history = new_history;
        let mut k: usize = 0;
        while k < n
            invariant
                k <= n,
                n == cfg.body_count,
                self.positions@.len() == n,
                self.history@.len() == n,
                self.running == old(self).running,
                old(self).positions@.len() == n,
                forall|j: int| 0 <= j < n ==> (#[trigger] self.history@[j])@.len() >= 1,
                forall|j: int|
                    0 <= j < n ==> (#[trigger] self.history@[j])@ == (if sample_count(*cfg) >= 1 {
                        solve_track(*cfg, j)
                    } else {
                        seq![old(self).positions@[j]]
                    }),
                forall|j: int| 0 <= j < n ==> in_box((#[trigger] self.history@[j])@.last()),
                forall|j: int|
                    0 <= j < k ==> #[trigger] self.positions@[j] == self.history@[j]@.last(),
                forall|j: int| 0 <= j < k ==> in_box(#[trigger] self.positions@[j]),
                forall|j: int| k <= j < n ==> #[trigger] self.positions@[j] == old(
                    self,
                ).positions@[j],
                forall|j: int| k <= j < n ==> in_box(#[trigger] self.positions@[j]),
            decreases n - k,
        {
            let hlen = self.history[k].len();
            let last = self.history[k][hlen - 1];
            self.positions[k] = last;
            k = k + 1;
        }
        Ok(())
    }

    /// Whether this state satisfies the engine invariant; lets an
    /// unverified driver test a state before handing it to the engine.
    pub fn check_well_formed(&self) -> (b: bool)
        ensures
            b == well_formed(*self),
    {
        if self.positions.len() != self.history.len() {
            return false;
        }
        let n = self.positions.len();
        let mut i: usize = 0;
        while i < n
            invariant
                i <= n,
                n == self.positions@.len(),
                n == self.history@.len(),
                forall|j: int| 0 <= j < i ==> (#[trigger] self.history@[j])@.len() >= 1,
                forall|j: int|
                    0 <= j < i ==> #[trigger] self.positions@[j] == self.history@[j]@.last(),
                forall|j: int| 0 <= j < i ==> in_box(#[trigger] self.positions@[j]),
            decreases n - i,
        {
            let hlen = self.history[i].len();
            if hlen == 0 {
                return false;
            }
            let last = self.history[i][hlen - 1];
            let p = self.positions[i];
            if p.x != last.x || p.y != last.y {
                return false;
            }
            if p.x < -POS_LIMIT || p.x > POS_LIMIT || p.y < -POS_LIMIT || p.y > POS_LIMIT {
                return false;
            }
            i = i + 1;
        }
        true
    }

    /// One edge of the starting polygon: the segment between body
    /// `i`'s first recorded position and its predecessor's first
    /// recorded position.
    pub fn initial_polygon_edge(&self, i: usize) -> (e: (Point, Point))
        requires
            well_formed(*self),
            i < self.history@.len(),
        ensures
            e.0 == self.history@[i as int]@[0],
            e.1 == self.history@[predecessor(i as int, self.history@.len() as int)]@[0],
    {
        let j = if i > 0 {
            i - 1
        } else {
            self.history.len() - 1
        };
        (self.history[i][0], self.history[j][0])
    }
}

/// Whether a configuration lies within the accepted ranges.
pub fn check_config(cfg: &Config) -> (b: bool)
    ensures
        b == config_well_formed(*cfg),
{
    cfg.body_count >= 1 && cfg.body_count <= COUNT_LIMIT && cfg.radius >= 0 && cfg.radius
        <= POS_LIMIT && cfg.speed >= -SPEED_LIMIT && cfg.speed <= SPEED_LIMIT && cfg.timestep >= 1
        && cfg.timestep <= TIMESTEP_LIMIT
}

/// Re-initialization is deterministic: two states placed from the same
/// body count and radius hold identical positions and identical
/// single-entry histories, so repeating it changes nothing.
pub proof fn lemma_reinitialise_deterministic(s1: State, s2: State, n: int, r: int)
    requires
        is_initial(s1, n, r),
        is_initial(s2, n, r),
    ensures
        s1.positions@ == s2.positions@,
        s1.history@.len() == s2.history@.len(),
        forall|i: int| 0 <= i < n ==> (#[trigger] s1.history@[i])@ == s2.history@[i]@,
{
    assert(s1.positions@ =~= s2.positions@);
}

/// Rotational symmetry of the start: each body stands exactly one
/// angle step (one `n`-th of a turn) past its predecessor, on the same
/// circle, so the starting layout is carried to itself by that
/// rotation in the angle argument of the polar placement.
pub proof fn lemma_initial_rotation(n: int, r: int, i: int)
    requires
        1 <= n,
        0 <= i,
        i + 1 < n,
    ensures
        initial_angle(n, i + 1) == initial_angle(n, i) + angle_step(n),
        initial_position(n, r, i + 1) == polar_point(r, initial_angle(n, i) + angle_step(n)),
{
    assert((i + 1) * angle_step(n) == i * angle_step(n) + angle_step(n)) by (nonlinear_arith);
}

/// Completion is absorbing: once every body is stopped, a step moves
/// no body and appends nothing, so repeated stepping cannot run
/// forever past completion.
pub proof fn lemma_complete_is_stable(ps: Seq<Point>, t: int)
    requires
        all_stopped(ps, t),
    ensures
        forall|i: int| 0 <= i < ps.len() ==> #[trigger] step_candidate(ps, i, t) is None,
        forall|i: int| 0 <= i < ps.len() ==> #[trigger] stepped_position(ps, i, t) == ps[i],
{
}

/// The first closed-form sample of every body is exactly its starting
/// position on the circle: at time zero the sampled radius is the
/// start radius and the spiral's log term vanishes.
pub proof fn lemma_first_sample_is_start(cfg: Config, i: int)
    requires
        config_well_formed(cfg),
        solve_accepted(cfg),
        0 <= i < cfg.body_count,
        sample_count(cfg) >= 1,
    ensures
        solve_track(cfg, i)[0] == initial_position(cfg.body_count as int, cfg.radius as int, i),
{
    let n = cfg.body_count as int;
    let d = angle_step(n);
    vstd::arithmetic::div_mod::lemma_div_of0(SCALE as int);
    vstd::arithmetic::div_mod::lemma_div_of0(inward_units(cfg));
    assert(sample_radius(cfg, 0) == cfg.radius);
    lemma_div_is_ordered_by_denominator(TAU_UNITS as int, n, COUNT_LIMIT as int);
    assert(TAU_UNITS as int / (COUNT_LIMIT as int) == 6);
    lemma_tdiv_pos(TAU_UNITS as int, n);
    lemma_mul_inequality(i, n - 1, d);
    assert((n - 1) * d == n * d - d) by (nonlinear_arith);
    assert(i * d >= 0) by (nonlinear_arith)
        requires
            i >= 0,
            d >= 0,
    ;
    assert(0 <= initial_angle(n, i) < TAU_UNITS);
    vstd::arithmetic::div_mod::lemma_small_mod(
        initial_angle(n, i) as nat,
        TAU_UNITS as nat,
    );
    assert(norm_angle_spec(initial_angle(n, i)) == initial_angle(n, i));
    assert(ln_units_spec(sample_radius(cfg, 0)) - ln_units_spec(cfg.radius as int) == 0);
    assert(spiral_ratio(cfg) * (ln_units_spec(sample_radius(cfg, 0)) - ln_units_spec(
        cfg.radius as int,
    )) == 0) by (nonlinear_arith)
        requires
            ln_units_spec(sample_radius(cfg, 0)) - ln_units_spec(cfg.radius as int) == 0,
    ;
    assert(tdiv(0, SCALE as int) == 0);
    assert(sample_angle(cfg, i, 0) == norm_angle_spec(initial_angle(n, i)));
    assert(solve_track(cfg, i)[0] == sample_point(cfg, i, 0));
}

} // verus!
