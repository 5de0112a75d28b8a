//! A single particle and its step through time.

use vstd::prelude::*;
use crate::fixed::{clamp, in_range, lemma_quot_bounds, quot, saturate, LIMIT, SCALE};
use crate::vec2d::Vec2d;

verus! {

/// The share of its speed that a moving dot loses per unit of time (0.35).
pub const FRICTION_COEFFICIENT: i64 = 350;

/// The speed that a moving dot loses per unit of time whatever its speed (0.1).
pub const CONSTANT_FRICTION: i64 = 100;

/// The longest time a dot burns before it detonates (10).
pub const MAX_DETONATE_TIME: i64 = 10_000;

/// The shortest time a dot burns before it detonates (3).
pub const MIN_DETONATE_TIME: i64 = 3_000;

/// The time a dot burns when it is lit on the draw `draw`, a fraction of one
/// counted in 2^32ths: that fraction of the way from the shortest time to the
/// longest.
pub open spec fn detonation_time(draw: int) -> int {
    MIN_DETONATE_TIME + quot((MAX_DETONATE_TIME - MIN_DETONATE_TIME) * draw, 0x1_0000_0000)
}

/// Every burning time lies between the shortest and the longest.
pub proof fn lemma_detonation_time(draw: int)
    requires
        0 <= draw < 0x1_0000_0000,
    ensures
        MIN_DETONATE_TIME <= detonation_time(draw) < MAX_DETONATE_TIME,
{
    let span = (MAX_DETONATE_TIME - MIN_DETONATE_TIME) as int;
    lemma_quot_bounds(span * draw, 0x1_0000_0000);
    assert(0 <= span * draw < span * 0x1_0000_0000) by (nonlinear_arith)
        requires
            span == 7000,
            0 <= draw < 0x1_0000_0000,
    ;
    let q = quot(span * draw, 0x1_0000_0000);
    assert(q < span) by (nonlinear_arith)
        requires
            q * 0x1_0000_0000 <= span * draw,
            span * draw < span * 0x1_0000_0000,
    ;
}

/// Whether a dot rests or is burning down towards its detonation.
#[derive(Clone, Copy, Debug, PartialEq, Eq, Structural)]
pub enum State {
    /// No impulse has reached the dot.
    Idle,
    /// The dot detonates once `remaining` has run down to zero; `total` is the
    /// time it was given when it was lit.
    Detonating { remaining: i64, total: i64 },
}

impl State {
    /// Both timers are storable scalars.
    pub open spec fn wf(self) -> bool {
        match self {
            State::Idle => true,
            State::Detonating { remaining, total } => in_range(remaining as int) && in_range(
                total as int,
            ),
        }
    }

    /// The state after `time_delta` has passed: a burning timer runs down, the
    /// rest stays.
    pub open spec fn aged(self, time_delta: int) -> State {
        match self {
            State::Idle => State::Idle,
            State::Detonating { remaining, total } => State::Detonating {
                remaining: clamp(remaining - time_delta) as i64,
                total,
            },
        }
    }

    /// A dot lives while it is idle or its timer is above zero.
    pub open spec fn alive(self) -> bool {
        match self {
            State::Idle => true,
            State::Detonating { remaining, total } => remaining > 0,
        }
    }

    /// The state of a dot that an impulse has reached: a resting dot is lit,
    /// with the time that `draw` gives; a burning dot burns on as before.
    pub open spec fn ignited(self, draw: int) -> State {
        match self {
            State::Idle => State::Detonating {
                remaining: detonation_time(draw) as i64,
                total: detonation_time(draw) as i64,
            },
            State::Detonating { remaining, total } => self,
        }
    }

    /// Lights a resting dot on the draw `draw` and leaves a burning one alone.
    pub fn ignite(self, draw: u32) -> (r: State)
        ensures
            r == self.ignited(draw as int),
            self.wf() ==> r.wf(),
    {
        match self {
            State::Idle => {
                proof {
                    lemma_detonation_time(draw as int);
                    lemma_quot_bounds(
                        (MAX_DETONATE_TIME - MIN_DETONATE_TIME) * draw,
                        0x1_0000_0000,
                    );
                    assert(0 <= (MAX_DETONATE_TIME - MIN_DETONATE_TIME) * draw
                        <= 7000 * 0x1_0000_0000) by (nonlinear_arith)
                        requires
                            MAX_DETONATE_TIME - MIN_DETONATE_TIME == 7000,
                            0 <= draw < 0x1_0000_0000,
                    ;
                }
                let span: u64 = (MAX_DETONATE_TIME - MIN_DETONATE_TIME) as u64;
                let time: i64 = MIN_DETONATE_TIME + (span * (draw as u64) / 0x1_0000_0000) as i64;
                State::Detonating { remaining: time, total: time }
            },
            State::Detonating { remaining, total } => self,
        }
    }

    /// The share of its time that a burning dot has left, in thousandths and
    /// held between none and all of it. A resting dot has all of its time.
    pub open spec fn faded(self) -> int {
        match self {
            State::Idle => SCALE as int,
            State::Detonating { remaining, total } => if remaining <= 0 {
                0
            } else if remaining >= total {
                SCALE as int
            } else {
                quot(remaining * SCALE, total as int)
            },
        }
    }

    /// Computes the share of its time that a dot has left.
    pub fn fade(self) -> (r: i64)
        ensures
            r == self.faded(),
            0 <= r <= SCALE,
    {
        match self {
            State::Idle => SCALE,
            State::Detonating { remaining, total } => {
                if remaining <= 0 {
                    0
                } else if remaining >= total {
                    SCALE
                } else {
                    assert(0 < remaining * SCALE < total * SCALE && total * SCALE
                        <= 0x8000_0000_0000_0000 * 1000) by (nonlinear_arith)
                        requires
                            0 < remaining < total <= 0x8000_0000_0000_0000,
                            SCALE == 1000,
                    ;
                    proof {
                        lemma_quot_bounds(remaining * SCALE, total as int);
                        let share = quot(remaining * SCALE, total as int);
                        assert(share < SCALE) by (nonlinear_arith)
                            requires
                                share * total <= remaining * SCALE,
                                remaining * SCALE < total * SCALE,
                                total > 0,
                        ;
                    }
                    ((remaining as i128) * (SCALE as i128) / (total as i128)) as i64
                }
            },
        }
    }

    /// Tells whether a dot in this state is still part of the field.
    pub fn is_alive(&self) -> (r: bool)
        ensures
            r == self.alive(),
    {
        match self {
            State::Idle => true,
            State::Detonating { remaining, total } => *remaining > 0,
        }
    }
}

/// A coordinate after one pass of the toroidal wrap: one extent is added to a
/// negative coordinate, one taken from a coordinate at or beyond the extent.
pub open spec fn wrapped(coordinate: int, extent: int) -> int {
    if coordinate < 0 {
        clamp(coordinate + extent)
    } else if coordinate >= extent {
        clamp(coordinate - extent)
    } else {
        coordinate
    }
}

/// The speed that friction leaves of `speed` after `time_delta`:
/// `speed * (1 - FRICTION_COEFFICIENT * time_delta) - CONSTANT_FRICTION * time_delta`,
/// rounded toward zero.
pub open spec fn slowed(speed: int, time_delta: int) -> int {
    clamp(
        quot(
            speed * (SCALE * SCALE - FRICTION_COEFFICIENT * time_delta) - CONSTANT_FRICTION
                * time_delta * SCALE,
            SCALE * SCALE,
        ),
    )
}

/// Wraps one coordinate once around an axis of length `extent`.
pub fn wrap(coordinate: i64, extent: i64) -> (r: i64)
    requires
        in_range(coordinate as int),
    ensures
        r == wrapped(coordinate as int, extent as int),
        in_range(r as int),
{
    if coordinate < 0 {
        saturate(coordinate as i128 + extent as i128)
    } else if coordinate >= extent {
        saturate(coordinate as i128 - extent as i128)
    } else {
        coordinate
    }
}

/// Applies friction over `time_delta` to a speed.
pub fn slow_down(speed: i64, time_delta: i64) -> (r: i64)
    requires
        0 <= speed <= 2 * LIMIT,
    ensures
        r == slowed(speed as int, time_delta as int),
{
    assert(-4_000_000_000_000_000_000_000 <= FRICTION_COEFFICIENT * time_delta
        <= 4_000_000_000_000_000_000_000) by (nonlinear_arith)
        requires
            FRICTION_COEFFICIENT == 350,
            -0x8000_0000_0000_0000 <= time_delta <= 0x8000_0000_0000_0000,
    ;
    let keep: i128 = 1_000_000 - (FRICTION_COEFFICIENT as i128) * (time_delta as i128);
    assert(-10_000_000_000_000_000_000_000_000_000_000_000_000 <= speed * keep
        <= 10_000_000_000_000_000_000_000_000_000_000_000_000) by (nonlinear_arith)
        requires
            0 <= speed <= 2_000_000_000_000_000,
            -5_000_000_000_000_000_000_000 <= keep <= 5_000_000_000_000_000_000_000,
    ;
    assert(-1_000_000_000_000_000_000_000_000 <= CONSTANT_FRICTION * time_delta * SCALE
        <= 1_000_000_000_000_000_000_000_000 && CONSTANT_FRICTION * time_delta
        == 100 * time_delta) by (nonlinear_arith)
        requires
            CONSTANT_FRICTION == 100,
            SCALE == 1000,
            -0x8000_0000_0000_0000 <= time_delta <= 0x8000_0000_0000_0000,
    ;
    let drag: i128 = (CONSTANT_FRICTION as i128) * (time_delta as i128) * (SCALE as i128);
    let left: i128 = (speed as i128) * keep - drag;
    assert(SCALE * SCALE == 1_000_000) by (nonlinear_arith)
        requires
            SCALE == 1000,
    ;
    saturate(left / 1_000_000)
}

/// A particle: where it is, how it moves, and whether it burns.
#[derive(Clone, Copy, Debug, PartialEq, Eq, Structural)]
pub struct Dot {
    pub pos: Vec2d,
    pub dir: Vec2d,
    pub state: State,
}

impl Dot {
    /// Every scalar of the dot is storable.
    pub open spec fn wf(self) -> bool {
        self.pos.wf() && self.dir.wf() && self.state.wf()
    }

    /// The dot after one step of `time_delta` over a field of `width` by
    /// `height`.
    ///
    /// The timer of a burning dot runs down in any case. A dot at rest stays
    /// where it is. A moving dot advances by its velocity, is wrapped once
    /// around each axis, and is slowed by friction; where friction leaves no
    /// positive speed it stops dead.
    pub open spec fn stepped(self, time_delta: int, width: int, height: int) -> Dot {
        let state = self.state.aged(time_delta);
        if self.dir.norm() == 0 {
            Dot { pos: self.pos, dir: self.dir, state }
        } else {
            let moved = self.pos.plus(self.dir.times(time_delta));
            let desired_length = slowed(self.dir.norm(), time_delta);
            Dot {
                pos: Vec2d {
                    x: wrapped(moved.x as int, width) as i64,
                    y: wrapped(moved.y as int, height) as i64,
                },
                dir: if desired_length > 0 {
                    self.dir.scaled_to(desired_length)
                } else {
                    Vec2d { x: 0, y: 0 }
                },
                state,
            }
        }
    }

    /// Steps the dot by `time_delta` over a field of `width` by `height`.
    pub fn tick(&self, time_delta: i64, width: i64, height: i64) -> (r: Dot)
        requires
            self.wf(),
        ensures
            r == self.stepped(time_delta as int, width as int, height as int),
            r.wf(),
    {
        proof {
            self.dir.lemma_norm_bound();
        }
        let length = self.dir.length();
        let new_state = match self.state {
            State::Idle => State::Idle,
            State::Detonating { remaining, total } => State::Detonating {
                remaining: saturate(remaining as i128 - time_delta as i128),
                total,
            },
        };
        if length == 0 {
            Dot { pos: self.pos, dir: self.dir, state: new_state }
        } else {
            let moved = self.pos + self.dir * time_delta;
            let pos = Vec2d { x: wrap(moved.x, width), y: wrap(moved.y, height) };
            let desired_length = slow_down(length, time_delta);
            let new_dir = if desired_length > 0 {
                self.dir.with_len(desired_length)
            } else {
                Vec2d { x: 0, y: 0 }
            };
            Dot { pos, dir: new_dir, state: new_state }
        }
    }
}

/// Friction over a time that is not negative never raises a speed, and over a
/// positive time it lowers every positive speed by at least one step.
pub proof fn lemma_slowed_bound(speed: int, time_delta: int)
    requires
        0 <= speed,
        0 <= time_delta,
    ensures
        slowed(speed, time_delta) <= speed,
        speed > 0 && time_delta > 0 ==> slowed(speed, time_delta) < speed,
{
    let whole: int = SCALE * SCALE;
    assert(whole == 1_000_000) by (nonlinear_arith)
        requires
            whole == SCALE * SCALE,
            SCALE == 1000,
    ;
    let left = speed * (whole - FRICTION_COEFFICIENT * time_delta) - CONSTANT_FRICTION
        * time_delta * SCALE;
    assert(left <= speed * whole) by (nonlinear_arith)
        requires
            left == speed * (whole - FRICTION_COEFFICIENT * time_delta) - CONSTANT_FRICTION
                * time_delta * SCALE,
            FRICTION_COEFFICIENT == 350,
            CONSTANT_FRICTION == 100,
            SCALE == 1000,
            0 <= speed,
            0 <= time_delta,
    ;
    assert(time_delta > 0 ==> left < speed * whole) by (nonlinear_arith)
        requires
            left == speed * (whole - FRICTION_COEFFICIENT * time_delta) - CONSTANT_FRICTION
                * time_delta * SCALE,
            FRICTION_COEFFICIENT == 350,
            CONSTANT_FRICTION == 100,
            SCALE == 1000,
            0 <= speed,
            0 <= time_delta,
    ;
    lemma_quot_bounds(left, whole);
    let q = quot(left, whole);
    if left >= 0 {
        assert(q <= speed) by (nonlinear_arith)
            requires
                q * whole <= left,
                left <= speed * whole,
                whole > 0,
        ;
        if time_delta > 0 {
            assert(q < speed) by (nonlinear_arith)
                requires
                    q * whole <= left,
                    left < speed * whole,
                    whole > 0,
            ;
        }
    } else {
        assert(q <= 0) by (nonlinear_arith)
            requires
                q * whole <= 0,
                whole > 0,
        ;
    }
}

impl Dot {
    /// The dot after `count` steps of `time_delta` each.
    pub open spec fn ticked(self, time_delta: int, width: int, height: int, count: nat) -> Dot
        decreases count,
    {
        if count == 0 {
            self
        } else {
            self.ticked(time_delta, width, height, (count - 1) as nat).stepped(
                time_delta,
                width,
                height,
            )
        }
    }

    /// Wraparound closure: a moving dot lies inside the field after a step
    /// exactly when the step carried it less than one extent beyond either
    /// edge, on each axis by itself. Here `moved` is the position before the
    /// wrap; a dot that moved farther out than that stays outside.
    pub proof fn lemma_wraparound_closure(self, time_delta: int, width: int, height: int)
        requires
            self.wf(),
            self.dir.norm() != 0,
        ensures
            ({
                let moved = self.pos.plus(self.dir.times(time_delta));
                let after = self.stepped(time_delta, width, height);
                &&& 0 <= after.pos.x < width <==> -width <= moved.x < 2 * width
                &&& 0 <= after.pos.y < height <==> -height <= moved.y < 2 * height
            }),
    {
    }

    /// One step under friction: over a time that is not negative the speed
    /// does not grow, and over a positive time a moving dot gets slower.
    pub proof fn lemma_friction_step(self, time_delta: int, width: int, height: int)
        requires
            self.wf(),
            0 <= time_delta,
        ensures
            0 <= self.stepped(time_delta, width, height).dir.norm() <= self.dir.norm(),
            time_delta > 0 && self.dir.norm() > 0 ==> self.stepped(
                time_delta,
                width,
                height,
            ).dir.norm() < self.dir.norm(),
    {
        let speed = self.dir.norm();
        self.dir.lemma_norm_bound();
        let after = self.stepped(time_delta, width, height);
        after.dir.lemma_norm_bound();
        if speed != 0 {
            let desired = slowed(speed, time_delta);
            lemma_slowed_bound(speed, time_delta);
            if desired > 0 {
                self.dir.lemma_scaled_norm(desired);
            }
        }
    }

    /// Friction monotonicity: under steps of one positive `time_delta` and no
    /// impulse, the speed never grows from one step to the next, is never
    /// negative, is exactly zero once as many steps have passed as the first
    /// speed counts fixed-point steps, and stays zero from then on.
    pub proof fn lemma_friction_monotone(
        self,
        time_delta: int,
        width: int,
        height: int,
        count: nat,
    )
        requires
            self.wf(),
            0 < time_delta,
        ensures
            self.ticked(time_delta, width, height, count).wf(),
            0 <= self.ticked(time_delta, width, height, count + 1).dir.norm() <= self.ticked(
                time_delta,
                width,
                height,
                count,
            ).dir.norm(),
            self.ticked(time_delta, width, height, count).dir.norm() <= self.dir.norm() - count
                || self.ticked(time_delta, width, height, count).dir.norm() == 0,
            count >= self.dir.norm() ==> self.ticked(time_delta, width, height, count).dir.norm()
                == 0,
            self.ticked(time_delta, width, height, count).dir.norm() == 0 ==> self.ticked(
                time_delta,
                width,
                height,
                count + 1,
            ).dir.norm() == 0,
        decreases count,
    {
        self.dir.lemma_norm_bound();
        if count > 0 {
            self.lemma_friction_monotone(time_delta, width, height, (count - 1) as nat);
            let before = self.ticked(time_delta, width, height, (count - 1) as nat);
            before.lemma_friction_step(time_delta, width, height);
        }
        let now = self.ticked(time_delta, width, height, count);
        now.lemma_friction_step(time_delta, width, height);
        now.dir.lemma_norm_bound();
    }

    /// Detonation lifecycle: a burning dot that is stepped by a `time_delta`
    /// that is not negative keeps the time it was given, and is alive after
    /// `count` steps exactly when the time elapsed, `count * time_delta`, is
    /// still below the time that remained at the start.
    pub proof fn lemma_detonation_lifecycle(
        self,
        time_delta: int,
        width: int,
        height: int,
        count: nat,
    )
        requires
            self.wf(),
            self.state is Detonating,
            0 <= time_delta,
        ensures
            self.ticked(time_delta, width, height, count).state is Detonating,
            self.ticked(time_delta, width, height, count).state->total == self.state->total,
            self.ticked(time_delta, width, height, count).state->remaining == clamp(
                self.state->remaining - count * time_delta,
            ),
            self.ticked(time_delta, width, height, count).state.alive() <==> count * time_delta
                < self.state->remaining,
        decreases count,
    {
        if count > 0 {
            self.lemma_detonation_lifecycle(time_delta, width, height, (count - 1) as nat);
            assert(count * time_delta == (count - 1) * time_delta + time_delta)
                by (nonlinear_arith);
            assert((count - 1) * time_delta >= 0) by (nonlinear_arith)
                requires
                    count >= 1,
                    time_delta >= 0,
            ;
        } else {
            assert(count * time_delta == 0) by (nonlinear_arith)
                requires
                    count == 0,
            ;
        }
    }
}

} // verus!
