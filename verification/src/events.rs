//! Radial impulses and what one of them does to a dot.

use vstd::prelude::*;
use crate::fixed::{clamp, in_range, lemma_quot_bounds, quot, saturate, scaled, SCALE};
use crate::vec2d::Vec2d;

verus! {

/// The radius of the impulse that a detonating dot sends out (10).
pub const EXPLOSION_RADIUS: i64 = 10_000;

/// The speed that an impulse adds to a dot at its very centre (50).
pub const MAX_IMPULSE: i64 = 50_000;

/// The value the fraction `factor` of the way from `min` to `max`.
pub open spec fn interpolated(min: int, max: int, factor: int) -> int {
    clamp(min + scaled(max - min, factor, SCALE as int))
}

/// How much of an impulse of radius `radius` is left at `distance` from its
/// centre: the square of `1 - distance / radius`, rounded down.
pub open spec fn falloff(distance: int, radius: int) -> int {
    quot((radius - distance) * (radius - distance) * SCALE, radius * radius)
}

/// Inside the radius the falloff is a fraction of one, and it is one whole at
/// the centre.
pub proof fn lemma_falloff(distance: int, radius: int)
    requires
        0 <= distance < radius,
    ensures
        0 <= falloff(distance, radius) <= SCALE,
        falloff(0, radius) == SCALE,
{
    let gap = radius - distance;
    let square = radius * radius;
    assert(0 < square) by (nonlinear_arith)
        requires
            square == radius * radius,
            radius > 0,
    ;
    assert(0 <= gap * gap * SCALE <= square * SCALE) by (nonlinear_arith)
        requires
            0 < gap <= radius,
            square == radius * radius,
            SCALE == 1000,
    ;
    lemma_quot_bounds(gap * gap * SCALE, square);
    let q = quot(gap * gap * SCALE, square);
    assert(q <= SCALE) by (nonlinear_arith)
        requires
            q * square <= gap * gap * SCALE,
            gap * gap * SCALE <= square * SCALE,
            square > 0,
    ;
    lemma_quot_bounds(square * SCALE, square);
    let whole = quot(square * SCALE, square);
    assert(whole == SCALE) by (nonlinear_arith)
        requires
            whole * square <= square * SCALE < (whole + 1) * square,
            square > 0,
    ;
    assert((radius - 0) * (radius - 0) * SCALE == square * SCALE);
}

/// Computes the value the fraction `factor` of the way from `min` to `max`.
pub fn interpolate(min: i64, max: i64, factor: i64) -> (r: i64)
    ensures
        r == interpolated(min as int, max as int, factor as int),
{
    assert(-0xffff_ffff_ffff_ffff * 0x8000_0000_0000_0000 <= (max - min) * factor
        <= 0xffff_ffff_ffff_ffff * 0x8000_0000_0000_0000) by (nonlinear_arith)
        requires
            -0xffff_ffff_ffff_ffff <= max - min <= 0xffff_ffff_ffff_ffff,
            -0x8000_0000_0000_0000 <= factor <= 0x8000_0000_0000_0000,
    ;
    let product: i128 = (max as i128 - min as i128) * (factor as i128);
    saturate(min as i128 + saturate(product / (SCALE as i128)) as i128)
}

/// A radial impulse: every dot closer to `position` than `radius` is pushed
/// away from it.
#[derive(Clone, Copy, Debug, PartialEq, Eq, Structural)]
pub struct ForceEvent {
    pub position: Vec2d,
    pub radius: i64,
}

impl ForceEvent {
    /// Every scalar of the event is storable.
    pub open spec fn wf(self) -> bool {
        self.position.wf() && in_range(self.radius as int)
    }

    /// The corner of the bounding square with the smallest coordinates.
    pub open spec fn top_left(self) -> Vec2d {
        self.position.minus(Vec2d { x: self.radius, y: self.radius })
    }

    /// The corner of the bounding square with the largest coordinates.
    pub open spec fn bottom_right(self) -> Vec2d {
        self.position.plus(Vec2d { x: self.radius, y: self.radius })
    }

    /// The way from the centre to `point`.
    pub open spec fn offset(self, point: Vec2d) -> Vec2d {
        point.minus(self.position)
    }

    /// How far `point` lies from the centre.
    pub open spec fn distance(self, point: Vec2d) -> int {
        self.offset(point).norm()
    }

    /// Whether the impulse reaches a dot at `point`: the dot lies closer to
    /// the centre than the radius.
    pub open spec fn reaches(self, point: Vec2d) -> bool {
        self.distance(point) < self.radius
    }

    /// The direction of length one in which a dot at `point` is pushed: away
    /// from the centre, and along the first axis where it sits on the centre.
    pub open spec fn direction(self, point: Vec2d) -> Vec2d {
        if self.distance(point) == 0 {
            Vec2d { x: SCALE, y: 0 }
        } else {
            self.offset(point).scaled_to(SCALE as int)
        }
    }

    /// The velocity that the impulse adds to a dot at `point` that it reaches:
    /// `MAX_IMPULSE` at the centre, falling off with the square of the
    /// remaining share of the radius.
    pub open spec fn push(self, point: Vec2d) -> Vec2d {
        self.direction(point).times(
            interpolated(0, MAX_IMPULSE as int, falloff(self.distance(point), self.radius as int)),
        )
    }

    /// The velocity of a dot at `point` after the impulse, given its velocity
    /// `dir` before.
    pub open spec fn velocity_after(self, point: Vec2d, dir: Vec2d) -> Vec2d {
        if self.reaches(point) {
            dir.plus(self.push(point))
        } else {
            dir
        }
    }

    /// A dot that the impulse reaches lies inside its bounding square.
    pub proof fn lemma_reach_within_bounds(self, point: Vec2d)
        requires
            self.wf(),
            point.wf(),
            self.reaches(point),
        ensures
            self.top_left().x <= point.x <= self.bottom_right().x,
            self.top_left().y <= point.y <= self.bottom_right().y,
    {
        self.offset(point).lemma_norm_covers_components();
    }

    /// The two corners of the bounding square, the smaller first.
    pub fn bounds(&self) -> (r: (Vec2d, Vec2d))
        ensures
            r.0 == self.top_left(),
            r.1 == self.bottom_right(),
    {
        let reach = Vec2d { x: self.radius, y: self.radius };
        (self.position - reach, self.position + reach)
    }

    /// The velocity that the impulse adds to a dot at `position`, or nothing
    /// where it does not reach the dot.
    pub fn impulse_on(&self, position: Vec2d) -> (r: Option<Vec2d>)
        requires
            self.wf(),
            position.wf(),
        ensures
            r == if self.reaches(position) {
                Some(self.push(position))
            } else {
                None::<Vec2d>
            },
            r is Some ==> r->0.wf(),
    {
        let offset = position - self.position;
        proof {
            offset.lemma_norm_covers_components();
            offset.lemma_norm_bound();
        }
        if (offset.x > self.radius || offset.x < -self.radius) && (offset.y > self.radius
            || offset.y < -self.radius) {
            return None;
        }
        let dist: i64 = offset.length();
        if dist >= self.radius {
            return None;
        }
        let dir = if dist == 0 {
            Vec2d { x: SCALE, y: 0 }
        } else {
            offset.normalized()
        };
        let gap: i128 = self.radius as i128 - dist as i128;
        assert(0 < self.radius * self.radius <= 1_000_000_000_000_000_000_000_000_000_000 && 0
            < gap * gap <= 1_000_000_000_000_000_000_000_000_000_000) by (nonlinear_arith)
            requires
                0 < gap <= self.radius,
                self.radius <= 1_000_000_000_000_000,
        ;
        assert(gap * gap * SCALE <= 1_000_000_000_000_000_000_000_000_000_000_000)
            by (nonlinear_arith)
            requires
                0 < gap * gap <= 1_000_000_000_000_000_000_000_000_000_000,
                SCALE == 1000,
        ;
        let square: i128 = self.radius as i128 * self.radius as i128;
        let share: i128 = gap * gap * (SCALE as i128) / square;
        proof {
            lemma_falloff(dist as int, self.radius as int);
        }
        let strength: i64 = interpolate(0, MAX_IMPULSE, share as i64);
        Some(dir * strength)
    }
}

} // verus!
