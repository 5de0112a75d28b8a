//! Two-dimensional fixed-point vectors.

use vstd::prelude::*;
use crate::fixed::{
    clamp, in_range, integer_root, lemma_quot_bounds, lemma_root_below, lemma_root_exists,
    lemma_root_order, lemma_root_unique, lemma_square_order, quot, root, saturate, scale, scaled,
    LIMIT, SCALE,
};

verus! {

/// A vector in the plane, each component a fixed-point scalar.
#[derive(Clone, Copy, Debug, PartialEq, Eq, Structural)]
pub struct Vec2d {
    pub x: i64,
    pub y: i64,
}

impl Vec2d {
    /// Both components are storable scalars.
    pub open spec fn wf(self) -> bool {
        in_range(self.x as int) && in_range(self.y as int)
    }

    /// The Euclidean length, rounded down to a whole fixed-point step.
    pub open spec fn norm(self) -> int {
        root(self.x * self.x + self.y * self.y)
    }

    /// The componentwise sum, clamped.
    pub open spec fn plus(self, other: Vec2d) -> Vec2d {
        Vec2d { x: clamp(self.x + other.x) as i64, y: clamp(self.y + other.y) as i64 }
    }

    /// The componentwise difference, clamped.
    pub open spec fn minus(self, other: Vec2d) -> Vec2d {
        Vec2d { x: clamp(self.x - other.x) as i64, y: clamp(self.y - other.y) as i64 }
    }

    /// The vector multiplied by a fixed-point scalar.
    pub open spec fn times(self, scalar: int) -> Vec2d {
        Vec2d {
            x: scaled(self.x as int, scalar, SCALE as int) as i64,
            y: scaled(self.y as int, scalar, SCALE as int) as i64,
        }
    }

    /// The vector stretched or shrunk to the length `desired_length`, each
    /// component rounded toward zero.
    pub open spec fn scaled_to(self, desired_length: int) -> Vec2d {
        Vec2d {
            x: scaled(self.x as int, desired_length, self.norm()) as i64,
            y: scaled(self.y as int, desired_length, self.norm()) as i64,
        }
    }

    /// The length of a vector with storable components is below twice the limit.
    pub proof fn lemma_norm_bound(self)
        requires
            self.wf(),
        ensures
            0 <= self.norm() < 2 * LIMIT,
            self.norm() == 0 <==> self.x == 0 && self.y == 0,
    {
        let n = self.x * self.x + self.y * self.y;
        assert(0 <= self.x * self.x <= LIMIT * LIMIT) by (nonlinear_arith)
            requires
                -LIMIT <= self.x <= LIMIT,
        ;
        assert(0 <= self.y * self.y <= LIMIT * LIMIT) by (nonlinear_arith)
            requires
                -LIMIT <= self.y <= LIMIT,
        ;
        let bound: int = 2 * LIMIT;
        assert(bound * bound == 4 * (LIMIT * LIMIT)) by (nonlinear_arith)
            requires
                bound == 2 * LIMIT,
        ;
        assert(LIMIT * LIMIT > 0) by (nonlinear_arith);
        lemma_root_exists(n);
        lemma_root_below(n, bound);
        lemma_root_below(n, 1);
        assert(self.x * self.x == 0 <==> self.x == 0) by (nonlinear_arith);
        assert(self.y * self.y == 0 <==> self.y == 0) by (nonlinear_arith);
    }

    /// A vector is at least as long as each of its components.
    pub proof fn lemma_norm_covers_components(self)
        requires
            self.wf(),
        ensures
            -self.norm() <= self.x <= self.norm(),
            -self.norm() <= self.y <= self.norm(),
    {
        let x = self.x as int;
        let y = self.y as int;
        assert(0 <= x * x && 0 <= y * y) by (nonlinear_arith);
        let ax = if x >= 0 { x } else { -x };
        let ay = if y >= 0 { y } else { -y };
        assert(ax * ax == x * x && ay * ay == y * y) by (nonlinear_arith)
            requires
                ax == x || ax == -x,
                ay == y || ay == -y,
        ;
        assert(ax * ax < (ax + 1) * (ax + 1) && ay * ay < (ay + 1) * (ay + 1))
            by (nonlinear_arith)
            requires
                ax >= 0,
                ay >= 0,
        ;
        lemma_root_unique(x * x, ax);
        lemma_root_unique(y * y, ay);
        lemma_root_order(x * x, x * x + y * y);
        lemma_root_order(y * y, x * x + y * y);
    }

    /// Scaling a component to a length no greater than the vector's own keeps
    /// it between zero and the component, and its product with the old length
    /// within the product of the component and the new length.
    pub proof fn lemma_scaled_component(c: int, d: int, l: int)
        requires
            in_range(c),
            0 <= d <= l,
            0 < l,
        ensures
            scaled(c, d, l) == quot(c * d, l),
            in_range(scaled(c, d, l)),
            (scaled(c, d, l) * l) * (scaled(c, d, l) * l) <= (c * d) * (c * d),
    {
        let n = c * d;
        let q = quot(n, l);
        lemma_quot_bounds(n, l);
        if c >= 0 {
            assert(0 <= n <= c * l) by (nonlinear_arith)
                requires
                    n == c * d,
                    c >= 0,
                    0 <= d <= l,
            ;
            assert(0 <= q <= c) by (nonlinear_arith)
                requires
                    0 <= q * l <= n,
                    n <= c * l,
                    l > 0,
            ;
            lemma_square_order(q * l, n);
        } else {
            assert(c * l <= n <= 0) by (nonlinear_arith)
                requires
                    n == c * d,
                    c < 0,
                    0 <= d <= l,
            ;
            assert(c <= q <= 0) by (nonlinear_arith)
                requires
                    n <= q * l <= 0,
                    c * l <= n,
                    l > 0,
            ;
            lemma_square_order(-(q * l), -n);
            assert((-(q * l)) * (-(q * l)) == (q * l) * (q * l) && (-n) * (-n) == n * n)
                by (nonlinear_arith);
        }
    }

    /// A vector scaled to a length `d` between zero and its own length is no
    /// longer than `d`.
    pub proof fn lemma_scaled_norm(self, d: int)
        requires
            self.wf(),
            0 <= d <= self.norm(),
            0 < self.norm(),
        ensures
            self.scaled_to(d).wf(),
            self.scaled_to(d).norm() <= d,
    {
        let x = self.x as int;
        let y = self.y as int;
        let l = self.norm();
        let s = x * x + y * y;
        self.lemma_norm_bound();
        assert(s >= 0) by (nonlinear_arith)
            requires
                s == x * x + y * y,
        ;
        lemma_root_exists(s);
        Self::lemma_scaled_component(x, d, l);
        Self::lemma_scaled_component(y, d, l);
        let qx = scaled(x, d, l);
        let qy = scaled(y, d, l);
        let t = qx * qx + qy * qy;
        assert(self.scaled_to(d).norm() == root(t));
        assert(t >= 0) by (nonlinear_arith)
            requires
                t == qx * qx + qy * qy,
        ;
        assert((qx * l) * (qx * l) == (qx * qx) * (l * l)) by (nonlinear_arith);
        assert((qy * l) * (qy * l) == (qy * qy) * (l * l)) by (nonlinear_arith);
        assert((x * d) * (x * d) == (x * x) * (d * d)) by (nonlinear_arith);
        assert((y * d) * (y * d) == (y * y) * (d * d)) by (nonlinear_arith);
        assert(t * (l * l) == (qx * qx) * (l * l) + (qy * qy) * (l * l)) by (nonlinear_arith)
            requires
                t == qx * qx + qy * qy,
        ;
        assert(s * (d * d) == (x * x) * (d * d) + (y * y) * (d * d)) by (nonlinear_arith)
            requires
                s == x * x + y * y,
        ;
        assert(t * (l * l) <= s * (d * d));
        if d == l {
            assert(t <= s) by (nonlinear_arith)
                requires
                    t * (l * l) <= s * (l * l),
                    l > 0,
            ;
            lemma_root_order(t, s);
        } else {
            assert(s * (d * d) <= ((l + 1) * d) * ((l + 1) * d)) by (nonlinear_arith)
                requires
                    s < (l + 1) * (l + 1),
                    d >= 0,
            ;
            assert((l + 1) * d < l * (d + 1)) by (nonlinear_arith)
                requires
                    0 <= d < l,
            ;
            assert(0 <= (l + 1) * d) by (nonlinear_arith)
                requires
                    0 <= d < l,
            ;
            lemma_square_order((l + 1) * d + 1, l * (d + 1));
            assert(((l + 1) * d) * ((l + 1) * d) < ((l + 1) * d + 1) * ((l + 1) * d + 1))
                by (nonlinear_arith)
                requires
                    0 <= (l + 1) * d,
            ;
            assert(t < (d + 1) * (d + 1)) by (nonlinear_arith)
                requires
                    t * (l * l) < (l * (d + 1)) * (l * (d + 1)),
                    l > 0,
                    d >= 0,
            ;
            lemma_root_below(t, d + 1);
        }
    }

    /// The length of the vector, rounded down.
    pub fn length(&self) -> (r: i64)
        requires
            self.wf(),
        ensures
            r == self.norm(),
    {
        proof {
            self.lemma_norm_bound();
            assert(0 <= self.x * self.x <= LIMIT * LIMIT) by (nonlinear_arith)
                requires
                    -LIMIT <= self.x <= LIMIT,
            ;
            assert(0 <= self.y * self.y <= LIMIT * LIMIT) by (nonlinear_arith)
                requires
                    -LIMIT <= self.y <= LIMIT,
            ;
        }
        let xx: i128 = self.x as i128 * self.x as i128;
        let yy: i128 = self.y as i128 * self.y as i128;
        integer_root((xx + yy) as u128) as i64
    }

    /// The vector in the same direction with the length `desired_length`.
    /// The vector must not be zero: a zero vector has no direction.
    pub fn with_len(&self, desired_length: i64) -> (r: Vec2d)
        requires
            self.wf(),
            self.x != 0 || self.y != 0,
        ensures
            r == self.scaled_to(desired_length as int),
            r.wf(),
    {
        proof {
            self.lemma_norm_bound();
        }
        let length = self.length();
        Vec2d { x: scale(self.x, desired_length, length), y: scale(self.y, desired_length, length) }
    }

    /// The vector in the same direction with the length one. The vector must
    /// not be zero.
    pub fn normalized(&self) -> (r: Vec2d)
        requires
            self.wf(),
            self.x != 0 || self.y != 0,
        ensures
            r == self.scaled_to(SCALE as int),
            r.wf(),
    {
        proof {
            self.lemma_norm_bound();
        }
        let length = self.length();
        Vec2d { x: scale(self.x, SCALE, length), y: scale(self.y, SCALE, length) }
    }
}

impl core::ops::Add for Vec2d {
    type Output = Vec2d;

    /// Adds component by component; a sum beyond the limit is clamped.
    fn add(self, other: Vec2d) -> (r: Vec2d)
        ensures
            r == self.plus(other),
            r.wf(),
    {
        Vec2d {
            x: saturate(self.x as i128 + other.x as i128),
            y: saturate(self.y as i128 + other.y as i128),
        }
    }
}

impl vstd::std_specs::ops::AddSpecImpl for Vec2d {
    open spec fn obeys_add_spec() -> bool {
        true
    }

    open spec fn add_req(self, other: Vec2d) -> bool {
        true
    }

    open spec fn add_spec(self, other: Vec2d) -> Vec2d {
        self.plus(other)
    }
}

impl core::ops::Sub for Vec2d {
    type Output = Vec2d;

    /// Subtracts component by component; a difference beyond the limit is
    /// clamped.
    fn sub(self, other: Vec2d) -> (r: Vec2d)
        ensures
            r == self.minus(other),
            r.wf(),
    {
        Vec2d {
            x: saturate(self.x as i128 - other.x as i128),
            y: saturate(self.y as i128 - other.y as i128),
        }
    }
}

impl vstd::std_specs::ops::SubSpecImpl for Vec2d {
    open spec fn obeys_sub_spec() -> bool {
        true
    }

    open spec fn sub_req(self, other: Vec2d) -> bool {
        true
    }

    open spec fn sub_spec(self, other: Vec2d) -> Vec2d {
        self.minus(other)
    }
}

impl core::ops::Mul<i64> for Vec2d {
    type Output = Vec2d;

    /// Multiplies each component by the fixed-point `scalar`, rounded toward
    /// zero and clamped.
    fn mul(self, scalar: i64) -> (r: Vec2d)
        ensures
            r == self.times(scalar as int),
            r.wf(),
    {
        Vec2d { x: scale(self.x, scalar, SCALE), y: scale(self.y, scalar, SCALE) }
    }
}

impl vstd::std_specs::ops::MulSpecImpl<i64> for Vec2d {
    open spec fn obeys_mul_spec() -> bool {
        true
    }

    open spec fn mul_req(self, scalar: i64) -> bool {
        true
    }

    open spec fn mul_spec(self, scalar: i64) -> Vec2d {
        self.times(scalar as int)
    }
}

} // verus!
