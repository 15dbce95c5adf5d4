//! Direction vectors; a unit direction has components scaled by `DIR_ONE`.

use vstd::prelude::*;

use crate::point::Point;
use crate::trig::{div_floor, isqrt, lemma_mul_bounds, sqrt_floor, DIR_ONE};

verus! {

#[derive(Clone, Copy, Debug, PartialEq, Eq, Structural)]
pub struct Vector {
    pub x: i64,
    pub y: i64,
}

/// A component of a vector, rescaled by `DIR_ONE / length`, stays within
/// twice `DIR_ONE` in magnitude.
proof fn lemma_normalize_component_fits(x: int, l2: int, len: int)
    requires
        x * x <= l2,
        crate::trig::is_sqrt_floor(l2, len),
        len >= 1,
    ensures
        -2 * DIR_ONE <= (x * DIR_ONE) / len <= 2 * DIR_ONE,
{
    assert(-(len + 1) <= x <= len + 1) by (nonlinear_arith)
        requires
            x * x <= l2,
            l2 < (len + 1) * (len + 1),
            len >= 0,
    ;
    assert(len * (-2 * DIR_ONE) <= x * DIR_ONE <= len * (2 * DIR_ONE)) by (nonlinear_arith)
        requires
            -(len + 1) <= x <= len + 1,
            len >= 1,
            DIR_ONE > 0,
    ;
    vstd::arithmetic::div_mod::lemma_div_is_ordered(x * DIR_ONE, len * (2 * DIR_ONE), len);
    vstd::arithmetic::div_mod::lemma_div_is_ordered(len * (-2 * DIR_ONE), x * DIR_ONE, len);
    vstd::arithmetic::div_mod::lemma_div_multiples_vanish(2 * DIR_ONE, len);
    vstd::arithmetic::div_mod::lemma_div_multiples_vanish(-2 * DIR_ONE, len);
}

impl Vector {
    /// Whether the components are small enough for the hit computations.
    pub open spec fn bounded(&self, bound: int) -> bool {
        -bound <= self.x <= bound && -bound <= self.y <= bound
    }

    pub fn zero() -> (v: Vector)
        ensures
            v.x == 0,
            v.y == 0,
    {
        Vector { x: 0, y: 0 }
    }

    /// The squared Euclidean length.
    pub fn length_squared(&self) -> (l: i128)
        requires
            self.bounded(0x2_0000_0000_0000),
        ensures
            l == self.x * self.x + self.y * self.y,
            0 <= l <= 0x8_0000_0000_0000_0000_0000_0000,
    {
        let x = self.x as i128;
        let y = self.y as i128;
        proof {
            lemma_mul_bounds(x as int, x as int, 0x2_0000_0000_0000, 0x2_0000_0000_0000);
            lemma_mul_bounds(y as int, y as int, 0x2_0000_0000_0000, 0x2_0000_0000_0000);
            assert((self.x as int) * (self.x as int) >= 0 && (self.y as int) * (self.y as int)
                >= 0) by (nonlinear_arith);
        }
        x * x + y * y
    }

    /// The Euclidean length, rounded down.
    pub fn length(&self) -> (l: i64)
        requires
            self.bounded(0x2_0000_0000_0000),
        ensures
            l == sqrt_floor(self.x * self.x + self.y * self.y),
            0 <= l <= 0x4_0000_0000_0000,
    {
        let l2 = self.length_squared();
        let r = isqrt(l2 as u128);
        proof {
            if r > 0x4_0000_0000_0000 {
                assert((0x4_0000_0000_0001) * (0x4_0000_0000_0001) <= (r as int) * (r as int))
                    by (nonlinear_arith)
                    requires
                        0x4_0000_0000_0001 <= r as int,
                ;
            }
        }
        r as i64
    }

    /// The perpendicular vector, a quarter turn counterclockwise.
    pub fn norm(&self) -> (v: Vector)
        requires
            self.bounded(0x2000_0000_0000_0000),
        ensures
            v.x == -self.y,
            v.y == self.x,
    {
        Vector { x: -self.y, y: self.x }
    }

    /// The same direction rescaled so that a true unit vector has length
    /// `DIR_ONE`; components are `x·DIR_ONE / |self|`, rounded down.
    pub fn normalize(&self) -> (v: Vector)
        requires
            self.bounded(0x2_0000_0000_0000),
            self.x != 0 || self.y != 0,
        ensures
            v.x == (self.x * DIR_ONE) as int / sqrt_floor(self.x * self.x + self.y * self.y),
            v.y == (self.y * DIR_ONE) as int / sqrt_floor(self.x * self.x + self.y * self.y),
    {
        let len = self.length();
        proof {
            let l2 = (self.x as int) * (self.x as int) + (self.y as int) * (self.y as int);
            assert(l2 > 0) by (nonlinear_arith)
                requires
                    l2 == (self.x as int) * (self.x as int) + (self.y as int) * (self.y as int),
                    self.x != 0 || self.y != 0,
            ;
            assert((self.x as int) * (self.x as int) >= 0 && (self.y as int) * (self.y as int)
                >= 0) by (nonlinear_arith);
            crate::trig::lemma_sqrt_floor_exists(l2);
            if len == 0 {
                assert(l2 < (len + 1) * (len + 1));
                assert((len + 1) * (len + 1) <= 1) by (nonlinear_arith)
                    requires
                        len == 0,
                ;
                assert(false);
            }
            lemma_mul_bounds(self.x as int, DIR_ONE as int, 0x2_0000_0000_0000, 0x1_0000);
            lemma_mul_bounds(self.y as int, DIR_ONE as int, 0x2_0000_0000_0000, 0x1_0000);
            lemma_normalize_component_fits(self.x as int, l2, len as int);
            lemma_normalize_component_fits(self.y as int, l2, len as int);
        }
        let vx = div_floor((self.x as i128) * (DIR_ONE as i128), len as i128);
        let vy = div_floor((self.y as i128) * (DIR_ONE as i128), len as i128);
        Vector { x: vx as i64, y: vy as i64 }
    }

    /// The dot product with `other`.
    pub fn dot(&self, other: &Vector) -> (d: i128)
        requires
            self.bounded(0x2_0000_0000_0000),
            other.bounded(0x2_0000_0000_0000),
        ensures
            d == self.x * other.x + self.y * other.y,
    {
        proof {
            lemma_mul_bounds(
                self.x as int,
                other.x as int,
                0x2_0000_0000_0000,
                0x2_0000_0000_0000,
            );
            lemma_mul_bounds(
                self.y as int,
                other.y as int,
                0x2_0000_0000_0000,
                0x2_0000_0000_0000,
            );
        }
        (self.x as i128) * (other.x as i128) + (self.y as i128) * (other.y as i128)
    }

    /// The components as a point.
    pub fn as_point(&self) -> (p: Point)
        ensures
            p.x == self.x,
            p.y == self.y,
    {
        Point { x: self.x, y: self.y }
    }

    pub fn add(&self, other: &Vector) -> (v: Vector)
        requires
            -0x2000_0000_0000_0000 <= self.x + other.x <= 0x2000_0000_0000_0000,
            -0x2000_0000_0000_0000 <= self.y + other.y <= 0x2000_0000_0000_0000,
        ensures
            v.x == self.x + other.x,
            v.y == self.y + other.y,
    {
        Vector { x: self.x + other.x, y: self.y + other.y }
    }

    pub fn sub(&self, other: &Vector) -> (v: Vector)
        requires
            -0x2000_0000_0000_0000 <= self.x - other.x <= 0x2000_0000_0000_0000,
            -0x2000_0000_0000_0000 <= self.y - other.y <= 0x2000_0000_0000_0000,
        ensures
            v.x == self.x - other.x,
            v.y == self.y - other.y,
    {
        Vector { x: self.x - other.x, y: self.y - other.y }
    }

    /// Both components scaled by `k`.
    pub fn mul(&self, k: i64) -> (v: Vector)
        requires
            -0x2000_0000_0000_0000 <= self.x * k <= 0x2000_0000_0000_0000,
            -0x2000_0000_0000_0000 <= self.y * k <= 0x2000_0000_0000_0000,
        ensures
            v.x == self.x * k,
            v.y == self.y * k,
    {
        proof {
            lemma_mul_bounds(
                self.x as int,
                k as int,
                0x8000_0000_0000_0000,
                0x8000_0000_0000_0000,
            );
            lemma_mul_bounds(
                self.y as int,
                k as int,
                0x8000_0000_0000_0000,
                0x8000_0000_0000_0000,
            );
        }
        let vx = (self.x as i128) * (k as i128);
        let vy = (self.y as i128) * (k as i128);
        Vector { x: vx as i64, y: vy as i64 }
    }

    /// Both components divided by `k`, rounded toward negative infinity.
    pub fn div(&self, k: i64) -> (v: Vector)
        requires
            k > 0,
        ensures
            v.x == self.x as int / k as int,
            v.y == self.y as int / k as int,
    {
        let qx = div_floor(self.x as i128, k as i128);
        let qy = div_floor(self.y as i128, k as i128);
        proof {
            crate::trig::lemma_div_range(self.x as int, k as int);
            crate::trig::lemma_div_range(self.y as int, k as int);
        }
        Vector { x: qx as i64, y: qy as i64 }
    }

    pub fn neg(&self) -> (v: Vector)
        requires
            self.bounded(0x2000_0000_0000_0000),
        ensures
            v.x == -self.x,
            v.y == -self.y,
    {
        Vector { x: -self.x, y: -self.y }
    }
}

} // verus!
