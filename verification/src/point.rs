//! Points of the 2D field, in caller-chosen fixed-point coordinate units.

use vstd::prelude::*;

use crate::trig::{div_floor, isqrt, lemma_mul_bounds, sqrt_floor};
use crate::vector::Vector;

verus! {

/// Largest coordinate magnitude the geometry accepts.
pub const MAX_COORD: i64 = 0x4000_0000;

/// Bound within which all intermediate points of a traced ray stay.
pub const MAX_WORK_COORD: i64 = 0x1_0000_0000_0000;

#[derive(Clone, Copy, Debug, PartialEq, Eq, Structural)]
pub struct Point {
    pub x: i64,
    pub y: i64,
}

/// The distance between two points, rounded down.
pub open spec fn spec_distance(ax: int, ay: int, bx: int, by: int) -> int {
    sqrt_floor((ax - bx) * (ax - bx) + (ay - by) * (ay - by))
}

impl Point {
    pub fn new(x: i64, y: i64) -> (p: Point)
        ensures
            p.x == x,
            p.y == y,
    {
        Point { x, y }
    }

    pub fn zero() -> (p: Point)
        ensures
            p.x == 0,
            p.y == 0,
    {
        Point { x: 0, y: 0 }
    }

    /// Whether the coordinates are small enough for the hit computations.
    pub open spec fn bounded(&self, bound: int) -> bool {
        -bound <= self.x <= bound && -bound <= self.y <= bound
    }

    /// Euclidean distance from `other`, rounded down.
    pub fn distance_from(&self, other: &Point) -> (d: i64)
        requires
            self.bounded(MAX_WORK_COORD as int),
            other.bounded(MAX_WORK_COORD as int),
        ensures
            d == spec_distance(self.x as int, self.y as int, other.x as int, other.y as int),
            0 <= d <= 0x4_0000_0000_0000,
    {
        let dx: i128 = (self.x as i128) - (other.x as i128);
        let dy: i128 = (self.y as i128) - (other.y as i128);
        proof {
            lemma_mul_bounds(dx as int, dx as int, 0x2_0000_0000_0000, 0x2_0000_0000_0000);
            lemma_mul_bounds(dy as int, dy as int, 0x2_0000_0000_0000, 0x2_0000_0000_0000);
            assert((dx as int) * (dx as int) >= 0 && (dy as int) * (dy as int) >= 0)
                by (nonlinear_arith);
        }
        let d2: u128 = (dx * dx + dy * dy) as u128;
        let r = isqrt(d2);
        proof {
            if r > 0x4_0000_0000_0000 {
                lemma_mul_bounds(
                    r as int,
                    r as int,
                    0x1_0000_0000_0000_0000,
                    0x1_0000_0000_0000_0000,
                );
                assert((0x4_0000_0000_0001) * (0x4_0000_0000_0001) <= (r as int) * (r as int))
                    by (nonlinear_arith)
                    requires
                        0x4_0000_0000_0001 <= r as int,
                ;
            }
        }
        r as i64
    }

    /// Vector from `other` to `self`.
    pub fn sub(&self, other: &Point) -> (v: Vector)
        requires
            -0x2000_0000_0000_0000 <= self.x - other.x <= 0x2000_0000_0000_0000,
            -0x2000_0000_0000_0000 <= self.y - other.y <= 0x2000_0000_0000_0000,
        ensures
            v.x == self.x - other.x,
            v.y == self.y - other.y,
    {
        Vector { x: self.x - other.x, y: self.y - other.y }
    }

    /// Both coordinates moved by the vector.
    pub fn add(&self, other: &Vector) -> (p: Point)
        requires
            -0x2000_0000_0000_0000 <= self.x + other.x <= 0x2000_0000_0000_0000,
            -0x2000_0000_0000_0000 <= self.y + other.y <= 0x2000_0000_0000_0000,
        ensures
            p.x == self.x + other.x,
            p.y == self.y + other.y,
    {
        Point { x: self.x + other.x, y: self.y + other.y }
    }

    /// Both coordinates divided by `k`, rounded toward negative infinity.
    pub fn div(&self, k: i64) -> (p: Point)
        requires
            k > 0,
        ensures
            p.x == self.x as int / k as int,
            p.y == self.y as int / k as int,
    {
        let qx = div_floor(self.x as i128, k as i128);
        let qy = div_floor(self.y as i128, k as i128);
        proof {
            crate::trig::lemma_div_range(self.x as int, k as int);
            crate::trig::lemma_div_range(self.y as int, k as int);
        }
        Point { x: qx as i64, y: qy as i64 }
    }
}

} // verus!
