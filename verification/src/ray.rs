//! Rays: an origin point and a direction scaled by `DIR_ONE`. Parametric
//! distances along a ray ("fine units") are coordinate units scaled by
//! `DIR_ONE`, so that sub-unit precision survives the integer arithmetic.

use vstd::prelude::*;

use crate::point::{Point, MAX_COORD};
use crate::trig::{div_floor, lemma_mul_bounds, spec_div_floor, DIR_ONE};
use crate::vector::Vector;

verus! {

/// Forward parametric bound of a traced ray, in fine units, large enough
/// that the spanned chord covers the whole field and every hit distance.
pub const RAY_SPAN: i64 = 0x10_0000_0000_0000;

#[derive(Clone, Copy, Debug, PartialEq, Eq, Structural)]
pub struct Ray {
    pub origin: Point,
    pub direction: Vector,
}

impl Ray {
    /// A well-formed ray starts inside the field bounds and carries a
    /// direction no longer than a scaled unit vector.
    pub open spec fn wf(&self) -> bool {
        &&& self.origin.bounded(MAX_COORD as int)
        &&& self.direction.bounded(DIR_ONE as int)
    }

    /// The point reached after travelling `t` fine units: each coordinate is
    /// `origin + t·direction / DIR_ONE²`, rounded toward negative infinity.
    pub open spec fn spec_at(&self, t: int) -> Point {
        Point {
            x: (self.origin.x + spec_div_floor(t * self.direction.x, DIR_ONE * DIR_ONE)) as i64,
            y: (self.origin.y + spec_div_floor(t * self.direction.y, DIR_ONE * DIR_ONE)) as i64,
        }
    }

    /// Return the point of the ray at parameter `t`.
    pub fn at(&self, t: i64) -> (p: Point)
        requires
            self.wf(),
            0 <= t <= RAY_SPAN,
        ensures
            p == self.spec_at(t as int),
            p.bounded(0x20_0000_0000),
    {
        proof {
            lemma_at_bounds(t as int, self.direction.x as int);
            lemma_at_bounds(t as int, self.direction.y as int);
        }
        let dx = div_floor(
            (t as i128) * (self.direction.x as i128),
            (DIR_ONE as i128) * (DIR_ONE as i128),
        );
        let dy = div_floor(
            (t as i128) * (self.direction.y as i128),
            (DIR_ONE as i128) * (DIR_ONE as i128),
        );
        Point { x: self.origin.x + (dx as i64), y: self.origin.y + (dy as i64) }
    }

    /// The slope and intercept of the line through the origin and the point
    /// whose coordinates are the direction's components, both scaled by
    /// `DIR_ONE` and rounded toward negative infinity.
    pub fn get_coeffs(&self) -> (c: (i64, i64))
        requires
            self.wf(),
            self.direction.x != self.origin.x,
        ensures
            c.0 == spec_div_floor(
                (self.direction.y - self.origin.y) * DIR_ONE,
                self.direction.x - self.origin.x,
            ),
            c.1 == self.origin.y - spec_div_floor(c.0 * self.origin.x, DIR_ONE as int),
    {
        let x: i64 = self.direction.x - self.origin.x;
        let y: i64 = self.direction.y - self.origin.y;
        proof {
            lemma_mul_bounds(y as int, DIR_ONE as int, 0x8000_0000, 0x1_0000);
        }
        let num: i128 = (y as i128) * (DIR_ONE as i128);
        let slope: i128 = if x < 0 {
            div_floor(-num, -(x as i128))
        } else {
            div_floor(num, x as i128)
        };
        proof {
            if x < 0 {
                crate::trig::lemma_div_range(-(num as int), -(x as int));
            } else {
                crate::trig::lemma_div_range(num as int, x as int);
            }
            lemma_mul_bounds(slope as int, self.origin.x as int, 0x8000_0000_0000, 0x4000_0000);
            vstd::arithmetic::div_mod::lemma_div_is_ordered(
                slope as int * self.origin.x,
                (DIR_ONE as int) * 0x2000_0000_0000_0000,
                DIR_ONE as int,
            );
            vstd::arithmetic::div_mod::lemma_div_is_ordered(
                (DIR_ONE as int) * (-0x2000_0000_0000_0000),
                slope as int * self.origin.x,
                DIR_ONE as int,
            );
            vstd::arithmetic::div_mod::lemma_div_multiples_vanish(
                0x2000_0000_0000_0000,
                DIR_ONE as int,
            );
            vstd::arithmetic::div_mod::lemma_div_multiples_vanish(
                -0x2000_0000_0000_0000,
                DIR_ONE as int,
            );
        }
        let scaled: i128 = div_floor(slope * (self.origin.x as i128), DIR_ONE as i128);
        let intercept: i64 = self.origin.y - (scaled as i64);
        (slope as i64, intercept)
    }

    /// The two endpoints of the finite forward chord that stands in for the
    /// infinite ray: the origin and the point `RAY_SPAN` fine units along.
    pub fn spanned_points(&self) -> (pts: (Point, Point))
        requires
            self.wf(),
        ensures
            pts.0 == self.origin,
            pts.1 == self.spec_at(RAY_SPAN as int),
            pts.1.bounded(0x20_0000_0000),
    {
        (self.origin, self.at(RAY_SPAN))
    }
}

/// The per-coordinate displacement of `Ray::at` stays small.
proof fn lemma_at_bounds(t: int, d: int)
    requires
        0 <= t <= RAY_SPAN,
        -DIR_ONE <= d <= DIR_ONE,
    ensures
        -0x10_0000_0000 <= spec_div_floor(t * d, DIR_ONE * DIR_ONE) <= 0x10_0000_0000,
        -0x1000_0000_0000_0000_0000 <= t * d <= 0x1000_0000_0000_0000_0000,
{
    lemma_mul_bounds(t, d, 0x10_0000_0000_0000, 0x1_0000);
    let dd = (DIR_ONE as int) * (DIR_ONE as int);
    assert(dd == 0x1_0000_0000) by (nonlinear_arith)
        requires
            DIR_ONE == 0x1_0000,
            dd == (DIR_ONE as int) * (DIR_ONE as int),
    ;
    vstd::arithmetic::div_mod::lemma_div_is_ordered(t * d, dd * 0x10_0000_0000, dd);
    vstd::arithmetic::div_mod::lemma_div_is_ordered(dd * (-0x10_0000_0000), t * d, dd);
    vstd::arithmetic::div_mod::lemma_div_multiples_vanish(0x10_0000_0000, dd);
    vstd::arithmetic::div_mod::lemma_div_multiples_vanish(-0x10_0000_0000, dd);
}

} // verus!
