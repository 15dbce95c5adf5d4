//! Hit-testable primitives: circles that accumulate visible arcs, opaque
//! segments that only block rays, and the polymorphic element over both.

use vstd::prelude::*;

use crate::point::{Point, MAX_COORD};
use crate::rangestack::{Range, RangeStack};
use crate::ray::{Ray, RAY_SPAN};
use crate::trig::{
    div_floor, isqrt, lemma_mul_bounds, lemma_sqrt_floor_le, spec_atan2_units, spec_div_floor,
    sqrt_floor, atan2_units, DIR_ONE, PI_UNITS, TAU_UNITS,
};
use crate::vector::Vector;

verus! {

/// Largest fine-unit distance a hit test can report.
pub const MAX_HIT_DIST: i64 = 0x4_0000_0000_0000;

/// A hit-testable element answers at what parametric distance (in fine
/// units) a ray strikes it, if at all.
pub trait Hittable {
    /// What the hit computation needs of the element and the ray.
    spec fn hit_req(&self, ray: &Ray) -> bool;

    /// The exact distance returned, if any.
    spec fn hit_spec(&self, ray: &Ray) -> Option<i64>;

    fn hit(&self, ray: &Ray) -> (h: Option<i64>)
        requires
            self.hit_req(ray),
        ensures
            h == self.hit_spec(ray),
            h matches Some(d) ==> 0 <= d <= MAX_HIT_DIST,
    ;
}

/// The ghost value of a circle: its geometry, accumulated arcs and identity.
pub struct CircleView {
    pub cx: int,
    pub cy: int,
    pub radius: int,
    pub stack: Seq<Range>,
    pub id: Seq<char>,
}

/// A circular object owning the angular intervals seen so far.
#[derive(Clone, Debug)]
pub struct Circle {
    pub center: Point,
    pub radius: i64,
    pub range_stack: RangeStack,
    pub id: String,
}

impl View for Circle {
    type V = CircleView;

    open spec fn view(&self) -> CircleView {
        CircleView {
            cx: self.center.x as int,
            cy: self.center.y as int,
            radius: self.radius as int,
            stack: self.range_stack@,
            id: self.id@,
        }
    }
}

/// The ghost value of an opaque segment.
pub struct SegmentView {
    pub x1: int,
    pub y1: int,
    pub x2: int,
    pub y2: int,
}

/// An opaque line obstacle: it can block rays but accumulates nothing.
#[derive(Clone, Debug)]
pub struct Segment {
    pub p1: Point,
    pub p2: Point,
}

impl View for Segment {
    type V = SegmentView;

    open spec fn view(&self) -> SegmentView {
        SegmentView {
            x1: self.p1.x as int,
            y1: self.p1.y as int,
            x2: self.p2.x as int,
            y2: self.p2.y as int,
        }
    }
}

/// The ghost value of a scene element.
pub enum ElementView {
    Circle(CircleView),
    Segment(SegmentView),
}

/// A polymorphic hit target.
#[derive(Clone, Debug)]
pub enum Element {
    Circle(Circle),
    Segment(Segment),
}

impl View for Element {
    type V = ElementView;

    open spec fn view(&self) -> ElementView {
        match self {
            Element::Circle(c) => ElementView::Circle(c@),
            Element::Segment(s) => ElementView::Segment(s@),
        }
    }
}

/// The normalized angle at which a ray strikes the boundary of the circle
/// with this center and radius, measured from the center (meaningful where
/// the hit exists).
pub open spec fn spec_hit_angle_v(cx: int, cy: int, radius: int, ray: Ray) -> int {
    let t = spec_circle_hit(cx, cy, radius, ray).unwrap() as int;
    let p = ray.spec_at(t);
    spec_atan2_units(p.y - cy, p.x - cx)
}

/// The ray/circle hit distance in fine units, by the projected-distance form
/// of the quadratic, with every product scaled by `DIR_ONE²` and the root
/// rounded down. `None` when the perpendicular distance exceeds the radius
/// or both roots lie behind the origin.
pub open spec fn spec_circle_hit(cx: int, cy: int, radius: int, ray: Ray) -> Option<i64> {
    let lx = cx - ray.origin.x;
    let ly = cy - ray.origin.y;
    let dot = lx * ray.direction.x + ly * ray.direction.y;
    let rr = radius * radius * (DIR_ONE * DIR_ONE);
    let perp = (lx * lx + ly * ly) * (DIR_ONE * DIR_ONE) - dot * dot;
    if perp > rr {
        None
    } else {
        let thc = sqrt_floor(rr - perp);
        let t0 = dot - thc;
        let t1 = dot + thc;
        if t0 < 0 && t1 < 0 {
            None
        } else if t0 < 0 {
            Some(t1 as i64)
        } else if t1 < 0 {
            Some(t0 as i64)
        } else if t0 < t1 {
            Some(t0 as i64)
        } else {
            Some(t1 as i64)
        }
    }
}

/// Both roots of the circle quadratic stay within `MAX_HIT_DIST`.
proof fn lemma_circle_hit_bounds(cx: int, cy: int, radius: int, ray: Ray)
    requires
        -MAX_COORD <= cx <= MAX_COORD,
        -MAX_COORD <= cy <= MAX_COORD,
        1 <= radius <= MAX_COORD,
        ray.wf(),
    ensures
        ({
            let lx = cx - ray.origin.x;
            let ly = cy - ray.origin.y;
            let dot = lx * ray.direction.x + ly * ray.direction.y;
            let rr = radius * radius * (DIR_ONE * DIR_ONE);
            let perp = (lx * lx + ly * ly) * (DIR_ONE * DIR_ONE) - dot * dot;
            &&& -0x1_0000_0000_0000 <= dot <= 0x1_0000_0000_0000
            &&& 0 <= rr <= 0x1000_0000_0000_0000_0000_0000
            &&& -0x1_0000_0000_0000_0000_0000_0000_0000 <= perp
                <= 0x1_0000_0000_0000_0000_0000_0000_0000
            &&& perp <= rr ==> 0 <= rr - perp <= 0x2000_0000_0000_0000_0000_0000_0000
                && sqrt_floor(rr - perp) <= 0x2_0000_0000_0000
        }),
{
    let lx = cx - ray.origin.x;
    let ly = cy - ray.origin.y;
    let dot = lx * ray.direction.x + ly * ray.direction.y;
    let rr = radius * radius * (DIR_ONE * DIR_ONE);
    let perp = (lx * lx + ly * ly) * (DIR_ONE * DIR_ONE) - dot * dot;
    lemma_mul_bounds(lx, ray.direction.x as int, 0x8000_0000, 0x1_0000);
    lemma_mul_bounds(ly, ray.direction.y as int, 0x8000_0000, 0x1_0000);
    lemma_mul_bounds(radius, radius, 0x4000_0000, 0x4000_0000);
    assert(radius * radius >= 0) by (nonlinear_arith)
        requires
            radius >= 1,
    ;
    lemma_mul_bounds(radius * radius, DIR_ONE * DIR_ONE, 0x1000_0000_0000_0000, 0x1_0000_0000);
    lemma_mul_bounds(DIR_ONE as int, DIR_ONE as int, 0x1_0000, 0x1_0000);
    assert(DIR_ONE * DIR_ONE >= 0) by (nonlinear_arith)
        requires
            DIR_ONE > 0,
    ;
    assert(radius * radius * (DIR_ONE * DIR_ONE) >= 0) by (nonlinear_arith)
        requires
            radius * radius >= 0,
            DIR_ONE * DIR_ONE >= 0,
    ;
    lemma_mul_bounds(lx, lx, 0x8000_0000, 0x8000_0000);
    lemma_mul_bounds(ly, ly, 0x8000_0000, 0x8000_0000);
    lemma_mul_bounds(lx * lx + ly * ly, DIR_ONE * DIR_ONE, 0x80_0000_0000_0000_0000, 0x1_0000_0000);
    lemma_mul_bounds(dot, dot, 0x1_0000_0000_0000, 0x1_0000_0000_0000);
    assert(lx * lx >= 0 && ly * ly >= 0 && dot * dot >= 0) by (nonlinear_arith);
    if perp <= rr {
        assert((lx * lx + ly * ly) * (DIR_ONE * DIR_ONE) >= 0) by (nonlinear_arith)
            requires
                lx * lx >= 0,
                ly * ly >= 0,
                DIR_ONE * DIR_ONE >= 0,
        ;
        lemma_sqrt_floor_le(rr - perp, 0x2_0000_0000_0000 - 1);
    }
}

impl Circle {
    /// A well-formed circle: positive radius, geometry within the field
    /// bounds, and a normalized interval stack.
    pub open spec fn wf(&self) -> bool {
        &&& 1 <= self.radius <= MAX_COORD
        &&& self.center.bounded(MAX_COORD as int)
        &&& self.range_stack.wf()
    }

    pub fn new(center: Point, radius: i64, range_stack: RangeStack, id: String) -> (c: Circle)
        ensures
            c.center == center,
            c.radius == radius,
            c.range_stack@ == range_stack@,
            c.id@ == id@,
    {
        Circle { center, radius, range_stack, id }
    }

    /// An exact copy, stack and identity included.
    pub fn duplicate(&self) -> (c: Circle)
        ensures
            c@ == self@,
            c.center == self.center,
            c.radius == self.radius,
    {
        Circle {
            center: self.center,
            radius: self.radius,
            range_stack: self.range_stack.duplicate(),
            id: self.id.clone(),
        }
    }

    /// The normalized angle at which the ray strikes the circle's boundary,
    /// measured from the circle's center.
    pub open spec fn spec_hit_angle(&self, ray: Ray) -> int {
        spec_hit_angle_v(self.center.x as int, self.center.y as int, self.radius as int, ray)
    }

    /// Angle of the hit point of `ray`, normalized into `[0, TAU_UNITS)`.
    pub fn hit_angle(&self, ray: &Ray) -> (alpha: i64)
        requires
            self.wf(),
            ray.wf(),
            self.hit_spec(ray).is_some(),
        ensures
            alpha == self.spec_hit_angle(*ray),
            0 <= alpha < TAU_UNITS,
    {
        let t = self.hit(ray).unwrap();
        let p = ray.at(t);
        atan2_units(p.y - self.center.y, p.x - self.center.x)
    }

    /// The swept arc between the hit angles of two angularly adjacent rays.
    pub fn get_range_for_ray_pair(&self, r1: &Ray, r2: &Ray) -> (r: Range)
        requires
            self.wf(),
            r1.wf(),
            r2.wf(),
            self.hit_spec(r1).is_some(),
            self.hit_spec(r2).is_some(),
        ensures
            r.start == self.spec_hit_angle(*r1),
            r.end == self.spec_hit_angle(*r2),
            0 <= r.start < TAU_UNITS,
            0 <= r.end < TAU_UNITS,
    {
        let alpha1 = self.hit_angle(r1);
        let alpha2 = self.hit_angle(r2);
        Range::new(alpha1, alpha2)
    }

    /// The hit angles of two rays, ordered ascending.
    pub fn hit_interval(&self, r1: &Ray, r2: &Ray) -> (iv: (i64, i64))
        requires
            self.wf(),
            r1.wf(),
            r2.wf(),
            self.hit_spec(r1).is_some(),
            self.hit_spec(r2).is_some(),
        ensures
            iv.0 <= iv.1,
            0 <= iv.0 < TAU_UNITS,
            iv.1 < TAU_UNITS,
            (iv.0 == self.spec_hit_angle(*r1) && iv.1 == self.spec_hit_angle(*r2)) || (iv.0
                == self.spec_hit_angle(*r2) && iv.1 == self.spec_hit_angle(*r1)),
    {
        let angle1 = self.hit_angle(r1);
        let angle2 = self.hit_angle(r2);
        if angle1 <= angle2 {
            (angle1, angle2)
        } else {
            (angle2, angle1)
        }
    }

    /// Estimate the swept range around a single ray's hit point from the
    /// fan resolution alone (the predecessor of the ray-pair construction).
    pub fn approx_hitbox_angle(&self, ray: &Ray, resolution: u32) -> (r: Range)
        requires
            self.wf(),
            ray.wf(),
            self.hit_spec(ray).is_some(),
            1 <= resolution,
        ensures
            r == spec_approx_hitbox(
                self.center.x as int,
                self.center.y as int,
                self.radius as int,
                *ray,
                resolution as int,
            ),
    {
        let t = self.hit(ray).unwrap();
        let a = self.hit_angle(ray);
        let alpha = if a > PI_UNITS {
            a - PI_UNITS
        } else {
            a
        };
        proof {
            lemma_mul_bounds(TAU_UNITS as int, t as int, 0x2_0000_0000, 0x4_0000_0000_0000);
            lemma_mul_bounds(resolution as int, self.radius as int, 0x1_0000_0000, 0x4000_0000);
            lemma_mul_bounds(
                (resolution as int) * (self.radius as int),
                DIR_ONE as int,
                0x4000_0000_0000_0000,
                0x1_0000,
            );
            assert((resolution as int) * (self.radius as int) * (DIR_ONE as int) >= 1)
                by (nonlinear_arith)
                requires
                    resolution >= 1,
                    self.radius >= 1,
                    DIR_ONE >= 1,
            ;
            assert((TAU_UNITS as int) * (t as int) >= 0) by (nonlinear_arith)
                requires
                    TAU_UNITS >= 0,
                    t >= 0,
            ;
        }
        let divisor: i128 = (resolution as i128) * (self.radius as i128) * (DIR_ONE as i128);
        let hb2: i128 = (((TAU_UNITS as i128) * (t as i128)) / divisor) / 2;
        let start: i64 = #[verifier::truncate] (((alpha as i128) - hb2) as i64);
        let end: i64 = #[verifier::truncate] (((alpha as i128) + hb2) as i64);
        Range { start, end }
    }

    /// Credit the arc swept between two rays' hit angles to the stack, and
    /// return the arc length subtended by the chord between the two ray
    /// origins, in coordinate units.
    pub fn arclength_spanned_by(&mut self, r1: &Ray, r2: &Ray) -> (len: i64)
        requires
            old(self).wf(),
            r1.wf(),
            r2.wf(),
            old(self).hit_spec(r1).is_some(),
            old(self).hit_spec(r2).is_some(),
            crate::point::spec_distance(
                r1.origin.x as int,
                r1.origin.y as int,
                r2.origin.x as int,
                r2.origin.y as int,
            ) <= 2 * old(self).radius,
        ensures
            ({
                let a1 = spec_hit_angle_v(
                    old(self).center.x as int,
                    old(self).center.y as int,
                    old(self).radius as int,
                    *r1,
                );
                let a2 = spec_hit_angle_v(
                    old(self).center.x as int,
                    old(self).center.y as int,
                    old(self).radius as int,
                    *r2,
                );
                let lo = if a1 <= a2 {
                    a1
                } else {
                    a2
                };
                let hi = if a1 <= a2 {
                    a2
                } else {
                    a1
                };
                final(self).range_stack@ == crate::rangestack::spec_wrapping_add(
                    old(self).range_stack@,
                    Range { start: lo as i64, end: hi as i64 },
                )
            }),
            final(self).center == old(self).center,
            final(self).radius == old(self).radius,
            final(self).id == old(self).id,
            final(self).wf(),
            len == spec_chord_arclength(
                old(self).radius as int,
                crate::point::spec_distance(
                    r1.origin.x as int,
                    r1.origin.y as int,
                    r2.origin.x as int,
                    r2.origin.y as int,
                ),
            ),
    {
        let dist = r1.origin.distance_from(&r2.origin);
        let iv = self.hit_interval(r1, r2);
        self.range_stack.wrapping_add(&Range::new(iv.0, iv.1));
        proof {
            lemma_mul_bounds(self.radius as int, self.radius as int, 0x4000_0000, 0x4000_0000);
            lemma_mul_bounds(dist as int, dist as int, 0x1_0000_0000, 0x1_0000_0000);
            assert((dist as int) * (dist as int) <= 4 * ((self.radius as int) * (
            self.radius as int))) by (nonlinear_arith)
                requires
                    0 <= dist <= 2 * self.radius,
            ;
            assert(4 * ((self.radius as int) * (self.radius as int)) < (2 * (self.radius as int)
                + 1) * (2 * (self.radius as int) + 1)) by (nonlinear_arith)
                requires
                    self.radius >= 1,
            ;
            lemma_sqrt_floor_le(
                4 * ((self.radius as int) * (self.radius as int)) - (dist as int) * (dist as int),
                2 * (self.radius as int),
            );
        }
        let dr2: i128 = 4 * ((self.radius as i128) * (self.radius as i128)) - (dist as i128) * (
        dist as i128);
        let q = isqrt(dr2 as u128) as i64;
        let theta = atan2_units(dist, q);
        proof {
            lemma_mul_bounds(
                2 * (self.radius as int),
                theta as int,
                0x1_0000_0000,
                0x1_8000_0000,
            );
            vstd::arithmetic::div_mod::lemma_div_pos_is_pos(
                2 * (self.radius as int) * (theta as int),
                1_000_000_000,
            );
            vstd::arithmetic::div_mod::lemma_div_is_ordered(
                2 * (self.radius as int) * (theta as int),
                1_000_000_000int * 0x8_0000_0000,
                1_000_000_000,
            );
            vstd::arithmetic::div_mod::lemma_div_multiples_vanish(0x8_0000_0000int, 1_000_000_000int);
            assert(2 * (self.radius as int) * (theta as int) >= 0) by (nonlinear_arith)
                requires
                    self.radius >= 1,
                    theta >= 0,
            ;
        }
        let arc: i128 = (2 * (self.radius as i128) * (theta as i128)) / 1_000_000_000;
        arc as i64
    }
}

/// The legacy hitbox estimate around a hit point: the hit angle folded
/// into a half turn, widened by half the hitbox angle on each side. The
/// hitbox angle grows with the hit distance and shrinks with the fan
/// resolution and the radius; the raw bounds may leave the circular domain,
/// and an extreme configuration wraps around the fixed-width range bounds.
pub open spec fn spec_approx_hitbox(cx: int, cy: int, radius: int, ray: Ray, res: int) -> Range {
    let a = spec_hit_angle_v(cx, cy, radius, ray);
    let alpha = if a > PI_UNITS {
        a - PI_UNITS
    } else {
        a
    };
    let t = spec_circle_hit(cx, cy, radius, ray).unwrap() as int;
    let hb2 = ((TAU_UNITS * t) / (res * radius * DIR_ONE)) / 2;
    Range { start: (alpha - hb2) as i64, end: (alpha + hb2) as i64 }
}

/// The arc length subtended by a chord of length `dist` on a circle of this
/// radius: `2·radius·asin(dist / (2·radius))`, the inverse sine taken
/// through the arctangent against the complementary leg, in coordinate
/// units (meaningful for `0 <= dist <= 2·radius`).
pub open spec fn spec_chord_arclength(radius: int, dist: int) -> int {
    (2 * radius * spec_atan2_units(dist, sqrt_floor(4 * (radius * radius) - dist * dist)))
        / 1_000_000_000
}

impl Hittable for Circle {
    open spec fn hit_req(&self, ray: &Ray) -> bool {
        self.wf() && ray.wf()
    }

    open spec fn hit_spec(&self, ray: &Ray) -> Option<i64> {
        spec_circle_hit(self.center.x as int, self.center.y as int, self.radius as int, *ray)
    }

    fn hit(&self, ray: &Ray) -> (h: Option<i64>)
    {
        proof {
            lemma_circle_hit_bounds(
                self.center.x as int,
                self.center.y as int,
                self.radius as int,
                *ray,
            );
        }
        let l: Vector = self.center.sub(&ray.origin);
        let hypo: i128 = l.dot(&ray.direction);
        let ll: i128 = l.dot(&l);
        let dd: i128 = (DIR_ONE as i128) * (DIR_ONE as i128);
        proof {
            lemma_mul_bounds(DIR_ONE as int, DIR_ONE as int, 0x1_0000, 0x1_0000);
            lemma_mul_bounds(l.x as int, l.x as int, 0x8000_0000, 0x8000_0000);
            lemma_mul_bounds(l.y as int, l.y as int, 0x8000_0000, 0x8000_0000);
            lemma_mul_bounds(
                self.radius as int,
                self.radius as int,
                0x4000_0000,
                0x4000_0000,
            );
            lemma_mul_bounds(
                (self.radius as int) * (self.radius as int),
                dd as int,
                0x1000_0000_0000_0000,
                0x1_0000_0000,
            );
            lemma_mul_bounds(ll as int, dd as int, 0x1_0000_0000_0000_0000, 0x1_0000_0000);
            lemma_mul_bounds(hypo as int, hypo as int, 0x1_0000_0000_0000, 0x1_0000_0000_0000);
        }
        let rr: i128 = (self.radius as i128) * (self.radius as i128) * dd;
        let dist: i128 = ll * dd - hypo * hypo;
        if dist > rr {
            return None;
        }
        let thc: i128 = isqrt((rr - dist) as u128) as i128;
        let t0: i128 = hypo - thc;
        let t1: i128 = hypo + thc;
        if t0 < 0 && t1 < 0 {
            None
        } else if t0 < 0 {
            Some(t1 as i64)
        } else if t1 < 0 {
            Some(t0 as i64)
        } else if t0 < t1 {
            Some(t0 as i64)
        } else {
            Some(t1 as i64)
        }
    }
}

/// The ray/segment hit distance in fine units: the line through the ray's
/// spanned chord is intersected with the line through the segment by the
/// determinant formula; a zero determinant (parallel lines) and an
/// intersection outside the segment's bounding extent are rejected.
pub open spec fn spec_segment_hit(sv: SegmentView, ray: Ray) -> Option<i64> {
    let r1 = ray.origin;
    let r2 = ray.spec_at(RAY_SPAN as int);
    let det = (r1.x - r2.x) * (sv.y1 - sv.y2) - (r1.y - r2.y) * (sv.x1 - sv.x2);
    if det == 0 {
        None
    } else {
        let cr = r1.x * r2.y - r1.y * r2.x;
        let cs = sv.x1 * sv.y2 - sv.y1 * sv.x2;
        let px = spec_div_floor(cr * (sv.x1 - sv.x2) - (r1.x - r2.x) * cs, det);
        let py = spec_div_floor(cr * (sv.y1 - sv.y2) - (r1.y - r2.y) * cs, det);
        if !seg_bbox_contains(sv, px, py) {
            None
        } else {
            Some(
                sqrt_floor(
                    ((px - r1.x) * (px - r1.x) + (py - r1.y) * (py - r1.y)) * (DIR_ONE * DIR_ONE),
                ) as i64,
            )
        }
    }
}

/// The point lies within the segment's axis-aligned bounding extent.
pub open spec fn seg_bbox_contains(sv: SegmentView, px: int, py: int) -> bool {
    let xlo = if sv.x1 < sv.x2 { sv.x1 } else { sv.x2 };
    let xhi = if sv.x1 < sv.x2 { sv.x2 } else { sv.x1 };
    let ylo = if sv.y1 < sv.y2 { sv.y1 } else { sv.y2 };
    let yhi = if sv.y1 < sv.y2 { sv.y2 } else { sv.y1 };
    xlo <= px <= xhi && ylo <= py <= yhi
}

impl Segment {
    /// A well-formed segment lies within the field bounds.
    pub open spec fn wf(&self) -> bool {
        self.p1.bounded(MAX_COORD as int) && self.p2.bounded(MAX_COORD as int)
    }

    pub fn new(p1: Point, p2: Point) -> (s: Segment)
        ensures
            s.p1 == p1,
            s.p2 == p2,
    {
        Segment { p1, p2 }
    }

    /// The slope and intercept of the segment's line, both scaled by
    /// `DIR_ONE` and rounded toward negative infinity.
    pub fn get_coeffs(&self) -> (c: (i64, i64))
        requires
            self.wf(),
            self.p1.x != self.p2.x,
        ensures
            c.0 == spec_div_floor((self.p2.y - self.p1.y) * DIR_ONE, self.p2.x - self.p1.x),
            c.1 == self.p1.y - spec_div_floor(c.0 * self.p1.x, DIR_ONE as int),
    {
        let x: i64 = self.p2.x - self.p1.x;
        let y: i64 = self.p2.y - self.p1.y;
        proof {
            lemma_mul_bounds(y as int, DIR_ONE as int, 0x8000_0000, 0x1_0000);
        }
        let num: i128 = (y as i128) * (DIR_ONE as i128);
        let slope: i128 = if x < 0 {
            div_floor(-num, -(x as i128))
        } else {
            div_floor(num, x as i128)
        };
        proof {
            if x < 0 {
                crate::trig::lemma_div_range(-(num as int), -(x as int));
            } else {
                crate::trig::lemma_div_range(num as int, x as int);
            }
            lemma_mul_bounds(slope as int, self.p1.x as int, 0x8000_0000_0000, 0x4000_0000);
            vstd::arithmetic::div_mod::lemma_div_is_ordered(
                slope as int * self.p1.x,
                (DIR_ONE as int) * 0x2000_0000_0000_0000,
                DIR_ONE as int,
            );
            vstd::arithmetic::div_mod::lemma_div_is_ordered(
                (DIR_ONE as int) * (-0x2000_0000_0000_0000),
                slope as int * self.p1.x,
                DIR_ONE as int,
            );
            vstd::arithmetic::div_mod::lemma_div_multiples_vanish(
                0x2000_0000_0000_0000,
                DIR_ONE as int,
            );
            vstd::arithmetic::div_mod::lemma_div_multiples_vanish(
                -0x2000_0000_0000_0000,
                DIR_ONE as int,
            );
        }
        let scaled: i128 = div_floor(slope * (self.p1.x as i128), DIR_ONE as i128);
        let intercept: i64 = self.p1.y - (scaled as i64);
        (slope as i64, intercept)
    }

    /// An exact copy.
    pub fn duplicate(&self) -> (s: Segment)
        ensures
            s@ == self@,
            s.p1 == self.p1,
            s.p2 == self.p2,
    {
        Segment { p1: self.p1, p2: self.p2 }
    }
}

impl Hittable for Segment {
    open spec fn hit_req(&self, ray: &Ray) -> bool {
        self.wf() && ray.wf()
    }

    open spec fn hit_spec(&self, ray: &Ray) -> Option<i64> {
        spec_segment_hit(self@, *ray)
    }

    fn hit(&self, ray: &Ray) -> (h: Option<i64>)
    {
        let (r1, r2) = ray.spanned_points();
        let r1x: i128 = r1.x as i128;
        let r1y: i128 = r1.y as i128;
        let r2x: i128 = r2.x as i128;
        let r2y: i128 = r2.y as i128;
        let s1x: i128 = self.p1.x as i128;
        let s1y: i128 = self.p1.y as i128;
        let s2x: i128 = self.p2.x as i128;
        let s2y: i128 = self.p2.y as i128;
        proof {
            lemma_mul_bounds((r1x - r2x) as int, (s1y - s2y) as int, 0x40_0000_0000, 0x1_0000_0000);
            lemma_mul_bounds((r1y - r2y) as int, (s1x - s2x) as int, 0x40_0000_0000, 0x1_0000_0000);
            lemma_mul_bounds(r1x as int, r2y as int, 0x4000_0000, 0x20_0000_0000);
            lemma_mul_bounds(r1y as int, r2x as int, 0x4000_0000, 0x20_0000_0000);
            lemma_mul_bounds(s1x as int, s2y as int, 0x4000_0000, 0x4000_0000);
            lemma_mul_bounds(s1y as int, s2x as int, 0x4000_0000, 0x4000_0000);
        }
        let det: i128 = (r1x - r2x) * (s1y - s2y) - (r1y - r2y) * (s1x - s2x);
        if det == 0 {
            return None;
        }
        let cr: i128 = r1x * r2y - r1y * r2x;
        let cs: i128 = s1x * s2y - s1y * s2x;
        proof {
            lemma_mul_bounds(cr as int, (s1x - s2x) as int, 0x20_0000_0000_0000_0000, 0x1_0000_0000);
            lemma_mul_bounds(cr as int, (s1y - s2y) as int, 0x20_0000_0000_0000_0000, 0x1_0000_0000);
            lemma_mul_bounds((r1x - r2x) as int, cs as int, 0x40_0000_0000, 0x2000_0000_0000_0000);
            lemma_mul_bounds((r1y - r2y) as int, cs as int, 0x40_0000_0000, 0x2000_0000_0000_0000);
        }
        let ix: i128 = cr * (s1x - s2x) - (r1x - r2x) * cs;
        let iy: i128 = cr * (s1y - s2y) - (r1y - r2y) * cs;
        let px: i128 = if det < 0 {
            div_floor(-ix, -det)
        } else {
            div_floor(ix, det)
        };
        let py: i128 = if det < 0 {
            div_floor(-iy, -det)
        } else {
            div_floor(iy, det)
        };
        let xlo: i128 = if s1x < s2x { s1x } else { s2x };
        let xhi: i128 = if s1x < s2x { s2x } else { s1x };
        let ylo: i128 = if s1y < s2y { s1y } else { s2y };
        let yhi: i128 = if s1y < s2y { s2y } else { s1y };
        if !(xlo <= px && px <= xhi && ylo <= py && py <= yhi) {
            return None;
        }
        proof {
            lemma_mul_bounds((px - r1x) as int, (px - r1x) as int, 0x1_0000_0000, 0x1_0000_0000);
            lemma_mul_bounds((py - r1y) as int, (py - r1y) as int, 0x1_0000_0000, 0x1_0000_0000);
            assert((px - r1x) as int * ((px - r1x) as int) >= 0 && (py - r1y) as int * ((py - r1y)
                as int) >= 0) by (nonlinear_arith);
            lemma_mul_bounds(
                (px - r1x) as int * ((px - r1x) as int) + (py - r1y) as int * ((py - r1y) as int),
                (DIR_ONE as int) * (DIR_ONE as int),
                0x2_0000_0000_0000_0000,
                0x1_0000_0000,
            );
            assert(((px - r1x) * (px - r1x) + (py - r1y) * (py - r1y)) as int * ((DIR_ONE as int)
                * (DIR_ONE as int)) >= 0) by (nonlinear_arith)
                requires
                    (px - r1x) as int * ((px - r1x) as int) >= 0,
                    (py - r1y) as int * ((py - r1y) as int) >= 0,
                    (DIR_ONE as int) * (DIR_ONE as int) >= 0,
                    ((px - r1x) * (px - r1x) + (py - r1y) * (py - r1y)) as int == (px - r1x) as int
                        * ((px - r1x) as int) + (py - r1y) as int * ((py - r1y) as int),
            ;
            assert((DIR_ONE as int) * (DIR_ONE as int) >= 0) by (nonlinear_arith)
                requires
                    DIR_ONE > 0,
            ;
            lemma_sqrt_floor_le(
                (((px - r1x) * (px - r1x) + (py - r1y) * (py - r1y)) * ((DIR_ONE as i128) * (
                DIR_ONE as i128))) as int,
                0x4_0000_0000_0000 - 1,
            );
        }
        let d2: u128 = (((px - r1x) * (px - r1x) + (py - r1y) * (py - r1y)) * ((DIR_ONE as i128)
            * (DIR_ONE as i128))) as u128;
        Some(isqrt(d2) as i64)
    }
}

/// The hit distance of a polymorphic element, dispatched by its variant.
pub open spec fn spec_element_hit(ev: ElementView, ray: Ray) -> Option<i64> {
    match ev {
        ElementView::Circle(cv) => spec_circle_hit(cv.cx, cv.cy, cv.radius, ray),
        ElementView::Segment(sv) => spec_segment_hit(sv, ray),
    }
}

impl Element {
    /// A well-formed element, whichever variant it is.
    pub open spec fn wf(&self) -> bool {
        match self {
            Element::Circle(c) => c.wf(),
            Element::Segment(s) => s.wf(),
        }
    }

    /// An exact copy, interval stacks included.
    pub fn duplicate(&self) -> (e: Element)
        ensures
            e@ == self@,
            e.wf() == self.wf(),
    {
        match self {
            Element::Circle(c) => Element::Circle(c.duplicate()),
            Element::Segment(s) => Element::Segment(s.duplicate()),
        }
    }
}

impl Hittable for Element {
    open spec fn hit_req(&self, ray: &Ray) -> bool {
        self.wf() && ray.wf()
    }

    open spec fn hit_spec(&self, ray: &Ray) -> Option<i64> {
        spec_element_hit(self@, *ray)
    }

    fn hit(&self, ray: &Ray) -> (h: Option<i64>)
    {
        match self {
            Element::Circle(c) => c.hit(ray),
            Element::Segment(s) => s.hit(ray),
        }
    }
}

/// A resolved nearest hit: the distance in fine units and the index of the
/// struck element in its scene. Distances are integers, so the non-finite
/// distances the domain once had to guard against cannot arise.
#[derive(Clone, Copy, Debug, PartialEq, Eq, Structural)]
pub struct Intersection {
    pub distance: i64,
    pub index: usize,
}

impl Intersection {
    pub fn new(distance: i64, index: usize) -> (it: Intersection)
        ensures
            it.distance == distance,
            it.index == index,
    {
        Intersection { distance, index }
    }
}

} // verus!
