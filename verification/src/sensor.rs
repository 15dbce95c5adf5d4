//! Sensors: an origin on the field's perimeter and a fan of uniformly
//! angularly spaced rays, plus the perimeter lattice of candidate positions.

use vstd::prelude::*;

use crate::point::{Point, MAX_COORD};
use crate::rangestack::RangeStack;
use crate::ray::Ray;
use crate::trig::{
    cos_units, sin_units, spec_cos_units, spec_sin_units, DIR_ONE, TAU_UNITS,
};
use crate::vector::Vector;

verus! {

/// The `i`-th ray of a fan of `res` rays from `origin`: angles advance by
/// the fixed step `TAU_UNITS / res` (rounded down), and the direction is the
/// scaled cosine/sine pair of the angle.
pub open spec fn spec_fan_ray(origin: Point, res: int, i: int) -> Ray {
    let rad = i * ((TAU_UNITS as int) / res);
    Ray {
        origin,
        direction: Vector {
            x: spec_cos_units(rad) as i64,
            y: spec_sin_units(rad) as i64,
        },
    }
}

/// Fan angles stay inside a full turn.
proof fn lemma_fan_angle_in_turn(res: int, i: int)
    requires
        1 <= res,
        0 <= i < res,
    ensures
        0 <= i * ((TAU_UNITS as int) / res) < TAU_UNITS,
{
    let steps = (TAU_UNITS as int) / res;
    vstd::arithmetic::div_mod::lemma_div_pos_is_pos(TAU_UNITS as int, res);
    vstd::arithmetic::div_mod::lemma_fundamental_div_mod(TAU_UNITS as int, res);
    vstd::arithmetic::div_mod::lemma_mod_division_less_than_divisor(TAU_UNITS as int, res);
    assert(res * steps <= TAU_UNITS);
    if steps == 0 {
        assert(i * steps == 0) by (nonlinear_arith)
            requires
                steps == 0,
        ;
    } else {
        assert(0 <= i * steps && i * steps <= (res - 1) * steps && (res - 1) * steps == res
            * steps - steps) by (nonlinear_arith)
            requires
                0 <= i < res,
                steps >= 1,
        ;
    }
}

/// An omnidirectional sensor: an origin, its ray fan, the fan's resolution,
/// and the per-circle coverage attributed to this sensor.
#[derive(Clone, Debug)]
pub struct Sensor {
    pub origin: Point,
    pub rays: Vec<Ray>,
    pub res: u32,
    pub coverages: Vec<(String, RangeStack)>,
}

impl Sensor {
    pub fn new_at(point: &Point) -> (s: Sensor)
        ensures
            s.origin == *point,
            s.rays@.len() == 0,
            s.res == 0,
            s.coverages@.len() == 0,
    {
        Sensor { origin: *point, rays: Vec::new(), res: 0, coverages: Vec::new() }
    }

    /// A sensor at the same origin with a fan of `res` uniformly spaced
    /// rays, angles `i · (TAU_UNITS / res)` for `i` in `0..res`.
    pub fn with_resolution(&self, res: u32) -> (s: Sensor)
        requires
            self.origin.bounded(MAX_COORD as int),
            1 <= res,
        ensures
            s.origin == self.origin,
            s.res == res,
            s.coverages@.len() == 0,
            s.rays@.len() == res,
            forall|i: int|
                0 <= i < res ==> s.rays@[i] == spec_fan_ray(self.origin, res as int, i),
            forall|i: int| 0 <= i < res ==> (#[trigger] s.rays@[i]).wf(),
    {
        let steps: i64 = TAU_UNITS / (res as i64);
        let mut rays: Vec<Ray> = Vec::new();
        let mut i: u32 = 0;
        while i < res
            invariant
                i <= res,
                1 <= res,
                steps == (TAU_UNITS as int) / (res as int),
                self.origin.bounded(MAX_COORD as int),
                rays@.len() == i,
                forall|k: int|
                    0 <= k < i ==> rays@[k] == spec_fan_ray(self.origin, res as int, k),
                forall|k: int| 0 <= k < i ==> (#[trigger] rays@[k]).wf(),
            decreases res - i,
        {
            proof {
                lemma_fan_angle_in_turn(res as int, i as int);
                crate::trig::lemma_sin_units_bounds((i as int) * ((TAU_UNITS as int) / (
                res as int)));
            }
            let rad: i64 = (i as i64) * steps;
            let dir = Vector { x: cos_units(rad), y: sin_units(rad) };
            rays.push(Ray { origin: self.origin, direction: dir });
            i = i + 1;
        }
        Sensor { origin: self.origin, rays, res, coverages: Vec::new() }
    }

    /// Move the sensor to the lattice point `(x, y)`.
    pub fn move_to(&mut self, x: u32, y: u32)
        ensures
            final(self).origin.x == x,
            final(self).origin.y == y,
            final(self).rays@ == old(self).rays@,
            final(self).res == old(self).res,
            final(self).coverages@ == old(self).coverages@,
    {
        self.origin = Point::new(x as i64, y as i64);
    }

    /// The candidate sensor positions: every lattice point at `pixel_step`
    /// spacing walking the field's rectangular perimeter — bottom edge
    /// left-to-right, right edge bottom-to-top, top edge right-to-left, left
    /// edge top-to-bottom — as parallel x and y coordinate vectors.
    pub fn coordinates_along_circumference(width: u32, height: u32, pixel_step: usize) -> (c: (
        Vec<u32>,
        Vec<u32>,
    ))
        requires
            1 <= pixel_step,
            pixel_step <= MAX_COORD,
            width <= MAX_COORD,
            height <= MAX_COORD,
        ensures
            c.0@ == spec_perimeter_xs(width as int, height as int, pixel_step as int),
            c.1@ == spec_perimeter_ys(width as int, height as int, pixel_step as int),
            c.0@.len() == c.1@.len(),
            forall|i: int| 0 <= i < c.0@.len() ==> (#[trigger] c.0@[i]) <= width,
            forall|i: int| 0 <= i < c.1@.len() ==> (#[trigger] c.1@[i]) <= height,
    {
        let bottom_x = ascending_coords(width, pixel_step);
        let right_y = ascending_coords(height, pixel_step);
        let x_dim = bottom_x.len();
        let y_dim = right_y.len();
        let mut xs = bottom_x;
        let mut xs2 = constant_coords(width, y_dim);
        xs.append(&mut xs2);
        let mut xs3 = descending_coords(width, pixel_step);
        xs.append(&mut xs3);
        let mut xs4 = constant_coords(0, y_dim);
        xs.append(&mut xs4);
        let mut ys = constant_coords(0, x_dim);
        let mut ys2 = ascending_coords(height, pixel_step);
        ys.append(&mut ys2);
        let mut ys3 = constant_coords(height, x_dim);
        ys.append(&mut ys3);
        let mut ys4 = descending_coords(height, pixel_step);
        ys.append(&mut ys4);
        proof {
            assert(xs@ =~= spec_perimeter_xs(width as int, height as int, pixel_step as int));
            assert(ys@ =~= spec_perimeter_ys(width as int, height as int, pixel_step as int));
            lemma_perimeter_bounds(width, height, pixel_step as int);
        }
        (xs, ys)
    }
}

/// How many lattice points at `step` spacing lie in `[0, limit)`.
pub open spec fn count_steps(limit: int, step: int) -> int {
    if limit <= 0 {
        0
    } else {
        (limit - 1) / step + 1
    }
}

/// The ascending lattice points `0, step, 2·step, ...` below `limit`.
pub open spec fn spec_ascending(limit: int, step: int) -> Seq<u32> {
    Seq::new(count_steps(limit, step) as nat, |i: int| (i * step) as u32)
}

/// The same lattice points in descending order.
pub open spec fn spec_descending(limit: int, step: int) -> Seq<u32> {
    Seq::new(
        count_steps(limit, step) as nat,
        |i: int| ((count_steps(limit, step) - 1 - i) * step) as u32,
    )
}

/// `n` copies of one coordinate.
pub open spec fn spec_constant(v: u32, n: int) -> Seq<u32> {
    Seq::new(n as nat, |i: int| v)
}

/// The x coordinates of the perimeter walk.
pub open spec fn spec_perimeter_xs(width: int, height: int, step: int) -> Seq<u32> {
    spec_ascending(width, step) + spec_constant(width as u32, count_steps(height, step))
        + spec_descending(width, step) + spec_constant(0, count_steps(height, step))
}

/// The y coordinates of the perimeter walk.
pub open spec fn spec_perimeter_ys(width: int, height: int, step: int) -> Seq<u32> {
    spec_constant(0, count_steps(width, step)) + spec_ascending(height, step) + spec_constant(
        height as u32,
        count_steps(width, step),
    ) + spec_descending(height, step)
}

/// Every coordinate of the perimeter walk stays inside the field bounds.
proof fn lemma_perimeter_bounds(width: u32, height: u32, step: int)
    requires
        1 <= step,
        width <= MAX_COORD,
        height <= MAX_COORD,
    ensures
        forall|i: int|
            0 <= i < spec_perimeter_xs(width as int, height as int, step).len() ==> (
            #[trigger] spec_perimeter_xs(width as int, height as int, step)[i]) <= width,
        forall|i: int|
            0 <= i < spec_perimeter_ys(width as int, height as int, step).len() ==> (
            #[trigger] spec_perimeter_ys(width as int, height as int, step)[i]) <= height,
{
    let xs = spec_perimeter_xs(width as int, height as int, step);
    let ys = spec_perimeter_ys(width as int, height as int, step);
    let nw = count_steps(width as int, step);
    let nh = count_steps(height as int, step);
    assert forall|i: int| 0 <= i < xs.len() implies (#[trigger] xs[i]) <= width by {
        if i < nw {
            lemma_lattice_below(width as int, step, i);
        } else if i < nw + nh {
        } else if i < nw + nh + nw {
            lemma_lattice_below(width as int, step, nw - 1 - (i - nw - nh));
        } else {
        }
    }
    assert forall|i: int| 0 <= i < ys.len() implies (#[trigger] ys[i]) <= height by {
        if i < nw {
        } else if i < nw + nh {
            lemma_lattice_below(height as int, step, i - nw);
        } else if i < nw + nh + nw {
        } else {
            lemma_lattice_below(height as int, step, nh - 1 - (i - nw - nh - nw));
        }
    }
}

/// Every lattice point below the limit stays below it.
proof fn lemma_lattice_below(limit: int, step: int, i: int)
    requires
        1 <= step,
        1 <= limit,
        0 <= i < count_steps(limit, step),
    ensures
        0 <= i * step < limit,
{
    let n = count_steps(limit, step);
    vstd::arithmetic::div_mod::lemma_div_pos_is_pos(limit - 1, step);
    vstd::arithmetic::div_mod::lemma_fundamental_div_mod(limit - 1, step);
    vstd::arithmetic::div_mod::lemma_mod_division_less_than_divisor(limit - 1, step);
    assert(0 <= i * step && i * step <= (n - 1) * step) by (nonlinear_arith)
        requires
            0 <= i <= n - 1,
            step >= 1,
    ;
    assert((n - 1) * step == step * ((limit - 1) / step)) by (nonlinear_arith)
        requires
            n - 1 == (limit - 1) / step,
    ;
}

/// Build the ascending lattice points below `limit`.
fn ascending_coords(limit: u32, step: usize) -> (v: Vec<u32>)
    requires
        1 <= step,
        step <= MAX_COORD,
        limit <= MAX_COORD,
    ensures
        v@ == spec_ascending(limit as int, step as int),
{
    let mut v: Vec<u32> = Vec::new();
    let mut x: u64 = 0;
    let step64: u64 = step as u64;
    proof {
        assert(0 * (step64 as int) == 0) by (nonlinear_arith);
    }
    while x < limit as u64
        invariant
            step64 == step as int,
            1 <= step64 <= MAX_COORD,
            limit <= MAX_COORD,
            x == v@.len() * step64,
            v@.len() * step64 <= limit + step64,
            forall|i: int| 0 <= i < v@.len() ==> v@[i] == (i * (step as int)) as u32,
            forall|i: int| 0 <= i < v@.len() ==> #[trigger] (i * (step as int)) < limit,
        decreases limit + step64 - x,
    {
        proof {
            assert(x < limit as u64);
            assert((v@.len() + 1) * (step64 as int) == v@.len() * (step64 as int) + step64)
                by (nonlinear_arith);
        }
        v.push(x as u32);
        x = x + step64;
    }
    proof {
        let k = v@.len() as int;
        let st = step as int;
        if limit == 0 {
            assert(k * st >= limit);
            if k > 0 {
                assert(k * st >= st) by (nonlinear_arith)
                    requires
                        k >= 1,
                        st >= 1,
                ;
            }
            assert(v@ =~= spec_ascending(limit as int, st));
        } else {
            if k == 0 {
                assert(0 * st == 0) by (nonlinear_arith);
                assert(false);
            }
            assert((k - 1) * st == k * st - st) by (nonlinear_arith);
            assert((k - 1) * st < limit);
            assert(k * st >= limit);
            vstd::arithmetic::div_mod::lemma_fundamental_div_mod_converse(
                limit - 1,
                st,
                k - 1,
                limit - 1 - (k - 1) * st,
            );
            assert(count_steps(limit as int, st) == k);
            assert(v@ =~= spec_ascending(limit as int, st));
        }
    }
    v
}

/// Build the descending lattice points below `limit`.
fn descending_coords(limit: u32, step: usize) -> (v: Vec<u32>)
    requires
        1 <= step,
        step <= MAX_COORD,
        limit <= MAX_COORD,
    ensures
        v@ == spec_descending(limit as int, step as int),
        v@.len() == count_steps(limit as int, step as int),
{
    let asc = ascending_coords(limit, step);
    let n = asc.len();
    let mut v: Vec<u32> = Vec::new();
    let mut i: usize = 0;
    while i < n
        invariant
            i <= n,
            n == count_steps(limit as int, step as int),
            asc@ == spec_ascending(limit as int, step as int),
            v@.len() == i,
            forall|k: int| 0 <= k < i ==> v@[k] == asc@[n - 1 - k],
        decreases n - i,
    {
        v.push(asc[n - 1 - i]);
        i = i + 1;
    }
    proof {
        assert(v@ =~= spec_descending(limit as int, step as int));
    }
    v
}

/// Build `n` copies of one coordinate.
fn constant_coords(value: u32, n: usize) -> (v: Vec<u32>)
    ensures
        v@ == spec_constant(value, n as int),
{
    let mut v: Vec<u32> = Vec::new();
    let mut i: usize = 0;
    while i < n
        invariant
            i <= n,
            v@.len() == i,
            forall|k: int| 0 <= k < i ==> v@[k] == value,
        decreases n - i,
    {
        v.push(value);
        i = i + 1;
    }
    proof {
        assert(v@ =~= spec_constant(value, n as int));
    }
    v
}

} // verus!
