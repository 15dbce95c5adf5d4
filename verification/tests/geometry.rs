// Fixed-point numeric kernels and hit-testing geometry.

use place_me::field::{cast_ray, Field};
use place_me::point::Point;
use place_me::rangestack::RangeStack;
use place_me::ray::Ray;
use place_me::sensor::Sensor;
use place_me::shape::{Circle, Element, Hittable, Segment};
use place_me::trig::{
    atan2_units, cos_units, div_floor, isqrt, sin_units, DIR_ONE, HALF_PI_UNITS, PI_UNITS,
    QUARTER_PI_UNITS, TAU_UNITS,
};
use place_me::vector::Vector;

fn unit_ray(ox: i64, oy: i64, dx: i64, dy: i64) -> Ray {
    Ray { origin: Point { x: ox, y: oy }, direction: Vector { x: dx, y: dy } }
}

fn circle_at(cx: i64, cy: i64, r: i64, id: &str) -> Circle {
    Circle::new(Point::new(cx, cy), r, RangeStack::new(), String::from(id))
}

#[test]
fn isqrt_rounds_down() {
    assert_eq!(isqrt(0), 0);
    assert_eq!(isqrt(1), 1);
    assert_eq!(isqrt(15), 3);
    assert_eq!(isqrt(16), 4);
    assert_eq!(isqrt(1_000_000), 1000);
    assert_eq!(isqrt(999_999), 999);
}

#[test]
fn div_floor_rounds_toward_negative_infinity() {
    assert_eq!(div_floor(7, 2), 3);
    assert_eq!(div_floor(-7, 2), -4);
    assert_eq!(div_floor(-8, 2), -4);
    assert_eq!(div_floor(0, 5), 0);
}

#[test]
fn sine_and_cosine_at_quarter_turns() {
    assert_eq!(sin_units(0), 0);
    assert_eq!(cos_units(0), DIR_ONE);
    assert_eq!(sin_units(HALF_PI_UNITS), DIR_ONE);
    assert_eq!(sin_units(PI_UNITS), 0);
    assert_eq!(cos_units(PI_UNITS), -DIR_ONE);
}

#[test]
fn sine_approximation_is_close() {
    // The rational approximation stays within a fraction of a percent of
    // the true sine across the circle.
    let mut a: i64 = 0;
    while a < TAU_UNITS {
        let approx = sin_units(a) as f64 / DIR_ONE as f64;
        let exact = (a as f64 / 1e9).sin();
        assert!((approx - exact).abs() < 0.005);
        a += 100_000_000;
    }
}

#[test]
fn atan2_axes_and_diagonal() {
    assert_eq!(atan2_units(0, 0), 0);
    assert_eq!(atan2_units(0, 1000), 0);
    assert_eq!(atan2_units(1000, 0), HALF_PI_UNITS);
    assert_eq!(atan2_units(1000, 1000), QUARTER_PI_UNITS);
    assert_eq!(atan2_units(-1000, 0), TAU_UNITS - HALF_PI_UNITS);
    let near_pi = atan2_units(1, -100_000);
    assert!((near_pi - PI_UNITS).abs() < 100_000_000);
}

#[test]
fn point_distance_is_euclidean() {
    let a = Point::new(0, 0);
    let b = Point::new(3000, 4000);
    assert_eq!(a.distance_from(&b), 5000);
}

#[test]
fn ray_at_walks_the_direction() {
    let r = unit_ray(100, 200, DIR_ONE, 0);
    let p = r.at(1000 * DIR_ONE);
    assert_eq!(p.x, 1100);
    assert_eq!(p.y, 200);
}

#[test]
fn vector_normalize_scales_to_dir_one() {
    let v = Vector { x: 300, y: 400 };
    let n = v.normalize();
    assert_eq!(n.x, 300 * DIR_ONE / 500);
    assert_eq!(n.y, 400 * DIR_ONE / 500);
}

#[test]
fn circle_hit_head_on_returns_distance_four() {
    // A ray from (-5, 0) toward +x against a unit-radius circle at the
    // origin hits at distance 4 (coordinates scaled by 1000 units).
    let c = circle_at(0, 0, 1000, "c");
    let r = unit_ray(-5000, 0, DIR_ONE, 0);
    assert_eq!(c.hit(&r), Some(4000 * DIR_ONE));
}

#[test]
fn circle_hit_misses_when_perpendicular_distance_exceeds_radius() {
    let c = circle_at(0, 0, 1000, "c");
    let r = unit_ray(-5000, 2000, DIR_ONE, 0);
    assert_eq!(c.hit(&r), None);
}

#[test]
fn circle_hit_tangent_returns_one_distance() {
    let c = circle_at(0, 0, 1000, "c");
    let r = unit_ray(-5000, 1000, DIR_ONE, 0);
    assert_eq!(c.hit(&r), Some(5000 * DIR_ONE));
}

#[test]
fn circle_behind_origin_is_not_hit() {
    let c = circle_at(-5000, 0, 1000, "c");
    let r = unit_ray(0, 0, DIR_ONE, 0);
    assert_eq!(c.hit(&r), None);
}

#[test]
fn segment_hit_reports_distance_to_crossing() {
    let s = Segment::new(Point::new(750, -1000), Point::new(750, 1000));
    let r = unit_ray(0, 0, DIR_ONE, 0);
    assert_eq!(s.hit(&r), Some(750 * DIR_ONE));
}

#[test]
fn segment_misses_outside_its_extent() {
    let s = Segment::new(Point::new(750, 100), Point::new(750, 1000));
    let r = unit_ray(0, 0, DIR_ONE, 0);
    assert_eq!(s.hit(&r), None);
}

#[test]
fn segment_parallel_ray_misses() {
    let s = Segment::new(Point::new(0, 100), Point::new(1000, 100));
    let r = unit_ray(0, 0, DIR_ONE, 0);
    assert_eq!(s.hit(&r), None);
}

#[test]
fn trace_returns_the_nearer_of_two_circles() {
    let elements = vec![
        Element::Circle(circle_at(8000, 0, 500, "far")),
        Element::Circle(circle_at(2000, 0, 500, "near")),
    ];
    let field = Field::new(elements, 1, 100_000, 100_000);
    let r = unit_ray(0, 0, DIR_ONE, 0);
    let hit = field.trace(&r).unwrap();
    assert_eq!(hit.index, 1);
    assert_eq!(hit.distance, 1500 * DIR_ONE);
    match cast_ray(&field, &r) {
        Some(Element::Circle(c)) => assert_eq!(c.id, "near"),
        _ => panic!("expected the nearer circle"),
    }
}

#[test]
fn opaque_segment_occludes_circle() {
    let elements = vec![
        Element::Circle(circle_at(1000, 0, 100, "c")),
        Element::Segment(Segment::new(Point::new(750, -1000), Point::new(750, 1000))),
    ];
    let field = Field::new(elements, 1, 100_000, 100_000);
    let r = unit_ray(0, 0, DIR_ONE, 0);
    let hit = field.trace(&r).unwrap();
    assert_eq!(hit.index, 1);
    assert_eq!(hit.distance, 750 * DIR_ONE);
}

#[test]
fn hit_angle_faces_the_sensor() {
    // A head-on ray from the left strikes the circle's boundary at the
    // point facing the sensor, at angle π from the circle's center.
    let c = circle_at(0, 0, 1000, "c");
    let r = unit_ray(-5000, 0, DIR_ONE, 0);
    let alpha = c.hit_angle(&r);
    assert!((alpha - PI_UNITS).abs() < 10_000_000);
}

#[test]
fn sensor_fan_is_uniform() {
    let s = Sensor::new_at(&Point::new(7, 9)).with_resolution(4);
    assert_eq!(s.rays.len(), 4);
    assert_eq!(s.res, 4);
    assert_eq!(s.rays[0].origin.x, 7);
    assert_eq!(s.rays[0].direction.x, DIR_ONE);
    assert_eq!(s.rays[0].direction.y, 0);
    assert_eq!(s.rays[1].direction.x, 0);
    assert_eq!(s.rays[1].direction.y, DIR_ONE);
}

#[test]
fn perimeter_walk_visits_all_four_edges() {
    let (xs, ys) = Sensor::coordinates_along_circumference(4, 2, 2);
    assert_eq!(xs, vec![0, 2, 4, 2, 0, 0]);
    assert_eq!(ys, vec![0, 0, 0, 2, 2, 0]);
}

#[test]
fn sensor_move_to_updates_origin() {
    let mut s = Sensor::new_at(&Point::new(0, 0));
    s.move_to(11, 13);
    assert_eq!(s.origin.x, 11);
    assert_eq!(s.origin.y, 13);
}

#[test]
fn hit_interval_orders_the_two_angles() {
    let c = circle_at(0, 0, 1000, "c");
    let r1 = unit_ray(-5000, 0, DIR_ONE, 0);
    let r2 = unit_ray(0, -5000, 0, DIR_ONE);
    let (lo, hi) = c.hit_interval(&r1, &r2);
    assert!(lo <= hi);
    assert!(0 <= lo && hi < TAU_UNITS);
}

#[test]
fn approx_hitbox_widens_around_the_hit_angle() {
    // Head-on hit at angle pi; resolution 360 over radius 1000 at hit
    // distance 4000 gives a hitbox of one ninetieth of a turn.
    let c = circle_at(0, 0, 1000, "c");
    let r = unit_ray(-5000, 0, DIR_ONE, 0);
    let hb = c.approx_hitbox_angle(&r, 360);
    assert_eq!(hb.start, 3_106_686_069);
    assert_eq!(hb.end, 3_176_499_239);
    assert_eq!(hb.start + hb.end, 2 * PI_UNITS);
}

#[test]
fn approx_hitbox_below_zero_wraps_across_the_seam() {
    // A hit at angle zero produces a raw range dipping below zero; feeding
    // it to the stack wraps the underflow across the seam.
    let c = circle_at(0, 0, 1000, "c");
    let r = unit_ray(5000, 0, -DIR_ONE, 0);
    let hb = c.approx_hitbox_angle(&r, 360);
    assert_eq!(hb.start, -34_906_585);
    assert_eq!(hb.end, 34_906_585);
    let mut rs = RangeStack::new();
    rs.wrapping_add(&hb);
    let cons = rs.consolidate();
    assert_eq!(cons.ranges.len(), 2);
    assert_eq!(cons.ranges[0].start, 0);
    assert_eq!(cons.ranges[0].end, 34_906_585);
    assert_eq!(cons.ranges[1].start, TAU_UNITS - 34_906_585);
    assert_eq!(cons.ranges[1].end, TAU_UNITS);
}

#[test]
fn arclength_spanned_by_matches_the_chord_formula() {
    // Two parallel rays whose origins sit 1000 apart against a circle of
    // radius 1000: the subtended arc is 2·r·asin(1/2), about 1047 units,
    // computed here through the fixed-point arctangent.
    let mut c = circle_at(0, 0, 1000, "c");
    let r1 = unit_ray(-5000, 0, DIR_ONE, 0);
    let r2 = unit_ray(-5000, 1000, DIR_ONE, 0);
    let len = c.arclength_spanned_by(&r1, &r2);
    assert_eq!(len, 1040);
    let exact = 2.0 * 1000.0 * (0.5f64).asin();
    assert!((len as f64 - exact).abs() < 10.0);
    // The swept interval was credited to the live stack.
    assert!(!c.range_stack.is_empty());
}
