// Angular interval stack behaviour: wraparound insertion, consolidation,
// and the measured length of covered arc.

use place_me::rangestack::{Range, RangeStack};
use place_me::trig::TAU_UNITS;

// About one nanoradian per unit.
const RAD: i64 = 1_000_000_000;

fn stack_of(ranges: &[(i64, i64)]) -> RangeStack {
    let mut rs = RangeStack::new();
    for &(s, e) in ranges {
        rs.wrapping_add(&Range::new(s, e));
    }
    rs
}

#[test]
fn minor_arc_is_stored_as_given() {
    // An arc inside the domain spanning less than a half turn is stored
    // exactly as the ordered pair.
    let rs = stack_of(&[(RAD, 2 * RAD)]);
    assert_eq!(rs.ranges.len(), 1);
    assert_eq!(rs.ranges[0].start, RAD);
    assert_eq!(rs.ranges[0].end, 2 * RAD);
}

#[test]
fn minor_arc_merges_with_adjacent() {
    // A second overlapping arc merges into the most recently appended one.
    let rs = stack_of(&[(RAD, 2 * RAD), (RAD + RAD / 2, 2 * RAD + RAD / 2)]);
    assert_eq!(rs.ranges.len(), 1);
    assert_eq!(rs.ranges[0].start, RAD);
    assert_eq!(rs.ranges[0].end, 2 * RAD + RAD / 2);
}

#[test]
fn reversed_bounds_are_ordered_first() {
    let rs = stack_of(&[(2 * RAD, RAD)]);
    assert_eq!(rs.ranges.len(), 1);
    assert_eq!(rs.ranges[0].start, RAD);
    assert_eq!(rs.ranges[0].end, 2 * RAD);
}

#[test]
fn seam_crossing_pair_splits_at_seam() {
    // Raw angles 6.0 and 0.3 (2π being about 6.283): the minor arc crosses
    // the seam, so the stored coverage is [0, 0.3] and [6.0, 2π].
    let rs = stack_of(&[(6_000_000_000, 300_000_000)]);
    let c = rs.consolidate();
    assert_eq!(c.ranges.len(), 2);
    assert_eq!(c.ranges[0].start, 0);
    assert_eq!(c.ranges[0].end, 300_000_000);
    assert_eq!(c.ranges[1].start, 6_000_000_000);
    assert_eq!(c.ranges[1].end, TAU_UNITS);
}

#[test]
fn overflowing_arc_wraps_across_seam() {
    // A small arc built from raw angles reaching below zero wraps its
    // overflow across the seam instead of storing an out-of-domain bound.
    let rs = stack_of(&[(-RAD / 2, RAD / 2)]);
    let c = rs.consolidate();
    assert_eq!(c.ranges.len(), 2);
    assert_eq!(c.ranges[0].start, 0);
    assert_eq!(c.ranges[0].end, RAD / 2);
    assert_eq!(c.ranges[1].start, TAU_UNITS - RAD / 2);
    assert_eq!(c.ranges[1].end, TAU_UNITS);
}

#[test]
fn consolidation_sorts_merges_and_stays_in_domain() {
    // Out-of-order, overlapping insertions; after consolidation the stack
    // is sorted ascending by start, pairwise disjoint, inside [0, 2π].
    let rs = stack_of(&[
        (4 * RAD, 5 * RAD),
        (RAD, 2 * RAD),
        (RAD + RAD / 2, 3 * RAD),
        (5 * RAD, 5 * RAD + RAD / 4),
    ]);
    let c = rs.consolidate();
    assert_eq!(c.ranges.len(), 2);
    for r in &c.ranges {
        assert!(0 <= r.start && r.start <= r.end && r.end <= TAU_UNITS);
    }
    for w in c.ranges.windows(2) {
        assert!(w[0].end < w[1].start);
    }
    assert_eq!(c.ranges[0].start, RAD);
    assert_eq!(c.ranges[0].end, 3 * RAD);
    assert_eq!(c.ranges[1].start, 4 * RAD);
    assert_eq!(c.ranges[1].end, 5 * RAD + RAD / 4);
}

#[test]
fn consolidation_leaves_live_stack_untouched() {
    let rs = stack_of(&[(4 * RAD, 5 * RAD), (RAD, 2 * RAD)]);
    let before: Vec<(i64, i64)> = rs.ranges.iter().map(|r| (r.start, r.end)).collect();
    let _ = rs.consolidate();
    let after: Vec<(i64, i64)> = rs.ranges.iter().map(|r| (r.start, r.end)).collect();
    assert_eq!(before, after);
}

#[test]
fn full_circle_length_is_two_pi() {
    // Three overlapping arcs, each under a half turn, covering the whole
    // circle: the consolidated length equals 2π within floating tolerance.
    let rs = stack_of(&[
        (0, 2_500_000_000),
        (2_400_000_000, 5_000_000_000),
        (4_900_000_000, TAU_UNITS),
    ]);
    let c = rs.consolidate();
    assert_eq!(c.ranges.len(), 1);
    let len = c.length();
    assert_eq!(len, TAU_UNITS);
    let measured = len as f64 / RAD as f64;
    let two_pi = 2.0 * std::f64::consts::PI;
    assert!((measured - two_pi).abs() < 1e-8);
}

#[test]
fn length_of_empty_stack_is_zero() {
    let rs = RangeStack::new();
    assert!(rs.is_empty());
    assert_eq!(rs.consolidate().length(), 0);
}

#[test]
fn duplicate_copies_every_interval() {
    let rs = stack_of(&[(RAD, 2 * RAD), (4 * RAD, 5 * RAD)]);
    let d = rs.duplicate();
    assert_eq!(d.ranges.len(), rs.ranges.len());
    for (a, b) in rs.ranges.iter().zip(d.ranges.iter()) {
        assert_eq!(a.start, b.start);
        assert_eq!(a.end, b.end);
    }
}
