// The combinatorial search: entry points, error reporting, the coverage
// bound of a single sensor, and determinism across repeated runs.

use place_me::trig::TAU_UNITS;
use place_me::{optimize_v1, optimize_v2, optimize_v3, PlaceError};

type Coverages = Vec<Vec<(String, Vec<i64>)>>;

fn one_circle() -> (Vec<i64>, Vec<i64>, Vec<i64>, Vec<String>) {
    (vec![500], vec![500], vec![100], vec![String::from("obj-1")])
}

fn run_v1(step: usize, res: u32) -> Result<(Vec<i64>, Coverages), PlaceError> {
    let (ys, xs, radii, ids) = one_circle();
    optimize_v1(ys, xs, radii, ids, Vec::new(), 1000, 1000, res, step)
}

#[test]
fn mismatched_input_arrays_are_rejected() {
    let r = optimize_v1(
        vec![1, 2],
        vec![1],
        vec![10],
        vec![String::from("a")],
        Vec::new(),
        100,
        100,
        8,
        10,
    );
    assert_eq!(r.unwrap_err(), PlaceError::ShapeMismatch);
}

#[test]
fn obstacle_array_must_hold_quadruples() {
    let r = optimize_v1(
        vec![50],
        vec![50],
        vec![10],
        vec![String::from("a")],
        vec![1, 2, 3],
        100,
        100,
        8,
        10,
    );
    assert_eq!(r.unwrap_err(), PlaceError::ShapeMismatch);
}

#[test]
fn empty_scene_is_rejected() {
    let r = optimize_v1(
        Vec::new(),
        Vec::new(),
        Vec::new(),
        Vec::new(),
        Vec::new(),
        100,
        100,
        8,
        10,
    );
    assert_eq!(r.unwrap_err(), PlaceError::EmptyScene);
}

#[test]
fn zero_step_yields_no_candidates() {
    let (ys, xs, radii, ids) = one_circle();
    let r = optimize_v1(ys, xs, radii, ids, Vec::new(), 1000, 1000, 8, 0);
    assert_eq!(r.unwrap_err(), PlaceError::NoCandidates);
}

#[test]
fn empty_field_yields_no_candidates() {
    let (ys, xs, radii, ids) = one_circle();
    let r = optimize_v1(ys, xs, radii, ids, Vec::new(), 0, 0, 8, 10);
    assert_eq!(r.unwrap_err(), PlaceError::NoCandidates);
}

#[test]
fn single_sensor_finds_a_position_on_the_perimeter() {
    let (pos, covs) = run_v1(250, 360).unwrap();
    assert_eq!(pos.len(), 2);
    assert_eq!(covs.len(), 1);
    assert!(pos[0] == 0 || pos[0] == 1000 || pos[0] % 250 == 0);
    assert!(pos[1] == 0 || pos[1] == 1000 || pos[1] % 250 == 0);
    // The circle is visible from everywhere, so the winner sees it.
    let entry = &covs[0];
    assert_eq!(entry.len(), 1);
    assert_eq!(entry[0].0, "obj-1");
    assert!(entry[0].1.len() >= 2);
    assert_eq!(entry[0].1.len() % 2, 0);
}

#[test]
fn single_sensor_coverage_respects_the_subtended_arc_bound() {
    // One circle of radius r = 100 at least d = 500 from every perimeter
    // point: no evaluated configuration can cover more of the boundary than
    // the subtended visible arc, 2·acos(r/d) out of 2π.
    let (_pos, covs) = run_v1(250, 720).unwrap();
    let mut total_units: i64 = 0;
    for (_, flat) in &covs[0] {
        let mut k = 0;
        while k + 1 < flat.len() {
            total_units += flat[k + 1] - flat[k];
            k += 2;
        }
    }
    let covered_rad = total_units as f64 / 1e9;
    let bound = 2.0 * (100.0f64 / 500.0).acos();
    assert!(covered_rad <= bound, "covered {covered_rad} exceeds bound {bound}");
    assert!(covered_rad > 0.0);
}

#[test]
fn running_the_optimizer_twice_gives_identical_results() {
    let a = run_v1(250, 180).unwrap();
    let b = run_v1(250, 180).unwrap();
    assert_eq!(a.0, b.0);
    assert_eq!(a.1, b.1);
}

#[test]
fn two_sensor_search_returns_two_positions() {
    let ys = vec![300, 700];
    let xs = vec![300, 700];
    let radii = vec![80, 80];
    let ids = vec![String::from("a"), String::from("b")];
    let r = optimize_v2(ys, xs, radii, ids, Vec::new(), 1000, 1000, 90, 500);
    let (pos, covs) = r.unwrap();
    assert_eq!(pos.len(), 4);
    assert_eq!(covs.len(), 2);
}

#[test]
fn two_sensor_search_is_deterministic() {
    let run = || {
        optimize_v2(
            vec![300, 700],
            vec![300, 700],
            vec![80, 80],
            vec![String::from("a"), String::from("b")],
            Vec::new(),
            1000,
            1000,
            90,
            500,
        )
        .unwrap()
    };
    let a = run();
    let b = run();
    assert_eq!(a.0, b.0);
    assert_eq!(a.1, b.1);
}

#[test]
fn three_sensor_search_returns_three_positions() {
    let ys = vec![500];
    let xs = vec![500];
    let radii = vec![200];
    let ids = vec![String::from("solo")];
    let r = optimize_v3(ys, xs, radii, ids, Vec::new(), 1000, 1000, 60, 500);
    let (pos, covs) = r.unwrap();
    assert_eq!(pos.len(), 6);
    assert_eq!(covs.len(), 3);
    // Every returned coordinate lies on the sampled perimeter lattice.
    for p in &pos {
        assert!(*p == 0 || *p == 1000 || *p % 500 == 0);
    }
}

#[test]
fn obstacle_blocks_coverage_from_behind() {
    // A wall between the right edge and the circle: a sensor on the right
    // cannot see it, so the winner stands elsewhere and coverage is partial.
    let ys = vec![500];
    let xs = vec![300];
    let radii = vec![100];
    let ids = vec![String::from("walled")];
    let obstacles = vec![600, 0, 600, 1000];
    let r = optimize_v1(ys, xs, radii, ids, obstacles, 1000, 1000, 360, 500);
    let (_pos, covs) = r.unwrap();
    let mut total_units: i64 = 0;
    for (_, flat) in &covs[0] {
        let mut k = 0;
        while k + 1 < flat.len() {
            total_units += flat[k + 1] - flat[k];
            k += 2;
        }
    }
    assert!(total_units > 0);
    assert!(total_units < TAU_UNITS / 2);
}

#[test]
fn winning_coverage_lists_are_consolidated() {
    let (_pos, covs) = run_v1(500, 360).unwrap();
    for (_, flat) in &covs[0] {
        let mut k = 0;
        while k + 1 < flat.len() {
            assert!(flat[k] <= flat[k + 1]);
            assert!(0 <= flat[k] && flat[k + 1] <= TAU_UNITS);
            if k + 2 < flat.len() {
                assert!(flat[k + 1] < flat[k + 2]);
            }
            k += 2;
        }
    }
}
