//! The best-result record of one search call: the highest score seen so
//! far, the winning sensor positions, and each winning sensor's coverage.

use vstd::prelude::*;

use crate::point::Point;
use crate::rangestack::RangeStack;

verus! {

/// The running best of a search. `max_coverage` is the scaled score
/// `seen · TAU_UNITS + covered_units`; it starts below every real score, so
/// the first evaluated configuration always seeds the record.
#[derive(Debug)]
pub struct Report {
    pub max_coverage: i64,
    pub sensor_positions: Vec<Point>,
    pub sensor_coverages: Vec<Vec<(String, RangeStack)>>,
}

impl Report {
    /// A fresh record that any evaluated configuration beats.
    pub fn empty() -> (r: Report)
        ensures
            r.max_coverage == -1,
            r.sensor_positions@.len() == 0,
            r.sensor_coverages@.len() == 0,
    {
        Report { max_coverage: -1, sensor_positions: Vec::new(), sensor_coverages: Vec::new() }
    }
}

} // verus!
