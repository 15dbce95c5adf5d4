//! Sensor-placement optimizer over a 2D field of circular objects.
//!
//! Coordinates, radii and distances are fixed-point integers chosen by the
//! caller; ray directions are scaled by `DIR_ONE`; angles are fixed-point
//! units of about one nanoradian, with `TAU_UNITS` standing for a full turn.
//! Scores are scaled the same way: a configuration under which `seen`
//! circles show at least one arc and the consolidated arcs total
//! `covered_units` scores `seen · TAU_UNITS + covered_units`, an
//! integer-dominant ranking in which one more visible object outranks any
//! gain in arc coverage.

use vstd::prelude::*;

pub mod field;
pub mod point;
pub mod rangestack;
pub mod ray;
pub mod report;
pub mod sensor;
pub mod shape;
pub mod trig;
pub mod vector;

verus! {

use crate::field::{spec_coverage, spec_trace, spec_update_stack, views_of, Field};
use crate::point::{Point, MAX_COORD};
use crate::rangestack::{
    lemma_consolidate_len, lemma_consolidated_length_bound, spec_consolidate, spec_length, Range,
    RangeStack,
};
use crate::ray::Ray;
use crate::sensor::spec_fan_ray;
use crate::shape::{Circle, CircleView, Element, ElementView, Segment, SegmentView};
use crate::trig::{lemma_mul_bounds, TAU_UNITS};

/// Why a search could not be run: input arrays whose lengths disagree, a
/// scene with no circular objects, or a perimeter sampling that yields no
/// candidate positions.
#[derive(Clone, Copy, Debug, PartialEq, Eq, Structural)]
pub enum PlaceError {
    ShapeMismatch,
    EmptyScene,
    NoCandidates,
}

/// The identifier sequences of a list of identifier strings.
pub open spec fn ids_views(ids: Seq<String>) -> Seq<Seq<char>> {
    ids.map_values(|s: String| s@)
}

/// The scene built from caller-supplied parallel arrays: one circle per
/// coordinate/radius/identifier triple, with an empty interval stack, then
/// one opaque segment per quadruple of obstacle coordinates.
pub open spec fn spec_init_elements(
    xs: Seq<i64>,
    ys: Seq<i64>,
    radii: Seq<i64>,
    ids: Seq<Seq<char>>,
    obstacles: Seq<i64>,
) -> Seq<ElementView> {
    Seq::new(
        (xs.len() + obstacles.len() as int / 4) as nat,
        |i: int|
            if i < xs.len() {
                ElementView::Circle(
                    CircleView {
                        cx: xs[i] as int,
                        cy: ys[i] as int,
                        radius: radii[i] as int,
                        stack: Seq::empty(),
                        id: ids[i],
                    },
                )
            } else {
                let b = 4 * (i - xs.len());
                ElementView::Segment(
                    SegmentView {
                        x1: obstacles[b] as int,
                        y1: obstacles[b + 1] as int,
                        x2: obstacles[b + 2] as int,
                        y2: obstacles[b + 3] as int,
                    },
                )
            },
    )
}

/// Build the scene from the caller's parallel arrays.
pub fn initialize_elements(
    x: &Vec<i64>,
    y: &Vec<i64>,
    r: &Vec<i64>,
    ids: &Vec<String>,
    obstacles: &Vec<i64>,
) -> (elements: Vec<Element>)
    requires
        x@.len() == y@.len() && y@.len() == r@.len() && r@.len() == ids@.len(),
        obstacles@.len() % 4 == 0,
        forall|i: int| 0 <= i < x@.len() ==> -MAX_COORD <= #[trigger] x@[i] <= MAX_COORD,
        forall|i: int| 0 <= i < y@.len() ==> -MAX_COORD <= #[trigger] y@[i] <= MAX_COORD,
        forall|i: int| 0 <= i < r@.len() ==> 1 <= #[trigger] r@[i] <= MAX_COORD,
        forall|i: int|
            0 <= i < obstacles@.len() ==> -MAX_COORD <= #[trigger] obstacles@[i] <= MAX_COORD,
    ensures
        views_of(elements@) == spec_init_elements(x@, y@, r@, ids_views(ids@), obstacles@),
        elements@.len() == x@.len() + obstacles@.len() / 4,
        forall|i: int| 0 <= i < elements@.len() ==> (#[trigger] elements@[i]).wf(),
        stacks_bounded(views_of(elements@), 0),
{
    let mut elements: Vec<Element> = Vec::new();
    let n = x.len();
    let mut i: usize = 0;
    while i < n
        invariant
            i <= n,
            n == x@.len(),
            x@.len() == y@.len() && y@.len() == r@.len() && r@.len() == ids@.len(),
            forall|k: int| 0 <= k < x@.len() ==> -MAX_COORD <= #[trigger] x@[k] <= MAX_COORD,
            forall|k: int| 0 <= k < y@.len() ==> -MAX_COORD <= #[trigger] y@[k] <= MAX_COORD,
            forall|k: int| 0 <= k < r@.len() ==> 1 <= #[trigger] r@[k] <= MAX_COORD,
            elements@.len() == i,
            forall|k: int|
                0 <= k < i ==> (#[trigger] elements@[k])@ == ElementView::Circle(
                    CircleView {
                        cx: x@[k] as int,
                        cy: y@[k] as int,
                        radius: r@[k] as int,
                        stack: Seq::empty(),
                        id: ids@[k]@,
                    },
                ),
            forall|k: int| 0 <= k < i ==> (#[trigger] elements@[k]).wf(),
        decreases n - i,
    {
        let c = Circle::new(Point::new(x[i], y[i]), r[i], RangeStack::new(), ids[i].clone());
        elements.push(Element::Circle(c));
        i = i + 1;
    }
    let m = obstacles.len();
    let mut j: usize = 0;
    while j < m
        invariant
            j <= m,
            j % 4 == 0,
            m == obstacles@.len(),
            m % 4 == 0,
            forall|k: int|
                0 <= k < obstacles@.len() ==> -MAX_COORD <= #[trigger] obstacles@[k] <= MAX_COORD,
            x@.len() == n,
            elements@.len() == n + j / 4,
            forall|k: int|
                0 <= k < n ==> (#[trigger] elements@[k])@ == ElementView::Circle(
                    CircleView {
                        cx: x@[k] as int,
                        cy: y@[k] as int,
                        radius: r@[k] as int,
                        stack: Seq::empty(),
                        id: ids@[k]@,
                    },
                ),
            forall|k: int|
                n <= k < elements@.len() ==> (#[trigger] elements@[k])@ == ElementView::Segment(
                    SegmentView {
                        x1: obstacles@[4 * (k - n)] as int,
                        y1: obstacles@[4 * (k - n) + 1] as int,
                        x2: obstacles@[4 * (k - n) + 2] as int,
                        y2: obstacles@[4 * (k - n) + 3] as int,
                    },
                ),
            forall|k: int| 0 <= k < elements@.len() ==> (#[trigger] elements@[k]).wf(),
        decreases m - j,
    {
        let s = Segment::new(
            Point::new(obstacles[j], obstacles[j + 1]),
            Point::new(obstacles[j + 2], obstacles[j + 3]),
        );
        elements.push(Element::Segment(s));
        j = j + 4;
    }
    proof {
        assert(views_of(elements@) =~= spec_init_elements(x@, y@, r@, ids_views(ids@), obstacles@));
    }
    elements
}

/// The fan of `res` uniformly spaced rays from `origin`.
pub open spec fn spec_fan(origin: Point, res: int) -> Seq<Ray> {
    Seq::new(res as nat, |i: int| spec_fan_ray(origin, res, i))
}

/// One adjacent ray pair's contribution: when both rays strike the same
/// element and it is a circle, the swept arc between the two hit angles is
/// credited to that circle's stack; otherwise nothing is credited. This is
/// the edge-exclusion policy: a pair bracketing two different elements, or a
/// miss, records no arc. Identifiers are externally unique, so striking
/// the same element and carrying the same identifier are one test.
pub open spec fn spec_pair_step(
    stat: Seq<ElementView>,
    acc: Seq<ElementView>,
    r1: Ray,
    r2: Ray,
) -> Seq<ElementView> {
    match (spec_trace(stat, r1), spec_trace(stat, r2)) {
        (Some(p1), Some(p2)) => {
            if p1.1 == p2.1 {
                match stat[p1.1] {
                    ElementView::Circle(cv) => spec_update_stack(
                        acc,
                        cv.id,
                        Range {
                            start: crate::shape::spec_hit_angle_v(cv.cx, cv.cy, cv.radius, r1)
                                as i64,
                            end: crate::shape::spec_hit_angle_v(cv.cx, cv.cy, cv.radius, r2)
                                as i64,
                        },
                    ),
                    ElementView::Segment(sv) => acc,
                }
            } else {
                acc
            }
        },
        _ => acc,
    }
}

/// The accumulated scene after the first `k` adjacent ray pairs of the fan.
pub open spec fn spec_accumulate_pairs(
    stat: Seq<ElementView>,
    acc: Seq<ElementView>,
    rays: Seq<Ray>,
    k: int,
) -> Seq<ElementView>
    decreases k,
{
    if k <= 0 {
        acc
    } else {
        spec_pair_step(stat, spec_accumulate_pairs(stat, acc, rays, k - 1), rays[k - 1], rays[k])
    }
}

/// Cast every adjacent pair of the fan's rays against the static scene and
/// credit confirmed same-element arcs to the accumulating scene's circles.
pub fn accumulate_fan(stat: &Field, acc: &mut Field, rays: &Vec<Ray>)
    requires
        stat.wf(),
        old(acc).wf(),
        forall|i: int| 0 <= i < rays@.len() ==> (#[trigger] rays@[i]).wf(),
    ensures
        final(acc)@ == spec_accumulate_pairs(stat@, old(acc)@, rays@, rays@.len() - 1),
        final(acc).wf(),
        final(acc).elements@.len() == old(acc).elements@.len(),
        final(acc).res == old(acc).res,
        final(acc).width == old(acc).width,
        final(acc).height == old(acc).height,
{
    let n = rays.len();
    if n == 0 {
        return ;
    }
    let mut i: usize = 0;
    while i < n - 1
        invariant
            i <= n - 1,
            n == rays@.len(),
            n >= 1,
            stat.wf(),
            acc.wf(),
            forall|k: int| 0 <= k < rays@.len() ==> (#[trigger] rays@[k]).wf(),
            acc@ == spec_accumulate_pairs(stat@, old(acc)@, rays@, i as int),
            acc.elements@.len() == old(acc).elements@.len(),
            acc.res == old(acc).res,
            acc.width == old(acc).width,
            acc.height == old(acc).height,
        decreases n - 1 - i,
    {
        let i1 = stat.trace(&rays[i]);
        let i2 = stat.trace(&rays[i + 1]);
        proof {
            crate::field::lemma_spec_trace_props(stat@, rays@[i as int]);
            crate::field::lemma_spec_trace_props(stat@, rays@[i as int + 1]);
        }
        match (i1, i2) {
            (Some(h1), Some(h2)) => {
                if h1.index == h2.index {
                    match &stat.elements[h1.index] {
                        Element::Circle(c) => {
                            proof {
                                assert(stat@[h1.index as int] == stat.elements@[h1.index as int]@);
                            }
                            let range = c.get_range_for_ray_pair(&rays[i], &rays[i + 1]);
                            acc.update_stack(&c.id, range);
                        },
                        Element::Segment(_) => {},
                    }
                }
            },
            _ => {},
        }
        i = i + 1;
    }
}

/// Every circle's stack in the scene holds at most `b` intervals.
pub open spec fn stacks_bounded(evs: Seq<ElementView>, b: int) -> bool {
    forall|i: int|
        0 <= i < evs.len() ==> ((#[trigger] evs[i]) matches ElementView::Circle(cv)
            ==> cv.stack.len() <= b)
}

/// One pair step grows no circle's stack by more than two intervals.
proof fn lemma_pair_step_stacks(
    stat: Seq<ElementView>,
    acc: Seq<ElementView>,
    r1: Ray,
    r2: Ray,
    b: int,
)
    requires
        stacks_bounded(acc, b),
    ensures
        stacks_bounded(spec_pair_step(stat, acc, r1, r2), b + 2),
        spec_pair_step(stat, acc, r1, r2).len() == acc.len(),
{
    let res = spec_pair_step(stat, acc, r1, r2);
    assert forall|i: int|
        0 <= i < res.len() implies ((#[trigger] res[i]) matches ElementView::Circle(cv)
        ==> cv.stack.len() <= b + 2) by {
        assert(acc[i] matches ElementView::Circle(cv0) ==> cv0.stack.len() <= b);
    }
}

/// Accumulating `k` pairs grows no circle's stack by more than `2k`.
proof fn lemma_accumulate_stacks(
    stat: Seq<ElementView>,
    acc: Seq<ElementView>,
    rays: Seq<Ray>,
    k: int,
    b: int,
)
    requires
        stacks_bounded(acc, b),
        0 <= k,
    ensures
        stacks_bounded(spec_accumulate_pairs(stat, acc, rays, k), b + 2 * k),
        spec_accumulate_pairs(stat, acc, rays, k).len() == acc.len(),
    decreases k,
{
    if k > 0 {
        lemma_accumulate_stacks(stat, acc, rays, k - 1, b);
        lemma_pair_step_stacks(
            stat,
            spec_accumulate_pairs(stat, acc, rays, k - 1),
            rays[k - 1],
            rays[k],
            b + 2 * (k - 1),
        );
    }
}

/// How many circles of the scene show at least one accumulated arc.
pub open spec fn spec_seen(evs: Seq<ElementView>) -> int
    decreases evs.len(),
{
    if evs.len() == 0 {
        0
    } else {
        spec_seen(evs.drop_last()) + (match evs.last() {
            ElementView::Circle(cv) => if cv.stack.len() > 0 {
                1int
            } else {
                0int
            },
            ElementView::Segment(sv) => 0int,
        })
    }
}

/// The total consolidated arc span over all circles, in angle units.
pub open spec fn spec_covered_units(evs: Seq<ElementView>) -> int
    decreases evs.len(),
{
    if evs.len() == 0 {
        0
    } else {
        spec_covered_units(evs.drop_last()) + (match evs.last() {
            ElementView::Circle(cv) => spec_length(spec_consolidate(cv.stack)),
            ElementView::Segment(sv) => 0int,
        })
    }
}

/// The scaled score of a scene: any increase in the count of seen objects
/// outranks any gain in covered arc, and covered arc breaks ties.
pub open spec fn spec_score(evs: Seq<ElementView>) -> int {
    spec_seen(evs) * TAU_UNITS + spec_covered_units(evs)
}

/// Compute the scaled score of an accumulated scene.
pub fn coverage_score(field: &Field) -> (score: i64)
    requires
        field.wf(),
        field.elements@.len() <= 0x20_0000,
        stacks_bounded(field@, 0x10_0000),
    ensures
        score == spec_score(field@),
        0 <= score,
{
    let n = field.elements.len();
    let mut covered: i64 = 0;
    let mut seen: i64 = 0;
    let mut i: usize = 0;
    proof {
        assert(field@.subrange(0, 0) =~= Seq::<ElementView>::empty());
    }
    while i < n
        invariant
            i <= n,
            n == field.elements@.len(),
            n <= 0x20_0000,
            field.wf(),
            stacks_bounded(field@, 0x10_0000),
            seen == spec_seen(field@.subrange(0, i as int)),
            covered == spec_covered_units(field@.subrange(0, i as int)),
            0 <= seen <= i,
            0 <= covered <= i * TAU_UNITS,
        decreases n - i,
    {
        proof {
            assert(field@.subrange(0, i + 1 as int).drop_last() =~= field@.subrange(0, i as int));
            assert(field@.subrange(0, i + 1 as int).last() == field@[i as int]);
            assert(field@[i as int] == field.elements@[i as int]@);
        }
        match &field.elements[i] {
            Element::Circle(c) => {
                proof {
                    lemma_consolidate_len(c.range_stack@);
                    assert(field@[i as int] matches ElementView::Circle(cv) && cv.stack
                        == c.range_stack@);
                }
                let rs = c.range_stack.consolidate();
                proof {
                    lemma_consolidated_length_bound(rs@);
                }
                let l = rs.length();
                covered = covered + l;
                if !c.range_stack.is_empty() {
                    seen = seen + 1;
                }
            },
            Element::Segment(_) => {},
        }
        i = i + 1;
    }
    proof {
        assert(field@.subrange(0, field@.len() as int) =~= field@);
    }
    seen * TAU_UNITS + covered
}

/// Flatten a consolidated stack into alternating start/end values.
pub open spec fn spec_flat_ranges(s: Seq<Range>) -> Seq<i64> {
    Seq::new(
        (2 * s.len()) as nat,
        |i: int|
            if i % 2 == 0 {
                s[i / 2].start
            } else {
                s[i / 2].end
            },
    )
}

/// The ghost values of a coverage listing.
pub open spec fn cov_views(v: Seq<(String, RangeStack)>) -> Seq<(Seq<char>, Seq<Range>)> {
    v.map_values(|p: (String, RangeStack)| (p.0@, p.1@))
}

/// The ghost values of a flattened coverage listing.
pub open spec fn flat_cov_views(v: Seq<(String, Vec<i64>)>) -> Seq<(Seq<char>, Seq<i64>)> {
    v.map_values(|p: (String, Vec<i64>)| (p.0@, p.1@))
}

/// A coverage listing with each stack flattened.
pub open spec fn spec_flat_cov(cov: Seq<(Seq<char>, Seq<Range>)>) -> Seq<(Seq<char>, Seq<i64>)> {
    cov.map_values(|p: (Seq<char>, Seq<Range>)| (p.0, spec_flat_ranges(p.1)))
}

fn flatten_ranges(rs: &RangeStack) -> (v: Vec<i64>)
    ensures
        v@ == spec_flat_ranges(rs@),
{
    let mut v: Vec<i64> = Vec::new();
    let mut i: usize = 0;
    let n = rs.ranges.len();
    while i < n
        invariant
            i <= n,
            n == rs@.len(),
            v@.len() == 2 * i,
            forall|k: int| 0 <= k < i ==> v@[2 * k] == rs@[k].start && v@[2 * k + 1] == rs@[k].end,
        decreases n - i,
    {
        v.push(rs.ranges[i].start);
        v.push(rs.ranges[i].end);
        i = i + 1;
    }
    proof {
        assert forall|k: int| 0 <= k < v@.len() implies v@[k] == spec_flat_ranges(rs@)[k] by {
            if k % 2 == 0 {
                assert(v@[2 * (k / 2)] == rs@[k / 2].start);
            } else {
                assert(v@[2 * (k / 2) + 1] == rs@[k / 2].end);
            }
        }
        assert(v@ =~= spec_flat_ranges(rs@));
    }
    v
}

fn flatten_coverage(cov: &Vec<(String, RangeStack)>) -> (out: Vec<(String, Vec<i64>)>)
    ensures
        flat_cov_views(out@) == spec_flat_cov(cov_views(cov@)),
{
    let mut out: Vec<(String, Vec<i64>)> = Vec::new();
    let mut i: usize = 0;
    let n = cov.len();
    while i < n
        invariant
            i <= n,
            n == cov@.len(),
            out@.len() == i,
            forall|k: int|
                0 <= k < i ==> (#[trigger] out@[k]).0@ == cov@[k].0@ && out@[k].1@
                    == spec_flat_ranges(cov@[k].1@),
        decreases n - i,
    {
        let pair = &cov[i];
        let flat = flatten_ranges(&pair.1);
        out.push((pair.0.clone(), flat));
        i = i + 1;
    }
    proof {
        assert(flat_cov_views(out@) =~= spec_flat_cov(cov_views(cov@)));
    }
    out
}

/// The scene accumulated by one sensor at `(x, y)` over the pristine scene.
pub open spec fn spec_acc_v1(evs: Seq<ElementView>, res: int, x: u32, y: u32) -> Seq<
    ElementView,
> {
    spec_accumulate_pairs(evs, evs, spec_fan(Point { x: x as i64, y: y as i64 }, res), res - 1)
}

/// The score a single sensor at `(x, y)` attains over the pristine scene.
pub open spec fn spec_score_v1(evs: Seq<ElementView>, res: int, x: u32, y: u32) -> int {
    spec_score(spec_acc_v1(evs, res, x, y))
}

/// The first candidate index attaining the maximal single-sensor score
/// among the first `k` candidates: a later candidate replaces the incumbent
/// only on a strictly greater score.
pub open spec fn spec_best_v1(
    evs: Seq<ElementView>,
    res: int,
    xs: Seq<u32>,
    ys: Seq<u32>,
    k: int,
) -> int
    decreases k,
{
    if k <= 1 {
        0
    } else {
        let prev = spec_best_v1(evs, res, xs, ys, k - 1);
        if spec_score_v1(evs, res, xs[k - 1], ys[k - 1]) > spec_score_v1(
            evs,
            res,
            xs[prev],
            ys[prev],
        ) {
            k - 1
        } else {
            prev
        }
    }
}

/// Conditions under which one sensor placement can be evaluated.
pub open spec fn eval_req(field: Field, res: u32, x: u32, y: u32) -> bool {
    &&& field.wf()
    &&& field.elements@.len() <= 0x20_0000
    &&& stacks_bounded(field@, 0)
    &&& 1 <= res <= 0x2_0000
    &&& 0 <= x <= MAX_COORD
    &&& 0 <= y <= MAX_COORD
}

/// Place one sensor at `(x, y)`, accumulate its fan over a private copy of
/// the pristine scene, and score the copy.
fn evaluate_position_v1(field: &Field, res: u32, x: u32, y: u32) -> (out: (i64, Field))
    requires
        eval_req(*field, res, x, y),
    ensures
        out.1@ == spec_acc_v1(field@, res as int, x, y),
        out.0 == spec_score_v1(field@, res as int, x, y),
        out.1.wf(),
{
    let sensor = crate::sensor::Sensor::new_at(&Point::new(x as i64, y as i64)).with_resolution(
        res,
    );
    let mut acc = field.duplicate();
    proof {
        assert(sensor.rays@ =~= spec_fan(Point { x: x as i64, y: y as i64 }, res as int));
    }
    accumulate_fan(field, &mut acc, &sensor.rays);
    proof {
        lemma_accumulate_stacks(field@, field@, sensor.rays@, res as int - 1, 0);
        assert(stacks_bounded(acc@, 0x10_0000)) by {
            assert(stacks_bounded(acc@, 2 * (res as int - 1)));
            assert forall|i: int|
                0 <= i < acc@.len() implies ((#[trigger] acc@[i]) matches ElementView::Circle(cv)
                ==> cv.stack.len() <= 0x10_0000) by {
                assert(acc@[i] matches ElementView::Circle(cv) ==> cv.stack.len() <= 2 * (
                res as int - 1));
            }
        }
    }
    let score = coverage_score(&acc);
    (score, acc)
}

/// Depth-1 search: evaluate every candidate position and keep the first
/// one attaining the maximal score, with its positions and coverage.
pub fn inner_calculate_v1(
    circles: Vec<Element>,
    x_range: Vec<u32>,
    y_range: Vec<u32>,
    resolution: u32,
    width: u32,
    height: u32,
) -> (out: (Vec<i64>, Vec<Vec<(String, RangeStack)>>))
    requires
        forall|i: int| 0 <= i < circles@.len() ==> (#[trigger] circles@[i]).wf(),
        stacks_bounded(views_of(circles@), 0),
        circles@.len() <= 0x20_0000,
        x_range@.len() == y_range@.len(),
        x_range@.len() >= 1,
        1 <= resolution <= 0x2_0000,
        forall|i: int| 0 <= i < x_range@.len() ==> #[trigger] x_range@[i] <= MAX_COORD,
        forall|i: int| 0 <= i < y_range@.len() ==> #[trigger] y_range@[i] <= MAX_COORD,
    ensures
        ({
            let evs = views_of(circles@);
            let b = spec_best_v1(
                evs,
                resolution as int,
                x_range@,
                y_range@,
                x_range@.len() as int,
            );
            &&& out.0@ =~= seq![x_range@[b] as i64, y_range@[b] as i64]
            &&& out.1@.len() == 1
            &&& cov_views(out.1@[0]@) == spec_coverage(
                spec_acc_v1(evs, resolution as int, x_range@[b], y_range@[b]),
            )
        }),
{
    let field = Field::new(circles, resolution, width, height);
    let n = x_range.len();
    let first = evaluate_position_v1(&field, resolution, x_range[0], y_range[0]);
    let mut best_score = first.0;
    let mut best_idx: usize = 0;
    let mut best_cov = first.1.get_coverage();
    proof {
        assert(cov_views(best_cov@) =~= spec_coverage(first.1@));
    }
    let mut i: usize = 1;
    while i < n
        invariant
            1 <= i <= n,
            n == x_range@.len(),
            x_range@.len() == y_range@.len(),
            eval_req(field, resolution, 0, 0),
            forall|k: int| 0 <= k < x_range@.len() ==> #[trigger] x_range@[k] <= MAX_COORD,
            forall|k: int| 0 <= k < y_range@.len() ==> #[trigger] y_range@[k] <= MAX_COORD,
            best_idx < i,
            best_idx as int == spec_best_v1(field@, resolution as int, x_range@, y_range@, i as int),
            best_score == spec_score_v1(
                field@,
                resolution as int,
                x_range@[best_idx as int],
                y_range@[best_idx as int],
            ),
            cov_views(best_cov@) == spec_coverage(
                spec_acc_v1(
                    field@,
                    resolution as int,
                    x_range@[best_idx as int],
                    y_range@[best_idx as int],
                ),
            ),
        decreases n - i,
    {
        let e = evaluate_position_v1(&field, resolution, x_range[i], y_range[i]);
        if e.0 > best_score {
            best_score = e.0;
            best_idx = i;
            best_cov = e.1.get_coverage();
            proof {
                assert(cov_views(best_cov@) =~= spec_coverage(e.1@));
            }
        }
        i = i + 1;
    }
    let mut pos: Vec<i64> = Vec::new();
    pos.push(x_range[best_idx] as i64);
    pos.push(y_range[best_idx] as i64);
    let mut covs: Vec<Vec<(String, RangeStack)>> = Vec::new();
    covs.push(best_cov);
    (pos, covs)
}

/// Everything `optimize_v1`, `optimize_v2` and `optimize_v3` need of their
/// numeric inputs: geometry within the field bounds, a positive bounded ray
/// resolution, and a bounded sampling step.
pub open spec fn optimize_req(
    ys: Seq<i64>,
    xs: Seq<i64>,
    radii: Seq<i64>,
    obstacles: Seq<i64>,
    width: u32,
    height: u32,
    resolution: u32,
    pixel_step: usize,
) -> bool {
    &&& forall|i: int| 0 <= i < xs.len() ==> -MAX_COORD <= #[trigger] xs[i] <= MAX_COORD
    &&& forall|i: int| 0 <= i < ys.len() ==> -MAX_COORD <= #[trigger] ys[i] <= MAX_COORD
    &&& forall|i: int| 0 <= i < radii.len() ==> 1 <= #[trigger] radii[i] <= MAX_COORD
    &&& forall|i: int| 0 <= i < obstacles.len() ==> -MAX_COORD <= #[trigger] obstacles[i]
        <= MAX_COORD
    &&& xs.len() <= 0x10_0000
    &&& obstacles.len() <= 0x10_0000
    &&& width <= MAX_COORD
    &&& height <= MAX_COORD
    &&& 1 <= resolution <= 0x2_0000
    &&& pixel_step <= MAX_COORD
}

/// The shape validation all entry points perform before any geometry work.
pub open spec fn shape_mismatch(
    ys: Seq<i64>,
    xs: Seq<i64>,
    radii: Seq<i64>,
    ids: Seq<String>,
    obstacles: Seq<i64>,
) -> bool {
    ys.len() != xs.len() || xs.len() != radii.len() || radii.len() != ids.len()
        || obstacles.len() % 4 != 0
}

/// Place one sensor: search every perimeter candidate position for the
/// single placement with the highest score. Returns the winning position as
/// a flat coordinate pair, and the winner's consolidated per-circle
/// coverage, flattened to alternating interval bounds. Among equal maxima
/// the first-found candidate is kept, and the result is pinned to a
/// function of the arguments alone, so repeated runs on identical inputs
/// return identical values.
pub fn optimize_v1(
    ys: Vec<i64>,
    xs: Vec<i64>,
    radii: Vec<i64>,
    ids: Vec<String>,
    obstacles: Vec<i64>,
    width: u32,
    height: u32,
    resolution: u32,
    pixel_step: usize,
) -> (r: Result<(Vec<i64>, Vec<Vec<(String, Vec<i64>)>>), PlaceError>)
    requires
        optimize_req(ys@, xs@, radii@, obstacles@, width, height, resolution, pixel_step),
    ensures
        r is Err ==> (r matches Err(e) && ((e == PlaceError::ShapeMismatch && shape_mismatch(
            ys@,
            xs@,
            radii@,
            ids@,
            obstacles@,
        )) || (e == PlaceError::EmptyScene && !shape_mismatch(ys@, xs@, radii@, ids@, obstacles@)
            && xs@.len() == 0) || (e == PlaceError::NoCandidates && !shape_mismatch(
            ys@,
            xs@,
            radii@,
            ids@,
            obstacles@,
        ) && xs@.len() > 0 && (pixel_step == 0 || crate::sensor::spec_perimeter_xs(
            width as int,
            height as int,
            pixel_step as int,
        ).len() == 0)))),
        !shape_mismatch(ys@, xs@, radii@, ids@, obstacles@) && xs@.len() > 0 && pixel_step > 0
            && crate::sensor::spec_perimeter_xs(width as int, height as int, pixel_step as int).len()
            > 0 ==> (r matches Ok(v) && ({
            let evs = spec_init_elements(xs@, ys@, radii@, ids_views(ids@), obstacles@);
            let pxs = crate::sensor::spec_perimeter_xs(width as int, height as int, pixel_step as int);
            let pys = crate::sensor::spec_perimeter_ys(width as int, height as int, pixel_step as int);
            let b = spec_best_v1(evs, resolution as int, pxs, pys, pxs.len() as int);
            &&& v.0@ =~= seq![pxs[b] as i64, pys[b] as i64]
            &&& v.1@.len() == 1
            &&& flat_cov_views(v.1@[0]@) == spec_flat_cov(
                spec_coverage(spec_acc_v1(evs, resolution as int, pxs[b], pys[b])),
            )
        })),
{
    if !(ys.len() == xs.len() && xs.len() == radii.len() && radii.len() == ids.len()) {
        return Err(PlaceError::ShapeMismatch);
    }
    if obstacles.len() % 4 != 0 {
        return Err(PlaceError::ShapeMismatch);
    }
    if xs.len() == 0 {
        return Err(PlaceError::EmptyScene);
    }
    if pixel_step == 0 {
        return Err(PlaceError::NoCandidates);
    }
    let ranges = crate::sensor::Sensor::coordinates_along_circumference(
        width,
        height,
        pixel_step,
    );
    let x_range = ranges.0;
    let y_range = ranges.1;
    if x_range.len() == 0 {
        return Err(PlaceError::NoCandidates);
    }
    let circles = initialize_elements(&xs, &ys, &radii, &ids, &obstacles);
    let result = inner_calculate_v1(circles, x_range, y_range, resolution, width, height);
    let positions = result.0;
    let inner_covs = result.1;
    let mut covs: Vec<Vec<(String, Vec<i64>)>> = Vec::new();
    let flat = flatten_coverage(&inner_covs[0]);
    covs.push(flat);
    Ok((positions, covs))
}

/// Per-circle consolidated coverage restricted to circles that accumulated
/// at least one arc, in scene order.
pub open spec fn spec_coverage_hit(evs: Seq<ElementView>) -> Seq<(Seq<char>, Seq<Range>)>
    decreases evs.len(),
{
    if evs.len() == 0 {
        Seq::empty()
    } else {
        let rest = spec_coverage_hit(evs.drop_last());
        match evs.last() {
            ElementView::Circle(cv) => if cv.stack.len() > 0 {
                rest.push((cv.id, spec_consolidate(cv.stack)))
            } else {
                rest
            },
            ElementView::Segment(sv) => rest,
        }
    }
}

/// The coverage of the circles that accumulated at least one arc.
fn coverage_hit_only(field: &Field) -> (cov: Vec<(String, RangeStack)>)
    requires
        field.wf(),
    ensures
        cov_views(cov@) == spec_coverage_hit(field@),
{
    let mut cov: Vec<(String, RangeStack)> = Vec::new();
    let mut i: usize = 0;
    proof {
        assert(field@.subrange(0, 0) =~= Seq::<ElementView>::empty());
        assert(cov_views(cov@) =~= spec_coverage_hit(field@.subrange(0, 0)));
    }
    while i < field.elements.len()
        invariant
            i <= field.elements@.len(),
            field.wf(),
            cov_views(cov@) == spec_coverage_hit(field@.subrange(0, i as int)),
        decreases field.elements@.len() - i,
    {
        proof {
            assert(field@.subrange(0, i + 1 as int).drop_last() =~= field@.subrange(0, i as int));
            assert(field@.subrange(0, i + 1 as int).last() == field@[i as int]);
            assert(field@[i as int] == field.elements@[i as int]@);
        }
        match &field.elements[i] {
            Element::Circle(c) => {
                if !c.range_stack.is_empty() {
                    let rs = c.range_stack.consolidate();
                    cov.push((c.id.clone(), rs));
                    proof {
                        assert(cov_views(cov@) =~= spec_coverage_hit(
                            field@.subrange(0, i + 1 as int),
                        ));
                    }
                }
            },
            Element::Segment(_) => {},
        }
        i = i + 1;
    }
    proof {
        assert(field@.subrange(0, field@.len() as int) =~= field@);
    }
    cov
}

/// An exact copy of a coverage listing.
fn duplicate_coverage(cov: &Vec<(String, RangeStack)>) -> (out: Vec<(String, RangeStack)>)
    ensures
        cov_views(out@) == cov_views(cov@),
{
    let mut out: Vec<(String, RangeStack)> = Vec::new();
    let mut i: usize = 0;
    while i < cov.len()
        invariant
            i <= cov@.len(),
            out@.len() == i,
            forall|k: int|
                0 <= k < i ==> (#[trigger] out@[k]).0@ == cov@[k].0@ && out@[k].1@ == cov@[k].1@,
        decreases cov@.len() - i,
    {
        let pair = &cov[i];
        out.push((pair.0.clone(), pair.1.duplicate()));
        i = i + 1;
    }
    proof {
        assert(cov_views(out@) =~= cov_views(cov@));
    }
    out
}

/// The fan of `res` rays from the lattice point `(x, y)`.
fn fan_of(x: u32, y: u32, res: u32) -> (rays: Vec<Ray>)
    requires
        x <= MAX_COORD,
        y <= MAX_COORD,
        1 <= res,
    ensures
        rays@ == spec_fan(Point { x: x as i64, y: y as i64 }, res as int),
        rays@.len() == res,
        forall|i: int| 0 <= i < rays@.len() ==> (#[trigger] rays@[i]).wf(),
{
    let sensor = crate::sensor::Sensor::new_at(&Point::new(x as i64, y as i64)).with_resolution(
        res,
    );
    proof {
        assert(sensor.rays@ =~= spec_fan(Point { x: x as i64, y: y as i64 }, res as int));
    }
    sensor.rays
}

/// The scene accumulated by a second sensor at `(x2, y2)` on top of the
/// first sensor's accumulation; rays are always cast against the pristine
/// scene.
pub open spec fn spec_acc_v2(
    evs: Seq<ElementView>,
    res: int,
    x1: u32,
    y1: u32,
    x2: u32,
    y2: u32,
) -> Seq<ElementView> {
    spec_accumulate_pairs(
        evs,
        spec_acc_v1(evs, res, x1, y1),
        spec_fan(Point { x: x2 as i64, y: y2 as i64 }, res),
        res - 1,
    )
}

/// The scene accumulated by a third sensor on top of the first two.
pub open spec fn spec_acc_v3(
    evs: Seq<ElementView>,
    res: int,
    x1: u32,
    y1: u32,
    x2: u32,
    y2: u32,
    x3: u32,
    y3: u32,
) -> Seq<ElementView> {
    spec_accumulate_pairs(
        evs,
        spec_acc_v2(evs, res, x1, y1, x2, y2),
        spec_fan(Point { x: x3 as i64, y: y3 as i64 }, res),
        res - 1,
    )
}

/// The score of the pair-leaf numbered `l` (outer index `l / n`, inner
/// `l % n` over `n` candidates).
pub open spec fn spec_leaf_score_v2(
    evs: Seq<ElementView>,
    res: int,
    xs: Seq<u32>,
    ys: Seq<u32>,
    l: int,
) -> int {
    let n = xs.len() as int;
    spec_score(spec_acc_v2(evs, res, xs[l / n], ys[l / n], xs[l % n], ys[l % n]))
}

/// The first pair-leaf attaining the maximal score among the first `l`.
pub open spec fn spec_best_v2(
    evs: Seq<ElementView>,
    res: int,
    xs: Seq<u32>,
    ys: Seq<u32>,
    l: int,
) -> int
    decreases l,
{
    if l <= 1 {
        0
    } else {
        let prev = spec_best_v2(evs, res, xs, ys, l - 1);
        if spec_leaf_score_v2(evs, res, xs, ys, l - 1) > spec_leaf_score_v2(
            evs,
            res,
            xs,
            ys,
            prev,
        ) {
            l - 1
        } else {
            prev
        }
    }
}

/// The score of the triple-leaf numbered `l`.
pub open spec fn spec_leaf_score_v3(
    evs: Seq<ElementView>,
    res: int,
    xs: Seq<u32>,
    ys: Seq<u32>,
    l: int,
) -> int {
    let n = xs.len() as int;
    let i = l / (n * n);
    let rem = l % (n * n);
    spec_score(
        spec_acc_v3(
            evs,
            res,
            xs[i],
            ys[i],
            xs[rem / n],
            ys[rem / n],
            xs[rem % n],
            ys[rem % n],
        ),
    )
}

/// The first triple-leaf attaining the maximal score among the first `l`.
pub open spec fn spec_best_v3(
    evs: Seq<ElementView>,
    res: int,
    xs: Seq<u32>,
    ys: Seq<u32>,
    l: int,
) -> int
    decreases l,
{
    if l <= 1 {
        0
    } else {
        let prev = spec_best_v3(evs, res, xs, ys, l - 1);
        if spec_leaf_score_v3(evs, res, xs, ys, l - 1) > spec_leaf_score_v3(
            evs,
            res,
            xs,
            ys,
            prev,
        ) {
            l - 1
        } else {
            prev
        }
    }
}

/// The requirements shared by every search over a candidate list.
pub open spec fn search_req(stat: Field, res: u32, xs: Seq<u32>, ys: Seq<u32>) -> bool {
    &&& stat.wf()
    &&& stat.elements@.len() <= 0x20_0000
    &&& stacks_bounded(stat@, 0)
    &&& 1 <= res <= 0x2_0000
    &&& stat.res == res
    &&& xs.len() == ys.len()
    &&& 1 <= xs.len() <= 0x10_0000
    &&& forall|i: int| 0 <= i < xs.len() ==> #[trigger] xs[i] <= MAX_COORD
    &&& forall|i: int| 0 <= i < ys.len() ==> #[trigger] ys[i] <= MAX_COORD
}

/// The best-result record reflects the best of the first `l` pair-leaves.
pub open spec fn report_matches_v2(
    rep: crate::report::Report,
    evs: Seq<ElementView>,
    res: int,
    xs: Seq<u32>,
    ys: Seq<u32>,
    l: int,
) -> bool {
    let n = xs.len() as int;
    if l <= 0 {
        rep.max_coverage == -1
    } else {
        let b = spec_best_v2(evs, res, xs, ys, l);
        let bi = b / n;
        let bj = b % n;
        &&& 0 <= b < l
        &&& rep.max_coverage == spec_leaf_score_v2(evs, res, xs, ys, b)
        &&& rep.sensor_positions@ =~= seq![
            Point { x: xs[bi] as i64, y: ys[bi] as i64 },
            Point { x: xs[bj] as i64, y: ys[bj] as i64 },
        ]
        &&& rep.sensor_coverages@.len() == 2
        &&& cov_views(rep.sensor_coverages@[0]@) == spec_coverage(
            spec_acc_v1(evs, res, xs[bi], ys[bi]),
        )
        &&& cov_views(rep.sensor_coverages@[1]@) == spec_coverage_hit(
            spec_acc_v1(evs, res, xs[bj], ys[bj]),
        )
    }
}

/// Walk the second search level under outer candidate `i0`: accumulate each
/// inner candidate's fan on top of the shared branch scene, score the leaf,
/// update the best-result record on a strictly greater score, and roll the
/// branch scene back to its snapshot before the next sibling. On return the
/// scene is exactly as it was handed in (the rollback property).
#[verifier::rlimit(100)]
pub fn second_level_v2(
    stat: &Field,
    acc: &mut Field,
    x_range: &Vec<u32>,
    y_range: &Vec<u32>,
    resolution: u32,
    i0: usize,
    cov1: &Vec<(String, RangeStack)>,
    report: &mut crate::report::Report,
)
    requires
        search_req(*stat, resolution, x_range@, y_range@),
        i0 < x_range@.len(),
        old(acc).wf(),
        old(acc)@ == spec_acc_v1(
            stat@,
            resolution as int,
            x_range@[i0 as int],
            y_range@[i0 as int],
        ),
        cov_views(cov1@) == spec_coverage(old(acc)@),
        report_matches_v2(
            *old(report),
            stat@,
            resolution as int,
            x_range@,
            y_range@,
            i0 as int * x_range@.len(),
        ),
    ensures
        final(acc)@ == old(acc)@,
        report_matches_v2(
            *final(report),
            stat@,
            resolution as int,
            x_range@,
            y_range@,
            (i0 + 1) as int * x_range@.len(),
        ),
{
    let n = x_range.len();
    let restore = acc.duplicate();
    let ghost evs = stat@;
    let ghost res = resolution as int;
    let mut j: usize = 0;
    while j < n
        invariant
            j <= n,
            n == x_range@.len(),
            search_req(*stat, resolution, x_range@, y_range@),
            i0 < n,
            acc.wf(),
            acc@ == restore@,
            restore@ == old(acc)@,
            restore.wf(),
            old(acc)@ == spec_acc_v1(evs, res, x_range@[i0 as int], y_range@[i0 as int]),
            evs == stat@,
            res == resolution as int,
            cov_views(cov1@) == spec_coverage(old(acc)@),
            report_matches_v2(*report, evs, res, x_range@, y_range@, i0 as int * n + j),
        decreases n - j,
    {
        let ghost l = i0 as int * n as int + j;
        proof {
            lemma_mul_bounds(i0 as int, n as int, 0x10_0000, 0x10_0000);
            vstd::arithmetic::div_mod::lemma_fundamental_div_mod_converse(
                l,
                n as int,
                i0 as int,
                j as int,
            );
            lemma_accumulate_stacks(
                evs,
                evs,
                spec_fan(
                    Point {
                        x: x_range@[i0 as int] as i64,
                        y: y_range@[i0 as int] as i64,
                    },
                    res,
                ),
                res - 1,
                0,
            );
        }
        let x2 = x_range[j];
        let y2 = y_range[j];
        let rays2 = fan_of(x2, y2, resolution);
        accumulate_fan(stat, acc, &rays2);
        proof {
            lemma_accumulate_stacks(evs, restore@, rays2@, res - 1, 2 * (res - 1));
            assert(stacks_bounded(acc@, 0x10_0000)) by {
                assert forall|q: int|
                    0 <= q < acc@.len() implies ((#[trigger] acc@[q])
                    matches ElementView::Circle(cv) ==> cv.stack.len() <= 0x10_0000) by {
                    assert(acc@[q] matches ElementView::Circle(cv) ==> cv.stack.len() <= 2 * (res
                        - 1) + 2 * (res - 1));
                }
            }
        }
        let score = coverage_score(acc);
        let mut acc2 = stat.duplicate();
        accumulate_fan(stat, &mut acc2, &rays2);
        if score > report.max_coverage {
            let cov2 = coverage_hit_only(&acc2);
            report.max_coverage = score;
            let mut pos: Vec<Point> = Vec::new();
            pos.push(Point::new(x_range[i0] as i64, y_range[i0] as i64));
            pos.push(Point::new(x2 as i64, y2 as i64));
            report.sensor_positions = pos;
            let mut scov: Vec<Vec<(String, RangeStack)>> = Vec::new();
            scov.push(duplicate_coverage(cov1));
            scov.push(cov2);
            report.sensor_coverages = scov;
        }
        let fresh = restore.duplicate();
        *acc = fresh;
        j = j + 1;
        proof {
            vstd::arithmetic::div_mod::lemma_fundamental_div_mod_converse(
                l,
                n as int,
                i0 as int,
                j - 1 as int,
            );
        }
    }
    proof {
        assert(i0 as int * (n as int) + n as int == (i0 + 1) as int * (n as int))
            by (nonlinear_arith);
    }
}

/// Depth-2 search: enumerate ordered pairs of candidate positions, keeping
/// the first pair attaining the maximal score together with each sensor's
/// coverage (the whole scene after the first sensor; only the circles the
/// second sensor itself touched).
pub fn inner_calculate_v2(
    circles: Vec<Element>,
    x_range: Vec<u32>,
    y_range: Vec<u32>,
    resolution: u32,
    width: u32,
    height: u32,
) -> (out: (Vec<i64>, Vec<Vec<(String, RangeStack)>>))
    requires
        forall|i: int| 0 <= i < circles@.len() ==> (#[trigger] circles@[i]).wf(),
        stacks_bounded(views_of(circles@), 0),
        circles@.len() <= 0x20_0000,
        x_range@.len() == y_range@.len(),
        1 <= x_range@.len() <= 0x10_0000,
        1 <= resolution <= 0x2_0000,
        forall|i: int| 0 <= i < x_range@.len() ==> #[trigger] x_range@[i] <= MAX_COORD,
        forall|i: int| 0 <= i < y_range@.len() ==> #[trigger] y_range@[i] <= MAX_COORD,
    ensures
        ({
            let evs = views_of(circles@);
            let n = x_range@.len() as int;
            let b = spec_best_v2(evs, resolution as int, x_range@, y_range@, n * n);
            let bi = b / n;
            let bj = b % n;
            &&& out.0@ =~= seq![
                x_range@[bi] as i64,
                y_range@[bi] as i64,
                x_range@[bj] as i64,
                y_range@[bj] as i64,
            ]
            &&& out.1@.len() == 2
            &&& cov_views(out.1@[0]@) == spec_coverage(
                spec_acc_v1(evs, resolution as int, x_range@[bi], y_range@[bi]),
            )
            &&& cov_views(out.1@[1]@) == spec_coverage_hit(
                spec_acc_v1(evs, resolution as int, x_range@[bj], y_range@[bj]),
            )
        }),
{
    let field = Field::new(circles, resolution, width, height);
    let n = x_range.len();
    let mut report = crate::report::Report::empty();
    let mut i: usize = 0;
    proof {
        assert(0int * (n as int) == 0) by (nonlinear_arith);
    }
    while i < n
        invariant
            i <= n,
            n == x_range@.len(),
            search_req(field, resolution, x_range@, y_range@),
            report_matches_v2(
                report,
                field@,
                resolution as int,
                x_range@,
                y_range@,
                i as int * n as int,
            ),
        decreases n - i,
    {
        let e = evaluate_position_v1(&field, resolution, x_range[i], y_range[i]);
        let mut acc = e.1;
        let cov1 = acc.get_coverage();
        proof {
            assert(cov_views(cov1@) =~= spec_coverage(acc@));
        }
        second_level_v2(
            &field,
            &mut acc,
            &x_range,
            &y_range,
            resolution,
            i,
            &cov1,
            &mut report,
        );
        i = i + 1;
    }
    proof {
        let nn = n as int;
        assert(nn * nn >= 1) by (nonlinear_arith)
            requires
                nn >= 1,
        ;
    }
    let mut pos: Vec<i64> = Vec::new();
    pos.push(report.sensor_positions[0].x);
    pos.push(report.sensor_positions[0].y);
    pos.push(report.sensor_positions[1].x);
    pos.push(report.sensor_positions[1].y);
    (pos, report.sensor_coverages)
}

/// Place two sensors: search every ordered pair of perimeter candidate
/// positions. Returns the winning positions flattened and both sensors'
/// flattened coverage listings. Among equal maxima the first-found pair is
/// kept, and the result is pinned to a function of the arguments alone.
pub fn optimize_v2(
    ys: Vec<i64>,
    xs: Vec<i64>,
    radii: Vec<i64>,
    ids: Vec<String>,
    obstacles: Vec<i64>,
    width: u32,
    height: u32,
    resolution: u32,
    pixel_step: usize,
) -> (r: Result<(Vec<i64>, Vec<Vec<(String, Vec<i64>)>>), PlaceError>)
    requires
        optimize_req(ys@, xs@, radii@, obstacles@, width, height, resolution, pixel_step),
        2 * (crate::sensor::count_steps(width as int, pixel_step as int)
            + crate::sensor::count_steps(height as int, pixel_step as int)) <= 0x10_0000,
    ensures
        r is Err ==> (r matches Err(e) && ((e == PlaceError::ShapeMismatch && shape_mismatch(
            ys@,
            xs@,
            radii@,
            ids@,
            obstacles@,
        )) || (e == PlaceError::EmptyScene && !shape_mismatch(ys@, xs@, radii@, ids@, obstacles@)
            && xs@.len() == 0) || (e == PlaceError::NoCandidates && !shape_mismatch(
            ys@,
            xs@,
            radii@,
            ids@,
            obstacles@,
        ) && xs@.len() > 0 && (pixel_step == 0 || crate::sensor::spec_perimeter_xs(
            width as int,
            height as int,
            pixel_step as int,
        ).len() == 0)))),
        !shape_mismatch(ys@, xs@, radii@, ids@, obstacles@) && xs@.len() > 0 && pixel_step > 0
            && crate::sensor::spec_perimeter_xs(width as int, height as int, pixel_step as int).len()
            > 0 ==> (r matches Ok(v) && ({
            let evs = spec_init_elements(xs@, ys@, radii@, ids_views(ids@), obstacles@);
            let pxs = crate::sensor::spec_perimeter_xs(width as int, height as int, pixel_step as int);
            let pys = crate::sensor::spec_perimeter_ys(width as int, height as int, pixel_step as int);
            let n = pxs.len() as int;
            let b = spec_best_v2(evs, resolution as int, pxs, pys, n * n);
            let bi = b / n;
            let bj = b % n;
            &&& v.0@ =~= seq![pxs[bi] as i64, pys[bi] as i64, pxs[bj] as i64, pys[bj] as i64]
            &&& v.1@.len() == 2
            &&& flat_cov_views(v.1@[0]@) == spec_flat_cov(
                spec_coverage(spec_acc_v1(evs, resolution as int, pxs[bi], pys[bi])),
            )
            &&& flat_cov_views(v.1@[1]@) == spec_flat_cov(
                spec_coverage_hit(spec_acc_v1(evs, resolution as int, pxs[bj], pys[bj])),
            )
        })),
{
    if !(ys.len() == xs.len() && xs.len() == radii.len() && radii.len() == ids.len()) {
        return Err(PlaceError::ShapeMismatch);
    }
    if obstacles.len() % 4 != 0 {
        return Err(PlaceError::ShapeMismatch);
    }
    if xs.len() == 0 {
        return Err(PlaceError::EmptyScene);
    }
    if pixel_step == 0 {
        return Err(PlaceError::NoCandidates);
    }
    let ranges = crate::sensor::Sensor::coordinates_along_circumference(width, height, pixel_step);
    let x_range = ranges.0;
    let y_range = ranges.1;
    if x_range.len() == 0 {
        return Err(PlaceError::NoCandidates);
    }
    let circles = initialize_elements(&xs, &ys, &radii, &ids, &obstacles);
    let result = inner_calculate_v2(circles, x_range, y_range, resolution, width, height);
    let positions = result.0;
    let inner_covs = result.1;
    let mut covs: Vec<Vec<(String, Vec<i64>)>> = Vec::new();
    covs.push(flatten_coverage(&inner_covs[0]));
    covs.push(flatten_coverage(&inner_covs[1]));
    Ok((positions, covs))
}

/// The best-result record reflects the best of the first `l` triple-leaves.
pub open spec fn report_matches_v3(
    rep: crate::report::Report,
    evs: Seq<ElementView>,
    res: int,
    xs: Seq<u32>,
    ys: Seq<u32>,
    l: int,
) -> bool {
    let n = xs.len() as int;
    if l <= 0 {
        rep.max_coverage == -1
    } else {
        let b = spec_best_v3(evs, res, xs, ys, l);
        let bi = b / (n * n);
        let bj = (b % (n * n)) / n;
        let bk = (b % (n * n)) % n;
        &&& 0 <= b < l
        &&& rep.max_coverage == spec_leaf_score_v3(evs, res, xs, ys, b)
        &&& rep.sensor_positions@ =~= seq![
            Point { x: xs[bi] as i64, y: ys[bi] as i64 },
            Point { x: xs[bj] as i64, y: ys[bj] as i64 },
            Point { x: xs[bk] as i64, y: ys[bk] as i64 },
        ]
        &&& rep.sensor_coverages@.len() == 3
        &&& cov_views(rep.sensor_coverages@[0]@) == spec_coverage(
            spec_acc_v1(evs, res, xs[bi], ys[bi]),
        )
        &&& cov_views(rep.sensor_coverages@[1]@) == spec_coverage_hit(
            spec_acc_v1(evs, res, xs[bj], ys[bj]),
        )
        &&& cov_views(rep.sensor_coverages@[2]@) == spec_coverage_hit(
            spec_acc_v1(evs, res, xs[bk], ys[bk]),
        )
    }
}

/// Walk the third search level under the pair `(i0, j0)`: accumulate each
/// candidate's fan on top of the two-sensor branch scene, score, update the
/// record on a strictly greater score, and roll the scene back before the
/// next sibling. On return the scene is exactly as handed in.
#[verifier::rlimit(100)]
pub fn third_level_v3(
    stat: &Field,
    acc: &mut Field,
    x_range: &Vec<u32>,
    y_range: &Vec<u32>,
    resolution: u32,
    i0: usize,
    j0: usize,
    cov1: &Vec<(String, RangeStack)>,
    cov2: &Vec<(String, RangeStack)>,
    report: &mut crate::report::Report,
)
    requires
        search_req(*stat, resolution, x_range@, y_range@),
        i0 < x_range@.len(),
        j0 < x_range@.len(),
        old(acc).wf(),
        old(acc)@ == spec_acc_v2(
            stat@,
            resolution as int,
            x_range@[i0 as int],
            y_range@[i0 as int],
            x_range@[j0 as int],
            y_range@[j0 as int],
        ),
        cov_views(cov1@) == spec_coverage(
            spec_acc_v1(stat@, resolution as int, x_range@[i0 as int], y_range@[i0 as int]),
        ),
        cov_views(cov2@) == spec_coverage_hit(
            spec_acc_v1(stat@, resolution as int, x_range@[j0 as int], y_range@[j0 as int]),
        ),
        report_matches_v3(
            *old(report),
            stat@,
            resolution as int,
            x_range@,
            y_range@,
            (i0 as int * x_range@.len() + j0 as int) * x_range@.len(),
        ),
    ensures
        final(acc)@ == old(acc)@,
        report_matches_v3(
            *final(report),
            stat@,
            resolution as int,
            x_range@,
            y_range@,
            (i0 as int * x_range@.len() + j0 as int) * x_range@.len() + x_range@.len(),
        ),
{
    let n = x_range.len();
    let restore = acc.duplicate();
    let ghost evs = stat@;
    let ghost res = resolution as int;
    let ghost l0 = (i0 as int * n as int + j0 as int) * n as int;
    proof {
        lemma_mul_bounds(i0 as int, n as int, 0x10_0000, 0x10_0000);
        lemma_mul_bounds(
            i0 as int * (n as int) + j0 as int,
            n as int,
            0x200_0000_0000,
            0x10_0000,
        );
    }
    let mut k: usize = 0;
    while k < n
        invariant
            k <= n,
            n == x_range@.len(),
            search_req(*stat, resolution, x_range@, y_range@),
            i0 < n,
            j0 < n,
            acc.wf(),
            acc@ == restore@,
            restore@ == old(acc)@,
            restore.wf(),
            old(acc)@ == spec_acc_v2(
                evs,
                res,
                x_range@[i0 as int],
                y_range@[i0 as int],
                x_range@[j0 as int],
                y_range@[j0 as int],
            ),
            evs == stat@,
            res == resolution as int,
            l0 == (i0 as int * x_range@.len() + j0 as int) * x_range@.len(),
            cov_views(cov1@) == spec_coverage(
                spec_acc_v1(evs, res, x_range@[i0 as int], y_range@[i0 as int]),
            ),
            cov_views(cov2@) == spec_coverage_hit(
                spec_acc_v1(evs, res, x_range@[j0 as int], y_range@[j0 as int]),
            ),
            report_matches_v3(*report, evs, res, x_range@, y_range@, l0 + k),
        decreases n - k,
    {
        let ghost l = l0 + k;
        proof {
            let nn = n as int;
            assert(0 <= j0 as int * nn + k && j0 as int * nn + k < nn * nn && l == i0 as int * (nn
                * nn) + (j0 as int * nn + k as int)) by (nonlinear_arith)
                requires
                    0 <= j0 < nn,
                    0 <= k < nn,
                    0 <= i0 < nn,
                    l == (i0 as int * nn + j0 as int) * nn + k,
            ;
            assert(nn * nn > 0) by (nonlinear_arith)
                requires
                    nn >= 1,
            ;
            vstd::arithmetic::div_mod::lemma_fundamental_div_mod_converse(
                l,
                nn * nn,
                i0 as int,
                j0 as int * nn + k,
            );
            vstd::arithmetic::div_mod::lemma_fundamental_div_mod_converse(
                j0 as int * nn + k,
                nn,
                j0 as int,
                k as int,
            );
            lemma_accumulate_stacks(
                evs,
                evs,
                spec_fan(
                    Point {
                        x: x_range@[i0 as int] as i64,
                        y: y_range@[i0 as int] as i64,
                    },
                    res,
                ),
                res - 1,
                0,
            );
            lemma_accumulate_stacks(
                evs,
                spec_acc_v1(evs, res, x_range@[i0 as int], y_range@[i0 as int]),
                spec_fan(
                    Point {
                        x: x_range@[j0 as int] as i64,
                        y: y_range@[j0 as int] as i64,
                    },
                    res,
                ),
                res - 1,
                2 * (res - 1),
            );
        }
        let x3 = x_range[k];
        let y3 = y_range[k];
        let rays3 = fan_of(x3, y3, resolution);
        accumulate_fan(stat, acc, &rays3);
        proof {
            lemma_accumulate_stacks(evs, restore@, rays3@, res - 1, 4 * (res - 1));
            assert(stacks_bounded(acc@, 0x10_0000)) by {
                assert forall|q: int|
                    0 <= q < acc@.len() implies ((#[trigger] acc@[q])
                    matches ElementView::Circle(cv) ==> cv.stack.len() <= 0x10_0000) by {
                    assert(acc@[q] matches ElementView::Circle(cv) ==> cv.stack.len() <= 4 * (res
                        - 1) + 2 * (res - 1));
                }
            }
        }
        let score = coverage_score(acc);
        let mut acc3 = stat.duplicate();
        accumulate_fan(stat, &mut acc3, &rays3);
        if score > report.max_coverage {
            let cov3 = coverage_hit_only(&acc3);
            report.max_coverage = score;
            let mut pos: Vec<Point> = Vec::new();
            pos.push(Point::new(x_range[i0] as i64, y_range[i0] as i64));
            pos.push(Point::new(x_range[j0] as i64, y_range[j0] as i64));
            pos.push(Point::new(x3 as i64, y3 as i64));
            report.sensor_positions = pos;
            let mut scov: Vec<Vec<(String, RangeStack)>> = Vec::new();
            scov.push(duplicate_coverage(cov1));
            scov.push(duplicate_coverage(cov2));
            scov.push(cov3);
            report.sensor_coverages = scov;
        }
        let fresh = restore.duplicate();
        *acc = fresh;
        k = k + 1;
    }
}

/// Walk the second search level of the depth-3 search under outer candidate
/// `i0`, handing each accumulated pair scene to the third level and rolling
/// back between siblings. On return the scene is exactly as handed in.
#[verifier::rlimit(100)]
pub fn second_level_v3(
    stat: &Field,
    acc: &mut Field,
    x_range: &Vec<u32>,
    y_range: &Vec<u32>,
    resolution: u32,
    i0: usize,
    cov1: &Vec<(String, RangeStack)>,
    report: &mut crate::report::Report,
)
    requires
        search_req(*stat, resolution, x_range@, y_range@),
        i0 < x_range@.len(),
        old(acc).wf(),
        old(acc)@ == spec_acc_v1(
            stat@,
            resolution as int,
            x_range@[i0 as int],
            y_range@[i0 as int],
        ),
        cov_views(cov1@) == spec_coverage(old(acc)@),
        report_matches_v3(
            *old(report),
            stat@,
            resolution as int,
            x_range@,
            y_range@,
            i0 as int * x_range@.len() * x_range@.len(),
        ),
    ensures
        final(acc)@ == old(acc)@,
        report_matches_v3(
            *final(report),
            stat@,
            resolution as int,
            x_range@,
            y_range@,
            (i0 + 1) as int * x_range@.len() * x_range@.len(),
        ),
{
    let n = x_range.len();
    let restore = acc.duplicate();
    let ghost evs = stat@;
    let ghost res = resolution as int;
    let mut j: usize = 0;
    proof {
        assert((i0 as int * x_range@.len() + 0) * x_range@.len() == i0 as int * x_range@.len()
            * x_range@.len()) by (nonlinear_arith);
    }
    while j < n
        invariant
            j <= n,
            n == x_range@.len(),
            search_req(*stat, resolution, x_range@, y_range@),
            i0 < n,
            acc.wf(),
            acc@ == restore@,
            restore@ == old(acc)@,
            restore.wf(),
            old(acc)@ == spec_acc_v1(evs, res, x_range@[i0 as int], y_range@[i0 as int]),
            evs == stat@,
            res == resolution as int,
            cov_views(cov1@) == spec_coverage(old(acc)@),
            report_matches_v3(
                *report,
                evs,
                res,
                x_range@,
                y_range@,
                (i0 as int * n as int + j as int) * n as int,
            ),
        decreases n - j,
    {
        proof {
            lemma_accumulate_stacks(
                evs,
                evs,
                spec_fan(
                    Point {
                        x: x_range@[i0 as int] as i64,
                        y: y_range@[i0 as int] as i64,
                    },
                    res,
                ),
                res - 1,
                0,
            );
        }
        let x2 = x_range[j];
        let y2 = y_range[j];
        let rays2 = fan_of(x2, y2, resolution);
        accumulate_fan(stat, acc, &rays2);
        let mut acc2 = stat.duplicate();
        accumulate_fan(stat, &mut acc2, &rays2);
        let cov2 = coverage_hit_only(&acc2);
        third_level_v3(
            stat,
            acc,
            x_range,
            y_range,
            resolution,
            i0,
            j,
            cov1,
            &cov2,
            report,
        );
        let fresh = restore.duplicate();
        *acc = fresh;
        j = j + 1;
        proof {
            assert((i0 as int * n as int + (j - 1) as int) * n as int + n as int == (i0 as int * n
                as int + j as int) * n as int) by (nonlinear_arith);
        }
    }
    proof {
        assert((i0 as int * n as int + n as int) * n as int == (i0 + 1) as int * (n as int) * (n
            as int)) by (nonlinear_arith);
    }
}

/// Depth-3 search: enumerate ordered triples of candidate positions,
/// keeping the first triple attaining the maximal score together with each
/// sensor's coverage.
#[verifier::rlimit(100)]
pub fn inner_calculate_v3(
    circles: Vec<Element>,
    x_range: Vec<u32>,
    y_range: Vec<u32>,
    resolution: u32,
    width: u32,
    height: u32,
) -> (out: (Vec<i64>, Vec<Vec<(String, RangeStack)>>))
    requires
        forall|i: int| 0 <= i < circles@.len() ==> (#[trigger] circles@[i]).wf(),
        stacks_bounded(views_of(circles@), 0),
        circles@.len() <= 0x20_0000,
        x_range@.len() == y_range@.len(),
        1 <= x_range@.len() <= 0x10_0000,
        1 <= resolution <= 0x2_0000,
        forall|i: int| 0 <= i < x_range@.len() ==> #[trigger] x_range@[i] <= MAX_COORD,
        forall|i: int| 0 <= i < y_range@.len() ==> #[trigger] y_range@[i] <= MAX_COORD,
    ensures
        ({
            let evs = views_of(circles@);
            let n = x_range@.len() as int;
            let b = spec_best_v3(evs, resolution as int, x_range@, y_range@, n * n * n);
            let bi = b / (n * n);
            let bj = (b % (n * n)) / n;
            let bk = (b % (n * n)) % n;
            &&& out.0@ =~= seq![
                x_range@[bi] as i64,
                y_range@[bi] as i64,
                x_range@[bj] as i64,
                y_range@[bj] as i64,
                x_range@[bk] as i64,
                y_range@[bk] as i64,
            ]
            &&& out.1@.len() == 3
            &&& cov_views(out.1@[0]@) == spec_coverage(
                spec_acc_v1(evs, resolution as int, x_range@[bi], y_range@[bi]),
            )
            &&& cov_views(out.1@[1]@) == spec_coverage_hit(
                spec_acc_v1(evs, resolution as int, x_range@[bj], y_range@[bj]),
            )
            &&& cov_views(out.1@[2]@) == spec_coverage_hit(
                spec_acc_v1(evs, resolution as int, x_range@[bk], y_range@[bk]),
            )
        }),
{
    let field = Field::new(circles, resolution, width, height);
    let n = x_range.len();
    let mut report = crate::report::Report::empty();
    let mut i: usize = 0;
    proof {
        assert(0int * (n as int) * (n as int) == 0) by (nonlinear_arith);
    }
    while i < n
        invariant
            i <= n,
            n == x_range@.len(),
            search_req(field, resolution, x_range@, y_range@),
            report_matches_v3(
                report,
                field@,
                resolution as int,
                x_range@,
                y_range@,
                i as int * n as int * n as int,
            ),
        decreases n - i,
    {
        let e = evaluate_position_v1(&field, resolution, x_range[i], y_range[i]);
        let mut acc = e.1;
        let cov1 = acc.get_coverage();
        proof {
            assert(cov_views(cov1@) =~= spec_coverage(acc@));
        }
        second_level_v3(
            &field,
            &mut acc,
            &x_range,
            &y_range,
            resolution,
            i,
            &cov1,
            &mut report,
        );
        i = i + 1;
    }
    proof {
        let nn = n as int;
        assert(nn * nn * nn >= 1) by (nonlinear_arith)
            requires
                nn >= 1,
        ;
    }
    let mut pos: Vec<i64> = Vec::new();
    pos.push(report.sensor_positions[0].x);
    pos.push(report.sensor_positions[0].y);
    pos.push(report.sensor_positions[1].x);
    pos.push(report.sensor_positions[1].y);
    pos.push(report.sensor_positions[2].x);
    pos.push(report.sensor_positions[2].y);
    (pos, report.sensor_coverages)
}

/// Place three sensors: search every ordered triple of perimeter candidate
/// positions. Returns the winning positions flattened and all three
/// sensors' flattened coverage listings. Among equal maxima the first-found
/// triple is kept, and the result is pinned to a function of the arguments
/// alone.
pub fn optimize_v3(
    ys: Vec<i64>,
    xs: Vec<i64>,
    radii: Vec<i64>,
    ids: Vec<String>,
    obstacles: Vec<i64>,
    width: u32,
    height: u32,
    resolution: u32,
    pixel_step: usize,
) -> (r: Result<(Vec<i64>, Vec<Vec<(String, Vec<i64>)>>), PlaceError>)
    requires
        optimize_req(ys@, xs@, radii@, obstacles@, width, height, resolution, pixel_step),
        2 * (crate::sensor::count_steps(width as int, pixel_step as int)
            + crate::sensor::count_steps(height as int, pixel_step as int)) <= 0x10_0000,
    ensures
        r is Err ==> (r matches Err(e) && ((e == PlaceError::ShapeMismatch && shape_mismatch(
            ys@,
            xs@,
            radii@,
            ids@,
            obstacles@,
        )) || (e == PlaceError::EmptyScene && !shape_mismatch(ys@, xs@, radii@, ids@, obstacles@)
            && xs@.len() == 0) || (e == PlaceError::NoCandidates && !shape_mismatch(
            ys@,
            xs@,
            radii@,
            ids@,
            obstacles@,
        ) && xs@.len() > 0 && (pixel_step == 0 || crate::sensor::spec_perimeter_xs(
            width as int,
            height as int,
            pixel_step as int,
        ).len() == 0)))),
        !shape_mismatch(ys@, xs@, radii@, ids@, obstacles@) && xs@.len() > 0 && pixel_step > 0
            && crate::sensor::spec_perimeter_xs(width as int, height as int, pixel_step as int).len()
            > 0 ==> (r matches Ok(v) && ({
            let evs = spec_init_elements(xs@, ys@, radii@, ids_views(ids@), obstacles@);
            let pxs = crate::sensor::spec_perimeter_xs(width as int, height as int, pixel_step as int);
            let pys = crate::sensor::spec_perimeter_ys(width as int, height as int, pixel_step as int);
            let n = pxs.len() as int;
            let b = spec_best_v3(evs, resolution as int, pxs, pys, n * n * n);
            let bi = b / (n * n);
            let bj = (b % (n * n)) / n;
            let bk = (b % (n * n)) % n;
            &&& v.0@ =~= seq![
                pxs[bi] as i64,
                pys[bi] as i64,
                pxs[bj] as i64,
                pys[bj] as i64,
                pxs[bk] as i64,
                pys[bk] as i64,
            ]
            &&& v.1@.len() == 3
            &&& flat_cov_views(v.1@[0]@) == spec_flat_cov(
                spec_coverage(spec_acc_v1(evs, resolution as int, pxs[bi], pys[bi])),
            )
            &&& flat_cov_views(v.1@[1]@) == spec_flat_cov(
                spec_coverage_hit(spec_acc_v1(evs, resolution as int, pxs[bj], pys[bj])),
            )
            &&& flat_cov_views(v.1@[2]@) == spec_flat_cov(
                spec_coverage_hit(spec_acc_v1(evs, resolution as int, pxs[bk], pys[bk])),
            )
        })),
{
    if !(ys.len() == xs.len() && xs.len() == radii.len() && radii.len() == ids.len()) {
        return Err(PlaceError::ShapeMismatch);
    }
    if obstacles.len() % 4 != 0 {
        return Err(PlaceError::ShapeMismatch);
    }
    if xs.len() == 0 {
        return Err(PlaceError::EmptyScene);
    }
    if pixel_step == 0 {
        return Err(PlaceError::NoCandidates);
    }
    let ranges = crate::sensor::Sensor::coordinates_along_circumference(width, height, pixel_step);
    let x_range = ranges.0;
    let y_range = ranges.1;
    if x_range.len() == 0 {
        return Err(PlaceError::NoCandidates);
    }
    let circles = initialize_elements(&xs, &ys, &radii, &ids, &obstacles);
    let result = inner_calculate_v3(circles, x_range, y_range, resolution, width, height);
    let positions = result.0;
    let inner_covs = result.1;
    let mut covs: Vec<Vec<(String, Vec<i64>)>> = Vec::new();
    covs.push(flatten_coverage(&inner_covs[0]));
    covs.push(flatten_coverage(&inner_covs[1]));
    covs.push(flatten_coverage(&inner_covs[2]));
    Ok((positions, covs))
}

} // verus!
