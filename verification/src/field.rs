//! The scene: a flat collection of hit-testable elements with field bounds.
//! It casts single rays with nearest-hit occlusion resolution and hands out
//! consolidated per-circle coverage.

use vstd::prelude::*;

use crate::rangestack::{consolidated, spec_consolidate, spec_wrapping_add, Range, RangeStack};
use crate::ray::Ray;
use crate::shape::{
    spec_element_hit, Element, ElementView, Hittable, Intersection, MAX_HIT_DIST,
};
use crate::trig::TAU_UNITS;

verus! {

/// The ghost value of a scene: its elements' values in order.
pub open spec fn views_of(elements: Seq<Element>) -> Seq<ElementView> {
    elements.map_values(|e: Element| e@)
}

/// The nearest hit over the elements, resolved to the first element (in
/// scene order) attaining the minimal distance, with its index.
pub open spec fn spec_trace(evs: Seq<ElementView>, ray: Ray) -> Option<(i64, int)>
    decreases evs.len(),
{
    if evs.len() == 0 {
        None
    } else {
        let prev = spec_trace(evs.drop_last(), ray);
        let h = spec_element_hit(evs.last(), ray);
        match (prev, h) {
            (None, None) => None,
            (None, Some(d)) => Some((d, evs.len() - 1)),
            (Some(p), None) => Some(p),
            (Some(p), Some(d)) => if d < p.0 {
                Some((d, evs.len() - 1))
            } else {
                Some(p)
            },
        }
    }
}

/// What the nearest-hit resolution returns. A result names an element
/// that the ray hits at exactly that distance; no element is hit nearer; and
/// every earlier element is hit strictly farther, so among equal minima the
/// first wins. No result means no element is hit at all.
pub proof fn lemma_spec_trace_props(evs: Seq<ElementView>, ray: Ray)
    ensures
        spec_trace(evs, ray) matches Some(p) ==> 0 <= p.1 < evs.len() && spec_element_hit(
            evs[p.1],
            ray,
        ) == Some(p.0),
        spec_trace(evs, ray) matches Some(p) ==> forall|k: int|
            0 <= k < evs.len() ==> (#[trigger] spec_element_hit(evs[k], ray) matches Some(dk)
                ==> p.0 <= dk),
        spec_trace(evs, ray) matches Some(p) ==> forall|k: int|
            0 <= k < p.1 ==> (#[trigger] spec_element_hit(evs[k], ray) matches Some(dk) ==> p.0
                < dk),
        spec_trace(evs, ray) is None ==> forall|k: int|
            0 <= k < evs.len() ==> #[trigger] spec_element_hit(evs[k], ray) is None,
    decreases evs.len(),
{
    if evs.len() > 0 {
        lemma_spec_trace_props(evs.drop_last(), ray);
        assert forall|k: int| 0 <= k < evs.len() - 1 implies evs.drop_last()[k] == evs[k] by {}
    }
}

/// A flat scene of elements plus the field bounds and ray-fan resolution.
#[derive(Clone, Debug)]
pub struct Field {
    pub elements: Vec<Element>,
    pub res: u32,
    pub width: u32,
    pub height: u32,
}

impl View for Field {
    type V = Seq<ElementView>;

    open spec fn view(&self) -> Seq<ElementView> {
        views_of(self.elements@)
    }
}

/// The element holds a circle carrying this identifier.
pub open spec fn is_circle_with_id(ev: ElementView, id: Seq<char>) -> bool {
    ev matches ElementView::Circle(cv) && cv.id == id
}

/// `j` is the first index whose element is a circle with this identifier.
pub open spec fn is_first_match(evs: Seq<ElementView>, id: Seq<char>, j: int) -> bool {
    &&& 0 <= j < evs.len()
    &&& is_circle_with_id(evs[j], id)
    &&& forall|k: int| 0 <= k < j ==> !is_circle_with_id(evs[k], id)
}

/// The index of the first circle carrying this identifier, or `-1`.
pub open spec fn spec_first_match(evs: Seq<ElementView>, id: Seq<char>) -> int {
    if exists|j: int| is_first_match(evs, id, j) {
        choose|j: int| is_first_match(evs, id, j)
    } else {
        -1
    }
}

/// The scene after a raw interval is credited to the first circle carrying
/// the identifier; a scene without that circle is unchanged.
pub open spec fn spec_update_stack(evs: Seq<ElementView>, id: Seq<char>, raw: Range) -> Seq<
    ElementView,
> {
    let j = spec_first_match(evs, id);
    if j == -1 {
        evs
    } else {
        match evs[j] {
            ElementView::Circle(cv) => evs.update(
                j,
                ElementView::Circle(
                    crate::shape::CircleView {
                        stack: spec_wrapping_add(cv.stack, raw),
                        ..cv
                    },
                ),
            ),
            ElementView::Segment(sv) => evs,
        }
    }
}

/// Per-circle consolidated coverage, in scene order.
pub open spec fn spec_coverage(evs: Seq<ElementView>) -> Seq<(Seq<char>, Seq<Range>)>
    decreases evs.len(),
{
    if evs.len() == 0 {
        Seq::empty()
    } else {
        let rest = spec_coverage(evs.drop_last());
        match evs.last() {
            ElementView::Circle(cv) => rest.push((cv.id, spec_consolidate(cv.stack))),
            ElementView::Segment(sv) => rest,
        }
    }
}

impl Field {
    /// Every element of the scene is well-formed.
    pub open spec fn wf(&self) -> bool {
        forall|i: int| 0 <= i < self.elements@.len() ==> (#[trigger] self.elements@[i]).wf()
    }

    pub fn new(elements: Vec<Element>, res: u32, width: u32, height: u32) -> (f: Field)
        ensures
            f.elements@ == elements@,
            f.res == res,
            f.width == width,
            f.height == height,
    {
        Field { elements, res, width, height }
    }

    /// An exact copy of the scene, element stacks included.
    pub fn duplicate(&self) -> (f: Field)
        ensures
            f@ == self@,
            f.res == self.res,
            f.width == self.width,
            f.height == self.height,
            f.elements@.len() == self.elements@.len(),
            self.wf() ==> f.wf(),
    {
        let mut v: Vec<Element> = Vec::new();
        let mut i: usize = 0;
        while i < self.elements.len()
            invariant
                i <= self.elements.len(),
                v@.len() == i,
                forall|k: int|
                    0 <= k < i ==> (#[trigger] v@[k])@ == self.elements@[k]@ && (v@[k].wf()
                        == self.elements@[k].wf()),
            decreases self.elements.len() - i,
        {
            let e = self.elements[i].duplicate();
            v.push(e);
            i = i + 1;
        }
        let f = Field { elements: v, res: self.res, width: self.width, height: self.height };
        proof {
            assert(f@ =~= self@);
        }
        f
    }

    /// Cast a single ray and resolve the nearest hit, if any.
    pub fn trace(&self, ray: &Ray) -> (r: Option<Intersection>)
        requires
            self.wf(),
            ray.wf(),
        ensures
            r matches Some(it) ==> spec_trace(self@, *ray) == Some((it.distance, it.index as int))
                && it.index < self.elements@.len() && 0 <= it.distance <= MAX_HIT_DIST,
            r is None ==> spec_trace(self@, *ray) is None,
    {
        let mut best: Option<Intersection> = None;
        let mut i: usize = 0;
        proof {
            assert(self@.subrange(0, 0) =~= Seq::<ElementView>::empty());
        }
        while i < self.elements.len()
            invariant
                i <= self.elements.len(),
                self.wf(),
                ray.wf(),
                best matches Some(it) ==> spec_trace(self@.subrange(0, i as int), *ray) == Some(
                    (it.distance, it.index as int),
                ) && it.index < i && 0 <= it.distance <= MAX_HIT_DIST,
                best is None ==> spec_trace(self@.subrange(0, i as int), *ray) is None,
            decreases self.elements.len() - i,
        {
            let h = self.elements[i].hit(ray);
            proof {
                assert(self@.subrange(0, i + 1 as int).drop_last() =~= self@.subrange(0, i as int));
                assert(self@.subrange(0, i + 1 as int).last() == self@[i as int]);
                assert(self@[i as int] == self.elements@[i as int]@);
            }
            match h {
                Some(d) => {
                    match &best {
                        Some(it) => {
                            if d < it.distance {
                                best = Some(Intersection::new(d, i));
                            }
                        },
                        None => {
                            best = Some(Intersection::new(d, i));
                        },
                    }
                },
                None => {},
            }
            i = i + 1;
        }
        proof {
            assert(self@.subrange(0, self.elements@.len() as int) =~= self@);
        }
        best
    }

    /// Credit a raw swept arc to the first circle carrying `id`; a scene
    /// without that circle is left unchanged.
    pub fn update_stack(&mut self, id: &String, range: Range)
        requires
            old(self).wf(),
            -TAU_UNITS <= range.lo() <= TAU_UNITS,
            0 <= range.hi() <= 2 * TAU_UNITS,
            2 * (range.hi() - range.lo()) > TAU_UNITS ==> 0 <= range.lo() && range.hi()
                <= TAU_UNITS,
        ensures
            final(self)@ == spec_update_stack(old(self)@, id@, range),
            final(self).wf(),
            final(self).elements@.len() == old(self).elements@.len(),
            final(self).res == old(self).res,
            final(self).width == old(self).width,
            final(self).height == old(self).height,
    {
        let ghost evs = self@;
        let n = self.elements.len();
        let mut i: usize = 0;
        let mut found: Option<usize> = None;
        while i < n && found.is_none()
            invariant
                i <= n,
                n == self.elements@.len(),
                found matches Some(j) ==> is_first_match(evs, id@, j as int),
                found is None ==> forall|k: int| 0 <= k < i ==> !is_circle_with_id(evs[k], id@),
                evs == self@,
            decreases n - i,
        {
            match &self.elements[i] {
                Element::Circle(c) => {
                    if c.id == *id {
                        found = Some(i);
                    }
                },
                Element::Segment(_) => {},
            }
            i = i + 1;
        }
        match found {
            Some(j) => {
                proof {
                    assert(is_first_match(evs, id@, j as int));
                    let jj = spec_first_match(evs, id@);
                    assert(is_first_match(evs, id@, jj));
                    if jj != j as int {
                        assert(!is_circle_with_id(evs[if jj < j as int {
                            jj
                        } else {
                            j as int
                        }], id@));
                    }
                }
                let e = self.elements[j].duplicate();
                match e {
                    Element::Circle(mut c) => {
                        c.range_stack.wrapping_add(&range);
                        self.elements.set(j, Element::Circle(c));
                        proof {
                            assert(self@ =~= spec_update_stack(evs, id@, range));
                        }
                    },
                    Element::Segment(_) => {
                        proof {
                            assert(false);
                        }
                    },
                }
            },
            None => {
                proof {
                    if spec_first_match(evs, id@) != -1 {
                        let jj = spec_first_match(evs, id@);
                        assert(is_first_match(evs, id@, jj));
                    }
                    assert(self@ =~= spec_update_stack(evs, id@, range));
                }
            },
        }
    }

    /// The consolidated coverage of every circle, keyed by identifier, in
    /// scene order. The live stacks are left untouched.
    pub fn get_coverage(&self) -> (cov: Vec<(String, RangeStack)>)
        requires
            self.wf(),
        ensures
            cov@.len() == spec_coverage(self@).len(),
            forall|k: int|
                0 <= k < cov@.len() ==> (#[trigger] cov@[k]).0@ == spec_coverage(self@)[k].0
                    && cov@[k].1@ == spec_coverage(self@)[k].1 && consolidated(cov@[k].1@),
    {
        let mut cov: Vec<(String, RangeStack)> = Vec::new();
        let mut i: usize = 0;
        proof {
            assert(self@.subrange(0, 0) =~= Seq::<ElementView>::empty());
        }
        while i < self.elements.len()
            invariant
                i <= self.elements.len(),
                self.wf(),
                cov@.len() == spec_coverage(self@.subrange(0, i as int)).len(),
                forall|k: int|
                    0 <= k < cov@.len() ==> (#[trigger] cov@[k]).0@ == spec_coverage(
                        self@.subrange(0, i as int),
                    )[k].0 && cov@[k].1@ == spec_coverage(self@.subrange(0, i as int))[k].1
                        && consolidated(cov@[k].1@),
            decreases self.elements.len() - i,
        {
            proof {
                assert(self@.subrange(0, i + 1 as int).drop_last() =~= self@.subrange(0, i as int));
                assert(self@.subrange(0, i + 1 as int).last() == self@[i as int]);
                assert(self@[i as int] == self.elements@[i as int]@);
            }
            match &self.elements[i] {
                Element::Circle(c) => {
                    let rs = c.range_stack.consolidate();
                    cov.push((c.id.clone(), rs));
                },
                Element::Segment(_) => {},
            }
            i = i + 1;
        }
        proof {
            assert(self@.subrange(0, self.elements@.len() as int) =~= self@);
        }
        cov
    }
}

/// Cast a ray into the scene and hand back the nearest struck element.
pub fn cast_ray<'f>(field: &'f Field, ray: &Ray) -> (r: Option<&'f Element>)
    requires
        field.wf(),
        ray.wf(),
    ensures
        r.is_some() == spec_trace(field@, *ray) is Some,
        r matches Some(e) ==> spec_trace(field@, *ray) matches Some(p) && *e
            == field.elements@[p.1],
{
    match field.trace(ray) {
        Some(intersection) => Some(&field.elements[intersection.index]),
        None => None,
    }
}

} // verus!
