//! Angular interval stacks: per-object accumulation of visible arcs on the
//! circular domain `[0, TAU_UNITS]`, with wraparound at the seam, and a
//! non-destructive sort-and-merge consolidation pass.

use vstd::prelude::*;

use crate::trig::TAU_UNITS;

verus! {

/// A closed angular interval. Raw ranges may be disordered or reach outside
/// the circular domain; stored ranges are normalized into it.
#[derive(Clone, Copy, Debug, PartialEq, Eq, Structural)]
pub struct Range {
    pub start: i64,
    pub end: i64,
}

impl Range {
    pub fn new(start: i64, end: i64) -> (r: Range)
        ensures
            r.start == start,
            r.end == end,
    {
        Range { start, end }
    }

    /// An ordered interval inside the circular domain.
    pub open spec fn in_domain(&self) -> bool {
        0 <= self.start <= self.end <= TAU_UNITS
    }

    /// The angles the closed interval covers.
    pub open spec fn covers(&self, a: int) -> bool {
        self.start <= a <= self.end
    }

    /// The smaller raw bound.
    pub open spec fn lo(&self) -> int {
        if self.end < self.start {
            self.end as int
        } else {
            self.start as int
        }
    }

    /// The larger raw bound.
    pub open spec fn hi(&self) -> int {
        if self.end < self.start {
            self.start as int
        } else {
            self.end as int
        }
    }

    /// One of `other`'s bounds falls inside `self`.
    pub open spec fn spec_overlaps(&self, other: &Range) -> bool {
        (other.start >= self.start && other.start <= self.end) || (other.end >= self.start
            && other.end <= self.end)
    }

    fn overlaps(&self, other: &Range) -> (b: bool)
        ensures
            b == self.spec_overlaps(other),
    {
        (other.start >= self.start && other.start <= self.end) || (other.end >= self.start
            && other.end <= self.end)
    }

    /// The smallest interval containing both.
    pub open spec fn spec_merge(self, other: Range) -> Range {
        Range {
            start: if other.start < self.start {
                other.start
            } else {
                self.start
            },
            end: if other.end > self.end {
                other.end
            } else {
                self.end
            },
        }
    }

    /// Widen `self` to the smallest interval containing both.
    fn merge(&mut self, other: &Range)
        ensures
            *final(self) == old(self).spec_merge(*other),
    {
        if other.start < self.start {
            self.start = other.start;
        }
        if other.end > self.end {
            self.end = other.end;
        }
    }
}

/// The interval as stored: reversed raw bounds are put in order.
pub open spec fn spec_oriented(r: Range) -> Range {
    if r.end < r.start {
        Range { start: r.end, end: r.start }
    } else {
        r
    }
}

/// All stored intervals are normalized into the circular domain.
pub open spec fn ranges_wf(s: Seq<Range>) -> bool {
    forall|i: int| 0 <= i < s.len() ==> s[i].in_domain()
}

/// Some interval of the stack covers the angle `a`.
pub open spec fn seq_covers(s: Seq<Range>, a: int) -> bool {
    exists|i: int| 0 <= i < s.len() && s[i].covers(a)
}

/// Moving-window merge: the new interval is compared against the most
/// recently appended one only, and merged into it when they overlap.
pub open spec fn spec_merging_add(s: Seq<Range>, r: Range) -> Seq<Range> {
    if s.len() > 0 && s.last().spec_overlaps(&r) {
        s.update(s.len() - 1, s.last().spec_merge(r))
    } else {
        s.push(r)
    }
}

/// Insertion of a raw interval: order its bounds, then moving-window merge.
pub open spec fn spec_add(s: Seq<Range>, r: Range) -> Seq<Range> {
    spec_merging_add(s, spec_oriented(r))
}

/// Wraparound-aware insertion of a raw interval (see `wrapping_add`).
pub open spec fn spec_wrapping_add(s: Seq<Range>, raw: Range) -> Seq<Range> {
    let lo = raw.lo();
    let hi = raw.hi();
    if 2 * (hi - lo) > TAU_UNITS {
        spec_add(
            spec_add(s, Range { start: 0, end: lo as i64 }),
            Range { start: hi as i64, end: TAU_UNITS },
        )
    } else if lo < 0 {
        spec_add(
            spec_add(s, Range { start: 0, end: hi as i64 }),
            Range { start: (TAU_UNITS + lo) as i64, end: TAU_UNITS },
        )
    } else if hi > TAU_UNITS {
        spec_add(
            spec_add(s, Range { start: lo as i64, end: TAU_UNITS }),
            Range { start: 0, end: (hi - TAU_UNITS) as i64 },
        )
    } else {
        spec_add(s, Range { start: lo as i64, end: hi as i64 })
    }
}

/// An insertion-ordered stack of angular intervals belonging to one circle.
#[derive(Clone, Debug)]
pub struct RangeStack {
    pub ranges: Vec<Range>,
}

impl View for RangeStack {
    type V = Seq<Range>;

    open spec fn view(&self) -> Seq<Range> {
        self.ranges@
    }
}

impl RangeStack {
    /// All stored intervals are normalized into the circular domain.
    pub open spec fn wf(&self) -> bool {
        ranges_wf(self@)
    }

    pub fn new() -> (r: RangeStack)
        ensures
            r@ == Seq::<Range>::empty(),
            r.wf(),
    {
        let r = RangeStack { ranges: Vec::new() };
        proof {
            assert(r@ =~= Seq::<Range>::empty());
        }
        r
    }

    pub fn is_empty(&self) -> (b: bool)
        ensures
            b == (self@.len() == 0),
    {
        self.ranges.len() == 0
    }

    /// An exact copy of the stack.
    pub fn duplicate(&self) -> (r: RangeStack)
        ensures
            r@ == self@,
    {
        let mut v: Vec<Range> = Vec::new();
        let mut i: usize = 0;
        while i < self.ranges.len()
            invariant
                i <= self.ranges.len(),
                v@ =~= self.ranges@.subrange(0, i as int),
            decreases self.ranges.len() - i,
        {
            v.push(self.ranges[i]);
            i = i + 1;
        }
        proof {
            assert(v@ =~= self.ranges@);
        }
        RangeStack { ranges: v }
    }

    /// Append, merging into the most recently appended interval when the two
    /// overlap.
    fn merging_add(&mut self, range: &Range)
        ensures
            final(self)@ == spec_merging_add(old(self)@, *range),
            old(self).wf() && range.in_domain() ==> final(self).wf(),
    {
        let n = self.ranges.len();
        if n > 0 {
            let last = self.ranges[n - 1];
            if last.overlaps(range) {
                let mut merged = last;
                merged.merge(range);
                self.ranges.set(n - 1, merged);
                proof {
                    assert(self@ =~= spec_merging_add(old(self)@, *range));
                }
                return ;
            }
        }
        self.ranges.push(*range);
        proof {
            assert(self@ =~= spec_merging_add(old(self)@, *range));
        }
    }

    /// Insert a raw interval, ordering its bounds first.
    fn add(&mut self, range: &Range)
        ensures
            final(self)@ == spec_add(old(self)@, *range),
            old(self).wf() && spec_oriented(*range).in_domain() ==> final(self).wf(),
    {
        if range.end < range.start {
            let flipped = Range { start: range.end, end: range.start };
            self.merging_add(&flipped);
        } else {
            self.merging_add(range);
        }
    }

    /// Add a raw interval to the stack, wrapping around the seam at
    /// `TAU_UNITS`: of the two arcs its bounds delimit, the shorter one is
    /// credited; an arc longer than a half turn is taken as the complement
    /// and split into two intervals anchored at the seam, and an arc that
    /// reaches outside the domain has its overflow wrapped across the seam.
    pub fn wrapping_add(&mut self, range: &Range)
        requires
            old(self).wf(),
            -TAU_UNITS <= range.lo() <= TAU_UNITS,
            0 <= range.hi() <= 2 * TAU_UNITS,
            2 * (range.hi() - range.lo()) > TAU_UNITS ==> 0 <= range.lo() && range.hi()
                <= TAU_UNITS,
        ensures
            final(self)@ == spec_wrapping_add(old(self)@, *range),
            final(self).wf(),
    {
        let mut start = range.start;
        let mut end = range.end;
        if end < start {
            let t = start;
            start = end;
            end = t;
        }
        if 2 * (end - start) > TAU_UNITS {
            self.add(&Range { start: 0, end: start });
            self.add(&Range { start: end, end: TAU_UNITS });
        } else if start < 0 {
            self.add(&Range { start: 0, end });
            self.add(&Range { start: TAU_UNITS + start, end: TAU_UNITS });
        } else if end > TAU_UNITS {
            self.add(&Range { start, end: TAU_UNITS });
            self.add(&Range { start: 0, end: end - TAU_UNITS });
        } else {
            self.add(&Range { start, end });
        }
    }

    /// Sum of the spans of the stored intervals. Meaningful as a measure of
    /// covered arc only on a consolidated stack: overlapping contributions
    /// are counted twice otherwise.
    pub fn length(&self) -> (l: i64)
        requires
            self.wf(),
            self@.len() <= 0x10_0000,
        ensures
            l == spec_length(self@),
            0 <= l <= self@.len() * TAU_UNITS,
    {
        let mut sum: i64 = 0;
        let mut k: usize = 0;
        while k < self.ranges.len()
            invariant
                k <= self.ranges.len(),
                self.wf(),
                self@.len() <= 0x10_0000,
                sum == spec_length(self@.subrange(0, k as int)),
                0 <= sum <= k * TAU_UNITS,
            decreases self.ranges.len() - k,
        {
            let r = self.ranges[k];
            proof {
                assert(self@.subrange(0, k + 1 as int).drop_last() =~= self@.subrange(
                    0,
                    k as int,
                ));
                assert(self@.subrange(0, k + 1 as int).last() == self@[k as int]);
            }
            sum = sum + (r.end - r.start);
            k = k + 1;
        }
        proof {
            assert(self@.subrange(0, self@.len() as int) =~= self@);
        }
        sum
    }

    /// The non-destructive consolidation pass: sort all stored intervals by
    /// start, then merge overlapping or adjacent neighbors in one sweep. The
    /// live stack is left unchanged.
    pub fn consolidate(&self) -> (r: RangeStack)
        requires
            self.wf(),
        ensures
            r@ == spec_consolidate(self@),
            consolidated(r@),
            r.wf(),
            forall|a: int| seq_covers(r@, a) == seq_covers(self@, a),
    {
        let mut sorted_v: Vec<Range> = Vec::new();
        let mut k: usize = 0;
        proof {
            assert(self@.subrange(0, 0) =~= Seq::<Range>::empty());
            assert(sorted_v@ =~= spec_sort(self@.subrange(0, 0)));
        }
        while k < self.ranges.len()
            invariant
                k <= self.ranges.len(),
                sorted_v@ == spec_sort(self@.subrange(0, k as int)),
                sorted_by_start(sorted_v@),
            decreases self.ranges.len() - k,
        {
            let r = self.ranges[k];
            let mut j = sorted_v.len();
            while j > 0 && sorted_v[j - 1].start > r.start
                invariant
                    j <= sorted_v.len(),
                    forall|i: int|
                        j <= i < sorted_v@.len() ==> #[trigger] sorted_v@[i].start > r.start,
                decreases j,
            {
                j = j - 1;
            }
            let ghost pre = sorted_v@;
            sorted_v.insert(j, r);
            proof {
                lemma_insert_sorted_at(pre, r, j as int);
                lemma_insert_sorted_props(pre, r);
                assert(self@.subrange(0, k + 1 as int).drop_last() =~= self@.subrange(
                    0,
                    k as int,
                ));
                assert(self@.subrange(0, k + 1 as int).last() == self@[k as int]);
            }
            k = k + 1;
        }
        proof {
            assert(self@.subrange(0, self@.len() as int) =~= self@);
            lemma_sort_props(self@);
        }
        let mut out = RangeStack::new();
        let mut k2: usize = 0;
        proof {
            assert(sorted_v@.subrange(0, 0) =~= Seq::<Range>::empty());
            assert(out@ =~= spec_merge_fold(sorted_v@.subrange(0, 0)));
        }
        while k2 < sorted_v.len()
            invariant
                k2 <= sorted_v.len(),
                out@ == spec_merge_fold(sorted_v@.subrange(0, k2 as int)),
            decreases sorted_v.len() - k2,
        {
            let r2 = sorted_v[k2];
            out.merging_add(&r2);
            proof {
                assert(sorted_v@.subrange(0, k2 + 1 as int).drop_last() =~= sorted_v@.subrange(
                    0,
                    k2 as int,
                ));
                assert(sorted_v@.subrange(0, k2 + 1 as int).last() == sorted_v@[k2 as int]);
            }
            k2 = k2 + 1;
        }
        proof {
            assert(sorted_v@.subrange(0, sorted_v@.len() as int) =~= sorted_v@);
            lemma_merge_fold_props(sorted_v@);
            assert forall|a: int| seq_covers(out@, a) == seq_covers(self@, a) by {
                lemma_merge_fold_covers_at(sorted_v@, a);
                lemma_sort_covers_at(self@, a);
            }
        }
        out
    }
}

/// The stack sorted ascending by interval start.
pub open spec fn sorted_by_start(s: Seq<Range>) -> bool {
    forall|i: int, j: int| 0 <= i < j < s.len() ==> s[i].start <= s[j].start
}

/// A fully consolidated stack: every interval normalized into the circular
/// domain, sorted ascending by start, and pairwise disjoint with a gap
/// between neighbors.
pub open spec fn consolidated(s: Seq<Range>) -> bool {
    &&& ranges_wf(s)
    &&& sorted_by_start(s)
    &&& forall|i: int| 0 <= i < s.len() - 1 ==> #[trigger] s[i].end < s[i + 1].start
}

/// Insertion into a sorted stack, before the suffix of larger starts.
pub open spec fn spec_insert_sorted(s: Seq<Range>, r: Range) -> Seq<Range>
    decreases s.len(),
{
    if s.len() == 0 {
        seq![r]
    } else if s.last().start <= r.start {
        s.push(r)
    } else {
        spec_insert_sorted(s.drop_last(), r).push(s.last())
    }
}

/// Insertion sort of a stack by interval start.
pub open spec fn spec_sort(s: Seq<Range>) -> Seq<Range>
    decreases s.len(),
{
    if s.len() == 0 {
        Seq::<Range>::empty()
    } else {
        spec_insert_sorted(spec_sort(s.drop_last()), s.last())
    }
}

/// One linear sweep of moving-window merges.
pub open spec fn spec_merge_fold(s: Seq<Range>) -> Seq<Range>
    decreases s.len(),
{
    if s.len() == 0 {
        Seq::<Range>::empty()
    } else {
        spec_merging_add(spec_merge_fold(s.drop_last()), s.last())
    }
}

/// The consolidation pass: sort by start, then merge neighbors.
pub open spec fn spec_consolidate(s: Seq<Range>) -> Seq<Range> {
    spec_merge_fold(spec_sort(s))
}

/// Sum of the spans of the stored intervals.
pub open spec fn spec_length(s: Seq<Range>) -> int
    decreases s.len(),
{
    if s.len() == 0 {
        0
    } else {
        spec_length(s.drop_last()) + (s.last().end - s.last().start)
    }
}

/// Appending an interval extends the covered angles by exactly its own.
proof fn lemma_covers_push_at(s: Seq<Range>, r: Range, a: int)
    ensures
        seq_covers(s.push(r), a) == (seq_covers(s, a) || r.covers(a)),
{
    if seq_covers(s.push(r), a) {
        let i = choose|i: int| 0 <= i < s.push(r).len() && s.push(r)[i].covers(a);
        if i < s.len() {
            assert(s[i].covers(a));
            assert(seq_covers(s, a));
        } else {
            assert(s.push(r)[s.len() as int] == r);
        }
    }
    if seq_covers(s, a) {
        let i = choose|i: int| 0 <= i < s.len() && s[i].covers(a);
        assert(s.push(r)[i].covers(a));
        assert(seq_covers(s.push(r), a));
    }
    if r.covers(a) {
        assert(s.push(r)[s.len() as int].covers(a));
        assert(seq_covers(s.push(r), a));
    }
}

/// The moving-window merge extends the covered angles by exactly the new
/// interval's own.
pub proof fn lemma_merging_add_covers_at(s: Seq<Range>, r: Range, a: int)
    requires
        forall|i: int| 0 <= i < s.len() ==> #[trigger] s[i].start <= s[i].end,
        r.start <= r.end,
    ensures
        seq_covers(spec_merging_add(s, r), a) == (seq_covers(s, a) || r.covers(a)),
{
    let res = spec_merging_add(s, r);
    if s.len() > 0 && s.last().spec_overlaps(&r) {
        let l = s.last();
        let m = l.spec_merge(r);
        assert(s[s.len() - 1].start <= s[s.len() - 1].end);
        assert(m.covers(a) == (l.covers(a) || r.covers(a)));
        if seq_covers(res, a) {
            let i = choose|i: int| 0 <= i < res.len() && res[i].covers(a);
            if i < s.len() - 1 {
                assert(s[i].covers(a));
                assert(seq_covers(s, a));
            } else {
                assert(res[i] == m);
                if l.covers(a) {
                    assert(seq_covers(s, a));
                }
            }
        }
        if seq_covers(s, a) {
            let i = choose|i: int| 0 <= i < s.len() && s[i].covers(a);
            if i < s.len() - 1 {
                assert(res[i].covers(a));
            } else {
                assert(res[s.len() - 1].covers(a));
            }
            assert(seq_covers(res, a));
        }
        if r.covers(a) {
            assert(res[s.len() - 1].covers(a));
            assert(seq_covers(res, a));
        }
    } else {
        lemma_covers_push_at(s, r, a);
    }
}

/// Inserting a normalized interval keeps the stack normalized and extends
/// the covered angles by exactly its own.
pub proof fn lemma_add_wf(s: Seq<Range>, r: Range)
    requires
        ranges_wf(s),
        spec_oriented(r).in_domain(),
    ensures
        ranges_wf(spec_add(s, r)),
        forall|a: int|
            seq_covers(spec_add(s, r), a) == (seq_covers(s, a) || spec_oriented(r).covers(a)),
{
    let o = spec_oriented(r);
    let res = spec_merging_add(s, o);
    assert forall|i: int| 0 <= i < res.len() implies res[i].in_domain() by {
        if s.len() > 0 && s.last().spec_overlaps(&o) {
            assert(s[s.len() - 1].in_domain());
            if i < s.len() - 1 {
                assert(s[i].in_domain());
            }
        } else {
            if i < s.len() {
                assert(s[i].in_domain());
            }
        }
    }
    assert forall|a: int| seq_covers(spec_add(s, r), a) == (seq_covers(s, a)
        || spec_oriented(r).covers(a)) by {
        assert forall|i: int| 0 <= i < s.len() implies #[trigger] s[i].start <= s[i].end by {
            assert(s[i].in_domain());
        }
        lemma_merging_add_covers_at(s, o, a);
    }
}

/// Where `spec_insert_sorted` puts the new interval: at any position whose
/// suffix holds strictly larger starts and whose prefix does not.
proof fn lemma_insert_sorted_at(s: Seq<Range>, r: Range, j: int)
    requires
        0 <= j <= s.len(),
        forall|i: int| j <= i < s.len() ==> #[trigger] s[i].start > r.start,
        j > 0 ==> s[j - 1].start <= r.start,
    ensures
        spec_insert_sorted(s, r) == s.insert(j, r),
    decreases s.len(),
{
    if s.len() == 0 {
        assert(spec_insert_sorted(s, r) =~= s.insert(0, r));
    } else if s.last().start <= r.start {
        assert(j == s.len());
        assert(spec_insert_sorted(s, r) =~= s.insert(j, r));
    } else {
        assert(j < s.len());
        lemma_insert_sorted_at(s.drop_last(), r, j);
        assert(spec_insert_sorted(s.drop_last(), r).push(s.last()) =~= s.insert(j, r));
    }
}

/// Sorted insertion covers exactly the old angles plus the new interval's.
proof fn lemma_insert_sorted_covers_at(s: Seq<Range>, r: Range, a: int)
    ensures
        seq_covers(spec_insert_sorted(s, r), a) == (seq_covers(s, a) || r.covers(a)),
    decreases s.len(),
{
    let res = spec_insert_sorted(s, r);
    if s.len() == 0 {
        if seq_covers(s, a) {
            let i = choose|i: int| 0 <= i < s.len() && s[i].covers(a);
            assert(false);
        }
        if r.covers(a) {
            assert(res[0].covers(a));
            assert(seq_covers(res, a));
        }
        if seq_covers(res, a) {
            let i = choose|i: int| 0 <= i < res.len() && res[i].covers(a);
            assert(res[0] == r);
        }
    } else if s.last().start <= r.start {
        lemma_covers_push_at(s, r, a);
    } else {
        let inner = spec_insert_sorted(s.drop_last(), r);
        lemma_insert_sorted_covers_at(s.drop_last(), r, a);
        lemma_covers_push_at(inner, s.last(), a);
        assert(s.drop_last().push(s.last()) =~= s);
        lemma_covers_push_at(s.drop_last(), s.last(), a);
    }
}

/// Sorted insertion adds exactly the new interval: length, membership,
/// order and normalization all carry over.
proof fn lemma_insert_sorted_props(s: Seq<Range>, r: Range)
    ensures
        spec_insert_sorted(s, r).len() == s.len() + 1,
        forall|k: int|
            0 <= k < spec_insert_sorted(s, r).len() ==> (#[trigger] spec_insert_sorted(s, r)[k]
                == r || s.contains(spec_insert_sorted(s, r)[k])),
        sorted_by_start(s) ==> sorted_by_start(spec_insert_sorted(s, r)),
        ranges_wf(s) && r.in_domain() ==> ranges_wf(spec_insert_sorted(s, r)),
    decreases s.len(),
{
    let res = spec_insert_sorted(s, r);
    if s.len() == 0 {
        assert(res == seq![r]);
    } else if s.last().start <= r.start {
        assert forall|k: int| 0 <= k < res.len() implies (#[trigger] res[k] == r || s.contains(
            res[k],
        )) by {
            if k < s.len() {
                assert(res[k] == s[k]);
            }
        }
        if sorted_by_start(s) {
            assert forall|i: int, j: int| 0 <= i < j < res.len() implies res[i].start
                <= res[j].start by {
                if j < s.len() {
                } else {
                    assert(res[j] == r);
                    assert(s[i].start <= s.last().start);
                }
            }
        }
        if ranges_wf(s) && r.in_domain() {
            assert forall|i: int| 0 <= i < res.len() implies res[i].in_domain() by {
                if i < s.len() {
                    assert(s[i].in_domain());
                }
            }
        }
    } else {
        let inner = spec_insert_sorted(s.drop_last(), r);
        lemma_insert_sorted_props(s.drop_last(), r);
        assert forall|k: int| 0 <= k < res.len() implies (#[trigger] res[k] == r || s.contains(
            res[k],
        )) by {
            if k < inner.len() {
                assert(res[k] == inner[k]);
                if inner[k] != r {
                    assert(s.drop_last().contains(inner[k]));
                    let i = choose|i: int|
                        0 <= i < s.drop_last().len() && s.drop_last()[i] == inner[k];
                    assert(s[i] == inner[k]);
                }
            } else {
                assert(res[k] == s.last());
                assert(s[s.len() - 1] == s.last());
            }
        }
        if sorted_by_start(s) {
            assert(sorted_by_start(s.drop_last()));
            assert forall|i: int, j: int| 0 <= i < j < res.len() implies res[i].start
                <= res[j].start by {
                if j < inner.len() {
                } else {
                    assert(res[j] == s.last());
                    if res[i] == r {
                    } else {
                        let ii = choose|ii: int|
                            0 <= ii < s.drop_last().len() && s.drop_last()[ii] == res[i];
                        assert(s[ii].start <= s.last().start);
                    }
                }
            }
        }
        if ranges_wf(s) && r.in_domain() {
            assert(ranges_wf(s.drop_last())) by {
                assert forall|i: int| 0 <= i < s.drop_last().len() implies s.drop_last()[i].in_domain() by {
                    assert(s[i].in_domain());
                }
            }
            assert forall|i: int| 0 <= i < res.len() implies res[i].in_domain() by {
                if i < inner.len() {
                    assert(inner[i].in_domain());
                } else {
                    assert(res[i] == s.last());
                    assert(s[s.len() - 1].in_domain());
                }
            }
        }
    }
}

/// The insertion sort leaves starts ascending and neither gains nor loses
/// normalization.
pub proof fn lemma_sort_props(s: Seq<Range>)
    ensures
        sorted_by_start(spec_sort(s)),
        spec_sort(s).len() == s.len(),
        ranges_wf(s) ==> ranges_wf(spec_sort(s)),
    decreases s.len(),
{
    if s.len() == 0 {
    } else {
        lemma_sort_props(s.drop_last());
        lemma_insert_sorted_props(spec_sort(s.drop_last()), s.last());
        if ranges_wf(s) {
            assert(ranges_wf(s.drop_last())) by {
                assert forall|i: int| 0 <= i < s.drop_last().len() implies s.drop_last()[i].in_domain() by {
                    assert(s[i].in_domain());
                }
            }
            assert(s[s.len() - 1].in_domain());
        }
    }
}

/// The insertion sort covers exactly the same angles.
pub proof fn lemma_sort_covers_at(s: Seq<Range>, a: int)
    ensures
        seq_covers(spec_sort(s), a) == seq_covers(s, a),
    decreases s.len(),
{
    if s.len() == 0 {
    } else {
        lemma_sort_covers_at(s.drop_last(), a);
        lemma_insert_sorted_covers_at(spec_sort(s.drop_last()), s.last(), a);
        lemma_covers_push_at(s.drop_last(), s.last(), a);
        assert(s.drop_last().push(s.last()) =~= s);
    }
}

/// One merge sweep over a sorted normalized stack yields a consolidated
/// stack.
pub proof fn lemma_merge_fold_props(s: Seq<Range>)
    requires
        sorted_by_start(s),
        ranges_wf(s),
    ensures
        consolidated(spec_merge_fold(s)),
        s.len() > 0 ==> spec_merge_fold(s).len() > 0 && spec_merge_fold(s).last().start
            <= s.last().start,
    decreases s.len(),
{
    let res = spec_merge_fold(s);
    if s.len() == 0 {
        assert(consolidated(res));
    } else {
        let prev = spec_merge_fold(s.drop_last());
        let r = s.last();
        assert(sorted_by_start(s.drop_last()));
        assert(ranges_wf(s.drop_last())) by {
            assert forall|i: int| 0 <= i < s.drop_last().len() implies s.drop_last()[i].in_domain() by {
                assert(s[i].in_domain());
            }
        }
        lemma_merge_fold_props(s.drop_last());
        assert(s[s.len() - 1].in_domain());
        if s.len() > 1 {
            assert(s.drop_last().last().start <= r.start) by {
                assert(s[s.len() - 2].start <= s[s.len() - 1].start);
            }
        }
        if prev.len() > 0 && prev.last().spec_overlaps(&r) {
            let m = prev.last().spec_merge(r);
            assert(res =~= prev.update(prev.len() - 1, m));
            assert(m.in_domain());
            assert forall|i: int| 0 <= i < res.len() implies res[i].in_domain() by {
                if i < prev.len() - 1 {
                    assert(prev[i].in_domain());
                }
            }
            assert(m.start == prev.last().start);
            assert forall|i: int, j: int| 0 <= i < j < res.len() implies res[i].start <= res[j].start by {
                assert(prev[i].start <= prev[j].start);
            }
            assert forall|i: int| 0 <= i < res.len() - 1 implies #[trigger] res[i].end < res[i + 1].start by {
                assert(prev[i].end < prev[i + 1].start);
            }
        } else {
            assert(res =~= prev.push(r));
            if prev.len() > 0 {
                let l = prev.last();
                assert(l.start <= r.start);
                assert(!(r.start >= l.start && r.start <= l.end));
                assert(l.end < r.start);
            }
            assert forall|i: int| 0 <= i < res.len() implies res[i].in_domain() by {
                if i < prev.len() {
                    assert(prev[i].in_domain());
                }
            }
            assert forall|i: int, j: int| 0 <= i < j < res.len() implies res[i].start <= res[j].start by {
                if j < prev.len() {
                    assert(prev[i].start <= prev[j].start);
                } else {
                    if i < prev.len() - 1 {
                        assert(prev[i].start <= prev.last().start);
                    }
                }
            }
            assert forall|i: int| 0 <= i < res.len() - 1 implies #[trigger] res[i].end < res[i + 1].start by {
                if i < prev.len() - 1 {
                    assert(prev[i].end < prev[i + 1].start);
                }
            }
        }
    }
}

/// One merge sweep covers exactly the same angles.
pub proof fn lemma_merge_fold_covers_at(s: Seq<Range>, a: int)
    requires
        ranges_wf(s),
    ensures
        seq_covers(spec_merge_fold(s), a) == seq_covers(s, a),
    decreases s.len(),
{
    if s.len() == 0 {
    } else {
        let prev = spec_merge_fold(s.drop_last());
        assert(ranges_wf(s.drop_last())) by {
            assert forall|i: int| 0 <= i < s.drop_last().len() implies s.drop_last()[i].in_domain() by {
                assert(s[i].in_domain());
            }
        }
        lemma_merge_fold_covers_at(s.drop_last(), a);
        lemma_merge_fold_wf(s.drop_last());
        assert forall|i: int| 0 <= i < prev.len() implies #[trigger] prev[i].start <= prev[i].end by {
            assert(prev[i].in_domain());
        }
        assert(s[s.len() - 1].in_domain());
        lemma_merging_add_covers_at(prev, s.last(), a);
        lemma_covers_push_at(s.drop_last(), s.last(), a);
        assert(s.drop_last().push(s.last()) =~= s);
    }
}

/// One merge sweep keeps every interval normalized.
proof fn lemma_merge_fold_wf(s: Seq<Range>)
    requires
        ranges_wf(s),
    ensures
        ranges_wf(spec_merge_fold(s)),
    decreases s.len(),
{
    let res = spec_merge_fold(s);
    if s.len() == 0 {
    } else {
        let prev = spec_merge_fold(s.drop_last());
        assert(ranges_wf(s.drop_last())) by {
            assert forall|i: int| 0 <= i < s.drop_last().len() implies s.drop_last()[i].in_domain() by {
                assert(s[i].in_domain());
            }
        }
        lemma_merge_fold_wf(s.drop_last());
        assert(s[s.len() - 1].in_domain());
        let r = s.last();
        assert forall|i: int| 0 <= i < res.len() implies res[i].in_domain() by {
            if prev.len() > 0 && prev.last().spec_overlaps(&r) {
                assert(prev[prev.len() - 1].in_domain());
                if i < prev.len() - 1 {
                    assert(prev[i].in_domain());
                }
            } else {
                if i < prev.len() {
                    assert(prev[i].in_domain());
                }
            }
        }
    }
}

/// The merge sweep never lengthens the stack.
pub proof fn lemma_merge_fold_len(s: Seq<Range>)
    ensures
        spec_merge_fold(s).len() <= s.len(),
    decreases s.len(),
{
    if s.len() > 0 {
        lemma_merge_fold_len(s.drop_last());
    }
}

/// The consolidation pass never lengthens the stack.
pub proof fn lemma_consolidate_len(s: Seq<Range>)
    ensures
        spec_consolidate(s).len() <= s.len(),
{
    lemma_sort_props(s);
    lemma_merge_fold_len(spec_sort(s));
}

/// The total span of a consolidated stack is at most one full turn.
pub proof fn lemma_consolidated_length_bound(s: Seq<Range>)
    requires
        consolidated(s),
    ensures
        0 <= spec_length(s),
        spec_length(s) <= TAU_UNITS,
        s.len() > 0 ==> spec_length(s) <= s.last().end - s[0].start,
    decreases s.len(),
{
    if s.len() > 0 {
        let prev = s.drop_last();
        assert(consolidated(prev)) by {
            assert(forall|i: int| 0 <= i < prev.len() ==> prev[i] == s[i]);
        }
        lemma_consolidated_length_bound(prev);
        assert(s[s.len() - 1].in_domain());
        if prev.len() > 0 {
            assert(prev.last().end < s.last().start);
            assert(prev[0] == s[0]);
            assert(s[0].in_domain());
        }
    }
}

/// Inserting an arc that lies inside the circular domain and spans at
/// most a half turn stores exactly that interval, merged with the most
/// recently appended one only where the two overlap.
pub proof fn lemma_wrapping_add_minor_arc(s: Seq<Range>, arc: Range)
    requires
        ranges_wf(s),
        arc.in_domain(),
        2 * (arc.end - arc.start) <= TAU_UNITS,
    ensures
        spec_wrapping_add(s, arc) == spec_merging_add(s, arc),
        forall|a: int|
            seq_covers(spec_wrapping_add(s, arc), a) == (seq_covers(s, a) || arc.covers(a)),
{
    assert(spec_oriented(arc) == arc);
    assert(spec_wrapping_add(s, arc) == spec_merging_add(s, arc));
    assert forall|a: int| seq_covers(spec_wrapping_add(s, arc), a) == (seq_covers(s, a)
        || arc.covers(a)) by {
        assert forall|i: int| 0 <= i < s.len() implies #[trigger] s[i].start <= s[i].end by {
            assert(s[i].in_domain());
        }
        lemma_merging_add_covers_at(s, arc, a);
    }
}

/// Inserting a pair of in-domain angles whose minor arc crosses the
/// seam credits exactly the two complementary intervals anchored there:
/// `[0, start]` and `[end, TAU_UNITS]`.
pub proof fn lemma_wrapping_add_seam_split(s: Seq<Range>, arc: Range)
    requires
        ranges_wf(s),
        arc.in_domain(),
        2 * (arc.end - arc.start) > TAU_UNITS,
    ensures
        forall|a: int|
            seq_covers(spec_wrapping_add(s, arc), a) == (seq_covers(s, a) || (0 <= a <= arc.start)
                || (arc.end <= a <= TAU_UNITS)),
{
    let first = Range { start: 0, end: arc.start };
    let second = Range { start: arc.end, end: TAU_UNITS };
    lemma_add_wf(s, first);
    lemma_add_wf(spec_add(s, first), second);
    assert(spec_oriented(first) == first);
    assert(spec_oriented(second) == second);
    assert(spec_wrapping_add(s, arc) == spec_add(spec_add(s, first), second));
}

} // verus!
