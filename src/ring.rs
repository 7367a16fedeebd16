//! Closed polylines: construction checks, point containment, crossings with
//! an open path, and slicing between two points on the ring.
use vstd::prelude::*;

use crate::geom::{
    cross, cross_spec, dist2, PolyLineError, COORD_LIMIT, dist_squared, opposite, length_spec, no_adjacent_dupes, on_segment, polyline_valid, pt_on_segment,
    pts_wf, PolyLine, Pt2D,
};

verus! {

/// Points after the first are pairwise different.
pub open spec fn distinct_tail(s: Seq<Pt2D>) -> bool {
    forall|a: int, b: int| 1 <= a < b < s.len() ==> #[trigger] s[a] != #[trigger] s[b]
}

/// A closed point sequence: at least three points in range, the last equal
/// to the first, no two neighbours equal and no other point repeated.
pub open spec fn ring_valid(s: Seq<Pt2D>) -> bool {
    &&& s.len() >= 3
    &&& pts_wf(s)
    &&& s[0] == s.last()
    &&& no_adjacent_dupes(s)
    &&& distinct_tail(s)
}

/// Why a point sequence is not a ring.
#[derive(Clone, Copy, Debug, PartialEq, Eq, Structural)]
pub enum RingError {
    TooFewPoints,
    MismatchedEnds,
    DuplicateAdjacent,
    RepeatedPoint,
}

/// A closed polyline whose first and last points are equal.
#[derive(Clone, Debug)]
pub struct Ring {
    pts: Vec<Pt2D>,
}

/// Whether some point after the first of `pts` appears twice there.
fn has_repeat_in_tail(pts: &Vec<Pt2D>) -> (r: bool)
    ensures
        r == !distinct_tail(pts@),
{
    let mut a: usize = 1;
    while a < pts.len()
        invariant
            1 <= a,
            forall|x: int, y: int| 1 <= x < a && x < y < pts@.len() ==> #[trigger] pts@[x] != #[trigger] pts@[y],
        decreases pts.len() - a,
    {
        let mut b: usize = a + 1;
        while b < pts.len()
            invariant
                1 <= a < pts@.len(),
                a < b,
                forall|x: int, y: int| 1 <= x < a && x < y < pts@.len() ==> #[trigger] pts@[x] != #[trigger] pts@[y],
                forall|y: int| a < y < b ==> pts@[a as int] != #[trigger] pts@[y],
            decreases pts.len() - b,
        {
            if pts[a] == pts[b] {
                return true;
            }
            b += 1;
        }
        a += 1;
    }
    false
}

/// `p` lies on segment `k` of `v`, and on no earlier one.
pub open spec fn first_on(v: Seq<Pt2D>, p: Pt2D, k: int) -> bool {
    0 <= k < v.len() - 1 && on_segment(v[k], v[k + 1], p) && forall|j: int|
        0 <= j < k ==> !on_segment(#[trigger] v[j], v[j + 1], p)
}

/// `p` lies on some segment of `v`.
pub open spec fn on_path(v: Seq<Pt2D>, p: Pt2D) -> bool {
    exists|k: int| 0 <= k < v.len() - 1 && on_segment(#[trigger] v[k], v[k + 1], p)
}

/// The first segment of `v` that `p` lies on.
pub open spec fn seg_of(v: Seq<Pt2D>, p: Pt2D) -> int {
    choose|k: int| first_on(v, p, k)
}

proof fn lemma_first_on_unique(v: Seq<Pt2D>, p: Pt2D, k: int)
    requires
        first_on(v, p, k),
    ensures
        seg_of(v, p) == k,
{
    let j = seg_of(v, p);
    assert(first_on(v, p, j));
    if j < k {
        assert(!on_segment(v[j], v[j + 1], p));
    } else if k < j {
        assert(!on_segment(v[k], v[k + 1], p));
    }
}

/// Keeps points other than `a` and `b`.
pub open spec fn other_than(a: Pt2D, b: Pt2D) -> spec_fn(Pt2D) -> bool {
    |x: Pt2D| x != a && x != b
}

/// The ring's vertices strictly after position `(ka, pa)` up to position
/// `(kb, pb)` going forward, without `pa` and `pb`.
pub open spec fn forward_inner(v: Seq<Pt2D>, pa: Pt2D, ka: int, pb: Pt2D, kb: int) -> Seq<Pt2D> {
    v.subrange(ka + 1, kb + 1).filter(other_than(pa, pb))
}

/// The ring's vertices strictly after position `(kb, pb)` going forward
/// around the ring back to position `(ka, pa)`, without `pa` and `pb`.
pub open spec fn wrap_inner(v: Seq<Pt2D>, pa: Pt2D, ka: int, pb: Pt2D, kb: int) -> Seq<Pt2D> {
    (v.subrange(kb + 1, v.len() as int) + v.subrange(1, ka + 1)).filter(other_than(pa, pb))
}

/// `pt1` at segment `k1` comes no later along the ring than `pt2` at `k2`.
pub open spec fn earlier(v: Seq<Pt2D>, pt1: Pt2D, k1: int, pt2: Pt2D, k2: int) -> bool {
    k1 < k2 || (k1 == k2 && dist2(v[k1], pt1) <= dist2(v[k1], pt2))
}

/// The two ways around the ring between `pt1` and `pt2`, both from `pt1` to
/// `pt2`: first the one that runs forward from whichever point comes first
/// along the ring, then the one through the ring's start.
pub open spec fn both_slices(v: Seq<Pt2D>, pt1: Pt2D, pt2: Pt2D) -> (Seq<Pt2D>, Seq<Pt2D>) {
    let k1 = seg_of(v, pt1);
    let k2 = seg_of(v, pt2);
    if earlier(v, pt1, k1, pt2, k2) {
        (
            seq![pt1] + forward_inner(v, pt1, k1, pt2, k2) + seq![pt2],
            (seq![pt2] + wrap_inner(v, pt1, k1, pt2, k2) + seq![pt1]).reverse(),
        )
    } else {
        (
            (seq![pt2] + forward_inner(v, pt2, k2, pt1, k1) + seq![pt1]).reverse(),
            seq![pt1] + wrap_inner(v, pt2, k2, pt1, k1) + seq![pt2],
        )
    }
}

proof fn lemma_filter_no_dupes(s: Seq<Pt2D>, f: spec_fn(Pt2D) -> bool)
    requires
        s.no_duplicates(),
    ensures
        s.filter(f).no_duplicates(),
        forall|x: Pt2D| #[trigger] s.filter(f).contains(x) ==> s.contains(x) && f(x),
        forall|x: Pt2D| #[trigger] s.contains(x) && f(x) ==> s.filter(f).contains(x),
    decreases s.len(),
{
    if s.len() == 0 {
        reveal(Seq::filter);
    } else {
        let d = s.drop_last();
        let last = s[s.len() - 1];
        assert(d.push(last) == s);
        d.lemma_filter_push(last, f);
        assert(d.no_duplicates());
        lemma_filter_no_dupes(d, f);
        assert forall|x: Pt2D| s.contains(x) && f(x) implies s.filter(f).contains(x) by {
            let j = choose|j: int| 0 <= j < s.len() && s[j] == x;
            if j < s.len() - 1 {
                assert(d[j] == x);
                assert(d.contains(x));
            } else {
                assert(s.filter(f) == d.filter(f).push(last));
                assert(s.filter(f)[s.filter(f).len() - 1] == x);
            }
        }
        assert forall|x: Pt2D| s.filter(f).contains(x) implies s.contains(x) && f(x) by {
            if f(last) && x == last {
                assert(s[s.len() - 1] == last);
            } else {
                let k = choose|k: int| 0 <= k < s.filter(f).len() && s.filter(f)[k] == x;
                if f(last) {
                    assert(k < d.filter(f).len());
                    assert(d.filter(f)[k] == x);
                } else {
                    assert(d.filter(f)[k] == x);
                }
                assert(d.filter(f).contains(x));
                let j = choose|j: int| 0 <= j < d.len() && d[j] == x;
                assert(s[j] == x);
            }
        }
        if f(last) {
            assert(!d.contains(last)) by {
                if d.contains(last) {
                    let j = choose|j: int| 0 <= j < d.len() && d[j] == last;
                    assert(s[j] == s[s.len() - 1]);
                }
            }
            assert(!d.filter(f).contains(last));
            let e = d.filter(f).push(last);
            assert forall|a: int, b: int| 0 <= a < e.len() && 0 <= b < e.len() && a != b implies e[a] != e[b] by {
                if b == e.len() - 1 {
                    assert(d.filter(f).contains(e[a]) || a == b);
                } else if a == e.len() - 1 {
                    assert(d.filter(f).contains(e[b]));
                }
            }
        }
    }
}

/// A framed sequence `a, mid.., b` is a valid polyline when `a != b` and
/// `mid` has no repeats and holds neither end.
proof fn lemma_framed_valid(a: Pt2D, mid: Seq<Pt2D>, b: Pt2D)
    requires
        a != b,
        a.wf(),
        b.wf(),
        pts_wf(mid),
        mid.no_duplicates(),
        !mid.contains(a),
        !mid.contains(b),
    ensures
        polyline_valid(seq![a] + mid + seq![b]),
        polyline_valid((seq![a] + mid + seq![b]).reverse()),
{
    let s = seq![a] + mid + seq![b];
    assert forall|k: int| 0 <= k < s.len() - 1 implies #[trigger] s[k] != s[k + 1] by {
        if k == 0 {
            if mid.len() > 0 {
                assert(s[1] == mid[0]);
                assert(mid.contains(mid[0]));
            }
        } else if k == s.len() - 2 {
            assert(s[k] == mid[k - 1]);
            assert(mid.contains(mid[k - 1]));
        } else {
            assert(s[k] == mid[k - 1]);
            assert(s[k + 1] == mid[k]);
        }
    }
    assert forall|k: int| 0 <= k < s.len() implies (#[trigger] s[k]).wf() by {
        if 0 < k < s.len() - 1 {
            assert(s[k] == mid[k - 1]);
        }
    }
    let r = s.reverse();
    assert forall|k: int| 0 <= k < r.len() - 1 implies #[trigger] r[k] != r[k + 1] by {
        assert(r[k] == s[s.len() - 1 - k]);
        assert(r[k + 1] == s[s.len() - 2 - k]);
        assert(s[s.len() - 2 - k] != s[s.len() - 2 - k + 1]);
    }
    assert forall|k: int| 0 <= k < r.len() implies (#[trigger] r[k]).wf() by {
        assert(r[k] == s[s.len() - 1 - k]);
    }
}

/// The points `v[lo..hi]`.
fn copy_range(v: &Vec<Pt2D>, lo: usize, hi: usize) -> (r: Vec<Pt2D>)
    requires
        lo <= hi <= v@.len(),
    ensures
        r@ == v@.subrange(lo as int, hi as int),
{
    let mut r: Vec<Pt2D> = Vec::new();
    let mut k: usize = lo;
    while k < hi
        invariant
            lo <= k <= hi,
            hi <= v@.len(),
            r@ == v@.subrange(lo as int, k as int),
        decreases hi - k,
    {
        r.push(v[k]);
        assert(r@ =~= v@.subrange(lo as int, k + 1));
        k += 1;
    }
    r
}

/// The points of `v` other than `a` and `b`, in order.
fn keep_other_than(v: &Vec<Pt2D>, a: Pt2D, b: Pt2D) -> (r: Vec<Pt2D>)
    ensures
        r@ == v@.filter(other_than(a, b)),
{
    let mut r: Vec<Pt2D> = Vec::new();
    let mut k: usize = 0;
    while k < v.len()
        invariant
            k <= v@.len(),
            r@ == v@.subrange(0, k as int).filter(other_than(a, b)),
        decreases v.len() - k,
    {
        let x = v[k];
        proof {
            assert(v@.subrange(0, k + 1) == v@.subrange(0, k as int).push(x));
            v@.subrange(0, k as int).lemma_filter_push(x, other_than(a, b));
        }
        if x != a && x != b {
            r.push(x);
        }
        k += 1;
    }
    assert(v@.subrange(0, v@.len() as int) == v@);
    r
}

/// `a, mid.., b`.
fn framed(a: Pt2D, mid: Vec<Pt2D>, b: Pt2D) -> (r: Vec<Pt2D>)
    ensures
        r@ == seq![a] + mid@ + seq![b],
{
    let mut r: Vec<Pt2D> = vec![a];
    let mut k: usize = 0;
    while k < mid.len()
        invariant
            k <= mid@.len(),
            r@ == seq![a] + mid@.subrange(0, k as int),
        decreases mid.len() - k,
    {
        r.push(mid[k]);
        assert(r@ =~= seq![a] + mid@.subrange(0, k + 1));
        k += 1;
    }
    r.push(b);
    assert(r@ =~= seq![a] + mid@ + seq![b]);
    r
}

/// A run of ring indices inside `1..len` gives points without repeats.
proof fn lemma_runs_distinct(v: Seq<Pt2D>, ka: int, kb: int)
    requires
        ring_valid(v),
        0 <= ka <= kb < v.len() - 1,
    ensures
        v.subrange(ka + 1, kb + 1).no_duplicates(),
        (v.subrange(kb + 1, v.len() as int) + v.subrange(1, ka + 1)).no_duplicates(),
        pts_wf(v.subrange(ka + 1, kb + 1)),
        pts_wf(v.subrange(kb + 1, v.len() as int) + v.subrange(1, ka + 1)),
{
    let f = v.subrange(ka + 1, kb + 1);
    assert forall|a: int, b: int| 0 <= a < f.len() && 0 <= b < f.len() && a != b implies f[a] != f[b] by {
        assert(f[a] == v[ka + 1 + a] && f[b] == v[ka + 1 + b]);
    }
    let t1 = v.subrange(kb + 1, v.len() as int);
    let t2 = v.subrange(1, ka + 1);
    let w = t1 + t2;
    assert forall|a: int| 0 <= a < w.len() implies #[trigger] w[a] == v[if a < t1.len() { kb + 1 + a } else { a - t1.len() + 1 }] by {}
    assert forall|a: int, b: int| 0 <= a < w.len() && 0 <= b < w.len() && a != b implies w[a] != w[b] by {
        let ia = if a < t1.len() { kb + 1 + a } else { a - t1.len() + 1 };
        let ib = if b < t1.len() { kb + 1 + b } else { b - t1.len() + 1 };
        assert(w[a] == v[ia] && w[b] == v[ib]);
        assert(ia != ib);
        if ia < ib {
            assert(v[ia] != v[ib]);
        } else {
            assert(v[ib] != v[ia]);
        }
    }
    assert forall|a: int| 0 <= a < f.len() implies (#[trigger] f[a]).wf() by {
        assert(f[a] == v[ka + 1 + a]);
    }
    assert forall|a: int| 0 <= a < w.len() implies (#[trigger] w[a]).wf() by {}
}

proof fn lemma_filtered_wf(s: Seq<Pt2D>, a: Pt2D, b: Pt2D)
    requires
        pts_wf(s),
        s.no_duplicates(),
    ensures
        pts_wf(s.filter(other_than(a, b))),
        s.filter(other_than(a, b)).no_duplicates(),
        !s.filter(other_than(a, b)).contains(a),
        !s.filter(other_than(a, b)).contains(b),
{
    lemma_filter_no_dupes(s, other_than(a, b));
    let r = s.filter(other_than(a, b));
    assert forall|k: int| 0 <= k < r.len() implies (#[trigger] r[k]).wf() by {
        assert(r.contains(r[k]));
        let j = choose|j: int| 0 <= j < s.len() && s[j] == r[k];
        assert(s[j].wf());
    }
}

impl Ring {
    pub closed spec fn view_pts(&self) -> Seq<Pt2D> {
        self.pts@
    }

    pub open spec fn wf(&self) -> bool {
        ring_valid(self.view_pts())
    }

    /// A ring through `pts`. Refused, in this order of checks, when it has
    /// fewer than three points, when its ends differ, when two neighbours
    /// are equal, or when a point other than the ends repeats.
    pub fn new(pts: Vec<Pt2D>) -> (r: Result<Ring, RingError>)
        requires
            pts_wf(pts@),
        ensures
            match r {
                Ok(ring) => ring.view_pts() == pts@ && ring.wf(),
                Err(e) => !ring_valid(pts@) && e == (if pts@.len() < 3 {
                    RingError::TooFewPoints
                } else if pts@[0] != pts@.last() {
                    RingError::MismatchedEnds
                } else if !no_adjacent_dupes(pts@) {
                    RingError::DuplicateAdjacent
                } else {
                    RingError::RepeatedPoint
                }),
            },
    {
        if pts.len() < 3 {
            return Err(RingError::TooFewPoints);
        }
        if pts[0] != pts[pts.len() - 1] {
            return Err(RingError::MismatchedEnds);
        }
        if crate::geom::has_adjacent_dupes(&pts) {
            return Err(RingError::DuplicateAdjacent);
        }
        if has_repeat_in_tail(&pts) {
            return Err(RingError::RepeatedPoint);
        }
        Ok(Ring { pts })
    }

    /// A ring through `pts`, which must already be valid.
    pub fn must_new(pts: Vec<Pt2D>) -> (r: Ring)
        requires
            ring_valid(pts@),
        ensures
            r.view_pts() == pts@,
    {
        Ring { pts }
    }

    pub fn points(&self) -> (r: &Vec<Pt2D>)
        ensures
            r@ == self.view_pts(),
    {
        &self.pts
    }

    pub fn into_points(self) -> (r: Vec<Pt2D>)
        ensures
            r@ == self.view_pts(),
    {
        self.pts
    }

    /// The first segment `pt` lies on, if any.
    fn find_seg(&self, pt: Pt2D) -> (r: Option<usize>)
        requires
            self.wf(),
            pt.wf(),
        ensures
            match r {
                Some(k) => first_on(self.view_pts(), pt, k as int),
                None => !on_path(self.view_pts(), pt),
            },
    {
        let mut k: usize = 0;
        while k < self.pts.len() && k + 1 < self.pts.len()
            invariant
                self.wf(),
                pt.wf(),
                k <= self.pts@.len(),
                forall|j: int| 0 <= j < k ==> !on_segment(#[trigger] self.pts@[j], self.pts@[j + 1], pt),
            decreases self.pts.len() - k,
        {
            assert(self.view_pts() == self.pts@);
            assert(self.pts@[k as int].wf() && self.pts@[k + 1].wf());
            if pt_on_segment(self.pts[k], self.pts[k + 1], pt) {
                return Some(k);
            }
            k += 1;
        }
        None
    }

    /// Whether `pt` lies on the ring.
    pub fn contains_pt(&self, pt: Pt2D) -> (r: bool)
        requires
            self.wf(),
            pt.wf(),
        ensures
            r == on_path(self.view_pts(), pt),
    {
        self.find_seg(pt).is_some()
    }

    /// The two ways around the ring between two points on it, both oriented
    /// from `pt1` to `pt2`. `None` when the points are equal or one is not on
    /// the ring.
    pub fn get_both_slices_between(&self, pt1: Pt2D, pt2: Pt2D) -> (r: Option<(PolyLine, PolyLine)>)
        requires
            self.wf(),
            pt1.wf(),
            pt2.wf(),
        ensures
            r is Some <==> (pt1 != pt2 && on_path(self.view_pts(), pt1) && on_path(self.view_pts(), pt2)),
            r matches Some((c1, c2)) ==> c1.wf() && c2.wf() && (c1.view_pts(), c2.view_pts())
                == both_slices(self.view_pts(), pt1, pt2),
    {
        if pt1 == pt2 {
            return None;
        }
        let k1 = match self.find_seg(pt1) {
            Some(k) => k,
            None => return None,
        };
        let k2 = match self.find_seg(pt2) {
            Some(k) => k,
            None => return None,
        };
        let ghost v = self.pts@;
        proof {
            lemma_first_on_unique(v, pt1, k1 as int);
            lemma_first_on_unique(v, pt2, k2 as int);
        }
        let first = k1 < k2 || (k1 == k2 && dist_squared(self.pts[k1], pt1) <= dist_squared(
            self.pts[k1],
            pt2,
        ));
        if first {
            let (fwd_line, wrap_line) = self.slices_from(pt1, k1, pt2, k2);
            let c2 = wrap_line.reversed();
            Some((fwd_line, c2))
        } else {
            let (fwd_line, wrap_line) = self.slices_from(pt2, k2, pt1, k1);
            let c1 = fwd_line.reversed();
            Some((c1, wrap_line))
        }
    }

    /// The way forward from `(ka, pa)` to `(kb, pb)`, and the way forward from
    /// `(kb, pb)` around through the ring's start back to `(ka, pa)`.
    fn slices_from(&self, pa: Pt2D, ka: usize, pb: Pt2D, kb: usize) -> (r: (PolyLine, PolyLine))
        requires
            self.wf(),
            pa.wf(),
            pb.wf(),
            pa != pb,
            ka <= kb < self.view_pts().len() - 1,
        ensures
            r.0.wf(),
            r.1.wf(),
            r.0.view_pts() == seq![pa] + forward_inner(self.view_pts(), pa, ka as int, pb, kb as int) + seq![pb],
            r.1.view_pts() == seq![pb] + wrap_inner(self.view_pts(), pa, ka as int, pb, kb as int) + seq![pa],
    {
        let ghost v = self.pts@;
        let n = self.pts.len();
        assert(self.view_pts() == v);
        proof {
            lemma_runs_distinct(v, ka as int, kb as int);
            lemma_filtered_wf(v.subrange(ka + 1, kb + 1), pa, pb);
            lemma_filtered_wf(v.subrange(kb + 1, v.len() as int) + v.subrange(1, ka + 1), pa, pb);
        }
        let fwd = keep_other_than(&copy_range(&self.pts, ka + 1, kb + 1), pa, pb);
        let mut around = copy_range(&self.pts, kb + 1, self.pts.len());
        let mut head = copy_range(&self.pts, 1, ka + 1);
        around.append(&mut head);
        let wrap = keep_other_than(&around, pa, pb);
        proof {
            lemma_framed_valid(pa, fwd@, pb);
            lemma_framed_valid(pb, wrap@, pa);
        }
        (PolyLine::must_new(framed(pa, fwd, pb)), PolyLine::must_new(framed(pb, wrap, pa)))
    }

    /// The way around the ring from `pt1` to `pt2` that is longer (`longer`)
    /// or not longer than the other; when both are as long, the second way
    /// when `longer`, else the first. `None` as for `get_both_slices_between`.
    pub fn get_slice_between(&self, pt1: Pt2D, pt2: Pt2D, longer: bool) -> (r: Option<PolyLine>)
        requires
            self.wf(),
            pt1.wf(),
            pt2.wf(),
        ensures
            r is Some <==> (pt1 != pt2 && on_path(self.view_pts(), pt1) && on_path(self.view_pts(), pt2)),
            r matches Some(pl) ==> pl.wf() && {
                let (c1, c2) = both_slices(self.view_pts(), pt1, pt2);
                pl.view_pts() == if longer == (length_spec(c1) > length_spec(c2)) { c1 } else { c2 }
            },
    {
        match self.get_both_slices_between(pt1, pt2) {
            Some((c1, c2)) => {
                if longer == (c1.length() > c2.length()) {
                    Some(c1)
                } else {
                    Some(c2)
                }
            },
            None => None,
        }
    }

    /// The shorter way around the ring from `pt1` to `pt2`; the first of
    /// `get_both_slices_between` when both are as long.
    pub fn get_shorter_slice_between(&self, pt1: Pt2D, pt2: Pt2D) -> (r: Option<PolyLine>)
        requires
            self.wf(),
            pt1.wf(),
            pt2.wf(),
        ensures
            r is Some <==> (pt1 != pt2 && on_path(self.view_pts(), pt1) && on_path(self.view_pts(), pt2)),
            r matches Some(pl) ==> pl.wf() && {
                let (c1, c2) = both_slices(self.view_pts(), pt1, pt2);
                &&& pl.view_pts() == if length_spec(c1) <= length_spec(c2) { c1 } else { c2 }
                &&& length_spec(pl.view_pts()) <= length_spec(c1)
                &&& length_spec(pl.view_pts()) <= length_spec(c2)
            },
    {
        self.get_slice_between(pt1, pt2, false)
    }
}

proof fn lemma_inner_membership(v: Seq<Pt2D>, pa: Pt2D, ka: int, pb: Pt2D, kb: int, j: int)
    requires
        ring_valid(v),
        0 <= ka <= kb < v.len() - 1,
        1 <= j < v.len(),
        v[j] != pa,
        v[j] != pb,
    ensures
        forward_inner(v, pa, ka, pb, kb).contains(v[j]) == (ka < j <= kb),
        wrap_inner(v, pa, ka, pb, kb).contains(v[j]) == !(ka < j <= kb),
{
    lemma_runs_distinct(v, ka, kb);
    let s1 = v.subrange(ka + 1, kb + 1);
    let t1 = v.subrange(kb + 1, v.len() as int);
    let t2 = v.subrange(1, ka + 1);
    let s2 = t1 + t2;
    let f = other_than(pa, pb);
    lemma_filter_no_dupes(s1, f);
    lemma_filter_no_dupes(s2, f);
    if ka < j <= kb {
        assert(s1[j - ka - 1] == v[j]);
        assert(s1.contains(v[j]));
        if s2.contains(v[j]) {
            let t = choose|t: int| 0 <= t < s2.len() && s2[t] == v[j];
            let i = if t < t1.len() { kb + 1 + t } else { t - t1.len() + 1 };
            assert(s2[t] == v[i]);
            if i < j {
                assert(v[i] != v[j]);
            } else {
                assert(v[j] != v[i]);
            }
        }
    } else {
        if j > kb {
            assert(s2[j - kb - 1] == v[j]);
        } else {
            assert(s2[t1.len() + j - 1] == v[j]);
        }
        assert(s2.contains(v[j]));
        if s1.contains(v[j]) {
            let t = choose|t: int| 0 <= t < s1.len() && s1[t] == v[j];
            let i = ka + 1 + t;
            assert(s1[t] == v[i]);
            if i < j {
                assert(v[i] != v[j]);
            } else {
                assert(v[j] != v[i]);
            }
        }
    }
}

proof fn lemma_reverse_contains(s: Seq<Pt2D>, x: Pt2D)
    ensures
        s.reverse().contains(x) == s.contains(x),
{
    if s.contains(x) {
        let k = choose|k: int| 0 <= k < s.len() && s[k] == x;
        assert(s.reverse()[s.len() - 1 - k] == x);
    }
    if s.reverse().contains(x) {
        let k = choose|k: int| 0 <= k < s.reverse().len() && s.reverse()[k] == x;
        assert(s[s.len() - 1 - k] == x);
    }
}

proof fn lemma_framed_contains(a: Pt2D, mid: Seq<Pt2D>, b: Pt2D, x: Pt2D)
    requires
        x != a,
        x != b,
    ensures
        (seq![a] + mid + seq![b]).contains(x) == mid.contains(x),
{
    let s = seq![a] + mid + seq![b];
    if mid.contains(x) {
        let k = choose|k: int| 0 <= k < mid.len() && mid[k] == x;
        assert(s[k + 1] == x);
    }
    if s.contains(x) {
        let k = choose|k: int| 0 <= k < s.len() && s[k] == x;
        assert(mid[k - 1] == x);
    }
}

/// Slicing a ring between two different points on it splits the ring: both
/// slices run from `pt1` to `pt2`, and every ring point other than `pt1` and
/// `pt2` lies on exactly one of them, once.
pub proof fn lemma_slices_partition(v: Seq<Pt2D>, pt1: Pt2D, pt2: Pt2D)
    requires
        ring_valid(v),
        pt1.wf(),
        pt2.wf(),
        pt1 != pt2,
        on_path(v, pt1),
        on_path(v, pt2),
    ensures
        ({
            let (c1, c2) = both_slices(v, pt1, pt2);
            &&& c1[0] == pt1 && c1.last() == pt2
            &&& c2[0] == pt1 && c2.last() == pt2
            &&& c1.no_duplicates() && c2.no_duplicates()
            &&& forall|j: int|
                1 <= j < v.len() && #[trigger] v[j] != pt1 && v[j] != pt2 ==> c1.contains(v[j])
                    != c2.contains(v[j])
        }),
{
    let k1 = choose|k: int| 0 <= k < v.len() - 1 && on_segment(#[trigger] v[k], v[k + 1], pt1);
    let k2 = choose|k: int| 0 <= k < v.len() - 1 && on_segment(#[trigger] v[k], v[k + 1], pt2);
    lemma_has_first(v, pt1, k1);
    lemma_has_first(v, pt2, k2);
    let s1 = seg_of(v, pt1);
    let s2 = seg_of(v, pt2);
    let first = earlier(v, pt1, s1, pt2, s2);
    let (pa, ka, pb, kb) = if first { (pt1, s1, pt2, s2) } else { (pt2, s2, pt1, s1) };
    assert(ka <= kb);
    let fi = forward_inner(v, pa, ka, pb, kb);
    let wi = wrap_inner(v, pa, ka, pb, kb);
    lemma_runs_distinct(v, ka, kb);
    lemma_filtered_wf(v.subrange(ka + 1, kb + 1), pa, pb);
    lemma_filtered_wf(v.subrange(kb + 1, v.len() as int) + v.subrange(1, ka + 1), pa, pb);
    let f1 = seq![pa] + fi + seq![pb];
    let f2 = seq![pb] + wi + seq![pa];
    lemma_framed_no_dupes(pa, fi, pb);
    lemma_framed_no_dupes(pb, wi, pa);
    let (c1, c2) = both_slices(v, pt1, pt2);
    if first {
        assert(c1 == f1 && c2 == f2.reverse());
    } else {
        assert(c1 == f1.reverse() && c2 == f2);
    }
    lemma_reverse_no_dupes(f1);
    lemma_reverse_no_dupes(f2);
    assert forall|j: int| 1 <= j < v.len() && #[trigger] v[j] != pt1 && v[j] != pt2 implies c1.contains(v[j])
        != c2.contains(v[j]) by {
        lemma_inner_membership(v, pa, ka, pb, kb, j);
        lemma_framed_contains(pa, fi, pb, v[j]);
        lemma_framed_contains(pb, wi, pa, v[j]);
        lemma_reverse_contains(f1, v[j]);
        lemma_reverse_contains(f2, v[j]);
    }
}

proof fn lemma_has_first(v: Seq<Pt2D>, p: Pt2D, k: int)
    requires
        0 <= k < v.len() - 1,
        on_segment(v[k], v[k + 1], p),
    ensures
        first_on(v, p, seg_of(v, p)),
    decreases k,
{
    if forall|j: int| 0 <= j < k ==> !on_segment(#[trigger] v[j], v[j + 1], p) {
        assert(first_on(v, p, k));
    } else {
        let j = choose|j: int| 0 <= j < k && on_segment(#[trigger] v[j], v[j + 1], p);
        lemma_has_first(v, p, j);
    }
}

proof fn lemma_framed_no_dupes(a: Pt2D, mid: Seq<Pt2D>, b: Pt2D)
    requires
        a != b,
        mid.no_duplicates(),
        !mid.contains(a),
        !mid.contains(b),
    ensures
        (seq![a] + mid + seq![b]).no_duplicates(),
{
    let s = seq![a] + mid + seq![b];
    assert forall|x: int, y: int| 0 <= x < s.len() && 0 <= y < s.len() && x != y implies s[x] != s[y] by {
        if x == 0 && 0 < y < s.len() - 1 {
            assert(mid.contains(mid[y - 1]));
        } else if y == 0 && 0 < x < s.len() - 1 {
            assert(mid.contains(mid[x - 1]));
        } else if x == s.len() - 1 && 0 < y < s.len() - 1 {
            assert(mid.contains(mid[y - 1]));
        } else if y == s.len() - 1 && 0 < x < s.len() - 1 {
            assert(mid.contains(mid[x - 1]));
        } else if 0 < x < s.len() - 1 && 0 < y < s.len() - 1 {
            assert(s[x] == mid[x - 1] && s[y] == mid[y - 1]);
        }
    }
}

proof fn lemma_reverse_no_dupes(s: Seq<Pt2D>)
    requires
        s.no_duplicates(),
    ensures
        s.reverse().no_duplicates(),
{
    let r = s.reverse();
    assert forall|x: int, y: int| 0 <= x < r.len() && 0 <= y < r.len() && x != y implies r[x] != r[y] by {
        assert(r[x] == s[s.len() - 1 - x] && r[y] == s[s.len() - 1 - y]);
    }
}

/// The segments `a-b` and `c-d` cross at a single point inside both.
pub open spec fn crosses(a: Pt2D, b: Pt2D, c: Pt2D, d: Pt2D) -> bool {
    opposite(cross_spec(a, b, c), cross_spec(a, b, d)) && opposite(cross_spec(c, d, a), cross_spec(c, d, b))
}

/// `v * n / d`, rounded toward zero.
pub open spec fn part(v: int, n: int, d: int) -> int {
    if v >= 0 { v * n / d } else { -((-v) * n / d) }
}

/// Where segment `a-b` crosses the line through `c` and `d`: the point a
/// fraction `n / d` of the way from `a` to `b`, each coordinate rounded
/// toward `a`.
pub open spec fn crossing_point(a: Pt2D, b: Pt2D, c: Pt2D, d: Pt2D) -> Pt2D {
    let n0 = cross_spec(c, d, a);
    let d0 = n0 - cross_spec(c, d, b);
    let (n, den) = if d0 < 0 { (-n0, -d0) } else { (n0, d0) };
    Pt2D { x: (a.x + part(b.x - a.x, n, den)) as i64, y: (a.y + part(b.y - a.y, n, den)) as i64 }
}

proof fn lemma_part_bound(v: int, n: int, d: int)
    requires
        0 < n < d,
    ensures
        v >= 0 ==> 0 <= part(v, n, d) <= v,
        v < 0 ==> v <= part(v, n, d) <= 0,
{
    let a = if v >= 0 { v } else { -v };
    assert(0 <= a * n <= a * d) by (nonlinear_arith)
        requires
            a >= 0,
            0 < n < d,
    ;
    assert(a * n / d <= a) by (nonlinear_arith)
        requires
            0 <= a * n <= a * d,
            d > 0,
    ;
    assert(0 <= a * n / d) by (nonlinear_arith)
        requires
            0 <= a * n,
            d > 0,
    ;
}

/// `v * n / d` rounded toward zero, for `0 < n < d`.
fn part_of(v: i64, n: i128, d: i128) -> (r: i64)
    requires
        0 < n < d <= 0x40000000000000000,
        -0x80000000 <= v <= 0x80000000,
    ensures
        r == part(v as int, n as int, d as int),
{
    proof {
        lemma_part_bound(v as int, n as int, d as int);
    }
    let a: i128 = if v >= 0 { v as i128 } else { -(v as i128) };
    assert(0 <= a * n <= 0x80000000 * 0x40000000000000000) by (nonlinear_arith)
        requires
            0 <= a <= 0x80000000,
            0 < n <= 0x40000000000000000,
    ;
    let q = (a * n) / d;
    if v >= 0 {
        q as i64
    } else {
        -(q as i64)
    }
}

/// Where segment `a-b` crosses segment `c-d`, if they cross.
fn segment_crossing(a: Pt2D, b: Pt2D, c: Pt2D, d: Pt2D) -> (r: Option<Pt2D>)
    requires
        a.wf(),
        b.wf(),
        c.wf(),
        d.wf(),
    ensures
        r is Some <==> crosses(a, b, c, d),
        r matches Some(p) ==> p == crossing_point(a, b, c, d) && p.wf(),
{
    let o1 = cross(a, b, c);
    let o2 = cross(a, b, d);
    let o3 = cross(c, d, a);
    let o4 = cross(c, d, b);
    let straddle1 = (o1 > 0 && o2 < 0) || (o1 < 0 && o2 > 0);
    let straddle2 = (o3 > 0 && o4 < 0) || (o3 < 0 && o4 > 0);
    if !(straddle1 && straddle2) {
        return None;
    }
    proof {
        crate::geom::lemma_cross_bounds(c, d, a);
        crate::geom::lemma_cross_bounds(c, d, b);
    }
    let d0 = o3 - o4;
    let (n, den) = if d0 < 0 { (-o3, -d0) } else { (o3, d0) };
    proof {
        lemma_part_bound((b.x - a.x) as int, n as int, den as int);
        lemma_part_bound((b.y - a.y) as int, n as int, den as int);
    }
    let px = part_of(b.x - a.x, n, den);
    let py = part_of(b.y - a.y, n, den);
    Some(Pt2D { x: a.x + px, y: a.y + py })
}

/// Some segment `j` of `other` crosses some segment `k` of `ring`, at `p`.
pub open spec fn hit_at(ring: Seq<Pt2D>, other: Seq<Pt2D>, p: Pt2D, j: int, k: int) -> bool {
    0 <= j < other.len() - 1 && 0 <= k < ring.len() - 1 && crosses(other[j], other[j + 1], ring[k], ring[k + 1])
        && crossing_point(other[j], other[j + 1], ring[k], ring[k + 1]) == p
}

impl Ring {
    /// Every point where a segment of `other` crosses a segment of the ring,
    /// once each. Hits on earlier segments of `other` come first.
    pub fn all_intersections(&self, other: &PolyLine) -> (r: Vec<Pt2D>)
        requires
            self.wf(),
            other.wf(),
        ensures
            r@.no_duplicates(),
            forall|p: Pt2D| #[trigger] r@.contains(p) <==> exists|j: int, k: int| hit_at(self.view_pts(), other.view_pts(), p, j, k),
    {
        let ring = &self.pts;
        let o = other.points();
        let ghost rv = ring@;
        let ghost ov = o@;
        let mut hits: Vec<Pt2D> = Vec::new();
        let mut j: usize = 0;
        while j < o.len() && j + 1 < o.len()
            invariant
                ring_valid(rv),
                pts_wf(ov),
                rv == ring@,
                ov == o@,
                rv == self.view_pts(),
                ov == other.view_pts(),
                j <= ov.len(),
                hits@.no_duplicates(),
                forall|p: Pt2D| #[trigger] hits@.contains(p) <==> exists|jj: int, k: int| jj < j && hit_at(rv, ov, p, jj, k),
            decreases o.len() - j,
        {
            let oa = o[j];
            let ob = o[j + 1];
            let mut k: usize = 0;
            while k < ring.len() && k + 1 < ring.len()
                invariant
                    oa == ov[j as int],
                    ob == ov[j + 1],
                    ring_valid(rv),
                    pts_wf(ov),
                    rv == ring@,
                    ov == o@,
                    j + 1 < ov.len(),
                    k <= rv.len(),
                    hits@.no_duplicates(),
                    forall|p: Pt2D| #[trigger] hits@.contains(p) <==> exists|jj: int, kk: int|
                        (jj < j || (jj == j && kk < k)) && hit_at(rv, ov, p, jj, kk),
                decreases ring.len() - k,
            {
                let hit = segment_crossing(oa, ob, ring[k], ring[k + 1]);
                let ghost before = hits@;
                if let Some(p) = hit {
                    if !contains_pt_in(&hits, p) {
                        hits.push(p);
                        proof {
                            assert forall|a: int, b: int| 0 <= a < hits@.len() && 0 <= b < hits@.len() && a != b implies hits@[a] != hits@[b] by {
                                if a == hits@.len() - 1 {
                                    assert(before.contains(hits@[b]) || b == a);
                                } else if b == hits@.len() - 1 {
                                    assert(before.contains(hits@[a]));
                                }
                            }
                        }
                    }
                }
                proof {
                    assert forall|p: Pt2D| #[trigger] hits@.contains(p) <==> exists|jj: int, kk: int|
                        (jj < j || (jj == j && kk < k + 1)) && hit_at(rv, ov, p, jj, kk) by {
                        if hits@.contains(p) && !before.contains(p) {
                            assert(hit_at(rv, ov, p, j as int, k as int));
                        }
                        if before.contains(p) {
                            let idx = choose|idx: int| 0 <= idx < before.len() && before[idx] == p;
                            assert(hits@[idx] == p);
                        }
                        if hit_at(rv, ov, p, j as int, k as int) {
                            if !before.contains(p) {
                                assert(hits@[hits@.len() - 1] == p);
                            }
                        }
                    }
                }
                k += 1;
            }
            j += 1;
        }
        hits
    }
}

/// Whether `v` holds `p`.
fn contains_pt_in(v: &Vec<Pt2D>, p: Pt2D) -> (r: bool)
    ensures
        r == v@.contains(p),
{
    let mut k: usize = 0;
    while k < v.len()
        invariant
            forall|j: int| 0 <= j < k ==> v@[j] != p,
        decreases v.len() - k,
    {
        if v[k] == p {
            return true;
        }
        k += 1;
    }
    false
}

/// `p` is where a point sequence must be cut: its first or last point, or a
/// point it passes through twice.
pub open spec fn split_value(s: Seq<Pt2D>, p: Pt2D) -> bool {
    (s.len() > 0 && (p == s[0] || p == s.last())) || exists|a: int, b: int|
        0 <= a < b < s.len() && #[trigger] s[a] == p && #[trigger] s[b] == p
}

/// Positions `a < b` are cut points of `s` with none between them.
pub open spec fn next_cut(s: Seq<Pt2D>, a: int, b: int) -> bool {
    &&& 0 <= a < b < s.len()
    &&& split_value(s, s[a])
    &&& split_value(s, s[b])
    &&& forall|c: int| a < c < b ==> !split_value(s, #[trigger] s[c])
}

/// A run between cuts closes on itself: it becomes a ring, not a polyline.
pub open spec fn ring_shaped(run: Seq<Pt2D>) -> bool {
    run[0] == run.last() && run.len() >= 3
}

/// A run between cuts is what its shape asks: a valid ring or polyline.
pub open spec fn run_ok(run: Seq<Pt2D>) -> bool {
    if ring_shaped(run) { ring_valid(run) } else { polyline_valid(run) }
}

/// Why a point sequence could not be split.
#[derive(Clone, Copy, Debug, PartialEq, Eq, Structural)]
pub enum SplitError {
    Ring(RingError),
    PolyLine(PolyLineError),
}

/// Whether `pts[j]` is a cut point.
fn is_split(pts: &Vec<Pt2D>, j: usize) -> (r: bool)
    requires
        j < pts@.len(),
    ensures
        r == split_value(pts@, pts@[j as int]),
{
    let p = pts[j];
    if p == pts[0] || p == pts[pts.len() - 1] {
        return true;
    }
    let mut a: usize = 0;
    while a < pts.len()
        invariant
            j < pts@.len(),
            p == pts@[j as int],
            forall|x: int| 0 <= x < a && x != j ==> pts@[x] != p,
        decreases pts.len() - a,
    {
        if a != j && pts[a] == p {
            proof {
                if a < j {
                    assert(pts@[a as int] == p && pts@[j as int] == p);
                } else {
                    assert(pts@[j as int] == p && pts@[a as int] == p);
                }
            }
            return true;
        }
        a += 1;
    }
    proof {
        if exists|x: int, y: int| 0 <= x < y < pts@.len() && #[trigger] pts@[x] == p && #[trigger] pts@[y] == p {
            let (x, y) = choose|x: int, y: int| 0 <= x < y < pts@.len() && #[trigger] pts@[x] == p && #[trigger] pts@[y] == p;
            assert(x == j || y == j);
        }
    }
    false
}

/// `v` is the run between two neighbouring cuts of `s`, ending no later
/// than `bound`, and is ring-shaped exactly when `ring`.
pub open spec fn cut_run(s: Seq<Pt2D>, v: Seq<Pt2D>, ring: bool, bound: int) -> bool {
    exists|a: int, b: int|
        #[trigger] next_cut(s, a, b) && b <= bound && ring_shaped(s.subrange(a, b + 1)) == ring && v
            == s.subrange(a, b + 1)
}

pub open spec fn pl_views(v: Seq<PolyLine>) -> Seq<Seq<Pt2D>> {
    v.map_values(|p: PolyLine| p.view_pts())
}

pub open spec fn ring_views(v: Seq<Ring>) -> Seq<Seq<Pt2D>> {
    v.map_values(|r: Ring| r.view_pts())
}

/// Every run of `s` ending no later than `bound` is among `pv` or `rv`, by
/// its shape.
pub open spec fn runs_kept(s: Seq<Pt2D>, pv: Seq<Seq<Pt2D>>, rv: Seq<Seq<Pt2D>>, bound: int) -> bool {
    forall|a: int, b: int|
        #[trigger] next_cut(s, a, b) && b <= bound ==> if ring_shaped(s.subrange(a, b + 1)) {
            rv.contains(s.subrange(a, b + 1))
        } else {
            pv.contains(s.subrange(a, b + 1))
        }
}

impl Ring {
    /// Cuts a point sequence at its ends and at every point it passes
    /// through twice, and sorts the runs between cuts: a run that closes on
    /// itself with at least three points must be a ring, any other run a
    /// polyline. Fails on the first run that is not.
    pub fn split_points(pts: &Vec<Pt2D>) -> (r: Result<(Vec<PolyLine>, Vec<Ring>), SplitError>)
        requires
            pts_wf(pts@),
        ensures
            r is Ok <==> forall|a: int, b: int| next_cut(pts@, a, b) ==> run_ok(#[trigger] pts@.subrange(a, b + 1)),
            r matches Ok((pls, rings)) ==> {
                &&& forall|m: int| 0 <= m < pls@.len() ==> cut_run(pts@, (#[trigger] pls@[m]).view_pts(), false, pts@.len() as int)
                &&& forall|m: int| 0 <= m < rings@.len() ==> cut_run(pts@, (#[trigger] rings@[m]).view_pts(), true, pts@.len() as int)
                &&& runs_kept(pts@, pl_views(pls@), ring_views(rings@), pts@.len() as int)
            },
    {
        let mut pls: Vec<PolyLine> = Vec::new();
        let mut rings: Vec<Ring> = Vec::new();
        if pts.len() == 0 {
            return Ok((pls, rings));
        }
        let ghost s = pts@;
        assert(split_value(s, s[0]));
        let mut start: usize = 0;
        let mut j: usize = 1;
        while j < pts.len()
            invariant
                s == pts@,
                pts_wf(s),
                start < j <= s.len(),
                split_value(s, s[start as int]),
                forall|c: int| start < c < j ==> !split_value(s, #[trigger] s[c]),
                forall|a: int, b: int| next_cut(s, a, b) && b <= start ==> run_ok(#[trigger] s.subrange(a, b + 1)),
                forall|m: int| 0 <= m < pls@.len() ==> cut_run(s, (#[trigger] pls@[m]).view_pts(), false, start as int),
                forall|m: int| 0 <= m < rings@.len() ==> cut_run(s, (#[trigger] rings@[m]).view_pts(), true, start as int),
                runs_kept(s, pl_views(pls@), ring_views(rings@), start as int),
            decreases pts.len() - j,
        {
            if is_split(pts, j) {
                let run = copy_range(pts, start, j + 1);
                let ghost rs = run@;
                assert(next_cut(s, start as int, j as int));
                proof {
                    assert forall|k: int| 0 <= k < rs.len() implies (#[trigger] rs[k]).wf() by {
                        assert(rs[k] == s[start + k]);
                    }
                }
                let closed = run[0] == run[run.len() - 1] && run.len() >= 3;
                let ghost pls0 = pls@;
                let ghost rings0 = rings@;
                if closed {
                    match Ring::new(run) {
                        Ok(ring) => {
                            rings.push(ring);
                        },
                        Err(e) => {
                            return Err(SplitError::Ring(e));
                        },
                    }
                } else {
                    match PolyLine::new(run) {
                        Ok(pl) => {
                            pls.push(pl);
                        },
                        Err(e) => {
                            return Err(SplitError::PolyLine(e));
                        },
                    }
                }
                proof {
                    lemma_next_cut_unique(s, start as int, j as int);
                    assert(cut_run(s, rs, closed, j as int));
                    assert forall|m: int| 0 <= m < pls@.len() implies cut_run(s, (#[trigger] pls@[m]).view_pts(), false, j as int) by {
                        if m < pls0.len() {
                            assert(pls@[m] == pls0[m]);
                            lemma_cut_run_weaken(s, pls0[m].view_pts(), false, start as int, j as int);
                        }
                    }
                    assert forall|m: int| 0 <= m < rings@.len() implies cut_run(s, (#[trigger] rings@[m]).view_pts(), true, j as int) by {
                        if m < rings0.len() {
                            assert(rings@[m] == rings0[m]);
                            lemma_cut_run_weaken(s, rings0[m].view_pts(), true, start as int, j as int);
                        }
                    }
                    let pv0 = pl_views(pls0);
                    let rv0 = ring_views(rings0);
                    let pv = pl_views(pls@);
                    let rv = ring_views(rings@);
                    assert forall|x: Seq<Pt2D>| pv0.contains(x) implies pv.contains(x) by {
                        let m = choose|m: int| 0 <= m < pv0.len() && pv0[m] == x;
                        assert(pv[m] == x);
                    }
                    assert forall|x: Seq<Pt2D>| rv0.contains(x) implies rv.contains(x) by {
                        let m = choose|m: int| 0 <= m < rv0.len() && rv0[m] == x;
                        assert(rv[m] == x);
                    }
                    if closed {
                        assert(rv[rv.len() - 1] == rs);
                    } else {
                        assert(pv[pv.len() - 1] == rs);
                    }
                    assert forall|a: int, b: int| #[trigger] next_cut(s, a, b) && b <= j implies if ring_shaped(s.subrange(a, b + 1)) {
                        rv.contains(s.subrange(a, b + 1))
                    } else {
                        pv.contains(s.subrange(a, b + 1))
                    } by {
                        if b > start {
                            assert(a == start && b == j);
                        }
                    }
                    assert forall|a: int, b: int| next_cut(s, a, b) && b <= j implies run_ok(#[trigger] s.subrange(a, b + 1)) by {
                        if b > start {
                            assert(a == start && b == j);
                        }
                    }
                }
                start = j;
            }
            j += 1;
        }
        proof {
            assert(split_value(s, s[s.len() - 1]));
            assert forall|a: int, b: int| next_cut(s, a, b) implies b <= start by {
                if b > start {
                    assert(!split_value(s, s[b]));
                }
            }
            assert forall|m: int| 0 <= m < pls@.len() implies cut_run(s, (#[trigger] pls@[m]).view_pts(), false, s.len() as int) by {
                lemma_cut_run_weaken(s, pls@[m].view_pts(), false, start as int, s.len() as int);
            }
            assert forall|m: int| 0 <= m < rings@.len() implies cut_run(s, (#[trigger] rings@[m]).view_pts(), true, s.len() as int) by {
                lemma_cut_run_weaken(s, rings@[m].view_pts(), true, start as int, s.len() as int);
            }
        }
        Ok((pls, rings))
    }
}

proof fn lemma_cut_run_weaken(s: Seq<Pt2D>, v: Seq<Pt2D>, ring: bool, b1: int, b2: int)
    requires
        cut_run(s, v, ring, b1),
        b1 <= b2,
    ensures
        cut_run(s, v, ring, b2),
{
    let (a, b) = choose|a: int, b: int|
        #[trigger] next_cut(s, a, b) && b <= b1 && ring_shaped(s.subrange(a, b + 1)) == ring && v == s.subrange(a, b + 1);
    assert(next_cut(s, a, b));
}

/// Between one cut and the next there is exactly one run: a run ending
/// after `a` ends at `b`, and one starting before `b` starts at `a`.
proof fn lemma_next_cut_unique(s: Seq<Pt2D>, a: int, b: int)
    requires
        next_cut(s, a, b),
    ensures
        forall|x: int, y: int| #[trigger] next_cut(s, x, y) && a < y <= b ==> x == a && y == b,
{
    assert forall|x: int, y: int| #[trigger] next_cut(s, x, y) && a < y <= b implies x == a && y == b by {
        if y < b {
            assert(!split_value(s, s[y]));
        }
        if x < a {
            assert(!split_value(s, s[a]));
        } else if x > a {
            assert(!split_value(s, s[x]));
        }
    }
}

/// `p` moved by `(dx, dy)` stays in range.
pub open spec fn shift_ok(p: Pt2D, dx: i64, dy: i64) -> bool {
    -COORD_LIMIT <= p.x + dx <= COORD_LIMIT && -COORD_LIMIT <= p.y + dy <= COORD_LIMIT
}

/// `p` moved by `(dx, dy)`.
pub open spec fn shifted(p: Pt2D, dx: i64, dy: i64) -> Pt2D {
    Pt2D { x: (p.x + dx) as i64, y: (p.y + dy) as i64 }
}

impl Ring {
    /// The ring moved by `(dx, dy)`; every moved point must stay in range.
    pub fn translate(self, dx: i64, dy: i64) -> (r: Ring)
        requires
            self.wf(),
            forall|k: int| 0 <= k < self.view_pts().len() ==> shift_ok(#[trigger] self.view_pts()[k], dx, dy),
        ensures
            r.wf(),
            r.view_pts().len() == self.view_pts().len(),
            forall|k: int| 0 <= k < r.view_pts().len() ==> #[trigger] r.view_pts()[k] == shifted(self.view_pts()[k], dx, dy),
    {
        let ghost v = self.pts@;
        let mut out: Vec<Pt2D> = Vec::new();
        let mut k: usize = 0;
        while k < self.pts.len()
            invariant
                v == self.pts@,
                k <= v.len(),
                out@.len() == k,
                forall|j: int| 0 <= j < v.len() ==> shift_ok(#[trigger] v[j], dx, dy),
                forall|j: int| 0 <= j < k ==> #[trigger] out@[j] == shifted(v[j], dx, dy),
            decreases self.pts.len() - k,
        {
            let p = self.pts[k];
            assert(shift_ok(v[k as int], dx, dy));
            out.push(Pt2D { x: p.x + dx, y: p.y + dy });
            k += 1;
        }
        proof {
            let w = out@;
            assert forall|a: int| 0 <= a < w.len() - 1 implies #[trigger] w[a] != w[a + 1] by {
                assert(v[a] != v[a + 1]);
            }
            assert forall|a: int, b: int| 1 <= a < b < w.len() implies #[trigger] w[a] != #[trigger] w[b] by {
                assert(v[a] != v[b]);
            }
            assert forall|a: int| 0 <= a < w.len() implies (#[trigger] w[a]).wf() by {
                assert(shift_ok(v[a], dx, dy));
            }
            assert(w[0] == w[w.len() - 1]);
        }
        Ring { pts: out }
    }
}

} // verus!
