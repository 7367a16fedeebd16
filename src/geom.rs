//! Fixed-point plane geometry: points, segments and polylines.
//!
//! Coordinates are integers in units of a tenth of a millimetre, so every
//! predicate here (equality, orientation, segment crossing) is exact.
use vstd::prelude::*;

verus! {

/// Largest absolute value a coordinate may take.
pub const COORD_LIMIT: i64 = 1073741824;

/// A point of the plane, in tenths of a millimetre.
#[derive(Clone, Copy, Debug, PartialEq, Eq, Structural)]
pub struct Pt2D {
    pub x: i64,
    pub y: i64,
}

impl Pt2D {
    /// Both coordinates lie within `COORD_LIMIT`.
    pub open spec fn wf(self) -> bool {
        -COORD_LIMIT <= self.x <= COORD_LIMIT && -COORD_LIMIT <= self.y <= COORD_LIMIT
    }

    pub fn new(x: i64, y: i64) -> (r: Pt2D)
        ensures
            r.x == x,
            r.y == y,
    {
        Pt2D { x, y }
    }
}

impl Pt2D {
    /// Both coordinates lie within half of `COORD_LIMIT`, leaving room to
    /// step outward from the point.
    pub open spec fn inner(self) -> bool {
        -HALF_LIMIT <= self.x <= HALF_LIMIT && -HALF_LIMIT <= self.y <= HALF_LIMIT
    }
}

/// Half of `COORD_LIMIT`.
pub const HALF_LIMIT: i64 = 536870912;

/// All points of a sequence are in range.
pub open spec fn pts_wf(s: Seq<Pt2D>) -> bool {
    forall|i: int| 0 <= i < s.len() ==> (#[trigger] s[i]).wf()
}

/// Twice the signed area of the triangle `o, a, b`.
pub open spec fn cross_spec(o: Pt2D, a: Pt2D, b: Pt2D) -> int {
    (a.x - o.x) * (b.y - o.y) - (a.y - o.y) * (b.x - o.x)
}

/// `x` and `y` are non-zero and of opposite signs.
pub open spec fn opposite(x: int, y: int) -> bool {
    (x > 0 && y < 0) || (x < 0 && y > 0)
}

pub open spec fn min(a: int, b: int) -> int {
    if a <= b { a } else { b }
}

pub open spec fn max(a: int, b: int) -> int {
    if a <= b { b } else { a }
}

/// `p` lies in the bounding box of `a` and `b`.
pub open spec fn in_box(a: Pt2D, b: Pt2D, p: Pt2D) -> bool {
    min(a.x as int, b.x as int) <= p.x <= max(a.x as int, b.x as int) && min(
        a.y as int,
        b.y as int,
    ) <= p.y <= max(a.y as int, b.y as int)
}

/// `p` lies on the closed segment from `a` to `b`.
pub open spec fn on_segment(a: Pt2D, b: Pt2D, p: Pt2D) -> bool {
    cross_spec(a, b, p) == 0 && in_box(a, b, p)
}

/// The closed segments `a-b` and `c-d` share at least one point.
pub open spec fn segments_meet(a: Pt2D, b: Pt2D, c: Pt2D, d: Pt2D) -> bool {
    (opposite(cross_spec(a, b, c), cross_spec(a, b, d)) && opposite(
        cross_spec(c, d, a),
        cross_spec(c, d, b),
    ))
        || on_segment(a, b, c) || on_segment(a, b, d) || on_segment(c, d, a) || on_segment(
        c,
        d,
        b,
    )
}

/// Some segment of `p` meets some segment of `q`.
pub open spec fn polylines_meet(p: Seq<Pt2D>, q: Seq<Pt2D>) -> bool {
    exists|i: int, j: int|
        0 <= i < p.len() - 1 && 0 <= j < q.len() - 1 && #[trigger] segments_meet(
            p[i],
            p[i + 1],
            q[j],
            #[trigger] q[j + 1],
        )
}

pub proof fn lemma_cross_bounds(o: Pt2D, a: Pt2D, b: Pt2D)
    requires
        o.wf(),
        a.wf(),
        b.wf(),
    ensures
        -0x10000000000000000 <= cross_spec(o, a, b) <= 0x10000000000000000,
{
    let ax = a.x - o.x;
    let ay = a.y - o.y;
    let bx = b.x - o.x;
    let by = b.y - o.y;
    assert(-0x8000000000000000 <= ax * by <= 0x8000000000000000) by (nonlinear_arith)
        requires
            -0x80000000 <= ax <= 0x80000000,
            -0x80000000 <= by <= 0x80000000,
    ;
    assert(-0x8000000000000000 <= ay * bx <= 0x8000000000000000) by (nonlinear_arith)
        requires
            -0x80000000 <= ay <= 0x80000000,
            -0x80000000 <= bx <= 0x80000000,
    ;
}

/// Twice the signed area of the triangle `o, a, b`, computed exactly.
pub fn cross(o: Pt2D, a: Pt2D, b: Pt2D) -> (r: i128)
    requires
        o.wf(),
        a.wf(),
        b.wf(),
    ensures
        r == cross_spec(o, a, b),
{
    proof {
        lemma_cross_bounds(o, a, b);
    }
    let ax = (a.x as i128) - (o.x as i128);
    let ay = (a.y as i128) - (o.y as i128);
    let bx = (b.x as i128) - (o.x as i128);
    let by = (b.y as i128) - (o.y as i128);
    assert(-0x8000000000000000 <= ax * by <= 0x8000000000000000) by (nonlinear_arith)
        requires
            -0x80000000 <= ax <= 0x80000000,
            -0x80000000 <= by <= 0x80000000,
    ;
    assert(-0x8000000000000000 <= ay * bx <= 0x8000000000000000) by (nonlinear_arith)
        requires
            -0x80000000 <= ay <= 0x80000000,
            -0x80000000 <= bx <= 0x80000000,
    ;
    ax * by - ay * bx
}

/// Whether `p` lies on the closed segment from `a` to `b`.
pub fn pt_on_segment(a: Pt2D, b: Pt2D, p: Pt2D) -> (r: bool)
    requires
        a.wf(),
        b.wf(),
        p.wf(),
    ensures
        r == on_segment(a, b, p),
{
    let c = cross(a, b, p);
    let lo_x = if a.x <= b.x { a.x } else { b.x };
    let hi_x = if a.x <= b.x { b.x } else { a.x };
    let lo_y = if a.y <= b.y { a.y } else { b.y };
    let hi_y = if a.y <= b.y { b.y } else { a.y };
    c == 0 && lo_x <= p.x && p.x <= hi_x && lo_y <= p.y && p.y <= hi_y
}

/// Whether the closed segments `a-b` and `c-d` share a point.
pub fn segments_intersect(a: Pt2D, b: Pt2D, c: Pt2D, d: Pt2D) -> (r: bool)
    requires
        a.wf(),
        b.wf(),
        c.wf(),
        d.wf(),
    ensures
        r == segments_meet(a, b, c, d),
{
    let o1 = cross(a, b, c);
    let o2 = cross(a, b, d);
    let o3 = cross(c, d, a);
    let o4 = cross(c, d, b);
    let proper = ((o1 > 0 && o2 < 0) || (o1 < 0 && o2 > 0)) && ((o3 > 0 && o4 < 0) || (o3 < 0
        && o4 > 0));
    proper || pt_on_segment(a, b, c) || pt_on_segment(a, b, d) || pt_on_segment(c, d, a)
        || pt_on_segment(c, d, b)
}

/// Whether some segment of `p` meets some segment of `q`.
pub fn polylines_intersect(p: &Vec<Pt2D>, q: &Vec<Pt2D>) -> (r: bool)
    requires
        pts_wf(p@),
        pts_wf(q@),
    ensures
        r == polylines_meet(p@, q@),
{
    let mut i: usize = 0;
    while i < p.len() && i + 1 < p.len()
        invariant
            pts_wf(p@),
            pts_wf(q@),
            forall|a: int, b: int|
                0 <= a < i && 0 <= b < q@.len() - 1 ==> !#[trigger] segments_meet(
                    p@[a],
                    p@[a + 1],
                    q@[b],
                    #[trigger] q@[b + 1],
                ),
        decreases p.len() - i,
    {
        let a = p[i];
        let b = p[i + 1];
        let mut j: usize = 0;
        while j < q.len() && j + 1 < q.len()
            invariant
                pts_wf(p@),
                pts_wf(q@),
                i + 1 < p@.len(),
                a == p@[i as int],
                b == p@[i + 1],
                forall|a: int, b: int|
                    0 <= a < i && 0 <= b < q@.len() - 1 ==> !#[trigger] segments_meet(
                        p@[a],
                        p@[a + 1],
                        q@[b],
                        #[trigger] q@[b + 1],
                    ),
                forall|b: int|
                    0 <= b < j ==> !#[trigger] segments_meet(
                        p@[i as int],
                        p@[i + 1],
                        q@[b],
                        q@[b + 1],
                    ),
            decreases q.len() - j,
        {
            if segments_intersect(a, b, q[j], q[j + 1]) {
                return true;
            }
            j += 1;
        }
        i += 1;
    }
    proof {
        if polylines_meet(p@, q@) {
            let (a, b) = choose|a: int, b: int|
                0 <= a < p@.len() - 1 && 0 <= b < q@.len() - 1 && #[trigger] segments_meet(
                    p@[a],
                    p@[a + 1],
                    q@[b],
                    #[trigger] q@[b + 1],
                );
            assert(!segments_meet(p@[a], p@[a + 1], q@[b], q@[b + 1]));
        }
    }
    false
}

/// The floor of the square root of `n`.
pub open spec fn isqrt_spec(n: nat) -> nat
    decreases n,
{
    if n == 0 {
        0
    } else {
        let r = isqrt_spec((n - 1) as nat);
        if (r + 1) * (r + 1) <= n {
            r + 1
        } else {
            r
        }
    }
}

proof fn lemma_isqrt_bounds(n: nat)
    ensures
        isqrt_spec(n) * isqrt_spec(n) <= n < (isqrt_spec(n) + 1) * (isqrt_spec(n) + 1),
    decreases n,
{
    if n == 0 {
        assert(isqrt_spec(0) == 0);
        assert(0 * 0 <= 0 < (0 + 1) * (0 + 1)) by (nonlinear_arith);
    } else {
        lemma_isqrt_bounds((n - 1) as nat);
        let r = isqrt_spec((n - 1) as nat);
        let s = isqrt_spec(n);
        if (r + 1) * (r + 1) > n {
            assert(s == r);
            assert(s * s <= n < (s + 1) * (s + 1)) by (nonlinear_arith)
                requires
                    (r + 1) * (r + 1) > n,
                    r * r <= n - 1,
                    s == r,
            ;
        } else {
            assert(s == r + 1);
            assert(s * s <= n < (s + 1) * (s + 1)) by (nonlinear_arith)
                requires
                    (r + 1) * (r + 1) <= n,
                    n - 1 < (r + 1) * (r + 1),
                    s == r + 1,
                    r >= 0,
            ;
        }
    }
}

proof fn lemma_isqrt_unique(n: nat, r: nat)
    requires
        r * r <= n < (r + 1) * (r + 1),
    ensures
        isqrt_spec(n) == r,
{
    lemma_isqrt_bounds(n);
    let s = isqrt_spec(n);
    if s < r {
        assert((s + 1) * (s + 1) <= r * r) by (nonlinear_arith)
            requires
                s + 1 <= r,
                s >= 0,
        ;
    } else if r < s {
        assert((r + 1) * (r + 1) <= s * s) by (nonlinear_arith)
            requires
                r + 1 <= s,
                r >= 0,
        ;
    }
}

/// The floor square root of a positive number is positive.
pub proof fn lemma_isqrt_pos(n: nat)
    requires
        n > 0,
    ensures
        isqrt_spec(n) > 0,
{
    lemma_isqrt_bounds(n);
    let r = isqrt_spec(n);
    if r == 0 {
        assert((r + 1) * (r + 1) == 1) by (nonlinear_arith)
            requires
                r == 0,
        ;
    }
}

/// Each leg of a right triangle is at most its rounded-down hypotenuse.
pub proof fn lemma_isqrt_covers(n: nat, dx: int, dy: int)
    requires
        n == dx * dx + dy * dy,
    ensures
        dx * dx <= isqrt_spec(n) * isqrt_spec(n),
        dy * dy <= isqrt_spec(n) * isqrt_spec(n),
{
    lemma_isqrt_bounds(n);
    let r = isqrt_spec(n);
    let ax = if dx >= 0 { dx } else { -dx };
    let ay = if dy >= 0 { dy } else { -dy };
    assert(ax * ax == dx * dx && ay * ay == dy * dy) by (nonlinear_arith)
        requires
            ax == (if dx >= 0 { dx } else { -dx }),
            ay == (if dy >= 0 { dy } else { -dy }),
    ;
    assert(0 <= dy * dy && 0 <= dx * dx) by (nonlinear_arith);
    assert(ax <= r) by (nonlinear_arith)
        requires
            ax >= 0,
            r >= 0,
            ax * ax <= n,
            n < (r + 1) * (r + 1),
    ;
    assert(ay <= r) by (nonlinear_arith)
        requires
            ay >= 0,
            r >= 0,
            ay * ay <= n,
            n < (r + 1) * (r + 1),
    ;
    assert(ax * ax <= r * r) by (nonlinear_arith)
        requires
            0 <= ax <= r,
    ;
    assert(ay * ay <= r * r) by (nonlinear_arith)
        requires
            0 <= ay <= r,
    ;
}

/// The floor of the square root of `n`.
pub fn isqrt(n: u64) -> (r: u64)
    ensures
        r == isqrt_spec(n as nat),
        r <= 0x100000000,
{
    let mut lo: u64 = 0;
    let mut hi: u64 = 0x100000000;
    assert(n < 0x100000000 * 0x100000000);
    while lo + 1 < hi
        invariant
            lo < hi <= 0x100000000,
            lo * lo <= n,
            n < hi * hi,
        decreases hi - lo,
    {
        let mid = lo + (hi - lo) / 2;
        assert(mid * mid <= 0x100000000 * 0x100000000) by (nonlinear_arith)
            requires
                0 <= mid <= 0x100000000,
        ;
        let sq = (mid as u128) * (mid as u128);
        if sq <= n as u128 {
            lo = mid;
        } else {
            hi = mid;
        }
    }
    proof {
        lemma_isqrt_unique(n as nat, lo as nat);
    }
    lo
}

/// Squared distance between two points.
pub open spec fn dist2(a: Pt2D, b: Pt2D) -> nat {
    ((a.x - b.x) * (a.x - b.x) + (a.y - b.y) * (a.y - b.y)) as nat
}

/// Distance between two points, rounded down to whole units.
pub open spec fn dist_spec(a: Pt2D, b: Pt2D) -> nat {
    isqrt_spec(dist2(a, b))
}

/// Length of a polyline: the sum of its rounded segment lengths.
pub open spec fn length_spec(s: Seq<Pt2D>) -> nat
    decreases s.len(),
{
    if s.len() < 2 {
        0
    } else {
        length_spec(s.drop_last()) + dist_spec(s[s.len() - 2], s[s.len() - 1])
    }
}

/// Squared distance between two points.
pub fn dist_squared(a: Pt2D, b: Pt2D) -> (r: u128)
    requires
        a.wf(),
        b.wf(),
    ensures
        r == dist2(a, b),
{
    let dx = (a.x as i128) - (b.x as i128);
    let dy = (a.y as i128) - (b.y as i128);
    assert(0 <= dx * dx <= 0x4000000000000000) by (nonlinear_arith)
        requires
            -0x80000000 <= dx <= 0x80000000,
    ;
    assert(0 <= dy * dy <= 0x4000000000000000) by (nonlinear_arith)
        requires
            -0x80000000 <= dy <= 0x80000000,
    ;
    (dx * dx + dy * dy) as u128
}

/// Distance between two points, rounded down to whole units.
pub fn dist(a: Pt2D, b: Pt2D) -> (r: u64)
    requires
        a.wf(),
        b.wf(),
    ensures
        r == dist_spec(a, b),
        r <= 0x100000000,
{
    let dx = (a.x - b.x) as i128;
    let dy = (a.y - b.y) as i128;
    assert(0 <= dx * dx <= 0x4000000000000000) by (nonlinear_arith)
        requires
            -0x80000000 <= dx <= 0x80000000,
    ;
    assert(0 <= dy * dy <= 0x4000000000000000) by (nonlinear_arith)
        requires
            -0x80000000 <= dy <= 0x80000000,
    ;
    let d2 = (dx * dx + dy * dy) as u64;
    isqrt(d2)
}

/// Length of a polyline: the sum of its rounded segment lengths.
pub fn polyline_length(pts: &Vec<Pt2D>) -> (r: u128)
    requires
        pts_wf(pts@),
    ensures
        r == length_spec(pts@),
{
    if pts.len() < 2 {
        return 0;
    }
    let mut total: u128 = 0;
    let mut i: usize = 1;
    assert(length_spec(pts@.subrange(0, 1)) == 0);
    while i < pts.len()
        invariant
            pts_wf(pts@),
            1 <= i,
            i <= pts@.len(),
            total == length_spec(pts@.subrange(0, i as int)),
            total <= i * 0x100000000,
        decreases pts.len() - i,
    {
        let d = dist(pts[i - 1], pts[i]);
        proof {
            let s = pts@.subrange(0, i + 1);
            assert(s.drop_last() == pts@.subrange(0, i as int));
        }
        total = total + d as u128;
        i += 1;
    }
    assert(pts@.subrange(0, pts@.len() as int) == pts@);
    total
}

/// A copy of a point list.
pub fn copy_pts(v: &Vec<Pt2D>) -> (r: Vec<Pt2D>)
    ensures
        r@ == v@,
{
    let r = v.clone();
    assert(r@ =~= v@);
    r
}

/// No two neighbours of `s` are equal.
pub open spec fn no_adjacent_dupes(s: Seq<Pt2D>) -> bool {
    forall|k: int| 0 <= k < s.len() - 1 ==> #[trigger] s[k] != s[k + 1]
}

/// At least two points, all in range, no two neighbours equal.
pub open spec fn polyline_valid(s: Seq<Pt2D>) -> bool {
    s.len() >= 2 && pts_wf(s) && no_adjacent_dupes(s)
}

/// Why a point sequence is not a polyline.
#[derive(Clone, Copy, Debug, PartialEq, Eq, Structural)]
pub enum PolyLineError {
    TooFewPoints,
    DuplicateAdjacent,
}

/// An open path of at least two points, no two neighbours equal.
#[derive(Clone, Debug)]
pub struct PolyLine {
    pts: Vec<Pt2D>,
}

/// Whether two neighbours of `pts` are equal.
pub fn has_adjacent_dupes(pts: &Vec<Pt2D>) -> (r: bool)
    ensures
        r == !no_adjacent_dupes(pts@),
{
    let mut k: usize = 0;
    while k < pts.len() && k + 1 < pts.len()
        invariant
            forall|j: int| 0 <= j < k ==> #[trigger] pts@[j] != pts@[j + 1],
        decreases pts.len() - k,
    {
        if pts[k] == pts[k + 1] {
            return true;
        }
        k += 1;
    }
    false
}

impl PolyLine {
    pub closed spec fn view_pts(&self) -> Seq<Pt2D> {
        self.pts@
    }

    pub open spec fn wf(&self) -> bool {
        polyline_valid(self.view_pts())
    }

    /// A polyline through `pts`, refused when it has fewer than two points or
    /// two equal neighbours.
    pub fn new(pts: Vec<Pt2D>) -> (r: Result<PolyLine, PolyLineError>)
        requires
            pts_wf(pts@),
        ensures
            match r {
                Ok(pl) => pl.view_pts() == pts@ && pl.wf(),
                Err(e) => e == (if pts@.len() < 2 {
                    PolyLineError::TooFewPoints
                } else {
                    PolyLineError::DuplicateAdjacent
                }) && !polyline_valid(pts@),
            },
    {
        if pts.len() < 2 {
            return Err(PolyLineError::TooFewPoints);
        }
        if has_adjacent_dupes(&pts) {
            return Err(PolyLineError::DuplicateAdjacent);
        }
        Ok(PolyLine { pts })
    }

    /// A polyline through `pts`, which must already be valid.
    pub fn must_new(pts: Vec<Pt2D>) -> (r: PolyLine)
        requires
            polyline_valid(pts@),
        ensures
            r.view_pts() == pts@,
    {
        PolyLine { pts }
    }

    /// A polyline through `pts` with repeated neighbours merged, refused when
    /// fewer than two points are left.
    pub fn deduping_new(pts: Vec<Pt2D>) -> (r: Result<PolyLine, PolyLineError>)
        requires
            pts_wf(pts@),
        ensures
            match r {
                Ok(pl) => pl.view_pts() == dedup_spec(pts@) && pl.wf(),
                Err(e) => e == PolyLineError::TooFewPoints && dedup_spec(pts@).len() < 2,
            },
    {
        let d = dedup(&pts);
        if d.len() < 2 {
            return Err(PolyLineError::TooFewPoints);
        }
        Ok(PolyLine { pts: d })
    }

    pub fn points(&self) -> (r: &Vec<Pt2D>)
        ensures
            r@ == self.view_pts(),
    {
        &self.pts
    }

    pub fn into_points(self) -> (r: Vec<Pt2D>)
        ensures
            r@ == self.view_pts(),
    {
        self.pts
    }

    /// The sum of the rounded lengths of the segments.
    pub fn length(&self) -> (r: u128)
        requires
            self.wf(),
        ensures
            r == length_spec(self.view_pts()),
    {
        polyline_length(&self.pts)
    }

    /// The same path, walked the other way.
    pub fn reversed(&self) -> (r: PolyLine)
        requires
            self.wf(),
        ensures
            r.view_pts() == self.view_pts().reverse(),
            r.wf(),
    {
        let mut out: Vec<Pt2D> = Vec::new();
        let mut k: usize = self.pts.len();
        while k > 0
            invariant
                k <= self.pts@.len(),
                out@ == self.pts@.subrange(k as int, self.pts@.len() as int).reverse(),
            decreases k,
        {
            k -= 1;
            out.push(self.pts[k]);
            assert(out@ =~= self.pts@.subrange(k as int, self.pts@.len() as int).reverse());
        }
        assert(self.pts@.subrange(0, self.pts@.len() as int) == self.pts@);
        proof {
            let s = self.pts@;
            let r = out@;
            assert forall|k: int| 0 <= k < r.len() - 1 implies #[trigger] r[k] != r[k + 1] by {
                assert(r[k] == s[s.len() - 1 - k]);
                assert(r[k + 1] == s[s.len() - 2 - k]);
                assert(s[s.len() - 2 - k] != s[s.len() - 2 - k + 1]);
            }
            assert forall|k: int| 0 <= k < r.len() implies (#[trigger] r[k]).wf() by {
                assert(r[k] == s[s.len() - 1 - k]);
            }
        }
        PolyLine { pts: out }
    }
}

/// `s` with every run of equal neighbours merged into one point.
pub open spec fn dedup_spec(s: Seq<Pt2D>) -> Seq<Pt2D>
    decreases s.len(),
{
    if s.len() == 0 {
        s
    } else {
        let d = dedup_spec(s.drop_last());
        if d.len() > 0 && d.last() == s.last() {
            d
        } else {
            d.push(s.last())
        }
    }
}

proof fn lemma_dedup_props(s: Seq<Pt2D>)
    ensures
        no_adjacent_dupes(dedup_spec(s)),
        pts_wf(s) ==> pts_wf(dedup_spec(s)),
        s.len() > 0 ==> dedup_spec(s).len() > 0 && dedup_spec(s).last() == s.last() && dedup_spec(s)[0] == s[0],
        dedup_spec(s).len() <= s.len(),
    decreases s.len(),
{
    if s.len() > 0 {
        lemma_dedup_props(s.drop_last());
        let d = dedup_spec(s.drop_last());
        if !(d.len() > 0 && d.last() == s.last()) {
            let e = d.push(s.last());
            assert forall|k: int| 0 <= k < e.len() - 1 implies #[trigger] e[k] != e[k + 1] by {
                if k < d.len() - 1 {
                    assert(e[k] == d[k] && e[k + 1] == d[k + 1]);
                }
            }
            if pts_wf(s) {
                assert forall|k: int| 0 <= k < e.len() implies (#[trigger] e[k]).wf() by {
                    if k < d.len() {
                        assert(e[k] == d[k]);
                    } else {
                        assert(s[s.len() - 1].wf());
                    }
                }
            }
        }
        if s.len() == 1 {
            assert(s.drop_last().len() == 0);
        } else {
            assert(s.drop_last()[0] == s[0]);
        }
    }
}

/// `pts` with every run of equal neighbours merged into one point.
pub fn dedup(pts: &Vec<Pt2D>) -> (r: Vec<Pt2D>)
    ensures
        r@ == dedup_spec(pts@),
        no_adjacent_dupes(r@),
        pts_wf(pts@) ==> pts_wf(r@),
{
    let mut out: Vec<Pt2D> = Vec::new();
    let mut k: usize = 0;
    while k < pts.len()
        invariant
            k <= pts@.len(),
            out@ == dedup_spec(pts@.subrange(0, k as int)),
        decreases pts.len() - k,
    {
        proof {
            assert(pts@.subrange(0, k + 1).drop_last() == pts@.subrange(0, k as int));
            lemma_dedup_props(pts@.subrange(0, k as int));
        }
        if out.len() == 0 || out[out.len() - 1] != pts[k] {
            out.push(pts[k]);
        }
        k += 1;
    }
    assert(pts@.subrange(0, pts@.len() as int) == pts@);
    proof {
        lemma_dedup_props(pts@);
    }
    out
}

} // verus!
