//! Pedestrian turns at an intersection: shared sidewalk corners where two
//! sidewalks meet, crosswalks across the gaps between them, and the later
//! downgrade of crosswalks to unmarked crossings.
use vstd::prelude::*;

use crate::geom::{dedup_spec, dist, dist_spec, pts_wf, PolyLine, Pt2D};
use crate::map::{
    contains_road,
    Direction, DrivingSide, Intersection, IntersectionID, Lane, LaneID, Road, RoadID, StreetMap,
    TurnType,
};
use crate::ring::{both_slices, on_path, ring_valid, Ring};

verus! {

/// How far a crosswalk juts into a pass-through intersection, in tenths of
/// a millimetre.
pub const DEGENERATE_JUT: u64 = 25000;

#[derive(Clone, Copy, Debug, PartialEq, Eq, Structural)]
pub struct TurnID {
    pub parent: IntersectionID,
    pub src: LaneID,
    pub dst: LaneID,
}

/// A path through an intersection between two lanes.
#[derive(Clone, Debug)]
pub struct Turn {
    pub id: TurnID,
    pub turn_type: TurnType,
    pub geom: PolyLine,
}

/// `c * d / len`, rounded toward zero.
pub open spec fn scaled(c: int, d: int, len: int) -> int {
    if c >= 0 { c * d / len } else { -((-c) * d / len) }
}

/// The point `d` beyond `b` on the line from `a` through `b`, each
/// coordinate rounded toward `b`.
pub open spec fn beyond(a: Pt2D, b: Pt2D, d: int) -> Pt2D {
    let len = dist_spec(a, b) as int;
    Pt2D { x: (b.x + scaled(b.x - a.x, d, len)) as i64, y: (b.y + scaled(b.y - a.y, d, len)) as i64 }
}

proof fn lemma_scaled_bound(c: int, d: int, len: int)
    requires
        0 <= d,
        0 < len,
        c * c <= len * len,
    ensures
        -d <= scaled(c, d, len) <= d,
{
    let a = if c >= 0 { c } else { -c };
    assert(a * a == c * c) by (nonlinear_arith)
        requires
            a == (if c >= 0 { c } else { -c }),
    ;
    assert(a <= len) by (nonlinear_arith)
        requires
            a >= 0,
            a * a == c * c,
            c * c <= len * len,
            len > 0,
    ;
    assert(a * d <= len * d) by (nonlinear_arith)
        requires
            a <= len,
            d >= 0,
    ;
    assert(0 <= a * d) by (nonlinear_arith)
        requires
            a >= 0,
            d >= 0,
    ;
    assert(a * d / len <= d) by (nonlinear_arith)
        requires
            a * d <= len * d,
            len > 0,
            a * d >= 0,
    ;
    assert(0 <= a * d / len) by (nonlinear_arith)
        requires
            len > 0,
            a * d >= 0,
    ;
}

/// `c * d / len` for `|c| <= len`, rounded toward zero.
fn scale(c: i64, d: u64, len: u64) -> (r: i64)
    requires
        0 < len,
        (c as int) * (c as int) <= (len as int) * (len as int),
        d <= 0x40000000,
        -0x80000000 <= c <= 0x80000000,
    ensures
        r == scaled(c as int, d as int, len as int),
{
    proof {
        lemma_scaled_bound(c as int, d as int, len as int);
    }
    let a: i128 = if c >= 0 { c as i128 } else { -(c as i128) };
    assert(0 <= a * (d as i128) <= 0x80000000 * 0x40000000) by (nonlinear_arith)
        requires
            0 <= a <= 0x80000000,
            0 <= d <= 0x40000000,
    ;
    let q = (a * (d as i128)) / (len as i128);
    if c >= 0 {
        q as i64
    } else {
        -(q as i64)
    }
}

/// The point `d` beyond `b` on the line from `a` through `b`.
fn project_beyond(a: Pt2D, b: Pt2D, d: u64) -> (r: Pt2D)
    requires
        a != b,
        a.inner(),
        b.inner(),
        d <= 0x20000000,
    ensures
        r == beyond(a, b, d as int),
        r.wf(),
{
    let len = dist(a, b);
    proof {
        let ddx = (b.x - a.x) as int;
        let ddy = (b.y - a.y) as int;
        assert(0 <= ddx * ddx && 0 <= ddy * ddy) by (nonlinear_arith);
        assert((a.x - b.x) * (a.x - b.x) == ddx * ddx) by (nonlinear_arith)
            requires
                ddx == b.x - a.x,
        ;
        assert((a.y - b.y) * (a.y - b.y) == ddy * ddy) by (nonlinear_arith)
            requires
                ddy == b.y - a.y,
        ;
        let n = crate::geom::dist2(a, b);
        assert(n == ddx * ddx + ddy * ddy);
        if n == 0 {
            assert(ddx == 0 && ddy == 0) by (nonlinear_arith)
                requires
                    ddx * ddx + ddy * ddy == 0,
            ;
        }
        crate::geom::lemma_isqrt_pos(n);
        crate::geom::lemma_isqrt_covers(n, ddx, ddy);
        lemma_scaled_bound((b.x - a.x) as int, d as int, len as int);
        lemma_scaled_bound((b.y - a.y) as int, d as int, len as int);
    }
    let dx = scale(b.x - a.x, d, len);
    let dy = scale(b.y - a.y, d, len);
    Pt2D { x: b.x + dx, y: b.y + dy }
}

/// Where lane `lane` of road `road` meets intersection `i`.
pub open spec fn endpoint_spec(lane: Lane, road: Road, i: IntersectionID) -> Pt2D {
    if road.dst_i == i { lane.center@.last() } else { lane.center@[0] }
}

/// The last segment of `lane` toward intersection `i`, ending there.
pub open spec fn end_line_spec(lane: Lane, road: Road, i: IntersectionID) -> (Pt2D, Pt2D) {
    let c = lane.center@;
    if road.dst_i == i { (c[c.len() - 2], c[c.len() - 1]) } else { (c[1], c[0]) }
}

/// Where `lane` meets intersection `i`.
fn endpoint(lane: &Lane, road: &Road, i: IntersectionID) -> (r: Pt2D)
    requires
        lane.wf(),
    ensures
        r == endpoint_spec(*lane, *road, i),
        r.inner(),
        r.wf(),
{
    let n = lane.center.len();
    let r = if road.dst_i == i { lane.center[n - 1] } else { lane.center[0] };
    proof {
        assert(r.inner());
    }
    r
}

/// The last segment of `lane` toward intersection `i`.
fn end_line(lane: &Lane, road: &Road, i: IntersectionID) -> (r: (Pt2D, Pt2D))
    requires
        lane.wf(),
    ensures
        r == end_line_spec(*lane, *road, i),
        r.0 != r.1,
        r.0.inner(),
        r.1.inner(),
{
    let n = lane.center.len();
    if road.dst_i == i {
        let r = (lane.center[n - 2], lane.center[n - 1]);
        proof {
            assert(lane.center@[n - 2] != lane.center@[n - 1]);
            assert(r.0.inner() && r.1.inner());
        }
        r
    } else {
        let r = (lane.center[1], lane.center[0]);
        proof {
            assert(lane.center@[0int] != lane.center@[1int]);
            assert(r.0.inner() && r.1.inner());
        }
        r
    }
}

/// How far a crosswalk juts out from a sidewalk's end.
pub open spec fn jut_spec(lane: Lane, degenerate: bool) -> int {
    if degenerate { DEGENERATE_JUT as int } else { (lane.width / 2) as int }
}

/// The path of a crosswalk from the end of `l1` to the end of `l2`: out
/// from each sidewalk's end along its direction, across, and back in, with
/// repeated neighbours merged.
pub open spec fn crosswalk_geom(i: Intersection, l1: Lane, r1: Road, l2: Lane, r2: Road) -> Seq<Pt2D> {
    let e1 = end_line_spec(l1, r1, i.id);
    let e2 = end_line_spec(l2, r2, i.id);
    dedup_spec(
        seq![
            e1.1,
            beyond(e1.0, e1.1, jut_spec(l1, i.degenerate)),
            beyond(e2.0, e2.1, jut_spec(l2, i.degenerate)),
            e2.1,
        ],
    )
}

/// A crosswalk from the end of `l1` to the end of `l2`, unless its path
/// collapses to a single point.
fn make_crosswalks(i: &Intersection, l1: &Lane, r1: &Road, l2: &Lane, r2: &Road) -> (r: Option<Turn>)
    requires
        l1.wf(),
        l2.wf(),
    ensures
        r is Some <==> crosswalk_geom(*i, *l1, *r1, *l2, *r2).len() >= 2,
        r matches Some(t) ==> t.id == (TurnID { parent: i.id, src: l1.id, dst: l2.id })
            && t.turn_type == TurnType::Crosswalk && t.geom.wf() && t.geom.view_pts()
            == crosswalk_geom(*i, *l1, *r1, *l2, *r2),
{
    let a = end_line(l1, r1, i.id);
    let b = end_line(l2, r2, i.id);
    let jut1: u64 = if i.degenerate { DEGENERATE_JUT } else { l1.width / 2 };
    let jut2: u64 = if i.degenerate { DEGENERATE_JUT } else { l2.width / 2 };
    let pt1 = project_beyond(a.0, a.1, jut1);
    let pt2 = project_beyond(b.0, b.1, jut2);
    proof {
        assert(a.1.wf() && b.1.wf());
    }
    let pts = vec![a.1, pt1, pt2, b.1];
    proof {
        assert(pts_wf(pts@));
    }
    match PolyLine::deduping_new(pts) {
        Ok(geom) => Some(Turn {
            id: TurnID { parent: i.id, src: l1.id, dst: l2.id },
            turn_type: TurnType::Crosswalk,
            geom,
        }),
        Err(_) => None,
    }
}

/// The path of a shared sidewalk corner from `start` to `end`: the shorter
/// way around the intersection's boundary when that boundary is a valid
/// ring with both points on it, else a straight line (or a short stub when
/// both points coincide).
pub open spec fn corner_geom(polygon: Seq<Pt2D>, start: Pt2D, end: Pt2D) -> Seq<Pt2D> {
    if start != end && ring_valid(polygon) && on_path(polygon, start) && on_path(polygon, end) {
        let (c1, c2) = both_slices(polygon, start, end);
        if crate::geom::length_spec(c1) <= crate::geom::length_spec(c2) { c1 } else { c2 }
    } else if start != end {
        seq![start, end]
    } else {
        seq![start, Pt2D { x: (start.x + 1000) as i64, y: (start.y + 1000) as i64 }]
    }
}

/// The path of a shared sidewalk corner between the ends of `l1` and `l2`.
fn make_shared_sidewalk_corner(i: &Intersection, l1: &Lane, r1: &Road, l2: &Lane, r2: &Road) -> (r: PolyLine)
    requires
        i.wf(),
        l1.wf(),
        l2.wf(),
    ensures
        r.wf(),
        r.view_pts() == corner_geom(
            i.polygon@,
            endpoint_spec(*l1, *r1, i.id),
            endpoint_spec(*l2, *r2, i.id),
        ),
{
    let start = endpoint(l1, r1, i.id);
    let end = endpoint(l2, r2, i.id);
    if start != end {
        let pts = crate::geom::copy_pts(&i.polygon);
        match Ring::new(pts) {
            Ok(ring) => {
                if let Some(pl) = ring.get_shorter_slice_between(start, end) {
                    return pl;
                }
            },
            Err(_) => {},
        }
        let line = vec![start, end];
        proof {
            assert(crate::geom::polyline_valid(line@));
        }
        PolyLine::must_new(line)
    } else {
        let line = vec![start, Pt2D { x: start.x + 1000, y: start.y + 1000 }];
        proof {
            assert(crate::geom::polyline_valid(line@));
        }
        PolyLine::must_new(line)
    }
}

/// `road` has a walkable lane running in direction `dir`.
pub open spec fn has_walkable(road: Road, dir: Direction) -> bool {
    exists|o: int|
        0 <= o < road.lanes@.len() && (#[trigger] road.lanes@[o]).lane_type.walkable()
            && road.lanes@[o].dir == dir
}

/// How many sidewalk slots the roads have: one for each road and direction
/// with a walkable lane.
pub open spec fn slot_count(map: StreetMap, roads: Seq<RoadID>) -> nat
    decreases roads.len(),
{
    if roads.len() == 0 {
        0
    } else {
        let r = map.road(roads.last());
        slot_count(map, roads.drop_last()) + (if has_walkable(r, Direction::Fwd) { 1nat } else { 0 })
            + (if has_walkable(r, Direction::Back) { 1nat } else { 0 })
    }
}

/// A walkable lane of the map.
pub open spec fn walkable_lane(map: StreetMap, l: LaneID) -> bool {
    map.has_lane(l) && map.lane(l).lane_type.walkable()
}

/// The last walkable lane of `lanes` running in direction `dir`.
pub open spec fn last_walk(lanes: Seq<Lane>, dir: Direction) -> Option<LaneID>
    decreases lanes.len(),
{
    if lanes.len() == 0 {
        None
    } else if lanes.last().lane_type.walkable() && lanes.last().dir == dir {
        Some(lanes.last().id)
    } else {
        last_walk(lanes.drop_last(), dir)
    }
}

/// The incident roads of `i` in the order the scan walks them:
/// counter-clockwise, or clockwise where vehicles drive on the left.
pub open spec fn ordered_roads(map: StreetMap, i: Intersection) -> Seq<RoadID> {
    if map.driving_side == DrivingSide::Left { i.roads@.reverse() } else { i.roads@ }
}

/// The sidewalk slots of road `r` at intersection `i`: the one leading in,
/// then the one leading out.
pub open spec fn road_slots(map: StreetMap, i: IntersectionID, r: RoadID) -> (Option<LaneID>, Option<LaneID>) {
    let road = map.road(r);
    let f = last_walk(road.lanes@, Direction::Fwd);
    let b = last_walk(road.lanes@, Direction::Back);
    if road.src_i == i { (b, f) } else { (f, b) }
}

/// All sidewalk slots around `i`, in scan order.
pub open spec fn slots(map: StreetMap, i: Intersection) -> Seq<Option<LaneID>> {
    let rs = ordered_roads(map, i);
    Seq::new(
        (2 * rs.len()) as nat,
        |j: int| if j % 2 == 0 { road_slots(map, i.id, rs[j / 2]).0 } else { road_slots(map, i.id, rs[j / 2]).1 },
    )
}

/// A turn as values: identifier, type, path.
pub type TurnView = (TurnID, TurnType, Seq<Pt2D>);

pub open spec fn turn_view(t: Turn) -> TurnView {
    (t.id, t.turn_type, t.geom.view_pts())
}

pub open spec fn turn_views(s: Seq<Turn>) -> Seq<TurnView> {
    s.map_values(|t: Turn| turn_view(t))
}

pub open spec fn has_cw(ts: Seq<TurnView>) -> bool {
    exists|k: int| 0 <= k < ts.len() && (#[trigger] ts[k]).1 == TurnType::Crosswalk
}

/// The scan's state: the last sidewalk seen, whether no slot is missing
/// since, whether the scan is back at its first sidewalk, and the turns so
/// far.
pub type ScanState = (LaneID, bool, bool, Seq<TurnView>);

/// One step of the scan over `slot`.
pub open spec fn scan_step(map: StreetMap, i: Intersection, first: LaneID, st: ScanState, slot: Option<LaneID>) -> ScanState {
    if st.2 {
        st
    } else {
        match slot {
            None => (st.0, false, false, st.3),
            Some(l2) => {
                let l1 = st.0;
                let lane1 = map.lane(l1);
                let road1 = map.road(l1.road);
                let lane2 = map.lane(l2);
                let road2 = map.road(l2.road);
                let id = TurnID { parent: i.id, src: l1, dst: l2 };
                if st.1 && l1.road != l2.road {
                    let g = corner_geom(i.polygon@, endpoint_spec(lane1, road1, i.id), endpoint_spec(lane2, road2, i.id));
                    (l2, true, l2 == first, st.3.push((id, TurnType::SharedSidewalkCorner, g)))
                } else {
                    let g = crosswalk_geom(i, lane1, road1, lane2, road2);
                    let turns = if (!i.degenerate || !has_cw(st.3)) && g.len() >= 2 {
                        st.3.push((id, TurnType::Crosswalk, g))
                    } else {
                        st.3
                    };
                    (l2, true, l2 == first, turns)
                }
            },
        }
    }
}

/// The scan after `t` steps from the present slot `start`; step `t` looks
/// at slot `start + t`, wrapping around.
pub open spec fn scan(map: StreetMap, i: Intersection, sl: Seq<Option<LaneID>>, start: int, t: nat) -> ScanState
    decreases t,
{
    let first = sl[start]->0;
    if t == 0 {
        (first, true, false, Seq::empty())
    } else {
        scan_step(map, i, first, scan(map, i, sl, start, (t - 1) as nat), sl[(start + t) % sl.len() as int])
    }
}

/// Slot `j` holds the first sidewalk of `sl`.
pub open spec fn first_present(sl: Seq<Option<LaneID>>, j: int) -> bool {
    0 <= j < sl.len() && sl[j] is Some && forall|k: int| 0 <= k < j ==> (#[trigger] sl[k]) is None
}

/// The turns the scan produces at `i`: none with at most one sidewalk
/// slot; otherwise the turns after going once around from the first
/// sidewalk, at most `2n - 1` steps over `n` slots.
pub open spec fn walking_scan(map: StreetMap, i: Intersection) -> Seq<TurnView> {
    let sl = slots(map, i);
    if slot_count(map, i.roads@) <= 1 || !(exists|j: int| first_present(sl, j)) {
        Seq::empty()
    } else {
        let start = choose|j: int| first_present(sl, j);
        scan(map, i, sl, start, (2 * sl.len() - 1) as nat).3
    }
}

/// Once the scan is back at its first sidewalk, later steps change nothing.
proof fn lemma_scan_done(map: StreetMap, i: Intersection, sl: Seq<Option<LaneID>>, start: int, t: nat, u: nat)
    requires
        scan(map, i, sl, start, t).2,
        t <= u,
    ensures
        scan(map, i, sl, start, u) == scan(map, i, sl, start, t),
    decreases u - t,
{
    if t < u {
        lemma_scan_done(map, i, sl, start, t, (u - 1) as nat);
    }
}

/// The last walkable lane of `road` in each direction.
fn sidewalks_of(map: &StreetMap, road: &Road) -> (r: (Option<LaneID>, Option<LaneID>))
    requires
        map.wf(),
        map.has_road(road.id),
        *road == map.road(road.id),
    ensures
        r.0 is Some <==> has_walkable(*road, Direction::Fwd),
        r.1 is Some <==> has_walkable(*road, Direction::Back),
        r.0 matches Some(l) ==> walkable_lane(*map, l),
        r.1 matches Some(l) ==> walkable_lane(*map, l),
        r.0 == last_walk(road.lanes@, Direction::Fwd),
        r.1 == last_walk(road.lanes@, Direction::Back),
{
    let mut fwd: Option<LaneID> = None;
    let mut back: Option<LaneID> = None;
    let mut o: usize = 0;
    while o < road.lanes.len()
        invariant
            map.wf(),
            map.has_road(road.id),
            *road == map.road(road.id),
            o <= road.lanes@.len(),
            fwd is Some <==> exists|j: int|
                0 <= j < o && (#[trigger] road.lanes@[j]).lane_type.walkable() && road.lanes@[j].dir
                    == Direction::Fwd,
            back is Some <==> exists|j: int|
                0 <= j < o && (#[trigger] road.lanes@[j]).lane_type.walkable() && road.lanes@[j].dir
                    == Direction::Back,
            fwd matches Some(l) ==> walkable_lane(*map, l),
            back matches Some(l) ==> walkable_lane(*map, l),
            fwd == last_walk(road.lanes@.subrange(0, o as int), Direction::Fwd),
            back == last_walk(road.lanes@.subrange(0, o as int), Direction::Back),
        decreases road.lanes.len() - o,
    {
        let l = &road.lanes[o];
        proof {
            assert(road.lanes@.subrange(0, o + 1).drop_last() == road.lanes@.subrange(0, o as int));
            assert(road.lanes@.subrange(0, o + 1).last() == *l);
            assert(map.roads@[road.id.0 as int] == *road);
            assert(road.lanes@[o as int].id == (LaneID { road: RoadID(road.id.0), offset: o }));
        }
        if l.lane_type.is_walkable() {
            if l.dir == Direction::Fwd {
                fwd = Some(l.id);
            } else {
                back = Some(l.id);
            }
        }
        o += 1;
    }
    assert(road.lanes@.subrange(0, road.lanes@.len() as int) == road.lanes@);
    (fwd, back)
}

/// A turn that the scan may produce at `i`: it belongs to `i`, joins two
/// walkable lanes, and is either a shared sidewalk corner between different
/// roads along the corner path, or a crosswalk along the crosswalk path.
pub open spec fn walking_turn_ok(map: StreetMap, i: Intersection, t: Turn) -> bool {
    let l1 = map.lane(t.id.src);
    let r1 = map.road(t.id.src.road);
    let l2 = map.lane(t.id.dst);
    let r2 = map.road(t.id.dst.road);
    &&& t.id.parent == i.id
    &&& walkable_lane(map, t.id.src)
    &&& walkable_lane(map, t.id.dst)
    &&& t.geom.wf()
    &&& (t.turn_type == TurnType::SharedSidewalkCorner && t.id.src.road != t.id.dst.road
        && t.geom.view_pts() == corner_geom(
        i.polygon@,
        endpoint_spec(l1, r1, i.id),
        endpoint_spec(l2, r2, i.id),
    )) || (t.turn_type == TurnType::Crosswalk && t.geom.view_pts() == crosswalk_geom(i, l1, r1, l2, r2))
}

/// No two turns of `s` are crosswalks.
pub open spec fn at_most_one_crosswalk(s: Seq<Turn>) -> bool {
    forall|a: int, b: int|
        0 <= a < b < s.len() ==> !((#[trigger] s[a]).turn_type == TurnType::Crosswalk && (
        #[trigger] s[b]).turn_type == TurnType::Crosswalk)
}

/// Whether some turn of `s` is a crosswalk.
fn any_crosswalk(s: &Vec<Turn>) -> (r: bool)
    ensures
        r == exists|k: int| 0 <= k < s@.len() && (#[trigger] s@[k]).turn_type == TurnType::Crosswalk,
{
    let mut k: usize = 0;
    while k < s.len()
        invariant
            forall|j: int| 0 <= j < k ==> (#[trigger] s@[j]).turn_type != TurnType::Crosswalk,
        decreases s.len() - k,
    {
        if s[k].turn_type == TurnType::Crosswalk {
            return true;
        }
        k += 1;
    }
    false
}

/// All incident roads of `i` are roads of `map`.
pub open spec fn roads_known(map: StreetMap, i: Intersection) -> bool {
    forall|k: int| 0 <= k < i.roads@.len() ==> map.has_road(#[trigger] i.roads@[k])
}

/// One present slot of the scan: joins the last sidewalk `l1` to `l2` by a
/// shared corner or a crosswalk, as `scan_step` says.
fn visit_sidewalk(map: &StreetMap, i: &Intersection, l1: LaneID, adj: bool, l2: LaneID, result: &mut Vec<Turn>)
    requires
        map.wf(),
        i.wf(),
        walkable_lane(*map, l1),
        walkable_lane(*map, l2),
        forall|j: int| 0 <= j < old(result)@.len() ==> walking_turn_ok(*map, *i, #[trigger] old(result)@[j]),
        i.degenerate ==> at_most_one_crosswalk(old(result)@),
    ensures
        forall|j: int| 0 <= j < final(result)@.len() ==> walking_turn_ok(*map, *i, #[trigger] final(result)@[j]),
        i.degenerate ==> at_most_one_crosswalk(final(result)@),
        scan_step(*map, *i, l1, (l1, adj, false, turn_views(old(result)@)), Some(l2)).3 == turn_views(final(result)@),
{
    let ghost views0 = turn_views(result@);
    let lane1 = map.get_l(l1);
    let road1 = map.get_r(l1.road);
    let lane2 = map.get_l(l2);
    let road2 = map.get_r(l2.road);
    proof {
        assert(map.roads@[l1.road.0 as int].lanes@[l1.offset as int].wf());
        assert(map.roads@[l2.road.0 as int].lanes@[l2.offset as int].wf());
    }
    if adj && l1.road != l2.road {
        let geom = make_shared_sidewalk_corner(i, lane1, road1, lane2, road2);
        let ghost before = result@;
        let turn = Turn {
            id: TurnID { parent: i.id, src: l1, dst: l2 },
            turn_type: TurnType::SharedSidewalkCorner,
            geom,
        };
        result.push(turn);
        proof {
            assert(turn_views(result@) =~= views0.push(turn_view(turn)));
            if i.degenerate {
                assert forall|a: int, b: int| 0 <= a < b < result@.len() implies !((#[trigger] result@[a]).turn_type
                    == TurnType::Crosswalk && (#[trigger] result@[b]).turn_type == TurnType::Crosswalk) by {
                    assert(result@[a] == before[a]);
                    if b < before.len() {
                        assert(result@[b] == before[b]);
                    }
                }
            }
        }
    } else {
        let any = any_crosswalk(result);
        proof {
            assert(any == has_cw(views0)) by {
                if any {
                    let k = choose|k: int| 0 <= k < result@.len() && (#[trigger] result@[k]).turn_type == TurnType::Crosswalk;
                    assert(views0[k].1 == TurnType::Crosswalk);
                }
                if has_cw(views0) {
                    let k = choose|k: int| 0 <= k < views0.len() && (#[trigger] views0[k]).1 == TurnType::Crosswalk;
                    assert(result@[k].turn_type == TurnType::Crosswalk);
                }
            }
        }
        if !i.is_degenerate() || !any {
            if let Some(turn) = make_crosswalks(i, lane1, road1, lane2, road2) {
                let ghost before = result@;
                result.push(turn);
                proof {
                    assert(turn_views(result@) =~= views0.push(turn_view(turn)));
                    if i.degenerate {
                        assert forall|a: int, b: int| 0 <= a < b < result@.len() implies !((
                        #[trigger] result@[a]).turn_type == TurnType::Crosswalk && (
                        #[trigger] result@[b]).turn_type == TurnType::Crosswalk) by {
                            assert(result@[a] == before[a]);
                            if b < before.len() {
                                assert(result@[b] == before[b]);
                            }
                        }
                    }
                }
            }
        }
    }
}

/// Walks the sidewalks around `i` in counter-clockwise order (clockwise
/// where vehicles drive on the left). Each road offers the sidewalk slot
/// leading into the intersection, then the one leading out, either of which
/// may be missing. From the first present slot, going once around, each
/// present slot is joined to the last one seen: by a shared sidewalk corner
/// when the two are on different roads with no missing slot between them,
/// otherwise by a crosswalk. A pass-through intersection gets at most one
/// crosswalk. Nothing is produced when there is at most one sidewalk slot.
pub fn make_walking_turns(map: &StreetMap, i: &Intersection) -> (r: Vec<Turn>)
    requires
        map.wf(),
        i.wf(),
        roads_known(*map, *i),
    ensures
        turn_views(r@) == walking_scan(*map, *i),
        slot_count(*map, i.roads@) <= 1 ==> r@.len() == 0,
        forall|k: int| 0 <= k < r@.len() ==> walking_turn_ok(*map, *i, #[trigger] r@[k]),
        i.degenerate ==> at_most_one_crosswalk(r@),
{
    let mut num_sidewalks: usize = 0;
    let mut k: usize = 0;
    while k < i.roads.len()
        invariant
            map.wf(),
            roads_known(*map, *i),
            k <= i.roads@.len(),
            num_sidewalks == crate::geom::min(slot_count(*map, i.roads@.subrange(0, k as int)) as int, 2),
        decreases i.roads.len() - k,
    {
        let road = map.get_r(i.roads[k]);
        let (fwd, back) = sidewalks_of(map, road);
        proof {
            assert(i.roads@.subrange(0, k + 1).drop_last() == i.roads@.subrange(0, k as int));
        }
        if fwd.is_some() && num_sidewalks < 2 {
            num_sidewalks += 1;
        }
        if back.is_some() && num_sidewalks < 2 {
            num_sidewalks += 1;
        }
        k += 1;
    }
    assert(i.roads@.subrange(0, i.roads@.len() as int) == i.roads@);
    if num_sidewalks <= 1 {
        let none: Vec<Turn> = Vec::new();
        assert(turn_views(none@) =~= Seq::<TurnView>::empty());
        return none;
    }
    let ghost sl = slots(*map, *i);
    let ghost rs = ordered_roads(*map, *i);
    let mut lanes: Vec<Option<LaneID>> = Vec::new();
    let n_roads = i.roads.len();
    let mut k: usize = 0;
    while k < n_roads
        invariant
            map.wf(),
            roads_known(*map, *i),
            n_roads == i.roads@.len(),
            sl == slots(*map, *i),
            rs == ordered_roads(*map, *i),
            k <= n_roads,
            forall|j: int| 0 <= j < lanes@.len() ==> ((#[trigger] lanes@[j]) matches Some(l) ==> walkable_lane(*map, l)),
            lanes@ == sl.subrange(0, 2 * k),
        decreases n_roads - k,
    {
        let r = if map.driving_side == DrivingSide::Left { i.roads[n_roads - 1 - k] } else { i.roads[k] };
        assert(r == rs[k as int]);
        let road = map.get_r(r);
        let (fwd, back) = sidewalks_of(map, road);
        let (in_lane, out_lane) = if road.src_i == i.id { (back, fwd) } else { (fwd, back) };
        proof {
            assert(road.id == r);
            assert(sl[2 * k] == road_slots(*map, i.id, r).0);
            assert(sl[2 * k + 1] == road_slots(*map, i.id, r).1);
        }
        lanes.push(in_lane);
        lanes.push(out_lane);
        assert(lanes@ =~= sl.subrange(0, 2 * k + 2));
        k += 1;
    }
    assert(lanes@ =~= sl);
    let n = lanes.len();
    let mut start: usize = 0;
    while start < n && lanes[start].is_none()
        invariant
            start <= n,
            n == lanes@.len(),
            forall|j: int| 0 <= j < start ==> (#[trigger] lanes@[j]) is None,
        decreases n - start,
    {
        start += 1;
    }
    let mut result: Vec<Turn> = Vec::new();
    if start == n {
        proof {
            assert forall|j: int| !first_present(sl, j) by {
                if 0 <= j < sl.len() {
                    assert(lanes@[j] is None);
                }
            }
            assert(turn_views(result@) =~= Seq::<TurnView>::empty());
        }
        return result;
    }
    let mut from: LaneID = match lanes[start] {
        Some(l) => l,
        None => return result,
    };
    proof {
        assert(first_present(sl, start as int));
        let c = choose|j: int| first_present(sl, j);
        if c < start {
            assert(lanes@[c] is None);
        } else if c > start {
            assert(sl[start as int] is None);
        }
        assert(turn_views(result@) =~= Seq::<TurnView>::empty());
    }
    let first_from = from;
    let mut adj = true;
    let mut t: u128 = 0;
    let mut done = false;
    while t + 1 < 2 * (n as u128) && !done
        invariant
            map.wf(),
            i.wf(),
            n == lanes@.len(),
            lanes@ == sl,
            sl == slots(*map, *i),
            start < n,
            first_present(sl, start as int),
            first_from == sl[start as int]->0,
            t < 2 * n,
            n <= 2 * n_roads,
            n_roads == i.roads@.len(),
            walkable_lane(*map, from),
            forall|j: int| 0 <= j < lanes@.len() ==> ((#[trigger] lanes@[j]) matches Some(l) ==> walkable_lane(*map, l)),
            forall|j: int| 0 <= j < result@.len() ==> walking_turn_ok(*map, *i, #[trigger] result@[j]),
            i.degenerate ==> at_most_one_crosswalk(result@),
            scan(*map, *i, sl, start as int, t as nat) == (from, adj, done, turn_views(result@)),
        decreases 2 * n - t,
    {
        let idx = (((start as u128) + 1 + t) % (n as u128)) as usize;
        let slot = lanes[idx];
        let ghost prev = scan(*map, *i, sl, start as int, t as nat);
        t += 1;
        proof {
            assert(idx as int == (start as int + t as int) % (sl.len() as int));
            assert(scan(*map, *i, sl, start as int, t as nat) == scan_step(*map, *i, first_from, prev, slot));
        }
        let l2 = match slot {
            None => {
                adj = false;
                continue;
            },
            Some(l) => l,
        };
        visit_sidewalk(map, i, from, adj, l2, &mut result);
        from = l2;
        adj = true;
        done = first_from == from;
    }
    proof {
        let last = (2 * sl.len() - 1) as nat;
        if done {
            lemma_scan_done(*map, *i, sl, start as int, t as nat, last);
        }
        assert(scan(*map, *i, sl, start as int, last) == scan(*map, *i, sl, start as int, t as nat));
    }
    result
}

/// A crossing over a single extremely short incident road of `i`: such a
/// crossing lies inside another intersection and is dropped.
pub open spec fn dropped(map: StreetMap, i: Intersection, t: Turn) -> bool {
    t.turn_type.crossing() && t.id.src.road == t.id.dst.road && i.roads@.contains(t.id.src.road)
        && map.road(t.id.src.road).extremely_short
}

/// Whether a crossing may keep its markings. Over a single road, that road
/// must allow a crosswalk at the end where the crossing is; over several,
/// both roads it joins must allow them at both ends.
pub open spec fn marking_allowed(map: StreetMap, t: Turn) -> bool {
    let a = map.road(t.id.src.road);
    let b = map.road(t.id.dst.road);
    if t.id.src.road == t.id.dst.road {
        if a.dst_i == t.id.parent { a.crosswalk_forward } else { a.crosswalk_backward }
    } else {
        a.crosswalk_forward && a.crosswalk_backward && b.crosswalk_forward && b.crosswalk_backward
    }
}

/// The type a turn keeps: a crossing whose markings are not allowed
/// becomes an unmarked crossing.
pub open spec fn filtered_type(map: StreetMap, t: Turn) -> TurnType {
    if t.turn_type.crossing() && !marking_allowed(map, t) {
        TurnType::UnmarkedCrossing
    } else {
        t.turn_type
    }
}

pub open spec fn with_type(t: Turn, ty: TurnType) -> Turn {
    Turn { id: t.id, turn_type: ty, geom: t.geom }
}

/// The turns of `s` that are not dropped, in order, each with its kept type.
pub open spec fn filtered(map: StreetMap, i: Intersection, s: Seq<Turn>) -> Seq<Turn>
    decreases s.len(),
{
    if s.len() == 0 {
        s
    } else {
        let rest = filtered(map, i, s.drop_last());
        let t = s.last();
        if dropped(map, i, t) {
            rest
        } else {
            rest.push(with_type(t, filtered_type(map, t)))
        }
    }
}

/// The turns' lanes lie on roads of `map`.
pub open spec fn turn_roads_known(map: StreetMap, s: Seq<Turn>) -> bool {
    forall|k: int|
        0 <= k < s.len() ==> map.has_road((#[trigger] s[k]).id.src.road) && map.has_road(s[k].id.dst.road)
}


/// Drops crossings over extremely short roads, which lie inside another
/// intersection, and downgrades crosswalks to unmarked crossings where the
/// roads they cross do not allow a marked crosswalk.
pub fn filter_turns(input: Vec<Turn>, map: &StreetMap, i: &Intersection) -> (r: Vec<Turn>)
    requires
        map.wf(),
        turn_roads_known(*map, input@),
    ensures
        r@ == filtered(*map, *i, input@),
{
    let ghost orig = input@;
    let mut input = input;
    let mut out: Vec<Turn> = Vec::new();
    let mut k: usize = 0;
    let total = input.len();
    while input.len() > 0
        invariant
            map.wf(),
            turn_roads_known(*map, orig),
            total == orig.len(),
            k + input@.len() == total,
            input@ == orig.subrange(k as int, total as int),
            out@ == filtered(*map, *i, orig.subrange(0, k as int)),
        decreases input.len(),
    {
        let t = input.remove(0);
        proof {
            assert(t == orig[k as int]);
            assert(orig.subrange(0, k + 1).drop_last() == orig.subrange(0, k as int));
            assert(input@ =~= orig.subrange(k + 1, total as int));
        }
        let src = t.id.src.road;
        let dst = t.id.dst.road;
        let crossing = t.turn_type.pedestrian_crossing();
        let drop = crossing && src == dst && contains_road(&i.roads, src) && map.get_r(src).extremely_short;
        if !drop {
            let a = map.get_r(src);
            let b = map.get_r(dst);
            let allowed = if src == dst {
                if a.dst_i == t.id.parent { a.crosswalk_forward } else { a.crosswalk_backward }
            } else {
                a.crosswalk_forward && a.crosswalk_backward && b.crosswalk_forward && b.crosswalk_backward
            };
            let ty = if crossing && !allowed { TurnType::UnmarkedCrossing } else { t.turn_type };
            out.push(Turn { id: t.id, turn_type: ty, geom: t.geom });
        }
        k += 1;
    }
    assert(orig.subrange(0, total as int) == orig);
    out
}

/// Filtering turns a second time changes nothing: the same turns are
/// dropped, and a downgraded crossing stays downgraded.
pub proof fn lemma_filter_turns_idempotent(map: StreetMap, i: Intersection, s: Seq<Turn>)
    ensures
        filtered(map, i, filtered(map, i, s)) == filtered(map, i, s),
    decreases s.len(),
{
    if s.len() > 0 {
        lemma_filter_turns_idempotent(map, i, s.drop_last());
        let rest = filtered(map, i, s.drop_last());
        let t = s.last();
        if !dropped(map, i, t) {
            let u = with_type(t, filtered_type(map, t));
            let f = rest.push(u);
            assert(f.drop_last() == rest);
            assert(f.last() == u);
            assert(!dropped(map, i, u));
            assert(filtered_type(map, u) == u.turn_type);
            assert(with_type(u, filtered_type(map, u)) == u);
        }
    }
}

/// Every crossing that comes out of the filter keeps its markings only where
/// the roads it crosses allow them: one whose road has no crosswalk allowed
/// at that end comes out as an unmarked crossing.
pub proof fn lemma_disallowed_crossings_unmarked(map: StreetMap, i: Intersection, s: Seq<Turn>)
    ensures
        forall|k: int|
            0 <= k < filtered(map, i, s).len() && (#[trigger] filtered(map, i, s)[k]).turn_type.crossing()
                && !marking_allowed(map, filtered(map, i, s)[k]) ==> filtered(map, i, s)[k].turn_type
                == TurnType::UnmarkedCrossing,
    decreases s.len(),
{
    if s.len() > 0 {
        lemma_disallowed_crossings_unmarked(map, i, s.drop_last());
        let rest = filtered(map, i, s.drop_last());
        let f = filtered(map, i, s);
        assert forall|k: int|
            0 <= k < f.len() && (#[trigger] f[k]).turn_type.crossing() && !marking_allowed(map, f[k])
                implies f[k].turn_type == TurnType::UnmarkedCrossing by {
            if k < rest.len() {
                assert(f[k] == rest[k]);
            }
        }
    }
}

/// A shared sidewalk corner between sidewalks whose ends differ runs from
/// the first sidewalk's end to the second's, whichever way it is drawn.
pub proof fn lemma_corner_joins_endpoints(polygon: Seq<Pt2D>, start: Pt2D, end: Pt2D)
    requires
        start != end,
        start.wf(),
        end.wf(),
    ensures
        corner_geom(polygon, start, end).len() >= 2,
        corner_geom(polygon, start, end)[0] == start,
        corner_geom(polygon, start, end).last() == end,
{
    if ring_valid(polygon) && on_path(polygon, start) && on_path(polygon, end) {
        crate::ring::lemma_slices_partition(polygon, start, end);
    }
}

} // verus!
