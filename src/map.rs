//! The read-only intersection topology that synthesis consumes: roads, lanes,
//! movements and intersections.
use vstd::prelude::*;

use crate::geom::{no_adjacent_dupes, pts_wf, Pt2D};

verus! {

/// Index of a road in `Map::roads`.
#[derive(Clone, Copy, Debug, PartialEq, Eq, Structural, PartialOrd, Ord, Hash)]
pub struct RoadID(pub usize);

#[derive(Clone, Copy, Debug, PartialEq, Eq, Structural, PartialOrd, Ord, Hash)]
pub struct IntersectionID(pub u64);

/// Travel direction of a lane relative to its road.
#[derive(Clone, Copy, Debug, PartialEq, Eq, Structural, PartialOrd, Ord, Hash)]
pub enum Direction {
    Fwd,
    Back,
}

#[derive(Clone, Copy, Debug, PartialEq, Eq, Structural, PartialOrd, Ord, Hash)]
pub struct DirectedRoadID {
    pub road: RoadID,
    pub dir: Direction,
}

/// A lane: the road that owns it and its position in that road's lane list.
#[derive(Clone, Copy, Debug, PartialEq, Eq, Structural, PartialOrd, Ord, Hash)]
pub struct LaneID {
    pub road: RoadID,
    pub offset: usize,
}

#[derive(Clone, Copy, Debug, PartialEq, Eq, Structural)]
pub enum LaneType {
    Driving,
    Parking,
    Sidewalk,
    Shoulder,
    Biking,
    Bus,
    Footway,
}

impl LaneType {
    pub open spec fn walkable(self) -> bool {
        self is Sidewalk || self is Shoulder || self is Footway
    }

    /// Whether pedestrians may use a lane of this type.
    pub fn is_walkable(&self) -> (r: bool)
        ensures
            r == self.walkable(),
    {
        match self {
            LaneType::Sidewalk | LaneType::Shoulder | LaneType::Footway => true,
            _ => false,
        }
    }
}

#[derive(Clone, Copy, Debug, PartialEq, Eq, Structural)]
pub enum DrivingSide {
    Right,
    Left,
}

#[derive(Clone, Copy, Debug, PartialEq, Eq, Structural)]
pub enum TurnType {
    Crosswalk,
    SharedSidewalkCorner,
    UnmarkedCrossing,
    Straight,
    Right,
    Left,
    UTurn,
}

impl TurnType {
    pub open spec fn crossing(self) -> bool {
        self is Crosswalk || self is UnmarkedCrossing
    }

    /// Whether this turn crosses a road on foot.
    pub fn pedestrian_crossing(&self) -> (r: bool)
        ensures
            r == self.crossing(),
    {
        match self {
            TurnType::Crosswalk | TurnType::UnmarkedCrossing => true,
            _ => false,
        }
    }
}

/// A movement: from one approach to another, or across a road on foot.
#[derive(Clone, Copy, Debug, PartialEq, Eq, Structural, PartialOrd, Ord, Hash)]
pub struct MovementID {
    pub from: DirectedRoadID,
    pub to: DirectedRoadID,
    pub crosswalk: bool,
}

/// A legal path through an intersection, with the centerline used for
/// conflict tests.
#[derive(Clone, Debug)]
pub struct Movement {
    pub id: MovementID,
    pub turn_type: TurnType,
    pub geom: Vec<Pt2D>,
}

/// An intersection: its incident roads in counter-clockwise order, its
/// movement table, its boundary and whether it is a plain pass-through.
#[derive(Clone, Debug)]
pub struct Intersection {
    pub id: IntersectionID,
    pub roads: Vec<RoadID>,
    pub movements: Vec<Movement>,
    pub polygon: Vec<Pt2D>,
    pub degenerate: bool,
}

impl Intersection {
    /// Movement identifiers are unique, geometry is in range, and every
    /// vehicle movement leaves from an incident road.
    pub open spec fn wf(&self) -> bool {
        &&& forall|a: int, b: int|
            0 <= a < b < self.movements@.len() ==> (#[trigger] self.movements@[a]).id
                != (#[trigger] self.movements@[b]).id
        &&& forall|a: int|
            0 <= a < self.movements@.len() ==> pts_wf((#[trigger] self.movements@[a]).geom@)
        &&& forall|a: int|
            0 <= a < self.movements@.len() && !(#[trigger] self.movements@[a]).id.crosswalk
                ==> self.roads@.contains(self.movements@[a].id.from.road)
        &&& pts_wf(self.polygon@)
    }

    /// `m` is a movement of this intersection.
    pub open spec fn has_movement(&self, m: MovementID) -> bool {
        exists|a: int| 0 <= a < self.movements@.len() && (#[trigger] self.movements@[a]).id == m
    }

    pub fn is_degenerate(&self) -> (r: bool)
        ensures
            r == self.degenerate,
    {
        self.degenerate
    }

    /// Where `m` stands in the movement table, if it is there.
    pub fn movement_index(&self, m: &MovementID) -> (r: Option<usize>)
        ensures
            match r {
                Some(k) => k < self.movements@.len() && self.movements@[k as int].id == *m,
                None => !self.has_movement(*m),
            },
    {
        let mut k: usize = 0;
        while k < self.movements.len()
            invariant
                forall|a: int| 0 <= a < k ==> (#[trigger] self.movements@[a]).id != *m,
            decreases self.movements.len() - k,
        {
            if self.movements[k].id == *m {
                return Some(k);
            }
            k += 1;
        }
        None
    }
}

/// Largest lane width, in tenths of a millimetre.
pub const MAX_LANE_WIDTH: u64 = 1000000;

/// A lane, with its center line running in the direction of its road.
#[derive(Clone, Debug)]
pub struct Lane {
    pub id: LaneID,
    pub lane_type: LaneType,
    pub dir: Direction,
    pub width: u64,
    pub center: Vec<Pt2D>,
}

/// A road from `src_i` to `dst_i`. `crosswalk_forward` says whether a
/// crosswalk may be marked at its `dst_i` end, `crosswalk_backward` at its
/// `src_i` end.
#[derive(Clone, Debug)]
pub struct Road {
    pub id: RoadID,
    pub lanes: Vec<Lane>,
    pub src_i: IntersectionID,
    pub dst_i: IntersectionID,
    pub crosswalk_forward: bool,
    pub crosswalk_backward: bool,
    pub extremely_short: bool,
}

/// The roads of a map, each at the index of its identifier.
#[derive(Clone, Debug)]
pub struct StreetMap {
    pub roads: Vec<Road>,
    pub driving_side: DrivingSide,
}

impl Lane {
    pub open spec fn wf(&self) -> bool {
        &&& self.center@.len() >= 2
        &&& pts_wf(self.center@)
        &&& no_adjacent_dupes(self.center@)
        &&& forall|k: int| 0 <= k < self.center@.len() ==> (#[trigger] self.center@[k]).inner()
        &&& self.width <= MAX_LANE_WIDTH
    }
}

impl StreetMap {
    /// Every road sits at its own index, every lane at its own offset, and
    /// every lane is well formed.
    pub open spec fn wf(&self) -> bool {
        &&& forall|k: int| 0 <= k < self.roads@.len() ==> (#[trigger] self.roads@[k]).id.0 == k
        &&& forall|k: int, o: int|
            0 <= k < self.roads@.len() && 0 <= o < self.roads@[k].lanes@.len() ==> (
            #[trigger] self.roads@[k].lanes@[o]).id == (LaneID { road: RoadID(k as usize), offset: o as usize })
        &&& forall|k: int, o: int|
            0 <= k < self.roads@.len() && 0 <= o < self.roads@[k].lanes@.len() ==> (
            #[trigger] self.roads@[k].lanes@[o]).wf()
    }

    pub open spec fn has_road(&self, r: RoadID) -> bool {
        r.0 < self.roads@.len()
    }

    pub open spec fn has_lane(&self, l: LaneID) -> bool {
        l.road.0 < self.roads@.len() && l.offset < self.roads@[l.road.0 as int].lanes@.len()
    }

    pub open spec fn road(&self, r: RoadID) -> Road {
        self.roads@[r.0 as int]
    }

    pub open spec fn lane(&self, l: LaneID) -> Lane {
        self.roads@[l.road.0 as int].lanes@[l.offset as int]
    }

    /// The road `r`.
    pub fn get_r(&self, r: RoadID) -> (out: &Road)
        requires
            self.has_road(r),
        ensures
            *out == self.road(r),
    {
        &self.roads[r.0]
    }

    /// The lane `l`.
    pub fn get_l(&self, l: LaneID) -> (out: &Lane)
        requires
            self.has_lane(l),
        ensures
            *out == self.lane(l),
    {
        &self.roads[l.road.0].lanes[l.offset]
    }
}

/// Whether `v` holds road `r`.
pub fn contains_road(v: &Vec<RoadID>, r: RoadID) -> (b: bool)
    ensures
        b == v@.contains(r),
{
    let mut k: usize = 0;
    while k < v.len()
        invariant
            forall|j: int| 0 <= j < k ==> v@[j] != r,
        decreases v.len() - k,
    {
        if v[k] == r {
            return true;
        }
        k += 1;
    }
    false
}

} // verus!
