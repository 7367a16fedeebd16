use intersection_synth::geom::Pt2D;
use intersection_synth::map::{
    Direction, DrivingSide, Intersection, IntersectionID, Lane, LaneID, LaneType, Road, RoadID,
    StreetMap, TurnType,
};
use intersection_synth::walking::{filter_turns, make_walking_turns, Turn, TurnID};

const HERE: IntersectionID = IntersectionID(0);

fn pt(x: i64, y: i64) -> Pt2D {
    Pt2D::new(x, y)
}

fn lane(road: usize, offset: usize, lane_type: LaneType, dir: Direction, y: i64, west: bool) -> Lane {
    let center = if west {
        vec![pt(-200000, y), pt(-50000, y)]
    } else {
        vec![pt(50000, y), pt(200000, y)]
    };
    Lane { id: LaneID { road: RoadID(road), offset }, lane_type, dir, width: 20000, center }
}

// Road 0 comes in from the west and ends here; road 1 starts here and goes
// east. Each has a driving lane plus the sidewalks asked for.
fn road(id: usize, sidewalk_fwd: bool, sidewalk_back: bool) -> Road {
    let west = id == 0;
    let mut lanes = vec![lane(id, 0, LaneType::Driving, Direction::Fwd, -10000, west)];
    if sidewalk_fwd {
        let o = lanes.len();
        lanes.push(lane(id, o, LaneType::Sidewalk, Direction::Fwd, -30000, west));
    }
    if sidewalk_back {
        let o = lanes.len();
        lanes.push(lane(id, o, LaneType::Sidewalk, Direction::Back, 30000, west));
    }
    let (src_i, dst_i) = if west { (IntersectionID(1), HERE) } else { (HERE, IntersectionID(2)) };
    Road {
        id: RoadID(id),
        lanes,
        src_i,
        dst_i,
        crosswalk_forward: true,
        crosswalk_backward: true,
        extremely_short: false,
    }
}

fn intersection(degenerate: bool) -> Intersection {
    Intersection {
        id: HERE,
        roads: vec![RoadID(0), RoadID(1)],
        movements: Vec::new(),
        polygon: vec![
            pt(-50000, -40000),
            pt(50000, -40000),
            pt(50000, 40000),
            pt(-50000, 40000),
            pt(-50000, -40000),
        ],
        degenerate,
    }
}

fn map(roads: Vec<Road>) -> StreetMap {
    StreetMap { roads, driving_side: DrivingSide::Right }
}

#[test]
fn one_sidewalk_gives_no_turns() {
    let m = map(vec![road(0, true, false), road(1, false, false)]);
    assert!(make_walking_turns(&m, &intersection(false)).is_empty());
}

#[test]
fn no_sidewalks_give_no_turns() {
    let m = map(vec![road(0, false, false), road(1, false, false)]);
    assert!(make_walking_turns(&m, &intersection(false)).is_empty());
}

#[test]
fn adjacent_sidewalks_share_one_corner() {
    // Road 0's sidewalk leads out of the intersection, road 1's leads in:
    // the two slots sit next to each other.
    let m = map(vec![road(0, false, true), road(1, false, true)]);
    let turns = make_walking_turns(&m, &intersection(false));
    let corners: Vec<&Turn> =
        turns.iter().filter(|t| t.turn_type == TurnType::SharedSidewalkCorner).collect();
    assert_eq!(corners.len(), 1);
    let c = corners[0];
    assert_eq!(c.id.src, LaneID { road: RoadID(0), offset: 1 });
    assert_eq!(c.id.dst, LaneID { road: RoadID(1), offset: 1 });
    let pts = c.geom.points();
    assert_eq!(pts[0], pt(-50000, 30000));
    assert_eq!(pts[pts.len() - 1], pt(50000, 30000));
}

#[test]
fn corner_follows_the_intersection_boundary() {
    let m = map(vec![road(0, false, true), road(1, false, true)]);
    let mut i = intersection(false);
    i.polygon = vec![
        pt(-50000, -30000),
        pt(50000, -30000),
        pt(50000, 30000),
        pt(0, 35000),
        pt(-50000, 30000),
        pt(-50000, -30000),
    ];
    let turns = make_walking_turns(&m, &i);
    let c = turns.iter().find(|t| t.turn_type == TurnType::SharedSidewalkCorner).unwrap();
    assert_eq!(
        c.geom.points(),
        &vec![pt(-50000, 30000), pt(0, 35000), pt(50000, 30000)]
    );
}

#[test]
fn gap_gives_a_crosswalk_that_juts_out() {
    let m = map(vec![road(0, true, true), road(1, false, false)]);
    let turns = make_walking_turns(&m, &intersection(false));
    let cw: Vec<&Turn> = turns.iter().filter(|t| t.turn_type == TurnType::Crosswalk).collect();
    assert!(!cw.is_empty());
    let t = cw[0];
    assert_eq!(t.id.parent, HERE);
    // Out half a sidewalk width (1 m) past each sidewalk's end, then across.
    assert_eq!(
        t.geom.points(),
        &vec![pt(-50000, -30000), pt(-40000, -30000), pt(-40000, 30000), pt(-50000, 30000)]
    );
}

#[test]
fn pass_through_intersection_gets_one_crosswalk() {
    let m = map(vec![road(0, true, true), road(1, true, true)]);
    let turns = make_walking_turns(&m, &intersection(true));
    let n = turns.iter().filter(|t| t.turn_type == TurnType::Crosswalk).count();
    assert_eq!(n, 1);
    let turns = make_walking_turns(&m, &intersection(false));
    let n = turns.iter().filter(|t| t.turn_type == TurnType::Crosswalk).count();
    assert_eq!(n, 2);
}

#[test]
fn degenerate_crosswalk_juts_a_fixed_distance() {
    let m = map(vec![road(0, true, true), road(1, false, false)]);
    let turns = make_walking_turns(&m, &intersection(true));
    let t = turns.iter().find(|t| t.turn_type == TurnType::Crosswalk).unwrap();
    assert_eq!(t.geom.points()[1], pt(-25000, -30000));
}

fn crossing(src: LaneID, dst: LaneID) -> Turn {
    Turn {
        id: TurnID { parent: HERE, src, dst },
        turn_type: TurnType::Crosswalk,
        geom: intersection_synth::geom::PolyLine::must_new(vec![pt(0, -30000), pt(0, 30000)]),
    }
}

#[test]
fn crosswalk_on_road_without_marking_is_downgraded() {
    let mut r0 = road(0, true, true);
    r0.crosswalk_forward = false;
    let m = map(vec![r0, road(1, false, false)]);
    let i = intersection(false);
    let a = LaneID { road: RoadID(0), offset: 1 };
    let b = LaneID { road: RoadID(0), offset: 2 };
    let out = filter_turns(vec![crossing(a, b)], &m, &i);
    assert_eq!(out.len(), 1);
    assert_eq!(out[0].turn_type, TurnType::UnmarkedCrossing);
    let again = filter_turns(out, &m, &i);
    assert_eq!(again.len(), 1);
    assert_eq!(again[0].turn_type, TurnType::UnmarkedCrossing);
}

#[test]
fn marking_at_the_other_end_does_not_matter() {
    let mut r0 = road(0, true, true);
    r0.crosswalk_backward = false;
    let m = map(vec![r0, road(1, false, false)]);
    let a = LaneID { road: RoadID(0), offset: 1 };
    let b = LaneID { road: RoadID(0), offset: 2 };
    let out = filter_turns(vec![crossing(a, b)], &m, &intersection(false));
    assert_eq!(out[0].turn_type, TurnType::Crosswalk);
}

#[test]
fn crossing_over_several_roads_needs_markings_everywhere() {
    let mut r1 = road(1, true, true);
    r1.crosswalk_backward = false;
    let m = map(vec![road(0, true, true), r1]);
    let a = LaneID { road: RoadID(0), offset: 1 };
    let b = LaneID { road: RoadID(1), offset: 1 };
    let out = filter_turns(vec![crossing(a, b)], &m, &intersection(false));
    assert_eq!(out[0].turn_type, TurnType::UnmarkedCrossing);
}

#[test]
fn crossings_over_extremely_short_roads_are_dropped() {
    let mut r0 = road(0, true, true);
    r0.extremely_short = true;
    let m = map(vec![r0, road(1, true, true)]);
    let a = LaneID { road: RoadID(0), offset: 1 };
    let b = LaneID { road: RoadID(0), offset: 2 };
    let c = LaneID { road: RoadID(1), offset: 1 };
    let out = filter_turns(vec![crossing(a, b), crossing(a, c)], &m, &intersection(false));
    assert_eq!(out.len(), 1);
    assert_eq!(out[0].id.dst, c);
}
