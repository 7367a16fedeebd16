use intersection_synth::geom::Pt2D;
use intersection_synth::map::{
    DirectedRoadID, Direction, DrivingSide, Intersection, IntersectionID, Movement, MovementID,
    RoadID, StreetMap, TurnType,
};
use intersection_synth::signal::{ControlTrafficSignal, Stage, StageType};
use intersection_synth::synthesis::{get_sorted_incoming_roads, make_traffic_signal, merge_stages};

const L: i64 = 100000;
const W: i64 = 10000;

fn pt(x: i64, y: i64) -> Pt2D {
    Pt2D::new(x, y)
}

fn dr(r: usize, dir: Direction) -> DirectedRoadID {
    DirectedRoadID { road: RoadID(r), dir }
}

// Roads 0..4 are north, west, south, east; each is two-way.
fn incoming(r: usize) -> Pt2D {
    match r {
        0 => pt(-W, L),
        1 => pt(-L, -W),
        2 => pt(W, -L),
        _ => pt(L, W),
    }
}

fn outgoing(r: usize) -> Pt2D {
    match r {
        0 => pt(W, L),
        1 => pt(-L, W),
        2 => pt(-W, -L),
        _ => pt(L, -W),
    }
}

fn vehicle(from: usize, to: usize, turn_type: TurnType) -> Movement {
    Movement {
        id: MovementID {
            from: dr(from, Direction::Fwd),
            to: dr(to, Direction::Back),
            crosswalk: false,
        },
        turn_type,
        geom: vec![incoming(from), outgoing(to)],
    }
}

fn crossing(road: usize, a: Pt2D, b: Pt2D) -> Movement {
    Movement {
        id: MovementID {
            from: dr(road, Direction::Fwd),
            to: dr(road, Direction::Back),
            crosswalk: true,
        },
        turn_type: TurnType::Crosswalk,
        geom: vec![a, b],
    }
}

fn empty_map() -> StreetMap {
    StreetMap { roads: Vec::new(), driving_side: DrivingSide::Right }
}

fn four_way(with_crossings: bool) -> Intersection {
    let mut movements = Vec::new();
    for from in 0..4 {
        movements.push(vehicle(from, (from + 2) % 4, TurnType::Straight));
        movements.push(vehicle(from, (from + 1) % 4, TurnType::Right));
        movements.push(vehicle(from, (from + 3) % 4, TurnType::Left));
    }
    if with_crossings {
        movements.push(crossing(0, pt(-2 * W, L - W), pt(2 * W, L - W)));
        movements.push(crossing(2, pt(-2 * W, -L + W), pt(2 * W, -L + W)));
    }
    Intersection {
        id: IntersectionID(7),
        roads: vec![RoadID(0), RoadID(1), RoadID(2), RoadID(3)],
        movements,
        polygon: vec![pt(-L, -L), pt(L, -L), pt(L, L), pt(-L, L), pt(-L, -L)],
        degenerate: false,
    }
}

fn id(from: usize, to: usize) -> MovementID {
    MovementID { from: dr(from, Direction::Fwd), to: dr(to, Direction::Back), crosswalk: false }
}

fn protected_everything_once(i: &Intersection, ts: &ControlTrafficSignal) {
    for m in &i.movements {
        assert!(ts.stages.iter().any(|s| s.protected_movements.contains(&m.id)));
    }
    for s in &ts.stages {
        assert!(!s.protected_movements.is_empty());
    }
}

#[test]
fn four_way_uses_the_four_stage_template() {
    let i = four_way(false);
    let ts = make_traffic_signal(&empty_map(), &i).unwrap();
    assert_eq!(ts.id, IntersectionID(7));
    assert_eq!(ts.stages.len(), 4);
    let first = &ts.stages[0];
    for m in [id(0, 2), id(2, 0), id(0, 1), id(2, 3)] {
        assert!(first.protected_movements.contains(&m));
    }
    assert_eq!(first.protected_movements.len(), 4);
    for m in [id(0, 3), id(2, 1)] {
        assert!(first.yield_movements.contains(&m));
    }
    let second = &ts.stages[1];
    assert_eq!(second.protected_movements.len(), 2);
    assert!(second.protected_movements.contains(&id(0, 3)));
    assert!(second.protected_movements.contains(&id(2, 1)));
    protected_everything_once(&i, &ts);
}

#[test]
fn lagging_left_stages_become_variable() {
    let ts = make_traffic_signal(&empty_map(), &four_way(false)).unwrap();
    assert_eq!(ts.stages[0].stage_type, StageType::Fixed(30000));
    assert_eq!(ts.stages[1].stage_type, StageType::Variable(0, 10000, 20000));
    assert_eq!(ts.stages[2].stage_type, StageType::Fixed(30000));
    assert_eq!(ts.stages[3].stage_type, StageType::Variable(0, 10000, 20000));
}

#[test]
fn crossings_merge_into_a_stage_with_walk_time() {
    let i = four_way(true);
    let ts = make_traffic_signal(&empty_map(), &i).unwrap();
    protected_everything_once(&i, &ts);
    // Crossings conflict with nothing, so the all-walk stage folds into the
    // first vehicle stage.
    assert_eq!(ts.stages.len(), 4);
    let first = &ts.stages[0];
    assert_eq!(first.protected_movements.iter().filter(|m| m.crosswalk).count(), 2);
    assert!(first.protected_movements.contains(&id(0, 2)));
    // 4 m at 1.4 m/s rounds up to 3 s, below the 15 s minimum.
    assert_eq!(first.stage_type, StageType::Variable(15000, 1000, 1000));
    assert_eq!(ts.stages[1].stage_type, StageType::Fixed(30000));
}

#[test]
fn plans_never_protect_conflicting_movements() {
    let i = four_way(true);
    let ts = make_traffic_signal(&empty_map(), &i).unwrap();
    // North-south straight and east-west straight cross in the middle.
    for s in &ts.stages {
        let ns = s.protected_movements.contains(&id(0, 2));
        let ew = s.protected_movements.contains(&id(1, 3));
        assert!(!(ns && ew));
    }
}

#[test]
fn three_roads_with_one_way_fall_back_to_a_valid_plan() {
    // Road 3 only receives traffic; roads 0, 1 and 2 feed it and each other.
    let movements = vec![
        vehicle(0, 2, TurnType::Straight),
        vehicle(2, 0, TurnType::Straight),
        vehicle(0, 3, TurnType::Left),
        vehicle(1, 3, TurnType::Straight),
        vehicle(1, 0, TurnType::Right),
        vehicle(2, 3, TurnType::Right),
        vehicle(0, 1, TurnType::UTurn),
    ];
    let i = Intersection {
        id: IntersectionID(3),
        roads: vec![RoadID(0), RoadID(1), RoadID(2), RoadID(3)],
        movements,
        polygon: vec![pt(-L, -L), pt(L, -L), pt(L, L), pt(-L, -L)],
        degenerate: false,
    };
    assert_eq!(get_sorted_incoming_roads(&i), vec![RoadID(0), RoadID(1), RoadID(2)]);
    let ts = make_traffic_signal(&empty_map(), &i).unwrap();
    protected_everything_once(&i, &ts);
}

#[test]
fn left_hand_driving_still_gives_a_valid_plan() {
    let i = four_way(true);
    let map = StreetMap { roads: Vec::new(), driving_side: DrivingSide::Left };
    let ts = make_traffic_signal(&map, &i).unwrap();
    protected_everything_once(&i, &ts);
}

#[test]
fn merging_shrinks_a_plan_and_keeps_it_valid() {
    let i = Intersection {
        id: IntersectionID(1),
        roads: vec![RoadID(0), RoadID(2)],
        movements: vec![vehicle(0, 2, TurnType::Straight), vehicle(2, 0, TurnType::Straight)],
        polygon: vec![pt(-L, -L), pt(L, -L), pt(L, L), pt(-L, -L)],
        degenerate: true,
    };
    let mut a = Stage::new();
    a.protected_movements.push(id(0, 2));
    let mut b = Stage::new();
    b.protected_movements.push(id(2, 0));
    let ts = ControlTrafficSignal { id: IntersectionID(1), stages: vec![a, b] };
    assert!(ts.validate(&i));
    let merged = merge_stages(&ts, &i).unwrap();
    assert_eq!(merged.stages.len(), 1);
    assert!(merged.validate(&i));
    assert_eq!(merged.stages[0].protected_movements.len(), 2);
    assert!(merge_stages(&merged, &i).is_none());
}

#[test]
fn validation_rejects_conflicts_gaps_and_empty_stages() {
    let i = four_way(false);
    let mut bad = Stage::new();
    bad.protected_movements.push(id(0, 2));
    bad.protected_movements.push(id(1, 3));
    let ts = ControlTrafficSignal { id: i.id, stages: vec![bad] };
    assert!(!ts.validate(&i));
    let ts = ControlTrafficSignal { id: i.id, stages: vec![Stage::new()] };
    assert!(!ts.validate(&i));
    let ts = ControlTrafficSignal::new(i.id);
    assert!(!ts.validate(&i));
}

#[test]
fn t_intersection_uses_the_three_stage_template() {
    // Roads 0 and 2 form the through road; road 1 is the minor approach.
    let movements = vec![
        vehicle(0, 2, TurnType::Straight),
        vehicle(2, 0, TurnType::Straight),
        vehicle(0, 1, TurnType::Right),
        vehicle(2, 1, TurnType::Left),
        vehicle(1, 2, TurnType::Right),
        vehicle(1, 0, TurnType::Left),
    ];
    let i = Intersection {
        id: IntersectionID(9),
        roads: vec![RoadID(0), RoadID(1), RoadID(2)],
        movements,
        polygon: vec![pt(-L, -L), pt(L, -L), pt(L, L), pt(-L, -L)],
        degenerate: false,
    };
    let ts = make_traffic_signal(&empty_map(), &i).unwrap();
    assert_eq!(ts.stages.len(), 3);
    let s0 = &ts.stages[0];
    assert_eq!(s0.protected_movements.len(), 3);
    for m in [id(0, 2), id(2, 0), id(0, 1)] {
        assert!(s0.protected_movements.contains(&m));
    }
    assert_eq!(s0.yield_movements.len(), 2);
    assert!(s0.yield_movements.contains(&id(2, 1)));
    assert!(s0.yield_movements.contains(&id(1, 2)));
    assert_eq!(ts.stages[1].protected_movements, vec![id(2, 1)]);
    assert_eq!(ts.stages[1].stage_type, StageType::Variable(0, 10000, 20000));
    let s2 = &ts.stages[2];
    assert_eq!(s2.protected_movements.len(), 2);
    assert!(s2.protected_movements.contains(&id(1, 2)));
    assert!(s2.protected_movements.contains(&id(1, 0)));
    assert_eq!(s2.stage_type, StageType::Fixed(30000));
    protected_everything_once(&i, &ts);
}

#[test]
fn intersection_without_movements_gets_an_empty_plan() {
    let i = Intersection {
        id: IntersectionID(2),
        roads: vec![RoadID(0), RoadID(1)],
        movements: Vec::new(),
        polygon: Vec::new(),
        degenerate: true,
    };
    let ts = make_traffic_signal(&empty_map(), &i).unwrap();
    assert!(ts.stages.is_empty());
    assert!(ts.validate(&i));
}

#[test]
fn crossings_only_get_one_all_walk_stage() {
    let i = Intersection {
        id: IntersectionID(4),
        roads: vec![RoadID(0), RoadID(2)],
        movements: vec![
            crossing(0, pt(-2 * W, L - W), pt(2 * W, L - W)),
            crossing(2, pt(-2 * W, -L + W), pt(2 * W, -L + W)),
        ],
        polygon: Vec::new(),
        degenerate: false,
    };
    let ts = make_traffic_signal(&empty_map(), &i).unwrap();
    assert_eq!(ts.stages.len(), 1);
    assert_eq!(ts.stages[0].protected_movements.len(), 2);
    assert_eq!(ts.stages[0].stage_type, StageType::Variable(15000, 1000, 1000));
}
