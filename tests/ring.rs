use intersection_synth::geom::{PolyLine, PolyLineError, Pt2D};
use intersection_synth::ring::{Ring, RingError};

fn pt(x: i64, y: i64) -> Pt2D {
    Pt2D::new(x, y)
}

fn square() -> Ring {
    Ring::new(vec![pt(0, 0), pt(10, 0), pt(10, 10), pt(0, 10), pt(0, 0)]).unwrap()
}

#[test]
fn ring_rejects_too_few_points() {
    assert_eq!(Ring::new(vec![pt(0, 0), pt(0, 0)]).unwrap_err(), RingError::TooFewPoints);
}

#[test]
fn ring_rejects_mismatched_ends() {
    let r = Ring::new(vec![pt(0, 0), pt(1, 0), pt(1, 1)]);
    assert_eq!(r.unwrap_err(), RingError::MismatchedEnds);
}

#[test]
fn ring_rejects_adjacent_duplicates() {
    let r = Ring::new(vec![pt(0, 0), pt(1, 0), pt(1, 0), pt(1, 1), pt(0, 0)]);
    assert_eq!(r.unwrap_err(), RingError::DuplicateAdjacent);
}

#[test]
fn ring_rejects_repeated_points() {
    let r = Ring::new(vec![pt(0, 0), pt(1, 0), pt(1, 1), pt(1, 0), pt(0, 1), pt(0, 0)]);
    assert_eq!(r.unwrap_err(), RingError::RepeatedPoint);
}

#[test]
fn ring_keeps_its_points() {
    let r = square();
    assert_eq!(r.points().len(), 5);
    assert_eq!(r.into_points()[2], pt(10, 10));
}

#[test]
fn ring_contains_points_on_edges_only() {
    let r = square();
    assert!(r.contains_pt(pt(5, 0)));
    assert!(r.contains_pt(pt(10, 10)));
    assert!(r.contains_pt(pt(0, 7)));
    assert!(!r.contains_pt(pt(5, 5)));
    assert!(!r.contains_pt(pt(11, 0)));
}

#[test]
fn both_slices_are_oriented_and_partition_the_ring() {
    let r = square();
    let (c1, c2) = r.get_both_slices_between(pt(5, 0), pt(5, 10)).unwrap();
    assert_eq!(c1.points(), &vec![pt(5, 0), pt(10, 0), pt(10, 10), pt(5, 10)]);
    assert_eq!(c2.points(), &vec![pt(5, 0), pt(0, 0), pt(0, 10), pt(5, 10)]);
    // Every ring vertex lies strictly inside exactly one slice.
    for v in [pt(10, 0), pt(10, 10), pt(0, 10), pt(0, 0)] {
        let in1 = c1.points()[1..c1.points().len() - 1].contains(&v);
        let in2 = c2.points()[1..c2.points().len() - 1].contains(&v);
        assert!(in1 != in2);
    }
}

#[test]
fn both_slices_swap_when_the_second_point_comes_first() {
    let r = square();
    let (c1, c2) = r.get_both_slices_between(pt(5, 10), pt(5, 0)).unwrap();
    assert_eq!(c1.points(), &vec![pt(5, 10), pt(10, 10), pt(10, 0), pt(5, 0)]);
    assert_eq!(c2.points(), &vec![pt(5, 10), pt(0, 10), pt(0, 0), pt(5, 0)]);
}

#[test]
fn slices_need_two_different_points_on_the_ring() {
    let r = square();
    assert!(r.get_both_slices_between(pt(5, 0), pt(5, 0)).is_none());
    assert!(r.get_both_slices_between(pt(5, 0), pt(5, 5)).is_none());
    assert!(r.get_shorter_slice_between(pt(5, 5), pt(5, 0)).is_none());
}

#[test]
fn shorter_slice_is_not_longer_than_the_other() {
    let r = square();
    let short = r.get_shorter_slice_between(pt(2, 0), pt(10, 3)).unwrap();
    assert_eq!(short.points(), &vec![pt(2, 0), pt(10, 0), pt(10, 3)]);
    assert_eq!(short.length(), 11);
    let long = r.get_slice_between(pt(2, 0), pt(10, 3), true).unwrap();
    assert_eq!(long.points(), &vec![pt(2, 0), pt(0, 0), pt(0, 10), pt(10, 10), pt(10, 3)]);
    assert_eq!(long.length(), 29);
    assert!(short.length() <= long.length());
}

#[test]
fn shorter_slice_ties_take_the_first_way() {
    let r = square();
    let s = r.get_shorter_slice_between(pt(5, 0), pt(5, 10)).unwrap();
    assert_eq!(s.points(), &vec![pt(5, 0), pt(10, 0), pt(10, 10), pt(5, 10)]);
}

#[test]
fn slice_between_vertices_drops_duplicate_ends() {
    let r = square();
    let (c1, c2) = r.get_both_slices_between(pt(10, 0), pt(0, 10)).unwrap();
    assert_eq!(c1.points(), &vec![pt(10, 0), pt(10, 10), pt(0, 10)]);
    assert_eq!(c2.points(), &vec![pt(10, 0), pt(0, 0), pt(0, 10)]);
}

#[test]
fn polyline_checks_and_dedupes() {
    assert_eq!(PolyLine::new(vec![pt(0, 0)]).unwrap_err(), PolyLineError::TooFewPoints);
    assert_eq!(
        PolyLine::new(vec![pt(0, 0), pt(0, 0), pt(1, 0)]).unwrap_err(),
        PolyLineError::DuplicateAdjacent
    );
    let d = PolyLine::deduping_new(vec![pt(0, 0), pt(0, 0), pt(3, 4), pt(3, 4)]).unwrap();
    assert_eq!(d.points(), &vec![pt(0, 0), pt(3, 4)]);
    assert_eq!(d.length(), 5);
    assert_eq!(d.reversed().points(), &vec![pt(3, 4), pt(0, 0)]);
    assert!(PolyLine::deduping_new(vec![pt(1, 1), pt(1, 1)]).is_err());
}

#[test]
fn all_intersections_lists_each_crossing_once() {
    let r = square();
    let pl = PolyLine::new(vec![pt(-5, 5), pt(15, 5)]).unwrap();
    assert_eq!(r.all_intersections(&pl), vec![pt(10, 5), pt(0, 5)]);
}

#[test]
fn all_intersections_rounds_toward_the_segment_start() {
    let r = square();
    // Crosses x = 10 at y = 6 2/3.
    let pl = PolyLine::new(vec![pt(4, 4), pt(13, 8)]).unwrap();
    assert_eq!(r.all_intersections(&pl), vec![pt(10, 6)]);
    let pl = PolyLine::new(vec![pt(13, 8), pt(4, 4)]).unwrap();
    assert_eq!(r.all_intersections(&pl), vec![pt(10, 7)]);
}

#[test]
fn all_intersections_ignores_touching_and_overlap() {
    let r = square();
    let along = PolyLine::new(vec![pt(-5, 0), pt(15, 0)]).unwrap();
    assert!(r.all_intersections(&along).is_empty());
    let inside = PolyLine::new(vec![pt(2, 2), pt(8, 8)]).unwrap();
    assert!(r.all_intersections(&inside).is_empty());
}

#[test]
fn split_points_separates_loops_from_paths() {
    let pts = vec![pt(0, 0), pt(5, 0), pt(5, 5), pt(0, 0), pt(-5, 0)];
    let (pls, rings) = Ring::split_points(&pts).unwrap();
    assert_eq!(pls.len(), 1);
    assert_eq!(pls[0].points(), &vec![pt(0, 0), pt(-5, 0)]);
    assert_eq!(rings.len(), 1);
    assert_eq!(rings[0].points(), &vec![pt(0, 0), pt(5, 0), pt(5, 5), pt(0, 0)]);
}

#[test]
fn split_points_of_a_plain_path_is_the_path() {
    let pts = vec![pt(0, 0), pt(5, 0), pt(5, 5)];
    let (pls, rings) = Ring::split_points(&pts).unwrap();
    assert!(rings.is_empty());
    assert_eq!(pls.len(), 1);
    assert_eq!(pls[0].points(), &pts);
}

#[test]
fn split_points_fails_on_a_bad_run() {
    let pts = vec![pt(0, 0), pt(0, 0), pt(5, 5)];
    assert_eq!(
        Ring::split_points(&pts).unwrap_err(),
        intersection_synth::ring::SplitError::PolyLine(PolyLineError::DuplicateAdjacent)
    );
}

#[test]
fn translate_moves_every_point() {
    let r = square().translate(3, -2);
    assert_eq!(r.points(), &vec![pt(3, -2), pt(13, -2), pt(13, 8), pt(3, 8), pt(3, -2)]);
}

#[test]
fn split_points_of_nothing_is_nothing() {
    let (pls, rings) = Ring::split_points(&Vec::new()).unwrap();
    assert!(pls.is_empty() && rings.is_empty());
}
