use geometer::line_segment::LineSegment;
use geometer::vertex::{Vertex, VertexId};

fn v(id: u32, x: i32, y: i32) -> Vertex {
    Vertex::new(VertexId::from(id), x, y)
}

fn seg(a: Vertex, b: Vertex) -> LineSegment {
    LineSegment::from_vertices(&a, &b)
}

#[test]
fn line_segment_test_proper_intersect() {
    let ab = seg(v(0, 6, 4), v(1, 0, 4));
    let cd = seg(v(2, 1, 0), v(3, 4, 6));

    assert!(ab.proper_intersects(&cd));
    assert!(cd.proper_intersects(&ab));
    assert!(!ab.improper_intersects(&cd));
    assert!(!cd.improper_intersects(&ab));
    assert!(ab.intersects(&cd));
    assert!(cd.intersects(&ab));
}

#[test]
fn line_segment_test_improper_intersect() {
    let ab = seg(v(0, 6, 6), v(1, 0, 6));
    let cd = seg(v(2, 1, 0), v(3, 4, 6));

    assert!(!ab.proper_intersects(&cd));
    assert!(!cd.proper_intersects(&ab));
    assert!(ab.improper_intersects(&cd));
    assert!(cd.improper_intersects(&ab));
    assert!(ab.intersects(&cd));
    assert!(cd.intersects(&ab));
}

#[test]
fn line_segment_test_no_intersect() {
    let ab = seg(v(0, 6, 4), v(1, 4, 4));
    let cd = seg(v(2, 1, 0), v(3, 4, 6));

    assert!(!ab.proper_intersects(&cd));
    assert!(!cd.proper_intersects(&ab));
    assert!(!ab.improper_intersects(&cd));
    assert!(!cd.improper_intersects(&ab));
    assert!(!ab.intersects(&cd));
    assert!(!cd.intersects(&ab));
}

#[test]
fn line_segment_test_intersect_with_self() {
    let ab = seg(v(0, 6, 4), v(1, 4, 4));

    assert!(!ab.proper_intersects(&ab));
    assert!(ab.improper_intersects(&ab));
    assert!(ab.intersects(&ab));
}

#[test]
fn line_segment_test_reverse() {
    let a = v(0, 0, 0);
    let b = v(1, 1, 2);
    let ab = seg(a, b);
    let ba = ab.reverse();
    assert_eq!(ab.v1, a);
    assert_eq!(ab.v2, b);
    assert_eq!(ba.v1, b);
    assert_eq!(ba.v2, a);
}

#[test]
fn reversing_a_segment_flips_the_side_of_a_vertex() {
    let ab = seg(v(0, 0, 0), v(1, 4, 0));
    let above = v(2, 1, 3);
    let on = v(3, 2, 0);
    assert!(above.left(&ab));
    assert!(!above.left(&ab.reverse()));
    assert!(above.right(&ab.reverse()));
    assert!(on.left_on(&ab) && on.left_on(&ab.reverse()));
    assert!(!on.left(&ab) && !on.left(&ab.reverse()));
}

#[test]
fn segment_orientation_predicates() {
    let vertical = seg(v(0, 3, -2), v(1, 3, 7));
    let horizontal = seg(v(2, -1, 5), v(3, 8, 5));
    assert!(vertical.is_vertical() && !vertical.is_horizontal());
    assert!(horizontal.is_horizontal() && !horizontal.is_vertical());
    assert!(vertical.intersects(&horizontal));
    assert!(vertical.proper_intersects(&horizontal));
}

#[test]
fn segments_sharing_an_end_point_are_connected() {
    let ab = seg(v(0, 0, 0), v(1, 2, 2));
    let bc = seg(v(1, 2, 2), v(2, 5, 0));
    let far = seg(v(3, 10, 10), v(4, 11, 12));
    assert!(ab.connected_to(&bc));
    assert!(!ab.connected_to(&far));
    assert!(ab.incident_to(&v(9, 2, 2)));
    assert!(!ab.incident_to(&v(9, 1, 1)));
}

#[test]
fn collinear_segments() {
    let ab = seg(v(0, 0, 0), v(1, 2, 2));
    let cd = seg(v(2, 5, 5), v(3, -3, -3));
    let ef = seg(v(4, 5, 6), v(5, -3, -3));
    assert!(ab.collinear_with(&cd));
    assert!(!ab.collinear_with(&ef));
}

#[test]
fn segment_extreme_end_points() {
    let ab = seg(v(0, 4, 1), v(1, 2, 1));
    assert_eq!(ab.lowest_leftmost_vertex().id, VertexId(1));
    assert_eq!(ab.highest_rightmost_vertex().id, VertexId(0));
    let cd = seg(v(2, 0, 5), v(3, 0, -5));
    assert_eq!(cd.lowest_leftmost_vertex().id, VertexId(3));
    assert_eq!(cd.highest_rightmost_vertex().id, VertexId(2));
}

#[test]
fn scaled_distance_is_twice_the_triangle_area() {
    let ab = seg(v(0, 0, 0), v(1, 4, 0));
    assert_eq!(ab.scaled_distance_to_vertex(&v(2, 1, 3)), 12);
    assert_eq!(ab.scaled_distance_to_vertex(&v(2, 1, -3)), 12);
    assert_eq!(ab.scaled_distance_to_vertex(&v(2, 7, 0)), 0);
}
