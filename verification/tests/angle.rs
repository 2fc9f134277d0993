use geometer::angle::{angle_precedes, product_sign};
use geometer::line_segment::LineSegment;
use geometer::polygon::Polygon;
use geometer::vertex::{Vertex, VertexId};

#[test]
fn product_signs_beyond_128_bits() {
    let big: i128 = (1i128 << 65) + 7;
    assert_eq!(product_sign(big, big, big, big), 0);
    assert_eq!(product_sign(big, big, big, big - 1), 1);
    assert_eq!(product_sign(big - 1, big, big, big), -1);
    assert_eq!(product_sign(-big, big, big, -big), 0);
    assert_eq!(product_sign(-big, big, 0, 5), -1);
    assert_eq!(product_sign(3, 4, 2, 6), 0);
    assert_eq!(product_sign(-3, -4, 2, 5), 1);
}

#[test]
fn angles_from_a_direction_are_ordered_by_their_size() {
    let d = (1i64, 0i64);
    let ahead = (5i64, 0i64);
    let up = (0i64, 3i64);
    let up_left = (-1i64, 1i64);
    let back = (-2i64, 0i64);
    let down = (0i64, -7i64);
    assert!(angle_precedes(d, ahead, up));
    assert!(angle_precedes(d, up, up_left));
    assert!(angle_precedes(d, up_left, back));
    assert!(!angle_precedes(d, back, up_left));
    assert!(!angle_precedes(d, up, down) && !angle_precedes(d, down, up));
    assert!(angle_precedes(d, back, (0, 0)));
}

#[test]
fn angular_order_after_an_edge_keeps_the_farthest_of_equal_angles() {
    let p = Polygon::from_coords(vec![(0, 0), (2, 0), (4, 0), (4, 4), (0, 4)]).unwrap();
    let from = Vertex::new(VertexId(4), 0, 4);
    let at = Vertex::new(VertexId(0), 0, 0);
    let edge = LineSegment::from_vertices(&from, &at);
    let sorted: Vec<u32> = p.min_angle_sorted_vertices(Some(at), Some(edge)).iter().map(|v| v.id.0).collect();
    assert_eq!(sorted, vec![2, 3, 4]);
}
