use geometer::line_segment::LineSegment;
use geometer::vertex::{Vertex, VertexId};

fn v(id: u32, x: i32, y: i32) -> Vertex {
    Vertex::new(VertexId::from(id), x, y)
}

#[test]
fn vertex_test_between() {
    let v0 = v(0, 0, 0);
    let v1 = v(1, 1, 1);
    let v2 = v(2, 2, 2);

    assert!(v1.between(&v0, &v2));
    assert!(v1.between(&v2, &v1));
    assert!(!v0.between(&v1, &v2));
    assert!(!v0.between(&v2, &v1));
    assert!(!v2.between(&v0, &v1));
    assert!(!v2.between(&v1, &v0));
}

#[test]
fn vertex_test_between_vertical() {
    let v0 = v(0, 0, 0);
    let v1 = v(1, 0, 1);
    let v2 = v(2, 0, 2);

    assert!(v1.between(&v0, &v2));
    assert!(v1.between(&v2, &v1));
    assert!(!v0.between(&v1, &v2));
    assert!(!v0.between(&v2, &v1));
    assert!(!v2.between(&v0, &v1));
    assert!(!v2.between(&v1, &v0));
}

#[test]
fn between_excludes_points_off_the_line() {
    let a = v(0, 0, 0);
    let b = v(1, 4, 4);
    assert!(!v(2, 2, 3).between(&a, &b));
    assert!(v(2, 3, 3).between(&a, &b));
}

#[test]
fn vertex_sides_of_a_segment() {
    let ab = LineSegment::from_vertices(&v(0, 0, 0), &v(1, 4, 0));
    let up = v(2, 2, 2);
    let down = v(3, 2, -2);
    let on = v(4, 9, 0);
    assert!(up.left(&ab) && up.left_on(&ab) && !up.right(&ab) && !up.right_on(&ab));
    assert!(down.right(&ab) && down.right_on(&ab) && !down.left(&ab));
    assert!(!on.left(&ab) && !on.right(&ab) && on.left_on(&ab) && on.right_on(&ab));
}

#[test]
fn vertex_identifiers_and_translation() {
    let id = VertexId::from(7u32);
    assert_eq!(id, VertexId(7));
    assert_eq!(id.value(), 7);
    assert_eq!(VertexId::default(), VertexId(0));
    let mut p = v(7, 3, -4);
    p.translate(-5, 10);
    assert_eq!(p.coords(), (-2, 6));
    assert_eq!(p.id, id);
}
