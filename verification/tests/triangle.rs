use geometer::triangle::Triangle;
use geometer::vertex::{Vertex, VertexId};

fn v(id: u32, x: i32, y: i32) -> Vertex {
    Vertex::new(VertexId::from(id), x, y)
}

#[test]
fn test_from_vertices() {
    let v1 = v(1, 0, 0);
    let v2 = v(2, 3, 0);
    let v3 = v(3, 0, 4);
    let triangle = Triangle::from_vertices(&v1, &v2, &v3);
    assert_eq!((0, 0), triangle.v1.coords());
    assert_eq!((3, 0), triangle.v2.coords());
    assert_eq!((0, 4), triangle.v3.coords());
}

#[test]
fn triangle_test_area_right_triangle() {
    let a = v(0, 0, 0);
    let b = v(1, 3, 0);
    let c = v(2, 0, 4);
    let triangle = Triangle::new(&a, &b, &c);
    let double_area = triangle.double_area();
    assert_eq!(double_area, 12);
}

#[test]
fn test_area_sign_clockwise() {
    let a = v(0, 0, 0);
    let b = v(1, 4, 3);
    let c = v(2, 1, 3);
    let cw = vec![
        Triangle::new(&a, &c, &b),
        Triangle::new(&c, &b, &a),
        Triangle::new(&b, &a, &c),
    ];
    for triangle in cw {
        assert_eq!(triangle.area_sign(), -1);
    }
}

#[test]
fn test_area_sign_counter_clockwise() {
    let a = v(0, 0, 0);
    let b = v(1, 4, 3);
    let c = v(2, 1, 3);
    let ccw = vec![
        Triangle::new(&a, &b, &c),
        Triangle::new(&b, &c, &a),
        Triangle::new(&c, &a, &b),
    ];
    for triangle in ccw {
        assert_eq!(triangle.area_sign(), 1);
    }
}

fn all_choices() -> Vec<(Vertex, Vertex, Vertex)> {
    let a = v(0, 0, 0);
    let b = v(1, 4, 3);
    let c = v(2, 1, 3);
    let all = [a, b, c];
    let mut out = Vec::new();
    for p in all.iter() {
        for q in all.iter() {
            for r in all.iter() {
                out.push((*p, *q, *r));
            }
        }
    }
    out
}

#[test]
fn test_area_sign_collinear() {
    let combos = all_choices();
    assert_eq!(combos.len(), 27);
    for (p0, p1, p2) in combos {
        let triangle = Triangle::new(&p0, &p1, &p2);
        if p0 == p1 || p0 == p2 || p1 == p2 {
            assert!(triangle.has_collinear_points());
            assert_eq!(triangle.area_sign(), 0);
        } else {
            assert!(!triangle.has_collinear_points());
        }
    }
}

#[test]
fn test_area_clockwise() {
    let a = v(0, 0, 0);
    let b = v(1, 4, 3);
    let c = v(2, 1, 3);
    let cw = vec![
        Triangle::from_vertices(&a, &c, &b),
        Triangle::from_vertices(&c, &b, &a),
        Triangle::from_vertices(&b, &a, &c),
    ];
    for triangle in cw {
        assert!(triangle.double_area() < 0);
    }
}

#[test]
fn test_area_counter_clockwise() {
    let a = v(0, 0, 0);
    let b = v(1, 4, 3);
    let c = v(2, 1, 3);
    let ccw = vec![
        Triangle::from_vertices(&a, &b, &c),
        Triangle::from_vertices(&b, &c, &a),
        Triangle::from_vertices(&c, &a, &b),
    ];
    for triangle in ccw {
        assert!(triangle.double_area() > 0);
    }
}

#[test]
fn test_area_collinear() {
    for (v0, v1, v2) in all_choices() {
        let triangle = Triangle::from_vertices(&v0, &v1, &v2);
        if v0 == v1 || v0 == v2 || v1 == v2 {
            assert!(triangle.has_collinear_points());
        } else {
            assert!(!triangle.has_collinear_points());
        }
    }
}

#[test]
fn swapping_two_corners_negates_the_area() {
    let a = v(0, -2, 1);
    let b = v(1, 7, -3);
    let c = v(2, 5, 9);
    let abc = Triangle::new(&a, &b, &c).double_area();
    assert_eq!(Triangle::new(&b, &a, &c).double_area(), -abc);
    assert_eq!(Triangle::new(&a, &c, &b).double_area(), -abc);
    assert_eq!(Triangle::new(&b, &c, &a).double_area(), abc);
    assert_eq!(abc, 100);
}

#[test]
fn triangle_contains_interior_but_not_outside_points() {
    let t = Triangle::new(&v(0, 0, 0), &v(1, 6, 0), &v(2, 0, 6));
    assert!(t.contains(&v(3, 1, 1)));
    assert!(!t.contains(&v(3, 5, 5)));
    assert!(!t.contains(&v(3, -1, 2)));
}

#[test]
fn triangle_extreme_corners_and_edges() {
    let t = Triangle::new(&v(0, 2, 0), &v(1, 0, 0), &v(2, 1, 5));
    assert_eq!(t.lowest_leftmost_vertex().id, VertexId(1));
    assert_eq!(t.highest_rightmost_vertex().id, VertexId(0));
    let edges = t.to_line_segments();
    assert_eq!(edges.len(), 3);
    assert_eq!(edges[0].v1.id, VertexId(0));
    assert_eq!(edges[0].v2.id, VertexId(1));
    assert_eq!(edges[2].v2.id, VertexId(0));
}
