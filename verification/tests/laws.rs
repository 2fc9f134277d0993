use geometer::convex_hull::{ConvexHullTracer, InteriorPoints};
use geometer::data_structure::Stack;
use geometer::polygon::Polygon;
use geometer::triangle::Triangle;
use geometer::vertex::{Vertex, VertexId};

#[test]
fn cleaning_twice_changes_nothing_more() {
    let mut p = Polygon::from_coords(vec![(0, 0), (1, 0), (2, 0), (3, 0), (3, 3), (0, 3), (0, 2)]).unwrap();
    p.clean_collinear().unwrap();
    let once = p.vertex_ids();
    assert!(p.get_collinear().is_empty());
    p.clean_collinear().unwrap();
    assert_eq!(p.vertex_ids(), once);
    assert_eq!(once, vec![VertexId(0), VertexId(3), VertexId(4), VertexId(5)]);
}

#[test]
fn polygons_from_coordinates_have_consecutive_edges() {
    let p = Polygon::from_coords(vec![(0, 0), (5, 0), (5, 5), (0, 5)]).unwrap();
    let edges = p.edges();
    assert_eq!(edges.len(), p.num_vertices());
    assert_eq!(edges, vec![
        (VertexId(0), VertexId(1)),
        (VertexId(1), VertexId(2)),
        (VertexId(2), VertexId(3)),
        (VertexId(3), VertexId(0)),
    ]);
}

#[test]
fn pop_after_push_gives_the_element_back() {
    let mut s: Stack<i32> = Stack::new();
    s.push(4);
    s.push(-9);
    let before = s.as_vec().clone();
    s.push(17);
    assert_eq!(s.pop(), Some(17));
    assert_eq!(s.as_vec(), &before);
}

#[test]
fn rotating_the_corners_keeps_the_area_and_swapping_negates_it() {
    let a = Vertex::new(VertexId(0), 3, -1);
    let b = Vertex::new(VertexId(1), -4, 6);
    let c = Vertex::new(VertexId(2), 8, 8);
    let abc = Triangle::new(&a, &b, &c).double_area();
    assert_eq!(Triangle::new(&c, &a, &b).double_area(), abc);
    assert_eq!(Triangle::new(&c, &b, &a).double_area(), -abc);
}

#[test]
fn removing_an_ear_and_triangulating_the_rest_covers_the_same_area() {
    let p = Polygon::from_coords(vec![(0, 0), (6, 0), (6, 6), (3, 2), (0, 6)]).unwrap();
    let t = p.triangulation().unwrap();
    assert_eq!(t.len(), 3);
    assert_eq!(p.double_area_from_triangulation(&t), p.double_area());
}

#[test]
fn cleaning_collinear_vertices_keeps_the_area() {
    let mut p = Polygon::from_coords(vec![(0, 0), (1, 0), (2, 0), (3, 0), (3, 3), (0, 3), (0, 2)]).unwrap();
    let before = p.double_area();
    p.clean_collinear().unwrap();
    assert_eq!(p.double_area(), before);
    assert_eq!(before, 18);
}

#[test]
fn interior_points_keeps_exactly_the_vertices_outside_every_triangle() {
    let p = Polygon::from_coords(vec![(0, 0), (4, 0), (4, 4), (2, 1), (0, 4)]).unwrap();
    let interior = InteriorPoints.interior_points(&p);
    let mut none: Option<ConvexHullTracer> = None;
    let mut hull = InteriorPoints.convex_hull(&p, &mut none).unwrap().vertex_ids();
    hull.sort();
    let outside: Vec<VertexId> = p.vertex_ids().into_iter().filter(|id| !interior.contains(id)).collect();
    assert_eq!(hull, outside);
    assert_eq!(interior, vec![VertexId(3)]);
}
