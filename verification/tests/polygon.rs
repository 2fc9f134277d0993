use geometer::polygon::{Polygon, PolygonError};
use geometer::vertex::{Vertex, VertexId};

fn ids(raw: &[u32]) -> Vec<VertexId> {
    raw.iter().map(|r| VertexId(*r)).collect()
}

fn notched() -> Polygon {
    Polygon::from_coords(vec![(0, 0), (4, 0), (4, 4), (2, 1), (0, 4)]).unwrap()
}

#[test]
#[should_panic]
fn test_invalid_polygon_not_enough_vertices() {
    let coords = vec![(1, 2), (3, 4)];
    let _ = Polygon::from_coords(coords).unwrap();
}

#[test]
#[should_panic]
fn test_invalid_polygon_not_simple() {
    let coords = vec![(0, 0), (2, 0), (2, 2), (0, 2), (4, 1)];
    let _ = Polygon::from_coords(coords).unwrap();
}

#[test]
fn invalid_polygons_give_their_error() {
    assert_eq!(Polygon::from_coords(vec![(1, 2), (3, 4)]).unwrap_err(), PolygonError::TooFewVertices);
    assert_eq!(
        Polygon::from_coords(vec![(0, 0), (2, 0), (2, 2), (0, 2), (4, 1)]).unwrap_err(),
        PolygonError::EdgesIntersect
    );
    assert_eq!(
        Polygon::from_coords(vec![(0, 0), (0, 4), (4, 0)]).unwrap_err(),
        PolygonError::NonPositiveArea
    );
    assert_eq!(Polygon::from_coords(vec![(0, 0), (1, 1), (2, 2)]).unwrap_err(), PolygonError::NonPositiveArea);
    let dup = vec![Vertex::new(VertexId(1), 0, 0), Vertex::new(VertexId(1), 4, 0), Vertex::new(VertexId(2), 0, 4)];
    assert_eq!(Polygon::from_vertices(dup).unwrap_err(), PolygonError::DuplicateVertexId);
}

#[test]
fn test_min_max() {
    let coords = vec![(0, 0), (5, -1), (7, 6), (-4, 8), (-2, -3)];
    let polygon = Polygon::from_coords(coords).unwrap();
    assert_eq!(polygon.min_x(), -4);
    assert_eq!(polygon.max_x(), 7);
    assert_eq!(polygon.min_y(), -3);
    assert_eq!(polygon.max_y(), 8);
    let bb = polygon.bounding_box();
    assert_eq!((bb.min_x, bb.max_x, bb.min_y, bb.max_y), (-4, 7, -3, 8));
}

#[test]
fn test_lowest_vertex() {
    let coords = vec![(0, 0), (5, -1), (7, 6), (-4, 8), (-2, -3)];
    let polygon = Polygon::from_coords(coords).unwrap();
    let lowest = polygon.leftmost_lowest_vertex();
    assert_eq!(lowest.x, -2);
    assert_eq!(lowest.y, -3);
}

#[test]
fn extreme_vertices_break_ties_by_the_other_coordinate() {
    let square = Polygon::from_coords(vec![(0, 0), (2, 0), (2, 2), (0, 2)]).unwrap();
    assert_eq!(square.leftmost_lowest_vertex().id, VertexId(0));
    assert_eq!(square.rightmost_lowest_vertex().id, VertexId(1));
    assert_eq!(square.rightmost_highest_vertex().id, VertexId(2));
    assert_eq!(square.leftmost_highest_vertex().id, VertexId(3));
    assert_eq!(square.lowest_leftmost_vertex().id, VertexId(0));
    assert_eq!(square.highest_leftmost_vertex().id, VertexId(3));
    assert_eq!(square.lowest_rightmost_vertex().id, VertexId(1));
    assert_eq!(square.highest_rightmost_vertex().id, VertexId(2));
}

#[test]
fn polygon_edges_and_neighbours() {
    let p = notched();
    assert_eq!(p.num_edges(), 5);
    assert_eq!(p.num_vertices(), 5);
    let edges = p.edges();
    assert_eq!(edges.len(), 5);
    for i in 0u32..5 {
        assert!(edges.contains(&(VertexId(i), VertexId((i + 1) % 5))));
    }
    assert_eq!(p.next_vertex_id(&VertexId(4)), Some(VertexId(0)));
    assert_eq!(p.prev_vertex_id(&VertexId(0)), Some(VertexId(4)));
    assert_eq!(p.get_next_vertex(&VertexId(2)).unwrap().coords(), (2, 1));
    assert_eq!(p.get_prev_vertex(&VertexId(2)).unwrap().coords(), (4, 0));
    assert!(p.get_vertex(&VertexId(9)).is_none());
    assert!(p.get_line_segment(&VertexId(0), &VertexId(9)).is_none());
    assert_eq!(p.vertex_ids(), ids(&[0, 1, 2, 3, 4]));
}

#[test]
fn polygon_double_area_is_the_shoelace_sum() {
    let p = notched();
    assert_eq!(p.double_area(), 20);
    let square = Polygon::from_coords(vec![(0, 0), (3, 0), (3, 3), (0, 3)]).unwrap();
    assert_eq!(square.double_area(), 18);
}

#[test]
fn removing_a_vertex_changes_the_area_by_its_corner_triangle() {
    let mut p = notched();
    let before = p.double_area();
    let removed = p.remove_vertex(&VertexId(3)).unwrap();
    assert_eq!(removed.coords(), (2, 1));
    assert_eq!(p.num_vertices(), 4);
    assert_eq!(before - p.double_area(), -12);
    assert!(p.remove_vertex(&VertexId(3)).is_none());
}

#[test]
fn collinear_vertices_are_found_and_cleaned() {
    let mut p = Polygon::from_coords(vec![(0, 0), (2, 0), (4, 0), (4, 4), (0, 4)]).unwrap();
    assert_eq!(p.get_collinear(), ids(&[1]));
    p.clean_collinear().unwrap();
    assert_eq!(p.vertex_ids(), ids(&[0, 2, 3, 4]));
    assert!(p.get_collinear().is_empty());
}

#[test]
fn diagonals_of_a_notched_polygon() {
    let p = notched();
    let v = |i: u32| p.get_vertex(&VertexId(i)).unwrap();
    assert!(p.diagonal(&v(1), &v(3)));
    assert!(p.diagonal(&v(0), &v(3)));
    assert!(!p.diagonal(&v(2), &v(4)));
    assert!(!p.diagonal(&v(0), &v(2)));
}

#[test]
fn sub_polygons_by_identifier() {
    let p = notched();
    let hull = p.get_polygon(ids(&[4, 0, 2, 1]), true, false).unwrap();
    assert_eq!(hull.vertex_ids(), ids(&[0, 1, 2, 4]));
    assert_eq!(p.get_polygon(ids(&[0, 0, 1]), false, false).unwrap_err(), PolygonError::DuplicateVertexId);
    assert_eq!(p.get_polygon(ids(&[0, 1]), false, false).unwrap_err(), PolygonError::TooFewVertices);
}

#[test]
fn vertices_by_increasing_x() {
    let p = notched();
    assert_eq!(p.vertex_ids_by_increasing_x(), ids(&[0, 4, 3, 1, 2]));
}

#[test]
fn translating_keeps_the_shape() {
    let mut p = notched();
    p.translate(10, -3);
    assert_eq!(p.get_vertex(&VertexId(3)).unwrap().coords(), (12, -2));
    assert_eq!(p.double_area(), 20);
    assert!(p.validate().is_ok());
}

#[test]
fn angular_order_around_the_lowest_vertex() {
    let p = Polygon::from_coords(vec![(0, 0), (4, 0), (4, 4), (2, 2), (0, 4)]).unwrap();
    let sorted: Vec<VertexId> = p.min_angle_sorted_vertices(None, None).iter().map(|v| v.id).collect();
    assert_eq!(sorted, ids(&[2, 4, 0]));
}
