use geometer::polygon::Polygon;
use geometer::triangulation::{EarClipping, EarNotFoundError, TriangleVertexIds, Triangulation, TriangulationComputer};
use geometer::vertex::VertexId;

fn notched() -> Polygon {
    Polygon::from_coords(vec![(0, 0), (4, 0), (4, 4), (2, 1), (0, 4)]).unwrap()
}

#[test]
fn ear_clipping_cuts_n_minus_two_triangles_covering_the_area() {
    let p = notched();
    let t = EarClipping.triangulation(&p).unwrap();
    assert_eq!(t.len(), p.num_vertices() - 2);
    let mut sum: i128 = 0;
    for k in 0..t.len() {
        let ids = t.get(k);
        let tri = p.get_triangle(&ids.0, &ids.1, &ids.2).unwrap();
        assert!(tri.double_area() > 0);
        sum += tri.double_area();
    }
    assert_eq!(sum, p.double_area());
    assert_eq!(p.double_area_from_triangulation(&t), 20);
}

#[test]
fn ear_clipping_takes_the_first_ear_in_boundary_order() {
    let p = notched();
    assert_eq!(EarClipping.find_ear(&p), Ok(VertexId(2)));
    let t = p.triangulation().unwrap();
    assert_eq!(t.get(0), TriangleVertexIds(VertexId(1), VertexId(2), VertexId(3)));
}

#[test]
fn the_trait_triangulates_like_the_algorithm() {
    let p = Polygon::from_coords(vec![(0, 0), (6, 0), (6, 6), (3, 2), (0, 6)]).unwrap();
    let a = TriangulationComputer::triangulation(&EarClipping, &p).unwrap();
    let b = EarClipping.triangulation(&p).unwrap();
    assert_eq!(a.triangles(), b.triangles());
}

#[test]
fn a_triangle_is_its_own_triangulation() {
    let p = Polygon::from_coords(vec![(0, 0), (3, 0), (0, 3)]).unwrap();
    let t = p.triangulation().unwrap();
    assert_eq!(t.len(), 1);
    assert_eq!(t.get(0), TriangleVertexIds(VertexId(2), VertexId(0), VertexId(1)));
}

#[test]
fn triangulations_collect_triangles_in_order() {
    let mut t = Triangulation::new();
    assert!(t.is_empty());
    t.push(TriangleVertexIds(VertexId(0), VertexId(1), VertexId(2)));
    t.push(TriangleVertexIds(VertexId(0), VertexId(2), VertexId(3)));
    assert_eq!(t.len(), 2);
    assert_eq!(t.get(1), TriangleVertexIds(VertexId(0), VertexId(2), VertexId(3)));
    assert_eq!(EarNotFoundError.message(), "polygon is likely invalid");
}
