use geometer::angular_hull::{GiftWrapping, GrahamScan};
use geometer::convex_hull::{
    ConvexHullComputer, ConvexHullTracer, DivideConquer, ExtremeEdges, Incremental, InteriorPoints, QuickHull,
};
use geometer::line_segment::LineSegment;
use geometer::polygon::Polygon;
use geometer::triangle::Triangle;
use geometer::vertex::VertexId;

fn ids(raw: &[u32]) -> Vec<VertexId> {
    raw.iter().map(|r| VertexId(*r)).collect()
}

fn notched() -> Polygon {
    Polygon::from_coords(vec![(0, 0), (4, 0), (4, 4), (2, 1), (0, 4)]).unwrap()
}

fn star() -> Polygon {
    Polygon::from_coords(vec![(0, -6), (2, -2), (6, 0), (2, 2), (0, 6), (-2, 2), (-6, 0), (-2, -2)]).unwrap()
}

fn sorted_ids(p: &Polygon) -> Vec<VertexId> {
    let mut v = p.vertex_ids();
    v.sort();
    v
}

fn hull_ids(computer: &dyn Fn(&Polygon) -> Polygon, p: &Polygon) -> Vec<VertexId> {
    sorted_ids(&computer(p))
}

fn all_hulls(p: &Polygon) -> Vec<Vec<VertexId>> {
    let mut out = Vec::new();
    let mut none: Option<ConvexHullTracer> = None;
    out.push(sorted_ids(&InteriorPoints.convex_hull(p, &mut none).unwrap()));
    out.push(sorted_ids(&ExtremeEdges.convex_hull(p, &mut none).unwrap()));
    out.push(sorted_ids(&GiftWrapping.convex_hull(p, &mut none).unwrap()));
    out.push(sorted_ids(&QuickHull.convex_hull(p, &mut none).unwrap()));
    out.push(sorted_ids(&GrahamScan.convex_hull(p, &mut none).unwrap()));
    out.push(sorted_ids(&DivideConquer.convex_hull(p, &mut none).unwrap()));
    out.push(sorted_ids(&Incremental.convex_hull(p, &mut none).unwrap()));
    out
}

#[test]
fn every_algorithm_finds_the_hull_of_a_notched_square() {
    for hull in all_hulls(&notched()) {
        assert_eq!(hull, ids(&[0, 1, 2, 4]));
    }
}

#[test]
fn every_algorithm_finds_the_hull_of_a_star() {
    for hull in all_hulls(&star()) {
        assert_eq!(hull, ids(&[0, 2, 4, 6]));
    }
}

#[test]
fn hull_of_a_convex_polygon_is_itself() {
    let p = Polygon::from_coords(vec![(0, 0), (5, 1), (6, 4), (3, 7), (-1, 4)]).unwrap();
    for hull in all_hulls(&p) {
        assert_eq!(hull, ids(&[0, 1, 2, 3, 4]));
    }
}

#[test]
fn the_computer_trait_dispatches_to_each_algorithm() {
    let computers: Vec<Box<dyn Fn(&Polygon) -> Polygon>> = vec![
        Box::new(|p| {
            let mut t = None;
            ConvexHullComputer::convex_hull(&GrahamScan, p, &mut t).unwrap()
        }),
        Box::new(|p| {
            let mut t = None;
            ConvexHullComputer::convex_hull(&QuickHull, p, &mut t).unwrap()
        }),
    ];
    for c in computers.iter() {
        assert_eq!(hull_ids(c.as_ref(), &notched()), ids(&[0, 1, 2, 4]));
    }
}

#[test]
fn interior_points_and_extreme_edges() {
    let p = notched();
    assert_eq!(InteriorPoints.interior_points(&p), ids(&[3]));
    let edges = ExtremeEdges.extreme_edges(&p);
    assert_eq!(edges.len(), 4);
    assert!(edges.contains(&(VertexId(0), VertexId(1))));
    assert!(edges.contains(&(VertexId(2), VertexId(4))));
}

#[test]
fn graham_scan_records_its_stacks() {
    let mut tracer = Some(ConvexHullTracer::default());
    let hull = GrahamScan.convex_hull(&notched(), &mut tracer).unwrap();
    assert_eq!(hull.vertex_ids(), ids(&[0, 1, 2, 4]));
    let steps = tracer.unwrap().steps;
    assert_eq!(steps[0].hull, ids(&[1, 2]));
    assert_eq!(steps[0].next_vertex, None);
    let last = steps.last().unwrap();
    assert_eq!(last.hull, ids(&[1, 2, 4, 0]));
    assert_eq!(last.next_vertex, Some(VertexId(0)));
    assert_eq!(last.hull_tail(2), ids(&[4, 0]));
}

#[test]
fn incremental_records_a_step_per_added_vertex() {
    let mut tracer = Some(ConvexHullTracer::default());
    let hull = Incremental.convex_hull(&notched(), &mut tracer).unwrap();
    assert_eq!(sorted_ids(&hull), ids(&[0, 1, 2, 4]));
    let steps = tracer.unwrap().steps;
    assert_eq!(steps.len(), 3);
    assert_eq!(steps[0].next_vertex, None);
    assert_eq!(steps[2].next_vertex, Some(VertexId(2)));
}

#[test]
fn divide_and_conquer_returns_a_triangle_unchanged() {
    let t = Polygon::from_coords(vec![(0, 0), (3, 1), (1, 4)]).unwrap();
    let mut none = None;
    assert_eq!(DivideConquer.convex_hull(&t, &mut none).unwrap().vertex_ids(), ids(&[0, 1, 2]));
}

#[test]
fn every_algorithm_leaves_out_a_vertex_on_a_hull_edge() {
    let p = Polygon::from_coords(vec![(0, 0), (2, 0), (4, 0), (4, 4), (0, 4)]).unwrap();
    for hull in all_hulls(&p) {
        assert_eq!(hull, ids(&[0, 2, 3, 4]));
    }
}

#[test]
fn gift_wrapping_walks_the_hull_counter_clockwise() {
    let p = notched();
    let mut none = None;
    let hull = GiftWrapping.convex_hull(&p, &mut none).unwrap();
    assert_eq!(hull.vertex_ids(), ids(&[0, 1, 2, 4]));
    assert_eq!(hull.double_area(), 32);
}

#[test]
fn every_vertex_lies_left_of_the_gift_wrapped_edges() {
    let p = star();
    let mut none = None;
    let hull = GiftWrapping.convex_hull(&p, &mut none).unwrap();
    let hv = hull.vertices();
    for k in 0..hv.len() {
        let edge = LineSegment::from_vertices(&hv[k], &hv[(k + 1) % hv.len()]);
        for v in p.vertices() {
            assert!(v.left_on(&edge));
        }
    }
}

#[test]
fn the_final_graham_stack_turns_left() {
    let p = star();
    let mut tracer = Some(ConvexHullTracer::default());
    GrahamScan.convex_hull(&p, &mut tracer).unwrap();
    let stack = tracer.unwrap().steps.last().unwrap().hull.clone();
    assert!(stack.len() >= 3);
    for k in 0..stack.len() - 2 {
        let a = p.get_vertex(&stack[k]).unwrap();
        let b = p.get_vertex(&stack[k + 1]).unwrap();
        let c = p.get_vertex(&stack[k + 2]).unwrap();
        assert_eq!(Triangle::new(&a, &b, &c).area_sign(), 1);
    }
}

#[test]
fn incremental_starts_past_three_collinear_leftmost_vertices() {
    let p = Polygon::from_coords(vec![(0, 0), (4, 0), (4, 4), (0, 4), (1, 3), (0, 2)]).unwrap();
    let mut none: Option<ConvexHullTracer> = None;
    let hull = Incremental.convex_hull(&p, &mut none).unwrap();
    assert_eq!(sorted_ids(&hull), ids(&[0, 1, 2, 3]));
    for hull in all_hulls(&p) {
        assert_eq!(hull, ids(&[0, 1, 2, 3]));
    }
}

#[test]
fn incremental_passes_over_four_collinear_leftmost_vertices() {
    let p = Polygon::from_coords(vec![(0, 0), (6, 3), (0, 6), (1, 4), (0, 4), (2, 3), (0, 2), (3, 2)]).unwrap();
    let mut tracer = Some(ConvexHullTracer::default());
    let hull = Incremental.convex_hull(&p, &mut tracer).unwrap();
    assert_eq!(sorted_ids(&hull), ids(&[0, 1, 2]));
    let steps = tracer.unwrap().steps;
    assert_eq!(steps[0].hull.len(), 3);
}

#[test]
fn quickhull_keeps_a_vertex_on_the_line_between_its_starting_vertices() {
    // (2, 2) lies on the segment from the highest leftmost vertex (0, 4) to
    // the lowest rightmost vertex (4, 0); QuickHull collects it, the others
    // leave it out.
    let p = Polygon::from_coords(vec![(4, 0), (4, 4), (0, 4), (2, 2)]).unwrap();
    let mut none: Option<ConvexHullTracer> = None;
    assert_eq!(sorted_ids(&QuickHull.convex_hull(&p, &mut none).unwrap()), ids(&[0, 1, 2, 3]));
    assert_eq!(sorted_ids(&InteriorPoints.convex_hull(&p, &mut none).unwrap()), ids(&[0, 1, 2]));
    assert_eq!(sorted_ids(&GrahamScan.convex_hull(&p, &mut none).unwrap()), ids(&[0, 1, 2]));
    assert_eq!(sorted_ids(&Incremental.convex_hull(&p, &mut none).unwrap()), ids(&[0, 1, 2]));
}

#[test]
fn quickhull_keeps_every_extreme_point() {
    for p in [notched(), star()] {
        let mut none: Option<ConvexHullTracer> = None;
        let q = sorted_ids(&QuickHull.convex_hull(&p, &mut none).unwrap());
        let e = sorted_ids(&InteriorPoints.convex_hull(&p, &mut none).unwrap());
        assert!(e.iter().all(|id| q.contains(id)));
    }
}
