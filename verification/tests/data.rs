use geometer::alg_step::{step_data, GrahamScanStep, IncrementalStep};
use geometer::convex_hull::ConvexHullTracerStep;
use geometer::data_structure::Stack;
use geometer::vertex::VertexId;

#[test]
fn stack_is_last_in_first_out() {
    let mut s: Stack<u32> = Stack::new();
    assert!(s.is_empty());
    assert_eq!(s.pop(), None);
    s.push(1);
    s.push(2);
    s.push(3);
    assert_eq!(s.len(), 3);
    assert_eq!(s.as_vec(), &vec![1, 2, 3]);
    assert_eq!(s.pop(), Some(3));
    assert_eq!(s.pop(), Some(2));
    assert_eq!(s.len(), 1);
    assert!(s.name().is_none());
}

#[test]
fn named_stack_keeps_its_name() {
    let mut s: Stack<VertexId> = Stack::with_name(String::from("hull"));
    s.push(VertexId(4));
    assert_eq!(s.name().as_deref(), Some("hull"));
    assert_eq!(s.pop(), Some(VertexId(4)));
    assert_eq!(s.pop(), None);
    assert_eq!(s.name().as_deref(), Some("hull"));
}

#[test]
fn graham_step_tail_and_top() {
    let step = GrahamScanStep { idx: 3, new_id: Some(VertexId(5)), hull_ids: vec![VertexId(1), VertexId(4), VertexId(5)] };
    assert_eq!(step.hull_tail(2), vec![VertexId(4), VertexId(5)]);
    assert_eq!(step.hull_tail(0), Vec::<VertexId>::new());
    assert_eq!(step.hull_top(), VertexId(5));
    let inc = IncrementalStep::default();
    assert_eq!(inc.idx, 0);
    assert!(inc.hull_ids.is_empty() && inc.new_id.is_none() && inc.ut_id.is_none() && inc.lt_id.is_none());
}

#[test]
fn tracer_step_tail() {
    let step = ConvexHullTracerStep {
        hull: vec![VertexId(0), VertexId(2), VertexId(7)],
        next_vertex: None,
        upper_tangent_vertex: None,
        lower_tangent_vertex: None,
    };
    assert_eq!(step.hull_tail(1), vec![VertexId(7)]);
    assert_eq!(step.hull_tail(3), vec![VertexId(0), VertexId(2), VertexId(7)]);
}

#[test]
fn step_lines_yield_their_data() {
    let line = "2024-05-01 DEBUG [geometer::convex_hull] GrahamScanStep { idx: 2, hull_ids: [1, 4] }";
    assert_eq!(step_data(line), Some(String::from("{ idx: 2, hull_ids: [1, 4] }")));
    assert_eq!(step_data("INFO [geometer] GrahamScanStep {}"), None);
    assert_eq!(step_data("DEBUG [geometer] nothing"), None);
}
