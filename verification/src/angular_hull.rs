//! The convex hull algorithms that order vertices by angle: the Graham scan
//! and gift wrapping.

use vstd::prelude::*;

use crate::angle::{
    angle_apex, angle_base, angle_before, angle_direction, cross2, lemma_least_angle_supports, min_angle_sorted_spec,
    offset, rightmost_lowest_order,
};
use crate::convex_hull::{vertices_within, ConvexHullComputer, ConvexHullTracer, ConvexHullTracerStep};
use crate::geometry::{first_min, is_first_min, lemma_first_min_unique};
use crate::line_segment::LineSegment;
use crate::polygon::{distinct_ids, has_id, polygon_from_ids_result, vertex_of, Polygon, PolygonError};
use crate::vertex::{left_of, left_on_of, orient, same_coords, Vertex, VertexId};

verus! {

/// The visit of `v` by the Graham scan, starting from the hull stack
/// `stack`: while the two top vertices of the stack and `v` do not turn
/// left, the top is popped, until `v` is pushed or comes on top. The result
/// is the stack after each push or pop, or `None` where fewer than two
/// vertices remain on the stack to test the turn.
pub open spec fn graham_visit(s: Seq<Vertex>, stack: Seq<VertexId>, v: Vertex) -> Option<Seq<Seq<VertexId>>>
    decreases stack.len(),
{
    if stack.len() < 2 {
        None
    } else if left_of(vertex_of(s, stack[stack.len() - 2]), vertex_of(s, stack.last()), v) {
        Some(seq![stack.push(v.id)])
    } else {
        let t = stack.drop_last();
        if t.last() == v.id {
            Some(seq![t])
        } else {
            match graham_visit(s, t, v) {
                Some(rest) => Some(seq![t] + rest),
                None => None,
            }
        }
    }
}

/// The stack before any visit when `states` were recorded from `init`.
pub open spec fn current_stack(init: Seq<VertexId>, states: Seq<(Seq<VertexId>, VertexId)>) -> Seq<VertexId> {
    if states.len() == 0 {
        init
    } else {
        states.last().0
    }
}

/// Every stack of the Graham scan that starts from `init` and visits `vs`
/// in order, each paired with the identifier of the vertex being visited;
/// `None` where a visit fails.
pub open spec fn graham_states(s: Seq<Vertex>, init: Seq<VertexId>, vs: Seq<Vertex>) -> Option<
    Seq<(Seq<VertexId>, VertexId)>,
>
    decreases vs.len(),
{
    if vs.len() == 0 {
        Some(Seq::empty())
    } else {
        match graham_states(s, init, vs.drop_last()) {
            None => None,
            Some(prev) => match graham_visit(s, current_stack(init, prev), vs.last()) {
                None => None,
                Some(st) => Some(prev + st.map_values(|h: Seq<VertexId>| (h, vs.last().id))),
            },
        }
    }
}

proof fn lemma_states_none(s: Seq<Vertex>, init: Seq<VertexId>, vs: Seq<Vertex>, m: int)
    requires
        0 <= m <= vs.len(),
        graham_states(s, init, vs.subrange(0, m)) is None,
    ensures
        graham_states(s, init, vs) is None,
    decreases vs.len() - m,
{
    if m < vs.len() {
        assert(vs.subrange(0, m + 1).drop_last() =~= vs.subrange(0, m));
        lemma_states_none(s, init, vs, m + 1);
    } else {
        assert(vs.subrange(0, m) =~= vs);
    }
}

/// `steps` records the stacks `states`, each with the vertex being visited.
pub open spec fn records_states(
    steps: Seq<ConvexHullTracerStep>,
    states: Seq<(Seq<VertexId>, VertexId)>,
) -> bool {
    &&& steps.len() == states.len()
    &&& forall|k: int|
        0 <= k < steps.len() ==> (#[trigger] steps[k]).hull@ == states[k].0 && steps[k].next_vertex
            == Some(states[k].1) && steps[k].upper_tangent_vertex is None && steps[k].lower_tangent_vertex is None
}

/// `after` extends the recorded steps of `before` by a first step holding
/// `init` alone and then by one step for each of `states`.
pub open spec fn graham_trace(before: Option<ConvexHullTracer>, after: Option<ConvexHullTracer>, init: Seq<
    VertexId,
>, states: Seq<(Seq<VertexId>, VertexId)>) -> bool {
    match before {
        None => after is None,
        Some(t0) => match after {
            None => false,
            Some(t) => {
                let n0 = t0.steps@.len();
                &&& t.steps@.len() == n0 + 1 + states.len()
                &&& t.steps@.subrange(0, n0 as int) == t0.steps@
                &&& t.steps@[n0 as int].hull@ == init
                &&& t.steps@[n0 as int].next_vertex is None
                &&& t.steps@[n0 as int].upper_tangent_vertex is None
                &&& t.steps@[n0 as int].lower_tangent_vertex is None
                &&& records_states(t.steps@.subrange(n0 + 1int, t.steps@.len() as int), states)
            },
        },
    }
}

/// The stack that the Graham scan starts from: the rightmost lowest vertex
/// and the first vertex of the angular order.
pub open spec fn graham_init(s: Seq<Vertex>) -> Seq<VertexId> {
    seq![first_min(s, rightmost_lowest_order()).id, min_angle_sorted_spec(s, None, None)[0].id]
}

/// The outcome of the Graham scan on `s`: the identifiers on the final
/// stack, or `None` where the scan fails.
pub open spec fn graham_result(s: Seq<Vertex>) -> Option<Seq<VertexId>> {
    let sorted = min_angle_sorted_spec(s, None, None);
    let init = graham_init(s);
    match graham_states(s, init, sorted.drop_first()) {
        Some(states) => Some(current_stack(init, states)),
        None => None,
    }
}

/// Every three consecutive identifiers of `ids` name vertices of `s` that
/// turn left: the chain is convex.
pub open spec fn turns_left(s: Seq<Vertex>, ids: Seq<VertexId>) -> bool {
    forall|i: int|
        0 <= i < ids.len() - 2 ==> left_of(
            vertex_of(s, #[trigger] ids[i]),
            vertex_of(s, ids[i + 1]),
            vertex_of(s, ids[i + 2]),
        )
}

proof fn lemma_visit_turns_left(s: Seq<Vertex>, stack: Seq<VertexId>, v: Vertex)
    requires
        distinct_ids(s),
        s.contains(v),
        turns_left(s, stack),
    ensures
        graham_visit(s, stack, v) matches Some(st) ==> forall|j: int| 0 <= j < st.len() ==> turns_left(s, #[trigger] st[j]),
    decreases stack.len(),
{
    if stack.len() >= 2 {
        let j = choose|j: int| 0 <= j < s.len() && s[j] == v;
        crate::polygon::lemma_index_of(s, j);
        if left_of(vertex_of(s, stack[stack.len() - 2]), vertex_of(s, stack.last()), v) {
            let p = stack.push(v.id);
            assert forall|i: int| 0 <= i < p.len() - 2 implies left_of(
                vertex_of(s, #[trigger] p[i]),
                vertex_of(s, p[i + 1]),
                vertex_of(s, p[i + 2]),
            ) by {
                if i < stack.len() - 2 {
                    assert(p[i] == stack[i] && p[i + 1] == stack[i + 1] && p[i + 2] == stack[i + 2]);
                } else {
                    assert(p[i] == stack[stack.len() - 2] && p[i + 1] == stack.last() && p[i + 2] == v.id);
                }
            }
            assert(seq![p][0] == p);
        } else {
            let t = stack.drop_last();
            assert forall|i: int| 0 <= i < t.len() - 2 implies left_of(
                vertex_of(s, #[trigger] t[i]),
                vertex_of(s, t[i + 1]),
                vertex_of(s, t[i + 2]),
            ) by {
                assert(t[i] == stack[i] && t[i + 1] == stack[i + 1] && t[i + 2] == stack[i + 2]);
            }
            if t.last() != v.id {
                lemma_visit_turns_left(s, t, v);
                if let Some(rest) = graham_visit(s, t, v) {
                    let st = seq![t] + rest;
                    assert forall|j: int| 0 <= j < st.len() implies turns_left(s, #[trigger] st[j]) by {
                        if j > 0 {
                            assert(st[j] == rest[j - 1]);
                        }
                    }
                }
            } else {
                assert(seq![t][0] == t);
            }
        }
    }
}

/// The Graham scan keeps its stack convex: when it starts from a stack
/// that turns left and visits vertices of `s`, every stack it records turns
/// left.
pub proof fn lemma_graham_stacks_turn_left(s: Seq<Vertex>, init: Seq<VertexId>, vs: Seq<Vertex>)
    requires
        distinct_ids(s),
        turns_left(s, init),
        forall|k: int| 0 <= k < vs.len() ==> s.contains(#[trigger] vs[k]),
    ensures
        graham_states(s, init, vs) matches Some(states) ==> turns_left(s, current_stack(init, states))
            && forall|j: int| 0 <= j < states.len() ==> turns_left(s, (#[trigger] states[j]).0),
    decreases vs.len(),
{
    if vs.len() > 0 {
        let p = vs.drop_last();
        assert forall|k: int| 0 <= k < p.len() implies s.contains(#[trigger] p[k]) by {
            assert(p[k] == vs[k]);
        }
        lemma_graham_stacks_turn_left(s, init, p);
        if let Some(prev) = graham_states(s, init, p) {
            let cur = current_stack(init, prev);
            assert(s.contains(vs[vs.len() - 1]));
            lemma_visit_turns_left(s, cur, vs.last());
            if let Some(st) = graham_visit(s, cur, vs.last()) {
                let added = st.map_values(|h: Seq<VertexId>| (h, vs.last().id));
                let states = prev + added;
                assert forall|j: int| 0 <= j < states.len() implies turns_left(s, (#[trigger] states[j]).0) by {
                    if j >= prev.len() {
                        assert(states[j] == added[j - prev.len()]);
                        assert(added[j - prev.len()].0 == st[j - prev.len()]);
                    }
                }
                if states.len() > 0 {
                    assert(turns_left(s, states[states.len() - 1].0));
                }
            }
        }
    }
}

/// The Graham scan convex hull algorithm.
#[derive(Clone, Copy, Debug, Default)]
pub struct GrahamScan;

impl GrahamScan {
    /// Sorts the vertices by angle around the rightmost lowest vertex, then
    /// visits them in that order, keeping on a stack the vertices that turn
    /// left: the final stack is the hull, arranged by identifier. When a
    /// tracer is given, it records the first stack and the stack after each
    /// push and pop.
    pub fn convex_hull(&self, polygon: &Polygon, tracer: &mut Option<ConvexHullTracer>) -> (r: Result<
        Polygon,
        PolygonError,
    >)
        requires
            polygon.wf(),
            polygon@.len() > 0,
        ensures
            min_angle_sorted_spec(polygon@, None, None).len() == 0 ==> r == Err::<Polygon, PolygonError>(
                PolygonError::TooFewVertices,
            ),
            min_angle_sorted_spec(polygon@, None, None).len() > 0 ==> match graham_result(polygon@) {
                None => r == Err::<Polygon, PolygonError>(PolygonError::HullStackUnderflow),
                Some(ids) => polygon_from_ids_result(polygon@, ids, true, false, r) && turns_left(polygon@, ids),
            },
            r matches Ok(hull) ==> hull.wf() && hull@.len() > 0 && vertices_within(hull@, polygon@),
            (*old(tracer)) is None <==> (*final(tracer)) is None,
            min_angle_sorted_spec(polygon@, None, None).len() > 0 ==> match graham_states(
                polygon@,
                graham_init(polygon@),
                min_angle_sorted_spec(polygon@, None, None).drop_first(),
            ) {
                Some(states) => graham_trace(*old(tracer), *final(tracer), graham_init(polygon@), states),
                None => true,
            },
    {
        let mut vertices = polygon.min_angle_sorted_vertices(None, None);
        if vertices.len() == 0 {
            return Err(PolygonError::TooFewVertices);
        }
        let base = polygon.rightmost_lowest_vertex();
        proof {
            let i = choose|i: int| is_first_min(polygon@, i, rightmost_lowest_order()) && base == polygon@[i];
            let j = choose|j: int| is_first_min(polygon@, j, rightmost_lowest_order());
            lemma_first_min_unique(polygon@, i, j, rightmost_lowest_order());
        }
        let ghost sorted = vertices@;
        let first = vertices.remove(0);
        let mut stack: Vec<VertexId> = Vec::new();
        stack.push(base.id);
        stack.push(first.id);
        let ghost init = stack@;
        assert(init == graham_init(polygon@));
        proof {
            assert(polygon@.contains(first));
            assert(has_id(polygon@, first.id));
            let i = choose|i: int| is_first_min(polygon@, i, rightmost_lowest_order()) && base == polygon@[i];
            assert(has_id(polygon@, base.id));
            assert forall|q: int| 0 <= q < vertices@.len() implies polygon@.contains(#[trigger] vertices@[q]) by {
                assert(vertices@[q] == sorted[q + 1]);
            }
        }
        assert(vertices@ == sorted.drop_first());
        if let Some(t) = tracer {
            t.steps.push(
                ConvexHullTracerStep {
                    hull: stack.clone(),
                    next_vertex: None,
                    upper_tangent_vertex: None,
                    lower_tangent_vertex: None,
                },
            );
        }
        let ghost mut states: Seq<(Seq<VertexId>, VertexId)> = Seq::empty();
        proof {
            if (*tracer) is Some {
                let t = (*tracer)->0;
                let t0 = old(tracer)->0;
                assert(t.steps@.subrange(0, t0.steps@.len() as int) =~= t0.steps@);
                assert(t.steps@.subrange(t0.steps@.len() + 1int, t.steps@.len() as int) =~= Seq::<ConvexHullTracerStep>::empty());
            }
        }
        let mut m: usize = 0;
        while m < vertices.len()
            invariant
                polygon.wf(),
                0 <= m <= vertices.len(),
                forall|q: int| 0 <= q < vertices@.len() ==> polygon@.contains(#[trigger] vertices@[q]),
                forall|q: int| 0 <= q < stack@.len() ==> has_id(polygon@, #[trigger] stack@[q]),
                stack@.len() >= 1,
                init == graham_init(polygon@),
                min_angle_sorted_spec(polygon@, None, None).len() > 0,
                vertices@ == min_angle_sorted_spec(polygon@, None, None).drop_first(),
                graham_states(polygon@, init, vertices@.subrange(0, m as int)) == Some(states),
                stack@ == current_stack(init, states),
                (*old(tracer)) is None <==> (*tracer) is None,
                graham_trace(*old(tracer), *tracer, init, states),
            decreases vertices.len() - m,
        {
            let v = vertices[m];
            proof {
                assert(polygon@.contains(v));
                let j = choose|j: int| 0 <= j < polygon@.len() && polygon@[j] == v;
                assert(has_id(polygon@, v.id));
            }
            let ghost stack0 = stack@;
            let ghost mut visit: Seq<Seq<VertexId>> = Seq::empty();
            proof {
                assert(vertices@.subrange(0, m + 1).drop_last() =~= vertices@.subrange(0, m as int));
            }
            loop
                invariant_except_break
                    graham_visit(polygon@, stack0, v) == match graham_visit(polygon@, stack@, v) {
                        Some(rest) => Some(visit + rest),
                        None => None::<Seq<Seq<VertexId>>>,
                    },
                    visit.len() > 0 ==> stack@ == visit.last(),
                    visit.len() == 0 ==> stack@ == stack0,
                invariant
                    polygon.wf(),
                    stack@.len() >= 1,
                    m < vertices@.len(),
                    v == vertices@[m as int],
                    init == graham_init(polygon@),
                    min_angle_sorted_spec(polygon@, None, None).len() > 0,
                    vertices@ == min_angle_sorted_spec(polygon@, None, None).drop_first(),
                    graham_states(polygon@, init, vertices@.subrange(0, m as int)) == Some(states),
                    stack0 == current_stack(init, states),
                    graham_trace(*old(tracer), *tracer, init, states + visit.map_values(|h: Seq<VertexId>| (h, v.id))),
                    forall|q: int| 0 <= q < stack@.len() ==> has_id(polygon@, #[trigger] stack@[q]),
                    has_id(polygon@, v.id),
                    (*old(tracer)) is None <==> (*tracer) is None,
                ensures
                    graham_visit(polygon@, stack0, v) == Some(visit),
                    visit.len() > 0,
                    stack@ == visit.last(),
                decreases stack@.len(),
            {
                if stack.len() < 2 {
                    proof {
                        let grown = vertices@.subrange(0, m + 1);
                        assert(grown.drop_last() =~= vertices@.subrange(0, m as int));
                        assert(grown.last() == v);
                        assert(graham_visit(polygon@, stack0, v) is None);
                        assert(graham_states(polygon@, init, grown) is None);
                        lemma_states_none(polygon@, init, vertices@, m as int + 1);
                    }
                    return Err(PolygonError::HullStackUnderflow);
                }
                let top = stack[stack.len() - 1];
                let prev = stack[stack.len() - 2];
                let ls = polygon.get_line_segment(&prev, &top).unwrap();
                let ghost before = stack@;
                if v.left(&ls) {
                    stack.push(v.id);
                } else {
                    stack.pop();
                }
                let ghost tr0 = *tracer;
                let ghost visit0 = visit;
                if let Some(t) = tracer {
                    t.steps.push(
                        ConvexHullTracerStep {
                            hull: stack.clone(),
                            next_vertex: Some(v.id),
                            upper_tangent_vertex: None,
                            lower_tangent_vertex: None,
                        },
                    );
                }
                proof {
                    visit = visit.push(stack@);
                    let sv0 = states + visit0.map_values(|h: Seq<VertexId>| (h, v.id));
                    let sv1 = states + visit.map_values(|h: Seq<VertexId>| (h, v.id));
                    assert(sv1 =~= sv0.push((stack@, v.id)));
                    if (*tracer) is Some {
                        let t = (*tracer)->0;
                        let t0 = old(tracer)->0;
                        let tp = tr0->0;
                        let n0 = t0.steps@.len();
                        assert(t.steps@ == tp.steps@.push(t.steps@.last()));
                        assert(t.steps@.subrange(0, n0 as int) =~= tp.steps@.subrange(0, n0 as int));
                        assert(t.steps@.subrange(n0 + 1int, t.steps@.len() as int) =~= tp.steps@.subrange(
                            n0 + 1int,
                            tp.steps@.len() as int,
                        ).push(t.steps@.last()));
                    }
                    if stack@.len() < before.len() {
                        assert(stack@ == before.drop_last());
                    }
                    assert forall|q: int| 0 <= q < stack@.len() implies has_id(polygon@, #[trigger] stack@[q]) by {
                        if q < before.len() {
                            assert(stack@[q] == before[q]);
                        }
                    }
                }
                if stack[stack.len() - 1] == v.id {
                    break;
                }
            }
            proof {
                let prefix = vertices@.subrange(0, m as int);
                let grown = vertices@.subrange(0, m + 1);
                assert(grown.last() == v);
                assert(current_stack(init, states) == stack0);
                let added = visit.map_values(|h: Seq<VertexId>| (h, v.id));
                assert(graham_states(polygon@, init, grown) == Some(states + added));
                states = states + added;
                assert(states.last() == added.last());
            }
            m = m + 1;
        }
        proof {
            assert(vertices@.subrange(0, vertices.len() as int) =~= vertices@);
            lemma_graham_stacks_turn_left(polygon@, init, vertices@);
        }
        polygon.get_polygon(stack, true, false)
    }
}

/// The walk of gift wrapping from `v0`: the vertices reached in `k` steps,
/// each step moving to the first vertex of the angular order around the
/// current vertex, measured against the last step taken (against the
/// positive `x` direction for the first step); `None` where a step finds
/// no other vertex.
pub open spec fn wrap_walk(s: Seq<Vertex>, v0: Vertex, k: nat) -> Option<Seq<Vertex>>
    decreases k,
{
    if k == 0 {
        Some(seq![v0])
    } else {
        match wrap_walk(s, v0, (k - 1) as nat) {
            None => None,
            Some(w) => {
                let v = w.last();
                let e = if w.len() < 2 {
                    None
                } else {
                    Some(LineSegment { v1: w[w.len() - 2], v2: v })
                };
                let c = min_angle_sorted_spec(s, Some(v), e);
                if c.len() == 0 {
                    None
                } else {
                    Some(w.push(c[0]))
                }
            },
        }
    }
}

/// The walk comes back to the identifier of `v0` at step `k` and not before.
pub open spec fn wrap_closes_at(s: Seq<Vertex>, v0: Vertex, k: nat) -> bool {
    &&& k >= 1
    &&& wrap_walk(s, v0, k) is Some
    &&& wrap_walk(s, v0, k)->0.last().id == v0.id
    &&& forall|j: int| 1 <= j < k ==> (#[trigger] wrap_walk(s, v0, k)->0[j]).id != v0.id
}

/// The identifiers of `w` in the order of their first occurrence.
pub open spec fn first_occurrences(w: Seq<Vertex>) -> Seq<VertexId>
    decreases w.len(),
{
    if w.len() == 0 {
        Seq::empty()
    } else {
        let p = first_occurrences(w.drop_last());
        if p.contains(w.last().id) {
            p
        } else {
            p.push(w.last().id)
        }
    }
}

/// The number of steps after which gift wrapping gives up: one more than
/// the number of ordered pairs of vertices, the states a walk can be in.
pub open spec fn wrap_fuel(n: nat) -> nat {
    n * n + 1
}

proof fn lemma_walk_prefix(s: Seq<Vertex>, v0: Vertex, k: nat, m: nat)
    requires
        k <= m,
        wrap_walk(s, v0, m) is Some,
    ensures
        wrap_walk(s, v0, k) is Some,
        wrap_walk(s, v0, m)->0.len() == m + 1,
        wrap_walk(s, v0, k)->0 == wrap_walk(s, v0, m)->0.subrange(0, k + 1int),
    decreases m,
{
    if m > 0 {
        lemma_walk_prefix(s, v0, (m - 1) as nat, (m - 1) as nat);
        let w = wrap_walk(s, v0, (m - 1) as nat)->0;
        assert(wrap_walk(s, v0, m)->0.subrange(0, m as int) =~= w);
        if k < m {
            lemma_walk_prefix(s, v0, k, (m - 1) as nat);
            assert(wrap_walk(s, v0, m)->0.subrange(0, k + 1int) =~= w.subrange(0, k + 1int));
        } else {
            assert(wrap_walk(s, v0, m)->0.subrange(0, k + 1int) =~= wrap_walk(s, v0, m)->0);
        }
    } else {
        assert(wrap_walk(s, v0, m)->0.subrange(0, k + 1int) =~= wrap_walk(s, v0, m)->0);
    }
}

fn contains_id(ids: &Vec<VertexId>, id: VertexId) -> (r: bool)
    ensures
        r == ids@.contains(id),
{
    let mut k: usize = 0;
    while k < ids.len()
        invariant
            0 <= k <= ids.len(),
            forall|q: int| 0 <= q < k ==> ids@[q] != id,
        decreases ids.len() - k,
    {
        if ids[k] == id {
            assert(ids@[k as int] == id);
            return true;
        }
        k = k + 1;
    }
    false
}

/// No two vertices of `s` have the same coordinates.
pub open spec fn distinct_coords(s: Seq<Vertex>) -> bool {
    forall|i: int, j: int| 0 <= i < s.len() && 0 <= j < s.len() && i != j ==> !same_coords(s[i], s[j])
}

/// Every vertex of `s` lies left of or on every step of the walk `w`.
pub open spec fn walk_supports(s: Seq<Vertex>, w: Seq<Vertex>) -> bool {
    forall|j: int, q: int|
        #![trigger w[j], s[q]]
        0 <= j < w.len() - 1 && 0 <= q < s.len() ==> left_on_of(w[j], w[j + 1], s[q])
}

/// The direction a wrap measures its next angle against: its last step, or
/// the positive `x` direction before the first one.
pub open spec fn wrap_direction(w: Seq<Vertex>) -> (int, int) {
    if w.len() < 2 {
        (1, 0)
    } else {
        offset(w[w.len() - 2], w.last())
    }
}

proof fn lemma_orient_as_cross(a: Vertex, b: Vertex, c: Vertex)
    ensures
        orient(a, b, c) == cross2(offset(a, b), offset(a, c)),
        orient(a, b, c) == cross2(offset(a, b), offset(b, c)),
{
    assert(orient(a, b, c) == cross2(offset(a, b), offset(a, c))) by (nonlinear_arith);
    assert(orient(a, b, c) == cross2(offset(a, b), offset(b, c))) by (nonlinear_arith);
}

/// The gift wrapping convex hull algorithm.
#[derive(Clone, Copy, Debug, Default)]
pub struct GiftWrapping;

impl GiftWrapping {
    /// Starts at the rightmost lowest vertex and, from each vertex reached,
    /// wraps on to the vertex of least angle with the last hull edge (with
    /// the positive `x` direction at the start), until it comes back to the
    /// start. The result is the polygon of the vertices reached, arranged by
    /// identifier.
    pub fn convex_hull(&self, polygon: &Polygon, tracer: &mut Option<ConvexHullTracer>) -> (r: Result<
        Polygon,
        PolygonError,
    >)
        requires
            polygon.wf(),
            polygon@.len() > 0,
        ensures
            ({
                let s = polygon@;
                let v0 = first_min(s, rightmost_lowest_order());
                let fuel = wrap_fuel(s.len());
                &&& forall|k: nat|
                    k <= fuel && #[trigger] wrap_closes_at(s, v0, k) ==> polygon_from_ids_result(
                        s,
                        first_occurrences(wrap_walk(s, v0, k)->0),
                        true,
                        false,
                        r,
                    )
                &&& (forall|k: nat| 1 <= k <= fuel ==> !#[trigger] wrap_closes_at(s, v0, k)) ==> (if wrap_walk(
                    s,
                    v0,
                    fuel,
                ) is Some {
                    r == Err::<Polygon, PolygonError>(PolygonError::WrapNotClosed)
                } else {
                    r == Err::<Polygon, PolygonError>(PolygonError::TooFewVertices)
                })
                &&& distinct_coords(s) ==> forall|k: nat|
                    k <= fuel && #[trigger] wrap_closes_at(s, v0, k) ==> walk_supports(s, wrap_walk(s, v0, k)->0)
            }),
            r matches Ok(hull) ==> hull.wf() && hull@.len() > 0 && vertices_within(hull@, polygon@),
            *final(tracer) == *old(tracer),
    {
        let ghost s = polygon@;
        let v0 = polygon.rightmost_lowest_vertex();
        proof {
            let i = choose|i: int| is_first_min(s, i, rightmost_lowest_order()) && v0 == s[i];
            let j = choose|j: int| is_first_min(s, j, rightmost_lowest_order());
            lemma_first_min_unique(s, i, j, rightmost_lowest_order());
            assert(s.contains(v0));
        }
        let n = polygon.num_vertices();
        proof {
            crate::polygon::lemma_distinct_ids_bound(s);
            assert(n * n <= 0x1_0000_0000 * 0x1_0000_0000) by (nonlinear_arith)
                requires
                    n <= 0x1_0000_0000,
            ;
        }
        let fuel: u128 = n as u128 * n as u128 + 1;
        let mut ids: Vec<VertexId> = Vec::new();
        ids.push(v0.id);
        let mut v = v0;
        let mut prev: Option<Vertex> = None;
        let mut steps: u128 = 0;
        let ghost mut walk: Seq<Vertex> = seq![v0];
        proof {
            assert(walk.drop_last() =~= Seq::<Vertex>::empty());
            assert(first_occurrences(walk.drop_last()) == Seq::<VertexId>::empty());
            assert(!first_occurrences(walk.drop_last()).contains(v0.id));
            assert(first_occurrences(walk) =~= seq![v0.id]);
            let i0 = choose|i: int| is_first_min(s, i, rightmost_lowest_order()) && v0 == s[i];
            assert(walk.len() == 1);
            assert(wrap_direction(walk) == (1int, 0int));
            assert forall|q: int| 0 <= q < s.len() implies cross2(wrap_direction(walk), offset(v0, #[trigger] s[q])) >= 0 by {
                if q < i0 {
                    assert(crate::geometry::key_less(s[i0], s[q], rightmost_lowest_order()));
                } else if q > i0 {
                    assert(!crate::geometry::key_less(s[q], s[i0], rightmost_lowest_order()));
                }
                assert(s[q].y >= v0.y);
                let o = offset(v0, s[q]);
                assert(1 * o.1 - 0 * o.0 == o.1) by (nonlinear_arith);
            }
        }
        loop
            invariant_except_break
                forall|j: int| 1 <= j < walk.len() ==> (#[trigger] walk[j]).id != v0.id,
            invariant
                polygon.wf(),
                s == polygon@,
                v0 == first_min(s, rightmost_lowest_order()),
                fuel == wrap_fuel(s.len()),
                steps <= fuel,
                wrap_walk(s, v0, steps as nat) == Some(walk),
                walk.len() == steps + 1,
                v == walk.last(),
                steps == 0 ==> prev is None,
                steps > 0 ==> prev == Some(walk[walk.len() - 2]),
                ids@ == first_occurrences(walk),
                forall|j: int| 0 <= j < walk.len() ==> s.contains(#[trigger] walk[j]),
                distinct_coords(s) ==> walk_supports(s, walk),
                distinct_coords(s) ==> !(wrap_direction(walk).0 == 0 && wrap_direction(walk).1 == 0),
                distinct_coords(s) ==> forall|q: int|
                    0 <= q < s.len() ==> cross2(wrap_direction(walk), offset(v, #[trigger] s[q])) >= 0,
            ensures
                steps >= 1,
                walk.last().id == v0.id,
                forall|j: int| 1 <= j < walk.len() - 1 ==> (#[trigger] walk[j]).id != v0.id,
                wrap_walk(s, v0, steps as nat) == Some(walk),
                ids@ == first_occurrences(walk),
                forall|j: int| 0 <= j < walk.len() ==> s.contains(#[trigger] walk[j]),
                steps <= fuel,
                distinct_coords(s) ==> walk_supports(s, walk),
            decreases fuel - steps,
        {
            if steps >= fuel {
                proof {
                    assert forall|k: nat| 1 <= k <= fuel implies !#[trigger] wrap_closes_at(s, v0, k) by {
                        if wrap_closes_at(s, v0, k) {
                            lemma_walk_prefix(s, v0, k, steps as nat);
                            assert(walk.subrange(0, k + 1int)[k as int] == walk[k as int]);
                        }
                    }
                }
                return Err(PolygonError::WrapNotClosed);
            }
            let e = match prev {
                None => None,
                Some(p) => Some(LineSegment::from_vertices(&p, &v)),
            };
            let c = polygon.min_angle_sorted_vertices(Some(v), e);
            if c.len() == 0 {
                proof {
                    assert(wrap_walk(s, v0, (steps + 1) as nat) is None);
                    assert forall|k: nat| 1 <= k <= fuel implies !#[trigger] wrap_closes_at(s, v0, k) by {
                        if wrap_closes_at(s, v0, k) {
                            if k > steps {
                                lemma_walk_prefix(s, v0, (steps + 1) as nat, k);
                            } else {
                                lemma_walk_prefix(s, v0, k, steps as nat);
                                assert(walk.subrange(0, k + 1int)[k as int] == walk[k as int]);
                            }
                        }
                    }
                    if wrap_walk(s, v0, fuel as nat) is Some {
                        lemma_walk_prefix(s, v0, (steps + 1) as nat, fuel as nat);
                    }
                }
                return Err(PolygonError::TooFewVertices);
            }
            let w = c[0];
            let ghost walk0 = walk;
            let ghost ids0 = ids@;
            proof {
                walk = walk.push(w);
                assert(walk.drop_last() =~= walk0);
                assert(s.contains(c@[0]));
                if distinct_coords(s) {
                    let d = wrap_direction(walk0);
                    assert(angle_base(s, Some(v)) == v);
                    assert(angle_direction(e) == d);
                    assert(angle_apex(e, v) == v);
                    let u = offset(v, w);
                    let iw = choose|i: int| 0 <= i < s.len() && s[i] == w;
                    let iv = choose|i: int| 0 <= i < s.len() && s[i] == v;
                    assert(w.id != v.id);
                    assert(iw != iv);
                    assert(!same_coords(s[iw], s[iv]));
                    assert(!(u.0 == 0 && u.1 == 0));
                    assert(cross2(d, offset(v, s[iw])) >= 0);
                    assert forall|q: int| 0 <= q < s.len() implies left_on_of(v, w, #[trigger] s[q]) by {
                        lemma_orient_as_cross(v, w, s[q]);
                        if s[q].id == v.id {
                            assert(q == iv);
                            crate::triangle::lemma_repeated_vertex_collinear(v, w);
                        } else {
                            lemma_least_angle_supports(d, u, offset(v, s[q]));
                        }
                    }
                    assert forall|j: int, q: int|
                        #![trigger walk[j], s[q]]
                        0 <= j < walk.len() - 1 && 0 <= q < s.len() implies left_on_of(walk[j], walk[j + 1], s[q]) by {
                        if j < walk.len() - 2 {
                            assert(walk[j] == walk0[j] && walk[j + 1] == walk0[j + 1]);
                            assert(walk0[j] == walk0[j]);
                        } else {
                            assert(walk[j] == v && walk[j + 1] == w);
                            assert(left_on_of(v, w, s[q]));
                        }
                    }
                    assert(wrap_direction(walk) == u);
                    assert forall|q: int| 0 <= q < s.len() implies cross2(wrap_direction(walk), offset(w, #[trigger] s[q])) >= 0 by {
                        lemma_orient_as_cross(v, w, s[q]);
                        assert(left_on_of(v, w, s[q]));
                    }
                }
            }
            if !contains_id(&ids, w.id) {
                ids.push(w.id);
            }
            prev = Some(v);
            v = w;
            steps = steps + 1;
            if v.id == v0.id {
                break;
            }
        }
        proof {
            assert(wrap_closes_at(s, v0, steps as nat));
            assert forall|k: nat| k <= fuel && #[trigger] wrap_closes_at(s, v0, k) implies k == steps by {
                if k < steps {
                    lemma_walk_prefix(s, v0, k, steps as nat);
                    assert(walk.subrange(0, k + 1int)[k as int] == walk[k as int]);
                } else if k > steps {
                    lemma_walk_prefix(s, v0, steps as nat, k);
                    assert(wrap_walk(s, v0, k)->0.subrange(0, steps + 1int)[steps as int] == walk[steps as int]);
                }
            }
            lemma_first_occurrences_present(s, walk);
        }
        polygon.get_polygon(ids, true, false)
    }
}

proof fn lemma_first_occurrences_present(s: Seq<Vertex>, w: Seq<Vertex>)
    requires
        forall|j: int| 0 <= j < w.len() ==> s.contains(#[trigger] w[j]),
    ensures
        forall|q: int| 0 <= q < first_occurrences(w).len() ==> has_id(s, #[trigger] first_occurrences(w)[q]),
    decreases w.len(),
{
    if w.len() > 0 {
        let p = w.drop_last();
        assert forall|j: int| 0 <= j < p.len() implies s.contains(#[trigger] p[j]) by {
            assert(p[j] == w[j]);
        }
        lemma_first_occurrences_present(s, p);
        assert(s.contains(w[w.len() - 1]));
        let i = choose|i: int| 0 <= i < s.len() && s[i] == w[w.len() - 1];
        assert(has_id(s, w.last().id));
        let fp = first_occurrences(p);
        let f = first_occurrences(w);
        assert forall|q: int| 0 <= q < f.len() implies has_id(s, #[trigger] f[q]) by {
            if q < fp.len() {
                assert(f[q] == fp[q]);
            } else {
                assert(f[q] == w.last().id);
            }
        }
    }
}

impl ConvexHullComputer for GrahamScan {
    fn convex_hull(&self, polygon: &Polygon, tracer: &mut Option<ConvexHullTracer>) -> (r: Result<
        Polygon,
        PolygonError,
    >)
        ensures
            min_angle_sorted_spec(polygon@, None, None).len() == 0 ==> r == Err::<Polygon, PolygonError>(
                PolygonError::TooFewVertices,
            ),
            min_angle_sorted_spec(polygon@, None, None).len() > 0 ==> match graham_result(polygon@) {
                None => r == Err::<Polygon, PolygonError>(PolygonError::HullStackUnderflow),
                Some(ids) => polygon_from_ids_result(polygon@, ids, true, false, r) && turns_left(polygon@, ids),
            },
            r matches Ok(hull) ==> hull.wf() && hull@.len() > 0 && vertices_within(hull@, polygon@),
            (*old(tracer)) is None <==> (*final(tracer)) is None,
            min_angle_sorted_spec(polygon@, None, None).len() > 0 ==> match graham_states(
                polygon@,
                graham_init(polygon@),
                min_angle_sorted_spec(polygon@, None, None).drop_first(),
            ) {
                Some(states) => graham_trace(*old(tracer), *final(tracer), graham_init(polygon@), states),
                None => true,
            },
    {
        GrahamScan::convex_hull(self, polygon, tracer)
    }
}

impl ConvexHullComputer for GiftWrapping {
    fn convex_hull(&self, polygon: &Polygon, tracer: &mut Option<ConvexHullTracer>) -> (r: Result<
        Polygon,
        PolygonError,
    >)
        ensures
            ({
                let s = polygon@;
                let v0 = first_min(s, rightmost_lowest_order());
                let fuel = wrap_fuel(s.len());
                &&& forall|k: nat|
                    k <= fuel && #[trigger] wrap_closes_at(s, v0, k) ==> polygon_from_ids_result(
                        s,
                        first_occurrences(wrap_walk(s, v0, k)->0),
                        true,
                        false,
                        r,
                    )
                &&& (forall|k: nat| 1 <= k <= fuel ==> !#[trigger] wrap_closes_at(s, v0, k)) ==> (if wrap_walk(
                    s,
                    v0,
                    fuel,
                ) is Some {
                    r == Err::<Polygon, PolygonError>(PolygonError::WrapNotClosed)
                } else {
                    r == Err::<Polygon, PolygonError>(PolygonError::TooFewVertices)
                })
                &&& distinct_coords(s) ==> forall|k: nat|
                    k <= fuel && #[trigger] wrap_closes_at(s, v0, k) ==> walk_supports(s, wrap_walk(s, v0, k)->0)
            }),
            r matches Ok(hull) ==> hull.wf() && hull@.len() > 0 && vertices_within(hull@, polygon@),
            *final(tracer) == *old(tracer),
    {
        GiftWrapping::convex_hull(self, polygon, tracer)
    }
}

} // verus!
