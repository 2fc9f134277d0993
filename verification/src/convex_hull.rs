//! Convex hull algorithms over polygons with integer coordinates.

use vstd::prelude::*;

use crate::line_segment::LineSegment;
use crate::polygon::{
    distinct_ids, has_id, ids_by_increasing_x, ids_of, ids_polygon, index_of, lemma_index_of,
    lemma_neighbour_indices, lower_tangent_at, polygon_from_ids_result, upper_tangent_at, valid_polygon, vertex_of,
    Polygon, PolygonError,
};
use crate::triangle::{contains_spec, Triangle};
use crate::sorting::same_elements;
use crate::vertex::{left_on_of, orient, Vertex, VertexId};

verus! {

/// One recorded step of a convex hull computation.
#[derive(Debug, Default)]
pub struct ConvexHullTracerStep {
    pub hull: Vec<VertexId>,
    pub next_vertex: Option<VertexId>,
    pub upper_tangent_vertex: Option<VertexId>,
    pub lower_tangent_vertex: Option<VertexId>,
}

impl ConvexHullTracerStep {
    /// The last `num_elements` identifiers of the hull.
    pub fn hull_tail(&self, num_elements: usize) -> (r: Vec<VertexId>)
        requires
            num_elements <= self.hull@.len(),
        ensures
            r@ == self.hull@.subrange(self.hull@.len() - num_elements, self.hull@.len() as int),
    {
        let n = self.hull.len();
        let mut r: Vec<VertexId> = Vec::new();
        let mut k: usize = n - num_elements;
        while k < n
            invariant
                n == self.hull@.len(),
                num_elements <= n,
                n - num_elements <= k <= n,
                r@ == self.hull@.subrange(n - num_elements, k as int),
            decreases n - k,
        {
            r.push(self.hull[k]);
            k = k + 1;
            assert(r@ =~= self.hull@.subrange(n - num_elements, k as int));
        }
        r
    }
}

/// The steps recorded while computing a convex hull.
#[derive(Debug, Default)]
pub struct ConvexHullTracer {
    pub steps: Vec<ConvexHullTracerStep>,
}

/// A convex hull algorithm.
pub trait ConvexHullComputer {
    /// The convex hull of `polygon`; a tracer that is given records the
    /// steps of the algorithms that trace them.
    fn convex_hull(&self, polygon: &Polygon, tracer: &mut Option<ConvexHullTracer>) -> (r: Result<
        Polygon,
        PolygonError,
    >)
        requires
            polygon.wf(),
            polygon@.len() > 0,
    ;
}

/// The triangle of the vertices at positions `a`, `b`, `c` contains the
/// vertex at position `p`, the four positions being distinct.
pub open spec fn interior_witness(s: Seq<Vertex>, p: int, a: int, b: int, c: int) -> bool {
    &&& 0 <= a < s.len() && 0 <= b < s.len() && 0 <= c < s.len()
    &&& p != a && p != b && p != c && a != b && a != c && b != c
    &&& contains_spec(s[a], s[b], s[c], s[p])
}

/// The vertex at position `p` lies in a triangle of three other vertices.
pub open spec fn interior_at(s: Seq<Vertex>, p: int) -> bool {
    exists|a: int, b: int, c: int| #[trigger] interior_witness(s, p, a, b, c)
}

/// The identifiers, in boundary order, of the vertices among the first `k`
/// positions that are interior (when `interior`) or not interior.
pub open spec fn interior_ids_upto(s: Seq<Vertex>, k: nat, interior: bool) -> Seq<VertexId>
    decreases k,
{
    if k == 0 {
        Seq::empty()
    } else if interior_at(s, k - 1) == interior {
        interior_ids_upto(s, (k - 1) as nat, interior).push(s[k - 1].id)
    } else {
        interior_ids_upto(s, (k - 1) as nat, interior)
    }
}

pub open spec fn interior_ids(s: Seq<Vertex>) -> Seq<VertexId> {
    interior_ids_upto(s, s.len(), true)
}

pub open spec fn exterior_ids(s: Seq<Vertex>) -> Seq<VertexId> {
    interior_ids_upto(s, s.len(), false)
}

proof fn lemma_ids_upto_present(s: Seq<Vertex>, k: nat, interior: bool)
    requires
        k <= s.len(),
    ensures
        forall|q: int|
            0 <= q < interior_ids_upto(s, k, interior).len() ==> has_id(
                s,
                #[trigger] interior_ids_upto(s, k, interior)[q],
            ),
    decreases k,
{
    if k > 0 {
        lemma_ids_upto_present(s, (k - 1) as nat, interior);
        assert(has_id(s, s[k - 1].id));
        let prev = interior_ids_upto(s, (k - 1) as nat, interior);
        let cur = interior_ids_upto(s, k, interior);
        assert forall|q: int| 0 <= q < cur.len() implies has_id(s, #[trigger] cur[q]) by {
            if q < prev.len() {
                assert(cur[q] == prev[q]);
            } else {
                assert(cur[q] == s[k - 1].id);
            }
        }
    }
}

/// Whether the vertex at position `p` lies in a triangle of three other
/// vertices.
fn is_interior(vs: &Vec<Vertex>, p: usize) -> (r: bool)
    requires
        p < vs.len(),
    ensures
        r == interior_at(vs@, p as int),
{
    let n = vs.len();
    let mut a: usize = 0;
    while a < n
        invariant
            n == vs@.len(),
            p < n,
            0 <= a <= n,
            forall|a2: int, b2: int, c2: int|
                0 <= a2 < a ==> !#[trigger] interior_witness(vs@, p as int, a2, b2, c2),
        decreases n - a,
    {
        let mut b: usize = 0;
        while b < n
            invariant
                n == vs@.len(),
                p < n,
                0 <= a < n,
                0 <= b <= n,
                forall|a2: int, b2: int, c2: int|
                    0 <= a2 < a ==> !#[trigger] interior_witness(vs@, p as int, a2, b2, c2),
                forall|b2: int, c2: int|
                    0 <= b2 < b ==> !#[trigger] interior_witness(vs@, p as int, a as int, b2, c2),
            decreases n - b,
        {
            let mut c: usize = 0;
            while c < n
                invariant
                    n == vs@.len(),
                    p < n,
                    0 <= a < n,
                    0 <= b < n,
                    0 <= c <= n,
                    forall|a2: int, b2: int, c2: int|
                        0 <= a2 < a ==> !#[trigger] interior_witness(vs@, p as int, a2, b2, c2),
                    forall|b2: int, c2: int|
                        0 <= b2 < b ==> !#[trigger] interior_witness(vs@, p as int, a as int, b2, c2),
                    forall|c2: int|
                        0 <= c2 < c ==> !#[trigger] interior_witness(vs@, p as int, a as int, b as int, c2),
                decreases n - c,
            {
                if p != a && p != b && p != c && a != b && a != c && b != c {
                    let t = Triangle::from_vertices(&vs[a], &vs[b], &vs[c]);
                    if t.contains(&vs[p]) {
                        assert(interior_witness(vs@, p as int, a as int, b as int, c as int));
                        return true;
                    }
                }
                assert(!interior_witness(vs@, p as int, a as int, b as int, c as int));
                c = c + 1;
            }
            assert forall|c2: int| !#[trigger] interior_witness(vs@, p as int, a as int, b as int, c2) by {
                if 0 <= c2 < n {
                }
            }
            b = b + 1;
        }
        assert forall|b2: int, c2: int| !#[trigger] interior_witness(vs@, p as int, a as int, b2, c2) by {
            if 0 <= b2 < n {
            }
        }
        a = a + 1;
    }
    assert forall|a2: int, b2: int, c2: int| !#[trigger] interior_witness(vs@, p as int, a2, b2, c2) by {
        if 0 <= a2 < n {
        }
    }
    false
}

/// The identifiers, in boundary order, of the vertices that are (when
/// `interior`) or are not interior.
fn select_interior(vs: &Vec<Vertex>, interior: bool) -> (r: Vec<VertexId>)
    ensures
        r@ == interior_ids_upto(vs@, vs@.len(), interior),
{
    let mut r: Vec<VertexId> = Vec::new();
    let mut k: usize = 0;
    while k < vs.len()
        invariant
            0 <= k <= vs.len(),
            r@ == interior_ids_upto(vs@, k as nat, interior),
        decreases vs.len() - k,
    {
        if is_interior(vs, k) == interior {
            r.push(vs[k].id);
        }
        k = k + 1;
    }
    r
}

/// Convex hull by discarding every vertex that lies in a triangle of three
/// others.
#[derive(Clone, Copy, Debug, Default)]
pub struct InteriorPoints;

impl InteriorPoints {
    /// The identifiers, in boundary order, of the vertices that lie in a
    /// triangle of three other vertices.
    pub fn interior_points(&self, polygon: &Polygon) -> (r: Vec<VertexId>)
        ensures
            r@ == interior_ids(polygon@),
    {
        let vs = polygon.copy_vertices();
        select_interior(&vs, true)
    }

    /// The polygon of the vertices that are not interior, by identifier.
    pub fn convex_hull(&self, polygon: &Polygon, tracer: &mut Option<ConvexHullTracer>) -> (r: Result<
        Polygon,
        PolygonError,
    >)
        requires
            polygon.wf(),
        ensures
            polygon_from_ids_result(polygon@, exterior_ids(polygon@), true, false, r),
            r matches Ok(hull) ==> hull.wf() && hull@.len() > 0 && vertices_within(hull@, polygon@),
            r matches Ok(hull) ==> ids_of(hull@).to_set() == exterior_ids(polygon@).to_set(),
            *final(tracer) == *old(tracer),
    {
        let vs = polygon.copy_vertices();
        let hull_ids = select_interior(&vs, false);
        proof {
            lemma_ids_upto_present(polygon@, polygon@.len(), false);
        }
        let ghost hv = hull_ids@;
        let r = polygon.get_polygon(hull_ids, true, false);
        proof {
            if r is Ok {
                lemma_looked_up_ids(polygon@, hv, r->Ok_0@);
            }
        }
        r
    }
}

/// A cycle with the same vertices as those looked up by the identifiers
/// `ids` has exactly those identifiers.
proof fn lemma_looked_up_ids(s: Seq<Vertex>, ids: Seq<VertexId>, h: Seq<Vertex>)
    requires
        forall|k: int| 0 <= k < ids.len() ==> has_id(s, #[trigger] ids[k]),
        same_elements(h, ids.map_values(|id: VertexId| vertex_of(s, id))),
    ensures
        ids_of(h).to_set() == ids.to_set(),
{
    let looked = ids.map_values(|id: VertexId| vertex_of(s, id));
    assert forall|x: VertexId| ids_of(h).to_set().contains(x) <==> ids.to_set().contains(x) by {
        if ids_of(h).to_set().contains(x) {
            let k = choose|k: int| 0 <= k < ids_of(h).len() && ids_of(h)[k] == x;
            assert(h.contains(h[k]));
            assert(looked.contains(h[k]));
            let j = choose|j: int| 0 <= j < looked.len() && looked[j] == h[k];
            assert(has_id(s, ids[j]));
            assert(ids[j] == x);
            assert(ids.contains(x));
        }
        if ids.to_set().contains(x) {
            let j = choose|j: int| 0 <= j < ids.len() && ids[j] == x;
            assert(has_id(s, ids[j]));
            assert(looked.contains(looked[j]));
            assert(h.contains(looked[j]));
            let k = choose|k: int| 0 <= k < h.len() && h[k] == looked[j];
            assert(ids_of(h)[k] == x);
            assert(ids_of(h).contains(x));
        }
    }
    assert(ids_of(h).to_set() =~= ids.to_set());
}

/// The directed edge from position `i` to position `j` has every other
/// vertex on its left or on it.
pub open spec fn extreme_pair(s: Seq<Vertex>, i: int, j: int) -> bool {
    &&& 0 <= i < s.len() && 0 <= j < s.len() && i != j
    &&& forall|k: int| 0 <= k < s.len() && k != i && k != j ==> #[trigger] left_on_of(s[i], s[j], s[k])
}

/// The extreme edges from position `i` to positions before `j`, in order.
pub open spec fn extreme_row_upto(s: Seq<Vertex>, i: int, j: nat) -> Seq<(VertexId, VertexId)>
    decreases j,
{
    if j == 0 {
        Seq::empty()
    } else if extreme_pair(s, i, j - 1) {
        extreme_row_upto(s, i, (j - 1) as nat).push((s[i].id, s[j - 1].id))
    } else {
        extreme_row_upto(s, i, (j - 1) as nat)
    }
}

/// The extreme edges leaving the first `i` positions, ordered by start then
/// end position.
pub open spec fn extreme_rows_upto(s: Seq<Vertex>, i: nat) -> Seq<(VertexId, VertexId)>
    decreases i,
{
    if i == 0 {
        Seq::empty()
    } else {
        extreme_rows_upto(s, (i - 1) as nat) + extreme_row_upto(s, i - 1, s.len())
    }
}

/// All extreme edges, ordered by start then end position.
pub open spec fn extreme_edges_spec(s: Seq<Vertex>) -> Seq<(VertexId, VertexId)> {
    extreme_rows_upto(s, s.len())
}

/// The identifiers, in boundary order, of the vertices among the first `k`
/// positions that start an extreme edge.
pub open spec fn edge_starts_upto(s: Seq<Vertex>, k: nat) -> Seq<VertexId>
    decreases k,
{
    if k == 0 {
        Seq::empty()
    } else if exists|j: int| #[trigger] extreme_pair(s, k - 1, j) {
        edge_starts_upto(s, (k - 1) as nat).push(s[k - 1].id)
    } else {
        edge_starts_upto(s, (k - 1) as nat)
    }
}

pub open spec fn edge_starts(s: Seq<Vertex>) -> Seq<VertexId> {
    edge_starts_upto(s, s.len())
}

/// Whether the edge from position `i` to position `j` is extreme.
fn is_extreme_pair(vs: &Vec<Vertex>, i: usize, j: usize) -> (r: bool)
    requires
        i < vs.len(),
        j < vs.len(),
    ensures
        r == extreme_pair(vs@, i as int, j as int),
{
    if i == j {
        return false;
    }
    let ls = LineSegment::from_vertices(&vs[i], &vs[j]);
    let mut k: usize = 0;
    while k < vs.len()
        invariant
            i < vs.len(),
            j < vs.len(),
            i != j,
            ls.v1 == vs@[i as int],
            ls.v2 == vs@[j as int],
            0 <= k <= vs.len(),
            forall|q: int| 0 <= q < k && q != i && q != j ==> #[trigger] left_on_of(vs@[i as int], vs@[j as int], vs@[q]),
        decreases vs.len() - k,
    {
        if k != i && k != j && !vs[k].left_on(&ls) {
            return false;
        }
        k = k + 1;
    }
    true
}

/// Whether the vertex at position `i` starts an extreme edge.
fn starts_extreme_edge(vs: &Vec<Vertex>, i: usize) -> (r: bool)
    requires
        i < vs.len(),
    ensures
        r == exists|j: int| #[trigger] extreme_pair(vs@, i as int, j),
{
    let n = vs.len();
    let mut j: usize = 0;
    while j < n
        invariant
            n == vs@.len(),
            i < n,
            0 <= j <= n,
            forall|q: int| 0 <= q < j ==> !#[trigger] extreme_pair(vs@, i as int, q),
        decreases n - j,
    {
        if is_extreme_pair(vs, i, j) {
            return true;
        }
        j = j + 1;
    }
    assert forall|q: int| !#[trigger] extreme_pair(vs@, i as int, q) by {
        if 0 <= q < n {
        }
    }
    false
}

/// Convex hull by finding every edge that has all other vertices on its
/// left.
#[derive(Clone, Copy, Debug, Default)]
pub struct ExtremeEdges;

impl ExtremeEdges {
    /// Every ordered pair of distinct vertices whose directed edge has all
    /// other vertices on its left or on it, ordered by start then end
    /// position in boundary order.
    pub fn extreme_edges(&self, polygon: &Polygon) -> (r: Vec<(VertexId, VertexId)>)
        ensures
            r@ == extreme_edges_spec(polygon@),
    {
        let vs = polygon.copy_vertices();
        let n = vs.len();
        let mut r: Vec<(VertexId, VertexId)> = Vec::new();
        let mut i: usize = 0;
        while i < n
            invariant
                vs@ == polygon@,
                n == vs@.len(),
                0 <= i <= n,
                r@ == extreme_rows_upto(vs@, i as nat),
            decreases n - i,
        {
            let mut j: usize = 0;
            while j < n
                invariant
                    vs@ == polygon@,
                    n == vs@.len(),
                    0 <= i < n,
                    0 <= j <= n,
                    r@ == extreme_rows_upto(vs@, i as nat) + extreme_row_upto(vs@, i as int, j as nat),
                decreases n - j,
            {
                if is_extreme_pair(&vs, i, j) {
                    r.push((vs[i].id, vs[j].id));
                    assert(r@ =~= extreme_rows_upto(vs@, i as nat) + extreme_row_upto(vs@, i as int, (j + 1) as nat));
                }
                j = j + 1;
            }
            i = i + 1;
        }
        r
    }

    /// The polygon of the vertices that start an extreme edge, arranged by
    /// identifier and cleaned of collinear vertices.
    pub fn convex_hull(&self, polygon: &Polygon, tracer: &mut Option<ConvexHullTracer>) -> (r: Result<
        Polygon,
        PolygonError,
    >)
        requires
            polygon.wf(),
        ensures
            polygon_from_ids_result(polygon@, edge_starts(polygon@), true, true, r),
            r matches Ok(hull) ==> hull.wf() && hull@.len() > 0 && vertices_within(hull@, polygon@),
            *final(tracer) == *old(tracer),
    {
        let vs = polygon.copy_vertices();
        let n = vs.len();
        let mut starts: Vec<VertexId> = Vec::new();
        let mut i: usize = 0;
        while i < n
            invariant
                vs@ == polygon@,
                n == vs@.len(),
                0 <= i <= n,
                starts@ == edge_starts_upto(vs@, i as nat),
                forall|q: int| 0 <= q < starts@.len() ==> has_id(vs@, #[trigger] starts@[q]),
            decreases n - i,
        {
            if starts_extreme_edge(&vs, i) {
                assert(has_id(vs@, vs@[i as int].id));
                let ghost prev = starts@;
                starts.push(vs[i].id);
                assert forall|q: int| 0 <= q < starts@.len() implies has_id(vs@, #[trigger] starts@[q]) by {
                    if q < prev.len() {
                        assert(starts@[q] == prev[q]);
                    }
                }
            }
            i = i + 1;
        }
        polygon.get_polygon(starts, true, true)
    }
}

/// `3^n`: the weight of a pending subproblem of `n` vertices in the
/// termination measure of QuickHull.
pub open spec fn weight(n: nat) -> nat
    decreases n,
{
    if n == 0 {
        1
    } else {
        3 * weight((n - 1) as nat)
    }
}

/// The termination measure of QuickHull: the total weight of the pending
/// subproblems.
pub open spec fn pending_weight(st: Seq<(VertexId, VertexId, Vec<Vertex>)>) -> nat
    decreases st.len(),
{
    if st.len() == 0 {
        0
    } else {
        pending_weight(st.drop_last()) + weight(st.last().2@.len())
    }
}

proof fn lemma_weight_monotone(a: nat, b: nat)
    requires
        a <= b,
    ensures
        weight(a) <= weight(b),
        1 <= weight(a),
    decreases b,
{
    if a < b {
        lemma_weight_monotone(a, (b - 1) as nat);
    } else if a > 0 {
        lemma_weight_monotone((a - 1) as nat, (a - 1) as nat);
    }
}

/// Every pending subproblem joins two vertices of the polygon and holds
/// vertices of the polygon.
pub open spec fn pending_in(s: Seq<Vertex>, st: Seq<(VertexId, VertexId, Vec<Vertex>)>) -> bool {
    forall|q: int|
        0 <= q < st.len() ==> has_id(s, (#[trigger] st[q]).0) && has_id(s, st[q].1) && forall|k: int|
            0 <= k < st[q].2@.len() ==> s.contains(#[trigger] st[q].2@[k])
}

/// The vertices of `vs` strictly right of the directed segment `ab`.
fn right_of(vs: &Vec<Vertex>, ab: &LineSegment) -> (r: Vec<Vertex>)
    ensures
        r@ == vs@.filter(|v: Vertex| !left_on_of(ab.v1, ab.v2, v)),
{
    let mut r: Vec<Vertex> = Vec::new();
    let mut k: usize = 0;
    while k < vs.len()
        invariant
            0 <= k <= vs.len(),
            r@ == vs@.subrange(0, k as int).filter(|v: Vertex| !left_on_of(ab.v1, ab.v2, v)),
        decreases vs.len() - k,
    {
        let ghost pre = vs@.subrange(0, k as int);
        if vs[k].right(ab) {
            r.push(vs[k]);
        }
        k = k + 1;
        proof {
            assert(vs@.subrange(0, k as int) =~= pre.push(vs@[k - 1]));
            pre.lemma_filter_push(vs@[k - 1], |v: Vertex| !left_on_of(ab.v1, ab.v2, v));
        }
    }
    assert(vs@.subrange(0, vs.len() as int) =~= vs@);
    r
}

/// Adds `id` to the identifier set `ids` unless it is already there.
fn insert_id(ids: &mut Vec<VertexId>, id: VertexId)
    ensures
        forall|x: VertexId| final(ids)@.contains(x) <==> (old(ids)@.contains(x) || x == id),
        old(ids)@.no_duplicates() ==> final(ids)@.no_duplicates(),
{
    let mut k: usize = 0;
    while k < ids.len()
        invariant
            0 <= k <= ids.len(),
            forall|q: int| 0 <= q < k ==> ids@[q] != id,
        decreases ids.len() - k,
    {
        if ids[k] == id {
            return;
        }
        k = k + 1;
    }
    ids.push(id);
    proof {
        assert forall|x: VertexId| ids@.contains(x) <==> (old(ids)@.contains(x) || x == id) by {
            if ids@.contains(x) {
                let q = choose|q: int| 0 <= q < ids@.len() && ids@[q] == x;
                if q < old(ids)@.len() {
                    assert(old(ids)@[q] == x);
                }
            }
            if old(ids)@.contains(x) {
                let q = choose|q: int| 0 <= q < old(ids)@.len() && old(ids)@[q] == x;
                assert(ids@[q] == x);
            }
            if x == id {
                assert(ids@[ids@.len() - 1] == x);
            }
        }
    }
}

/// The distance of `v` from the line through `a` and `b`, scaled by the
/// length of `ab`.
pub open spec fn line_distance(a: Vertex, b: Vertex, v: Vertex) -> int {
    crate::angle::abs(crate::vertex::orient(a, b, v))
}

/// `i` is the last position of `pts` whose vertex is farthest from the line
/// through `a` and `b`.
pub open spec fn is_last_farthest(pts: Seq<Vertex>, a: Vertex, b: Vertex, i: int) -> bool {
    &&& 0 <= i < pts.len()
    &&& forall|k: int| 0 <= k < pts.len() ==> line_distance(a, b, #[trigger] pts[k]) <= line_distance(a, b, pts[i])
    &&& forall|k: int| i < k < pts.len() ==> line_distance(a, b, #[trigger] pts[k]) < line_distance(a, b, pts[i])
}

/// The last position of `pts` whose vertex is farthest from the line
/// through `a` and `b`.
pub open spec fn last_farthest(pts: Seq<Vertex>, a: Vertex, b: Vertex) -> int {
    choose|i: int| is_last_farthest(pts, a, b, i)
}

pub proof fn lemma_last_farthest(pts: Seq<Vertex>, a: Vertex, b: Vertex, i: int)
    requires
        pts.len() > 0,
    ensures
        is_last_farthest(pts, a, b, last_farthest(pts, a, b)),
        is_last_farthest(pts, a, b, i) ==> i == last_farthest(pts, a, b),
    decreases pts.len(),
{
    if !exists|j: int| is_last_farthest(pts, a, b, j) {
        if pts.len() == 1 {
            assert(is_last_farthest(pts, a, b, 0));
        } else {
            let p = pts.drop_last();
            lemma_last_farthest(p, a, b, 0);
            let j = last_farthest(p, a, b);
            let n = pts.len() - 1;
            if line_distance(a, b, pts[n]) >= line_distance(a, b, pts[j]) {
                assert forall|k: int| 0 <= k < pts.len() implies line_distance(a, b, #[trigger] pts[k])
                    <= line_distance(a, b, pts[n]) by {
                    if k < n {
                        assert(pts[k] == p[k]);
                    }
                }
                assert(is_last_farthest(pts, a, b, n));
            } else {
                assert forall|k: int| 0 <= k < pts.len() implies line_distance(a, b, #[trigger] pts[k])
                    <= line_distance(a, b, pts[j]) by {
                    if k < n {
                        assert(pts[k] == p[k]);
                    }
                }
                assert forall|k: int| j < k < pts.len() implies line_distance(a, b, #[trigger] pts[k])
                    < line_distance(a, b, pts[j]) by {
                    if k < n {
                        assert(pts[k] == p[k]);
                    }
                }
                assert(is_last_farthest(pts, a, b, j));
            }
        }
    }
    let c = last_farthest(pts, a, b);
    if is_last_farthest(pts, a, b, i) && i != c {
        if i < c {
            assert(line_distance(a, b, pts[c]) < line_distance(a, b, pts[i]));
        } else {
            assert(line_distance(a, b, pts[i]) < line_distance(a, b, pts[c]));
        }
    }
}

/// The position of the last vertex of `vs` farthest from the line through
/// `ab`.
fn farthest_last(vs: &Vec<Vertex>, ab: &LineSegment) -> (i: usize)
    requires
        vs.len() > 0,
    ensures
        is_last_farthest(vs@, ab.v1, ab.v2, i as int),
{
    let mut best: usize = 0;
    let mut best_d: u128 = ab.scaled_distance_to_vertex(&vs[0]);
    let mut k: usize = 1;
    while k < vs.len()
        invariant
            1 <= k <= vs.len(),
            best < k,
            best_d as int == line_distance(ab.v1, ab.v2, vs@[best as int]),
            forall|q: int| 0 <= q < k ==> line_distance(ab.v1, ab.v2, #[trigger] vs@[q]) <= best_d,
            forall|q: int| best < q < k ==> line_distance(ab.v1, ab.v2, #[trigger] vs@[q]) < best_d,
        decreases vs.len() - k,
    {
        let d = ab.scaled_distance_to_vertex(&vs[k]);
        if d >= best_d {
            best = k;
            best_d = d;
        }
        k = k + 1;
    }
    best
}

/// The vertices of `pts` strictly right of the directed line from `a` to `b`.
pub open spec fn strictly_right(pts: Seq<Vertex>, a: Vertex, b: Vertex) -> Seq<Vertex> {
    pts.filter(|v: Vertex| !left_on_of(a, b, v))
}

/// A side still to be searched by QuickHull: the ends of a hull edge and the
/// vertices right of it.
pub type HullSide = (Vertex, Vertex, Seq<Vertex>);

/// The total weight of the sides still to be searched: `3^n` for a side of
/// `n` vertices.
pub open spec fn sides_weight(st: Seq<HullSide>) -> nat
    decreases st.len(),
{
    if st.len() == 0 {
        0
    } else {
        sides_weight(st.drop_last()) + weight(st.last().2.len())
    }
}

/// The identifiers QuickHull collects from the sides `st`, on top of `ids`:
/// the top side is taken off; when it has vertices, its vertex farthest from
/// its edge (the last of them) is collected, and the vertices strictly right
/// of each of the two new edges through it, where there are any, become
/// sides in turn.
pub open spec fn quickhull_ids(st: Seq<HullSide>, ids: Set<VertexId>) -> Set<VertexId>
    decreases sides_weight(st),
{
    if st.len() == 0 {
        ids
    } else {
        let (a, b, pts) = st.last();
        let rest = st.drop_last();
        if pts.len() == 0 {
            quickhull_ids(rest, ids)
        } else {
            let i = last_farthest(pts, a, b);
            let c = pts[i];
            let p1 = strictly_right(pts, a, c);
            let p2 = strictly_right(pts, c, b);
            let st1 = if p1.len() > 0 {
                rest.push((a, c, p1))
            } else {
                rest
            };
            let st2 = if p2.len() > 0 {
                st1.push((c, b, p2))
            } else {
                st1
            };
            proof {
                lemma_quickhull_step_weight(st, i);
            }
            quickhull_ids(st2, ids.insert(c.id))
        }
    }
}

/// Each step of QuickHull lowers the total weight of the sides to search.
pub proof fn lemma_quickhull_step_weight(st: Seq<HullSide>, i: int)
    requires
        st.len() > 0,
        st.last().2.len() > 0,
        i == last_farthest(st.last().2, st.last().0, st.last().1),
    ensures
        ({
            let (a, b, pts) = st.last();
            let rest = st.drop_last();
            let c = pts[i];
            let p1 = strictly_right(pts, a, c);
            let p2 = strictly_right(pts, c, b);
            let st1 = if p1.len() > 0 {
                rest.push((a, c, p1))
            } else {
                rest
            };
            let st2 = if p2.len() > 0 {
                st1.push((c, b, p2))
            } else {
                st1
            };
            sides_weight(st2) < sides_weight(st)
        }),
{
    let (a, b, pts) = st.last();
    let rest = st.drop_last();
    lemma_last_farthest(pts, a, b, 0);
    let c = pts[i];
    let p1 = strictly_right(pts, a, c);
    let p2 = strictly_right(pts, c, b);
    lemma_right_of_smaller(pts, LineSegment { v1: a, v2: c }, i);
    lemma_right_of_smaller(pts, LineSegment { v1: c, v2: b }, i);
    lemma_weight_monotone(p1.len(), (pts.len() - 1) as nat);
    lemma_weight_monotone(p2.len(), (pts.len() - 1) as nat);
    lemma_weight_monotone(0, (pts.len() - 1) as nat);
    assert(weight(pts.len()) == 3 * weight((pts.len() - 1) as nat));
    let st1 = if p1.len() > 0 {
        rest.push((a, c, p1))
    } else {
        rest
    };
    let st2 = if p2.len() > 0 {
        st1.push((c, b, p2))
    } else {
        st1
    };
    assert(p1.len() < pts.len());
    assert(p2.len() < pts.len());
    assert(sides_weight(st) == sides_weight(rest) + weight(pts.len()));
    if p1.len() > 0 {
        assert(st1.drop_last() =~= rest);
        assert(sides_weight(st1) == sides_weight(rest) + weight(p1.len()));
    }
    if p2.len() > 0 {
        assert(st2.drop_last() =~= st1);
        assert(sides_weight(st2) == sides_weight(st1) + weight(p2.len()));
    }
}

/// The rest of the vertices of `s`: all but the two with identifiers `x`
/// and `y`.
pub open spec fn all_but(s: Seq<Vertex>, x: VertexId, y: VertexId) -> Seq<Vertex> {
    s.filter(|v: Vertex| v.id != x && v.id != y)
}

/// The sides QuickHull starts from: the vertices strictly right of the
/// segment from the lowest of the rightmost vertices `x` to the highest of
/// the leftmost vertices `y`, and the others, each side where it has any.
pub open spec fn quickhull_start(s: Seq<Vertex>) -> Seq<HullSide> {
    let x = crate::geometry::first_min(s, crate::geometry::VertexOrder { x_first: true, first_desc: true, second_desc: false });
    let y = crate::geometry::first_min(s, crate::geometry::VertexOrder { x_first: true, first_desc: false, second_desc: true });
    let rest = all_but(s, x.id, y.id);
    let s1 = strictly_right(rest, x, y);
    let s2 = rest.filter(|v: Vertex| left_on_of(x, y, v));
    let st1: Seq<HullSide> = if s1.len() > 0 {
        seq![(x, y, s1)]
    } else {
        Seq::empty()
    };
    if s2.len() > 0 {
        st1.push((y, x, s2))
    } else {
        st1
    }
}

/// The identifiers of the vertices QuickHull collects on `s`.
pub open spec fn quickhull_result(s: Seq<Vertex>) -> Set<VertexId> {
    let x = crate::geometry::first_min(s, crate::geometry::VertexOrder { x_first: true, first_desc: true, second_desc: false });
    let y = crate::geometry::first_min(s, crate::geometry::VertexOrder { x_first: true, first_desc: false, second_desc: true });
    quickhull_ids(quickhull_start(s), set![x.id, y.id])
}

/// The sides of the executable stack, with the ends looked up in `s`.
pub open spec fn sides_of(s: Seq<Vertex>, st: Seq<(VertexId, VertexId, Vec<Vertex>)>) -> Seq<HullSide> {
    st.map_values(|e: (VertexId, VertexId, Vec<Vertex>)| (vertex_of(s, e.0), vertex_of(s, e.1), e.2@))
}

/// The QuickHull algorithm.
#[derive(Clone, Copy, Debug, Default)]
pub struct QuickHull;

impl QuickHull {
    /// Starts from the lowest of the rightmost and the highest of the
    /// leftmost vertices and repeatedly adds, for each pending side, the
    /// vertex farthest from the current hull edge, until no vertex lies
    /// outside. The result is the polygon of the collected vertices, arranged
    /// by identifier.
    pub fn convex_hull(&self, polygon: &Polygon, tracer: &mut Option<ConvexHullTracer>) -> (r: Result<
        Polygon,
        PolygonError,
    >)
        requires
            polygon.wf(),
            polygon@.len() > 0,
        ensures
            exists|hull: Seq<VertexId>|
                hull.no_duplicates() && hull.to_set() == quickhull_result(polygon@) && polygon_from_ids_result(
                    polygon@,
                    hull,
                    true,
                    false,
                    r,
                ),
            r matches Ok(hull) ==> hull.wf() && hull@.len() > 0 && vertices_within(hull@, polygon@),
            r matches Ok(hull) ==> ids_of(hull@).to_set() == quickhull_result(polygon@),
            valid_polygon(polygon@) ==> (r matches Ok(hull) ==> exterior_ids(polygon@).to_set().subset_of(
                ids_of(hull@).to_set(),
            )),
            *final(tracer) == *old(tracer),
    {
        let ghost s = polygon@;
        let ghost ox = crate::geometry::VertexOrder { x_first: true, first_desc: true, second_desc: false };
        let ghost oy = crate::geometry::VertexOrder { x_first: true, first_desc: false, second_desc: true };
        let x = polygon.lowest_rightmost_vertex();
        let y = polygon.highest_leftmost_vertex();
        proof {
            let i = choose|i: int| crate::geometry::is_first_min(s, i, ox) && x == s[i];
            let i2 = choose|i: int| crate::geometry::is_first_min(s, i, ox);
            crate::geometry::lemma_first_min_unique(s, i, i2, ox);
            let j = choose|j: int| crate::geometry::is_first_min(s, j, oy) && y == s[j];
            let j2 = choose|j: int| crate::geometry::is_first_min(s, j, oy);
            crate::geometry::lemma_first_min_unique(s, j, j2, oy);
            assert(x == crate::geometry::first_min(s, ox));
            assert(y == crate::geometry::first_min(s, oy));
            assert(has_id(s, x.id) && has_id(s, y.id));
            lemma_index_of(s, i);
            lemma_index_of(s, j);
        }
        let xy = LineSegment::from_vertices(&x, &y);
        let all = polygon.copy_vertices();
        let ghost keep = |v: Vertex| v.id != x.id && v.id != y.id;
        let mut rest: Vec<Vertex> = Vec::new();
        let mut k: usize = 0;
        while k < all.len()
            invariant
                all@ == s,
                0 <= k <= all.len(),
                keep == (|v: Vertex| v.id != x.id && v.id != y.id),
                rest@ == all@.subrange(0, k as int).filter(keep),
            decreases all.len() - k,
        {
            let ghost pre = all@.subrange(0, k as int);
            if all[k].id != x.id && all[k].id != y.id {
                rest.push(all[k]);
            }
            k = k + 1;
            proof {
                assert(all@.subrange(0, k as int) =~= pre.push(all@[k - 1]));
                pre.lemma_filter_push(all@[k - 1], keep);
            }
        }
        proof {
            assert(all@.subrange(0, all.len() as int) =~= all@);
            assert(rest@ == all_but(s, x.id, y.id));
            assert forall|q: int| 0 <= q < rest@.len() implies s.contains(#[trigger] rest@[q]) by {
                s.lemma_filter_contains_rev(keep, rest@[q]);
            }
        }
        let mut hull_ids: Vec<VertexId> = Vec::new();
        hull_ids.push(x.id);
        if y.id != x.id {
            hull_ids.push(y.id);
        }
        proof {
            assert(hull_ids@[0] == x.id);
            assert(hull_ids@.contains(x.id));
            if y.id != x.id {
                assert(hull_ids@[1] == y.id);
                assert(hull_ids@.contains(y.id));
            }
            assert forall|z: VertexId| hull_ids@.to_set().contains(z) <==> set![x.id, y.id].contains(z) by {
                if hull_ids@.contains(z) {
                    let q = choose|q: int| 0 <= q < hull_ids@.len() && hull_ids@[q] == z;
                }
            }
            assert(hull_ids@.to_set() =~= set![x.id, y.id]);
            assert forall|q: int| 0 <= q < hull_ids@.len() implies has_id(s, #[trigger] hull_ids@[q]) by {
                assert(hull_ids@.contains(hull_ids@[q]));
            }
        }
        let s1 = right_of(&rest, &xy);
        let ghost on_left = |v: Vertex| left_on_of(x, y, v);
        let mut s2: Vec<Vertex> = Vec::new();
        let mut k: usize = 0;
        while k < rest.len()
            invariant
                0 <= k <= rest.len(),
                on_left == (|v: Vertex| left_on_of(x, y, v)),
                xy.v1 == x && xy.v2 == y,
                s2@ == rest@.subrange(0, k as int).filter(on_left),
            decreases rest.len() - k,
        {
            let ghost pre = rest@.subrange(0, k as int);
            if !rest[k].right(&xy) {
                s2.push(rest[k]);
            }
            k = k + 1;
            proof {
                assert(rest@.subrange(0, k as int) =~= pre.push(rest@[k - 1]));
                pre.lemma_filter_push(rest@[k - 1], on_left);
            }
        }
        proof {
            assert(rest@.subrange(0, rest.len() as int) =~= rest@);
            assert forall|q: int| 0 <= q < s1@.len() implies s.contains(#[trigger] s1@[q]) by {
                rest@.lemma_filter_contains_rev(|v: Vertex| !left_on_of(xy.v1, xy.v2, v), s1@[q]);
            }
            assert forall|q: int| 0 <= q < s2@.len() implies s.contains(#[trigger] s2@[q]) by {
                rest@.lemma_filter_contains_rev(on_left, s2@[q]);
            }
        }
        let mut stack: Vec<(VertexId, VertexId, Vec<Vertex>)> = Vec::new();
        if s1.len() > 0 {
            stack.push((x.id, y.id, s1));
        }
        if s2.len() > 0 {
            stack.push((y.id, x.id, s2));
        }
        proof {
            let st = quickhull_start(s);
            assert(sides_of(s, stack@) =~= st);
        }
        while stack.len() > 0
            invariant
                polygon.wf(),
                polygon@ == s,
                pending_in(s, stack@),
                forall|q: int| 0 <= q < hull_ids@.len() ==> has_id(s, #[trigger] hull_ids@[q]),
                hull_ids@.no_duplicates(),
                quickhull_ids(sides_of(s, stack@), hull_ids@.to_set()) == quickhull_result(s),
            decreases pending_weight(stack@),
        {
            let ghost before = stack@;
            let (a, b, pts) = stack.pop().unwrap();
            proof {
                assert(before.drop_last() =~= stack@);
                assert(before.last() == (a, b, pts));
                assert(sides_of(s, before).drop_last() =~= sides_of(s, stack@));
                assert(pending_weight(before) == pending_weight(stack@) + weight(pts@.len()));
                lemma_weight_monotone(0, pts@.len());
                assert(pending_in(s, stack@)) by {
                    assert forall|q: int| 0 <= q < stack@.len() implies has_id(s, (#[trigger] stack@[q]).0)
                        && has_id(s, stack@[q].1) && forall|k: int|
                        0 <= k < stack@[q].2@.len() ==> s.contains(#[trigger] stack@[q].2@[k]) by {
                        assert(stack@[q] == before[q]);
                    }
                }
                assert(has_id(s, a) && has_id(s, b)) by {
                    assert(before[before.len() - 1] == (a, b, pts));
                }
                assert(forall|k: int| 0 <= k < pts@.len() ==> s.contains(#[trigger] pts@[k])) by {
                    assert(before[before.len() - 1] == (a, b, pts));
                }
            }
            if pts.len() == 0 {
                continue;
            }
            let ab = polygon.get_line_segment(&a, &b).unwrap();
            let ci = farthest_last(&pts, &ab);
            let cv = pts[ci];
            let c = cv.id;
            proof {
                lemma_last_farthest(pts@, ab.v1, ab.v2, ci as int);
                assert(s.contains(cv));
                let j = choose|j: int| 0 <= j < s.len() && s[j] == cv;
                lemma_index_of(s, j);
                assert(has_id(s, c));
                assert(vertex_of(s, c) == cv);
            }
            let ghost hull_before = hull_ids@;
            insert_id(&mut hull_ids, c);
            proof {
                assert(hull_ids@.to_set() =~= hull_before.to_set().insert(c));
                assert forall|q: int| 0 <= q < hull_ids@.len() implies has_id(s, #[trigger] hull_ids@[q]) by {
                    assert(hull_ids@.contains(hull_ids@[q]));
                    if hull_before.contains(hull_ids@[q]) {
                        let j = choose|j: int| 0 <= j < hull_before.len() && hull_before[j] == hull_ids@[q];
                    }
                }
            }
            let ac = polygon.get_line_segment(&a, &c).unwrap();
            let cb = polygon.get_line_segment(&c, &b).unwrap();
            let p1 = right_of(&pts, &ac);
            let p2 = right_of(&pts, &cb);
            proof {
                lemma_right_of_smaller(pts@, ac, ci as int);
                lemma_right_of_smaller(pts@, cb, ci as int);
                lemma_weight_monotone(p1@.len(), (pts@.len() - 1) as nat);
                lemma_weight_monotone(p2@.len(), (pts@.len() - 1) as nat);
                assert(weight(pts@.len()) == 3 * weight((pts@.len() - 1) as nat));
                lemma_weight_monotone(0, (pts@.len() - 1) as nat);
                assert forall|q: int| 0 <= q < p1@.len() implies s.contains(#[trigger] p1@[q]) by {
                    pts@.lemma_filter_contains_rev(|v: Vertex| !left_on_of(ac.v1, ac.v2, v), p1@[q]);
                    let j = choose|j: int| 0 <= j < pts@.len() && pts@[j] == p1@[q];
                }
                assert forall|q: int| 0 <= q < p2@.len() implies s.contains(#[trigger] p2@[q]) by {
                    pts@.lemma_filter_contains_rev(|v: Vertex| !left_on_of(cb.v1, cb.v2, v), p2@[q]);
                    let j = choose|j: int| 0 <= j < pts@.len() && pts@[j] == p2@[q];
                }
            }
            let ghost mid = stack@;
            if p1.len() > 0 {
                stack.push((a, c, p1));
            }
            let ghost mid2 = stack@;
            if p2.len() > 0 {
                stack.push((c, b, p2));
            }
            proof {
                assert(pending_weight(before) == pending_weight(mid) + weight(pts@.len()));
                if p1@.len() > 0 {
                    assert(mid2.drop_last() =~= mid);
                    assert(pending_weight(mid2) == pending_weight(mid) + weight(p1@.len()));
                } else {
                    assert(mid2 == mid);
                }
                if p2@.len() > 0 {
                    assert(stack@.drop_last() =~= mid2);
                    assert(pending_weight(stack@) == pending_weight(mid2) + weight(p2@.len()));
                } else {
                    assert(stack@ == mid2);
                }
                assert forall|q: int| 0 <= q < stack@.len() implies has_id(s, (#[trigger] stack@[q]).0)
                    && has_id(s, stack@[q].1) && forall|k: int|
                    0 <= k < stack@[q].2@.len() ==> s.contains(#[trigger] stack@[q].2@[k]) by {
                    if q < mid.len() {
                        assert(stack@[q] == mid[q]);
                    }
                }
                let sb = sides_of(s, before);
                let av = vertex_of(s, a);
                let bv = vertex_of(s, b);
                assert(sb.last() == (av, bv, pts@));
                let sp1 = strictly_right(pts@, av, cv);
                let sp2 = strictly_right(pts@, cv, bv);
                assert(p1@ == sp1);
                assert(p2@ == sp2);
                let st1 = if sp1.len() > 0 {
                    sb.drop_last().push((av, cv, sp1))
                } else {
                    sb.drop_last()
                };
                let st2 = if sp2.len() > 0 {
                    st1.push((cv, bv, sp2))
                } else {
                    st1
                };
                assert(sides_of(s, mid2) =~= st1);
                assert(sides_of(s, stack@) =~= st2);
                assert(quickhull_ids(sb, hull_before.to_set()) == quickhull_ids(st2, hull_before.to_set().insert(c)));
            }
        }
        proof {
            assert(sides_of(s, stack@) =~= Seq::<HullSide>::empty());
        }
        let ghost hv = hull_ids@;
        let r = polygon.get_polygon(hull_ids, true, false);
        proof {
            if r is Ok {
                lemma_looked_up_ids(s, hv, r->Ok_0@);
                if valid_polygon(s) {
                    crate::extreme_points::lemma_quickhull_keeps_extreme_points(s);
                }
            }
        }
        r
    }
}

/// The vertex at position `c` of `pts` lies on the segment's line through
/// it, so filtering the points strictly right of a segment ending or
/// starting at it drops at least that vertex.
proof fn lemma_right_of_smaller(pts: Seq<Vertex>, seg: LineSegment, c: int)
    requires
        0 <= c < pts.len(),
        seg.v1 == pts[c] || seg.v2 == pts[c],
    ensures
        pts.filter(|v: Vertex| !left_on_of(seg.v1, seg.v2, v)).len() < pts.len(),
{
    let f = |v: Vertex| !left_on_of(seg.v1, seg.v2, v);
    crate::triangle::lemma_repeated_vertex_collinear(seg.v1, seg.v2);
    crate::triangle::lemma_repeated_vertex_collinear(seg.v2, seg.v1);
    assert(!f(pts[c]));
    lemma_filter_drops(pts, f, c);
}

proof fn lemma_filter_drops<A>(s: Seq<A>, f: spec_fn(A) -> bool, c: int)
    requires
        0 <= c < s.len(),
        !f(s[c]),
    ensures
        s.filter(f).len() < s.len(),
    decreases s.len(),
{
    reveal(Seq::filter);
    if c == s.len() - 1 {
        s.drop_last().lemma_filter_len(f);
        assert(s.filter(f) == s.drop_last().filter(f));
    } else {
        lemma_filter_drops(s.drop_last(), f, c);
        assert(s.drop_last()[c] == s[c]);
    }
}

/// Every vertex of `inner` is a vertex of `outer`.
pub open spec fn vertices_within(inner: Seq<Vertex>, outer: Seq<Vertex>) -> bool {
    forall|k: int| 0 <= k < inner.len() ==> outer.contains(#[trigger] inner[k])
}

proof fn lemma_within_has_id(inner: Seq<Vertex>, outer: Seq<Vertex>, k: int)
    requires
        vertices_within(inner, outer),
        0 <= k < inner.len(),
    ensures
        has_id(outer, inner[k].id),
{
    assert(outer.contains(inner[k]));
    let j = choose|j: int| 0 <= j < outer.len() && outer[j] == inner[k];
}

proof fn lemma_within_trans(a: Seq<Vertex>, b: Seq<Vertex>, c: Seq<Vertex>)
    requires
        vertices_within(a, b),
        vertices_within(b, c),
    ensures
        vertices_within(a, c),
{
    assert forall|k: int| 0 <= k < a.len() implies c.contains(#[trigger] a[k]) by {
        assert(b.contains(a[k]));
        let j = choose|j: int| 0 <= j < b.len() && b[j] == a[k];
        assert(c.contains(b[j]));
    }
}

/// The position `k` steps from `start` around a cycle of `n` positions,
/// forwards or backwards.
pub open spec fn search_pos(n: int, start: int, k: int, forward: bool) -> int {
    if forward {
        (start + k) % n
    } else {
        (start - k) % n
    }
}

proof fn lemma_search_step(n: int, start: int, k: int, forward: bool)
    requires
        n > 0,
    ensures
        0 <= search_pos(n, start, k, forward) < n,
        search_pos(n, start, k + 1, forward) == (if forward {
            if search_pos(n, start, k, forward) + 1 == n {
                0
            } else {
                search_pos(n, start, k, forward) + 1
            }
        } else {
            if search_pos(n, start, k, forward) == 0 {
                n - 1
            } else {
                search_pos(n, start, k, forward) - 1
            }
        }),
{
    let x = if forward {
        start + k
    } else {
        start - k
    };
    let i = x % n;
    let q = x / n;
    vstd::arithmetic::div_mod::lemma_fundamental_div_mod(x, n);
    vstd::arithmetic::div_mod::lemma_mod_bound(x, n);
    assert(x == q * n + i);
    if forward {
        if i + 1 == n {
            assert(x + 1 == (q + 1) * n + 0) by (nonlinear_arith)
                requires
                    x == q * n + i,
                    i + 1 == n,
            ;
            vstd::arithmetic::div_mod::lemma_fundamental_div_mod_converse(x + 1, n, q + 1, 0);
        } else {
            vstd::arithmetic::div_mod::lemma_fundamental_div_mod_converse(x + 1, n, q, i + 1);
        }
        assert(start + (k + 1) == x + 1);
    } else {
        if i == 0 {
            assert(x - 1 == (q - 1) * n + (n - 1)) by (nonlinear_arith)
                requires
                    x == q * n + i,
                    i == 0,
            ;
            vstd::arithmetic::div_mod::lemma_fundamental_div_mod_converse(x - 1, n, q - 1, n - 1);
        } else {
            vstd::arithmetic::div_mod::lemma_fundamental_div_mod_converse(x - 1, n, q, i - 1);
        }
        assert(start - (k + 1) == x - 1);
    }
}

/// The segment from the vertex at position `p` of the cycle `h` to `v` is an
/// upper (when `upper`) or a lower tangent of `h` there.
pub open spec fn tangent_ok(h: Seq<Vertex>, p: int, v: Vertex, upper: bool) -> bool {
    if upper {
        upper_tangent_at(h[p], v, h, h[p].id)
    } else {
        lower_tangent_at(h[p], v, h, h[p].id)
    }
}

/// The first position, from the `k`-th step of the walk around `h` that
/// starts at `start` on, at which the segment to `v` is a tangent; `None`
/// when there is none before the walk has gone round once.
pub open spec fn first_tangent_from(h: Seq<Vertex>, start: int, v: Vertex, upper: bool, forward: bool, k: int) -> Option<
    int,
>
    decreases h.len() - k,
{
    if k < 0 || k >= h.len() {
        None
    } else if tangent_ok(h, search_pos(h.len() as int, start, k, forward), v, upper) {
        Some(search_pos(h.len() as int, start, k, forward))
    } else {
        first_tangent_from(h, start, v, upper, forward, k + 1)
    }
}

proof fn lemma_first_tangent_in_range(h: Seq<Vertex>, start: int, v: Vertex, upper: bool, forward: bool, k: int)
    requires
        h.len() > 0,
    ensures
        first_tangent_from(h, start, v, upper, forward, k) matches Some(p) ==> 0 <= p < h.len(),
    decreases h.len() - k,
{
    if 0 <= k < h.len() {
        lemma_search_step(h.len() as int, start, k, forward);
        lemma_first_tangent_in_range(h, start, v, upper, forward, k + 1);
    }
}

/// The vertex of `polygon` with the identifier of the vertex at position
/// `i` of `hull` is that vertex, when the hull's vertices are vertices of
/// the polygon.
proof fn lemma_looked_up(hull: Seq<Vertex>, polygon: Seq<Vertex>, i: int)
    requires
        distinct_ids(polygon),
        vertices_within(hull, polygon),
        0 <= i < hull.len(),
    ensures
        has_id(polygon, hull[i].id),
        vertex_of(polygon, hull[i].id) == hull[i],
{
    assert(polygon.contains(hull[i]));
    let j = choose|j: int| 0 <= j < polygon.len() && polygon[j] == hull[i];
    crate::polygon::lemma_index_of(polygon, j);
}

/// Walks the cycle `hull` from position `start`, forwards (counter-clockwise)
/// when `forward` and backwards otherwise, for at most one full turn,
/// returning the first vertex at which the segment from it to `v` is an upper
/// tangent (when `upper`) or a lower tangent of the hull.
fn tangent_search(
    hull: &Polygon,
    start: usize,
    v: &VertexId,
    polygon: &Polygon,
    upper: bool,
    forward: bool,
) -> (r: Result<VertexId, PolygonError>)
    requires
        hull.wf(),
        polygon.wf(),
        start < hull@.len(),
        vertices_within(hull@, polygon@),
        has_id(polygon@, *v),
    ensures
        match first_tangent_from(hull@, start as int, vertex_of(polygon@, *v), upper, forward, 0) {
            Some(p) => 0 <= p < hull@.len() && r == Ok::<VertexId, PolygonError>(hull@[p].id),
            None => r == Err::<VertexId, PolygonError>(PolygonError::TangentNotFound),
        },
{
    let hv = hull.copy_vertices();
    let n = hv.len();
    let ghost vv = vertex_of(polygon@, *v);
    let mut i: usize = start;
    let mut k: usize = 0;
    proof {
        vstd::arithmetic::div_mod::lemma_fundamental_div_mod_converse(start as int, n as int, 0, start as int);
        assert(search_pos(n as int, start as int, 0, forward) == start);
    }
    while k < n
        invariant
            hv@ == hull@,
            n == hull@.len(),
            hull.wf(),
            polygon.wf(),
            vertices_within(hull@, polygon@),
            has_id(polygon@, *v),
            vv == vertex_of(polygon@, *v),
            i < n,
            0 <= k <= n,
            i == search_pos(n as int, start as int, k as int, forward),
            first_tangent_from(hull@, start as int, vv, upper, forward, 0) == first_tangent_from(
                hull@,
                start as int,
                vv,
                upper,
                forward,
                k as int,
            ),
        decreases n - k,
    {
        let id = hv[i].id;
        proof {
            lemma_looked_up(hull@, polygon@, i as int);
            assert(has_id(hull@, id));
        }
        let seg = polygon.get_line_segment(&id, v).unwrap();
        let ok = if upper {
            seg.is_upper_tangent(&id, hull)
        } else {
            seg.is_lower_tangent(&id, hull)
        };
        if ok {
            return Ok(id);
        }
        proof {
            lemma_search_step(n as int, start as int, k as int, forward);
        }
        i = if forward {
            if i + 1 == n {
                0
            } else {
                i + 1
            }
        } else {
            if i == 0 {
                n - 1
            } else {
                i - 1
            }
        };
        k = k + 1;
    }
    Err(PolygonError::TangentNotFound)
}

/// The identifiers met walking the cycle `h` forwards from position `i0` to
/// position `i1`, both included.
pub open spec fn walk_ids(h: Seq<Vertex>, i0: int, i1: int) -> Seq<VertexId> {
    let n = h.len() as int;
    Seq::new((((i1 - i0) % n) + 1) as nat, |k: int| h[(i0 + k) % n].id)
}

/// The identifiers met walking the cycle `hull` forwards from `from` to
/// `to`, both included.
fn walk_between(hull: &Polygon, from: &VertexId, to: &VertexId) -> (r: Vec<VertexId>)
    requires
        hull.wf(),
        has_id(hull@, *from),
        has_id(hull@, *to),
    ensures
        r@ == walk_ids(hull@, index_of(hull@, *from), index_of(hull@, *to)),
        r@.len() >= 1,
        r@[0] == *from,
        r@[r@.len() - 1] == *to,
        forall|q: int| 0 <= q < r@.len() ==> has_id(hull@, #[trigger] r@[q]),
{
    let hv = hull.copy_vertices();
    let n = hv.len();
    let i0 = hull.position_of(from);
    let i1 = hull.position_of(to);
    let dist: usize = if i1 >= i0 {
        i1 - i0
    } else {
        i1 + (n - i0)
    };
    proof {
        if i1 >= i0 {
            vstd::arithmetic::div_mod::lemma_fundamental_div_mod_converse(i1 - i0, n as int, 0, dist as int);
        } else {
            vstd::arithmetic::div_mod::lemma_fundamental_div_mod_converse(i1 - i0, n as int, -1, dist as int);
        }
        assert((i1 - i0) % (n as int) == dist);
    }
    let ghost target = walk_ids(hull@, i0 as int, i1 as int);
    let mut r: Vec<VertexId> = Vec::new();
    let mut i: usize = i0;
    let mut k: usize = 0;
    while hv[i].id != *to
        invariant
            hv@ == hull@,
            n == hull@.len(),
            hull.wf(),
            i0 < n,
            i1 < n,
            hull@[i1 as int].id == *to,
            hull@[i0 as int].id == *from,
            dist < n,
            dist == (if i1 >= i0 {
                i1 - i0
            } else {
                i1 + n - i0
            }),
            target == walk_ids(hull@, i0 as int, i1 as int),
            target.len() == dist + 1,
            0 <= k <= dist,
            i == (if i0 + k < n {
                i0 + k
            } else {
                i0 + k - n
            }),
            r@ == target.subrange(0, k as int),
        decreases dist - k,
    {
        proof {
            if k == dist {
                assert(i == i1);
            }
            crate::area::lemma_mod_wrap(i0 + k, n as int);
            assert(target[k as int] == hv@[i as int].id);
        }
        r.push(hv[i].id);
        i = if i + 1 == n {
            0
        } else {
            i + 1
        };
        k = k + 1;
        proof {
            assert(r@ =~= target.subrange(0, k as int));
        }
    }
    proof {
        if k < dist {
            let j = (i0 + k) as int;
            assert(hull@[i as int].id == hull@[i1 as int].id);
            assert(i == i1);
        }
        assert(k == dist) by {
            if k < dist {
                if i1 >= i0 {
                    assert(i == i0 + k);
                } else {
                    if i0 + k < n {
                        assert(i == i0 + k);
                    } else {
                        assert(i == i0 + k - n);
                    }
                }
            }
        }
        crate::area::lemma_mod_wrap(i0 + k, n as int);
        assert(target[k as int] == *to);
    }
    r.push(*to);
    proof {
        assert(r@ =~= target);
        crate::area::lemma_mod_wrap(i0 as int, n as int);
        assert(r@[0] == target[0]);
        assert forall|q: int| 0 <= q < r@.len() implies has_id(hull@, #[trigger] r@[q]) by {
            crate::area::lemma_mod_wrap(i0 + q, n as int);
            assert(r@[q] == hull@[(i0 + q) % (n as int)].id);
        }
    }
    r
}

/// The position of the first vertex of `h` that is minimal in the order
/// `o`.
pub open spec fn first_min_pos(h: Seq<Vertex>, o: crate::geometry::VertexOrder) -> int {
    choose|i: int| crate::geometry::is_first_min(h, i, o)
}

/// The order of `highest_rightmost_vertex`.
pub open spec fn highest_rightmost_order() -> crate::geometry::VertexOrder {
    crate::geometry::VertexOrder { x_first: true, first_desc: true, second_desc: true }
}

/// The order of `lowest_rightmost_vertex`.
pub open spec fn lowest_rightmost_order() -> crate::geometry::VertexOrder {
    crate::geometry::VertexOrder { x_first: true, first_desc: true, second_desc: false }
}

/// The search for the starting triangle of the incremental algorithm,
/// from position `k` of the identifiers `ids` (sorted by `(x, y)`), with `a`
/// and `b` its first two corners: a vertex collinear with `a` and `b` takes
/// the place of `b`, which then lies between the two and is no hull vertex;
/// the first vertex that is not collinear with them closes the triangle. The
/// result is the second corner and the position of the third, or `None`
/// where all the remaining vertices are collinear with `a` and `b`.
pub open spec fn init_third(c: Seq<Vertex>, ids: Seq<VertexId>, a: VertexId, b: VertexId, k: int) -> Option<
    (VertexId, int),
>
    decreases ids.len() - k,
{
    if k < 0 || k >= ids.len() {
        None
    } else if orient(vertex_of(c, a), vertex_of(c, b), vertex_of(c, ids[k])) == 0 {
        init_third(c, ids, a, ids[k], k + 1)
    } else {
        Some((b, k))
    }
}

/// The hull the incremental algorithm starts from and the identifiers it
/// adds after it. With the identifiers of `c` sorted by `(x, y)` (a stable
/// sort), the triangle starts at the leftmost vertex; collinear vertices
/// are passed over as `init_third` says, the corners are turned
/// counter-clockwise, and the identifiers after the third corner follow in
/// their order.
pub open spec fn incremental_init(c: Seq<Vertex>) -> Result<(Seq<Vertex>, Seq<VertexId>), PolygonError> {
    let ids = ids_by_increasing_x(c);
    if ids.len() < 3 {
        Err(PolygonError::TooFewVertices)
    } else {
        match init_third(c, ids, ids[0], ids[1], 2) {
            None => Err(PolygonError::NonPositiveArea),
            Some((b, k)) => {
                let f = seq![ids[0], b, ids[k]];
                let first = if orient(vertex_of(c, f[0]), vertex_of(c, f[1]), vertex_of(c, f[2])) < 0 {
                    seq![f[2], f[1], f[0]]
                } else {
                    f
                };
                match ids_polygon(c, first, false, false) {
                    Err(e) => Err(e),
                    Ok(h) => Ok((h, ids.subrange(k + 1, ids.len() as int))),
                }
            },
        }
    }
}

/// The hull after adding the vertex `id` of `c` to the hull `h`: the new
/// vertex followed by the hull from the first upper tangent vertex (looking
/// counter-clockwise from the highest of the rightmost hull vertices) to the
/// first lower tangent vertex (looking clockwise from the lowest of the
/// rightmost hull vertices), validated and cleaned of collinear vertices.
pub open spec fn incremental_add(c: Seq<Vertex>, h: Seq<Vertex>, id: VertexId) -> Result<Seq<Vertex>, PolygonError> {
    let v = vertex_of(c, id);
    let u = first_tangent_from(h, first_min_pos(h, highest_rightmost_order()), v, true, true, 0);
    let l = first_tangent_from(h, first_min_pos(h, lowest_rightmost_order()), v, false, false, 0);
    match u {
        None => Err(PolygonError::TangentNotFound),
        Some(up) => match l {
            None => Err(PolygonError::TangentNotFound),
            Some(lp) => ids_polygon(c, seq![id] + walk_ids(h, up, lp), false, true),
        },
    }
}

/// The hull after adding the identifiers `ids` of `c`, in order, to `h`.
pub open spec fn incremental_fold(c: Seq<Vertex>, h: Seq<Vertex>, ids: Seq<VertexId>) -> Result<
    Seq<Vertex>,
    PolygonError,
>
    decreases ids.len(),
{
    if ids.len() == 0 {
        Ok(h)
    } else {
        match incremental_fold(c, h, ids.drop_last()) {
            Err(e) => Err(e),
            Ok(g) => incremental_add(c, g, ids.last()),
        }
    }
}

/// The outcome of the incremental algorithm on `s`: `s` is cleaned of
/// collinear vertices, and the starting triangle of its leftmost vertices
/// (`incremental_init`) grows by the vertices after it in order.
pub open spec fn incremental_result(s: Seq<Vertex>) -> Result<Seq<Vertex>, PolygonError> {
    match ids_polygon(s, ids_of(s), true, true) {
        Err(e) => Err(e),
        Ok(c) => match incremental_init(c) {
            Err(e) => Err(e),
            Ok((h, rest)) => incremental_fold(c, h, rest),
        },
    }
}

/// What a tracer step records: the hull's identifiers, the vertex being
/// added, and its upper and lower tangent vertices.
pub type StepRecord = (Seq<VertexId>, Option<VertexId>, Option<VertexId>, Option<VertexId>);

/// `after` extends the steps recorded in `before` by the records `recs`; a
/// tracer that was not given stays absent.
pub open spec fn trace_appended(
    before: Option<ConvexHullTracer>,
    after: Option<ConvexHullTracer>,
    recs: Seq<StepRecord>,
) -> bool {
    match before {
        None => after is None,
        Some(t0) => match after {
            None => false,
            Some(t) => {
                let n0 = t0.steps@.len();
                &&& t.steps@.len() == n0 + recs.len()
                &&& t.steps@.subrange(0, n0 as int) == t0.steps@
                &&& forall|k: int|
                    0 <= k < recs.len() ==> (#[trigger] t.steps@[n0 + k]).hull@ == recs[k].0
                        && t.steps@[n0 + k].next_vertex == recs[k].1
                        && t.steps@[n0 + k].upper_tangent_vertex == recs[k].2
                        && t.steps@[n0 + k].lower_tangent_vertex == recs[k].3
            },
        },
    }
}

/// The steps the incremental algorithm records while adding the
/// identifiers `ids` of `c` to `h`, as far as the additions succeed: the
/// hull after each addition with the added vertex and its tangent vertices.
pub open spec fn incremental_trace(c: Seq<Vertex>, h: Seq<Vertex>, ids: Seq<VertexId>) -> Seq<StepRecord>
    decreases ids.len(),
{
    if ids.len() == 0 {
        Seq::empty()
    } else {
        let prev = incremental_trace(c, h, ids.drop_last());
        match incremental_fold(c, h, ids.drop_last()) {
            Err(_) => prev,
            Ok(g) => match incremental_add(c, g, ids.last()) {
                Err(_) => prev,
                Ok(n) => {
                    let v = vertex_of(c, ids.last());
                    let up = first_tangent_from(g, first_min_pos(g, highest_rightmost_order()), v, true, true, 0)->0;
                    let lp = first_tangent_from(g, first_min_pos(g, lowest_rightmost_order()), v, false, false, 0)->0;
                    prev.push((ids_of(n), Some(ids.last()), Some(g[up].id), Some(g[lp].id)))
                },
            },
        }
    }
}

/// The steps the incremental algorithm records on `s` when it succeeds: the
/// first hull, then one step per added vertex.
pub open spec fn incremental_records(s: Seq<Vertex>) -> Seq<StepRecord> {
    match ids_polygon(s, ids_of(s), true, true) {
        Err(_) => Seq::empty(),
        Ok(c) => match incremental_init(c) {
            Err(_) => Seq::empty(),
            Ok((h, rest)) => seq![(ids_of(h), None::<VertexId>, None::<VertexId>, None::<VertexId>)]
                + incremental_trace(c, h, rest),
        },
    }
}

/// The incremental convex hull algorithm.
#[derive(Clone, Copy, Debug, Default)]
pub struct Incremental;

impl Incremental {
    /// The starting triangle of `incremental_init`, turned counter-clockwise:
    /// the leftmost vertex and the next two by `(x, y)` that are not
    /// collinear with it, passing over a vertex between two collinear ones;
    /// and the identifiers after its third corner by increasing `x`.
    fn init_hull_three_leftmost(&self, polygon: &Polygon) -> (r: Result<(Polygon, Vec<VertexId>), PolygonError>)
        requires
            polygon.wf(),
            polygon@.len() > 0,
        ensures
            match incremental_init(polygon@) {
                Err(e) => r == Err::<(Polygon, Vec<VertexId>), PolygonError>(e),
                Ok((h, rest)) => r matches Ok((hull, rest_ids)) && hull@ == h && rest_ids@ == rest,
            },
            r matches Ok((hull, rest)) ==> hull.wf() && hull@.len() > 0 && vertices_within(hull@, polygon@)
                && forall|q: int| 0 <= q < rest@.len() ==> has_id(polygon@, #[trigger] rest@[q]),
    {
        let ids = polygon.vertex_ids_by_increasing_x();
        if ids.len() < 3 {
            return Err(PolygonError::TooFewVertices);
        }
        let ghost ids0 = ids@;
        let a = ids[0];
        let mut b = ids[1];
        let mut k: usize = 2;
        while k < ids.len()
            invariant_except_break
                init_third(polygon@, ids0, ids0[0], ids0[1], 2) == init_third(polygon@, ids0, a, b, k as int),
            invariant
                polygon.wf(),
                ids@ == ids0,
                ids0.len() >= 3,
                a == ids0[0],
                2 <= k <= ids0.len(),
                has_id(polygon@, b),
                forall|q: int| 0 <= q < ids@.len() ==> has_id(polygon@, #[trigger] ids@[q]),
            ensures
                k < ids0.len() ==> init_third(polygon@, ids0, ids0[0], ids0[1], 2) == Some((b, k as int)),
                k == ids0.len() ==> init_third(polygon@, ids0, ids0[0], ids0[1], 2) is None,
            decreases ids.len() - k,
        {
            assert(has_id(polygon@, ids@[k as int]));
            let t = polygon.get_triangle(&a, &b, &ids[k]).unwrap();
            if t.double_area() != 0 {
                break;
            }
            b = ids[k];
            k = k + 1;
        }
        if k == ids.len() {
            return Err(PolygonError::NonPositiveArea);
        }
        let mut first: Vec<VertexId> = Vec::new();
        first.push(a);
        first.push(b);
        first.push(ids[k]);
        let mut rest: Vec<VertexId> = Vec::new();
        let mut j: usize = k + 1;
        while j < ids.len()
            invariant
                ids@ == ids0,
                k < j <= ids0.len(),
                rest@ == ids0.subrange(k + 1, j as int),
            decreases ids.len() - j,
        {
            rest.push(ids[j]);
            j = j + 1;
            proof {
                assert(rest@ =~= ids0.subrange(k + 1, j as int));
            }
        }
        proof {
            assert(has_id(polygon@, first@[0]) && has_id(polygon@, first@[1]) && has_id(polygon@, first@[2]));
            assert(first@ =~= seq![ids0[0], b, ids0[k as int]]);
            assert forall|q: int| 0 <= q < rest@.len() implies has_id(polygon@, #[trigger] rest@[q]) by {
                assert(rest@[q] == ids@[q + k + 1]);
            }
        }
        let t = polygon.get_triangle(&first[0], &first[1], &first[2]).unwrap();
        let ghost f = first@;
        if t.double_area() < 0 {
            let a = first[0];
            let c = first[2];
            first.set(0, c);
            first.set(2, a);
            proof {
                assert(first@ =~= seq![f[2], f[1], f[0]]);
            }
        }
        proof {
            assert forall|q: int| 0 <= q < first@.len() implies has_id(polygon@, #[trigger] first@[q]) by {
                assert(first@[q] == f[0] || first@[q] == f[1] || first@[q] == f[2]);
            }
        }
        let ghost fs = first@;
        let hull = match polygon.get_polygon(first, false, false) {
            Ok(h) => h,
            Err(e) => {
                proof {
                    crate::polygon::lemma_ids_polygon(polygon@, fs, false, false, Err(e));
                }
                return Err(e);
            },
        };
        proof {
            crate::polygon::lemma_ids_polygon(polygon@, fs, false, false, Ok(hull));
        }
        Ok((hull, rest))
    }

    /// The first hull vertex, walking counter-clockwise from the highest of
    /// the rightmost hull vertices, at which the segment to `v` is an upper
    /// tangent.
    fn upper_tangent_vertex(&self, hull: &Polygon, v: VertexId, polygon: &Polygon) -> (r: Result<
        VertexId,
        PolygonError,
    >)
        requires
            hull.wf(),
            polygon.wf(),
            hull@.len() > 0,
            vertices_within(hull@, polygon@),
            has_id(polygon@, v),
        ensures
            match first_tangent_from(
                hull@,
                first_min_pos(hull@, highest_rightmost_order()),
                vertex_of(polygon@, v),
                true,
                true,
                0,
            ) {
                Some(p) => 0 <= p < hull@.len() && r == Ok::<VertexId, PolygonError>(hull@[p].id),
                None => r == Err::<VertexId, PolygonError>(PolygonError::TangentNotFound),
            },
    {
        let start = hull.highest_rightmost_vertex();
        let i = hull.position_of_vertex(&start);
        proof {
            let j = choose|j: int| crate::geometry::is_first_min(hull@, j, highest_rightmost_order()) && start == hull@[j];
            let j2 = first_min_pos(hull@, highest_rightmost_order());
            crate::geometry::lemma_first_min_unique(hull@, j, j2, highest_rightmost_order());
            assert(i == j);
        }
        tangent_search(hull, i, &v, polygon, true, true)
    }

    /// The first hull vertex, walking clockwise from the lowest of the
    /// rightmost hull vertices, at which the segment to `v` is a lower
    /// tangent.
    fn lower_tangent_vertex(&self, hull: &Polygon, v: VertexId, polygon: &Polygon) -> (r: Result<
        VertexId,
        PolygonError,
    >)
        requires
            hull.wf(),
            polygon.wf(),
            hull@.len() > 0,
            vertices_within(hull@, polygon@),
            has_id(polygon@, v),
        ensures
            match first_tangent_from(
                hull@,
                first_min_pos(hull@, lowest_rightmost_order()),
                vertex_of(polygon@, v),
                false,
                false,
                0,
            ) {
                Some(p) => 0 <= p < hull@.len() && r == Ok::<VertexId, PolygonError>(hull@[p].id),
                None => r == Err::<VertexId, PolygonError>(PolygonError::TangentNotFound),
            },
    {
        let start = hull.lowest_rightmost_vertex();
        let i = hull.position_of_vertex(&start);
        proof {
            let j = choose|j: int| crate::geometry::is_first_min(hull@, j, lowest_rightmost_order()) && start == hull@[j];
            let j2 = first_min_pos(hull@, lowest_rightmost_order());
            crate::geometry::lemma_first_min_unique(hull@, j, j2, lowest_rightmost_order());
            assert(i == j);
        }
        tangent_search(hull, i, &v, polygon, false, false)
    }

    /// The new boundary: `new_v`, then the hull from its upper tangent
    /// vertex counter-clockwise to its lower tangent vertex.
    fn extract_boundary(&self, hull: &Polygon, new_v: VertexId, hull_ut_v: VertexId, hull_lt_v: VertexId) -> (r:
        Vec<VertexId>)
        requires
            hull.wf(),
            has_id(hull@, hull_ut_v),
            has_id(hull@, hull_lt_v),
        ensures
            r@ == seq![new_v] + walk_ids(hull@, index_of(hull@, hull_ut_v), index_of(hull@, hull_lt_v)),
            r@.len() >= 2,
            r@[0] == new_v,
            forall|q: int| 1 <= q < r@.len() ==> has_id(hull@, #[trigger] r@[q]),
    {
        let mut boundary: Vec<VertexId> = Vec::new();
        boundary.push(new_v);
        let chain = walk_between(hull, &hull_ut_v, &hull_lt_v);
        let mut k: usize = 0;
        while k < chain.len()
            invariant
                boundary@ == seq![new_v] + chain@.subrange(0, k as int),
                0 <= k <= chain.len(),
                forall|q: int| 0 <= q < chain@.len() ==> has_id(hull@, #[trigger] chain@[q]),
            decreases chain.len() - k,
        {
            boundary.push(chain[k]);
            k = k + 1;
            proof {
                assert(boundary@ =~= seq![new_v] + chain@.subrange(0, k as int));
            }
        }
        proof {
            assert(chain@.subrange(0, chain@.len() as int) =~= chain@);
            assert forall|q: int| 1 <= q < boundary@.len() implies has_id(hull@, #[trigger] boundary@[q]) by {
                assert(boundary@[q] == chain@[q - 1]);
            }
        }
        boundary
    }

    /// Cleans the polygon of collinear vertices, starts from the triangle of
    /// the leftmost vertices (passing over a vertex that lies between two
    /// collinear ones) and adds the remaining vertices by
    /// increasing `x`, each time joining the new vertex to the hull along
    /// its upper and lower tangents. Each intermediate hull is validated and
    /// cleaned. A tracer that is given records the first hull and, for each
    /// added vertex, the hull after it with the vertex and its tangent
    /// vertices.
    pub fn convex_hull(&self, polygon: &Polygon, tracer: &mut Option<ConvexHullTracer>) -> (r: Result<
        Polygon,
        PolygonError,
    >)
        requires
            polygon.wf(),
            polygon@.len() > 0,
        ensures
            match incremental_result(polygon@) {
                Ok(h) => r matches Ok(hull) && hull@ == h,
                Err(e) => r == Err::<Polygon, PolygonError>(e),
            },
            r matches Ok(hull) ==> hull.wf() && hull@.len() > 0 && vertices_within(hull@, polygon@),
            (*old(tracer)) is None <==> (*final(tracer)) is None,
            r is Ok ==> trace_appended(*old(tracer), *final(tracer), incremental_records(polygon@)),
    {
        let cleaned = match polygon.clone_clean_collinear() {
            Ok(p) => p,
            Err(e) => {
                proof {
                    crate::polygon::lemma_ids_polygon(polygon@, ids_of(polygon@), true, true, Err(e));
                }
                return Err(e);
            },
        };
        proof {
            crate::polygon::lemma_ids_polygon(polygon@, ids_of(polygon@), true, true, Ok(cleaned));
        }
        let ghost c = cleaned@;
        let (mut hull, ids) = match self.init_hull_three_leftmost(&cleaned) {
            Ok(x) => x,
            Err(e) => {
                return Err(e);
            },
        };
        let ghost h0 = hull@;
        assert(incremental_result(polygon@) == incremental_fold(c, h0, ids@));
        assert(ids@.subrange(0, 0) =~= Seq::<VertexId>::empty());
        let ghost first: StepRecord = (ids_of(h0), None::<VertexId>, None::<VertexId>, None::<VertexId>);
        if let Some(t) = tracer {
            t.steps.push(ConvexHullTracerStep {
                hull: hull.vertex_ids(),
                next_vertex: None,
                upper_tangent_vertex: None,
                lower_tangent_vertex: None,
            });
        }
        proof {
            assert(incremental_records(polygon@) == seq![first] + incremental_trace(c, h0, ids@));
            assert(seq![first] + incremental_trace(c, h0, ids@.subrange(0, 0)) =~= seq![first]);
            if (*tracer) is Some {
                let t = (*tracer)->0;
                let t0 = old(tracer)->0;
                assert(t.steps@.subrange(0, t0.steps@.len() as int) =~= t0.steps@);
            }
        }
        let mut k: usize = 0;
        while k < ids.len()
            invariant
                cleaned.wf(),
                cleaned@ == c,
                vertices_within(cleaned@, polygon@),
                hull.wf(),
                hull@.len() > 0,
                vertices_within(hull@, cleaned@),
                forall|q: int| 0 <= q < ids@.len() ==> has_id(cleaned@, #[trigger] ids@[q]),
                0 <= k <= ids.len(),
                incremental_fold(c, h0, ids@.subrange(0, k as int)) == Ok::<Seq<Vertex>, PolygonError>(hull@),
                incremental_result(polygon@) == incremental_fold(c, h0, ids@),
                incremental_records(polygon@) == seq![first] + incremental_trace(c, h0, ids@),
                first == (ids_of(h0), None::<VertexId>, None::<VertexId>, None::<VertexId>),
                trace_appended(*old(tracer), *tracer, seq![first] + incremental_trace(c, h0, ids@.subrange(0, k as int))),
                (*old(tracer)) is None <==> (*tracer) is None,
            decreases ids.len() - k,
        {
            let id = ids[k];
            proof {
                assert(ids@.subrange(0, k + 1).drop_last() =~= ids@.subrange(0, k as int));
                assert(ids@.subrange(0, k + 1).last() == id);
            }
            let ut_v = match self.upper_tangent_vertex(&hull, id, &cleaned) {
                Ok(x) => x,
                Err(e) => {
                    proof {
                        lemma_fold_err(c, h0, ids@, k as int + 1);
                    }
                    return Err(e);
                },
            };
            let lt_v = match self.lower_tangent_vertex(&hull, id, &cleaned) {
                Ok(x) => x,
                Err(e) => {
                    proof {
                        lemma_fold_err(c, h0, ids@, k as int + 1);
                    }
                    return Err(e);
                },
            };
            let new_hull_ids = self.extract_boundary(&hull, id, ut_v, lt_v);
            proof {
                let up = first_tangent_from(hull@, first_min_pos(hull@, highest_rightmost_order()), vertex_of(cleaned@, id), true, true, 0)->0;
                let lp = first_tangent_from(hull@, first_min_pos(hull@, lowest_rightmost_order()), vertex_of(cleaned@, id), false, false, 0)->0;
                crate::polygon::lemma_index_of(hull@, up);
                crate::polygon::lemma_index_of(hull@, lp);
                assert(new_hull_ids@ == seq![id] + walk_ids(hull@, up, lp));
                assert forall|q: int| 0 <= q < new_hull_ids@.len() implies has_id(cleaned@, #[trigger] new_hull_ids@[q]) by {
                    if q == 0 {
                    } else {
                        let j = choose|j: int| 0 <= j < hull@.len() && hull@[j].id == new_hull_ids@[q];
                        lemma_within_has_id(hull@, cleaned@, j);
                    }
                }
            }
            let ghost new_ids = new_hull_ids@;
            hull = match cleaned.get_polygon(new_hull_ids, false, true) {
                Ok(h) => h,
                Err(e) => {
                    proof {
                        crate::polygon::lemma_ids_polygon(c, new_ids, false, true, Err(e));
                        lemma_fold_err(c, h0, ids@, k as int + 1);
                    }
                    return Err(e);
                },
            };
            proof {
                crate::polygon::lemma_ids_polygon(c, new_ids, false, true, Ok(hull));
            }
            let ghost tr0 = *tracer;
            let ghost prefix = ids@.subrange(0, k as int);
            let ghost grown = ids@.subrange(0, k + 1);
            if let Some(t) = tracer {
                t.steps.push(ConvexHullTracerStep {
                    hull: hull.vertex_ids(),
                    next_vertex: Some(id),
                    upper_tangent_vertex: Some(ut_v),
                    lower_tangent_vertex: Some(lt_v),
                });
            }
            proof {
                let rec: StepRecord = (ids_of(hull@), Some(id), Some(ut_v), Some(lt_v));
                assert(grown.drop_last() =~= prefix);
                assert(incremental_trace(c, h0, grown) == incremental_trace(c, h0, prefix).push(rec));
                let r0 = seq![first] + incremental_trace(c, h0, prefix);
                let r1 = seq![first] + incremental_trace(c, h0, grown);
                assert(r1 =~= r0.push(rec));
                if (*tracer) is Some {
                    let t = (*tracer)->0;
                    let t0 = old(tracer)->0;
                    let tp = tr0->0;
                    let n0 = t0.steps@.len();
                    assert(t.steps@ == tp.steps@.push(t.steps@.last()));
                    assert(t.steps@.subrange(0, n0 as int) =~= tp.steps@.subrange(0, n0 as int));
                    assert forall|q: int| 0 <= q < r1.len() implies (#[trigger] t.steps@[n0 + q]).hull@ == r1[q].0
                        && t.steps@[n0 + q].next_vertex == r1[q].1
                        && t.steps@[n0 + q].upper_tangent_vertex == r1[q].2
                        && t.steps@[n0 + q].lower_tangent_vertex == r1[q].3 by {
                        if q < r0.len() {
                            assert(t.steps@[n0 + q] == tp.steps@[n0 + q]);
                        }
                    }
                }
            }
            k = k + 1;
        }
        proof {
            assert(ids@.subrange(0, ids@.len() as int) =~= ids@);
            lemma_within_trans(hull@, cleaned@, polygon@);
        }
        Ok(hull)
    }
}

/// When the fold fails on a prefix of the identifiers, it fails with the
/// same error on all of them.
proof fn lemma_fold_err(c: Seq<Vertex>, h: Seq<Vertex>, ids: Seq<VertexId>, m: int)
    requires
        0 <= m <= ids.len(),
        incremental_fold(c, h, ids.subrange(0, m)) is Err,
    ensures
        incremental_fold(c, h, ids) == incremental_fold(c, h, ids.subrange(0, m)),
    decreases ids.len() - m,
{
    if m < ids.len() {
        assert(ids.subrange(0, m + 1).drop_last() =~= ids.subrange(0, m));
        lemma_fold_err(c, h, ids, m + 1);
    } else {
        assert(ids.subrange(0, m) =~= ids);
    }
}

/// Whether the segment from `a` to `b` (looked up in `polygon`) is a lower
/// (or, when `upper`, upper) tangent of `chain` at `id`.
fn tangent_at(seg: &LineSegment, id: &VertexId, chain: &Polygon, upper: bool) -> (r: bool)
    requires
        chain.wf(),
        has_id(chain@, *id),
    ensures
        r == (if upper {
            upper_tangent_at(seg.v1, seg.v2, chain@, *id)
        } else {
            lower_tangent_at(seg.v1, seg.v2, chain@, *id)
        }),
{
    if upper {
        seg.is_upper_tangent(id, chain)
    } else {
        seg.is_lower_tangent(id, chain)
    }
}

/// The tangent of the segment joining `a` and `b` at both of them.
pub open spec fn tangent_pair_holds(
    left: Seq<Vertex>,
    right: Seq<Vertex>,
    polygon: Seq<Vertex>,
    a: VertexId,
    b: VertexId,
    upper: bool,
) -> bool {
    let va = vertex_of(polygon, a);
    let vb = vertex_of(polygon, b);
    if upper {
        upper_tangent_at(va, vb, left, a) && upper_tangent_at(va, vb, right, b)
    } else {
        lower_tangent_at(va, vb, left, a) && lower_tangent_at(va, vb, right, b)
    }
}

/// The segment from `a` to `b` (looked up in `polygon`) is an upper (when
/// `upper`) or a lower tangent of `chain` at `id`.
pub open spec fn dc_tangent_at(chain: Seq<Vertex>, polygon: Seq<Vertex>, a: VertexId, b: VertexId, id: VertexId, upper: bool) -> bool {
    let va = vertex_of(polygon, a);
    let vb = vertex_of(polygon, b);
    if upper {
        upper_tangent_at(va, vb, chain, id)
    } else {
        lower_tangent_at(va, vb, chain, id)
    }
}

/// The next end on the left chain: counter-clockwise for the upper tangent,
/// clockwise for the lower one.
pub open spec fn step_left(left: Seq<Vertex>, a: VertexId, upper: bool) -> VertexId {
    if upper {
        crate::polygon::next_of(left, a).id
    } else {
        crate::polygon::prev_of(left, a).id
    }
}

/// The next end on the right chain: clockwise for the upper tangent,
/// counter-clockwise for the lower one.
pub open spec fn step_right(right: Seq<Vertex>, b: VertexId, upper: bool) -> VertexId {
    if upper {
        crate::polygon::prev_of(right, b).id
    } else {
        crate::polygon::next_of(right, b).id
    }
}

/// Moves the end `a` on the left chain until the segment to `b` is tangent
/// there, counting the moves from `moves`; `None` when the count would pass
/// `fuel`.
pub open spec fn advance_left(
    left: Seq<Vertex>,
    polygon: Seq<Vertex>,
    upper: bool,
    a: VertexId,
    b: VertexId,
    moves: int,
    fuel: int,
) -> Option<(VertexId, int)>
    decreases fuel - moves,
{
    if dc_tangent_at(left, polygon, a, b, a, upper) {
        Some((a, moves))
    } else if moves >= fuel {
        None
    } else {
        advance_left(left, polygon, upper, step_left(left, a, upper), b, moves + 1, fuel)
    }
}

/// Moves the end `b` on the right chain until the segment from `a` is
/// tangent there, counting the moves from `moves`; `None` when the count
/// would pass `fuel`.
pub open spec fn advance_right(
    right: Seq<Vertex>,
    polygon: Seq<Vertex>,
    upper: bool,
    a: VertexId,
    b: VertexId,
    moves: int,
    fuel: int,
) -> Option<(VertexId, int)>
    decreases fuel - moves,
{
    if dc_tangent_at(right, polygon, a, b, b, upper) {
        Some((b, moves))
    } else if moves >= fuel {
        None
    } else {
        advance_right(right, polygon, upper, a, step_right(right, b, upper), moves + 1, fuel)
    }
}

proof fn lemma_advance_left(
    left: Seq<Vertex>,
    polygon: Seq<Vertex>,
    upper: bool,
    a: VertexId,
    b: VertexId,
    moves: int,
    fuel: int,
)
    requires
        moves <= fuel,
    ensures
        advance_left(left, polygon, upper, a, b, moves, fuel) matches Some((a2, m)) ==> moves <= m <= fuel && (
        !dc_tangent_at(left, polygon, a, b, a, upper) ==> m > moves) && dc_tangent_at(left, polygon, a2, b, a2, upper),
    decreases fuel - moves,
{
    if !dc_tangent_at(left, polygon, a, b, a, upper) && moves < fuel {
        lemma_advance_left(left, polygon, upper, step_left(left, a, upper), b, moves + 1, fuel);
    }
}

proof fn lemma_advance_right(
    right: Seq<Vertex>,
    polygon: Seq<Vertex>,
    upper: bool,
    a: VertexId,
    b: VertexId,
    moves: int,
    fuel: int,
)
    requires
        moves <= fuel,
    ensures
        advance_right(right, polygon, upper, a, b, moves, fuel) matches Some((b2, m)) ==> moves <= m <= fuel && (
        !dc_tangent_at(right, polygon, a, b, b, upper) ==> m > moves) && dc_tangent_at(right, polygon, a, b2, b2, upper),
    decreases fuel - moves,
{
    if !dc_tangent_at(right, polygon, a, b, b, upper) && moves < fuel {
        lemma_advance_right(right, polygon, upper, a, step_right(right, b, upper), moves + 1, fuel);
    }
}

/// The common tangent search from the ends `a` and `b` after `moves`
/// moves: when the segment is tangent at both ends it is the result;
/// otherwise the left end moves until the segment is tangent there, then
/// the right end does, and the search goes on; it fails with
/// `TangentNotFound` once the moves would pass `fuel`.
pub open spec fn dc_tangent_from(
    left: Seq<Vertex>,
    right: Seq<Vertex>,
    polygon: Seq<Vertex>,
    upper: bool,
    a: VertexId,
    b: VertexId,
    moves: int,
    fuel: int,
) -> Result<(VertexId, VertexId), PolygonError>
    decreases fuel - moves,
{
    if dc_tangent_at(left, polygon, a, b, a, upper) && dc_tangent_at(right, polygon, a, b, b, upper) {
        Ok((a, b))
    } else {
        match advance_left(left, polygon, upper, a, b, moves, fuel) {
            None => Err(PolygonError::TangentNotFound),
            Some((a2, m1)) => match advance_right(right, polygon, upper, a2, b, m1, fuel) {
                None => Err(PolygonError::TangentNotFound),
                Some((b2, m2)) => if moves < m2 <= fuel {
                    dc_tangent_from(left, right, polygon, upper, a2, b2, m2, fuel)
                } else {
                    Err(PolygonError::TangentNotFound)
                },
            },
        }
    }
}

/// The order whose first vertex starts the tangent search on the left
/// chain: the highest (for the upper tangent) or lowest of the rightmost.
pub open spec fn left_start_order(upper: bool) -> crate::geometry::VertexOrder {
    crate::geometry::VertexOrder { x_first: true, first_desc: true, second_desc: upper }
}

/// The order whose first vertex starts the tangent search on the right
/// chain: the highest (for the upper tangent) or lowest of the leftmost.
pub open spec fn right_start_order(upper: bool) -> crate::geometry::VertexOrder {
    crate::geometry::VertexOrder { x_first: true, first_desc: false, second_desc: upper }
}

/// The common upper (or lower) tangent of the chains `left` and `right`,
/// searched from their facing extreme vertices with as many moves as there
/// are pairs of vertices.
pub open spec fn dc_tangent(left: Seq<Vertex>, right: Seq<Vertex>, polygon: Seq<Vertex>, upper: bool) -> Result<
    (VertexId, VertexId),
    PolygonError,
> {
    dc_tangent_from(
        left,
        right,
        polygon,
        upper,
        crate::geometry::first_min(left, left_start_order(upper)).id,
        crate::geometry::first_min(right, right_start_order(upper)).id,
        0,
        (left.len() * right.len()) as int,
    )
}

/// The boundary joined along the tangents found by `dc_tangent`: on the
/// right chain from its lower to its upper tangent vertex, then on the left
/// chain from its upper to its lower tangent vertex, each counter-clockwise.
pub open spec fn dc_join(left: Seq<Vertex>, right: Seq<Vertex>, polygon: Seq<Vertex>) -> Result<
    Seq<VertexId>,
    PolygonError,
> {
    match dc_tangent(left, right, polygon, false) {
        Err(e) => Err(e),
        Ok((lt_a, lt_b)) => match dc_tangent(left, right, polygon, true) {
            Err(e) => Err(e),
            Ok((ut_a, ut_b)) => Ok(
                walk_ids(right, index_of(right, lt_b), index_of(right, ut_b)) + walk_ids(
                    left,
                    index_of(left, ut_a),
                    index_of(left, lt_a),
                ),
            ),
        },
    }
}

/// The order of `lowest_leftmost_vertex`.
pub open spec fn lowest_leftmost_order() -> crate::geometry::VertexOrder {
    crate::geometry::VertexOrder { x_first: true, first_desc: false, second_desc: false }
}

/// A group of three identifiers made ready for a merge: turned
/// counter-clockwise when it turns clockwise, and reduced to its lowest
/// leftmost and highest rightmost corners when it is degenerate.
pub open spec fn clean_triangle_spec(polygon: Seq<Vertex>, ids: Seq<VertexId>) -> Seq<VertexId> {
    let t = seq![vertex_of(polygon, ids[0]), vertex_of(polygon, ids[1]), vertex_of(polygon, ids[2])];
    let area = orient(t[0], t[1], t[2]);
    if area < 0 {
        seq![ids[2], ids[1], ids[0]]
    } else if area == 0 {
        seq![
            crate::geometry::first_min(t, lowest_leftmost_order()).id,
            crate::geometry::first_min(t, highest_rightmost_order()).id,
        ]
    } else {
        ids
    }
}

/// The chain a merge works on: the validated polygon of three or more
/// identifiers, or the segment of two.
pub open spec fn chain_spec(polygon: Seq<Vertex>, ids: Seq<VertexId>) -> Result<Seq<Vertex>, PolygonError> {
    if ids.len() >= 3 {
        ids_polygon(polygon, ids, false, false)
    } else if ids[0] == ids[1] {
        Err(PolygonError::DuplicateVertexId)
    } else {
        Ok(seq![vertex_of(polygon, ids[0]), vertex_of(polygon, ids[1])])
    }
}

/// The merge of two neighbouring groups of identifiers: triangles are made
/// ready first; two collinear segments merge into the lowest leftmost end of
/// the first and the highest rightmost end of the second; otherwise the
/// chains are joined along their common tangents.
pub open spec fn dc_merge(polygon: Seq<Vertex>, left: Seq<VertexId>, right: Seq<VertexId>) -> Result<
    Seq<VertexId>,
    PolygonError,
> {
    let r2 = if right.len() == 3 {
        clean_triangle_spec(polygon, right)
    } else {
        right
    };
    let l2 = if left.len() == 3 {
        clean_triangle_spec(polygon, left)
    } else {
        left
    };
    let lv = seq![vertex_of(polygon, l2[0]), vertex_of(polygon, l2[1])];
    let rv = seq![vertex_of(polygon, r2[0]), vertex_of(polygon, r2[1])];
    if r2.len() == 2 && l2.len() == 2 && crate::line_segment::collinear_with_spec(lv[0], lv[1], rv[0], rv[1]) {
        Ok(
            seq![
                crate::geometry::first_min(lv, lowest_leftmost_order()).id,
                crate::geometry::first_min(rv, highest_rightmost_order()).id,
            ],
        )
    } else {
        match chain_spec(polygon, l2) {
            Err(e) => Err(e),
            Ok(lc) => match chain_spec(polygon, r2) {
                Err(e) => Err(e),
                Ok(rc) => dc_join(lc, rc, polygon),
            },
        }
    }
}

/// The divide and conquer convex hull algorithm.
#[derive(Clone, Copy, Debug, Default)]
pub struct DivideConquer;

impl DivideConquer {
    /// Searches the tangent common to `left` and `right`, from below (or,
    /// when `upper`, from above): starting at their facing extreme vertices,
    /// the end on `left` moves clockwise (counter-clockwise for the upper
    /// tangent) until the segment is tangent there, then the end on `right`
    /// moves the other way until it is tangent there, and so on until it is
    /// tangent at both. Gives up after as many moves as there are pairs of
    /// vertices, after which the search could only repeat itself.
    fn tangent_vertices(&self, left: &Polygon, right: &Polygon, polygon: &Polygon, upper: bool) -> (r: Result<
        (VertexId, VertexId),
        PolygonError,
    >)
        requires
            left.wf(),
            right.wf(),
            polygon.wf(),
            left@.len() > 0,
            right@.len() > 0,
            vertices_within(left@, polygon@),
            vertices_within(right@, polygon@),
        ensures
            r == dc_tangent(left@, right@, polygon@, upper),
            r matches Ok((a, b)) ==> has_id(left@, a) && has_id(right@, b) && tangent_pair_holds(
                left@,
                right@,
                polygon@,
                a,
                b,
                upper,
            ),
    {
        let va = if upper {
            left.highest_rightmost_vertex()
        } else {
            left.lowest_rightmost_vertex()
        };
        let vb = if upper {
            right.highest_leftmost_vertex()
        } else {
            right.lowest_leftmost_vertex()
        };
        let mut a = va.id;
        let mut b = vb.id;
        proof {
            let i = choose|i: int| 0 <= i < left@.len() && va == left@[i] && crate::geometry::is_first_min(left@, i, left_start_order(upper));
            let i2 = choose|i: int| crate::geometry::is_first_min(left@, i, left_start_order(upper));
            crate::geometry::lemma_first_min_unique(left@, i, i2, left_start_order(upper));
            let j = choose|j: int| 0 <= j < right@.len() && vb == right@[j] && crate::geometry::is_first_min(right@, j, right_start_order(upper));
            let j2 = choose|j: int| crate::geometry::is_first_min(right@, j, right_start_order(upper));
            crate::geometry::lemma_first_min_unique(right@, j, j2, right_start_order(upper));
            assert(has_id(left@, a) && has_id(right@, b));
        }
        proof {
            crate::polygon::lemma_distinct_ids_bound(left@);
            crate::polygon::lemma_distinct_ids_bound(right@);
            let l = left@.len();
            let m = right@.len();
            assert(l * m <= 0x1_0000_0000 * 0x1_0000_0000) by (nonlinear_arith)
                requires
                    l <= 0x1_0000_0000,
                    m <= 0x1_0000_0000,
            ;
        }
        let fuel: u128 = left.num_vertices() as u128 * right.num_vertices() as u128;
        let mut moves: u128 = 0;
        let ghost l = left@;
        let ghost rr = right@;
        let ghost p = polygon@;
        loop
            invariant
                left.wf(),
                right.wf(),
                polygon.wf(),
                l == left@,
                rr == right@,
                p == polygon@,
                vertices_within(left@, polygon@),
                vertices_within(right@, polygon@),
                has_id(left@, a),
                has_id(right@, b),
                moves <= fuel,
                fuel == left@.len() * right@.len(),
                dc_tangent(l, rr, p, upper) == dc_tangent_from(l, rr, p, upper, a, b, moves as int, fuel as int),
            decreases fuel - moves,
        {
            proof {
                let i = choose|i: int| 0 <= i < left@.len() && left@[i].id == a;
                let j = choose|j: int| 0 <= j < right@.len() && right@[j].id == b;
                lemma_within_has_id(left@, polygon@, i);
                lemma_within_has_id(right@, polygon@, j);
            }
            let seg = polygon.get_line_segment(&a, &b).unwrap();
            let ghost a0 = a;
            let ghost b0 = b;
            let ghost moves0 = moves;
            let ta0 = tangent_at(&seg, &a, left, upper);
            let tb0 = tangent_at(&seg, &b, right, upper);
            if ta0 && tb0 {
                return Ok((a, b));
            }
            let mut ta = ta0;
            let mut seg = seg;
            while !ta
                invariant
                    left.wf(),
                    right.wf(),
                    polygon.wf(),
                    l == left@,
                    rr == right@,
                    p == polygon@,
                    vertices_within(left@, polygon@),
                    vertices_within(right@, polygon@),
                    has_id(left@, a),
                    has_id(right@, b),
                    b == b0,
                    moves0 <= moves <= fuel,
                    moves == moves0 ==> a == a0,
                    dc_tangent(l, rr, p, upper) == dc_tangent_from(l, rr, p, upper, a0, b0, moves0 as int, fuel as int),
                    !(dc_tangent_at(l, p, a0, b0, a0, upper) && dc_tangent_at(rr, p, a0, b0, b0, upper)),
                    seg.v1 == vertex_of(polygon@, a),
                    seg.v2 == vertex_of(polygon@, b),
                    ta == dc_tangent_at(l, p, a, b, a, upper),
                    advance_left(l, p, upper, a0, b0, moves0 as int, fuel as int) == advance_left(
                        l,
                        p,
                        upper,
                        a,
                        b,
                        moves as int,
                        fuel as int,
                    ),
                decreases fuel - moves,
            {
                if moves >= fuel {
                    return Err(PolygonError::TangentNotFound);
                }
                proof {
                    crate::polygon::lemma_neighbours_present(left@, a);
                }
                a = if upper {
                    left.next_vertex_id(&a).unwrap()
                } else {
                    left.prev_vertex_id(&a).unwrap()
                };
                moves = moves + 1;
                proof {
                    let i = choose|i: int| 0 <= i < left@.len() && left@[i].id == a;
                    lemma_within_has_id(left@, polygon@, i);
                }
                seg = polygon.get_line_segment(&a, &b).unwrap();
                ta = tangent_at(&seg, &a, left, upper);
            }
            let ghost a1 = a;
            let ghost moves1 = moves;
            let mut tb = tangent_at(&seg, &b, right, upper);
            while !tb
                invariant
                    left.wf(),
                    right.wf(),
                    polygon.wf(),
                    l == left@,
                    rr == right@,
                    p == polygon@,
                    vertices_within(left@, polygon@),
                    vertices_within(right@, polygon@),
                    has_id(left@, a),
                    has_id(right@, b),
                    a == a1,
                    moves1 <= moves <= fuel,
                    moves == moves1 ==> b == b0,
                    dc_tangent(l, rr, p, upper) == dc_tangent_from(l, rr, p, upper, a0, b0, moves0 as int, fuel as int),
                    !(dc_tangent_at(l, p, a0, b0, a0, upper) && dc_tangent_at(rr, p, a0, b0, b0, upper)),
                    advance_left(l, p, upper, a0, b0, moves0 as int, fuel as int) == Some((a1, moves1 as int)),
                    seg.v1 == vertex_of(polygon@, a),
                    seg.v2 == vertex_of(polygon@, b),
                    tb == dc_tangent_at(rr, p, a, b, b, upper),
                    advance_right(rr, p, upper, a1, b0, moves1 as int, fuel as int) == advance_right(
                        rr,
                        p,
                        upper,
                        a,
                        b,
                        moves as int,
                        fuel as int,
                    ),
                decreases fuel - moves,
            {
                if moves >= fuel {
                    return Err(PolygonError::TangentNotFound);
                }
                proof {
                    crate::polygon::lemma_neighbours_present(right@, b);
                }
                b = if upper {
                    right.prev_vertex_id(&b).unwrap()
                } else {
                    right.next_vertex_id(&b).unwrap()
                };
                moves = moves + 1;
                proof {
                    let j = choose|j: int| 0 <= j < right@.len() && right@[j].id == b;
                    lemma_within_has_id(right@, polygon@, j);
                }
                seg = polygon.get_line_segment(&a, &b).unwrap();
                tb = tangent_at(&seg, &b, right, upper);
            }
            proof {
                lemma_advance_left(l, p, upper, a0, b0, moves0 as int, fuel as int);
                lemma_advance_right(rr, p, upper, a1, b0, moves1 as int, fuel as int);
                assert(advance_left(l, p, upper, a0, b0, moves0 as int, fuel as int) == Some((a1, moves1 as int)));
                assert(advance_right(rr, p, upper, a1, b0, moves1 as int, fuel as int) == Some((b, moves as int)));
                if moves1 == moves0 {
                    assert(a1 == a0);
                    assert(!dc_tangent_at(rr, p, a0, b0, b0, upper));
                }
                assert(moves0 < moves);
            }
        }
    }
}

/// Every identifier of `ids` names a vertex of `s`.
pub open spec fn ids_present(s: Seq<Vertex>, ids: Seq<VertexId>) -> bool {
    forall|q: int| 0 <= q < ids.len() ==> has_id(s, #[trigger] ids[q])
}

/// The termination measure of the splitting phase.
pub open spec fn split_weight(st: Seq<Seq<VertexId>>) -> nat
    decreases st.len(),
{
    if st.len() == 0 {
        0
    } else {
        split_weight(st.drop_last()) + (2 * st.last().len() - 1) as nat
    }
}

/// The identifier groups held in a stack of vectors.
pub open spec fn views(st: Seq<Vec<VertexId>>) -> Seq<Seq<VertexId>> {
    st.map_values(|v: Vec<VertexId>| v@)
}

/// Merges the two top groups of `m` while it holds two or more.
pub open spec fn merge_down(polygon: Seq<Vertex>, m: Seq<Seq<VertexId>>) -> Result<Seq<Seq<VertexId>>, PolygonError>
    decreases m.len(),
{
    if m.len() <= 1 {
        Ok(m)
    } else {
        match dc_merge(polygon, m[m.len() - 2], m[m.len() - 1]) {
            Err(e) => Err(e),
            Ok(x) => merge_down(polygon, m.drop_last().drop_last().push(x)),
        }
    }
}

/// The split and merge phases of divide and conquer, from the groups still
/// to split `split` and the merged groups `m`: the top group is split in
/// halves; halves of at most three identifiers go on the merge stack, the
/// others back on the split stack (the right half first); then the merge
/// stack is merged down.
pub open spec fn dc_run(polygon: Seq<Vertex>, split: Seq<Seq<VertexId>>, m: Seq<Seq<VertexId>>) -> Result<
    Seq<Seq<VertexId>>,
    PolygonError,
>
    decreases split_weight(split),
{
    if split.len() == 0 {
        Ok(m)
    } else {
        let g = split.last();
        let half = g.len() / 2;
        let lg = g.subrange(0, half as int);
        let rg = g.subrange(half as int, g.len() as int);
        let rest = split.drop_last();
        let split2 = if lg.len() <= 3 && rg.len() <= 3 {
            rest
        } else if lg.len() <= 3 {
            rest.push(rg)
        } else {
            rest.push(rg).push(lg)
        };
        let m2 = if lg.len() <= 3 && rg.len() <= 3 {
            m.push(lg).push(rg)
        } else if lg.len() <= 3 {
            m.push(lg)
        } else {
            m
        };
        match merge_down(polygon, m2) {
            Err(e) => Err(e),
            Ok(m3) => if split_weight(split2) < split_weight(split) {
                dc_run(polygon, split2, m3)
            } else {
                Ok(m3)
            },
        }
    }
}

/// The outcome of divide and conquer on `s`: a triangle is its own hull;
/// otherwise the identifiers by increasing `x` are split and merged, and the
/// last merged group is arranged by identifier and cleaned of collinear
/// vertices.
pub open spec fn dc_result(s: Seq<Vertex>) -> Result<Seq<Vertex>, PolygonError> {
    if s.len() == 3 {
        Ok(s)
    } else {
        let ids = ids_by_increasing_x(s);
        if ids.len() < 4 {
            Err(PolygonError::TooFewVertices)
        } else {
            match dc_run(s, seq![ids], Seq::empty()) {
                Err(e) => Err(e),
                Ok(m) => if m.len() == 0 {
                    Err(PolygonError::TooFewVertices)
                } else {
                    ids_polygon(s, m.last(), true, true)
                },
            }
        }
    }
}

impl DivideConquer {
    /// Joins the chains: on `b` from its lower to its upper tangent vertex,
    /// then on `a` from its upper to its lower tangent vertex, each
    /// counter-clockwise.
    fn extract_boundary(
        &self,
        a: &Polygon,
        b: &Polygon,
        lt_a: VertexId,
        lt_b: VertexId,
        ut_a: VertexId,
        ut_b: VertexId,
    ) -> (r: Vec<VertexId>)
        requires
            a.wf(),
            b.wf(),
            has_id(a@, lt_a),
            has_id(a@, ut_a),
            has_id(b@, lt_b),
            has_id(b@, ut_b),
        ensures
            r@ == walk_ids(b@, index_of(b@, lt_b), index_of(b@, ut_b)) + walk_ids(
                a@,
                index_of(a@, ut_a),
                index_of(a@, lt_a),
            ),
            r@.len() >= 2,
            forall|q: int| 0 <= q < r@.len() ==> has_id(a@, #[trigger] r@[q]) || has_id(b@, r@[q]),
    {
        let mut on_b = walk_between(b, &lt_b, &ut_b);
        let mut on_a = walk_between(a, &ut_a, &lt_a);
        let ghost pb = on_b@;
        let ghost pa = on_a@;
        on_b.append(&mut on_a);
        proof {
            assert(on_b@ =~= pb + pa);
            assert forall|q: int| 0 <= q < on_b@.len() implies has_id(a@, #[trigger] on_b@[q]) || has_id(
                b@,
                on_b@[q],
            ) by {
                if q < pb.len() {
                    assert(on_b@[q] == pb[q]);
                } else {
                    assert(on_b@[q] == pa[q - pb.len()]);
                }
            }
        }
        on_b
    }

    /// Joins two convex chains along their lower and upper common tangents.
    fn merge_from_tangents(&self, left: &Polygon, right: &Polygon, polygon: &Polygon) -> (r: Result<
        Vec<VertexId>,
        PolygonError,
    >)
        requires
            left.wf(),
            right.wf(),
            polygon.wf(),
            left@.len() > 0,
            right@.len() > 0,
            vertices_within(left@, polygon@),
            vertices_within(right@, polygon@),
        ensures
            match r {
                Ok(ids) => dc_join(left@, right@, polygon@) == Ok::<Seq<VertexId>, PolygonError>(ids@),
                Err(e) => dc_join(left@, right@, polygon@) == Err::<Seq<VertexId>, PolygonError>(e),
            },
            r matches Ok(ids) ==> ids@.len() >= 2 && ids_present(polygon@, ids@),
    {
        let (lt_a, lt_b) = match self.tangent_vertices(left, right, polygon, false) {
            Ok(x) => x,
            Err(e) => {
                return Err(e);
            },
        };
        let (ut_a, ut_b) = match self.tangent_vertices(left, right, polygon, true) {
            Ok(x) => x,
            Err(e) => {
                return Err(e);
            },
        };
        let ids = self.extract_boundary(left, right, lt_a, lt_b, ut_a, ut_b);
        proof {
            assert forall|q: int| 0 <= q < ids@.len() implies has_id(polygon@, #[trigger] ids@[q]) by {
                if has_id(left@, ids@[q]) {
                    let j = choose|j: int| 0 <= j < left@.len() && left@[j].id == ids@[q];
                    lemma_within_has_id(left@, polygon@, j);
                } else {
                    let j = choose|j: int| 0 <= j < right@.len() && right@[j].id == ids@[q];
                    lemma_within_has_id(right@, polygon@, j);
                }
            }
        }
        Ok(ids)
    }

    /// Turns a clockwise triangle counter-clockwise; replaces a degenerate
    /// one by its lowest leftmost and highest rightmost corners.
    fn clean_triangle_ids(&self, ids: &mut Vec<VertexId>, polygon: &Polygon)
        requires
            polygon.wf(),
            old(ids)@.len() == 3,
            ids_present(polygon@, old(ids)@),
        ensures
            final(ids)@ == clean_triangle_spec(polygon@, old(ids)@),
            final(ids)@.len() == 2 || final(ids)@.len() == 3,
            ids_present(polygon@, final(ids)@),
    {
        let ghost old_ids = ids@;
        let t = polygon.get_triangle(&ids[0], &ids[1], &ids[2]).unwrap();
        let area = t.double_area();
        proof {
            assert(has_id(polygon@, ids@[0]) && has_id(polygon@, ids@[1]) && has_id(polygon@, ids@[2]));
        }
        if area < 0 {
            let a = ids[0];
            let c = ids[2];
            ids.set(0, c);
            ids.set(2, a);
            proof {
                assert(ids@ =~= seq![old_ids[2], old_ids[1], old_ids[0]]);
            }
        } else if area == 0 {
            let lo = t.lowest_leftmost_vertex();
            let hi = t.highest_rightmost_vertex();
            let mut cleaned: Vec<VertexId> = Vec::new();
            cleaned.push(lo.id);
            cleaned.push(hi.id);
            proof {
                let tv = seq![t.v1, t.v2, t.v3];
                assert forall|k: int| 0 <= k < 3 implies has_id(polygon@, #[trigger] tv[k].id) by {
                    assert(tv[k] == vertex_of(polygon@, old_ids[k]));
                    assert(vertex_of(polygon@, old_ids[k]).id == old_ids[k]);
                }
                let i = choose|i: int|
                    crate::geometry::is_first_min(tv, i, lowest_leftmost_order()) && lo == tv[i];
                let i2 = choose|i: int| crate::geometry::is_first_min(tv, i, lowest_leftmost_order());
                crate::geometry::lemma_first_min_unique(tv, i, i2, lowest_leftmost_order());
                let j = choose|j: int|
                    crate::geometry::is_first_min(tv, j, highest_rightmost_order()) && hi == tv[j];
                let j2 = choose|j: int| crate::geometry::is_first_min(tv, j, highest_rightmost_order());
                crate::geometry::lemma_first_min_unique(tv, j, j2, highest_rightmost_order());
                assert(has_id(polygon@, tv[i].id));
                assert(has_id(polygon@, tv[j].id));
                assert(cleaned@ =~= clean_triangle_spec(polygon@, old_ids));
            }
            *ids = cleaned;
        }
    }
}

impl DivideConquer {
    /// The chain for a merge operand: the validated polygon of three or more
    /// identifiers, or the segment of two.
    fn chain_of(&self, ids: Vec<VertexId>, polygon: &Polygon) -> (r: Result<Polygon, PolygonError>)
        requires
            polygon.wf(),
            ids@.len() >= 2,
            ids_present(polygon@, ids@),
        ensures
            match r {
                Ok(c) => chain_spec(polygon@, ids@) == Ok::<Seq<Vertex>, PolygonError>(c@),
                Err(e) => chain_spec(polygon@, ids@) == Err::<Seq<Vertex>, PolygonError>(e),
            },
            r matches Ok(c) ==> c.wf() && c@.len() > 0 && vertices_within(c@, polygon@),
    {
        let ghost iv = ids@;
        if ids.len() >= 3 {
            match polygon.get_polygon(ids, false, false) {
                Ok(p) => {
                    proof {
                        crate::polygon::lemma_ids_polygon(polygon@, iv, false, false, Ok(p));
                    }
                    Ok(p)
                },
                Err(e) => {
                    proof {
                        crate::polygon::lemma_ids_polygon(polygon@, iv, false, false, Err(e));
                    }
                    Err(e)
                },
            }
        } else {
            let ls = polygon.get_line_segment(&ids[0], &ids[1]).unwrap();
            proof {
                assert(has_id(polygon@, ids@[0]) && has_id(polygon@, ids@[1]));
                assert(ls.v1.id == ids@[0] && ls.v2.id == ids@[1]);
            }
            if ls.v1.id == ls.v2.id {
                return Err(PolygonError::DuplicateVertexId);
            }
            let c = Polygon::from_line_segment(&ls);
            proof {
                let i = crate::polygon::index_of(polygon@, ids@[0]);
                let j = crate::polygon::index_of(polygon@, ids@[1]);
                assert(polygon@[i] == ls.v1 && polygon@[j] == ls.v2);
                assert forall|k: int| 0 <= k < c@.len() implies polygon@.contains(#[trigger] c@[k]) by {
                    if k == 0 {
                        assert(polygon@[i] == c@[k]);
                    } else {
                        assert(polygon@[j] == c@[k]);
                    }
                }
            }
            Ok(c)
        }
    }

    /// Merges the hulls of two neighbouring groups of vertices (each of two
    /// or more identifiers); triangles are first turned counter-clockwise or,
    /// when degenerate, reduced to their end points, and two collinear
    /// segments merge into their outer end points.
    fn merge(&self, left_ids: Vec<VertexId>, right_ids: Vec<VertexId>, polygon: &Polygon) -> (r: Result<
        Vec<VertexId>,
        PolygonError,
    >)
        requires
            polygon.wf(),
            left_ids@.len() >= 2,
            right_ids@.len() >= 2,
            ids_present(polygon@, left_ids@),
            ids_present(polygon@, right_ids@),
        ensures
            match r {
                Ok(ids) => dc_merge(polygon@, left_ids@, right_ids@) == Ok::<Seq<VertexId>, PolygonError>(ids@),
                Err(e) => dc_merge(polygon@, left_ids@, right_ids@) == Err::<Seq<VertexId>, PolygonError>(e),
            },
            r matches Ok(ids) ==> ids@.len() >= 2 && ids_present(polygon@, ids@),
    {
        let ghost l0 = left_ids@;
        let ghost r0 = right_ids@;
        let mut left_ids = left_ids;
        let mut right_ids = right_ids;
        if right_ids.len() == 3 {
            self.clean_triangle_ids(&mut right_ids, polygon);
        }
        if left_ids.len() == 3 {
            self.clean_triangle_ids(&mut left_ids, polygon);
        }
        let ghost l2 = left_ids@;
        let ghost r2 = right_ids@;
        if right_ids.len() == 2 && left_ids.len() == 2 {
            let right = polygon.get_line_segment(&right_ids[0], &right_ids[1]).unwrap();
            let left = polygon.get_line_segment(&left_ids[0], &left_ids[1]).unwrap();
            if left.collinear_with(&right) {
                let lo = left.lowest_leftmost_vertex();
                let hi = right.highest_rightmost_vertex();
                let mut merged: Vec<VertexId> = Vec::new();
                merged.push(lo.id);
                merged.push(hi.id);
                proof {
                    let lv = seq![left.v1, left.v2];
                    let rv = seq![right.v1, right.v2];
                    assert(left.v1 == vertex_of(polygon@, left_ids@[0]) && left.v2 == vertex_of(polygon@, left_ids@[1]));
                    assert(right.v1 == vertex_of(polygon@, right_ids@[0]) && right.v2 == vertex_of(polygon@, right_ids@[1]));
                    assert(has_id(polygon@, left_ids@[0]) && has_id(polygon@, left_ids@[1]));
                    assert(has_id(polygon@, right_ids@[0]) && has_id(polygon@, right_ids@[1]));
                    let i = choose|i: int|
                        crate::geometry::is_first_min(lv, i, lowest_leftmost_order()) && lo == lv[i];
                    let i2 = choose|i: int| crate::geometry::is_first_min(lv, i, lowest_leftmost_order());
                    crate::geometry::lemma_first_min_unique(lv, i, i2, lowest_leftmost_order());
                    let j = choose|j: int|
                        crate::geometry::is_first_min(rv, j, highest_rightmost_order()) && hi == rv[j];
                    let j2 = choose|j: int| crate::geometry::is_first_min(rv, j, highest_rightmost_order());
                    crate::geometry::lemma_first_min_unique(rv, j, j2, highest_rightmost_order());
                    assert(lv[i].id == left_ids@[i]);
                    assert(rv[j].id == right_ids@[j]);
                    assert(merged@ =~= seq![lo.id, hi.id]);
                }
                return Ok(merged);
            }
        }
        let left = match self.chain_of(left_ids, polygon) {
            Ok(c) => c,
            Err(e) => {
                return Err(e);
            },
        };
        let right = match self.chain_of(right_ids, polygon) {
            Ok(c) => c,
            Err(e) => {
                return Err(e);
            },
        };
        self.merge_from_tangents(&left, &right, polygon)
    }

    /// Sorts the vertices by `x`, splits them in halves until every group
    /// has two or three vertices, and merges neighbouring hulls back along
    /// their common tangents. The result is the merged hull arranged by
    /// identifier and cleaned of collinear vertices. A triangle is returned
    /// as it is.
    pub fn convex_hull(&self, polygon: &Polygon, tracer: &mut Option<ConvexHullTracer>) -> (r: Result<
        Polygon,
        PolygonError,
    >)
        requires
            polygon.wf(),
            polygon@.len() > 0,
        ensures
            match dc_result(polygon@) {
                Ok(h) => r matches Ok(p) && p@ == h,
                Err(e) => r == Err::<Polygon, PolygonError>(e),
            },
            r matches Ok(hull) ==> hull.wf() && hull@.len() > 0 && vertices_within(hull@, polygon@),
            *final(tracer) == *old(tracer),
    {
        if polygon.num_vertices() == 3 {
            let p = polygon.copy();
            proof {
                assert forall|k: int| 0 <= k < p@.len() implies polygon@.contains(#[trigger] p@[k]) by {
                    assert(polygon@[k] == p@[k]);
                }
            }
            return Ok(p);
        }
        let ghost s = polygon@;
        let mut split_stack: Vec<Vec<VertexId>> = Vec::new();
        let mut merge_stack: Vec<Vec<VertexId>> = Vec::new();
        let ids = polygon.vertex_ids_by_increasing_x();
        if ids.len() < 4 {
            return Err(PolygonError::TooFewVertices);
        }
        let ghost ids0 = ids@;
        split_stack.push(ids);
        proof {
            assert(views(split_stack@) =~= seq![ids0]);
            assert(views(merge_stack@) =~= Seq::<Seq<VertexId>>::empty());
        }
        while split_stack.len() > 0
            invariant
                polygon.wf(),
                polygon@ == s,
                s.len() != 3,
                forall|q: int| 0 <= q < split_stack@.len() ==> (#[trigger] split_stack@[q])@.len() >= 4
                    && ids_present(polygon@, split_stack@[q]@),
                forall|q: int| 0 <= q < merge_stack@.len() ==> (#[trigger] merge_stack@[q])@.len() >= 2
                    && ids_present(polygon@, merge_stack@[q]@),
                dc_run(s, seq![ids0], Seq::empty()) == dc_run(s, views(split_stack@), views(merge_stack@)),
                ids0 == ids_by_increasing_x(s),
                ids0.len() >= 4,
            decreases split_weight(views(split_stack@)),
        {
            let ghost before = split_stack@;
            let ghost m_before = merge_stack@;
            let mut left_ids = split_stack.pop().unwrap();
            proof {
                assert(before.drop_last() =~= split_stack@);
                assert(before[before.len() - 1] == left_ids);
                assert(views(before).drop_last() =~= views(split_stack@));
                assert(views(before).last() == left_ids@);
                assert(split_weight(views(before)) == split_weight(views(split_stack@)) + (2 * left_ids@.len() - 1) as nat);
            }
            let ghost whole = left_ids@;
            let half = left_ids.len() / 2;
            let right_ids = left_ids.split_off(half);
            proof {
                assert(left_ids@ =~= whole.subrange(0, half as int));
                assert(right_ids@ =~= whole.subrange(half as int, whole.len() as int));
                assert forall|q: int| 0 <= q < left_ids@.len() implies has_id(polygon@, #[trigger] left_ids@[q]) by {
                    assert(left_ids@[q] == whole[q]);
                }
                assert forall|q: int| 0 <= q < right_ids@.len() implies has_id(polygon@, #[trigger] right_ids@[q]) by {
                    assert(right_ids@[q] == whole[q + half]);
                }
            }
            let ghost mid = split_stack@;
            let ghost ll = left_ids@.len();
            let ghost rl = right_ids@.len();
            let ghost lgv = left_ids@;
            let ghost rgv = right_ids@;
            if left_ids.len() <= 3 && right_ids.len() <= 3 {
                merge_stack.push(left_ids);
                merge_stack.push(right_ids);
            } else if left_ids.len() <= 3 {
                merge_stack.push(left_ids);
                split_stack.push(right_ids);
            } else {
                split_stack.push(right_ids);
                split_stack.push(left_ids);
            }
            let ghost m2 = views(merge_stack@);
            proof {
                assert(ll + rl == whole.len() && ll >= 2);
                let vm = views(mid);
                if ll <= 3 && rl <= 3 {
                    assert(split_stack@ == mid);
                    assert(views(merge_stack@) =~= views(m_before).push(lgv).push(rgv));
                } else if ll <= 3 {
                    assert(split_stack@.drop_last() =~= mid);
                    assert(views(split_stack@) =~= vm.push(rgv));
                    assert(views(split_stack@).drop_last() =~= vm);
                    assert(split_weight(views(split_stack@)) == split_weight(vm) + (2 * rl - 1) as nat);
                    assert(views(merge_stack@) =~= views(m_before).push(lgv));
                } else {
                    let once = views(split_stack@).drop_last();
                    assert(views(split_stack@) =~= vm.push(rgv).push(lgv));
                    assert(once =~= vm.push(rgv));
                    assert(once.drop_last() =~= vm);
                    assert(split_weight(once) == split_weight(vm) + (2 * rl - 1) as nat);
                    assert(split_weight(views(split_stack@)) == split_weight(once) + (2 * ll - 1) as nat);
                    assert(views(merge_stack@) =~= views(m_before));
                }
                assert(split_weight(views(split_stack@)) < split_weight(views(before)));
                assert forall|q: int| 0 <= q < split_stack@.len() implies (#[trigger] split_stack@[q])@.len() >= 4
                    && ids_present(polygon@, split_stack@[q]@) by {
                    if q < mid.len() {
                        assert(split_stack@[q] == mid[q]);
                    }
                }
            }
            let ghost split2 = views(split_stack@);
            proof {
                assert(views(before).last().subrange(0, (views(before).last().len() / 2) as int) =~= lgv);
                assert(views(before).last().subrange(
                    (views(before).last().len() / 2) as int,
                    views(before).last().len() as int,
                ) =~= rgv);
                assert(views(before).drop_last() =~= views(mid));
            }
            assert(dc_run(s, views(before), views(m_before)) == match merge_down(s, m2) {
                Err(e) => Err(e),
                Ok(m3) => if split_weight(split2) < split_weight(views(before)) {
                    dc_run(s, split2, m3)
                } else {
                    Ok(m3)
                },
            });
            while merge_stack.len() > 1
                invariant
                    polygon.wf(),
                    polygon@ == s,
                    s.len() != 3,
                    ids0 == ids_by_increasing_x(s),
                    ids0.len() >= 4,
                    dc_run(s, seq![ids0], Seq::empty()) == match merge_down(s, m2) {
                        Err(e) => Err(e),
                        Ok(m3) => if split_weight(split2) < split_weight(views(before)) {
                            dc_run(s, split2, m3)
                        } else {
                            Ok(m3)
                        },
                    },
                    forall|q: int| 0 <= q < merge_stack@.len() ==> (#[trigger] merge_stack@[q])@.len() >= 2
                        && ids_present(polygon@, merge_stack@[q]@),
                    merge_down(s, m2) == merge_down(s, views(merge_stack@)),
                decreases merge_stack@.len(),
            {
                let ghost m0 = merge_stack@;
                let right_part = merge_stack.pop().unwrap();
                let left_part = merge_stack.pop().unwrap();
                proof {
                    assert(m0[m0.len() - 1] == right_part);
                    assert(m0[m0.len() - 2] == left_part);
                    assert(views(m0)[m0.len() - 1] == right_part@);
                    assert(views(m0)[m0.len() - 2] == left_part@);
                }
                let merged = match self.merge(left_part, right_part, polygon) {
                    Ok(m) => m,
                    Err(e) => {
                        return Err(e);
                    },
                };
                let ghost m1 = merge_stack@;
                merge_stack.push(merged);
                proof {
                    assert(views(merge_stack@) =~= views(m0).drop_last().drop_last().push(merged@));
                    assert forall|q: int| 0 <= q < merge_stack@.len() implies (#[trigger] merge_stack@[q])@.len() >= 2
                        && ids_present(polygon@, merge_stack@[q]@) by {
                        if q < m1.len() {
                            assert(merge_stack@[q] == m0[q]);
                        }
                    }
                }
            }
            proof {
                assert(merge_down(s, views(merge_stack@)) == Ok::<Seq<Seq<VertexId>>, PolygonError>(views(merge_stack@)));
            }
        }
        let hull_ids = match merge_stack.pop() {
            Some(h) => h,
            None => {
                return Err(PolygonError::TooFewVertices);
            },
        };
        proof {
            assert(ids_present(polygon@, hull_ids@));
        }
        let ghost hv = hull_ids@;
        let r = polygon.get_polygon(hull_ids, true, true);
        proof {
            crate::polygon::lemma_ids_polygon(s, hv, true, true, r);
        }
        r
    }
}

impl ConvexHullComputer for InteriorPoints {
    fn convex_hull(&self, polygon: &Polygon, tracer: &mut Option<ConvexHullTracer>) -> (r: Result<
        Polygon,
        PolygonError,
    >)
        ensures
            polygon_from_ids_result(polygon@, exterior_ids(polygon@), true, false, r),
            r matches Ok(hull) ==> hull.wf() && hull@.len() > 0 && vertices_within(hull@, polygon@),
            r matches Ok(hull) ==> ids_of(hull@).to_set() == exterior_ids(polygon@).to_set(),
            *final(tracer) == *old(tracer),
    {
        InteriorPoints::convex_hull(self, polygon, tracer)
    }
}

impl ConvexHullComputer for ExtremeEdges {
    fn convex_hull(&self, polygon: &Polygon, tracer: &mut Option<ConvexHullTracer>) -> (r: Result<
        Polygon,
        PolygonError,
    >)
        ensures
            polygon_from_ids_result(polygon@, edge_starts(polygon@), true, true, r),
            r matches Ok(hull) ==> hull.wf() && hull@.len() > 0 && vertices_within(hull@, polygon@),
            *final(tracer) == *old(tracer),
    {
        ExtremeEdges::convex_hull(self, polygon, tracer)
    }
}

impl ConvexHullComputer for QuickHull {
    fn convex_hull(&self, polygon: &Polygon, tracer: &mut Option<ConvexHullTracer>) -> (r: Result<
        Polygon,
        PolygonError,
    >)
        ensures
            exists|hull: Seq<VertexId>|
                hull.no_duplicates() && hull.to_set() == quickhull_result(polygon@) && polygon_from_ids_result(
                    polygon@,
                    hull,
                    true,
                    false,
                    r,
                ),
            r matches Ok(hull) ==> hull.wf() && hull@.len() > 0 && vertices_within(hull@, polygon@),
            r matches Ok(hull) ==> ids_of(hull@).to_set() == quickhull_result(polygon@),
            valid_polygon(polygon@) ==> (r matches Ok(hull) ==> exterior_ids(polygon@).to_set().subset_of(
                ids_of(hull@).to_set(),
            )),
            *final(tracer) == *old(tracer),
    {
        QuickHull::convex_hull(self, polygon, tracer)
    }
}

impl ConvexHullComputer for Incremental {
    fn convex_hull(&self, polygon: &Polygon, tracer: &mut Option<ConvexHullTracer>) -> (r: Result<
        Polygon,
        PolygonError,
    >)
        ensures
            match incremental_result(polygon@) {
                Ok(h) => r matches Ok(hull) && hull@ == h,
                Err(e) => r == Err::<Polygon, PolygonError>(e),
            },
            r matches Ok(hull) ==> hull.wf() && hull@.len() > 0 && vertices_within(hull@, polygon@),
            (*old(tracer)) is None <==> (*final(tracer)) is None,
            r is Ok ==> trace_appended(*old(tracer), *final(tracer), incremental_records(polygon@)),
    {
        Incremental::convex_hull(self, polygon, tracer)
    }
}

impl ConvexHullComputer for DivideConquer {
    fn convex_hull(&self, polygon: &Polygon, tracer: &mut Option<ConvexHullTracer>) -> (r: Result<
        Polygon,
        PolygonError,
    >)
        ensures
            match dc_result(polygon@) {
                Ok(h) => r matches Ok(p) && p@ == h,
                Err(e) => r == Err::<Polygon, PolygonError>(e),
            },
            r matches Ok(hull) ==> hull.wf() && hull@.len() > 0 && vertices_within(hull@, polygon@),
            *final(tracer) == *old(tracer),
    {
        DivideConquer::convex_hull(self, polygon, tracer)
    }
}

} // verus!
