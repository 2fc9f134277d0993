//! Polygons as cycles of vertices with distinct identifiers: construction
//! with validation, traversal, lookup, vertex removal, area, collinear
//! vertex cleaning and the diagonal test that ear clipping relies on.

use vstd::prelude::*;

use crate::area::{fan_double_area, fan_partial, fan_term};
use crate::bounding_box::BoundingBox;
use crate::sorting::{id_less, sort_by_id, sort_by_id_spec, sort_by_xy, sort_by_xy_spec, sorted_by, same_elements};
use crate::geometry::{
    coord_max, coord_min, first_min_index, highest_leftmost, highest_rightmost, is_coord_max,
    is_coord_min, is_first_min, leftmost_highest, leftmost_lowest, lowest_leftmost,
    lowest_rightmost, rightmost_highest, rightmost_lowest, VertexOrder,
};
use crate::line_segment::{
    connected_spec, incident_spec, intersects_spec, LineSegment,
};
use crate::triangle::Triangle;
use crate::vertex::{diff_bound, left_of, left_on_of, orient, orientation, same_coords, Vertex, VertexId};

verus! {

/// Number of distinct vertex identifiers.
pub open spec fn id_space() -> int {
    0x1_0000_0000
}

/// No two positions of `s` hold the same identifier.
pub open spec fn distinct_ids(s: Seq<Vertex>) -> bool {
    forall|i: int, j: int| 0 <= i < s.len() && 0 <= j < s.len() && i != j ==> s[i].id != s[j].id
}

pub open spec fn has_id(s: Seq<Vertex>, id: VertexId) -> bool {
    exists|i: int| 0 <= i < s.len() && s[i].id == id
}

/// The position of the vertex with identifier `id`.
pub open spec fn index_of(s: Seq<Vertex>, id: VertexId) -> int {
    choose|i: int| 0 <= i < s.len() && s[i].id == id
}

pub open spec fn prev_index(n: int, i: int) -> int {
    (i + n - 1) % n
}

pub open spec fn next_index(n: int, i: int) -> int {
    (i + 1) % n
}

/// The vertex with identifier `id`.
pub open spec fn vertex_of(s: Seq<Vertex>, id: VertexId) -> Vertex {
    s[index_of(s, id)]
}

/// The vertex before the one with identifier `id` around the cycle.
pub open spec fn prev_of(s: Seq<Vertex>, id: VertexId) -> Vertex {
    s[prev_index(s.len() as int, index_of(s, id))]
}

/// The vertex after the one with identifier `id` around the cycle.
pub open spec fn next_of(s: Seq<Vertex>, id: VertexId) -> Vertex {
    s[next_index(s.len() as int, index_of(s, id))]
}

pub open spec fn ids_of(s: Seq<Vertex>) -> Seq<VertexId> {
    s.map_values(|v: Vertex| v.id)
}

/// The directed edges of the cycle, as identifier pairs, starting at `s[0]`.
pub open spec fn edge_ids(s: Seq<Vertex>) -> Seq<(VertexId, VertexId)> {
    Seq::new(s.len(), |i: int| (s[i].id, s[next_index(s.len() as int, i)].id))
}

/// The position of the least identifier of `s`.
pub open spec fn is_min_id_index(s: Seq<Vertex>, m: int) -> bool {
    &&& 0 <= m < s.len()
    &&& forall|j: int| 0 <= j < s.len() ==> s[m].id.0 <= #[trigger] s[j].id.0
}

/// The two edges `ab` and `cd` neither intersect nor share an end point, in
/// either direction of the test.
pub open spec fn edges_apart(a: Vertex, b: Vertex, c: Vertex, d: Vertex) -> bool {
    &&& !intersects_spec(a, b, c, d)
    &&& !incident_spec(a, b, c)
    &&& !incident_spec(a, b, d)
    &&& !intersects_spec(c, d, a, b)
    &&& !incident_spec(c, d, a)
    &&& !incident_spec(c, d, b)
}

/// The `i`-th and `j`-th edges, counted around the cycle from the position
/// `m`, are apart.
pub open spec fn edge_pair_apart(s: Seq<Vertex>, m: int, i: int, j: int) -> bool {
    let n = s.len() as int;
    edges_apart(s[(m + i) % n], s[(m + i + 1) % n], s[(m + j) % n], s[(m + j + 1) % n])
}

/// The edge test of validation. Edges are numbered around the cycle from
/// the vertex with the least identifier; the `i`-th edge must be apart from
/// every edge numbered from `i + 2` up to the second to last (the last edge
/// is not compared).
pub open spec fn edges_simple(s: Seq<Vertex>, m: int) -> bool {
    forall|i: int, j: int|
        0 <= i && i + 2 <= j <= s.len() - 2 ==> #[trigger] edge_pair_apart(s, m, i, j)
}

/// What validation reports on the cycle `s` (whose least identifier sits at
/// position `m`): too few vertices, intersecting edges, a non-positive
/// area, or nothing.
pub open spec fn validation_error(s: Seq<Vertex>, m: int) -> Option<PolygonError> {
    if s.len() < 3 {
        Some(PolygonError::TooFewVertices)
    } else if !edges_simple(s, m) {
        Some(PolygonError::EdgesIntersect)
    } else if fan_double_area(s) <= 0 {
        Some(PolygonError::NonPositiveArea)
    } else {
        None
    }
}

/// The position of the least identifier.
pub open spec fn min_id_position(s: Seq<Vertex>) -> int {
    choose|m: int| is_min_id_index(s, m)
}

/// What validation reports on the cycle `s`, `None` when it is valid.
pub open spec fn check_polygon(s: Seq<Vertex>) -> Option<PolygonError> {
    if s.len() == 0 {
        Some(PolygonError::TooFewVertices)
    } else {
        validation_error(s, min_id_position(s))
    }
}

/// `s` is a valid polygon: at least three vertices, no intersecting edges
/// (as validation compares them) and a positive, counter-clockwise area.
pub open spec fn valid_polygon(s: Seq<Vertex>) -> bool {
    check_polygon(s) is None
}

/// The vertex at position `i` is collinear with its two neighbours.
pub open spec fn collinear_at(s: Seq<Vertex>, i: int) -> bool {
    let n = s.len() as int;
    orient(s[prev_index(n, i)], s[i], s[next_index(n, i)]) == 0
}

/// The identifiers, in cycle order, of the vertices collinear with their
/// neighbours among the first `k` positions.
pub open spec fn collinear_ids_upto(s: Seq<Vertex>, k: nat) -> Seq<VertexId>
    decreases k,
{
    if k == 0 {
        Seq::empty()
    } else if collinear_at(s, k - 1) {
        collinear_ids_upto(s, (k - 1) as nat).push(s[k - 1].id)
    } else {
        collinear_ids_upto(s, (k - 1) as nat)
    }
}

pub open spec fn collinear_ids(s: Seq<Vertex>) -> Seq<VertexId> {
    collinear_ids_upto(s, s.len())
}

/// The cycle without the vertices at the first `k` positions that are
/// collinear with their neighbours in `s`.
pub open spec fn drop_collinear_upto(s: Seq<Vertex>, k: nat) -> Seq<Vertex>
    decreases k,
{
    if k == 0 {
        Seq::empty()
    } else if collinear_at(s, k - 1) {
        drop_collinear_upto(s, (k - 1) as nat)
    } else {
        drop_collinear_upto(s, (k - 1) as nat).push(s[k - 1])
    }
}

/// One round of cleaning: every vertex collinear with its neighbours is
/// removed at once.
pub open spec fn drop_collinear(s: Seq<Vertex>) -> Seq<Vertex> {
    drop_collinear_upto(s, s.len())
}

/// Repeated rounds of cleaning until no vertex is collinear with its
/// neighbours. `None` when a round leaves no vertex at all.
pub open spec fn clean_collinear_spec(s: Seq<Vertex>) -> Option<Seq<Vertex>>
    decreases s.len(),
{
    if s.len() == 0 {
        None
    } else if collinear_ids(s).len() == 0 {
        Some(s)
    } else {
        if drop_collinear(s).len() < s.len() {
            clean_collinear_spec(drop_collinear(s))
        } else {
            None
        }
    }
}

/// The cone test at the vertex `a` for the segment to `b`: `a0` and `a1`
/// are the neighbours of `a`. At a convex vertex `ab` must pass strictly
/// between the two neighbours; at a reflex vertex it must not lie in the
/// exterior wedge.
pub open spec fn in_cone_spec(a: Vertex, b: Vertex, a0: Vertex, a1: Vertex) -> bool {
    if left_on_of(a, a1, a0) {
        left_of(a, b, a0) && left_of(b, a, a1)
    } else {
        !(left_on_of(a, b, a1) && left_on_of(b, a, a0))
    }
}

/// No edge of the cycle that does not touch `ab` intersects it.
pub open spec fn clear_of_edges(s: Seq<Vertex>, a: Vertex, b: Vertex) -> bool {
    forall|k: int|
        0 <= k < s.len() ==> #[trigger] edge_clear(s, k, a, b)
}

pub open spec fn edge_clear(s: Seq<Vertex>, k: int, a: Vertex, b: Vertex) -> bool {
    let c = s[k];
    let d = s[next_index(s.len() as int, k)];
    !(!connected_spec(c, d, a, b) && intersects_spec(c, d, a, b))
}

/// `ab` is a diagonal of the polygon `s`: it lies in the cones at both of
/// its end points and crosses no edge.
pub open spec fn diagonal_spec(s: Seq<Vertex>, a: Vertex, b: Vertex) -> bool {
    &&& in_cone_spec(a, b, prev_of(s, a.id), next_of(s, a.id))
    &&& in_cone_spec(b, a, prev_of(s, b.id), next_of(s, b.id))
    &&& clear_of_edges(s, a, b)
}

/// Why a polygon could not be built.
#[derive(Clone, Copy, Debug, PartialEq, Eq, Structural)]
pub enum PolygonError {
    /// Fewer than three vertices.
    TooFewVertices,
    /// Two non-adjacent edges intersect or share an end point.
    EdgesIntersect,
    /// The area is zero or negative (the vertices turn clockwise).
    NonPositiveArea,
    /// Two vertices carry the same identifier.
    DuplicateVertexId,
    /// More vertices than there are identifiers.
    TooManyVertices,
    /// A tangent search went round a whole hull without finding a tangent
    /// vertex (the search would never end).
    TangentNotFound,
    /// A scan found fewer than two vertices on its hull stack where it
    /// needed to test a turn.
    HullStackUnderflow,
    /// A wrap around the vertices did not come back to its first vertex
    /// within as many steps as there are ordered pairs of vertices, after
    /// which it could only repeat itself.
    WrapNotClosed,
}

/// A polygon: a cycle of vertices with distinct identifiers. The cycle
/// starts at the anchor vertex and runs counter-clockwise for valid
/// polygons.
#[derive(Debug)]
pub struct Polygon {
    vertices: Vec<Vertex>,
}

impl Clone for Polygon {
    fn clone(&self) -> (r: Polygon)
        ensures
            r@ == self@,
    {
        self.copy()
    }
}

impl View for Polygon {
    type V = Seq<Vertex>;

    closed spec fn view(&self) -> Seq<Vertex> {
        self.vertices@
    }
}

/// Distinct identifiers fit in the identifier space.
pub proof fn lemma_distinct_ids_bound(s: Seq<Vertex>)
    requires
        distinct_ids(s),
    ensures
        s.len() <= id_space(),
{
    let ids = s.map_values(|v: Vertex| v.id.0 as int);
    assert(ids.no_duplicates()) by {
        assert forall|i: int, j: int| 0 <= i < ids.len() && 0 <= j < ids.len() && i != j implies ids[i]
            != ids[j] by {
            assert(s[i].id != s[j].id);
        }
    }
    ids.unique_seq_to_set();
    let r = vstd::set_lib::set_int_range(0, id_space());
    vstd::set_lib::lemma_int_range(0, id_space());
    assert(ids.to_set().subset_of(r)) by {
        assert forall|x: int| ids.to_set().contains(x) implies r.contains(x) by {
            let i = choose|i: int| 0 <= i < ids.len() && ids[i] == x;
        }
    }
    vstd::set_lib::lemma_len_subset(ids.to_set(), r);
}

/// With distinct identifiers, the position of an identifier is the one
/// that holds it.
pub proof fn lemma_index_of(s: Seq<Vertex>, i: int)
    requires
        distinct_ids(s),
        0 <= i < s.len(),
    ensures
        index_of(s, s[i].id) == i,
        has_id(s, s[i].id),
{
    assert(has_id(s, s[i].id));
    let j = index_of(s, s[i].id);
}

pub proof fn lemma_neighbour_indices(n: int, i: int)
    requires
        0 <= i < n,
    ensures
        0 <= prev_index(n, i) < n,
        0 <= next_index(n, i) < n,
        prev_index(n, i) == (if i == 0 {
            n - 1
        } else {
            i - 1
        }),
        next_index(n, i) == (if i == n - 1 {
            0
        } else {
            i + 1
        }),
{
    crate::area::lemma_mod_wrap(i + n - 1, n);
    crate::area::lemma_mod_wrap(i + 1, n);
}

proof fn lemma_fan_term_bound(s: Seq<Vertex>, j: int)
    requires
        0 <= j < s.len(),
    ensures
        -2 * diff_bound() * diff_bound() < fan_term(s, j) < 2 * diff_bound() * diff_bound(),
{
    let n = s.len() as int;
    lemma_neighbour_indices(n, j);
    let a = s[0];
    let b = s[j];
    let c = s[(j + 1) % n];
    let d1 = b.x - a.x;
    let d2 = c.y - a.y;
    let d3 = c.x - a.x;
    let d4 = b.y - a.y;
    assert(-diff_bound() * diff_bound() < d1 * d2 < diff_bound() * diff_bound()) by (nonlinear_arith)
        requires
            -diff_bound() < d1 < diff_bound(),
            -diff_bound() < d2 < diff_bound(),
    ;
    assert(-diff_bound() * diff_bound() < d3 * d4 < diff_bound() * diff_bound()) by (nonlinear_arith)
        requires
            -diff_bound() < d3 < diff_bound(),
            -diff_bound() < d4 < diff_bound(),
    ;
}

/// `(m + k) % n` without overflow.
pub fn wrap_add(m: usize, k: usize, n: usize) -> (r: usize)
    requires
        m < n,
        k <= n,
    ensures
        r == (m + k) % (n as int),
        r < n,
{
    proof {
        crate::area::lemma_mod_wrap(m + k, n as int);
    }
    if k >= n - m {
        k - (n - m)
    } else {
        m + k
    }
}

impl Polygon {
    /// Identifiers are distinct (and so there are at most `id_space()`
    /// vertices).
    pub open spec fn wf(&self) -> bool {
        distinct_ids(self@)
    }

    /// The position of the vertex with identifier `id`, if there is one.
    fn find_index(&self, id: &VertexId) -> (r: Option<usize>)
        requires
            self.wf(),
        ensures
            r is Some <==> has_id(self@, *id),
            r matches Some(i) ==> i < self@.len() && self@[i as int].id == *id && index_of(
                self@,
                *id,
            ) == i,
    {
        let mut i: usize = 0;
        while i < self.vertices.len()
            invariant
                self.wf(),
                0 <= i <= self.vertices.len(),
                forall|j: int| 0 <= j < i ==> self.vertices@[j].id != *id,
            decreases self.vertices.len() - i,
        {
            if self.vertices[i].id == *id {
                proof {
                    lemma_index_of(self@, i as int);
                }
                return Some(i);
            }
            i = i + 1;
        }
        None
    }

    /// Checks that identifiers are distinct.
    fn ids_distinct(vs: &Vec<Vertex>) -> (r: bool)
        ensures
            r == distinct_ids(vs@),
    {
        let mut i: usize = 0;
        while i < vs.len()
            invariant
                0 <= i <= vs.len(),
                forall|a: int, b: int| 0 <= a < i && 0 <= b < vs.len() && a != b ==> vs@[a].id != vs@[b].id,
            decreases vs.len() - i,
        {
            let mut j: usize = 0;
            while j < vs.len()
                invariant
                    0 <= i < vs.len(),
                    0 <= j <= vs.len(),
                    forall|a: int, b: int|
                        0 <= a < i && 0 <= b < vs.len() && a != b ==> vs@[a].id != vs@[b].id,
                    forall|b: int| 0 <= b < j && b != i ==> vs@[i as int].id != vs@[b].id,
                decreases vs.len() - j,
            {
                if j != i && vs[i].id == vs[j].id {
                    return false;
                }
                j = j + 1;
            }
            i = i + 1;
        }
        true
    }

    /// The position of the vertex with the least identifier.
    fn min_id_index(vs: &Vec<Vertex>) -> (m: usize)
        requires
            vs.len() > 0,
        ensures
            is_min_id_index(vs@, m as int),
    {
        let mut m: usize = 0;
        let mut k: usize = 1;
        while k < vs.len()
            invariant
                1 <= k <= vs.len(),
                0 <= m < vs.len(),
                forall|j: int| 0 <= j < k ==> vs@[m as int].id.0 <= #[trigger] vs@[j].id.0,
            decreases vs.len() - k,
        {
            if vs[k].id.0 < vs[m].id.0 {
                m = k;
            }
            k = k + 1;
        }
        m
    }

    /// Twice the signed area of the cycle `vs`, as the fan from `vs[0]`.
    fn fan_area(vs: &Vec<Vertex>) -> (r: i128)
        requires
            0 < vs.len() <= id_space(),
        ensures
            r == fan_double_area(vs@),
    {
        let n = vs.len();
        let mut area: i128 = 0;
        let mut i: usize = 0;
        while i < n
            invariant
                n == vs.len(),
                0 < n <= id_space(),
                0 <= i <= n,
                area == fan_partial(vs@, i as nat),
                -(i as int) * 0x2_0000_0000_0000_0000 <= area <= (i as int) * 0x2_0000_0000_0000_0000,
            decreases n - i,
        {
            let next: usize = if i + 1 == n {
                0
            } else {
                i + 1
            };
            proof {
                lemma_neighbour_indices(n as int, i as int);
                lemma_fan_term_bound(vs@, i as int);
                assert((i as int + 1) * 0x2_0000_0000_0000_0000 == (i as int) * 0x2_0000_0000_0000_0000
                    + 0x2_0000_0000_0000_0000) by (nonlinear_arith);
                assert((i as int + 1) * 0x2_0000_0000_0000_0000 <= 0x1_0000_0000 * 0x2_0000_0000_0000_0000)
                    by (nonlinear_arith)
                    requires
                        i < 0x1_0000_0000,
                ;
            }
            let t = orientation(&vs[0], &vs[i], &vs[next]);
            area = area + t;
            i = i + 1;
        }
        area
    }

    /// The edge test of validation over the cycle `vs` with its least
    /// identifier at `m`.
    fn edges_are_simple(vs: &Vec<Vertex>, m: usize) -> (r: bool)
        requires
            vs.len() >= 3,
            m < vs.len(),
        ensures
            r == edges_simple(vs@, m as int),
    {
        let n = vs.len();
        let mut i: usize = 0;
        while i + 1 < n
            invariant
                n == vs.len(),
                n >= 3,
                m < n,
                0 <= i <= n - 1,
                forall|a: int, b: int|
                    0 <= a < i && a + 2 <= b <= n - 2 ==> #[trigger] edge_pair_apart(vs@, m as int, a, b),
            decreases n - i,
        {
            let mut j: usize = i + 2;
            while j < n - 1
                invariant
                    n == vs.len(),
                    n >= 3,
                    m < n,
                    0 <= i < n - 1,
                    i + 2 <= j,
                    j <= n,
                    forall|a: int, b: int|
                        0 <= a < i && a + 2 <= b <= n - 2 ==> #[trigger] edge_pair_apart(vs@, m as int, a, b),
                    forall|b: int| i + 2 <= b < j && b <= n - 2 ==> #[trigger] edge_pair_apart(vs@, m as int, i as int, b),
                decreases n - j,
            {
                let p = wrap_add(m, i, n);
                let q = wrap_add(m, i + 1, n);
                let r = wrap_add(m, j, n);
                let t = wrap_add(m, j + 1, n);
                let e1 = LineSegment::from_vertices(&vs[p], &vs[q]);
                let e2 = LineSegment::from_vertices(&vs[r], &vs[t]);
                if e1.intersects(&e2) || e1.incident_to(&e2.v1) || e1.incident_to(&e2.v2)
                    || e2.intersects(&e1) || e2.incident_to(&e1.v1) || e2.incident_to(&e1.v2) {
                    assert(!edge_pair_apart(vs@, m as int, i as int, j as int));
                    return false;
                }
                assert(edge_pair_apart(vs@, m as int, i as int, j as int));
                j = j + 1;
            }
            i = i + 1;
        }
        true
    }

    /// Validates the cycle `vs`, in the order the checks are made.
    fn validation(vs: &Vec<Vertex>) -> (r: Option<PolygonError>)
        requires
            distinct_ids(vs@),
        ensures
            r == check_polygon(vs@),
    {
        if vs.len() == 0 {
            return Some(PolygonError::TooFewVertices);
        }
        let m = Self::min_id_index(vs);
        proof {
            Self::lemma_min_id_index_unique(vs@, m as int);
            assert(is_min_id_index(vs@, min_id_position(vs@)));
        }
        if vs.len() < 3 {
            return Some(PolygonError::TooFewVertices);
        }
        if !Self::edges_are_simple(vs, m) {
            return Some(PolygonError::EdgesIntersect);
        }
        proof {
            lemma_distinct_ids_bound(vs@);
        }
        if Self::fan_area(vs) <= 0 {
            return Some(PolygonError::NonPositiveArea);
        }
        None
    }

    proof fn lemma_min_id_index_unique(s: Seq<Vertex>, m: int)
        requires
            distinct_ids(s),
            is_min_id_index(s, m),
        ensures
            forall|k: int| is_min_id_index(s, k) ==> k == m,
    {
        assert forall|k: int| is_min_id_index(s, k) implies k == m by {
            assert(s[k].id.0 <= s[m].id.0);
            assert(s[m].id.0 <= s[k].id.0);
            if k != m {
                assert(s[k].id != s[m].id);
            }
        }
    }
}


/// The cycle of vertices numbered `0, 1, ...` in the order of `coords`.
pub open spec fn coords_cycle(coords: Seq<(i32, i32)>) -> Seq<Vertex> {
    Seq::new(
        coords.len(),
        |i: int| Vertex { id: VertexId(i as u32), x: coords[i].0, y: coords[i].1 },
    )
}

/// A polygon built from coordinates has as many edges as vertices, and its
/// edges join the vertices numbered `i` and `i + 1` (the last one back to
/// the first).
pub proof fn lemma_coords_edges(coords: Seq<(i32, i32)>)
    requires
        coords.len() <= 0x1_0000_0000,
    ensures
        edge_ids(coords_cycle(coords)).len() == coords_cycle(coords).len(),
        forall|i: int|
            0 <= i < coords.len() ==> #[trigger] edge_ids(coords_cycle(coords))[i] == (
                VertexId(i as u32),
                VertexId(((i + 1) % (coords.len() as int)) as u32),
            ),
{
    let n = coords.len() as int;
    assert forall|i: int| 0 <= i < n implies #[trigger] edge_ids(coords_cycle(coords))[i] == (
        VertexId(i as u32),
        VertexId(((i + 1) % n) as u32),
    ) by {
        crate::area::lemma_mod_wrap(i + 1, n);
    }
}

/// The result of building a polygon from the cycle `s` with distinct
/// identifiers.
pub open spec fn build_result(s: Seq<Vertex>, r: Result<Polygon, PolygonError>) -> bool {
    match check_polygon(s) {
        Some(e) => r == Err::<Polygon, PolygonError>(e),
        None => r matches Ok(p) && p@ == s,
    }
}

impl Polygon {
    /// Builds and validates the polygon whose vertices, numbered from 0, have
    /// the given coordinates in boundary order.
    pub fn from_coords(coords: Vec<(i32, i32)>) -> (r: Result<Polygon, PolygonError>)
        ensures
            coords.len() > id_space() ==> r == Err::<Polygon, PolygonError>(
                PolygonError::TooManyVertices,
            ),
            coords.len() <= id_space() ==> build_result(coords_cycle(coords@), r),
    {
        if coords.len() as u64 > 0x1_0000_0000u64 {
            return Err(PolygonError::TooManyVertices);
        }
        let n = coords.len();
        let mut vertices: Vec<Vertex> = Vec::new();
        let mut i: usize = 0;
        while i < n
            invariant
                n == coords.len(),
                n <= id_space(),
                0 <= i <= n,
                vertices@ == coords_cycle(coords@).subrange(0, i as int),
            decreases n - i,
        {
            let (x, y) = coords[i];
            vertices.push(Vertex { id: VertexId(i as u32), x, y });
            i = i + 1;
            assert(vertices@ =~= coords_cycle(coords@).subrange(0, i as int));
        }
        assert(vertices@ =~= coords_cycle(coords@));
        assert(distinct_ids(vertices@)) by {
            assert forall|a: int, b: int|
                0 <= a < vertices@.len() && 0 <= b < vertices@.len() && a != b implies vertices@[a].id
                != vertices@[b].id by {
                assert(vertices@[a].id.0 == a);
                assert(vertices@[b].id.0 == b);
            }
        }
        match Self::validation(&vertices) {
            Some(e) => Err(e),
            None => Ok(Polygon { vertices }),
        }
    }

    /// Builds and validates the polygon with the given vertices in boundary
    /// order.
    pub fn from_vertices(vertices: Vec<Vertex>) -> (r: Result<Polygon, PolygonError>)
        ensures
            !distinct_ids(vertices@) ==> r == Err::<Polygon, PolygonError>(
                PolygonError::DuplicateVertexId,
            ),
            distinct_ids(vertices@) ==> build_result(vertices@, r),
            distinct_ids(vertices@) ==> (r is Ok <==> (vertices@.len() >= 3
                && crate::simplicity::compared_edges_apart(vertices@, min_id_position(vertices@))
                && crate::area::shoelace(vertices@) > 0)),
    {
        proof {
            crate::simplicity::lemma_valid_iff(vertices@);
        }
        if !Self::ids_distinct(&vertices) {
            return Err(PolygonError::DuplicateVertexId);
        }
        match Self::validation(&vertices) {
            Some(e) => Err(e),
            None => Ok(Polygon { vertices }),
        }
    }

    /// Runs validation on this polygon.
    pub fn validate(&self) -> (r: Result<(), PolygonError>)
        requires
            self.wf(),
        ensures
            r is Ok <==> valid_polygon(self@),
            r matches Err(e) ==> check_polygon(self@) == Some(e),
    {
        match Self::validation(&self.vertices) {
            Some(e) => Err(e),
            None => Ok(()),
        }
    }

    /// A copy of this polygon.
    pub fn copy(&self) -> (r: Polygon)
        ensures
            r@ == self@,
    {
        let mut vertices: Vec<Vertex> = Vec::new();
        let mut i: usize = 0;
        while i < self.vertices.len()
            invariant
                0 <= i <= self.vertices.len(),
                vertices@ == self.vertices@.subrange(0, i as int),
            decreases self.vertices.len() - i,
        {
            vertices.push(self.vertices[i]);
            i = i + 1;
            assert(vertices@ =~= self.vertices@.subrange(0, i as int));
        }
        assert(vertices@ =~= self.vertices@);
        Polygon { vertices }
    }

    /// The vertices in boundary order, starting at the anchor.
    pub fn vertices(&self) -> (r: Vec<Vertex>)
        requires
            self@.len() > 0,
        ensures
            r@ == self@,
    {
        self.copy().vertices
    }

    /// The identifiers in boundary order, starting at the anchor.
    pub fn vertex_ids(&self) -> (r: Vec<VertexId>)
        requires
            self@.len() > 0,
        ensures
            r@ == ids_of(self@),
    {
        let mut r: Vec<VertexId> = Vec::new();
        let mut i: usize = 0;
        while i < self.vertices.len()
            invariant
                0 <= i <= self.vertices.len(),
                r@ == ids_of(self@).subrange(0, i as int),
            decreases self.vertices.len() - i,
        {
            r.push(self.vertices[i].id);
            i = i + 1;
            assert(r@ =~= ids_of(self@).subrange(0, i as int));
        }
        assert(r@ =~= ids_of(self@));
        r
    }

    /// The directed edges, as identifier pairs, starting at the anchor.
    pub fn edges(&self) -> (r: Vec<(VertexId, VertexId)>)
        requires
            self@.len() > 0,
        ensures
            r@ == edge_ids(self@),
    {
        let n = self.vertices.len();
        let mut r: Vec<(VertexId, VertexId)> = Vec::new();
        let mut i: usize = 0;
        while i < n
            invariant
                n == self@.len(),
                0 <= i <= n,
                r@ == edge_ids(self@).subrange(0, i as int),
            decreases n - i,
        {
            let j = if i + 1 == n {
                0
            } else {
                i + 1
            };
            proof {
                lemma_neighbour_indices(n as int, i as int);
            }
            r.push((self.vertices[i].id, self.vertices[j].id));
            i = i + 1;
            assert(r@ =~= edge_ids(self@).subrange(0, i as int));
        }
        assert(r@ =~= edge_ids(self@));
        r
    }

    pub fn num_edges(&self) -> (r: usize)
        requires
            self@.len() > 0,
        ensures
            r == self@.len(),
    {
        self.vertices.len()
    }

    pub fn num_vertices(&self) -> (r: usize)
        requires
            self@.len() > 0,
        ensures
            r == self@.len(),
    {
        self.vertices.len()
    }

    pub fn get_vertex(&self, id: &VertexId) -> (r: Option<Vertex>)
        requires
            self.wf(),
        ensures
            r is Some <==> has_id(self@, *id),
            r matches Some(v) ==> v == vertex_of(self@, *id),
    {
        match self.find_index(id) {
            Some(i) => Some(self.vertices[i]),
            None => None,
        }
    }

    pub fn prev_vertex_id(&self, id: &VertexId) -> (r: Option<VertexId>)
        requires
            self.wf(),
        ensures
            r is Some <==> has_id(self@, *id),
            r matches Some(p) ==> p == prev_of(self@, *id).id,
    {
        match self.find_index(id) {
            Some(i) => {
                let n = self.vertices.len();
                proof {
                    lemma_neighbour_indices(n as int, i as int);
                }
                let j = if i == 0 {
                    n - 1
                } else {
                    i - 1
                };
                Some(self.vertices[j].id)
            },
            None => None,
        }
    }

    pub fn next_vertex_id(&self, id: &VertexId) -> (r: Option<VertexId>)
        requires
            self.wf(),
        ensures
            r is Some <==> has_id(self@, *id),
            r matches Some(p) ==> p == next_of(self@, *id).id,
    {
        match self.find_index(id) {
            Some(i) => {
                let n = self.vertices.len();
                proof {
                    lemma_neighbour_indices(n as int, i as int);
                }
                let j = if i + 1 == n {
                    0
                } else {
                    i + 1
                };
                Some(self.vertices[j].id)
            },
            None => None,
        }
    }

    pub fn get_prev_vertex(&self, id: &VertexId) -> (r: Option<Vertex>)
        requires
            self.wf(),
            has_id(self@, *id),
        ensures
            r == Some(prev_of(self@, *id)),
    {
        let i = self.find_index(id).unwrap();
        let n = self.vertices.len();
        proof {
            lemma_neighbour_indices(n as int, i as int);
        }
        let j = if i == 0 {
            n - 1
        } else {
            i - 1
        };
        Some(self.vertices[j])
    }

    pub fn get_next_vertex(&self, id: &VertexId) -> (r: Option<Vertex>)
        requires
            self.wf(),
            has_id(self@, *id),
        ensures
            r == Some(next_of(self@, *id)),
    {
        let i = self.find_index(id).unwrap();
        let n = self.vertices.len();
        proof {
            lemma_neighbour_indices(n as int, i as int);
        }
        let j = if i + 1 == n {
            0
        } else {
            i + 1
        };
        Some(self.vertices[j])
    }

    /// The segment between the vertices with the two identifiers, if both
    /// exist.
    pub fn get_line_segment(&self, id_1: &VertexId, id_2: &VertexId) -> (r: Option<LineSegment>)
        requires
            self.wf(),
        ensures
            r is Some <==> has_id(self@, *id_1) && has_id(self@, *id_2),
            r matches Some(ls) ==> ls.v1 == vertex_of(self@, *id_1) && ls.v2 == vertex_of(self@, *id_2),
    {
        if let Some(v1) = self.get_vertex(id_1) {
            if let Some(v2) = self.get_vertex(id_2) {
                return Some(LineSegment::from_vertices(&v1, &v2));
            }
        }
        None
    }

    /// The triangle of the vertices with the three identifiers, if all exist.
    pub fn get_triangle(&self, id_1: &VertexId, id_2: &VertexId, id_3: &VertexId) -> (r: Option<
        Triangle,
    >)
        requires
            self.wf(),
        ensures
            r is Some <==> has_id(self@, *id_1) && has_id(self@, *id_2) && has_id(self@, *id_3),
            r matches Some(t) ==> t.v1 == vertex_of(self@, *id_1) && t.v2 == vertex_of(self@, *id_2)
                && t.v3 == vertex_of(self@, *id_3),
    {
        if let Some(v1) = self.get_vertex(id_1) {
            if let Some(v2) = self.get_vertex(id_2) {
                if let Some(v3) = self.get_vertex(id_3) {
                    return Some(Triangle::from_vertices(&v1, &v2, &v3));
                }
            }
        }
        None
    }

    /// The vertices with the given identifiers, in the given order.
    pub fn get_vertices(&self, ids: Vec<VertexId>) -> (r: Vec<Vertex>)
        requires
            self.wf(),
            forall|k: int| 0 <= k < ids.len() ==> has_id(self@, #[trigger] ids@[k]),
        ensures
            r@ == ids@.map_values(|id: VertexId| vertex_of(self@, id)),
    {
        let mut r: Vec<Vertex> = Vec::new();
        let mut k: usize = 0;
        while k < ids.len()
            invariant
                self.wf(),
                forall|k: int| 0 <= k < ids.len() ==> has_id(self@, #[trigger] ids@[k]),
                0 <= k <= ids.len(),
                r@ == ids@.map_values(|id: VertexId| vertex_of(self@, id)).subrange(0, k as int),
            decreases ids.len() - k,
        {
            let v = self.get_vertex(&ids[k]).unwrap();
            r.push(v);
            k = k + 1;
            assert(r@ =~= ids@.map_values(|id: VertexId| vertex_of(self@, id)).subrange(0, k as int));
        }
        assert(r@ =~= ids@.map_values(|id: VertexId| vertex_of(self@, id)));
        r
    }

    /// Twice the signed area: the sum of the fan of triangles from the anchor.
    /// Positive for counter-clockwise polygons.
    pub fn double_area(&self) -> (r: i128)
        requires
            self.wf(),
            self@.len() > 0,
        ensures
            r == fan_double_area(self@),
    {
        proof {
            lemma_distinct_ids_bound(self@);
        }
        Self::fan_area(&self.vertices)
    }

    /// Removes the vertex with identifier `id`, if there is one, joining its
    /// neighbours. Removing the anchor makes the next vertex the anchor.
    pub fn remove_vertex(&mut self, id: &VertexId) -> (r: Option<Vertex>)
        requires
            old(self).wf(),
        ensures
            final(self).wf(),
            r is Some <==> has_id(old(self)@, *id),
            r matches Some(v) ==> v == vertex_of(old(self)@, *id) && final(self)@ == old(self)@.remove(
                index_of(old(self)@, *id),
            ),
            r is None ==> final(self)@ == old(self)@,
    {
        match self.find_index(id) {
            Some(i) => {
                let v = self.vertices.remove(i);
                proof {
                    let s = old(self)@;
                    assert forall|a: int, b: int|
                        0 <= a < self@.len() && 0 <= b < self@.len() && a != b implies self@[a].id
                        != self@[b].id by {
                        let a2 = if a < i { a } else { a + 1 };
                        let b2 = if b < i { b } else { b + 1 };
                        assert(self@[a] == s[a2]);
                        assert(self@[b] == s[b2]);
                    }
                }
                Some(v)
            },
            None => None,
        }
    }
}

impl Polygon {
    fn in_cone(&self, a: &Vertex, b: &Vertex) -> (r: bool)
        requires
            self.wf(),
            has_id(self@, a.id),
        ensures
            r == in_cone_spec(*a, *b, prev_of(self@, a.id), next_of(self@, a.id)),
    {
        let ab = LineSegment::from_vertices(a, b);
        let ba = ab.reverse();
        let a0 = self.get_prev_vertex(&a.id).unwrap();
        let a1 = self.get_next_vertex(&a.id).unwrap();
        if a0.left_on(&LineSegment::from_vertices(a, &a1)) {
            return a0.left(&ab) && a1.left(&ba);
        }
        !(a1.left_on(&ab) && a0.left_on(&ba))
    }

    /// Whether the segment from `a` to `b` is a diagonal of the polygon: it
    /// lies inside the cones at both end points and crosses no edge.
    pub fn diagonal(&self, a: &Vertex, b: &Vertex) -> (r: bool)
        requires
            self.wf(),
            has_id(self@, a.id),
            has_id(self@, b.id),
        ensures
            r == diagonal_spec(self@, *a, *b),
            r ==> forall|k: int|
                0 <= k < self@.len() ==> !crate::simplicity::segments_cross(
                    #[trigger] self@[k],
                    self@[next_index(self@.len() as int, k)],
                    *a,
                    *b,
                ),
    {
        let r = self.in_cone(a, b) && self.in_cone(b, a) && self.diagonal_internal_external(a, b);
        proof {
            if r {
                crate::simplicity::lemma_diagonal_crosses_no_edge(self@, *a, *b);
            }
        }
        r
    }

    fn diagonal_internal_external(&self, a: &Vertex, b: &Vertex) -> (r: bool)
        requires
            self.wf(),
        ensures
            r == clear_of_edges(self@, *a, *b),
            r == forall|k: int|
                0 <= k < self@.len() ==> crate::simplicity::share_end(
                    #[trigger] self@[k],
                    self@[next_index(self@.len() as int, k)],
                    *a,
                    *b,
                ) || crate::simplicity::segments_apart(self@[k], self@[next_index(self@.len() as int, k)], *a, *b),
            r ==> forall|k: int|
                0 <= k < self@.len() ==> !crate::simplicity::segments_cross(
                    #[trigger] self@[k],
                    self@[next_index(self@.len() as int, k)],
                    *a,
                    *b,
                ),
    {
        proof {
            crate::simplicity::lemma_clear_iff_apart(self@, *a, *b);
        }
        let ab = LineSegment::from_vertices(a, b);
        let n = self.vertices.len();
        let mut k: usize = 0;
        while k < n
            invariant
                n == self@.len(),
                ab.v1 == *a,
                ab.v2 == *b,
                0 <= k <= n,
                forall|j: int| 0 <= j < k ==> #[trigger] edge_clear(self@, j, *a, *b),
            decreases n - k,
        {
            let j = if k + 1 == n {
                0
            } else {
                k + 1
            };
            proof {
                lemma_neighbour_indices(n as int, k as int);
            }
            let e = LineSegment::from_vertices(&self.vertices[k], &self.vertices[j]);
            if !e.connected_to(&ab) && e.intersects(&ab) {
                assert(!edge_clear(self@, k as int, *a, *b));
                proof {
                    crate::simplicity::lemma_clear_iff_apart(self@, *a, *b);
                }
                return false;
            }
            assert(edge_clear(self@, k as int, *a, *b));
            k = k + 1;
        }
        proof {
            crate::simplicity::lemma_diagonal_crosses_no_edge(self@, *a, *b);
        }
        true
    }

    /// The identifiers, in boundary order, of the vertices collinear with
    /// their two neighbours.
    pub fn get_collinear(&self) -> (r: Vec<VertexId>)
        requires
            self@.len() > 0,
        ensures
            r@ == collinear_ids(self@),
    {
        let n = self.vertices.len();
        let mut r: Vec<VertexId> = Vec::new();
        let mut i: usize = 0;
        while i < n
            invariant
                n == self@.len(),
                n > 0,
                0 <= i <= n,
                r@ == collinear_ids_upto(self@, i as nat),
            decreases n - i,
        {
            proof {
                lemma_neighbour_indices(n as int, i as int);
            }
            let p = if i == 0 {
                n - 1
            } else {
                i - 1
            };
            let q = if i + 1 == n {
                0
            } else {
                i + 1
            };
            if orientation(&self.vertices[p], &self.vertices[i], &self.vertices[q]) == 0 {
                r.push(self.vertices[i].id);
            }
            i = i + 1;
        }
        r
    }

    /// One round of cleaning: drops every vertex collinear with its
    /// neighbours.
    fn drop_collinear_round(vs: &Vec<Vertex>) -> (r: Vec<Vertex>)
        requires
            vs.len() > 0,
            distinct_ids(vs@),
        ensures
            r@ == drop_collinear(vs@),
            distinct_ids(r@),
            r@.len() + collinear_ids(vs@).len() == vs@.len(),
    {
        let n = vs.len();
        let mut r: Vec<Vertex> = Vec::new();
        let mut i: usize = 0;
        while i < n
            invariant
                n == vs@.len(),
                n > 0,
                distinct_ids(vs@),
                0 <= i <= n,
                r@ == drop_collinear_upto(vs@, i as nat),
                r@.len() + collinear_ids_upto(vs@, i as nat).len() == i,
                forall|a: int| 0 <= a < r@.len() ==> exists|b: int| 0 <= b < i && #[trigger] r@[a] == vs@[b],
                distinct_ids(r@),
            decreases n - i,
        {
            proof {
                lemma_neighbour_indices(n as int, i as int);
            }
            let p = if i == 0 {
                n - 1
            } else {
                i - 1
            };
            let q = if i + 1 == n {
                0
            } else {
                i + 1
            };
            let ghost before = r@;
            if orientation(&vs[p], &vs[i], &vs[q]) != 0 {
                r.push(vs[i]);
                proof {
                    assert forall|a: int, b: int|
                        0 <= a < r@.len() && 0 <= b < r@.len() && a != b implies r@[a].id != r@[b].id by {
                        if a < before.len() && b < before.len() {
                        } else if a < before.len() {
                            let c = choose|c: int| 0 <= c < i && #[trigger] before[a] == vs@[c];
                            assert(vs@[c].id != vs@[i as int].id);
                        } else if b < before.len() {
                            let c = choose|c: int| 0 <= c < i && #[trigger] before[b] == vs@[c];
                            assert(vs@[c].id != vs@[i as int].id);
                        }
                    }
                    assert forall|a: int| 0 <= a < r@.len() implies exists|b: int|
                        0 <= b < i + 1 && #[trigger] r@[a] == vs@[b] by {
                        if a < before.len() {
                            let c = choose|c: int| 0 <= c < i && #[trigger] before[a] == vs@[c];
                            assert(r@[a] == vs@[c]);
                        } else {
                            assert(r@[a] == vs@[i as int]);
                        }
                    }
                }
            }
            i = i + 1;
        }
        r
    }

    /// Removes, round after round, every vertex collinear with its two
    /// neighbours until none is left. Fails, with the polygon left empty,
    /// when a round removes every remaining vertex.
    pub fn clean_collinear(&mut self) -> (r: Result<(), PolygonError>)
        requires
            old(self).wf(),
            old(self)@.len() > 0,
        ensures
            final(self).wf(),
            r is Ok <==> clean_collinear_spec(old(self)@) is Some,
            r is Ok ==> Some(final(self)@) == clean_collinear_spec(old(self)@),
            r is Err ==> r == Err::<(), PolygonError>(PolygonError::TooFewVertices),
            r is Ok && crate::angular_hull::distinct_coords(old(self)@) ==> fan_double_area(final(self)@)
                == fan_double_area(old(self)@),
            r is Ok ==> kept_in_order(final(self)@, old(self)@),
            r is Ok ==> collinear_ids(final(self)@).len() == 0,
    {
        let mut vs = self.copy().vertices;
        loop
            invariant
                distinct_ids(vs@),
                vs@.len() > 0,
                clean_collinear_spec(old(self)@) == clean_collinear_spec(vs@),
            decreases vs@.len(),
        {
            let collinear = Polygon { vertices: vs }.get_collinear_of();
            if collinear.0.len() == 0 {
                self.vertices = collinear.1;
                proof {
                    lemma_clean_keeps_order(old(self)@);
                    lemma_clean_idempotent(old(self)@);
                    if crate::angular_hull::distinct_coords(old(self)@) {
                        lemma_clean_keeps_area(old(self)@);
                        crate::area::lemma_fan_is_shoelace(old(self)@);
                        crate::area::lemma_fan_is_shoelace(self@);
                    }
                }
                return Ok(());
            }
            vs = collinear.1;
            let next = Self::drop_collinear_round(&vs);
            assert(clean_collinear_spec(vs@) == clean_collinear_spec(next@));
            if next.len() == 0 {
                assert(clean_collinear_spec(next@) is None);
                self.vertices = next;
                return Err(PolygonError::TooFewVertices);
            }
            vs = next;
        }
    }

    fn get_collinear_of(self) -> (r: (Vec<VertexId>, Vec<Vertex>))
        requires
            self@.len() > 0,
        ensures
            r.0@ == collinear_ids(self@),
            r.1@ == self@,
    {
        let c = self.get_collinear();
        (c, self.vertices)
    }
}

/// The result of building a polygon from the vertices of `s` with the
/// identifiers `ids`: optionally arranged by identifier, then validated,
/// then optionally cleaned of collinear vertices.
pub open spec fn polygon_from_ids_result(
    s: Seq<Vertex>,
    ids: Seq<VertexId>,
    sort_by_id: bool,
    clean: bool,
    r: Result<Polygon, PolygonError>,
) -> bool {
    let looked = ids.map_values(|id: VertexId| vertex_of(s, id));
    if !distinct_ids(looked) {
        r == Err::<Polygon, PolygonError>(PolygonError::DuplicateVertexId)
    } else {
        let ordered = if sort_by_id {
            sort_by_id_spec(looked)
        } else {
            looked
        };
        match check_polygon(ordered) {
            Some(e) => r == Err::<Polygon, PolygonError>(e),
            None => if clean {
                match clean_collinear_spec(ordered) {
                    Some(c) => r matches Ok(p) && p@ == c,
                    None => r == Err::<Polygon, PolygonError>(PolygonError::TooFewVertices),
                }
            } else {
                r matches Ok(p) && p@ == ordered
            },
        }
    }
}

/// The vertices of the polygon that `get_polygon` builds from the
/// identifiers `ids` of vertices of `s`, or the error it reports: the same
/// outcome that `polygon_from_ids_result` relates to a result.
pub open spec fn ids_polygon(s: Seq<Vertex>, ids: Seq<VertexId>, sort_by_id: bool, clean: bool) -> Result<
    Seq<Vertex>,
    PolygonError,
> {
    let looked = ids.map_values(|id: VertexId| vertex_of(s, id));
    if !distinct_ids(looked) {
        Err(PolygonError::DuplicateVertexId)
    } else {
        let ordered = if sort_by_id {
            sort_by_id_spec(looked)
        } else {
            looked
        };
        match check_polygon(ordered) {
            Some(e) => Err(e),
            None => if clean {
                match clean_collinear_spec(ordered) {
                    Some(c) => Ok(c),
                    None => Err(PolygonError::TooFewVertices),
                }
            } else {
                Ok(ordered)
            },
        }
    }
}

/// A result that `polygon_from_ids_result` describes has the outcome of
/// `ids_polygon`.
pub proof fn lemma_ids_polygon(
    s: Seq<Vertex>,
    ids: Seq<VertexId>,
    sort_by_id: bool,
    clean: bool,
    r: Result<Polygon, PolygonError>,
)
    requires
        polygon_from_ids_result(s, ids, sort_by_id, clean, r),
    ensures
        match r {
            Ok(p) => ids_polygon(s, ids, sort_by_id, clean) == Ok::<Seq<Vertex>, PolygonError>(p@),
            Err(e) => ids_polygon(s, ids, sort_by_id, clean) == Err::<Seq<Vertex>, PolygonError>(e),
        },
{
}

/// The identifiers of `s` in the order of a stable sort of the vertices by
/// `(x, y)`.
pub open spec fn ids_by_increasing_x(s: Seq<Vertex>) -> Seq<VertexId> {
    sort_by_xy_spec(s).map_values(|i: int| s[i].id)
}

proof fn lemma_sorted_distinct(t: Seq<Vertex>)
    requires
        sorted_by(t, id_less()),
    ensures
        distinct_ids(t),
{
    assert forall|i: int, j: int| 0 <= i < t.len() && 0 <= j < t.len() && i != j implies t[i].id
        != t[j].id by {
        if i < j {
            assert((id_less())(t[i], t[j]));
        } else {
            assert((id_less())(t[j], t[i]));
        }
    }
}

impl Polygon {
    /// Builds a polygon from the vertices with the given identifiers:
    /// optionally arranged by increasing identifier, validated, and
    /// optionally cleaned of collinear vertices.
    pub fn get_polygon(&self, ids: Vec<VertexId>, sort_by_id: bool, clean_collinear: bool) -> (r:
        Result<Polygon, PolygonError>)
        requires
            self.wf(),
            forall|k: int| 0 <= k < ids.len() ==> has_id(self@, #[trigger] ids@[k]),
        ensures
            polygon_from_ids_result(self@, ids@, sort_by_id, clean_collinear, r),
            r matches Ok(p) ==> p.wf() && p@.len() > 0 && (forall|k: int|
                0 <= k < p@.len() ==> self@.contains(#[trigger] p@[k])),
            !clean_collinear ==> (r matches Ok(p) ==> same_elements(
                p@,
                ids@.map_values(|id: VertexId| vertex_of(self@, id)),
            )),
    {
        let ghost ids_v = ids@;
        let looked = self.get_vertices(ids);
        if !Self::ids_distinct(&looked) {
            return Err(PolygonError::DuplicateVertexId);
        }
        let ghost looked0 = looked@;
        let ordered = if sort_by_id {
            let t = crate::sorting::sort_by_id(&looked);
            proof {
                lemma_sorted_distinct(t@);
            }
            t
        } else {
            looked
        };
        let mut polygon = match Self::from_vertices(ordered) {
            Ok(p) => p,
            Err(e) => {
                return Err(e);
            },
        };
        assert(same_elements(polygon@, looked0));
        proof {
            assert forall|k: int| 0 <= k < polygon@.len() implies self@.contains(#[trigger] polygon@[k]) by {
                let x = polygon@[k];
                let looked_v = ids_v.map_values(|id: VertexId| vertex_of(self@, id));
                assert(looked_v.contains(x)) by {
                    if sort_by_id {
                        assert(polygon@.contains(x));
                    } else {
                        assert(looked_v[k] == x);
                    }
                }
                let j = choose|j: int| 0 <= j < looked_v.len() && looked_v[j] == x;
                let q = index_of(self@, ids_v[j]);
                assert(0 <= q < self@.len() && self@[q] == x);
            }
        }
        if clean_collinear {
            let ghost before = polygon@;
            match polygon.clean_collinear() {
                Ok(()) => {},
                Err(e) => {
                    return Err(e);
                },
            }
            proof {
                lemma_clean_subset(before);
                assert forall|k: int| 0 <= k < polygon@.len() implies self@.contains(#[trigger] polygon@[k]) by {
                    assert(before.contains(polygon@[k]));
                    let j = choose|j: int| 0 <= j < before.len() && before[j] == polygon@[k];
                }
            }
        }
        Ok(polygon)
    }

    /// A copy with the vertices arranged by identifier and cleaned of
    /// collinear vertices.
    pub fn clone_clean_collinear(&self) -> (r: Result<Polygon, PolygonError>)
        requires
            self.wf(),
            self@.len() > 0,
        ensures
            polygon_from_ids_result(self@, ids_of(self@), true, true, r),
            r matches Ok(p) ==> p.wf() && p@.len() > 0 && (forall|k: int|
                0 <= k < p@.len() ==> self@.contains(#[trigger] p@[k])),
    {
        let ids = self.vertex_ids();
        proof {
            assert forall|k: int| 0 <= k < ids@.len() implies has_id(self@, #[trigger] ids@[k]) by {
                assert(self@[k].id == ids@[k]);
            }
        }
        self.get_polygon(ids, true, true)
    }

    /// The identifiers ordered by increasing `x`, ties by increasing `y`,
    /// remaining ties in boundary order.
    pub fn vertex_ids_by_increasing_x(&self) -> (r: Vec<VertexId>)
        requires
            self@.len() > 0,
        ensures
            r@ == ids_by_increasing_x(self@),
            r@.len() == self@.len(),
            forall|k: int| 0 <= k < r@.len() ==> has_id(self@, #[trigger] r@[k]),
    {
        let order = sort_by_xy(&self.vertices);
        let mut r: Vec<VertexId> = Vec::new();
        let mut k: usize = 0;
        while k < order.len()
            invariant
                order@.map_values(|i: usize| i as int) == sort_by_xy_spec(self@),
                forall|q: int| 0 <= q < order@.len() ==> #[trigger] order@[q] < self@.len(),
                0 <= k <= order.len(),
                r@ == ids_by_increasing_x(self@).subrange(0, k as int),
                order@.len() == self@.len(),
                forall|q: int| 0 <= q < r@.len() ==> has_id(self@, #[trigger] r@[q]),
            decreases order.len() - k,
        {
            let ghost pre = r@;
            assert(has_id(self@, self@[order@[k as int] as int].id));
            r.push(self.vertices[order[k]].id);
            assert forall|q: int| 0 <= q < r@.len() implies has_id(self@, #[trigger] r@[q]) by {
                if q < pre.len() {
                    assert(r@[q] == pre[q]);
                }
            }
            k = k + 1;
            assert(r@ =~= ids_by_increasing_x(self@).subrange(0, k as int));
        }
        assert(r@ =~= ids_by_increasing_x(self@));
        r
    }

    /// The first vertex, in boundary order, that is least in the order `o`.
    pub fn extreme_vertex(&self, o: VertexOrder) -> (r: Vertex)
        requires
            self@.len() > 0,
        ensures
            exists|i: int| is_first_min(self@, i, o) && r == self@[i],
    {
        let i = first_min_index(&self.vertices, o);
        self.vertices[i]
    }

    /// The lowest vertex, the leftmost among ties.
    pub fn leftmost_lowest_vertex(&self) -> (r: Vertex)
        requires
            self@.len() > 0,
        ensures
            exists|i: int|
                is_first_min(self@, i, VertexOrder { x_first: false, first_desc: false, second_desc: false })
                    && r == self@[i],
    {
        self.extreme_vertex(leftmost_lowest())
    }

    /// The highest vertex, the leftmost among ties.
    pub fn leftmost_highest_vertex(&self) -> (r: Vertex)
        requires
            self@.len() > 0,
        ensures
            exists|i: int|
                is_first_min(self@, i, VertexOrder { x_first: false, first_desc: true, second_desc: false })
                    && r == self@[i],
    {
        self.extreme_vertex(leftmost_highest())
    }

    /// The lowest vertex, the rightmost among ties.
    pub fn rightmost_lowest_vertex(&self) -> (r: Vertex)
        requires
            self@.len() > 0,
        ensures
            exists|i: int|
                is_first_min(self@, i, VertexOrder { x_first: false, first_desc: false, second_desc: true })
                    && r == self@[i],
    {
        self.extreme_vertex(rightmost_lowest())
    }

    /// The highest vertex, the rightmost among ties.
    pub fn rightmost_highest_vertex(&self) -> (r: Vertex)
        requires
            self@.len() > 0,
        ensures
            exists|i: int|
                is_first_min(self@, i, VertexOrder { x_first: false, first_desc: true, second_desc: true })
                    && r == self@[i],
    {
        self.extreme_vertex(rightmost_highest())
    }

    /// The leftmost vertex, the lowest among ties.
    pub fn lowest_leftmost_vertex(&self) -> (r: Vertex)
        requires
            self@.len() > 0,
        ensures
            exists|i: int|
                is_first_min(self@, i, VertexOrder { x_first: true, first_desc: false, second_desc: false })
                    && r == self@[i],
    {
        self.extreme_vertex(lowest_leftmost())
    }

    /// The rightmost vertex, the lowest among ties.
    pub fn lowest_rightmost_vertex(&self) -> (r: Vertex)
        requires
            self@.len() > 0,
        ensures
            exists|i: int|
                is_first_min(self@, i, VertexOrder { x_first: true, first_desc: true, second_desc: false })
                    && r == self@[i],
    {
        self.extreme_vertex(lowest_rightmost())
    }

    /// The leftmost vertex, the highest among ties.
    pub fn highest_leftmost_vertex(&self) -> (r: Vertex)
        requires
            self@.len() > 0,
        ensures
            exists|i: int|
                is_first_min(self@, i, VertexOrder { x_first: true, first_desc: false, second_desc: true })
                    && r == self@[i],
    {
        self.extreme_vertex(highest_leftmost())
    }

    /// The rightmost vertex, the highest among ties.
    pub fn highest_rightmost_vertex(&self) -> (r: Vertex)
        requires
            self@.len() > 0,
        ensures
            exists|i: int|
                is_first_min(self@, i, VertexOrder { x_first: true, first_desc: true, second_desc: true })
                    && r == self@[i],
    {
        self.extreme_vertex(highest_rightmost())
    }

    /// The least `x` coordinate (`i32::MAX` when empty).
    pub fn min_x(&self) -> (r: i32)
        ensures
            is_coord_min(self@, true, r as int),
    {
        coord_min(&self.vertices, true)
    }

    /// The greatest `x` coordinate (`i32::MIN` when empty).
    pub fn max_x(&self) -> (r: i32)
        ensures
            is_coord_max(self@, true, r as int),
    {
        coord_max(&self.vertices, true)
    }

    /// The least `y` coordinate (`i32::MAX` when empty).
    pub fn min_y(&self) -> (r: i32)
        ensures
            is_coord_min(self@, false, r as int),
    {
        coord_min(&self.vertices, false)
    }

    /// The greatest `y` coordinate (`i32::MIN` when empty).
    pub fn max_y(&self) -> (r: i32)
        ensures
            is_coord_max(self@, false, r as int),
    {
        coord_max(&self.vertices, false)
    }

    pub fn bounding_box(&self) -> (r: BoundingBox)
        ensures
            is_coord_min(self@, true, r.min_x as int),
            is_coord_max(self@, true, r.max_x as int),
            is_coord_min(self@, false, r.min_y as int),
            is_coord_max(self@, false, r.max_y as int),
    {
        BoundingBox::new(self.min_x(), self.max_x(), self.min_y(), self.max_y())
    }

    /// Moves every vertex by `(x, y)`.
    pub fn translate(&mut self, x: i32, y: i32)
        requires
            old(self).wf(),
            forall|i: int|
                0 <= i < old(self)@.len() ==> i32::MIN <= #[trigger] old(self)@[i].x + x <= i32::MAX
                    && i32::MIN <= old(self)@[i].y + y <= i32::MAX,
        ensures
            final(self).wf(),
            final(self)@.len() == old(self)@.len(),
            forall|i: int|
                0 <= i < final(self)@.len() ==> #[trigger] final(self)@[i] == (Vertex {
                    id: old(self)@[i].id,
                    x: (old(self)@[i].x + x) as i32,
                    y: (old(self)@[i].y + y) as i32,
                }),
    {
        let n = self.vertices.len();
        let mut moved: Vec<Vertex> = Vec::new();
        let mut i: usize = 0;
        while i < n
            invariant
                n == self@.len(),
                self@ == old(self)@,
                forall|i: int|
                    0 <= i < self@.len() ==> i32::MIN <= #[trigger] self@[i].x + x <= i32::MAX
                        && i32::MIN <= self@[i].y + y <= i32::MAX,
                0 <= i <= n,
                moved@.len() == i,
                forall|k: int|
                    0 <= k < i ==> #[trigger] moved@[k] == (Vertex {
                        id: self@[k].id,
                        x: (self@[k].x + x) as i32,
                        y: (self@[k].y + y) as i32,
                    }),
            decreases n - i,
        {
            let mut v = self.vertices[i];
            v.translate(x, y);
            moved.push(v);
            i = i + 1;
        }
        self.vertices = moved;
    }
}

impl Polygon {
    /// The vertices in boundary order (for a possibly empty polygon).
    pub fn copy_vertices(&self) -> (r: Vec<Vertex>)
        ensures
            r@ == self@,
    {
        self.copy().vertices
    }

    /// The anchor: the vertex the boundary order starts at.
    pub fn anchor(&self) -> (r: Vertex)
        requires
            self@.len() > 0,
        ensures
            r == self@[0],
    {
        self.vertices[0]
    }
}

/// Both neighbours of the vertex `id` in the cycle `chain` lie left of or on
/// the directed segment `ab`: `ab` touches the chain from below at it.
pub open spec fn lower_tangent_at(a: Vertex, b: Vertex, chain: Seq<Vertex>, id: VertexId) -> bool {
    left_on_of(a, b, prev_of(chain, id)) && left_on_of(a, b, next_of(chain, id))
}

/// Both neighbours of the vertex `id` in the cycle `chain` lie right of or
/// on the directed segment `ab`: `ab` touches the chain from above at it.
pub open spec fn upper_tangent_at(a: Vertex, b: Vertex, chain: Seq<Vertex>, id: VertexId) -> bool {
    !left_of(a, b, prev_of(chain, id)) && !left_of(a, b, next_of(chain, id))
}

impl LineSegment {
    /// Both neighbours of `id` in `chain` lie left of or on this segment.
    pub fn is_lower_tangent(&self, id: &VertexId, chain: &Polygon) -> (r: bool)
        requires
            chain.wf(),
            has_id(chain@, *id),
        ensures
            r == lower_tangent_at(self.v1, self.v2, chain@, *id),
    {
        let p = chain.get_prev_vertex(id).unwrap();
        let n = chain.get_next_vertex(id).unwrap();
        p.left_on(self) && n.left_on(self)
    }

    /// Both neighbours of `id` in `chain` lie right of or on this segment.
    pub fn is_upper_tangent(&self, id: &VertexId, chain: &Polygon) -> (r: bool)
        requires
            chain.wf(),
            has_id(chain@, *id),
        ensures
            r == upper_tangent_at(self.v1, self.v2, chain@, *id),
    {
        let p = chain.get_prev_vertex(id).unwrap();
        let n = chain.get_next_vertex(id).unwrap();
        p.right_on(self) && n.right_on(self)
    }
}

impl Polygon {
    /// The cycle of the two end points of a segment, as a chain for the
    /// tangent searches (not a valid polygon).
    pub fn from_line_segment(ls: &LineSegment) -> (r: Polygon)
        requires
            ls.v1.id != ls.v2.id,
        ensures
            r@ == seq![ls.v1, ls.v2],
            r.wf(),
    {
        let mut vertices: Vec<Vertex> = Vec::new();
        vertices.push(ls.v1);
        vertices.push(ls.v2);
        Polygon { vertices }
    }
}

proof fn lemma_drop_collinear_subset(s: Seq<Vertex>, k: nat)
    requires
        k <= s.len(),
    ensures
        forall|q: int|
            0 <= q < drop_collinear_upto(s, k).len() ==> s.contains(#[trigger] drop_collinear_upto(s, k)[q]),
    decreases k,
{
    if k > 0 {
        lemma_drop_collinear_subset(s, (k - 1) as nat);
        let prev = drop_collinear_upto(s, (k - 1) as nat);
        let cur = drop_collinear_upto(s, k);
        assert forall|q: int| 0 <= q < cur.len() implies s.contains(#[trigger] cur[q]) by {
            if q < prev.len() {
                assert(cur[q] == prev[q]);
            } else {
                assert(cur[q] == s[k - 1]);
            }
        }
    }
}

/// Cleaning leaves no vertex collinear with its neighbours, and cleaning
/// again changes nothing.
pub proof fn lemma_clean_idempotent(s: Seq<Vertex>)
    requires
        clean_collinear_spec(s) is Some,
    ensures
        collinear_ids(clean_collinear_spec(s).unwrap()).len() == 0,
        clean_collinear_spec(clean_collinear_spec(s).unwrap()) == clean_collinear_spec(s),
    decreases s.len(),
{
    if collinear_ids(s).len() != 0 {
        lemma_clean_idempotent(drop_collinear(s));
    }
}

/// Four points where `a, b, c` and `b, c, d` are collinear, with `b` and
/// `c` apart, all lie on one line.
proof fn lemma_collinear_chain(a: Vertex, b: Vertex, c: Vertex, d: Vertex)
    requires
        !same_coords(b, c),
        orient(a, b, c) == 0,
        orient(b, c, d) == 0,
    ensures
        orient(a, c, d) == 0,
        orient(a, b, d) == 0,
{
    let ux: int = a.x - b.x;
    let uy: int = a.y - b.y;
    let ex: int = c.x - b.x;
    let ey: int = c.y - b.y;
    let wx: int = d.x - b.x;
    let wy: int = d.y - b.y;
    assert(orient(a, b, c) == uy * ex - ux * ey) by (nonlinear_arith)
        requires ux == a.x - b.x, uy == a.y - b.y, ex == c.x - b.x, ey == c.y - b.y;
    assert(orient(b, c, d) == ex * wy - ey * wx) by (nonlinear_arith)
        requires ex == c.x - b.x, ey == c.y - b.y, wx == d.x - b.x, wy == d.y - b.y;
    let uw: int = ux * wy - uy * wx;
    assert(ex * uw == ux * (ex * wy - ey * wx) + wx * (ux * ey - uy * ex)) by (nonlinear_arith)
        requires uw == ux * wy - uy * wx;
    assert(ey * uw == uy * (ex * wy - ey * wx) + wy * (ux * ey - uy * ex)) by (nonlinear_arith)
        requires uw == ux * wy - uy * wx;
    let ew: int = ex * wy - ey * wx;
    let ue: int = ux * ey - uy * ex;
    assert(ew == 0 && ue == 0);
    assert(ux * ew + wx * ue == 0 && uy * ew + wy * ue == 0) by (nonlinear_arith)
        requires ew == 0, ue == 0;
    assert(uw == 0) by (nonlinear_arith)
        requires
            ex * uw == 0,
            ey * uw == 0,
            ex != 0 || ey != 0,
    ;
    assert(orient(a, c, d) == (ex - ux) * (wy - uy) - (wx - ux) * (ey - uy)) by (nonlinear_arith)
        requires ux == a.x - b.x, uy == a.y - b.y, ex == c.x - b.x, ey == c.y - b.y, wx == d.x - b.x, wy == d.y - b.y;
    assert((ex - ux) * (wy - uy) == ex * wy - ex * uy - ux * wy + ux * uy) by (nonlinear_arith);
    assert((wx - ux) * (ey - uy) == wx * ey - wx * uy - ux * ey + ux * uy) by (nonlinear_arith);
    assert(ex * uy == uy * ex && wx * ey == ey * wx && wx * uy == uy * wx) by (nonlinear_arith);
    assert(orient(a, b, d) == uy * wx - ux * wy) by (nonlinear_arith)
        requires ux == a.x - b.x, uy == a.y - b.y, wx == d.x - b.x, wy == d.y - b.y;
}

/// With `b, c, d` collinear and `b` apart from `c` and from `d`, the point
/// `a` is collinear with `b, c` exactly when it is collinear with `b, d`.
proof fn lemma_collinear_swap(a: Vertex, b: Vertex, c: Vertex, d: Vertex)
    requires
        !same_coords(b, c),
        !same_coords(b, d),
        orient(b, c, d) == 0,
    ensures
        orient(a, b, c) == 0 <==> orient(a, b, d) == 0,
{
    if orient(a, b, c) == 0 {
        lemma_collinear_chain(a, b, c, d);
    }
    if orient(a, b, d) == 0 {
        assert(orient(b, d, c) == -orient(b, c, d)) by (nonlinear_arith);
        lemma_collinear_chain(a, b, d, c);
    }
}

/// Reversing the three points negates the orientation.
proof fn lemma_orient_reverse(a: Vertex, b: Vertex, c: Vertex)
    ensures
        orient(a, b, c) == -orient(c, b, a),
        orient(a, b, c) == orient(b, c, a),
{
    assert(orient(a, b, c) == -orient(c, b, a)) by (nonlinear_arith);
    assert(orient(a, b, c) == orient(b, c, a)) by (nonlinear_arith);
}

/// Removing a vertex collinear with its neighbours, from a cycle of at
/// least four vertices with distinct coordinates, leaves every other
/// vertex collinear with its neighbours exactly when it was before.
proof fn lemma_remove_collinear_keeps_status(s: Seq<Vertex>, k: int, j: int)
    requires
        crate::angular_hull::distinct_coords(s),
        s.len() >= 4,
        0 <= k < s.len(),
        collinear_at(s, k),
        0 <= j < s.len() - 1,
    ensures
        collinear_at(s.remove(k), j) == collinear_at(s, if j < k { j } else { j + 1 }),
{
    let n = s.len() as int;
    let u = s.remove(k);
    let jj = if j < k { j } else { j + 1 };
    lemma_neighbour_indices(n, jj);
    lemma_neighbour_indices(n, k);
    lemma_neighbour_indices(n - 1, j);
    let pu = prev_index(n - 1, j);
    let nu = next_index(n - 1, j);
    let ps = prev_index(n, jj);
    let ns = next_index(n, jj);
    let pk = prev_index(n, k);
    let nk = next_index(n, k);
    assert(u[j] == s[jj]);
    assert(u[pu] == s[if pu < k { pu } else { pu + 1 }]);
    assert(u[nu] == s[if nu < k { nu } else { nu + 1 }]);
    if ns == k {
        // `jj` comes just before the removed vertex.
        assert(u[pu] == s[ps]);
        assert(u[nu] == s[nk]);
        assert(!same_coords(s[jj], s[k]));
        assert(!same_coords(s[jj], s[nk]));
        lemma_orient_reverse(s[pk], s[k], s[nk]);
        assert(pk == jj);
        assert(orient(s[jj], s[k], s[nk]) == 0);
        lemma_collinear_swap(s[ps], s[jj], s[k], s[nk]);
    } else if ps == k {
        // `jj` comes just after the removed vertex.
        assert(u[pu] == s[pk]);
        assert(u[nu] == s[ns]);
        assert(nk == jj);
        assert(!same_coords(s[jj], s[k]));
        assert(!same_coords(s[jj], s[pk]));
        lemma_orient_reverse(s[pk], s[k], s[jj]);
        lemma_orient_reverse(s[jj], s[k], s[pk]);
        lemma_orient_reverse(s[ns], s[jj], s[k]);
        lemma_orient_reverse(s[ns], s[jj], s[pk]);
        lemma_orient_reverse(s[k], s[jj], s[ns]);
        lemma_orient_reverse(s[pk], s[jj], s[ns]);
        lemma_collinear_swap(s[ns], s[jj], s[k], s[pk]);
    } else {
        assert(u[pu] == s[ps]);
        assert(u[nu] == s[ns]);
    }
}

/// A cycle of at most two vertices encloses no area.
proof fn lemma_shoelace_short(s: Seq<Vertex>)
    requires
        s.len() <= 2,
    ensures
        crate::area::shoelace(s) == 0,
{
    if s.len() == 1 {
        crate::area::lemma_mod_wrap(1, 1);
        assert(crate::area::shoelace_partial(s, 1) == crate::area::shoelace_partial(s, 0)
            + crate::area::shoelace_term(s, 0));
        assert(crate::area::cross(s[0], s[0]) == 0) by (nonlinear_arith);
    } else if s.len() == 2 {
        crate::area::lemma_mod_wrap(1, 2);
        crate::area::lemma_mod_wrap(2, 2);
        assert(crate::area::shoelace_partial(s, 2) == crate::area::shoelace_partial(s, 1)
            + crate::area::shoelace_term(s, 1));
        assert(crate::area::shoelace_partial(s, 1) == crate::area::shoelace_partial(s, 0)
            + crate::area::shoelace_term(s, 0));
        assert(crate::area::cross(s[0], s[1]) + crate::area::cross(s[1], s[0]) == 0) by (nonlinear_arith);
    }
}

/// Where every one of the first `m` positions is collinear, a round keeps
/// none of them.
proof fn lemma_drop_upto_all(s: Seq<Vertex>, m: nat)
    requires
        m <= s.len(),
        forall|j: int| 0 <= j < m ==> collinear_at(s, j),
    ensures
        drop_collinear_upto(s, m) == Seq::<Vertex>::empty(),
    decreases m,
{
    if m > 0 {
        lemma_drop_upto_all(s, (m - 1) as nat);
    }
}

/// Where none of the first `m` positions is collinear, a round keeps them
/// all.
proof fn lemma_drop_upto_none(s: Seq<Vertex>, m: nat)
    requires
        m <= s.len(),
        forall|j: int| 0 <= j < m ==> !collinear_at(s, j),
    ensures
        drop_collinear_upto(s, m) == s.subrange(0, m as int),
    decreases m,
{
    if m > 0 {
        lemma_drop_upto_none(s, (m - 1) as nat);
        assert(s.subrange(0, m as int) =~= s.subrange(0, m - 1).push(s[m - 1]));
    }
}

/// Where removing the collinear position `k` changes no other position's
/// status, a round on the shorter cycle keeps what a round on `s` keeps.
proof fn lemma_drop_upto_remove(s: Seq<Vertex>, k: int, m: nat)
    requires
        0 <= k < s.len(),
        collinear_at(s, k),
        m <= s.len() - 1,
        forall|j: int|
            0 <= j < s.len() - 1 ==> #[trigger] collinear_at(s.remove(k), j) == collinear_at(
                s,
                if j < k {
                    j
                } else {
                    j + 1
                },
            ),
    ensures
        drop_collinear_upto(s.remove(k), m) == drop_collinear_upto(
            s,
            if m <= k {
                m
            } else {
                (m + 1) as nat
            },
        ),
    decreases m,
{
    let u = s.remove(k);
    if m > 0 {
        lemma_drop_upto_remove(s, k, (m - 1) as nat);
        assert(collinear_at(u, m - 1) == collinear_at(s, if m - 1 < k { m - 1 } else { m as int }));
        if m - 1 < k {
            assert(u[m - 1] == s[m - 1]);
        } else {
            assert(u[m - 1] == s[m as int]);
            if m - 1 == k {
                assert(drop_collinear_upto(s, (k + 1) as nat) == drop_collinear_upto(s, k as nat));
            }
        }
    }
}

/// One round of cleaning keeps the doubled signed area of a cycle whose
/// vertices have distinct coordinates, and what it keeps still has
/// distinct coordinates.
proof fn lemma_drop_keeps_area(s: Seq<Vertex>)
    requires
        crate::angular_hull::distinct_coords(s),
    ensures
        crate::area::shoelace(drop_collinear(s)) == crate::area::shoelace(s),
        crate::angular_hull::distinct_coords(drop_collinear(s)),
    decreases s.len(),
{
    let n = s.len() as int;
    if exists|k: int| 0 <= k < n && collinear_at(s, k) {
        let k = choose|k: int| 0 <= k < n && collinear_at(s, k);
        if n >= 4 {
            let u = s.remove(k);
            assert forall|j: int| 0 <= j < n - 1 implies #[trigger] collinear_at(u, j) == collinear_at(
                s,
                if j < k {
                    j
                } else {
                    j + 1
                },
            ) by {
                lemma_remove_collinear_keeps_status(s, k, j);
            }
            lemma_drop_upto_remove(s, k, (n - 1) as nat);
            if k == n - 1 {
                assert(drop_collinear_upto(s, n as nat) == drop_collinear_upto(s, (n - 1) as nat));
            }
            assert(drop_collinear(u) == drop_collinear(s));
            assert(crate::angular_hull::distinct_coords(u)) by {
                assert forall|i: int, j: int| 0 <= i < u.len() && 0 <= j < u.len() && i != j implies !same_coords(
                    u[i],
                    u[j],
                ) by {
                    let si = if i < k { i } else { i + 1 };
                    let sj = if j < k { j } else { j + 1 };
                    assert(u[i] == s[si] && u[j] == s[sj]);
                }
            }
            lemma_drop_keeps_area(u);
            crate::area::lemma_shoelace_remove(s, k);
        } else {
            lemma_neighbour_indices(n, k);
            if n == 3 {
                lemma_orient_reverse(s[0], s[1], s[2]);
                lemma_orient_reverse(s[1], s[2], s[0]);
                lemma_orient_reverse(s[2], s[0], s[1]);
            }
            assert forall|j: int| 0 <= j < n implies collinear_at(s, j) by {
                lemma_neighbour_indices(n, j);
                if n == 1 {
                    assert(orient(s[0], s[0], s[0]) == 0) by (nonlinear_arith);
                } else if n == 2 {
                    assert(orient(s[1 - j], s[j], s[1 - j]) == 0) by (nonlinear_arith);
                }
            }
            lemma_drop_upto_all(s, n as nat);
            if n == 3 {
                crate::area::lemma_shoelace_remove(s, k);
                lemma_shoelace_short(s.remove(k));
            } else {
                lemma_shoelace_short(s);
            }
            lemma_shoelace_short(drop_collinear(s));
        }
    } else {
        lemma_drop_upto_none(s, n as nat);
        assert(s.subrange(0, n) =~= s);
    }
}

/// Cleaning collinear vertices keeps the doubled signed area of a cycle
/// whose vertices have distinct coordinates.
pub proof fn lemma_clean_keeps_area(s: Seq<Vertex>)
    requires
        crate::angular_hull::distinct_coords(s),
        clean_collinear_spec(s) is Some,
    ensures
        crate::area::shoelace(clean_collinear_spec(s).unwrap()) == crate::area::shoelace(s),
    decreases s.len(),
{
    if s.len() > 0 && collinear_ids(s).len() != 0 {
        lemma_drop_keeps_area(s);
        lemma_clean_keeps_area(drop_collinear(s));
    }
}

/// `t` is `s` with some positions left out and the others kept in their
/// order.
pub open spec fn kept_in_order(t: Seq<Vertex>, s: Seq<Vertex>) -> bool
    decreases s.len(),
{
    if t.len() == 0 {
        true
    } else if s.len() == 0 {
        false
    } else {
        (t.last() == s.last() && kept_in_order(t.drop_last(), s.drop_last())) || kept_in_order(
            t,
            s.drop_last(),
        )
    }
}

proof fn lemma_kept_refl(s: Seq<Vertex>)
    ensures
        kept_in_order(s, s),
    decreases s.len(),
{
    if s.len() > 0 {
        lemma_kept_refl(s.drop_last());
    }
}

proof fn lemma_kept_trans(a: Seq<Vertex>, b: Seq<Vertex>, c: Seq<Vertex>)
    requires
        kept_in_order(a, b),
        kept_in_order(b, c),
    ensures
        kept_in_order(a, c),
    decreases c.len(),
{
    if a.len() == 0 {
    } else if b.len() == 0 {
    } else if c.len() == 0 {
    } else if kept_in_order(b, c.drop_last()) {
        lemma_kept_trans(a, b, c.drop_last());
    } else {
        assert(b.last() == c.last() && kept_in_order(b.drop_last(), c.drop_last()));
        if a.last() == b.last() && kept_in_order(a.drop_last(), b.drop_last()) {
            lemma_kept_trans(a.drop_last(), b.drop_last(), c.drop_last());
        } else {
            lemma_kept_trans(a, b.drop_last(), c.drop_last());
        }
    }
}

proof fn lemma_drop_upto_kept(s: Seq<Vertex>, m: nat)
    requires
        m <= s.len(),
    ensures
        kept_in_order(drop_collinear_upto(s, m), s.subrange(0, m as int)),
    decreases m,
{
    if m > 0 {
        lemma_drop_upto_kept(s, (m - 1) as nat);
        let d = drop_collinear_upto(s, (m - 1) as nat);
        assert(s.subrange(0, m as int).drop_last() =~= s.subrange(0, m - 1));
        if !collinear_at(s, m - 1) {
            assert(d.push(s[m - 1]).drop_last() =~= d);
        }
    }
}

/// Cleaning collinear vertices keeps the remaining vertices in their
/// boundary order.
pub proof fn lemma_clean_keeps_order(s: Seq<Vertex>)
    requires
        clean_collinear_spec(s) is Some,
    ensures
        kept_in_order(clean_collinear_spec(s).unwrap(), s),
    decreases s.len(),
{
    if s.len() > 0 && collinear_ids(s).len() != 0 {
        let d = drop_collinear(s);
        lemma_clean_keeps_order(d);
        lemma_drop_upto_kept(s, s.len());
        assert(s.subrange(0, s.len() as int) =~= s);
        lemma_kept_trans(clean_collinear_spec(d).unwrap(), d, s);
    } else {
        lemma_kept_refl(s);
    }
}

/// Cleaning collinear vertices keeps only vertices of the cycle it cleans.
pub proof fn lemma_clean_subset(s: Seq<Vertex>)
    requires
        clean_collinear_spec(s) is Some,
    ensures
        forall|q: int|
            0 <= q < clean_collinear_spec(s).unwrap().len() ==> s.contains(
                #[trigger] clean_collinear_spec(s).unwrap()[q],
            ),
        clean_collinear_spec(s).unwrap().len() > 0,
    decreases s.len(),
{
    if collinear_ids(s).len() != 0 {
        let d = drop_collinear(s);
        lemma_drop_collinear_subset(s, s.len());
        lemma_clean_subset(d);
        let c = clean_collinear_spec(s).unwrap();
        assert forall|q: int| 0 <= q < c.len() implies s.contains(#[trigger] c[q]) by {
            assert(d.contains(c[q]));
            let j = choose|j: int| 0 <= j < d.len() && d[j] == c[q];
            assert(s.contains(d[j]));
        }
    } else {
        let c = clean_collinear_spec(s).unwrap();
        assert forall|q: int| 0 <= q < c.len() implies s.contains(#[trigger] c[q]) by {
            assert(c[q] == s[q]);
        }
    }
}

impl Polygon {
    /// The position of the vertex with identifier `id`.
    pub fn position_of(&self, id: &VertexId) -> (i: usize)
        requires
            self.wf(),
            has_id(self@, *id),
        ensures
            i < self@.len(),
            self@[i as int].id == *id,
            i == index_of(self@, *id),
    {
        self.find_index(id).unwrap()
    }

    /// The position of the vertex `v` of the polygon.
    pub fn position_of_vertex(&self, v: &Vertex) -> (i: usize)
        requires
            self.wf(),
            self@.contains(*v),
        ensures
            i < self@.len(),
            self@[i as int] == *v,
    {
        let ghost j = choose|j: int| 0 <= j < self@.len() && self@[j] == *v;
        proof {
            lemma_index_of(self@, j);
        }
        self.find_index(&v.id).unwrap()
    }
}

/// The neighbours of a vertex of a cycle are vertices of the cycle.
pub proof fn lemma_neighbours_present(s: Seq<Vertex>, id: VertexId)
    requires
        has_id(s, id),
    ensures
        has_id(s, prev_of(s, id).id),
        has_id(s, next_of(s, id).id),
        forall|x: VertexId| has_id(s, x) ==> has_id(s, prev_of(s, x).id) && has_id(s, next_of(s, x).id),
{
    assert forall|x: VertexId| has_id(s, x) implies has_id(s, prev_of(s, x).id) && has_id(s, next_of(s, x).id) by {
        let i = index_of(s, x);
        lemma_neighbour_indices(s.len() as int, i);
        assert(has_id(s, s[prev_index(s.len() as int, i)].id));
        assert(has_id(s, s[next_index(s.len() as int, i)].id));
    }
}
} // verus!
