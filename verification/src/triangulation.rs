//! Triangulations of polygons and the ear-clipping algorithm.

use vstd::prelude::*;

use crate::area::{fan_double_area, lemma_fan_is_shoelace, lemma_shoelace_remove, shoelace};
use crate::polygon::{
    diagonal_spec, distinct_ids, has_id, index_of, lemma_distinct_ids_bound, lemma_index_of,
    lemma_neighbour_indices, next_index, prev_index, vertex_of, Polygon,
};
use crate::vertex::{diff_bound, orient, orientation, Vertex, VertexId};

verus! {

/// Ear clipping found no ear: the polygon is likely invalid.
#[derive(Clone, Copy, Debug, PartialEq, Eq, Structural)]
pub struct EarNotFoundError;

impl EarNotFoundError {
    /// The message the error reports.
    pub fn message(&self) -> (r: &'static str)
        ensures
            r@ == "polygon is likely invalid"@,
    {
        "polygon is likely invalid"
    }
}

/// The identifiers of the three corners of a triangle.
#[derive(Clone, Copy, Debug, PartialEq, Eq, Structural, Hash)]
pub struct TriangleVertexIds(pub VertexId, pub VertexId, pub VertexId);

/// The triangles of a triangulation, in the order they were produced.
#[derive(Debug, Default)]
pub struct Triangulation {
    triangles: Vec<TriangleVertexIds>,
}

impl View for Triangulation {
    type V = Seq<TriangleVertexIds>;

    closed spec fn view(&self) -> Seq<TriangleVertexIds> {
        self.triangles@
    }
}

impl Triangulation {
    pub fn new() -> (t: Triangulation)
        ensures
            t@ == Seq::<TriangleVertexIds>::empty(),
    {
        Triangulation { triangles: Vec::new() }
    }

    pub fn push(&mut self, value: TriangleVertexIds)
        ensures
            final(self)@ == old(self)@.push(value),
    {
        self.triangles.push(value)
    }

    pub fn len(&self) -> (r: usize)
        ensures
            r == self@.len(),
    {
        self.triangles.len()
    }

    pub fn is_empty(&self) -> (r: bool)
        ensures
            r == (self@.len() == 0),
    {
        self.triangles.len() == 0
    }

    /// The `i`-th triangle.
    pub fn get(&self, i: usize) -> (r: TriangleVertexIds)
        requires
            i < self@.len(),
        ensures
            r == self@[i as int],
    {
        self.triangles[i]
    }

    /// The triangles, in the order they were produced.
    pub fn triangles(&self) -> (r: &Vec<TriangleVertexIds>)
        ensures
            r@ == self@,
    {
        &self.triangles
    }
}

/// The triangle that the vertex at position `i` forms with its neighbours:
/// previous, itself, next.
pub open spec fn corner_triangle(s: Seq<Vertex>, i: int) -> TriangleVertexIds {
    let n = s.len() as int;
    TriangleVertexIds(s[prev_index(n, i)].id, s[i].id, s[next_index(n, i)].id)
}

/// The vertex at position `i` is an ear: the segment joining its two
/// neighbours is a diagonal.
pub open spec fn is_ear(s: Seq<Vertex>, i: int) -> bool {
    let n = s.len() as int;
    diagonal_spec(s, s[prev_index(n, i)], s[next_index(n, i)])
}

/// The first position, in boundary order, that is an ear.
#[verifier::opaque]
pub open spec fn first_ear(s: Seq<Vertex>) -> Option<int> {
    if exists|i: int| 0 <= i < s.len() && is_ear(s, i) {
        Some(choose|i: int| 0 <= i < s.len() && is_ear(s, i) && forall|j: int| 0 <= j < i ==> !is_ear(s, j))
    } else {
        None
    }
}

/// Ear clipping: while more than three vertices remain, cut off the first
/// ear (in boundary order), recording its triangle; the last three vertices
/// form the last triangle, recorded from the anchor. `None` when no ear is
/// found.
#[verifier::opaque]
pub open spec fn ear_clipping_spec(s: Seq<Vertex>) -> Option<Seq<TriangleVertexIds>>
    decreases s.len(),
{
    if s.len() <= 3 {
        Some(seq![corner_triangle(s, 0)])
    } else {
        match first_ear(s) {
            None => None,
            Some(i) => if 0 <= i < s.len() {
                match ear_clipping_spec(s.remove(i)) {
                    Some(rest) => Some(seq![corner_triangle(s, i)] + rest),
                    None => None,
                }
            } else {
                None
            },
        }
    }
}

proof fn lemma_clip_step(s: Seq<Vertex>, i: int)
    requires
        s.len() > 3,
        first_ear(s) == Some(i),
        0 <= i < s.len(),
    ensures
        ear_clipping_spec(s) == match ear_clipping_spec(s.remove(i)) {
            Some(rest) => Some(seq![corner_triangle(s, i)] + rest),
            None => None::<Seq<TriangleVertexIds>>,
        },
{
    reveal(ear_clipping_spec);
}

proof fn lemma_clip_none(s: Seq<Vertex>)
    requires
        s.len() > 3,
        first_ear(s) is None,
    ensures
        ear_clipping_spec(s) is None,
{
    reveal(ear_clipping_spec);
}

proof fn lemma_clip_last(s: Seq<Vertex>)
    requires
        s.len() <= 3,
    ensures
        ear_clipping_spec(s) == Some(seq![corner_triangle(s, 0)]),
{
    reveal(ear_clipping_spec);
}

proof fn lemma_no_ear(s: Seq<Vertex>)
    requires
        forall|j: int| 0 <= j < s.len() ==> !is_ear(s, j),
    ensures
        first_ear(s) is None,
{
    reveal(first_ear);
}

proof fn lemma_first_ear(s: Seq<Vertex>, i: int)
    requires
        0 <= i < s.len(),
        is_ear(s, i),
        forall|j: int| 0 <= j < i ==> !is_ear(s, j),
    ensures
        first_ear(s) == Some(i),
{
    reveal(first_ear);
    let k = choose|k: int| 0 <= k < s.len() && is_ear(s, k) && forall|j: int| 0 <= j < k ==> !is_ear(s, j);
    assert(k == i) by {
        if k < i {
            assert(!is_ear(s, k));
        }
        if i < k {
            assert(!is_ear(s, i));
        }
    }
}

/// The ear-clipping triangulation algorithm.
#[derive(Clone, Copy, Debug, Default)]
pub struct EarClipping;

impl EarClipping {
    /// The identifier of the first vertex, in boundary order, that is an ear.
    pub fn find_ear(&self, polygon: &Polygon) -> (r: Result<VertexId, EarNotFoundError>)
        requires
            polygon.wf(),
        ensures
            first_ear(polygon@) is None ==> r == Err::<VertexId, EarNotFoundError>(EarNotFoundError),
            first_ear(polygon@) matches Some(i) ==> r == Ok::<VertexId, EarNotFoundError>(polygon@[i].id),
            r is Ok ==> (first_ear(polygon@) matches Some(i) && 0 <= i < polygon@.len()),
            r matches Ok(id) ==> forall|k: int|
                0 <= k < polygon@.len() ==> !crate::simplicity::segments_cross(
                    #[trigger] polygon@[k],
                    polygon@[next_index(polygon@.len() as int, k)],
                    crate::polygon::prev_of(polygon@, id),
                    crate::polygon::next_of(polygon@, id),
                ),
    {
        let vertices = polygon.copy_vertices();
        let n = vertices.len();
        let mut i: usize = 0;
        while i < n
            invariant
                polygon.wf(),
                vertices@ == polygon@,
                n == vertices@.len(),
                0 <= i <= n,
                forall|j: int| 0 <= j < i ==> !is_ear(polygon@, j),
            decreases n - i,
        {
            let v = vertices[i];
            proof {
                lemma_index_of(polygon@, i as int);
                lemma_neighbour_indices(n as int, i as int);
            }
            let prev = polygon.get_prev_vertex(&v.id).unwrap();
            let next = polygon.get_next_vertex(&v.id).unwrap();
            proof {
                lemma_index_of(polygon@, prev_index(n as int, i as int));
                lemma_index_of(polygon@, next_index(n as int, i as int));
            }
            if polygon.diagonal(&prev, &next) {
                proof {
                    lemma_first_ear(polygon@, i as int);
                }
                return Ok(v.id);
            }
            i = i + 1;
        }
        proof {
            lemma_no_ear(polygon@);
        }
        Err(EarNotFoundError)
    }

    /// Triangulates the polygon by ear clipping (see `ear_clipping_spec`).
    pub fn triangulation(&self, polygon: &Polygon) -> (r: Result<Triangulation, EarNotFoundError>)
        requires
            polygon.wf(),
            polygon@.len() > 0,
        ensures
            ear_clipping_spec(polygon@) is None ==> r == Err::<Triangulation, EarNotFoundError>(
                EarNotFoundError,
            ),
            ear_clipping_spec(polygon@) is Some ==> (r matches Ok(tr) && tr@ == ear_clipping_spec(
                polygon@,
            ).unwrap()),
    {
        let mut triangulation = Triangulation::new();
        let ghost whole = polygon@;
        let mut remaining = polygon.copy();
        while remaining.num_vertices() > 3
            invariant
                remaining.wf(),
                remaining@.len() > 0,
                whole == polygon@,
                ear_clipping_spec(whole) == match ear_clipping_spec(remaining@) {
                    Some(rest) => Some(triangulation@ + rest),
                    None => None::<Seq<TriangleVertexIds>>,
                },
            decreases remaining@.len(),
        {
            let ghost s = remaining@;
            let id = match self.find_ear(&remaining) {
                Ok(id) => id,
                Err(e) => {
                    proof {
                        assert(first_ear(s) is None);
                        lemma_clip_none(s);
                        assert(ear_clipping_spec(s) is None);
                        assert(ear_clipping_spec(whole) is None);
                    }
                    return Err(e);
                },
            };
            let ghost i = first_ear(s).unwrap();
            proof {
                lemma_clip_step(s, i);
                lemma_index_of(s, i);
                lemma_neighbour_indices(s.len() as int, i);
                lemma_index_of(s, prev_index(s.len() as int, i));
                lemma_index_of(s, next_index(s.len() as int, i));
            }
            let prev = remaining.prev_vertex_id(&id).unwrap();
            let next = remaining.next_vertex_id(&id).unwrap();
            let t = TriangleVertexIds(prev, id, next);
            assert(t == corner_triangle(s, i));
            triangulation.push(t);
            remaining.remove_vertex(&id);
            proof {
                assert(remaining@ == s.remove(i));
                match ear_clipping_spec(s.remove(i)) {
                    Some(rest) => {
                        assert(triangulation@ + rest =~= (triangulation@.drop_last()) + (seq![t] + rest));
                    },
                    None => {},
                }
            }
        }
        let v = remaining.anchor();
        let ghost s = remaining@;
        proof {
            lemma_index_of(s, 0);
            lemma_neighbour_indices(s.len() as int, 0);
            lemma_index_of(s, prev_index(s.len() as int, 0));
            lemma_index_of(s, next_index(s.len() as int, 0));
        }
        let prev = remaining.prev_vertex_id(&v.id).unwrap();
        let next = remaining.next_vertex_id(&v.id).unwrap();
        let t = TriangleVertexIds(prev, v.id, next);
        assert(t == corner_triangle(s, 0));
        proof {
            lemma_clip_last(s);
        }
        triangulation.push(t);
        Ok(triangulation)
    }
}

/// Twice the signed area of the `k`-th triangle of `t`, its corners looked
/// up by identifier in `s`.
pub open spec fn triangle_double_area(s: Seq<Vertex>, tri: TriangleVertexIds) -> int {
    orient(vertex_of(s, tri.0), vertex_of(s, tri.1), vertex_of(s, tri.2))
}

/// The sum of the doubled signed areas of the first `k` triangles of `t`.
pub open spec fn triangles_double_area_upto(s: Seq<Vertex>, t: Seq<TriangleVertexIds>, k: nat) -> int
    decreases k,
{
    if k == 0 {
        0
    } else {
        triangles_double_area_upto(s, t, (k - 1) as nat) + triangle_double_area(s, t[k - 1])
    }
}

pub open spec fn triangles_double_area(s: Seq<Vertex>, t: Seq<TriangleVertexIds>) -> int {
    triangles_double_area_upto(s, t, t.len())
}

/// Every corner of every triangle of `t` is a vertex of `s`.
pub open spec fn corners_in(s: Seq<Vertex>, t: Seq<TriangleVertexIds>) -> bool {
    forall|k: int|
        0 <= k < t.len() ==> has_id(s, #[trigger] t[k].0) && has_id(s, t[k].1) && has_id(s, t[k].2)
}

proof fn lemma_vertex_of_remove(s: Seq<Vertex>, i: int, id: VertexId)
    requires
        distinct_ids(s),
        0 <= i < s.len(),
        has_id(s.remove(i), id),
    ensures
        has_id(s, id),
        vertex_of(s.remove(i), id) == vertex_of(s, id),
        distinct_ids(s.remove(i)),
{
    let u = s.remove(i);
    assert(distinct_ids(u)) by {
        assert forall|a: int, b: int| 0 <= a < u.len() && 0 <= b < u.len() && a != b implies u[a].id
            != u[b].id by {
            let a2 = if a < i { a } else { a + 1 };
            let b2 = if b < i { b } else { b + 1 };
            assert(u[a] == s[a2] && u[b] == s[b2]);
        }
    }
    let k = choose|k: int| 0 <= k < u.len() && u[k].id == id;
    let k2 = if k < i { k } else { k + 1 };
    assert(u[k] == s[k2]);
    lemma_index_of(u, k);
    lemma_index_of(s, k2);
}

proof fn lemma_area_upto_remove(s: Seq<Vertex>, i: int, t: Seq<TriangleVertexIds>, k: nat)
    requires
        distinct_ids(s),
        0 <= i < s.len(),
        corners_in(s.remove(i), t),
        k <= t.len(),
    ensures
        triangles_double_area_upto(s.remove(i), t, k) == triangles_double_area_upto(s, t, k),
        corners_in(s, t.subrange(0, k as int)),
    decreases k,
{
    if k > 0 {
        lemma_area_upto_remove(s, i, t, (k - 1) as nat);
        let tri = t[k - 1];
        assert(has_id(s.remove(i), t[k - 1].0) && has_id(s.remove(i), t[k - 1].1) && has_id(s.remove(i), t[k - 1].2));
        lemma_vertex_of_remove(s, i, tri.0);
        lemma_vertex_of_remove(s, i, tri.1);
        lemma_vertex_of_remove(s, i, tri.2);
        assert forall|q: int| 0 <= q < k implies has_id(s, #[trigger] t.subrange(0, k as int)[q].0) && has_id(
            s,
            t.subrange(0, k as int)[q].1,
        ) && has_id(s, t.subrange(0, k as int)[q].2) by {
            if q < k - 1 {
                assert(t.subrange(0, k as int)[q] == t.subrange(0, (k - 1) as int)[q]);
            } else {
                assert(t.subrange(0, k as int)[q] == tri);
            }
        }
    }
}

proof fn lemma_area_prepend(s: Seq<Vertex>, first: TriangleVertexIds, rest: Seq<TriangleVertexIds>, k: nat)
    requires
        k <= rest.len(),
    ensures
        triangles_double_area_upto(s, seq![first] + rest, k + 1) == triangle_double_area(s, first)
            + triangles_double_area_upto(s, rest, k),
    decreases k,
{
    let t = seq![first] + rest;
    if k == 0 {
        assert(t[0] == first);
        assert(triangles_double_area_upto(s, t, 1) == triangles_double_area_upto(s, t, 0)
            + triangle_double_area(s, t[0]));
    } else {
        lemma_area_prepend(s, first, rest, (k - 1) as nat);
        assert(t[k as int] == rest[k - 1]);
        assert(triangles_double_area_upto(s, t, k + 1) == triangles_double_area_upto(s, t, k)
            + triangle_double_area(s, t[k as int]));
        assert(triangles_double_area_upto(s, rest, k) == triangles_double_area_upto(s, rest, (k - 1) as nat)
            + triangle_double_area(s, rest[k - 1]));
    }
}

/// Ear clipping, when it succeeds on a polygon of `n >= 3` vertices with
/// distinct identifiers, produces `n - 2` triangles whose corners are
/// vertices of the polygon and whose doubled signed areas add up to the
/// polygon's doubled signed area.
pub proof fn lemma_ear_clipping_triangles(s: Seq<Vertex>)
    requires
        distinct_ids(s),
        s.len() >= 3,
        ear_clipping_spec(s) is Some,
    ensures
        ear_clipping_spec(s).unwrap().len() == s.len() - 2,
        corners_in(s, ear_clipping_spec(s).unwrap()),
        triangles_double_area(s, ear_clipping_spec(s).unwrap()) == shoelace(s),
        triangles_double_area(s, ear_clipping_spec(s).unwrap()) == fan_double_area(s),
    decreases s.len(),
{
    let n = s.len() as int;
    lemma_fan_is_shoelace(s);
    if n == 3 {
        lemma_clip_last(s);
        let t = ear_clipping_spec(s).unwrap();
        lemma_neighbour_indices(n, 0);
        lemma_index_of(s, 0);
        lemma_index_of(s, 1);
        lemma_index_of(s, 2);
        lemma_shoelace_remove(s, 0);
        let u = s.remove(0);
        assert(shoelace(u) == 0) by {
            crate::area::lemma_mod_wrap(1, 2);
            crate::area::lemma_mod_wrap(2, 2);
            assert(crate::area::shoelace_partial(u, 2) == crate::area::shoelace_partial(u, 1)
                + crate::area::shoelace_term(u, 1));
            assert(crate::area::shoelace_partial(u, 1) == crate::area::shoelace_partial(u, 0)
                + crate::area::shoelace_term(u, 0));
            assert(shoelace(u) == crate::area::cross(u[0], u[1]) + crate::area::cross(u[1], u[0]));
            assert(crate::area::cross(u[0], u[1]) + crate::area::cross(u[1], u[0]) == 0) by (nonlinear_arith);
        }
        assert(t.len() == 1);
        assert(triangles_double_area_upto(s, t, 1) == triangles_double_area_upto(s, t, 0)
            + triangle_double_area(s, t[0]));
        assert(triangles_double_area(s, t) == triangle_double_area(s, t[0]));
    } else {
        assert(first_ear(s) is Some && 0 <= first_ear(s).unwrap() < n) by {
            reveal(ear_clipping_spec);
        }
        let i = first_ear(s).unwrap();
        lemma_clip_step(s, i);
        let u = s.remove(i);
        lemma_remove_distinct(s, i);
        let rest = ear_clipping_spec(u).unwrap();
        let t = ear_clipping_spec(s).unwrap();
        assert(t == seq![corner_triangle(s, i)] + rest);
        lemma_ear_clipping_triangles(u);
        lemma_area_upto_remove(s, i, rest, rest.len());
        assert(rest.subrange(0, rest.len() as int) =~= rest);
        lemma_area_prepend(s, corner_triangle(s, i), rest, rest.len());
        lemma_neighbour_indices(n, i);
        let p = prev_index(n, i);
        let q = next_index(n, i);
        lemma_index_of(s, p);
        lemma_index_of(s, i);
        lemma_index_of(s, q);
        assert(triangle_double_area(s, corner_triangle(s, i)) == orient(s[p], s[i], s[q]));
        lemma_shoelace_remove(s, i);
        assert forall|k: int| 0 <= k < t.len() implies has_id(s, #[trigger] t[k].0) && has_id(s, t[k].1)
            && has_id(s, t[k].2) by {
            if k > 0 {
                assert(t[k] == rest[k - 1]);
            }
        }
    }
}

proof fn lemma_remove_distinct(s: Seq<Vertex>, i: int)
    requires
        distinct_ids(s),
        0 <= i < s.len(),
    ensures
        distinct_ids(s.remove(i)),
{
    let u = s.remove(i);
    assert forall|a: int, b: int| 0 <= a < u.len() && 0 <= b < u.len() && a != b implies u[a].id
        != u[b].id by {
        let a2 = if a < i { a } else { a + 1 };
        let b2 = if b < i { b } else { b + 1 };
        assert(u[a] == s[a2] && u[b] == s[b2]);
    }
}

impl Polygon {
    /// Triangulates the polygon by ear clipping.
    pub fn triangulation(&self) -> (r: Result<Triangulation, EarNotFoundError>)
        requires
            self.wf(),
            self@.len() > 0,
        ensures
            ear_clipping_spec(self@) is None ==> r == Err::<Triangulation, EarNotFoundError>(
                EarNotFoundError,
            ),
            ear_clipping_spec(self@) is Some ==> (r matches Ok(tr) && tr@ == ear_clipping_spec(
                self@,
            ).unwrap()),
    {
        EarClipping.triangulation(self)
    }

    /// The sum of the doubled signed areas of the triangles of a
    /// triangulation, corners looked up in this polygon. For an ear-clipping
    /// triangulation it equals `double_area` (see
    /// `lemma_ear_clipping_triangles`).
    pub fn double_area_from_triangulation(&self, triangulation: &Triangulation) -> (r: i128)
        requires
            self.wf(),
            corners_in(self@, triangulation@),
            triangulation@.len() <= 0x1_0000_0000,
        ensures
            r == triangles_double_area(self@, triangulation@),
    {
        let ts = triangulation.triangles();
        let mut area: i128 = 0;
        let mut k: usize = 0;
        while k < ts.len()
            invariant
                self.wf(),
                ts@ == triangulation@,
                corners_in(self@, ts@),
                ts@.len() <= 0x1_0000_0000,
                0 <= k <= ts.len(),
                area == triangles_double_area_upto(self@, ts@, k as nat),
                -(k as int) * 0x2_0000_0000_0000_0000 <= area <= (k as int) * 0x2_0000_0000_0000_0000,
            decreases ts.len() - k,
        {
            let ids = ts[k];
            let t = self.get_triangle(&ids.0, &ids.1, &ids.2).unwrap();
            let a = t.double_area();
            proof {
                assert((k as int + 1) * 0x2_0000_0000_0000_0000 == (k as int) * 0x2_0000_0000_0000_0000
                    + 0x2_0000_0000_0000_0000) by (nonlinear_arith);
                assert((k as int + 1) * 0x2_0000_0000_0000_0000 <= 0x1_0000_0001 * 0x2_0000_0000_0000_0000)
                    by (nonlinear_arith)
                    requires
                        k < 0x1_0000_0001,
                ;
            }
            area = area + a;
            k = k + 1;
        }
        area
    }
}

/// A triangulation algorithm.
pub trait TriangulationComputer {
    /// Triangulates `polygon`.
    fn triangulation(&self, polygon: &Polygon) -> (r: Result<Triangulation, EarNotFoundError>)
        requires
            polygon.wf(),
            polygon@.len() > 0,
    ;
}

impl TriangulationComputer for EarClipping {
    fn triangulation(&self, polygon: &Polygon) -> (r: Result<Triangulation, EarNotFoundError>)
        ensures
            ear_clipping_spec(polygon@) is None ==> r == Err::<Triangulation, EarNotFoundError>(
                EarNotFoundError,
            ),
            ear_clipping_spec(polygon@) is Some ==> (r matches Ok(tr) && tr@ == ear_clipping_spec(
                polygon@,
            ).unwrap()),
    {
        EarClipping::triangulation(self, polygon)
    }
}

} // verus!
