//! Triangles given by three vertices: signed area, orientation and point
//! containment.

use vstd::prelude::*;

use crate::geometry::{first_min_index, highest_rightmost, is_first_min, lowest_leftmost, VertexOrder};
use crate::line_segment::{lemma_orient_cyclic, lemma_reverse_flips_side, LineSegment};
use crate::vertex::{diff_bound, left_on_of, orient, orientation, Vertex, VertexId};

verus! {

pub struct Triangle {
    pub v1: Vertex,
    pub v2: Vertex,
    pub v3: Vertex,
}

/// The sign of an integer: -1, 0 or 1.
pub open spec fn sign(v: int) -> int {
    if v > 0 {
        1
    } else if v < 0 {
        -1
    } else {
        0
    }
}

/// `p` lies inside or on the boundary of the counter-clockwise,
/// non-degenerate triangle `a, b, c`; a degenerate or clockwise triangle
/// contains nothing.
pub open spec fn contains_spec(a: Vertex, b: Vertex, c: Vertex, p: Vertex) -> bool {
    &&& orient(a, b, c) != 0
    &&& left_on_of(a, b, p)
    &&& left_on_of(b, c, p)
    &&& left_on_of(c, a, p)
}

impl Triangle {
    pub fn new(v1: &Vertex, v2: &Vertex, v3: &Vertex) -> (t: Triangle)
        ensures
            t.v1 == *v1,
            t.v2 == *v2,
            t.v3 == *v3,
    {
        Triangle { v1: *v1, v2: *v2, v3: *v3 }
    }

    pub fn from_vertices(v1: &Vertex, v2: &Vertex, v3: &Vertex) -> (t: Triangle)
        ensures
            t.v1 == *v1,
            t.v2 == *v2,
            t.v3 == *v3,
    {
        Triangle { v1: *v1, v2: *v2, v3: *v3 }
    }

    /// Twice the signed area: positive for counter-clockwise vertices.
    pub fn double_area(&self) -> (r: i128)
        ensures
            r == orient(self.v1, self.v2, self.v3),
            -2 * diff_bound() * diff_bound() < r < 2 * diff_bound() * diff_bound(),
    {
        orientation(&self.v1, &self.v2, &self.v3)
    }

    pub fn area_sign(&self) -> (r: i32)
        ensures
            r == sign(orient(self.v1, self.v2, self.v3)),
    {
        let a = self.double_area();
        if a > 0 {
            1
        } else if a < 0 {
            -1
        } else {
            0
        }
    }

    pub fn has_collinear_points(&self) -> (r: bool)
        ensures
            r == (orient(self.v1, self.v2, self.v3) == 0),
    {
        self.double_area() == 0
    }

    /// The identifier pairs of the three edges: `v1 -> v2`, `v2 -> v3`,
    /// `v3 -> v1`.
    pub fn edges(&self) -> (r: Vec<(VertexId, VertexId)>)
        ensures
            r@ == seq![(self.v1.id, self.v2.id), (self.v2.id, self.v3.id), (self.v3.id, self.v1.id)],
    {
        let mut r = Vec::new();
        r.push((self.v1.id, self.v2.id));
        r.push((self.v2.id, self.v3.id));
        r.push((self.v3.id, self.v1.id));
        r
    }

    /// The three edges in order: `v1 -> v2`, `v2 -> v3`, `v3 -> v1`.
    pub fn to_line_segments(&self) -> (r: Vec<LineSegment>)
        ensures
            r@ == seq![
                LineSegment { v1: self.v1, v2: self.v2 },
                LineSegment { v1: self.v2, v2: self.v3 },
                LineSegment { v1: self.v3, v2: self.v1 },
            ],
    {
        let mut r = Vec::new();
        r.push(LineSegment::from_vertices(&self.v1, &self.v2));
        r.push(LineSegment::from_vertices(&self.v2, &self.v3));
        r.push(LineSegment::from_vertices(&self.v3, &self.v1));
        r
    }

    /// The corners in order.
    pub fn vertices(&self) -> (r: Vec<Vertex>)
        ensures
            r@ == seq![self.v1, self.v2, self.v3],
    {
        let mut r = Vec::new();
        r.push(self.v1);
        r.push(self.v2);
        r.push(self.v3);
        r
    }

    /// The leftmost corner, the lowest among ties, the first among equals.
    pub fn lowest_leftmost_vertex(&self) -> (r: Vertex)
        ensures
            exists|i: int|
                is_first_min(
                    seq![self.v1, self.v2, self.v3],
                    i,
                    VertexOrder { x_first: true, first_desc: false, second_desc: false },
                ) && r == seq![self.v1, self.v2, self.v3][i],
    {
        let vs = self.vertices();
        let i = first_min_index(&vs, lowest_leftmost());
        vs[i]
    }

    /// The rightmost corner, the highest among ties, the first among equals.
    pub fn highest_rightmost_vertex(&self) -> (r: Vertex)
        ensures
            exists|i: int|
                is_first_min(
                    seq![self.v1, self.v2, self.v3],
                    i,
                    VertexOrder { x_first: true, first_desc: true, second_desc: true },
                ) && r == seq![self.v1, self.v2, self.v3][i],
    {
        let vs = self.vertices();
        let i = first_min_index(&vs, highest_rightmost());
        vs[i]
    }

    pub fn contains(&self, v: &Vertex) -> (r: bool)
        ensures
            r == contains_spec(self.v1, self.v2, self.v3, *v),
    {
        if self.has_collinear_points() {
            return false;
        }
        let segments = self.to_line_segments();
        let mut i: usize = 0;
        while i < segments.len()
            invariant
                segments@.len() == 3,
                segments@ == seq![
                    LineSegment { v1: self.v1, v2: self.v2 },
                    LineSegment { v1: self.v2, v2: self.v3 },
                    LineSegment { v1: self.v3, v2: self.v1 },
                ],
                0 <= i <= 3,
                forall|j: int|
                    0 <= j < i ==> left_on_of(#[trigger] segments@[j].v1, segments@[j].v2, *v),
            decreases 3 - i,
        {
            if !v.left_on(&segments[i]) {
                return false;
            }
            i = i + 1;
        }
        assert(left_on_of(segments@[0].v1, segments@[0].v2, *v));
        assert(left_on_of(segments@[1].v1, segments@[1].v2, *v));
        assert(left_on_of(segments@[2].v1, segments@[2].v2, *v));
        true
    }
}

/// A triangle with a repeated vertex has zero area, whichever positions
/// repeat.
pub proof fn lemma_repeated_vertex_collinear(a: Vertex, b: Vertex)
    ensures
        orient(a, a, b) == 0,
        orient(a, b, a) == 0,
        orient(b, a, a) == 0,
{
    assert(orient(a, a, b) == 0) by (nonlinear_arith);
    assert(orient(a, b, a) == 0) by (nonlinear_arith);
    assert(orient(b, a, a) == 0) by (nonlinear_arith);
}

/// Permuting the vertices of a triangle keeps the magnitude of its area:
/// the three rotations keep the sign, the three reflections flip it.
pub proof fn lemma_permutation_area(a: Vertex, b: Vertex, c: Vertex)
    ensures
        orient(b, c, a) == orient(a, b, c),
        orient(c, a, b) == orient(a, b, c),
        orient(a, c, b) == -orient(a, b, c),
        orient(c, b, a) == -orient(a, b, c),
        orient(b, a, c) == -orient(a, b, c),
{
    lemma_orient_cyclic(a, b, c);
    lemma_reverse_flips_side(a, b, c);
    lemma_reverse_flips_side(c, a, b);
    lemma_reverse_flips_side(b, c, a);
}

} // verus!
