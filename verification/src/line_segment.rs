//! Directed line segments between two vertices and their intersection tests.

use vstd::prelude::*;

use crate::geometry::{first_min_index, highest_rightmost, is_first_min, lowest_leftmost, VertexOrder};
use crate::vertex::{
    between_spec, left_of, left_on_of, orient, orientation, same_coords, Vertex,
};

verus! {

/// A directed segment from `v1` to `v2`.
#[derive(Clone, Copy, Debug, PartialEq, Eq, Structural)]
pub struct LineSegment {
    pub v1: Vertex,
    pub v2: Vertex,
}

/// The segments `ab` and `cd` cross at a single point interior to both: no
/// three of the four end points are collinear, `ab` separates `c` from `d`
/// and `cd` separates `a` from `b`.
pub open spec fn proper_intersects_spec(a: Vertex, b: Vertex, c: Vertex, d: Vertex) -> bool {
    &&& orient(a, b, c) != 0
    &&& orient(a, b, d) != 0
    &&& orient(c, d, a) != 0
    &&& orient(c, d, b) != 0
    &&& left_of(a, b, c) != left_of(a, b, d)
    &&& left_of(c, d, a) != left_of(c, d, b)
}

/// One end point of either segment lies between the end points of the other.
pub open spec fn improper_intersects_spec(a: Vertex, b: Vertex, c: Vertex, d: Vertex) -> bool {
    between_spec(c, a, b) || between_spec(d, a, b) || between_spec(a, c, d) || between_spec(b, c, d)
}

pub open spec fn intersects_spec(a: Vertex, b: Vertex, c: Vertex, d: Vertex) -> bool {
    proper_intersects_spec(a, b, c, d) || improper_intersects_spec(a, b, c, d)
}

/// One of the end points of `ab` has the coordinates of `v`.
pub open spec fn incident_spec(a: Vertex, b: Vertex, v: Vertex) -> bool {
    same_coords(a, v) || same_coords(b, v)
}

/// The two segments share an end point (by coordinates).
pub open spec fn connected_spec(a: Vertex, b: Vertex, c: Vertex, d: Vertex) -> bool {
    incident_spec(a, b, c) || incident_spec(a, b, d)
}

/// Both end points of `cd` lie on the line through `a` and `b`.
pub open spec fn collinear_with_spec(a: Vertex, b: Vertex, c: Vertex, d: Vertex) -> bool {
    orient(a, b, c) == 0 && orient(a, b, d) == 0
}

impl LineSegment {
    pub fn from_vertices(v1: &Vertex, v2: &Vertex) -> (ls: LineSegment)
        ensures
            ls.v1 == *v1,
            ls.v2 == *v2,
    {
        LineSegment { v1: *v1, v2: *v2 }
    }

    /// The same segment with its direction flipped.
    pub fn reverse(&self) -> (ls: LineSegment)
        ensures
            ls.v1 == self.v2,
            ls.v2 == self.v1,
    {
        LineSegment { v1: self.v2, v2: self.v1 }
    }

    pub fn is_vertical(&self) -> (r: bool)
        ensures
            r == (self.v1.x == self.v2.x),
    {
        self.v1.x == self.v2.x
    }

    pub fn is_horizontal(&self) -> (r: bool)
        ensures
            r == (self.v1.y == self.v2.y),
    {
        self.v1.y == self.v2.y
    }

    pub fn proper_intersects(&self, cd: &LineSegment) -> (r: bool)
        ensures
            r == proper_intersects_spec(self.v1, self.v2, cd.v1, cd.v2),
    {
        let a = &self.v1;
        let b = &self.v2;
        let c = &cd.v1;
        let d = &cd.v2;
        let abc = orientation(a, b, c);
        let abd = orientation(a, b, d);
        let cda = orientation(c, d, a);
        let cdb = orientation(c, d, b);
        if abc == 0 || abd == 0 || cda == 0 || cdb == 0 {
            return false;
        }
        let ab_splits_cd = c.left(self) != d.left(self);
        let cd_splits_ab = a.left(cd) != b.left(cd);
        ab_splits_cd && cd_splits_ab
    }

    pub fn improper_intersects(&self, cd: &LineSegment) -> (r: bool)
        ensures
            r == improper_intersects_spec(self.v1, self.v2, cd.v1, cd.v2),
    {
        let a = &self.v1;
        let b = &self.v2;
        let c = &cd.v1;
        let d = &cd.v2;
        c.between(a, b) || d.between(a, b) || a.between(c, d) || b.between(c, d)
    }

    pub fn intersects(&self, cd: &LineSegment) -> (r: bool)
        ensures
            r == intersects_spec(self.v1, self.v2, cd.v1, cd.v2),
    {
        self.proper_intersects(cd) || self.improper_intersects(cd)
    }

    pub fn connected_to(&self, cd: &LineSegment) -> (r: bool)
        ensures
            r == connected_spec(self.v1, self.v2, cd.v1, cd.v2),
    {
        self.incident_to(&cd.v1) || self.incident_to(&cd.v2)
    }

    pub fn incident_to(&self, v: &Vertex) -> (r: bool)
        ensures
            r == incident_spec(self.v1, self.v2, *v),
    {
        (self.v1.x == v.x && self.v1.y == v.y) || (self.v2.x == v.x && self.v2.y == v.y)
    }

    /// Both end points of `other` lie on the line through this segment.
    pub fn collinear_with(&self, other: &LineSegment) -> (r: bool)
        ensures
            r == collinear_with_spec(self.v1, self.v2, other.v1, other.v2),
    {
        orientation(&self.v1, &self.v2, &other.v1) == 0 && orientation(&self.v1, &self.v2, &other.v2)
            == 0
    }

    /// The two end points in order.
    pub fn vertices(&self) -> (r: Vec<Vertex>)
        ensures
            r@ == seq![self.v1, self.v2],
    {
        let mut r = Vec::new();
        r.push(self.v1);
        r.push(self.v2);
        r
    }

    /// The leftmost end point, the lower among ties, the first among equals.
    pub fn lowest_leftmost_vertex(&self) -> (r: Vertex)
        ensures
            exists|i: int|
                is_first_min(
                    seq![self.v1, self.v2],
                    i,
                    VertexOrder { x_first: true, first_desc: false, second_desc: false },
                ) && r == seq![self.v1, self.v2][i],
    {
        let vs = self.vertices();
        let i = first_min_index(&vs, lowest_leftmost());
        vs[i]
    }

    /// The rightmost end point, the higher among ties, the first among equals.
    pub fn highest_rightmost_vertex(&self) -> (r: Vertex)
        ensures
            exists|i: int|
                is_first_min(
                    seq![self.v1, self.v2],
                    i,
                    VertexOrder { x_first: true, first_desc: true, second_desc: true },
                ) && r == seq![self.v1, self.v2][i],
    {
        let vs = self.vertices();
        let i = first_min_index(&vs, highest_rightmost());
        vs[i]
    }

    /// The magnitude of the cross product of this segment with the segment
    /// from `v1` to `v`: the distance of `v` from the line through the
    /// segment, scaled by the segment's length.
    pub fn scaled_distance_to_vertex(&self, v: &Vertex) -> (r: u128)
        ensures
            r as int == (if orient(self.v1, self.v2, *v) >= 0 {
                orient(self.v1, self.v2, *v)
            } else {
                -orient(self.v1, self.v2, *v)
            }),
    {
        let o = orientation(&self.v1, &self.v2, v);
        if o >= 0 {
            o as u128
        } else {
            (-o) as u128
        }
    }
}

/// Reversing a segment flips the side of every point: strictly left becomes
/// strictly right.
pub proof fn lemma_reverse_flips_side(a: Vertex, b: Vertex, c: Vertex)
    ensures
        orient(b, a, c) == -orient(a, b, c),
        left_of(b, a, c) <==> !left_on_of(a, b, c),
{
    assert(orient(b, a, c) == -orient(a, b, c)) by (nonlinear_arith);
}

/// Orientation is invariant under cyclic rotation of the three points.
pub proof fn lemma_orient_cyclic(a: Vertex, b: Vertex, c: Vertex)
    ensures
        orient(a, b, c) == orient(b, c, a),
        orient(a, b, c) == orient(c, a, b),
{
    assert(orient(a, b, c) == orient(b, c, a)) by (nonlinear_arith);
    assert(orient(a, b, c) == orient(c, a, b)) by (nonlinear_arith);
}

/// Lying between two points does not depend on their order.
pub proof fn lemma_between_symmetric(p: Vertex, a: Vertex, b: Vertex)
    ensures
        between_spec(p, a, b) == between_spec(p, b, a),
{
    lemma_reverse_flips_side(a, b, p);
}

/// Segment intersection, proper and improper, is symmetric in the two
/// segments and does not depend on their directions.
pub proof fn lemma_intersection_symmetric(a: Vertex, b: Vertex, c: Vertex, d: Vertex)
    ensures
        proper_intersects_spec(a, b, c, d) == proper_intersects_spec(c, d, a, b),
        improper_intersects_spec(a, b, c, d) == improper_intersects_spec(c, d, a, b),
        intersects_spec(a, b, c, d) == intersects_spec(c, d, a, b),
        proper_intersects_spec(a, b, c, d) == proper_intersects_spec(b, a, c, d),
        improper_intersects_spec(a, b, c, d) == improper_intersects_spec(b, a, c, d),
        intersects_spec(a, b, c, d) == intersects_spec(b, a, c, d),
{
    lemma_reverse_flips_side(a, b, c);
    lemma_reverse_flips_side(a, b, d);
    lemma_between_symmetric(c, a, b);
    lemma_between_symmetric(d, a, b);
}

/// A segment whose end points differ intersects itself, improperly and
/// never properly.
pub proof fn lemma_self_intersection(a: Vertex, b: Vertex)
    requires
        !same_coords(a, b),
    ensures
        !proper_intersects_spec(a, b, a, b),
        improper_intersects_spec(a, b, a, b),
        intersects_spec(a, b, a, b),
{
    assert(orient(a, b, a) == 0) by (nonlinear_arith);
    assert(orient(a, b, b) == 0) by (nonlinear_arith);
}

} // verus!
