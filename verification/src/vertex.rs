//! Vertices, vertex identifiers and the orientation predicates that every
//! other algorithm of the library is built on.

use vstd::prelude::*;

verus! {

/// Identifier of a vertex of a polygon.
#[derive(Clone, Copy, Debug, Default, PartialEq, Eq, Structural, Hash, PartialOrd, Ord)]
pub struct VertexId(pub u32);

impl From<u32> for VertexId {
    fn from(raw: u32) -> (id: VertexId)
        ensures
            id == VertexId(raw),
    {
        VertexId(raw)
    }
}

impl vstd::std_specs::convert::FromSpecImpl<u32> for VertexId {
    open spec fn obeys_from_spec() -> bool {
        true
    }

    open spec fn from_spec(v: u32) -> VertexId {
        VertexId(v)
    }
}

impl VertexId {
    /// The raw number of the identifier.
    pub fn value(&self) -> (r: u32)
        ensures
            r == self.0,
    {
        self.0
    }
}

/// A vertex: an identifier and integer coordinates.
#[derive(Clone, Copy, Debug, PartialEq, Eq, Structural)]
pub struct Vertex {
    pub id: VertexId,
    pub x: i32,
    pub y: i32,
}

/// Bound on the absolute value of a coordinate difference.
pub open spec fn diff_bound() -> int {
    0x1_0000_0000
}

/// Twice the signed area of the triangle `a, b, c`: positive when the
/// triangle turns counter-clockwise, negative when it turns clockwise, zero
/// when the three points are collinear.
pub open spec fn orient(a: Vertex, b: Vertex, c: Vertex) -> int {
    (b.x - a.x) * (c.y - a.y) - (c.x - a.x) * (b.y - a.y)
}

/// `c` lies strictly left of the directed line `a -> b`.
pub open spec fn left_of(a: Vertex, b: Vertex, c: Vertex) -> bool {
    orient(a, b, c) > 0
}

/// `c` lies left of or on the directed line `a -> b`.
pub open spec fn left_on_of(a: Vertex, b: Vertex, c: Vertex) -> bool {
    orient(a, b, c) >= 0
}

/// The two vertices have the same coordinates.
pub open spec fn same_coords(a: Vertex, b: Vertex) -> bool {
    a.x == b.x && a.y == b.y
}

/// `v` lies in the half-open interval starting at `lo` and ending before `hi`.
pub open spec fn in_half_open(lo: int, hi: int, v: int) -> bool {
    lo <= v < hi
}

/// `p` lies on the segment from `a` to `b`, as the library decides it: the
/// three points are collinear and, along `y` when the segment is vertical and
/// along `x` otherwise, `p` lies in one of the two half-open intervals between
/// the end points.
pub open spec fn between_spec(p: Vertex, a: Vertex, b: Vertex) -> bool {
    &&& orient(a, b, p) == 0
    &&& if a.x == b.x {
        in_half_open(a.y as int, b.y as int, p.y as int) || in_half_open(b.y as int, a.y as int, p.y as int)
    } else {
        in_half_open(a.x as int, b.x as int, p.x as int) || in_half_open(b.x as int, a.x as int, p.x as int)
    }
}

proof fn lemma_product_bound(a: int, b: int)
    requires
        -diff_bound() < a < diff_bound(),
        -diff_bound() < b < diff_bound(),
    ensures
        -diff_bound() * diff_bound() < a * b < diff_bound() * diff_bound(),
{
    assert(-diff_bound() * diff_bound() < a * b < diff_bound() * diff_bound()) by (nonlinear_arith)
        requires
            -diff_bound() < a < diff_bound(),
            -diff_bound() < b < diff_bound(),
    ;
}

/// Computes `orient(a, b, c)` exactly.
pub fn orientation(a: &Vertex, b: &Vertex, c: &Vertex) -> (r: i128)
    ensures
        r == orient(*a, *b, *c),
        -2 * diff_bound() * diff_bound() < r < 2 * diff_bound() * diff_bound(),
{
    let d1: i128 = b.x as i128 - a.x as i128;
    let d2: i128 = c.y as i128 - a.y as i128;
    let d3: i128 = c.x as i128 - a.x as i128;
    let d4: i128 = b.y as i128 - a.y as i128;
    proof {
        lemma_product_bound(d1 as int, d2 as int);
        lemma_product_bound(d3 as int, d4 as int);
    }
    let t1: i128 = d1 * d2;
    let t2: i128 = d3 * d4;
    t1 - t2
}

impl Vertex {
    pub fn new(id: VertexId, x: i32, y: i32) -> (v: Vertex)
        ensures
            v == (Vertex { id, x, y }),
    {
        Vertex { id, x, y }
    }

    /// The coordinates as a pair.
    pub fn coords(&self) -> (r: (i32, i32))
        ensures
            r == (self.x, self.y),
    {
        (self.x, self.y)
    }

    /// Whether this vertex lies between `a` and `b` (see `between_spec`).
    pub fn between(&self, a: &Vertex, b: &Vertex) -> (r: bool)
        ensures
            r == between_spec(*self, *a, *b),
    {
        if orientation(a, b, self) != 0 {
            return false;
        }
        let (e1, e2, check) = if a.x == b.x {
            (a.y, b.y, self.y)
        } else {
            (a.x, b.x, self.x)
        };
        (e1 <= check && check < e2) || (e2 <= check && check < e1)
    }

    /// Strictly left of the directed segment `ab`.
    pub fn left(&self, ab: &crate::line_segment::LineSegment) -> (r: bool)
        ensures
            r == left_of(ab.v1, ab.v2, *self),
    {
        orientation(&ab.v1, &ab.v2, self) > 0
    }

    /// Left of or on the directed segment `ab`.
    pub fn left_on(&self, ab: &crate::line_segment::LineSegment) -> (r: bool)
        ensures
            r == left_on_of(ab.v1, ab.v2, *self),
    {
        orientation(&ab.v1, &ab.v2, self) >= 0
    }

    /// Strictly right of the directed segment `ab`.
    pub fn right(&self, ab: &crate::line_segment::LineSegment) -> (r: bool)
        ensures
            r == !left_on_of(ab.v1, ab.v2, *self),
    {
        !self.left_on(ab)
    }

    /// Right of or on the directed segment `ab`.
    pub fn right_on(&self, ab: &crate::line_segment::LineSegment) -> (r: bool)
        ensures
            r == !left_of(ab.v1, ab.v2, *self),
    {
        !self.left(ab)
    }

    /// Moves the vertex by `(x, y)`.
    pub fn translate(&mut self, x: i32, y: i32)
        requires
            i32::MIN <= old(self).x + x <= i32::MAX,
            i32::MIN <= old(self).y + y <= i32::MAX,
        ensures
            final(self).id == old(self).id,
            final(self).x == old(self).x + x,
            final(self).y == old(self).y + y,
    {
        self.x = self.x + x;
        self.y = self.y + y;
    }
}

} // verus!
