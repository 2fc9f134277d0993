//! What validation and the diagonal test guarantee about the edges of a
//! polygon, stated with plain orientation tests: accepted polygons have no
//! two compared edges that meet, and an accepted diagonal crosses no edge.

use vstd::prelude::*;

use crate::area::{fan_double_area, lemma_fan_is_shoelace, shoelace};
use crate::line_segment::{connected_spec, incident_spec, intersects_spec, proper_intersects_spec};
use crate::polygon::{
    check_polygon, clear_of_edges, edge_clear, edge_pair_apart, edges_apart, edges_simple,
    min_id_position, next_index, valid_polygon, validation_error,
};
use crate::vertex::{between_spec, orient, same_coords, Vertex};

verus! {

/// The segments `ab` and `cd` cross at a point inside both: the end points
/// of each lie strictly on opposite sides of the line through the other.
pub open spec fn segments_cross(a: Vertex, b: Vertex, c: Vertex, d: Vertex) -> bool {
    &&& orient(a, b, c) * orient(a, b, d) < 0
    &&& orient(c, d, a) * orient(c, d, b) < 0
}

/// `p` lies on the closed segment from `a` to `b`.
pub open spec fn on_segment(p: Vertex, a: Vertex, b: Vertex) -> bool {
    &&& orient(a, b, p) == 0
    &&& (a.x <= p.x <= b.x || b.x <= p.x <= a.x)
    &&& (a.y <= p.y <= b.y || b.y <= p.y <= a.y)
}

/// The closed segments `ab` and `cd` have no point in common: they do not
/// cross, and no end point of one lies on the other.
pub open spec fn segments_apart(a: Vertex, b: Vertex, c: Vertex, d: Vertex) -> bool {
    &&& !segments_cross(a, b, c, d)
    &&& !on_segment(c, a, b)
    &&& !on_segment(d, a, b)
    &&& !on_segment(a, c, d)
    &&& !on_segment(b, c, d)
}

/// A crossing at a point inside both segments is a proper intersection.
proof fn lemma_cross_is_proper(a: Vertex, b: Vertex, c: Vertex, d: Vertex)
    requires
        segments_cross(a, b, c, d),
    ensures
        proper_intersects_spec(c, d, a, b),
        proper_intersects_spec(a, b, c, d),
{
    let p = orient(a, b, c);
    let q = orient(a, b, d);
    let u = orient(c, d, a);
    let w = orient(c, d, b);
    assert(p != 0 && q != 0 && (p > 0) != (q > 0)) by (nonlinear_arith)
        requires p * q < 0;
    assert(u != 0 && w != 0 && (u > 0) != (w > 0)) by (nonlinear_arith)
        requires u * w < 0;
}

/// An end point with the coordinates of one of the other segment's end
/// points rules out a crossing.
proof fn lemma_shared_end_no_cross(a: Vertex, b: Vertex, c: Vertex, d: Vertex)
    requires
        connected_spec(c, d, a, b),
    ensures
        !segments_cross(a, b, c, d),
{
    if same_coords(c, a) {
        assert(orient(a, b, c) == 0) by (nonlinear_arith)
            requires c.x == a.x, c.y == a.y;
    } else if same_coords(d, a) {
        assert(orient(a, b, d) == 0) by (nonlinear_arith)
            requires d.x == a.x, d.y == a.y;
    } else if same_coords(c, b) {
        assert(orient(a, b, c) == 0) by (nonlinear_arith)
            requires c.x == b.x, c.y == b.y;
    } else {
        assert(orient(a, b, d) == 0) by (nonlinear_arith)
            requires d.x == b.x, d.y == b.y;
    }
    let p = orient(a, b, c);
    let q = orient(a, b, d);
    assert(p * q == 0) by (nonlinear_arith)
        requires p == 0 || q == 0;
}

/// A segment accepted as a diagonal crosses no edge of the polygon: for
/// every edge, the edge and the diagonal do not cross at a point inside
/// both.
pub proof fn lemma_diagonal_crosses_no_edge(s: Seq<Vertex>, a: Vertex, b: Vertex)
    requires
        clear_of_edges(s, a, b),
    ensures
        forall|k: int| 0 <= k < s.len() ==> !segments_cross(#[trigger] s[k], s[next_index(s.len() as int, k)], a, b),
{
    assert forall|k: int| 0 <= k < s.len() implies !segments_cross(
        #[trigger] s[k],
        s[next_index(s.len() as int, k)],
        a,
        b,
    ) by {
        let c = s[k];
        let d = s[next_index(s.len() as int, k)];
        assert(edge_clear(s, k, a, b));
        if segments_cross(c, d, a, b) {
            if connected_spec(c, d, a, b) {
                lemma_shared_end_no_cross(a, b, c, d);
                lemma_cross_symmetric(c, d, a, b);
            } else {
                lemma_cross_is_proper(c, d, a, b);
                assert(intersects_spec(c, d, a, b));
            }
        }
    }
}

/// Crossing is symmetric in the two segments.
proof fn lemma_cross_symmetric(a: Vertex, b: Vertex, c: Vertex, d: Vertex)
    ensures
        segments_cross(a, b, c, d) == segments_cross(c, d, a, b),
{
}

/// The closed segment is covered by its end points and the half-open
/// betweenness test.
proof fn lemma_on_segment_cases(p: Vertex, a: Vertex, b: Vertex)
    requires
        on_segment(p, a, b),
    ensures
        incident_spec(a, b, p) || between_spec(p, a, b),
{
    if a.x == b.x {
        if p.y == a.y {
            assert(same_coords(a, p));
        } else if p.y == b.y {
            assert(same_coords(b, p));
        }
    } else {
        let dx: int = b.x - a.x;
        let py: int = p.y - a.y;
        let qy: int = p.y - b.y;
        if p.x == a.x {
            assert(orient(a, b, p) == dx * py) by (nonlinear_arith)
                requires p.x == a.x, dx == b.x - a.x, py == p.y - a.y;
            assert(py == 0) by (nonlinear_arith)
                requires dx * py == 0, dx != 0;
            assert(same_coords(a, p));
        } else if p.x == b.x {
            assert(orient(a, b, p) == dx * qy) by (nonlinear_arith)
                requires p.x == b.x, dx == b.x - a.x, qy == p.y - b.y;
            assert(qy == 0) by (nonlinear_arith)
                requires dx * qy == 0, dx != 0;
            assert(same_coords(b, p));
        }
    }
}

/// Edges that validation finds apart have no point in common.
proof fn lemma_apart_segments(a: Vertex, b: Vertex, c: Vertex, d: Vertex)
    requires
        edges_apart(a, b, c, d),
    ensures
        segments_apart(a, b, c, d),
{
    if segments_cross(a, b, c, d) {
        lemma_cross_is_proper(a, b, c, d);
    }
    if on_segment(c, a, b) {
        lemma_on_segment_cases(c, a, b);
    }
    if on_segment(d, a, b) {
        lemma_on_segment_cases(d, a, b);
    }
    if on_segment(a, c, d) {
        lemma_on_segment_cases(a, c, d);
    }
    if on_segment(b, c, d) {
        lemma_on_segment_cases(b, c, d);
    }
}

/// A point between the end points of a segment, as the library's half-open
/// test decides it, lies on the closed segment.
proof fn lemma_between_on_segment(p: Vertex, a: Vertex, b: Vertex)
    requires
        between_spec(p, a, b),
    ensures
        on_segment(p, a, b),
{
    let dx: int = b.x - a.x;
    let dy: int = b.y - a.y;
    let t: int = p.x - a.x;
    let u: int = p.y - a.y;
    assert(orient(a, b, p) == dx * u - t * dy) by (nonlinear_arith)
        requires dx == b.x - a.x, dy == b.y - a.y, t == p.x - a.x, u == p.y - a.y;
    if a.x == b.x {
        assert(dy != 0);
        assert(t * dy == 0) by (nonlinear_arith)
            requires dx == 0, dx * u - t * dy == 0;
        assert(t == 0) by (nonlinear_arith)
            requires t * dy == 0, dy != 0;
    } else {
        assert(u * dx == t * dy) by (nonlinear_arith)
            requires dx * u - t * dy == 0;
        if dx > 0 {
            assert(0 <= t < dx);
            if dy >= 0 {
                assert(0 <= u <= dy) by (nonlinear_arith)
                    requires u * dx == t * dy, 0 <= t < dx, dy >= 0, dx > 0;
            } else {
                assert(dy <= u <= 0) by (nonlinear_arith)
                    requires u * dx == t * dy, 0 <= t < dx, dy < 0, dx > 0;
            }
        } else {
            assert(dx <= t < 0);
            if dy >= 0 {
                assert(0 <= u <= dy) by (nonlinear_arith)
                    requires u * dx == t * dy, dx <= t < 0, dy >= 0, dx < 0;
            } else {
                assert(dy <= u <= 0) by (nonlinear_arith)
                    requires u * dx == t * dy, dx <= t < 0, dy < 0, dx < 0;
            }
        }
    }
}

/// A point with the coordinates of an end point lies on the closed segment.
proof fn lemma_end_on_segment(p: Vertex, a: Vertex, b: Vertex)
    requires
        same_coords(a, p) || same_coords(b, p),
    ensures
        on_segment(p, a, b),
{
    if same_coords(a, p) {
        assert(orient(a, b, p) == 0) by (nonlinear_arith)
            requires p.x == a.x, p.y == a.y;
    } else {
        assert(orient(a, b, p) == 0) by (nonlinear_arith)
            requires p.x == b.x, p.y == b.y;
    }
}

/// A proper intersection is a crossing at a point inside both segments.
proof fn lemma_proper_is_cross(a: Vertex, b: Vertex, c: Vertex, d: Vertex)
    requires
        proper_intersects_spec(a, b, c, d),
    ensures
        segments_cross(a, b, c, d),
{
    let p = orient(a, b, c);
    let q = orient(a, b, d);
    let u = orient(c, d, a);
    let w = orient(c, d, b);
    assert(p * q < 0) by (nonlinear_arith)
        requires p != 0, q != 0, (p > 0) != (q > 0);
    assert(u * w < 0) by (nonlinear_arith)
        requires u != 0, w != 0, (u > 0) != (w > 0);
}

/// The segments meet, as the library's intersection test decides it, exactly
/// when they cross or an end point of one lies on the other, apart from
/// segments that share an end point.
proof fn lemma_intersects_meet(a: Vertex, b: Vertex, c: Vertex, d: Vertex)
    requires
        !connected_spec(a, b, c, d),
    ensures
        intersects_spec(a, b, c, d) <==> (segments_cross(a, b, c, d) || on_segment(c, a, b) || on_segment(
            d,
            a,
            b,
        ) || on_segment(a, c, d) || on_segment(b, c, d)),
{
    if proper_intersects_spec(a, b, c, d) {
        lemma_proper_is_cross(a, b, c, d);
    }
    if between_spec(c, a, b) {
        lemma_between_on_segment(c, a, b);
    }
    if between_spec(d, a, b) {
        lemma_between_on_segment(d, a, b);
    }
    if between_spec(a, c, d) {
        lemma_between_on_segment(a, c, d);
    }
    if between_spec(b, c, d) {
        lemma_between_on_segment(b, c, d);
    }
    if segments_cross(a, b, c, d) {
        lemma_cross_is_proper(a, b, c, d);
    }
    if on_segment(c, a, b) {
        lemma_on_segment_cases(c, a, b);
    }
    if on_segment(d, a, b) {
        lemma_on_segment_cases(d, a, b);
    }
    if on_segment(a, c, d) {
        lemma_on_segment_cases(a, c, d);
    }
    if on_segment(b, c, d) {
        lemma_on_segment_cases(b, c, d);
    }
}

/// The two segments share an end point (by coordinates).
pub open spec fn share_end(a: Vertex, b: Vertex, c: Vertex, d: Vertex) -> bool {
    same_coords(a, c) || same_coords(a, d) || same_coords(b, c) || same_coords(b, d)
}

/// The segment `ab` passes the diagonal's edge test exactly when every edge
/// of the polygon that shares no end point with it has no point in common
/// with it.
pub proof fn lemma_clear_iff_apart(s: Seq<Vertex>, a: Vertex, b: Vertex)
    ensures
        clear_of_edges(s, a, b) <==> forall|k: int|
            0 <= k < s.len() ==> share_end(#[trigger] s[k], s[next_index(s.len() as int, k)], a, b)
                || segments_apart(s[k], s[next_index(s.len() as int, k)], a, b),
{
    assert forall|k: int| 0 <= k < s.len() implies #[trigger] edge_clear(s, k, a, b) == (share_end(
        s[k],
        s[next_index(s.len() as int, k)],
        a,
        b,
    ) || segments_apart(s[k], s[next_index(s.len() as int, k)], a, b)) by {
        let c = s[k];
        let d = s[next_index(s.len() as int, k)];
        assert(share_end(c, d, a, b) == connected_spec(c, d, a, b));
        if !connected_spec(c, d, a, b) {
            lemma_intersects_meet(c, d, a, b);
            lemma_cross_symmetric(c, d, a, b);
        }
    }
    if clear_of_edges(s, a, b) {
        assert forall|k: int| 0 <= k < s.len() implies share_end(#[trigger] s[k], s[next_index(s.len() as int, k)], a, b)
            || segments_apart(s[k], s[next_index(s.len() as int, k)], a, b) by {
            assert(edge_clear(s, k, a, b));
        }
    }
    if forall|k: int|
        0 <= k < s.len() ==> share_end(#[trigger] s[k], s[next_index(s.len() as int, k)], a, b) || segments_apart(
            s[k],
            s[next_index(s.len() as int, k)],
            a,
            b,
        ) {
        assert forall|k: int| 0 <= k < s.len() implies #[trigger] edge_clear(s, k, a, b) by {
            assert(share_end(s[k], s[next_index(s.len() as int, k)], a, b) || segments_apart(
                s[k],
                s[next_index(s.len() as int, k)],
                a,
                b,
            ));
        }
    }
}

/// Validation finds two edges apart exactly when they have no point in
/// common.
proof fn lemma_apart_iff(a: Vertex, b: Vertex, c: Vertex, d: Vertex)
    ensures
        edges_apart(a, b, c, d) <==> segments_apart(a, b, c, d),
{
    if edges_apart(a, b, c, d) {
        lemma_apart_segments(a, b, c, d);
    }
    if segments_apart(a, b, c, d) {
        if same_coords(a, c) || same_coords(b, c) {
            lemma_end_on_segment(c, a, b);
        }
        if same_coords(a, d) || same_coords(b, d) {
            lemma_end_on_segment(d, a, b);
        }
        if same_coords(c, a) || same_coords(d, a) {
            lemma_end_on_segment(a, c, d);
        }
        if same_coords(c, b) || same_coords(d, b) {
            lemma_end_on_segment(b, c, d);
        }
        assert(!connected_spec(a, b, c, d));
        assert(!connected_spec(c, d, a, b));
        lemma_intersects_meet(a, b, c, d);
        lemma_intersects_meet(c, d, a, b);
        lemma_cross_symmetric(a, b, c, d);
    }
}

/// The `i`-th edge of `s`, counting around the cycle from position `m`.
pub open spec fn edge_from(s: Seq<Vertex>, m: int, i: int) -> (Vertex, Vertex) {
    let n = s.len() as int;
    (s[(m + i) % n], s[(m + i + 1) % n])
}

/// Edges that pass the edge test of validation have no point in common:
/// numbering the edges around the cycle from position `m`, the `i`-th edge
/// and every edge numbered from `i + 2` up to the second to last.
pub proof fn lemma_simple_edges_apart(s: Seq<Vertex>, m: int)
    requires
        edges_simple(s, m),
    ensures
        forall|i: int, j: int|
            0 <= i && i + 2 <= j <= s.len() - 2 ==> segments_apart(
                #[trigger] edge_from(s, m, i).0,
                edge_from(s, m, i).1,
                #[trigger] edge_from(s, m, j).0,
                edge_from(s, m, j).1,
            ),
{
    assert forall|i: int, j: int| 0 <= i && i + 2 <= j <= s.len() - 2 implies segments_apart(
        #[trigger] edge_from(s, m, i).0,
        edge_from(s, m, i).1,
        #[trigger] edge_from(s, m, j).0,
        edge_from(s, m, j).1,
    ) by {
        assert(edge_pair_apart(s, m, i, j));
        lemma_apart_segments(edge_from(s, m, i).0, edge_from(s, m, i).1, edge_from(s, m, j).0, edge_from(s, m, j).1);
    }
}

/// A polygon that passes validation has no two edges that meet among those
/// validation compares: numbering the edges around the cycle from the vertex
/// with the least identifier, the `i`-th edge and every edge numbered from
/// `i + 2` up to the second to last have no point in common.
pub proof fn lemma_valid_edges_apart(s: Seq<Vertex>)
    requires
        valid_polygon(s),
    ensures
        forall|i: int, j: int|
            0 <= i && i + 2 <= j <= s.len() - 2 ==> segments_apart(
                #[trigger] edge_from(s, min_id_position(s), i).0,
                edge_from(s, min_id_position(s), i).1,
                #[trigger] edge_from(s, min_id_position(s), j).0,
                edge_from(s, min_id_position(s), j).1,
            ),
{
    let m = min_id_position(s);
    assert(validation_error(s, m) is None);
    lemma_simple_edges_apart(s, m);
}

/// Every pair of edges that validation compares has no point in common:
/// numbering the edges around the cycle from position `m`, the `i`-th edge
/// and every edge numbered from `i + 2` up to the second to last.
pub open spec fn compared_edges_apart(s: Seq<Vertex>, m: int) -> bool {
    forall|i: int, j: int|
        0 <= i && i + 2 <= j <= s.len() - 2 ==> segments_apart(
            #[trigger] edge_from(s, m, i).0,
            edge_from(s, m, i).1,
            #[trigger] edge_from(s, m, j).0,
            edge_from(s, m, j).1,
        )
}

/// The edge test of validation passes exactly when the edges it compares
/// have no point in common.
pub proof fn lemma_simple_iff_apart(s: Seq<Vertex>, m: int)
    ensures
        edges_simple(s, m) <==> compared_edges_apart(s, m),
{
    if edges_simple(s, m) {
        lemma_simple_edges_apart(s, m);
    }
    if compared_edges_apart(s, m) {
        assert forall|i: int, j: int| 0 <= i && i + 2 <= j <= s.len() - 2 implies #[trigger] edge_pair_apart(
            s,
            m,
            i,
            j,
        ) by {
            let e = edge_from(s, m, i);
            let f = edge_from(s, m, j);
            assert(segments_apart(e.0, e.1, f.0, f.1));
            lemma_apart_iff(e.0, e.1, f.0, f.1);
        }
    }
}

/// Validation accepts a cycle exactly when it has at least three vertices,
/// the edges it compares (numbered from the vertex with the least
/// identifier) have no point in common, and its doubled signed area by the
/// shoelace formula is positive.
pub proof fn lemma_valid_iff(s: Seq<Vertex>)
    ensures
        valid_polygon(s) <==> (s.len() >= 3 && compared_edges_apart(s, min_id_position(s)) && shoelace(s) > 0),
{
    if s.len() > 0 {
        lemma_fan_is_shoelace(s);
        lemma_simple_iff_apart(s, min_id_position(s));
    }
}

} // verus!
