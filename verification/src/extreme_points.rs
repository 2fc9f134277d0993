//! Extreme points: the vertices that lie in no triangle of three other
//! vertices, and what the hull algorithms keep of them.

use vstd::prelude::*;

use crate::area::{fan_partial, fan_term};
use crate::convex_hull::{
    all_but, exterior_ids, interior_at, interior_ids_upto, interior_witness, last_farthest,
    lemma_last_farthest, lemma_quickhull_step_weight, line_distance, quickhull_ids,
    quickhull_result, quickhull_start, sides_weight, strictly_right, HullSide,
};
use crate::geometry::{first_min, is_first_min, key_less, VertexOrder};
use crate::polygon::{distinct_ids, valid_polygon, validation_error};
use crate::triangle::{contains_spec, lemma_repeated_vertex_collinear};
use crate::vertex::{left_on_of, orient, same_coords, Vertex, VertexId};

verus! {

/// Turning the three points around keeps the orientation; swapping two of
/// them negates it.
proof fn lemma_orient_turns(a: Vertex, b: Vertex, c: Vertex)
    ensures
        orient(a, b, c) == orient(b, c, a),
        orient(a, b, c) == orient(c, a, b),
        orient(a, b, c) == -orient(b, a, c),
        orient(a, b, c) == -orient(a, c, b),
        orient(a, b, c) == -orient(c, b, a),
{
    assert(orient(a, b, c) == orient(b, c, a)) by (nonlinear_arith);
    assert(orient(a, b, c) == orient(c, a, b)) by (nonlinear_arith);
    assert(orient(a, b, c) == -orient(b, a, c)) by (nonlinear_arith);
    assert(orient(a, b, c) == -orient(a, c, b)) by (nonlinear_arith);
    assert(orient(a, b, c) == -orient(c, b, a)) by (nonlinear_arith);
}

/// Two vectors parallel to a third one that is not zero are parallel.
proof fn lemma_parallel(dx: int, dy: int, ex: int, ey: int, fx: int, fy: int)
    requires
        dx * ey - dy * ex == 0,
        dx * fy - dy * fx == 0,
        dx != 0 || dy != 0,
    ensures
        ex * fy - ey * fx == 0,
{
    assert(dx * (ex * fy - ey * fx) == ex * (dx * fy - dy * fx) - fx * (dx * ey - dy * ex)) by (nonlinear_arith);
    assert(dy * (ex * fy - ey * fx) == ey * (dx * fy - dy * fx) - fy * (dx * ey - dy * ex)) by (nonlinear_arith);
    let g: int = ex * fy - ey * fx;
    let de: int = dx * ey - dy * ex;
    let df: int = dx * fy - dy * fx;
    assert(ex * df == 0 && fx * de == 0 && ey * df == 0 && fy * de == 0) by (nonlinear_arith)
        requires de == 0, df == 0;
    assert(g == 0) by (nonlinear_arith)
        requires dx * g == 0, dy * g == 0, dx != 0 || dy != 0;
}

/// Three points on the line through two points apart are collinear.
proof fn lemma_three_on_line(y: Vertex, x: Vertex, p: Vertex, q: Vertex, r: Vertex)
    requires
        !same_coords(y, x),
        orient(y, x, p) == 0,
        orient(y, x, q) == 0,
        orient(y, x, r) == 0,
    ensures
        orient(p, q, r) == 0,
{
    let dx: int = x.x - y.x;
    let dy: int = x.y - y.y;
    assert(orient(y, x, p) == dx * (p.y - y.y) - (p.x - y.x) * dy) by (nonlinear_arith)
        requires dx == x.x - y.x, dy == x.y - y.y;
    assert(orient(y, x, q) == dx * (q.y - y.y) - (q.x - y.x) * dy) by (nonlinear_arith)
        requires dx == x.x - y.x, dy == x.y - y.y;
    assert(orient(y, x, r) == dx * (r.y - y.y) - (r.x - y.x) * dy) by (nonlinear_arith)
        requires dx == x.x - y.x, dy == x.y - y.y;
    let ex: int = q.x - p.x;
    let ey: int = q.y - p.y;
    let fx: int = r.x - p.x;
    let fy: int = r.y - p.y;
    assert(dx * ey - dy * ex == (dx * (q.y - y.y) - (q.x - y.x) * dy) - (dx * (p.y - y.y) - (p.x - y.x) * dy))
        by (nonlinear_arith)
        requires ex == q.x - p.x, ey == q.y - p.y;
    assert(dx * fy - dy * fx == (dx * (r.y - y.y) - (r.x - y.x) * dy) - (dx * (p.y - y.y) - (p.x - y.x) * dy))
        by (nonlinear_arith)
        requires fx == r.x - p.x, fy == r.y - p.y;
    lemma_parallel(dx, dy, ex, ey, fx, fy);
    assert(orient(p, q, r) == ex * fy - fx * ey) by (nonlinear_arith)
        requires ex == q.x - p.x, ey == q.y - p.y, fx == r.x - p.x, fy == r.y - p.y;
}

/// A point `v` on the line from `y` to `x`, between them in `x`, lies in
/// the triangle `y, x, z` when `z` is left of that line.
proof fn lemma_between(y: Vertex, x: Vertex, z: Vertex, v: Vertex)
    requires
        y.x < x.x,
        y.x <= v.x <= x.x,
        orient(y, x, v) == 0,
        orient(y, x, z) > 0,
    ensures
        contains_spec(y, x, z, v),
{
    // Around `x`: `g` is `orient(x, z, v)`.
    let a: int = y.x - x.x;
    let b: int = y.y - x.y;
    let p: int = z.x - x.x;
    let q: int = z.y - x.y;
    let r: int = v.x - x.x;
    let t: int = v.y - x.y;
    ring_two(a, b, r, t);
    ring_three(a, b, p, q, r, t);
    assert(orient(x, z, v) == p * t - r * q);
    assert(orient(x, z, y) == p * b - a * q);
    assert(orient(y, x, v) == (-a) * (t - b) - (r - a) * (-b));
    let g: int = p * t - r * q;
    let gy: int = p * b - a * q;
    lemma_orient_turns(y, x, z);
    assert(gy > 0);
    assert(g >= 0) by (nonlinear_arith)
        requires (-a) * g == (-r) * gy + p * 0, -a > 0, -r >= 0, gy > 0;
    // Around `y`: `h` is `orient(z, y, v)`.
    let aa: int = x.x - y.x;
    let bb: int = x.y - y.y;
    let pp: int = z.x - y.x;
    let qq: int = z.y - y.y;
    let rr: int = v.x - y.x;
    let tt: int = v.y - y.y;
    ring_two(pp, qq, rr, tt);
    ring_two(pp, qq, aa, bb);
    ring_four(aa, bb, pp, qq, rr, tt);
    assert(orient(z, y, v) == (-pp) * (tt - qq) - (rr - pp) * (-qq));
    assert(orient(z, y, x) == (-pp) * (bb - qq) - (aa - pp) * (-qq));
    assert(orient(y, x, v) == aa * tt - rr * bb);
    let h: int = rr * qq - pp * tt;
    let hx: int = aa * qq - pp * bb;
    lemma_orient_turns(z, y, x);
    assert(hx > 0);
    assert(h >= 0) by (nonlinear_arith)
        requires aa * h == rr * hx + (-pp) * 0, aa > 0, rr >= 0, hx > 0;
    lemma_orient_turns(y, x, v);
}

proof fn ring_two(a: int, b: int, r: int, t: int)
    by (nonlinear_arith)
    ensures
        (-a) * (t - b) - (r - a) * (-b) == r * b - a * t,
{
}

proof fn ring_three(a: int, b: int, p: int, q: int, r: int, t: int)
    ensures
        (-a) * (p * t - r * q) == (-r) * (p * b - a * q) + p * (r * b - a * t),
{
    ring_four(-a, -b, -p, -q, -r, -t);
    assert((-a) * ((-r) * (-q) - (-p) * (-t)) == (-a) * (r * q - p * t)) by (nonlinear_arith);
    assert((-r) * ((-a) * (-q) - (-p) * (-b)) == (-r) * (a * q - p * b)) by (nonlinear_arith);
    assert((-(-p)) * ((-a) * (-t) - (-r) * (-b)) == p * (a * t - r * b)) by (nonlinear_arith);
    assert((-a) * (r * q - p * t) == -((-a) * (p * t - r * q))) by (nonlinear_arith);
    assert((-r) * (a * q - p * b) == -((-r) * (p * b - a * q))) by (nonlinear_arith);
    assert(p * (a * t - r * b) == -(p * (r * b - a * t))) by (nonlinear_arith);
}

proof fn ring_four(a: int, b: int, p: int, q: int, r: int, t: int)
    ensures
        a * (r * q - p * t) == r * (a * q - p * b) + (-p) * (a * t - r * b),
{
    assert(a * (r * q - p * t) == a * (r * q) - a * (p * t)) by (nonlinear_arith);
    assert(r * (a * q - p * b) == r * (a * q) - r * (p * b)) by (nonlinear_arith);
    assert((-p) * (a * t - r * b) == p * (r * b) - p * (a * t)) by (nonlinear_arith);
    assert(a * (r * q) == r * (a * q)) by (nonlinear_arith);
    assert(a * (p * t) == p * (a * t)) by (nonlinear_arith);
    assert(r * (p * b) == p * (r * b)) by (nonlinear_arith);
}

/// The facts that make a side as `side_ok` says.
proof fn lemma_side_ok_intro(s: Seq<Vertex>, a: Vertex, b: Vertex, pts: Seq<Vertex>, w: Vertex)
    requires
        s.contains(a),
        s.contains(b),
        forall|v: Vertex| #[trigger] pts.contains(v) ==> s.contains(v) && v != a && v != b && left_on_of(b, a, v),
        pts.contains(w),
        orient(b, a, w) > 0,
    ensures
        side_ok(s, (a, b, pts)),
{
    let side: HullSide = (a, b, pts);
    assert(side.0 == a && side.1 == b && side.2 == pts);
    assert(side.2.contains(w) && orient(side.1, side.0, w) > 0);
}

/// A cycle whose fan triangles are all flat has no area.
proof fn lemma_fan_flat(s: Seq<Vertex>, k: nat)
    requires
        k <= s.len(),
        forall|j: int| 0 <= j < k ==> #[trigger] fan_term(s, j) == 0,
    ensures
        fan_partial(s, k) == 0,
    decreases k,
{
    if k > 0 {
        lemma_fan_flat(s, (k - 1) as nat);
    }
}

/// A polygon with all its vertices on one line is not valid.
proof fn lemma_flat_not_valid(s: Seq<Vertex>, y: Vertex, x: Vertex)
    requires
        s.len() > 0,
        !same_coords(y, x),
        forall|p: int| 0 <= p < s.len() ==> orient(y, x, #[trigger] s[p]) == 0,
    ensures
        !valid_polygon(s),
{
    let n = s.len() as int;
    assert forall|j: int| 0 <= j < n implies #[trigger] fan_term(s, j) == 0 by {
        crate::area::lemma_mod_wrap(j + 1, n);
        lemma_three_on_line(y, x, s[0], s[j], s[(j + 1) % n]);
    }
    lemma_fan_flat(s, n as nat);
}

/// A polygon with all its vertices at one `x` is not valid.
proof fn lemma_vertical_not_valid(s: Seq<Vertex>, c: int)
    requires
        s.len() > 0,
        forall|p: int| 0 <= p < s.len() ==> #[trigger] s[p].x == c,
    ensures
        !valid_polygon(s),
{
    let n = s.len() as int;
    assert forall|j: int| 0 <= j < n implies #[trigger] fan_term(s, j) == 0 by {
        crate::area::lemma_mod_wrap(j + 1, n);
        let a = s[0];
        let b = s[j];
        let e = s[(j + 1) % n];
        assert(orient(a, b, e) == 0) by (nonlinear_arith)
            requires a.x == c, b.x == c, e.x == c;
    }
    lemma_fan_flat(s, n as nat);
}

/// What a filter keeps: the elements that pass it.
proof fn lemma_in_filter(s: Seq<Vertex>, f: spec_fn(Vertex) -> bool, v: Vertex)
    ensures
        s.filter(f).contains(v) <==> (s.contains(v) && f(v)),
{
    if s.filter(f).contains(v) {
        let i = choose|i: int| 0 <= i < s.filter(f).len() && s.filter(f)[i] == v;
        s.lemma_filter_pred(f, i);
        s.lemma_filter_contains_rev(f, v);
    }
    if s.contains(v) && f(v) {
        let j = choose|j: int| 0 <= j < s.len() && s[j] == v;
        s.lemma_filter_contains(f, j);
    }
}

/// A side QuickHull still has to search, as it stands in the search on
/// `s`: its ends are vertices of `s`; its vertices are vertices of `s`
/// other than the ends, left of or on the edge taken backwards, and at
/// least one of them strictly left.
pub open spec fn side_ok(s: Seq<Vertex>, side: HullSide) -> bool {
    let (a, b, pts) = side;
    &&& s.contains(a)
    &&& s.contains(b)
    &&& forall|v: Vertex| #[trigger] pts.contains(v) ==> s.contains(v) && v != a && v != b && left_on_of(b, a, v)
    &&& exists|v: Vertex| #[trigger] pts.contains(v) && orient(b, a, v) > 0
}

/// Every vertex of `s` is collected in `ids`, waits in a side of `st`, or
/// lies in a triangle of three other vertices.
pub open spec fn qh_covered(s: Seq<Vertex>, st: Seq<HullSide>, ids: Set<VertexId>) -> bool {
    forall|p: int|
        #![trigger s[p]]
        0 <= p < s.len() ==> ids.contains(s[p].id) || interior_at(s, p) || exists|k: int|
            0 <= k < st.len() && (#[trigger] st[k].2).contains(s[p])
}

/// The vertex `v` lies in the triangle `a, c, b` of vertices of `s` other
/// than itself.
proof fn lemma_interior_by(s: Seq<Vertex>, p: int, a: Vertex, c: Vertex, b: Vertex)
    requires
        0 <= p < s.len(),
        s.contains(a),
        s.contains(b),
        s.contains(c),
        s[p] != a,
        s[p] != b,
        s[p] != c,
        a != b,
        a != c,
        b != c,
        contains_spec(a, c, b, s[p]),
    ensures
        interior_at(s, p),
{
    let pa = choose|j: int| 0 <= j < s.len() && s[j] == a;
    let pb = choose|j: int| 0 <= j < s.len() && s[j] == b;
    let pc = choose|j: int| 0 <= j < s.len() && s[j] == c;
    assert(interior_witness(s, p, pa, pc, pb));
}

/// The vertices of `pts` strictly right of the edge from `u` to `w` form a
/// side as `side_ok` says, when there are any.
proof fn lemma_split_side(s: Seq<Vertex>, pts: Seq<Vertex>, u: Vertex, w: Vertex)
    requires
        s.contains(u),
        s.contains(w),
        forall|v: Vertex| #[trigger] pts.contains(v) ==> s.contains(v),
    ensures
        strictly_right(pts, u, w).len() > 0 ==> side_ok(s, (u, w, strictly_right(pts, u, w))),
{
    let q = strictly_right(pts, u, w);
    if q.len() > 0 {
        assert forall|v: Vertex| #[trigger] q.contains(v) implies s.contains(v) && v != u && v != w && left_on_of(
            w,
            u,
            v,
        ) by {
            lemma_in_filter(pts, |x: Vertex| !left_on_of(u, w, x), v);
            lemma_repeated_vertex_collinear(u, w);
            lemma_repeated_vertex_collinear(w, u);
            lemma_orient_turns(u, w, v);
        }
        assert(q.contains(q[0]));
        lemma_in_filter(pts, |x: Vertex| !left_on_of(u, w, x), q[0]);
        lemma_orient_turns(u, w, q[0]);
        assert(q.contains(q[0]) && orient(w, u, q[0]) > 0);
        let side: HullSide = (u, w, q);
        assert(side.0 == u && side.1 == w && side.2 == q);
        assert(side_ok(s, side));
    }
}

/// QuickHull collects every vertex that is not in a triangle of three
/// others, as long as each pending side is as `side_ok` says and every
/// vertex is accounted for.
proof fn lemma_quickhull_covers(s: Seq<Vertex>, st: Seq<HullSide>, ids: Set<VertexId>)
    requires
        forall|k: int| 0 <= k < st.len() ==> side_ok(s, #[trigger] st[k]),
        qh_covered(s, st, ids),
    ensures
        forall|p: int| 0 <= p < s.len() ==> quickhull_ids(st, ids).contains(#[trigger] s[p].id) || interior_at(s, p),
    decreases sides_weight(st),
{
    if st.len() == 0 {
        assert forall|p: int| 0 <= p < s.len() implies quickhull_ids(st, ids).contains(#[trigger] s[p].id)
            || interior_at(s, p) by {
            assert(s[p] == s[p]);
        }
    } else {
        let (a, b, pts) = st.last();
        let rest = st.drop_last();
        assert(side_ok(s, st[st.len() - 1]));
        if pts.len() == 0 {
            let v = choose|v: Vertex| #[trigger] pts.contains(v) && orient(b, a, v) > 0;
            assert(false);
        } else {
            lemma_last_farthest(pts, a, b, 0);
            let i = last_farthest(pts, a, b);
            let c = pts[i];
            let p1 = strictly_right(pts, a, c);
            let p2 = strictly_right(pts, c, b);
            let st1 = if p1.len() > 0 {
                rest.push((a, c, p1))
            } else {
                rest
            };
            let st2 = if p2.len() > 0 {
                st1.push((c, b, p2))
            } else {
                st1
            };
            let ids2 = ids.insert(c.id);
            lemma_quickhull_step_weight(st, i);
            assert(quickhull_ids(st, ids) == quickhull_ids(st2, ids2));
            // The new corner is strictly off the edge.
            assert(pts.contains(c));
            let w = choose|v: Vertex| #[trigger] pts.contains(v) && orient(b, a, v) > 0;
            let jw = choose|j: int| 0 <= j < pts.len() && pts[j] == w;
            assert(line_distance(a, b, pts[jw]) <= line_distance(a, b, c));
            lemma_orient_turns(a, b, w);
            lemma_orient_turns(a, b, c);
            assert(orient(b, a, c) > 0);
            lemma_orient_turns(b, a, c);
            if a == b {
                lemma_repeated_vertex_collinear(a, c);
            }
            assert(a != b);
            // The sides that stay or are added are as `side_ok` says.
            assert(s.contains(a) && s.contains(b) && s.contains(c));
            lemma_split_side(s, pts, a, c);
            lemma_split_side(s, pts, c, b);
            assert forall|k: int| 0 <= k < st2.len() implies side_ok(s, #[trigger] st2[k]) by {
                if k < rest.len() {
                    assert(st2[k] == st[k]);
                } else if p1.len() > 0 && k == rest.len() {
                    assert(st2[k] == (a, c, p1));
                } else {
                    assert(st2[k] == (c, b, p2));
                }
            }
            // Every vertex stays accounted for.
            assert forall|p: int| #![trigger s[p]] 0 <= p < s.len() implies ids2.contains(s[p].id) || interior_at(s, p)
                || exists|k: int| 0 <= k < st2.len() && (#[trigger] st2[k].2).contains(s[p]) by {
                if ids.contains(s[p].id) || interior_at(s, p) {
                } else {
                    let k = choose|k: int| 0 <= k < st.len() && (#[trigger] st[k].2).contains(s[p]);
                    if k < rest.len() {
                        assert(st2[k] == st[k]);
                    } else {
                        let v = s[p];
                        assert(pts.contains(v));
                        lemma_in_filter(pts, |u: Vertex| !left_on_of(a, c, u), v);
                        lemma_in_filter(pts, |u: Vertex| !left_on_of(c, b, u), v);
                        if v == c {
                        } else if !left_on_of(a, c, v) {
                            assert(st2[rest.len() as int] == (a, c, p1));
                        } else if !left_on_of(c, b, v) {
                            assert(st2[st2.len() - 1] == (c, b, p2));
                        } else {
                            lemma_interior_by(s, p, a, c, b);
                        }
                    }
                }
            }
            lemma_quickhull_covers(s, st2, ids2);
        }
    }
}

/// Every nonempty sequence has a first least vertex in each order.
proof fn lemma_first_min_exists(s: Seq<Vertex>, o: VertexOrder, k: nat)
    requires
        0 < k <= s.len(),
    ensures
        exists|i: int| is_first_min(s.subrange(0, k as int), i, o),
    decreases k,
{
    let t = s.subrange(0, k as int);
    if k == 1 {
        assert(is_first_min(t, 0, o));
    } else {
        lemma_first_min_exists(s, o, (k - 1) as nat);
        let u = s.subrange(0, k - 1);
        let i = choose|i: int| is_first_min(u, i, o);
        assert forall|j: int| 0 <= j < k - 1 implies t[j] == u[j] by {}
        if key_less(s[k - 1], s[i], o) {
            assert forall|j: int| 0 <= j < k - 1 implies key_less(t[k - 1], #[trigger] t[j], o) by {
                assert(t[j] == u[j]);
                if j > i {
                    assert(!key_less(u[j], u[i], o));
                } else if j < i {
                    assert(key_less(u[i], u[j], o));
                }
            }
            assert(is_first_min(t, k - 1, o));
        } else {
            assert forall|j: int| 0 <= j < i implies key_less(t[i], #[trigger] t[j], o) by {
                assert(t[j] == u[j]);
            }
            assert forall|j: int| i < j < t.len() implies !key_less(#[trigger] t[j], t[i], o) by {
                if j < k - 1 {
                    assert(t[j] == u[j]);
                }
            }
            assert(is_first_min(t, i, o));
        }
    }
}

/// The identifiers that `exterior_ids` lists belong to vertices that lie in
/// no triangle of three others.
proof fn lemma_exterior_member(s: Seq<Vertex>, k: nat)
    requires
        k <= s.len(),
    ensures
        forall|q: int|
            0 <= q < interior_ids_upto(s, k, false).len() ==> exists|p: int|
                0 <= p < k && s[p].id == #[trigger] interior_ids_upto(s, k, false)[q] && !interior_at(s, p),
    decreases k,
{
    if k > 0 {
        lemma_exterior_member(s, (k - 1) as nat);
        let prev = interior_ids_upto(s, (k - 1) as nat, false);
        let cur = interior_ids_upto(s, k, false);
        assert forall|q: int| 0 <= q < cur.len() implies exists|p: int|
            0 <= p < k && s[p].id == #[trigger] cur[q] && !interior_at(s, p) by {
            if q < prev.len() {
                assert(cur[q] == prev[q]);
                let p = choose|p: int| 0 <= p < k - 1 && s[p].id == #[trigger] prev[q] && !interior_at(s, p);
                assert(0 <= p < k && s[p].id == cur[q] && !interior_at(s, p));
            } else {
                assert(cur[q] == s[k - 1].id);
                assert(0 <= k - 1 < k && s[k - 1].id == cur[q] && !interior_at(s, k - 1));
            }
        }
    }
}

/// QuickHull keeps every extreme point of a valid polygon: every vertex
/// that lies in no triangle of three other vertices is among the vertices
/// it collects.
pub proof fn lemma_quickhull_keeps_extreme_points(s: Seq<Vertex>)
    requires
        distinct_ids(s),
        valid_polygon(s),
    ensures
        exterior_ids(s).to_set().subset_of(quickhull_result(s)),
{
    let n = s.len() as int;
    assert(n >= 3) by {
        assert(validation_error(s, crate::polygon::min_id_position(s)) is None);
    }
    let ox = VertexOrder { x_first: true, first_desc: true, second_desc: false };
    let oy = VertexOrder { x_first: true, first_desc: false, second_desc: true };
    lemma_first_min_exists(s, ox, n as nat);
    lemma_first_min_exists(s, oy, n as nat);
    assert(s.subrange(0, n) =~= s);
    let ix = choose|i: int| is_first_min(s, i, ox);
    let iy = choose|i: int| is_first_min(s, i, oy);
    let x = s[ix];
    let y = s[iy];
    assert(x == first_min(s, ox) && y == first_min(s, oy));
    assert(s.contains(x) && s.contains(y));
    assert forall|p: int| 0 <= p < n implies y.x <= #[trigger] s[p].x <= x.x by {
        if p < ix {
            assert(key_less(s[ix], s[p], ox));
        } else if p > ix {
            assert(!key_less(s[p], s[ix], ox));
        }
        if p < iy {
            assert(key_less(s[iy], s[p], oy));
        } else if p > iy {
            assert(!key_less(s[p], s[iy], oy));
        }
    }
    if y.x == x.x {
        lemma_vertical_not_valid(s, x.x as int);
    }
    assert(!same_coords(y, x));
    let rest = all_but(s, x.id, y.id);
    let fr = |v: Vertex| !left_on_of(x, y, v);
    let fl = |v: Vertex| left_on_of(x, y, v);
    let fa = |v: Vertex| v.id != x.id && v.id != y.id;
    let s1 = strictly_right(rest, x, y);
    let s2 = rest.filter(fl);
    let ids0 = set![x.id, y.id];
    assert forall|v: Vertex| #[trigger] s1.contains(v) implies s.contains(v) && v != x && v != y && orient(y, x, v)
        > 0 by {
        lemma_in_filter(rest, fr, v);
        lemma_in_filter(s, fa, v);
        lemma_orient_turns(x, y, v);
    }
    assert forall|v: Vertex| #[trigger] s2.contains(v) implies s.contains(v) && v != x && v != y && left_on_of(
        x,
        y,
        v,
    ) by {
        lemma_in_filter(rest, fl, v);
        lemma_in_filter(s, fa, v);
    }
    // Every vertex is one of the two ends or waits on one side.
    assert forall|p: int| 0 <= p < n implies ids0.contains(#[trigger] s[p].id) || s1.contains(s[p]) || s2.contains(
        s[p],
    ) by {
        if !ids0.contains(s[p].id) {
            assert(s.contains(s[p]));
            lemma_in_filter(s, fa, s[p]);
            lemma_in_filter(rest, fr, s[p]);
            lemma_in_filter(rest, fl, s[p]);
        }
    }
    lemma_repeated_vertex_collinear(y, x);
    if s2.len() > 0 && forall|v: Vertex| #[trigger] s2.contains(v) ==> orient(x, y, v) == 0 {
        // Every vertex on the upper side lies on the segment between the ends.
        if s1.len() == 0 {
            lemma_repeated_vertex_collinear(x, y);
            assert forall|p: int| 0 <= p < n implies orient(y, x, #[trigger] s[p]) == 0 by {
                lemma_orient_turns(x, y, s[p]);
                if s[p].id == x.id {
                    assert(p == ix);
                } else if s[p].id == y.id {
                    assert(p == iy);
                } else {
                    assert(s2.contains(s[p]));
                }
            }
            lemma_flat_not_valid(s, y, x);
        }
        let z = s1[0];
        assert(s1.contains(z));
        let st = quickhull_start(s);
        assert(st == seq![(x, y, s1), (y, x, s2)]);
        lemma_last_farthest(s2, y, x, 0);
        let i = last_farthest(s2, y, x);
        let c = s2[i];
        assert(s2.contains(c));
        lemma_orient_turns(x, y, c);
        let p1 = strictly_right(s2, y, c);
        let p2 = strictly_right(s2, c, x);
        assert(p1.len() == 0) by {
            if p1.len() > 0 {
                assert(p1.contains(p1[0]));
                lemma_in_filter(s2, |u: Vertex| !left_on_of(y, c, u), p1[0]);
                lemma_orient_turns(x, y, p1[0]);
                lemma_three_on_line(y, x, y, c, p1[0]);
            }
        }
        assert(p2.len() == 0) by {
            if p2.len() > 0 {
                assert(p2.contains(p2[0]));
                lemma_in_filter(s2, |u: Vertex| !left_on_of(c, x, u), p2[0]);
                lemma_orient_turns(x, y, p2[0]);
                lemma_three_on_line(y, x, c, x, p2[0]);
            }
        }
        let st1: Seq<HullSide> = seq![(x, y, s1)];
        assert(st.drop_last() == st1);
        let ids1 = ids0.insert(c.id);
        assert(quickhull_result(s) == quickhull_ids(st, ids0));
        assert(quickhull_ids(st, ids0) == quickhull_ids(st1, ids1));
        assert(s1.contains(s1[0]));
        assert(orient(y, x, s1[0]) > 0);
        lemma_side_ok_intro(s, x, y, s1, s1[0]);
        assert(side_ok(s, st1[0]));
        assert forall|p: int| #![trigger s[p]] 0 <= p < n implies ids1.contains(s[p].id) || interior_at(s, p)
            || exists|k: int| 0 <= k < st1.len() && (#[trigger] st1[k].2).contains(s[p]) by {
            if ids0.contains(s[p].id) {
            } else if s1.contains(s[p]) {
                assert(st1[0].2.contains(s[p]));
            } else if s[p] == c {
            } else {
                let v = s[p];
                assert(s2.contains(v));
                lemma_orient_turns(x, y, v);
                lemma_between(y, x, z, v);
                lemma_interior_by(s, p, y, x, z);
            }
        }
        lemma_quickhull_covers(s, st1, ids1);
    } else {
        let st = quickhull_start(s);
        let st1: Seq<HullSide> = if s1.len() > 0 {
            seq![(x, y, s1)]
        } else {
            Seq::empty()
        };
        assert(st == (if s2.len() > 0 {
            st1.push((y, x, s2))
        } else {
            st1
        }));
        if s2.len() > 0 {
            let w = choose|v: Vertex| #[trigger] s2.contains(v) && !(orient(x, y, v) == 0);
            assert(s2.contains(w));
            assert(left_on_of(x, y, w));
            assert(orient(x, y, w) > 0);
            lemma_side_ok_intro(s, y, x, s2, w);
        }
        if s1.len() > 0 {
            assert(s1.contains(s1[0]));
            assert(orient(y, x, s1[0]) > 0);
            lemma_side_ok_intro(s, x, y, s1, s1[0]);
        }
        assert forall|k: int| 0 <= k < st.len() implies side_ok(s, #[trigger] st[k]) by {
            if s1.len() > 0 && k == 0 {
                assert(st[k] == (x, y, s1));
            } else {
                assert(st[k] == (y, x, s2));
            }
        }
        assert forall|p: int| #![trigger s[p]] 0 <= p < n implies ids0.contains(s[p].id) || interior_at(s, p)
            || exists|k: int| 0 <= k < st.len() && (#[trigger] st[k].2).contains(s[p]) by {
            if ids0.contains(s[p].id) {
            } else if s1.contains(s[p]) {
                assert(st[0].2.contains(s[p]));
            } else {
                assert(st[st.len() - 1].2.contains(s[p]));
            }
        }
        lemma_quickhull_covers(s, st, ids0);
    }
    // The identifiers listed as exterior are collected.
    lemma_exterior_member(s, n as nat);
    assert forall|id: VertexId| exterior_ids(s).to_set().contains(id) implies quickhull_result(s).contains(id) by {
        let q = choose|q: int| 0 <= q < exterior_ids(s).len() && exterior_ids(s)[q] == id;
        let p = choose|p: int| 0 <= p < n && s[p].id == #[trigger] interior_ids_upto(s, n as nat, false)[q]
            && !interior_at(s, p);
        assert(s[p] == s[p]);
    }
}

} // verus!
