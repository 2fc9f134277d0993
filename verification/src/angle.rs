//! Exact comparison of angles between integer vectors, and the ordering of
//! a polygon's vertices by the angle they make with a reference direction.

use vstd::prelude::*;

use crate::geometry::{first_min, is_first_min, lemma_first_min_unique, VertexOrder};
use crate::line_segment::LineSegment;
use crate::polygon::Polygon;
use crate::sorting::{asymmetric, lemma_sorted_unique, same_elements, sorted_by};
use crate::vertex::{Vertex, VertexId};

verus! {

/// The sign of `x`: `1`, `0` or `-1`.
pub open spec fn sign(x: int) -> int {
    if x > 0 {
        1
    } else if x < 0 {
        -1
    } else {
        0
    }
}

/// The absolute value of `x`.
pub open spec fn abs(x: int) -> int {
    if x < 0 {
        -x
    } else {
        x
    }
}

/// Bound on the absolute value of each factor handed to `product_sign`.
pub open spec fn factor_bound() -> int {
    0x4_0000_0000_0000_0000
}

/// `x * y` as `hi * 2^64 + lo` with `lo < 2^64`.
fn wide_mul(x: u128, y: u128) -> (r: (u128, u128))
    requires
        x < factor_bound(),
        y < factor_bound(),
    ensures
        r.1 < 0x1_0000_0000_0000_0000,
        r.0 * 0x1_0000_0000_0000_0000 + r.1 == x * y,
{
    let k: u128 = 0x1_0000_0000_0000_0000;
    let xh = x / k;
    let xl = x % k;
    let yh = y / k;
    let yl = y % k;
    assert(xh < 4 && yh < 4 && xl < k && yl < k);
    assert(xl * yl < k * k) by (nonlinear_arith)
        requires
            xl < k,
            yl < k,
            k == 0x1_0000_0000_0000_0000u128,
    ;
    let low = xl * yl;
    assert(xh * yh <= 9) by (nonlinear_arith)
        requires
            xh < 4,
            yh < 4,
    ;
    assert(xh * yl < 4 * k && xl * yh < 4 * k) by (nonlinear_arith)
        requires
            xh < 4,
            yh < 4,
            xl < k,
            yl < k,
    ;
    let hi = xh * yh * k + xh * yl + xl * yh + low / k;
    let lo = low % k;
    assert(hi * k + lo == x * y) by (nonlinear_arith)
        requires
            x == xh * k + xl,
            y == yh * k + yl,
            low == xl * yl,
            low == (low / k) * k + lo,
            hi == xh * yh * k + xh * yl + xl * yh + low / k,
    ;
    (hi, lo)
}

/// The sign of `x * y - z * t` for non-negative factors.
fn unsigned_product_sign(x: u128, y: u128, z: u128, t: u128) -> (r: i8)
    requires
        x < factor_bound(),
        y < factor_bound(),
        z < factor_bound(),
        t < factor_bound(),
    ensures
        r as int == sign(x * y - z * t),
{
    let (ph, pl) = wide_mul(x, y);
    let (qh, ql) = wide_mul(z, t);
    proof {
        let k: int = 0x1_0000_0000_0000_0000;
        assert(ph < qh ==> ph * k + pl < qh * k + ql) by (nonlinear_arith)
            requires
                pl < k,
                ql >= 0,
                k > 0,
        ;
        assert(qh < ph ==> qh * k + ql < ph * k + pl) by (nonlinear_arith)
            requires
                ql < k,
                pl >= 0,
                k > 0,
        ;
    }
    if ph < qh {
        -1
    } else if ph > qh {
        1
    } else if pl < ql {
        -1
    } else if pl > ql {
        1
    } else {
        0
    }
}

proof fn lemma_product_sign(a: int, b: int)
    ensures
        sign(a * b) == sign(a) * sign(b),
        a * b == abs(a) * abs(b) * (sign(a) * sign(b)),
{
    assert(sign(a * b) == sign(a) * sign(b)) by (nonlinear_arith);
    assert(a * b == abs(a) * abs(b) * (sign(a) * sign(b))) by (nonlinear_arith);
}

fn sign_of(a: i128) -> (r: i8)
    ensures
        r as int == sign(a as int),
{
    if a > 0 {
        1
    } else if a < 0 {
        -1
    } else {
        0
    }
}

fn magnitude(a: i128) -> (r: u128)
    requires
        -factor_bound() < a < factor_bound(),
    ensures
        r as int == abs(a as int),
        r < factor_bound(),
{
    if a < 0 {
        (-a) as u128
    } else {
        a as u128
    }
}

fn sign_product(s: i8, t: i8) -> (r: i8)
    requires
        -1 <= s <= 1,
        -1 <= t <= 1,
    ensures
        r as int == s * t,
{
    assert(s * t == (if s == 0 || t == 0 { 0 } else if s == t { 1 } else { -1 })) by (nonlinear_arith)
        requires
            -1 <= s <= 1,
            -1 <= t <= 1,
    ;
    if s == 0 || t == 0 {
        0
    } else if s == t {
        1
    } else {
        -1
    }
}

/// The sign of `a * b - c * e`, computed exactly although the products may
/// exceed 128 bits.
pub fn product_sign(a: i128, b: i128, c: i128, e: i128) -> (r: i8)
    requires
        -factor_bound() < a < factor_bound(),
        -factor_bound() < b < factor_bound(),
        -factor_bound() < c < factor_bound(),
        -factor_bound() < e < factor_bound(),
    ensures
        r as int == sign(a * b - c * e),
{
    let sp = sign_product(sign_of(a), sign_of(b));
    let sq = sign_product(sign_of(c), sign_of(e));
    proof {
        lemma_product_sign(a as int, b as int);
        lemma_product_sign(c as int, e as int);
    }
    if sp != sq {
        if sp > sq {
            1
        } else {
            -1
        }
    } else if sp == 0 {
        0
    } else {
        let m = unsigned_product_sign(magnitude(a), magnitude(b), magnitude(c), magnitude(e));
        proof {
            let ma = abs(a as int);
            let mb = abs(b as int);
            let mc = abs(c as int);
            let me = abs(e as int);
            assert(a * b - c * e == (ma * mb - mc * me) * sp) by (nonlinear_arith)
                requires
                    a * b == ma * mb * sp,
                    c * e == mc * me * sq,
                    sp == sq,
            ;
        }
        if sp > 0 {
            m
        } else {
            -m
        }
    }
}

/// The vector from `a` to `b`.
pub open spec fn offset(a: Vertex, b: Vertex) -> (int, int) {
    (b.x - a.x, b.y - a.y)
}

/// The integer view of a vector of the executable code.
pub open spec fn vw(v: (i64, i64)) -> (int, int) {
    (v.0 as int, v.1 as int)
}

/// Both components of `v` are at most `2^32` in absolute value, as those of
/// any difference of two vertices are.
pub open spec fn small(v: (int, int)) -> bool {
    -0x1_0000_0000 <= v.0 <= 0x1_0000_0000 && -0x1_0000_0000 <= v.1 <= 0x1_0000_0000
}

pub open spec fn dot2(d: (int, int), w: (int, int)) -> int {
    d.0 * w.0 + d.1 * w.1
}

pub open spec fn cross2(d: (int, int), w: (int, int)) -> int {
    d.0 * w.1 - d.1 * w.0
}

/// The square of the distance from `a` to `b`.
pub open spec fn sq_dist(a: Vertex, b: Vertex) -> int {
    (b.x - a.x) * (b.x - a.x) + (b.y - a.y) * (b.y - a.y)
}

/// Where the unsigned angle `θ ∈ [0, π]` between `d` and `w` lies: `0` when
/// `w` points along `d` (`θ = 0`), `1` when `0 < θ < π`, `2` when `w` points
/// against `d` (`θ = π`), and `3` when the angle is undefined because one of
/// the vectors is zero.
pub open spec fn angle_class(d: (int, int), w: (int, int)) -> int {
    if (d.0 == 0 && d.1 == 0) || (w.0 == 0 && w.1 == 0) {
        3
    } else if cross2(d, w) == 0 {
        if dot2(d, w) > 0 {
            0
        } else {
            2
        }
    } else {
        1
    }
}

/// The angle between `d` and `u` is smaller than the angle between `d` and
/// `w`; an undefined angle counts as larger than every defined one. Strictly
/// between `0` and `π` the angle is decided by its cotangent
/// `dot / |cross|`, which decreases strictly with the angle.
pub open spec fn angle_before(d: (int, int), u: (int, int), w: (int, int)) -> bool {
    let cu = angle_class(d, u);
    let cw = angle_class(d, w);
    cu < cw || (cu == 1 && cw == 1 && dot2(d, u) * abs(cross2(d, w)) > dot2(d, w) * abs(cross2(d, u)))
}

/// `u` and `w` make the same angle with `d` (or both have none).
pub open spec fn angle_same(d: (int, int), u: (int, int), w: (int, int)) -> bool {
    !angle_before(d, u, w) && !angle_before(d, w, u)
}

proof fn lemma_ratio(nu: int, cu: int, nv: int, cv: int, nw: int, cw: int)
    requires
        cu > 0,
        cv > 0,
        cw > 0,
    ensures
        nu * cv >= nv * cu && nv * cw >= nw * cv ==> nu * cw >= nw * cu,
        nu * cv > nv * cu && nv * cw >= nw * cv ==> nu * cw > nw * cu,
        nu * cv >= nv * cu && nv * cw > nw * cv ==> nu * cw > nw * cu,
{
    let a = nu * cv - nv * cu;
    let b = nv * cw - nw * cv;
    let c = nu * cw - nw * cu;
    assert(a * cw + b * cu == c * cv) by (nonlinear_arith)
        requires
            a == nu * cv - nv * cu,
            b == nv * cw - nw * cv,
            c == nu * cw - nw * cu,
    ;
    assert(a >= 0 && b >= 0 ==> a * cw + b * cu >= 0) by (nonlinear_arith)
        requires
            cu > 0,
            cw > 0,
    ;
    assert((a > 0 && b >= 0) || (a >= 0 && b > 0) ==> a * cw + b * cu > 0) by (nonlinear_arith)
        requires
            cu > 0,
            cw > 0,
    ;
    assert(c * cv >= 0 ==> c >= 0) by (nonlinear_arith)
        requires
            cv > 0,
    ;
    assert(c * cv > 0 ==> c > 0) by (nonlinear_arith)
        requires
            cv > 0,
    ;
}

/// The angle order is a strict weak order: irreflexive, and "not after" is
/// transitive.
pub proof fn lemma_angle_order(d: (int, int), u: (int, int), v: (int, int), w: (int, int))
    ensures
        !angle_before(d, u, u),
        angle_before(d, u, v) ==> !angle_before(d, v, u),
        !angle_before(d, v, u) && !angle_before(d, w, v) ==> !angle_before(d, w, u),
        angle_before(d, u, v) && angle_before(d, v, w) ==> angle_before(d, u, w),
{
    let cu = abs(cross2(d, u));
    let cv = abs(cross2(d, v));
    let cw = abs(cross2(d, w));
    if angle_class(d, u) == 1 && angle_class(d, v) == 1 && angle_class(d, w) == 1 {
        lemma_ratio(dot2(d, u), cu, dot2(d, v), cv, dot2(d, w), cw);
    }
}

proof fn lemma_regroup(a: int, b: int, c: int, e: int)
    ensures
        (a * b) * (c * e) == (a * c) * (b * e),
{
    assert((a * b) * (c * e) == (a * c) * (b * e)) by (nonlinear_arith);
}

proof fn lemma_expand(p: int, q: int, r: int, t: int)
    ensures
        (p + q) * (r - t) == p * r - p * t + q * r - q * t,
{
    assert((p + q) * (r - t) == p * r - p * t + q * r - q * t) by (nonlinear_arith);
}

proof fn lemma_expand2(p: int, q: int, r: int, t: int)
    ensures
        (p - q) * (r + t) == p * r + p * t - q * r - q * t,
{
    assert((p - q) * (r + t) == p * r + p * t - q * r - q * t) by (nonlinear_arith);
}

/// When `u` and `y` both lie left of or on the direction `d`, and the angle
/// between `d` and `y` is not smaller than the angle between `d` and `u`,
/// then `y` lies left of or on `u`: the vector of least angle supports all
/// the others.
pub proof fn lemma_least_angle_supports(d: (int, int), u: (int, int), y: (int, int))
    requires
        !(d.0 == 0 && d.1 == 0),
        !(u.0 == 0 && u.1 == 0),
        cross2(d, u) >= 0,
        cross2(d, y) >= 0,
        !angle_before(d, y, u),
    ensures
        cross2(u, y) >= 0,
{
    let nd = d.0 * d.0 + d.1 * d.1;
    let (d0, d1) = d;
    let (u0, u1) = u;
    let (y0, y1) = y;
    assert(nd * cross2(u, y) == dot2(d, u) * cross2(d, y) - cross2(d, u) * dot2(d, y)) by {
        lemma_expand(d0 * u0, d1 * u1, d0 * y1, d1 * y0);
        lemma_expand2(d0 * u1, d1 * u0, d0 * y0, d1 * y1);
        lemma_expand(d0 * d0, d1 * d1, u0 * y1, u1 * y0);
        lemma_regroup(d0, u0, d0, y1);
        lemma_regroup(d0, u0, d1, y0);
        lemma_regroup(d1, u1, d0, y1);
        lemma_regroup(d1, u1, d1, y0);
        lemma_regroup(d0, u1, d0, y0);
        lemma_regroup(d0, u1, d1, y1);
        lemma_regroup(d1, u0, d0, y0);
        lemma_regroup(d1, u0, d1, y1);
        lemma_regroup(d0, u1, d0, y0);
        assert(d1 * d0 == d0 * d1) by (nonlinear_arith);
        assert((d0 * d0) * (u0 * y1) == (d0 * d0) * (u0 * y1));
    }
    assert(nd > 0) by (nonlinear_arith)
        requires
            !(d.0 == 0 && d.1 == 0),
            nd == d.0 * d.0 + d.1 * d.1,
    ;
    let x = cross2(u, y);
    let rhs = dot2(d, u) * cross2(d, y) - cross2(d, u) * dot2(d, y);
    if y.0 == 0 && y.1 == 0 {
        assert(x == 0);
    } else {
        let cu = angle_class(d, u);
        let cy = angle_class(d, y);
        if cu == 0 {
            assert(rhs >= 0) by (nonlinear_arith)
                requires
                    cross2(d, u) == 0,
                    dot2(d, u) > 0,
                    cross2(d, y) >= 0,
                    rhs == dot2(d, u) * cross2(d, y) - cross2(d, u) * dot2(d, y),
            ;
        } else if cu == 1 {
            if cy == 1 {
                assert(rhs >= 0) by (nonlinear_arith)
                    requires
                        cross2(d, u) > 0,
                        cross2(d, y) > 0,
                        !(dot2(d, y) * cross2(d, u) > dot2(d, u) * cross2(d, y)),
                        rhs == dot2(d, u) * cross2(d, y) - cross2(d, u) * dot2(d, y),
                ;
            } else {
                assert(cy == 2);
                assert(rhs >= 0) by (nonlinear_arith)
                    requires
                        cross2(d, u) > 0,
                        cross2(d, y) == 0,
                        dot2(d, y) <= 0,
                        rhs == dot2(d, u) * cross2(d, y) - cross2(d, u) * dot2(d, y),
                ;
            }
        } else {
            assert(cu == 2 && cy == 2);
            assert(rhs == 0) by (nonlinear_arith)
                requires
                    cross2(d, u) == 0,
                    cross2(d, y) == 0,
                    rhs == dot2(d, u) * cross2(d, y) - cross2(d, u) * dot2(d, y),
            ;
        }
        assert(x >= 0) by (nonlinear_arith)
            requires
                nd > 0,
                nd * x == rhs,
                rhs >= 0,
        ;
    }
}

/// The vector from `a` to `b`.
pub fn offset_of(a: &Vertex, b: &Vertex) -> (r: (i64, i64))
    ensures
        vw(r) == offset(*a, *b),
        small(vw(r)),
{
    (b.x as i64 - a.x as i64, b.y as i64 - a.y as i64)
}

proof fn lemma_small_products(d: (int, int), w: (int, int))
    requires
        small(d),
        small(w),
    ensures
        -0x2_0000_0000_0000_0000 <= dot2(d, w) <= 0x2_0000_0000_0000_0000,
        -0x2_0000_0000_0000_0000 <= cross2(d, w) <= 0x2_0000_0000_0000_0000,
{
    let k: int = 0x1_0000_0000;
    assert(-k * k <= d.0 * w.0 <= k * k) by (nonlinear_arith)
        requires
            -k <= d.0 <= k,
            -k <= w.0 <= k,
    ;
    assert(-k * k <= d.1 * w.1 <= k * k) by (nonlinear_arith)
        requires
            -k <= d.1 <= k,
            -k <= w.1 <= k,
    ;
    assert(-k * k <= d.0 * w.1 <= k * k) by (nonlinear_arith)
        requires
            -k <= d.0 <= k,
            -k <= w.1 <= k,
    ;
    assert(-k * k <= d.1 * w.0 <= k * k) by (nonlinear_arith)
        requires
            -k <= d.1 <= k,
            -k <= w.0 <= k,
    ;
}

fn dot_of(d: (i64, i64), w: (i64, i64)) -> (r: i128)
    requires
        small(vw(d)),
        small(vw(w)),
    ensures
        r as int == dot2(vw(d), vw(w)),
        -0x2_0000_0000_0000_0000 <= r <= 0x2_0000_0000_0000_0000,
{
    proof {
        lemma_small_products(vw(d), vw(w));
    }
    let k: i128 = 0x1_0000_0000;
    assert(-k * k <= d.0 as i128 * w.0 as i128 <= k * k) by (nonlinear_arith)
        requires
            -k <= d.0 <= k,
            -k <= w.0 <= k,
    ;
    assert(-k * k <= d.1 as i128 * w.1 as i128 <= k * k) by (nonlinear_arith)
        requires
            -k <= d.1 <= k,
            -k <= w.1 <= k,
    ;
    d.0 as i128 * w.0 as i128 + d.1 as i128 * w.1 as i128
}

fn cross_of(d: (i64, i64), w: (i64, i64)) -> (r: i128)
    requires
        small(vw(d)),
        small(vw(w)),
    ensures
        r as int == cross2(vw(d), vw(w)),
        -0x2_0000_0000_0000_0000 <= r <= 0x2_0000_0000_0000_0000,
{
    proof {
        lemma_small_products(vw(d), vw(w));
    }
    let k: i128 = 0x1_0000_0000;
    assert(-k * k <= d.0 as i128 * w.1 as i128 <= k * k) by (nonlinear_arith)
        requires
            -k <= d.0 <= k,
            -k <= w.1 <= k,
    ;
    assert(-k * k <= d.1 as i128 * w.0 as i128 <= k * k) by (nonlinear_arith)
        requires
            -k <= d.1 <= k,
            -k <= w.0 <= k,
    ;
    d.0 as i128 * w.1 as i128 - d.1 as i128 * w.0 as i128
}

fn class_of(d: (i64, i64), w: (i64, i64)) -> (r: u8)
    requires
        small(vw(d)),
        small(vw(w)),
    ensures
        r as int == angle_class(vw(d), vw(w)),
{
    if (d.0 == 0 && d.1 == 0) || (w.0 == 0 && w.1 == 0) {
        3
    } else if cross_of(d, w) == 0 {
        if dot_of(d, w) > 0 {
            0
        } else {
            2
        }
    } else {
        1
    }
}

/// Whether the angle between `d` and `u` is smaller than the angle between
/// `d` and `w`.
pub fn angle_precedes(d: (i64, i64), u: (i64, i64), w: (i64, i64)) -> (r: bool)
    requires
        small(vw(d)),
        small(vw(u)),
        small(vw(w)),
    ensures
        r == angle_before(vw(d), vw(u), vw(w)),
{
    let cu = class_of(d, u);
    let cw = class_of(d, w);
    if cu != cw {
        return cu < cw;
    }
    if cu != 1 {
        return false;
    }
    let nu = dot_of(d, u);
    let nw = dot_of(d, w);
    let xu = cross_of(d, u);
    let xw = cross_of(d, w);
    let au = if xu < 0 {
        -xu
    } else {
        xu
    };
    let aw = if xw < 0 {
        -xw
    } else {
        xw
    };
    product_sign(nu, aw, nw, au) > 0
}

/// The square of the distance from `a` to `b`.
fn sq_dist_of(a: &Vertex, b: &Vertex) -> (r: i128)
    ensures
        r as int == sq_dist(*a, *b),
{
    let v = offset_of(a, b);
    proof {
        lemma_small_products(vw(v), vw(v));
    }
    dot_of(v, v)
}

/// Orders positions of `t` by the angle their vertices make at `apex` with
/// the direction `d`, ties broken by decreasing distance from `base`, then
/// by position: the order of a stable sort by (angle, distance descending).
pub open spec fn angle_index_less(t: Seq<Vertex>, d: (int, int), apex: Vertex, base: Vertex) -> spec_fn(
    int,
    int,
) -> bool {
    |i: int, j: int|
        {
            let u = offset(apex, t[i]);
            let w = offset(apex, t[j]);
            let di = sq_dist(base, t[i]);
            let dj = sq_dist(base, t[j]);
            angle_before(d, u, w) || (angle_same(d, u, w) && (di > dj || (di == dj && i < j)))
        }
}

proof fn lemma_index_less(t: Seq<Vertex>, d: (int, int), apex: Vertex, base: Vertex, i: int, j: int, k: int)
    ensures
        !(angle_index_less(t, d, apex, base))(i, i),
        (angle_index_less(t, d, apex, base))(i, j) ==> !(angle_index_less(t, d, apex, base))(j, i),
        i != j ==> (angle_index_less(t, d, apex, base))(i, j) || (angle_index_less(t, d, apex, base))(j, i),
        (angle_index_less(t, d, apex, base))(i, j) && (angle_index_less(t, d, apex, base))(j, k) ==> (
        angle_index_less(t, d, apex, base))(i, k),
{
    let u = offset(apex, t[i]);
    let v = offset(apex, t[j]);
    let w = offset(apex, t[k]);
    lemma_angle_order(d, u, v, w);
    lemma_angle_order(d, u, w, v);
    lemma_angle_order(d, v, u, w);
    lemma_angle_order(d, v, w, u);
    lemma_angle_order(d, w, u, v);
    lemma_angle_order(d, w, v, u);
}

/// The positions of `t` in the order `angle_index_less`.
pub open spec fn angle_sort_positions(t: Seq<Vertex>, d: (int, int), apex: Vertex, base: Vertex) -> Seq<int> {
    choose|q: Seq<int>|
        sorted_by(q, angle_index_less(t, d, apex, base)) && same_elements(q, Seq::new(t.len(), |i: int| i))
}

/// Whether position `i` of `t` comes before position `j > i` in the order
/// `angle_index_less`.
fn index_precedes(t: &Vec<Vertex>, d: (i64, i64), apex: &Vertex, base: &Vertex, i: usize, j: usize) -> (r: bool)
    requires
        small(vw(d)),
        i < j < t.len(),
    ensures
        r == (angle_index_less(t@, vw(d), *apex, *base))(i as int, j as int),
{
    let u = offset_of(apex, &t[i]);
    let w = offset_of(apex, &t[j]);
    if angle_precedes(d, u, w) {
        true
    } else if angle_precedes(d, w, u) {
        false
    } else {
        sq_dist_of(base, &t[i]) >= sq_dist_of(base, &t[j])
    }
}

/// The positions of `t` in the order of a stable sort by the angle at
/// `apex` with `d`, farthest from `base` first among equal angles.
fn angle_sort(t: &Vec<Vertex>, d: (i64, i64), apex: &Vertex, base: &Vertex) -> (r: Vec<usize>)
    requires
        small(vw(d)),
    ensures
        r@.map_values(|i: usize| i as int) == angle_sort_positions(t@, vw(d), *apex, *base),
        sorted_by(r@.map_values(|i: usize| i as int), angle_index_less(t@, vw(d), *apex, *base)),
        same_elements(r@.map_values(|i: usize| i as int), Seq::new(t@.len(), |i: int| i)),
        forall|k: int| 0 <= k < r@.len() ==> #[trigger] r@[k] < t@.len(),
        r@.len() == t@.len(),
{
    let ghost s = t@;
    let ghost less = angle_index_less(s, vw(d), *apex, *base);
    let mut out: Vec<usize> = Vec::new();
    let mut k: usize = 0;
    while k < t.len()
        invariant
            s == t@,
            small(vw(d)),
            less == angle_index_less(s, vw(d), *apex, *base),
            0 <= k <= t.len(),
            sorted_by(out@.map_values(|i: usize| i as int), less),
            same_elements(out@.map_values(|i: usize| i as int), Seq::new(k as nat, |i: int| i)),
            forall|q: int| 0 <= q < out@.len() ==> #[trigger] out@[q] < k,
        decreases t.len() - k,
    {
        let mut p: usize = 0;
        while p < out.len() && index_precedes(t, d, apex, base, out[p], k)
            invariant
                s == t@,
                small(vw(d)),
                less == angle_index_less(s, vw(d), *apex, *base),
                0 <= p <= out.len(),
                k < t.len(),
                forall|q: int| 0 <= q < out@.len() ==> #[trigger] out@[q] < k,
                forall|q: int| 0 <= q < p ==> (less)(#[trigger] out@[q] as int, k as int),
            decreases out.len() - p,
        {
            p = p + 1;
        }
        let ghost before = out@.map_values(|i: usize| i as int);
        let ghost old_out = out@;
        out.insert(p, k);
        let ghost after = out@.map_values(|i: usize| i as int);
        proof {
            assert(after =~= before.insert(p as int, k as int));
            if p < old_out.len() {
                assert(!(less)(old_out[p as int] as int, k as int));
                lemma_index_less(s, vw(d), *apex, *base, k as int, old_out[p as int] as int, 0);
                assert((less)(k as int, before[p as int]));
            }
            assert forall|i: int, j: int| 0 <= i < j < after.len() implies (less)(after[i], after[j]) by {
                if j < p {
                } else if j == p {
                    assert(after[i] == before[i]);
                    assert(after[i] == old_out[i] as int);
                } else if i == p {
                    assert(after[j] == before[j - 1]);
                    let q = j - 1;
                    if q != p as int {
                        assert((less)(before[p as int], before[q]));
                        lemma_index_less(s, vw(d), *apex, *base, k as int, before[p as int], before[q]);
                    }
                } else if i < p {
                    assert(after[i] == before[i] && after[j] == before[j - 1]);
                } else {
                    assert(after[i] == before[i - 1] && after[j] == before[j - 1]);
                }
            }
            let np = Seq::new((k + 1) as nat, |i: int| i);
            let op = Seq::new(k as nat, |i: int| i);
            assert forall|x: int| after.contains(x) <==> np.contains(x) by {
                if after.contains(x) {
                    let i = choose|i: int| 0 <= i < after.len() && after[i] == x;
                    if i == p {
                        assert(np[k as int] == x);
                    } else {
                        let i2 = if i < p {
                            i
                        } else {
                            i - 1
                        };
                        assert(before[i2] == x);
                        assert(before.contains(x));
                        assert(op.contains(x));
                        assert(np[x] == x);
                    }
                }
                if np.contains(x) {
                    if x == k {
                        assert(after[p as int] == x);
                    } else {
                        assert(op[x] == x);
                        assert(op.contains(x));
                        assert(before.contains(x));
                        let i = choose|i: int| 0 <= i < before.len() && before[i] == x;
                        if i < p {
                            assert(after[i] == x);
                        } else {
                            assert(after[i + 1] == x);
                        }
                    }
                }
            }
            assert forall|q: int| 0 <= q < out@.len() implies #[trigger] out@[q] < k + 1 by {
                if q < p {
                    assert(out@[q] == old_out[q]);
                } else if q > p {
                    assert(out@[q] == old_out[q - 1]);
                }
            }
        }
        k = k + 1;
    }
    proof {
        let q = out@.map_values(|i: usize| i as int);
        let full = Seq::new(s.len(), |i: int| i);
        assert(Seq::new(k as nat, |i: int| i) =~= full);
        assert(sorted_by(angle_sort_positions(s, vw(d), *apex, *base), less) && same_elements(
            angle_sort_positions(s, vw(d), *apex, *base),
            full,
        ));
        assert forall|x: int, y: int| !(#[trigger] less(x, y) && #[trigger] less(y, x)) by {
            lemma_index_less(s, vw(d), *apex, *base, x, y, 0);
        }
        assert(asymmetric(less));
        lemma_sorted_unique(q, angle_sort_positions(s, vw(d), *apex, *base), less);
        assert(Seq::new(k as nat, |i: int| i) =~= Seq::new(t@.len(), |i: int| i));
    }
    out
}

/// The vertices of `s` whose identifier is not `id`, in order.
pub open spec fn others(s: Seq<Vertex>, id: VertexId) -> Seq<Vertex>
    decreases s.len(),
{
    if s.len() == 0 {
        s
    } else {
        let p = others(s.drop_last(), id);
        if s.last().id != id {
            p.push(s.last())
        } else {
            p
        }
    }
}

/// `u` with every vertex removed that makes the same (defined) angle at
/// `apex` with `d` as the vertex just before it.
pub open spec fn dedup_angles(u: Seq<Vertex>, d: (int, int), apex: Vertex) -> Seq<Vertex>
    decreases u.len(),
{
    if u.len() == 0 {
        u
    } else {
        let p = dedup_angles(u.drop_last(), d, apex);
        let w = offset(apex, u.last());
        if u.len() >= 2 && angle_class(d, w) != 3 && angle_same(d, offset(apex, u[u.len() - 2]), w) {
            p
        } else {
            p.push(u.last())
        }
    }
}

/// `t` rearranged by the angle at `apex` with `d`, farthest from `base`
/// first among equal angles, and otherwise in its own order.
pub open spec fn angle_sorted(t: Seq<Vertex>, d: (int, int), apex: Vertex, base: Vertex) -> Seq<Vertex> {
    let q = angle_sort_positions(t, d, apex, base);
    Seq::new(q.len(), |k: int| t[q[k]])
}

/// The order of `rightmost_lowest_vertex`.
pub open spec fn rightmost_lowest_order() -> VertexOrder {
    VertexOrder { x_first: false, first_desc: false, second_desc: true }
}

/// The vertex from which distances are measured: `v0`, by default the
/// rightmost lowest vertex of `s`.
pub open spec fn angle_base(s: Seq<Vertex>, v0: Option<Vertex>) -> Vertex {
    match v0 {
        Some(v) => v,
        None => first_min(s, rightmost_lowest_order()),
    }
}

/// The reference direction: that of `e0`, by default the positive `x`
/// direction.
pub open spec fn angle_direction(e0: Option<LineSegment>) -> (int, int) {
    match e0 {
        Some(e) => offset(e.v1, e.v2),
        None => (1, 0),
    }
}

/// The vertex at which angles are measured: the end of `e0`, by default
/// `base`.
pub open spec fn angle_apex(e0: Option<LineSegment>, base: Vertex) -> Vertex {
    match e0 {
        Some(e) => e.v2,
        None => base,
    }
}

/// The vertices of `s` other than the base, by increasing angle that they
/// make at the apex with the reference direction (undefined angles last),
/// farthest from the base first among equal angles, keeping only the first
/// of each run of equal defined angles.
pub open spec fn min_angle_sorted_spec(s: Seq<Vertex>, v0: Option<Vertex>, e0: Option<LineSegment>) -> Seq<
    Vertex,
> {
    let base = angle_base(s, v0);
    let d = angle_direction(e0);
    let apex = angle_apex(e0, base);
    dedup_angles(angle_sorted(others(s, base.id), d, apex, base), d, apex)
}

impl Polygon {
    /// The vertices other than `v0` (by default the rightmost lowest vertex)
    /// sorted by the angle they make at the end of `e0` with the direction of
    /// `e0` (by default the positive `x` direction at `v0`), the farthest from
    /// `v0` first among equal angles, and only the first of each group of
    /// equal angles kept. Where one of the two vectors is zero the angle is
    /// undefined: such vertices come last, never merged.
    pub fn min_angle_sorted_vertices(&self, v0: Option<Vertex>, e0: Option<LineSegment>) -> (r: Vec<Vertex>)
        requires
            self@.len() > 0,
        ensures
            r@ == min_angle_sorted_spec(self@, v0, e0),
            forall|k: int| 0 <= k < r@.len() ==> self@.contains(#[trigger] r@[k]),
            forall|k: int| 0 <= k < r@.len() ==> (#[trigger] r@[k]).id != angle_base(self@, v0).id,
            r@.len() > 0 ==> forall|k: int|
                0 <= k < self@.len() && self@[k].id != angle_base(self@, v0).id ==> !angle_before(
                    angle_direction(e0),
                    offset(angle_apex(e0, angle_base(self@, v0)), #[trigger] self@[k]),
                    offset(angle_apex(e0, angle_base(self@, v0)), r@[0]),
                ),
    {
        let base = match v0 {
            Some(v) => v,
            None => self.rightmost_lowest_vertex(),
        };
        proof {
            if v0 is None {
                let i = choose|i: int|
                    is_first_min(self@, i, rightmost_lowest_order()) && base == self@[i];
                let j = choose|j: int| is_first_min(self@, j, rightmost_lowest_order());
                lemma_first_min_unique(self@, i, j, rightmost_lowest_order());
            }
            assert(base == angle_base(self@, v0));
        }
        let (d, apex) = match e0 {
            Some(e) => (offset_of(&e.v1, &e.v2), e.v2),
            None => ((1i64, 0i64), base),
        };
        assert(vw(d) == angle_direction(e0) && apex == angle_apex(e0, base));
        let all = self.vertices();
        let mut rest: Vec<Vertex> = Vec::new();
        let mut k: usize = 0;
        while k < all.len()
            invariant
                0 <= k <= all.len(),
                all@ == self@,
                rest@ == others(all@.subrange(0, k as int), base.id),
                forall|q: int| 0 <= q < rest@.len() ==> self@.contains(#[trigger] rest@[q]),
                forall|q: int| 0 <= q < rest@.len() ==> (#[trigger] rest@[q]).id != base.id,
                forall|j: int| 0 <= j < k && all@[j].id != base.id ==> rest@.contains(#[trigger] all@[j]),
            decreases all.len() - k,
        {
            assert(all@.subrange(0, k + 1).drop_last() =~= all@.subrange(0, k as int));
            if all[k].id != base.id {
                let ghost r0 = rest@;
                rest.push(all[k]);
                proof {
                    assert(self@[k as int] == all[k as int]);
                    assert forall|q: int| 0 <= q < rest@.len() implies self@.contains(#[trigger] rest@[q]) by {
                        if q < r0.len() {
                            assert(rest@[q] == r0[q]);
                        } else {
                            assert(self@[k as int] == rest@[q]);
                        }
                    }
                    assert forall|j: int| 0 <= j < k + 1 && all@[j].id != base.id implies rest@.contains(
                        #[trigger] all@[j],
                    ) by {
                        if j < k {
                            assert(r0.contains(all@[j]));
                            let q = choose|q: int| 0 <= q < r0.len() && r0[q] == all@[j];
                            assert(rest@[q] == all@[j]);
                        } else {
                            assert(rest@[r0.len() as int] == all@[j]);
                        }
                    }
                }
            }
            k = k + 1;
        }
        assert(all@.subrange(0, all.len() as int) =~= all@);
        let order = angle_sort(&rest, d, &apex, &base);
        proof {
            if rest@.len() > 0 {
                let qs = order@.map_values(|i: usize| i as int);
                let less = angle_index_less(rest@, vw(d), apex, base);
                let w = rest@[qs[0]];
                assert forall|k: int| 0 <= k < self@.len() && self@[k].id != base.id implies !angle_before(
                    vw(d),
                    offset(apex, #[trigger] self@[k]),
                    offset(apex, w),
                ) by {
                    assert(all@[k] == self@[k]);
                    assert(rest@.contains(all@[k]));
                    let i = choose|i: int| 0 <= i < rest@.len() && rest@[i] == all@[k];
                    assert(Seq::new(rest@.len(), |i: int| i).contains(i)) by {
                        assert(Seq::new(rest@.len(), |i: int| i)[i] == i);
                    }
                    assert(qs.contains(i));
                    let j = choose|j: int| 0 <= j < qs.len() && qs[j] == i;
                    lemma_angle_order(vw(d), offset(apex, rest@[i]), offset(apex, w), offset(apex, w));
                    if j > 0 {
                        assert((less)(qs[0], qs[j]));
                    }
                }
            }
        }
        let ghost sorted = angle_sorted(rest@, vw(d), apex, base);
        let mut out: Vec<Vertex> = Vec::new();
        let mut m: usize = 0;
        while m < order.len()
            invariant
                0 <= m <= order.len(),
                small(vw(d)),
                order@.len() == rest@.len(),
                forall|q: int| 0 <= q < order@.len() ==> #[trigger] order@[q] < rest@.len(),
                sorted == angle_sorted(rest@, vw(d), apex, base),
                order@.map_values(|i: usize| i as int) == angle_sort_positions(rest@, vw(d), apex, base),
                out@ == dedup_angles(sorted.subrange(0, m as int), vw(d), apex),
                forall|q: int| 0 <= q < rest@.len() ==> self@.contains(#[trigger] rest@[q]),
                forall|q: int| 0 <= q < out@.len() ==> self@.contains(#[trigger] out@[q]),
                forall|q: int| 0 <= q < rest@.len() ==> (#[trigger] rest@[q]).id != base.id,
                forall|q: int| 0 <= q < out@.len() ==> (#[trigger] out@[q]).id != base.id,
                m > 0 ==> out@.len() > 0 && out@[0] == rest@[order@[0] as int],
                m == 0 ==> out@.len() == 0,
            decreases order.len() - m,
        {
            let v = rest[order[m]];
            proof {
                assert(sorted[m as int] == v);
                assert(sorted.subrange(0, m + 1).drop_last() =~= sorted.subrange(0, m as int));
            }
            let w = offset_of(&apex, &v);
            let keep = if m == 0 {
                true
            } else {
                let prev = rest[order[m - 1]];
                let u = offset_of(&apex, &prev);
                proof {
                    assert(sorted[m - 1] == prev);
                }
                class_of(d, w) == 3 || angle_precedes(d, u, w) || angle_precedes(d, w, u)
            };
            if keep {
                let ghost o0 = out@;
                out.push(v);
                proof {
                    assert(self@.contains(rest@[order@[m as int] as int]));
                    assert forall|q: int| 0 <= q < out@.len() implies self@.contains(#[trigger] out@[q]) by {
                        if q < o0.len() {
                            assert(out@[q] == o0[q]);
                        }
                    }
                    assert forall|q: int| 0 <= q < out@.len() implies (#[trigger] out@[q]).id != base.id by {
                        if q < o0.len() {
                            assert(out@[q] == o0[q]);
                        }
                    }
                    if m > 0 {
                        assert(out@[0] == o0[0]);
                    }
                }
            }
            m = m + 1;
        }
        assert(sorted.subrange(0, order.len() as int) =~= sorted);
        out
    }
}

} // verus!
