//! Signed area of vertex cycles: the fan sum that the library computes, the
//! shoelace sum, and the identities that relate them.

use vstd::prelude::*;

use crate::vertex::{orient, Vertex};

verus! {

/// The cross product of the position vectors of `a` and `b`.
pub open spec fn cross(a: Vertex, b: Vertex) -> int {
    a.x * b.y - a.y * b.x
}

/// The `j`-th term of the shoelace sum of the cycle `s`.
pub open spec fn shoelace_term(s: Seq<Vertex>, j: int) -> int {
    cross(s[j], s[(j + 1) % (s.len() as int)])
}

/// Sum of the first `k` shoelace terms of the cycle `s`.
pub open spec fn shoelace_partial(s: Seq<Vertex>, k: nat) -> int
    decreases k,
{
    if k == 0 {
        0
    } else {
        shoelace_partial(s, (k - 1) as nat) + shoelace_term(s, k - 1)
    }
}

/// Twice the signed area of the cycle `s` by the shoelace formula.
pub open spec fn shoelace(s: Seq<Vertex>) -> int {
    shoelace_partial(s, s.len())
}

/// The `j`-th fan triangle of `s`, anchored at `s[0]`: twice the signed area
/// of the triangle `s[0], s[j], s[j + 1]` (indices taken around the cycle).
pub open spec fn fan_term(s: Seq<Vertex>, j: int) -> int {
    orient(s[0], s[j], s[(j + 1) % (s.len() as int)])
}

pub open spec fn fan_partial(s: Seq<Vertex>, k: nat) -> int
    decreases k,
{
    if k == 0 {
        0
    } else {
        fan_partial(s, (k - 1) as nat) + fan_term(s, k - 1)
    }
}

/// Twice the signed area of the cycle `s`, as the sum of the triangles of
/// the fan anchored at its first vertex.
pub open spec fn fan_double_area(s: Seq<Vertex>) -> int {
    fan_partial(s, s.len())
}

/// The cycle `s` rotated left by `k`: it starts at `s[k]`.
pub open spec fn rotate(s: Seq<Vertex>, k: int) -> Seq<Vertex> {
    s.subrange(k, s.len() as int) + s.subrange(0, k)
}

/// Reduction modulo `n` of a number in `[0, 2n)`.
pub proof fn lemma_mod_wrap(x: int, n: int)
    requires
        0 < n,
        0 <= x < 2 * n,
    ensures
        x % n == (if x < n {
            x
        } else {
            x - n
        }),
{
    if x < n {
        vstd::arithmetic::div_mod::lemma_fundamental_div_mod_converse(x, n, 0, x);
    } else {
        vstd::arithmetic::div_mod::lemma_fundamental_div_mod_converse(x, n, 1, x - n);
    }
}

proof fn lemma_orient_as_cross(p: Vertex, a: Vertex, b: Vertex)
    ensures
        orient(p, a, b) == cross(a, b) + cross(p, a) - cross(p, b),
{
    assert(orient(p, a, b) == cross(a, b) + cross(p, a) - cross(p, b)) by (nonlinear_arith);
}

proof fn lemma_fan_partial_shoelace(s: Seq<Vertex>, k: nat)
    requires
        0 < s.len(),
        k <= s.len(),
    ensures
        fan_partial(s, k) == shoelace_partial(s, k) - cross(s[0], s[(k as int) % (s.len() as int)])
            + cross(s[0], s[0]),
    decreases k,
{
    let n = s.len() as int;
    if k > 0 {
        lemma_fan_partial_shoelace(s, (k - 1) as nat);
        let j = k - 1;
        lemma_orient_as_cross(s[0], s[j], s[(j + 1) % n]);
        lemma_mod_wrap(j as int, n);
        lemma_mod_wrap(k as int, n);
        assert(fan_partial(s, k) == fan_partial(s, (k - 1) as nat) + fan_term(s, j));
        assert(shoelace_partial(s, k) == shoelace_partial(s, (k - 1) as nat) + shoelace_term(s, j));
    } else {
        lemma_mod_wrap(0, n);
    }
}

/// The fan sum and the shoelace sum agree on every non-empty cycle.
pub proof fn lemma_fan_is_shoelace(s: Seq<Vertex>)
    requires
        0 < s.len(),
    ensures
        fan_double_area(s) == shoelace(s),
{
    lemma_fan_partial_shoelace(s, s.len());
    lemma_mod_wrap(s.len() as int, s.len() as int);
    assert(cross(s[0], s[0]) == 0) by (nonlinear_arith);
}

proof fn lemma_shoelace_partial_rot1(s: Seq<Vertex>, k: nat)
    requires
        1 < s.len(),
        k <= s.len() - 1,
    ensures
        shoelace_partial(rotate(s, 1), k) == shoelace_partial(s, k + 1) - shoelace_term(s, 0),
    decreases k,
{
    let t = rotate(s, 1);
    let n = s.len() as int;
    assert(t.len() == n);
    if k > 0 {
        lemma_shoelace_partial_rot1(s, (k - 1) as nat);
        let j = k - 1;
        assert(t[j] == s[j + 1]);
        if j + 1 < n - 1 {
            lemma_mod_wrap(j + 1, n);
            lemma_mod_wrap(j + 2, n);
            assert(t[(j + 1) % n] == s[(j + 2) % n]);
        } else {
            lemma_mod_wrap(j + 1, n);
            lemma_mod_wrap(j + 2, n);
            assert(t[(j + 1) % n] == s[0]);
        }
        assert(shoelace_term(t, j) == shoelace_term(s, j + 1));
        assert(shoelace_partial(t, k) == shoelace_partial(t, (k - 1) as nat) + shoelace_term(t, j));
        assert(shoelace_partial(s, k + 1) == shoelace_partial(s, k) + shoelace_term(s, j + 1));
    } else {
        assert(shoelace_partial(s, 1) == shoelace_partial(s, 0) + shoelace_term(s, 0));
    }
}

proof fn lemma_shoelace_rot1(s: Seq<Vertex>)
    requires
        1 < s.len(),
    ensures
        shoelace(rotate(s, 1)) == shoelace(s),
{
    let t = rotate(s, 1);
    let n = s.len() as int;
    lemma_shoelace_partial_rot1(s, (n - 1) as nat);
    assert(t[n - 1] == s[0]);
    lemma_mod_wrap(n, n);
    assert(t[0] == s[1]);
    lemma_mod_wrap(1, n);
    assert(shoelace_term(t, n - 1) == shoelace_term(s, 0));
}

proof fn lemma_rotate_step(s: Seq<Vertex>, k: int)
    requires
        0 <= k < s.len(),
        1 < s.len(),
    ensures
        rotate(rotate(s, k), 1) =~= rotate(s, k + 1),
{
    let n = s.len() as int;
    let r = rotate(s, k);
    assert(r.len() == n);
    assert forall|i: int| 0 <= i < n implies #[trigger] rotate(r, 1)[i] == rotate(s, k + 1)[i] by {
        if i < n - 1 {
            assert(rotate(r, 1)[i] == r[i + 1]);
        } else {
            assert(rotate(r, 1)[i] == r[0]);
        }
    }
}

/// The shoelace sum does not depend on which vertex the cycle starts at.
pub proof fn lemma_shoelace_rotate(s: Seq<Vertex>, k: int)
    requires
        0 <= k <= s.len(),
    ensures
        shoelace(rotate(s, k)) == shoelace(s),
    decreases k,
{
    if k == 0 {
        assert(rotate(s, 0) =~= s);
    } else if s.len() <= 1 {
        assert(rotate(s, k) =~= s);
    } else {
        lemma_shoelace_rotate(s, k - 1);
        lemma_rotate_step(s, k - 1);
        lemma_shoelace_rot1(rotate(s, k - 1));
    }
}

proof fn lemma_shoelace_partial_prefix(s: Seq<Vertex>, t: Seq<Vertex>, k: nat)
    requires
        k < s.len(),
        k < t.len(),
        forall|i: int| 0 <= i <= k ==> s[i] == t[i],
    ensures
        shoelace_partial(s, k) == shoelace_partial(t, k),
    decreases k,
{
    if k > 0 {
        lemma_shoelace_partial_prefix(s, t, (k - 1) as nat);
        let j = k - 1;
        lemma_mod_wrap(j + 1, s.len() as int);
        lemma_mod_wrap(j + 1, t.len() as int);
    }
}

/// Dropping the last vertex of a cycle removes from its shoelace sum exactly
/// the triangle that the vertex formed with its two neighbours.
proof fn lemma_shoelace_drop_last(s: Seq<Vertex>)
    requires
        3 <= s.len(),
    ensures
        shoelace(s) == shoelace(s.drop_last()) + orient(
            s[s.len() - 2],
            s[s.len() - 1],
            s[0],
        ),
{
    let n = s.len() as int;
    let t = s.drop_last();
    lemma_shoelace_partial_prefix(s, t, (n - 2) as nat);
    lemma_mod_wrap(n - 1, n);
    lemma_mod_wrap(n, n);
    lemma_mod_wrap(n - 1, n - 1);
    let a = s[n - 2];
    let b = s[n - 1];
    let c = s[0];
    lemma_orient_three_cross(a, b, c);
    assert(shoelace_partial(s, (n - 1) as nat) == shoelace_partial(s, (n - 2) as nat) + shoelace_term(s, n - 2));
    assert(shoelace_partial(s, n as nat) == shoelace_partial(s, (n - 1) as nat) + shoelace_term(s, n - 1));
    assert(shoelace_partial(t, (n - 1) as nat) == shoelace_partial(t, (n - 2) as nat) + shoelace_term(t, n - 2));
}

proof fn lemma_orient_three_cross(a: Vertex, b: Vertex, c: Vertex)
    ensures
        orient(a, b, c) == cross(a, b) + cross(b, c) - cross(a, c),
{
    let (ax, ay, bx, by, cx, cy) = (a.x as int, a.y as int, b.x as int, b.y as int, c.x as int, c.y as int);
    assert((bx - ax) * (cy - ay) == bx * cy - bx * ay - ax * cy + ax * ay) by (nonlinear_arith);
    assert((cx - ax) * (by - ay) == cx * by - cx * ay - ax * by + ax * ay) by (nonlinear_arith);
    assert(bx * ay == ay * bx && cx * by == by * cx && cx * ay == ay * cx) by (nonlinear_arith);
}

/// Removing the vertex at `i` from a cycle of at least three vertices
/// changes its doubled area by exactly the doubled area of the triangle that
/// the vertex formed with its two neighbours.
pub proof fn lemma_shoelace_remove(s: Seq<Vertex>, i: int)
    requires
        3 <= s.len(),
        0 <= i < s.len(),
    ensures
        shoelace(s) == shoelace(s.remove(i)) + orient(
            s[(i + s.len() - 1) % (s.len() as int)],
            s[i],
            s[(i + 1) % (s.len() as int)],
        ),
{
    let n = s.len() as int;
    let r = rotate(s, i + 1);
    lemma_shoelace_rotate(s, i + 1);
    lemma_shoelace_drop_last(r);
    let u = s.remove(i);
    assert(r.drop_last() =~= rotate(u, i)) by {
        assert forall|j: int| 0 <= j < n - 1 implies #[trigger] r.drop_last()[j] == rotate(u, i)[j] by {
            if j < n - i - 1 {
                assert(r[j] == s[i + 1 + j]);
                assert(rotate(u, i)[j] == u[i + j]);
            } else {
                assert(r[j] == s[j - (n - i - 1)]);
                assert(rotate(u, i)[j] == u[j - (n - 1 - i)]);
            }
        }
    }
    lemma_shoelace_rotate(u, i);
    assert(r[n - 1] == s[i]);
    if i == n - 1 {
        assert(r[0] == s[0]);
        assert(r[n - 2] == s[n - 2]);
        lemma_mod_wrap(i + 1, n);
        lemma_mod_wrap(i + n - 1, n);
    } else {
        assert(r[0] == s[i + 1]);
        lemma_mod_wrap(i + 1, n);
        lemma_mod_wrap(i + n - 1, n);
        if i == 0 {
            assert(r[n - 2] == s[n - 1]);
        } else {
            assert(r[n - 2] == s[i - 1]);
        }
    }
}

} // verus!
