//! Orders on vertices and the selection of extreme vertices and coordinate
//! bounds of a vertex sequence.

use vstd::prelude::*;

use crate::vertex::Vertex;

verus! {

/// A lexicographic order on vertices: first by one coordinate, then by the
/// other, each ascending or descending.
#[derive(Clone, Copy, Debug, PartialEq, Eq, Structural)]
pub struct VertexOrder {
    /// Compare `x` first (else `y` first).
    pub x_first: bool,
    /// The first coordinate is compared in descending order.
    pub first_desc: bool,
    /// The second coordinate is compared in descending order.
    pub second_desc: bool,
}

pub open spec fn order_key(v: Vertex, o: VertexOrder) -> (int, int) {
    let p: int = if o.x_first {
        v.x as int
    } else {
        v.y as int
    };
    let q: int = if o.x_first {
        v.y as int
    } else {
        v.x as int
    };
    (if o.first_desc {
        -p
    } else {
        p
    }, if o.second_desc {
        -q
    } else {
        q
    })
}

/// `a` comes strictly before `b` in the order `o`.
pub open spec fn key_less(a: Vertex, b: Vertex, o: VertexOrder) -> bool {
    let ka = order_key(a, o);
    let kb = order_key(b, o);
    ka.0 < kb.0 || (ka.0 == kb.0 && ka.1 < kb.1)
}

/// `i` is the first position of `s` whose vertex is minimal in the order `o`:
/// the vertex a stable sort by `o` puts first.
pub open spec fn is_first_min(s: Seq<Vertex>, i: int, o: VertexOrder) -> bool {
    &&& 0 <= i < s.len()
    &&& forall|j: int| 0 <= j < i ==> key_less(s[i], #[trigger] s[j], o)
    &&& forall|j: int| i < j < s.len() ==> !key_less(#[trigger] s[j], s[i], o)
}

/// Two first minimal positions of the same order are the same position.
pub proof fn lemma_first_min_unique(s: Seq<Vertex>, i: int, j: int, o: VertexOrder)
    requires
        is_first_min(s, i, o),
        is_first_min(s, j, o),
    ensures
        i == j,
{
    if i < j {
        assert(key_less(s[j], s[i], o));
    } else if j < i {
        assert(key_less(s[i], s[j], o));
    }
}

/// The vertex that a stable sort of `s` by `o` puts first.
pub open spec fn first_min(s: Seq<Vertex>, o: VertexOrder) -> Vertex {
    s[choose|i: int| is_first_min(s, i, o)]
}

fn key_of(v: &Vertex, o: VertexOrder) -> (r: (i64, i64))
    ensures
        r.0 as int == order_key(*v, o).0,
        r.1 as int == order_key(*v, o).1,
{
    let p: i64 = if o.x_first {
        v.x as i64
    } else {
        v.y as i64
    };
    let q: i64 = if o.x_first {
        v.y as i64
    } else {
        v.x as i64
    };
    (if o.first_desc {
        -p
    } else {
        p
    }, if o.second_desc {
        -q
    } else {
        q
    })
}

/// Whether `a` comes strictly before `b` in the order `o`.
pub fn precedes(a: &Vertex, b: &Vertex, o: VertexOrder) -> (r: bool)
    ensures
        r == key_less(*a, *b, o),
{
    let ka = key_of(a, o);
    let kb = key_of(b, o);
    ka.0 < kb.0 || (ka.0 == kb.0 && ka.1 < kb.1)
}

/// The position of the first vertex of `vs` that is minimal in the order `o`.
pub fn first_min_index(vs: &Vec<Vertex>, o: VertexOrder) -> (i: usize)
    requires
        vs.len() > 0,
    ensures
        is_first_min(vs@, i as int, o),
{
    let mut best: usize = 0;
    let mut k: usize = 1;
    while k < vs.len()
        invariant
            1 <= k <= vs.len(),
            is_first_min(vs@.subrange(0, k as int), best as int, o),
        decreases vs.len() - k,
    {
        if precedes(&vs[k], &vs[best], o) {
            best = k;
        }
        k = k + 1;
        assert(vs@.subrange(0, k as int).subrange(0, (k - 1) as int) =~= vs@.subrange(0, (k - 1) as int));
    }
    assert(vs@.subrange(0, vs.len() as int) =~= vs@);
    best
}

pub fn leftmost_lowest() -> (o: VertexOrder)
    ensures
        o == (VertexOrder { x_first: false, first_desc: false, second_desc: false }),
{
    VertexOrder { x_first: false, first_desc: false, second_desc: false }
}

pub fn leftmost_highest() -> (o: VertexOrder)
    ensures
        o == (VertexOrder { x_first: false, first_desc: true, second_desc: false }),
{
    VertexOrder { x_first: false, first_desc: true, second_desc: false }
}

pub fn rightmost_lowest() -> (o: VertexOrder)
    ensures
        o == (VertexOrder { x_first: false, first_desc: false, second_desc: true }),
{
    VertexOrder { x_first: false, first_desc: false, second_desc: true }
}

pub fn rightmost_highest() -> (o: VertexOrder)
    ensures
        o == (VertexOrder { x_first: false, first_desc: true, second_desc: true }),
{
    VertexOrder { x_first: false, first_desc: true, second_desc: true }
}

pub fn lowest_leftmost() -> (o: VertexOrder)
    ensures
        o == (VertexOrder { x_first: true, first_desc: false, second_desc: false }),
{
    VertexOrder { x_first: true, first_desc: false, second_desc: false }
}

pub fn lowest_rightmost() -> (o: VertexOrder)
    ensures
        o == (VertexOrder { x_first: true, first_desc: true, second_desc: false }),
{
    VertexOrder { x_first: true, first_desc: true, second_desc: false }
}

pub fn highest_leftmost() -> (o: VertexOrder)
    ensures
        o == (VertexOrder { x_first: true, first_desc: false, second_desc: true }),
{
    VertexOrder { x_first: true, first_desc: false, second_desc: true }
}

pub fn highest_rightmost() -> (o: VertexOrder)
    ensures
        o == (VertexOrder { x_first: true, first_desc: true, second_desc: true }),
{
    VertexOrder { x_first: true, first_desc: true, second_desc: true }
}

/// The `x` coordinate of `v` when `by_x`, else its `y` coordinate.
pub open spec fn coord(v: Vertex, by_x: bool) -> int {
    if by_x {
        v.x as int
    } else {
        v.y as int
    }
}

/// `m` is the least `x` (when `by_x`, else `y`) coordinate of `s`, or
/// `i32::MAX` when `s` is empty.
pub open spec fn is_coord_min(s: Seq<Vertex>, by_x: bool, m: int) -> bool {
    &&& s.len() == 0 ==> m == i32::MAX
    &&& s.len() > 0 ==> exists|i: int| 0 <= i < s.len() && m == #[trigger] coord(s[i], by_x)
    &&& forall|i: int| 0 <= i < s.len() ==> m <= #[trigger] coord(s[i], by_x)
}

/// `m` is the greatest `x` (when `by_x`, else `y`) coordinate of `s`, or
/// `i32::MIN` when `s` is empty.
pub open spec fn is_coord_max(s: Seq<Vertex>, by_x: bool, m: int) -> bool {
    &&& s.len() == 0 ==> m == i32::MIN
    &&& s.len() > 0 ==> exists|i: int| 0 <= i < s.len() && m == #[trigger] coord(s[i], by_x)
    &&& forall|i: int| 0 <= i < s.len() ==> m >= #[trigger] coord(s[i], by_x)
}

fn coord_of(v: &Vertex, by_x: bool) -> (c: i32)
    ensures
        c as int == coord(*v, by_x),
{
    if by_x {
        v.x
    } else {
        v.y
    }
}

/// The least `x` (when `by_x`, else `y`) coordinate of `vs`; `i32::MAX` for
/// an empty sequence.
pub fn coord_min(vs: &Vec<Vertex>, by_x: bool) -> (m: i32)
    ensures
        is_coord_min(vs@, by_x, m as int),
{
    let mut m: i32 = i32::MAX;
    let mut k: usize = 0;
    while k < vs.len()
        invariant
            0 <= k <= vs.len(),
            is_coord_min(vs@.subrange(0, k as int), by_x, m as int),
        decreases vs.len() - k,
    {
        let c = coord_of(&vs[k], by_x);
        let ghost prev = vs@.subrange(0, k as int);
        let ghost old_m = m;
        if c < m {
            m = c;
        }
        k = k + 1;
        let ghost cur = vs@.subrange(0, k as int);
        assert(forall|i: int| 0 <= i < k - 1 ==> cur[i] == prev[i]);
        assert(cur[k - 1] == vs@[k - 1]);
        proof {
            if m == c {
                assert(coord(cur[k - 1], by_x) == m);
            } else {
                let i = choose|i: int| 0 <= i < prev.len() && old_m as int == #[trigger] coord(prev[i], by_x);
                assert(cur[i] == prev[i]);
                assert(coord(cur[i], by_x) == m);
            }
        }
        assert forall|i: int| 0 <= i < cur.len() implies m <= #[trigger] coord(cur[i], by_x) by {
            if i < k - 1 {
                assert(cur[i] == prev[i]);
            }
        }
    }
    assert(vs@.subrange(0, vs.len() as int) =~= vs@);
    m
}

/// The greatest `x` (when `by_x`, else `y`) coordinate of `vs`; `i32::MIN`
/// for an empty sequence.
pub fn coord_max(vs: &Vec<Vertex>, by_x: bool) -> (m: i32)
    ensures
        is_coord_max(vs@, by_x, m as int),
{
    let mut m: i32 = i32::MIN;
    let mut k: usize = 0;
    while k < vs.len()
        invariant
            0 <= k <= vs.len(),
            is_coord_max(vs@.subrange(0, k as int), by_x, m as int),
        decreases vs.len() - k,
    {
        let c = coord_of(&vs[k], by_x);
        let ghost prev = vs@.subrange(0, k as int);
        let ghost old_m = m;
        if c > m {
            m = c;
        }
        k = k + 1;
        let ghost cur = vs@.subrange(0, k as int);
        assert(forall|i: int| 0 <= i < k - 1 ==> cur[i] == prev[i]);
        assert(cur[k - 1] == vs@[k - 1]);
        proof {
            if m == c {
                assert(coord(cur[k - 1], by_x) == m);
            } else {
                let i = choose|i: int| 0 <= i < prev.len() && old_m as int == #[trigger] coord(prev[i], by_x);
                assert(cur[i] == prev[i]);
                assert(coord(cur[i], by_x) == m);
            }
        }
        assert forall|i: int| 0 <= i < cur.len() implies m >= #[trigger] coord(cur[i], by_x) by {
            if i < k - 1 {
                assert(cur[i] == prev[i]);
            }
        }
    }
    assert(vs@.subrange(0, vs.len() as int) =~= vs@);
    m
}

} // verus!
