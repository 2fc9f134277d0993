//! Sorting vertices by identifier and by coordinates, and the uniqueness of
//! sorted arrangements that makes those results exact.

use vstd::prelude::*;

use crate::vertex::Vertex;

verus! {

/// Every earlier element of `s` is `less` than every later one.
pub open spec fn sorted_by<A>(s: Seq<A>, less: spec_fn(A, A) -> bool) -> bool {
    forall|i: int, j: int| 0 <= i < j < s.len() ==> less(s[i], s[j])
}

/// `a` and `b` have the same length and hold the same elements.
pub open spec fn same_elements<A>(a: Seq<A>, b: Seq<A>) -> bool {
    &&& a.len() == b.len()
    &&& forall|x: A| a.contains(x) <==> b.contains(x)
}

pub open spec fn asymmetric<A>(less: spec_fn(A, A) -> bool) -> bool {
    forall|x: A, y: A| !(#[trigger] less(x, y) && #[trigger] less(y, x))
}

proof fn lemma_sorted_unique_prefix<A>(t1: Seq<A>, t2: Seq<A>, less: spec_fn(A, A) -> bool, k: int)
    requires
        sorted_by(t1, less),
        sorted_by(t2, less),
        same_elements(t1, t2),
        asymmetric(less),
        0 <= k <= t1.len(),
    ensures
        forall|i: int| 0 <= i < k ==> t1[i] == t2[i],
    decreases k,
{
    if k > 0 {
        lemma_sorted_unique_prefix(t1, t2, less, k - 1);
        let i = k - 1;
        assert(t1.contains(t1[i]));
        let j = choose|j: int| 0 <= j < t2.len() && t2[j] == t1[i];
        assert(t2.contains(t2[i]));
        let j2 = choose|j2: int| 0 <= j2 < t1.len() && t1[j2] == t2[i];
        if j < i {
            assert(t1[j] == t2[j]);
            assert(less(t1[j], t1[i]));
            assert(less(t1[i], t1[i]));
        }
        if j2 < i {
            assert(t1[j2] == t2[j2]);
            assert(less(t2[j2], t2[i]));
            assert(less(t2[i], t2[i]));
        }
        if j != i && j2 != i {
            assert(less(t2[i], t2[j]));
            assert(less(t1[i], t1[j2]));
        }
    }
}

/// Two arrangements of the same elements that are both sorted by the same
/// asymmetric relation are equal.
pub proof fn lemma_sorted_unique<A>(t1: Seq<A>, t2: Seq<A>, less: spec_fn(A, A) -> bool)
    requires
        sorted_by(t1, less),
        sorted_by(t2, less),
        same_elements(t1, t2),
        asymmetric(less),
    ensures
        t1 == t2,
{
    lemma_sorted_unique_prefix(t1, t2, less, t1.len() as int);
    assert(t1 =~= t2);
}

/// Orders vertices by identifier.
pub open spec fn id_less() -> spec_fn(Vertex, Vertex) -> bool {
    |a: Vertex, b: Vertex| a.id.0 < b.id.0
}

/// The vertices of `s` arranged by increasing identifier.
pub open spec fn sort_by_id_spec(s: Seq<Vertex>) -> Seq<Vertex> {
    choose|t: Seq<Vertex>| sorted_by(t, id_less()) && same_elements(t, s)
}

/// Arranges vertices with distinct identifiers by increasing identifier.
pub fn sort_by_id(vs: &Vec<Vertex>) -> (r: Vec<Vertex>)
    requires
        forall|i: int, j: int| 0 <= i < vs.len() && 0 <= j < vs.len() && i != j ==> vs@[i].id != vs@[j].id,
    ensures
        sorted_by(r@, id_less()),
        same_elements(r@, vs@),
        r@ == sort_by_id_spec(vs@),
{
    let mut out: Vec<Vertex> = Vec::new();
    let mut k: usize = 0;
    while k < vs.len()
        invariant
            0 <= k <= vs.len(),
            forall|i: int, j: int| 0 <= i < vs.len() && 0 <= j < vs.len() && i != j ==> vs@[i].id != vs@[j].id,
            sorted_by(out@, id_less()),
            same_elements(out@, vs@.subrange(0, k as int)),
        decreases vs.len() - k,
    {
        let v = vs[k];
        let mut p: usize = 0;
        while p < out.len() && out[p].id.0 < v.id.0
            invariant
                0 <= p <= out.len(),
                forall|i: int| 0 <= i < p ==> out@[i].id.0 < v.id.0,
            decreases out.len() - p,
        {
            p = p + 1;
        }
        let ghost before = out@;
        let ghost prefix = vs@.subrange(0, k as int);
        proof {
            assert forall|i: int| 0 <= i < before.len() implies before[i].id != v.id by {
                assert(prefix.contains(before[i]));
                let j = choose|j: int| 0 <= j < prefix.len() && prefix[j] == before[i];
                assert(vs@[j] == before[i]);
                assert(j != k);
            }
        }
        out.insert(p, v);
        k = k + 1;
        proof {
            let np = vs@.subrange(0, k as int);
            assert(np =~= prefix.push(v));
            assert forall|i: int, j: int| 0 <= i < j < out@.len() implies (id_less())(out@[i], out@[j]) by {
                if j < p {
                    assert(out@[i] == before[i] && out@[j] == before[j]);
                } else if j == p {
                    assert(out@[i] == before[i]);
                } else if i == p {
                    assert(out@[j] == before[j - 1]);
                    if p < before.len() {
                        assert(before[p as int].id.0 >= v.id.0);
                        assert(before[p as int].id != v.id);
                        if j - 1 > p {
                            assert((id_less())(before[p as int], before[j - 1]));
                        }
                    }
                } else if i < p {
                    assert(out@[i] == before[i] && out@[j] == before[j - 1]);
                } else {
                    assert(out@[i] == before[i - 1] && out@[j] == before[j - 1]);
                }
            }
            assert forall|x: Vertex| out@.contains(x) <==> np.contains(x) by {
                if out@.contains(x) {
                    let i = choose|i: int| 0 <= i < out@.len() && out@[i] == x;
                    if i == p {
                        assert(np[np.len() - 1] == x);
                    } else if i < p {
                        assert(before.contains(x));
                        assert(prefix.contains(x));
                        let j = choose|j: int| 0 <= j < prefix.len() && prefix[j] == x;
                        assert(np[j] == x);
                    } else {
                        assert(before[i - 1] == x);
                        assert(before.contains(x));
                        assert(prefix.contains(x));
                        let j = choose|j: int| 0 <= j < prefix.len() && prefix[j] == x;
                        assert(np[j] == x);
                    }
                }
                if np.contains(x) {
                    let j = choose|j: int| 0 <= j < np.len() && np[j] == x;
                    if j == np.len() - 1 {
                        assert(out@[p as int] == x);
                    } else {
                        assert(prefix[j] == x);
                        assert(prefix.contains(x));
                        assert(before.contains(x));
                        let i = choose|i: int| 0 <= i < before.len() && before[i] == x;
                        if i < p {
                            assert(out@[i] == x);
                        } else {
                            assert(out@[i + 1] == x);
                        }
                    }
                }
            }
        }
    }
    assert(vs@.subrange(0, vs.len() as int) =~= vs@);
    proof {
        assert(sorted_by(sort_by_id_spec(vs@), id_less()) && same_elements(sort_by_id_spec(vs@), vs@));
        assert(asymmetric(id_less()));
        lemma_sorted_unique(out@, sort_by_id_spec(vs@), id_less());
    }
    out
}

/// Orders positions of `s` by the coordinates `(x, y)` of their vertices,
/// ties broken by position: the order of a stable sort by `(x, y)`.
pub open spec fn xy_index_less(s: Seq<Vertex>) -> spec_fn(int, int) -> bool {
    |i: int, j: int|
        s[i].x < s[j].x || (s[i].x == s[j].x && (s[i].y < s[j].y || (s[i].y == s[j].y && i < j)))
}

/// The positions of `s` in the order of a stable sort by `(x, y)`.
pub open spec fn sort_by_xy_spec(s: Seq<Vertex>) -> Seq<int> {
    choose|t: Seq<int>|
        sorted_by(t, xy_index_less(s)) && same_elements(t, Seq::new(s.len(), |i: int| i))
}

fn xy_before(a: &Vertex, b: &Vertex) -> (r: bool)
    ensures
        r == (a.x < b.x || (a.x == b.x && a.y <= b.y)),
{
    a.x < b.x || (a.x == b.x && a.y <= b.y)
}

/// The positions of `vs` in the order of a stable sort by `(x, y)`.
pub fn sort_by_xy(vs: &Vec<Vertex>) -> (r: Vec<usize>)
    ensures
        r@.map_values(|i: usize| i as int) == sort_by_xy_spec(vs@),
        forall|k: int| 0 <= k < r@.len() ==> #[trigger] r@[k] < vs@.len(),
        r@.len() == vs@.len(),
{
    let ghost s = vs@;
    let ghost less = xy_index_less(s);
    let mut out: Vec<usize> = Vec::new();
    let mut k: usize = 0;
    while k < vs.len()
        invariant
            s == vs@,
            less == xy_index_less(s),
            0 <= k <= vs.len(),
            sorted_by(out@.map_values(|i: usize| i as int), less),
            same_elements(out@.map_values(|i: usize| i as int), Seq::new(k as nat, |i: int| i)),
            forall|q: int| 0 <= q < out@.len() ==> #[trigger] out@[q] < k,
        decreases vs.len() - k,
    {
        let mut p: usize = 0;
        while p < out.len() && xy_before(&vs[out[p]], &vs[k])
            invariant
                s == vs@,
                less == xy_index_less(s),
                0 <= p <= out.len(),
                k < vs.len(),
                forall|q: int| 0 <= q < out@.len() ==> #[trigger] out@[q] < k,
                forall|q: int| 0 <= q < p ==> (less)(#[trigger] out@[q] as int, k as int),
            decreases out.len() - p,
        {
            p = p + 1;
        }
        let ghost before = out@.map_values(|i: usize| i as int);
        let ghost old_out = out@;
        out.insert(p, k);
        let ghost after = out@.map_values(|i: usize| i as int);
        proof {
            assert(after =~= before.insert(p as int, k as int));
            assert forall|i: int, j: int| 0 <= i < j < after.len() implies (less)(after[i], after[j]) by {
                if j < p {
                } else if j == p {
                    assert(after[i] == before[i]);
                    assert(after[i] == old_out[i] as int);
                } else if i == p {
                    assert(after[j] == before[j - 1]);
                    let q = j - 1;
                    if q == p as int {
                        assert(!(vs@[old_out[q] as int].x < vs@[k as int].x || (vs@[old_out[q] as int].x
                            == vs@[k as int].x && vs@[old_out[q] as int].y <= vs@[k as int].y)));
                    } else {
                        assert((less)(before[p as int], before[q]));
                        assert(!(vs@[old_out[p as int] as int].x < vs@[k as int].x || (vs@[old_out[p as int] as int].x
                            == vs@[k as int].x && vs@[old_out[p as int] as int].y <= vs@[k as int].y)));
                    }
                } else if i < p {
                    assert(after[i] == before[i] && after[j] == before[j - 1]);
                } else {
                    assert(after[i] == before[i - 1] && after[j] == before[j - 1]);
                }
            }
            let np = Seq::new((k + 1) as nat, |i: int| i);
            let op = Seq::new(k as nat, |i: int| i);
            assert forall|x: int| after.contains(x) <==> np.contains(x) by {
                if after.contains(x) {
                    let i = choose|i: int| 0 <= i < after.len() && after[i] == x;
                    if i == p {
                        assert(np[k as int] == x);
                    } else {
                        let i2 = if i < p { i } else { i - 1 };
                        assert(before[i2] == x);
                        assert(before.contains(x));
                        assert(op.contains(x));
                        assert(np[x] == x);
                    }
                }
                if np.contains(x) {
                    if x == k {
                        assert(after[p as int] == x);
                    } else {
                        assert(op[x] == x);
                        assert(op.contains(x));
                        assert(before.contains(x));
                        let i = choose|i: int| 0 <= i < before.len() && before[i] == x;
                        if i < p {
                            assert(after[i] == x);
                        } else {
                            assert(after[i + 1] == x);
                        }
                    }
                }
            }
            assert forall|q: int| 0 <= q < out@.len() implies #[trigger] out@[q] < k + 1 by {
                if q < p {
                    assert(out@[q] == old_out[q]);
                } else if q > p {
                    assert(out@[q] == old_out[q - 1]);
                }
            }
        }
        k = k + 1;
    }
    proof {
        let t = out@.map_values(|i: usize| i as int);
        let full = Seq::new(s.len(), |i: int| i);
        assert(Seq::new(k as nat, |i: int| i) =~= full);
        assert(sorted_by(sort_by_xy_spec(s), less) && same_elements(sort_by_xy_spec(s), full));
        assert(asymmetric(less));
        lemma_sorted_unique(t, sort_by_xy_spec(s), less);
    }
    out
}

} // verus!
