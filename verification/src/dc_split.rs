//! How divide and conquer splits the identifiers: into groups of at most
//! three that, taken in order, are exactly the identifiers it was given,
//! and that it merges, each of them, in that order.

use vstd::prelude::*;

use crate::convex_hull::{dc_run, merge_down, split_weight};
use crate::polygon::PolygonError;
use crate::vertex::{Vertex, VertexId};

verus! {

/// The identifiers of a unit of groups, in order.
pub open spec fn groups_in(u: Seq<Seq<VertexId>>) -> Seq<VertexId>
    decreases u.len(),
{
    if u.len() == 0 {
        Seq::empty()
    } else {
        u[0] + groups_in(u.drop_first())
    }
}

/// The identifiers of a sequence of units, in order.
pub open spec fn leaves_in(us: Seq<Seq<Seq<VertexId>>>) -> Seq<VertexId>
    decreases us.len(),
{
    if us.len() == 0 {
        Seq::empty()
    } else {
        groups_in(us[0]) + leaves_in(us.drop_first())
    }
}

/// The units the group `g` is cut into, left to right: `g` is halved; two
/// halves of at most three identifiers form one unit; a left half of at
/// most three is a unit of its own, followed by the units of the right
/// half; otherwise the units of the left half come before those of the
/// right half.
pub open spec fn dc_units(g: Seq<VertexId>) -> Seq<Seq<Seq<VertexId>>>
    decreases g.len(),
{
    let half = g.len() / 2;
    let lg = g.subrange(0, half as int);
    let rg = g.subrange(half as int, g.len() as int);
    if lg.len() <= 3 && rg.len() <= 3 {
        seq![seq![lg, rg]]
    } else if lg.len() <= 3 {
        seq![seq![lg]] + dc_units(rg)
    } else {
        dc_units(lg) + dc_units(rg)
    }
}

/// Merging the units `us` one after the other onto the merge stack `m`:
/// each unit's groups are pushed and the stack is merged down.
pub open spec fn dc_fold(polygon: Seq<Vertex>, m: Seq<Seq<VertexId>>, us: Seq<Seq<Seq<VertexId>>>) -> Result<
    Seq<Seq<VertexId>>,
    PolygonError,
>
    decreases us.len(),
{
    if us.len() == 0 {
        Ok(m)
    } else {
        match merge_down(polygon, m + us[0]) {
            Err(e) => Err(e),
            Ok(m3) => dc_fold(polygon, m3, us.drop_first()),
        }
    }
}

/// The units of a stack of groups still to split, the top group first.
pub open spec fn stack_units(split: Seq<Seq<VertexId>>) -> Seq<Seq<Seq<VertexId>>>
    decreases split.len(),
{
    if split.len() == 0 {
        Seq::empty()
    } else {
        dc_units(split.last()) + stack_units(split.drop_last())
    }
}

proof fn lemma_leaves_concat(a: Seq<Seq<Seq<VertexId>>>, b: Seq<Seq<Seq<VertexId>>>)
    ensures
        leaves_in(a + b) == leaves_in(a) + leaves_in(b),
    decreases a.len(),
{
    if a.len() == 0 {
        assert(a + b =~= b);
    } else {
        lemma_leaves_concat(a.drop_first(), b);
        assert((a + b).drop_first() =~= a.drop_first() + b);
        assert(leaves_in(a + b) =~= leaves_in(a) + leaves_in(b));
    }
}

proof fn lemma_small_cases(x: Seq<VertexId>, y: Seq<VertexId>)
    ensures
        groups_in(seq![x]) == x,
        groups_in(seq![x, y]) == x + y,
        leaves_in(seq![seq![x]]) == x,
        leaves_in(seq![seq![x, y]]) == x + y,
{
    let e = Seq::<Seq<VertexId>>::empty();
    assert(groups_in(e) == Seq::<VertexId>::empty());
    assert(seq![x].drop_first() =~= e);
    assert(groups_in(seq![x]) =~= x);
    assert(seq![x, y].drop_first() =~= seq![y]);
    assert(seq![y].drop_first() =~= e);
    assert(groups_in(seq![y]) =~= y);
    assert(groups_in(seq![x, y]) =~= x + y);
    let ee = Seq::<Seq<Seq<VertexId>>>::empty();
    assert(leaves_in(ee) == Seq::<VertexId>::empty());
    assert(seq![seq![x]].drop_first() =~= ee);
    assert(leaves_in(seq![seq![x]]) =~= groups_in(seq![x]));
    assert(seq![seq![x, y]].drop_first() =~= ee);
    assert(leaves_in(seq![seq![x, y]]) =~= groups_in(seq![x, y]));
}

/// Every group of every unit holds at most three identifiers.
pub open spec fn small_units(us: Seq<Seq<Seq<VertexId>>>) -> bool {
    forall|k: int, j: int| 0 <= k < us.len() && 0 <= j < us[k].len() ==> (#[trigger] us[k][j]).len() <= 3
}

/// The units of a group are small, and together they are exactly the
/// group: no identifier is lost, repeated or moved.
pub proof fn lemma_units_partition(g: Seq<VertexId>)
    ensures
        leaves_in(dc_units(g)) == g,
        small_units(dc_units(g)),
        dc_units(g).len() > 0,
    decreases g.len(),
{
    let half = g.len() / 2;
    let lg = g.subrange(0, half as int);
    let rg = g.subrange(half as int, g.len() as int);
    assert(lg + rg =~= g);
    let us = dc_units(g);
    lemma_small_cases(lg, rg);
    if lg.len() <= 3 && rg.len() <= 3 {
    } else if lg.len() <= 3 {
        lemma_units_partition(rg);
        lemma_leaves_concat(seq![seq![lg]], dc_units(rg));
        assert(leaves_in(us) =~= lg + rg);
        assert forall|k: int, j: int| 0 <= k < us.len() && 0 <= j < us[k].len() implies (#[trigger] us[k][j]).len()
            <= 3 by {
            if k > 0 {
                assert(us[k] == dc_units(rg)[k - 1]);
            }
        }
    } else {
        lemma_units_partition(lg);
        lemma_units_partition(rg);
        lemma_leaves_concat(dc_units(lg), dc_units(rg));
        assert(leaves_in(us) =~= lg + rg);
        assert forall|k: int, j: int| 0 <= k < us.len() && 0 <= j < us[k].len() implies (#[trigger] us[k][j]).len()
            <= 3 by {
            if k >= dc_units(lg).len() {
                assert(us[k] == dc_units(rg)[k - dc_units(lg).len()]);
            } else {
                assert(us[k] == dc_units(lg)[k]);
            }
        }
    }
}

/// Merging down leaves at most one group.
proof fn lemma_merge_down_short(polygon: Seq<Vertex>, m: Seq<Seq<VertexId>>)
    ensures
        merge_down(polygon, m) matches Ok(r) ==> r.len() <= 1,
    decreases m.len(),
{
    if m.len() > 1 {
        if let Ok(x) = crate::convex_hull::dc_merge(polygon, m[m.len() - 2], m[m.len() - 1]) {
            lemma_merge_down_short(polygon, m.drop_last().drop_last().push(x));
        }
    }
}

/// The split and merge phases merge exactly the units of the groups still
/// to split, in order, when every such group is nonempty and the merge
/// stack holds at most one group.
#[verifier::spinoff_prover]
#[verifier::rlimit(60)]
proof fn lemma_run_is_fold(polygon: Seq<Vertex>, split: Seq<Seq<VertexId>>, m: Seq<Seq<VertexId>>)
    requires
        forall|k: int| 0 <= k < split.len() ==> (#[trigger] split[k]).len() > 0,
        m.len() <= 1,
    ensures
        dc_run(polygon, split, m) == dc_fold(polygon, m, stack_units(split)),
    decreases split_weight(split),
{
    if split.len() > 0 {
        let g = split.last();
        let half = g.len() / 2;
        let lg = g.subrange(0, half as int);
        let rg = g.subrange(half as int, g.len() as int);
        let rest = split.drop_last();
        assert(g.len() > 0);
        assert(split_weight(split) == split_weight(rest) + (2 * g.len() - 1) as nat);
        assert forall|k: int| 0 <= k < rest.len() implies (#[trigger] rest[k]).len() > 0 by {
            assert(rest[k] == split[k]);
        }
        if lg.len() <= 3 && rg.len() <= 3 {
            let m2 = m.push(lg).push(rg);
            assert(m2 == m + seq![lg, rg]);
            assert(stack_units(split) == seq![seq![lg, rg]] + stack_units(rest));
            let us = stack_units(split);
            assert(us[0] == seq![lg, rg]);
            assert(us.drop_first() =~= stack_units(rest));
            lemma_merge_down_short(polygon, m2);
            if let Ok(m3) = merge_down(polygon, m2) {
                lemma_run_is_fold(polygon, rest, m3);
            }
        } else if lg.len() <= 3 {
            let split2 = rest.push(rg);
            let m2 = m.push(lg);
            assert(m2 == m + seq![lg]);
            assert(split2.drop_last() =~= rest);
            assert(split_weight(split2) == split_weight(rest) + (2 * rg.len() - 1) as nat);
            assert(stack_units(split2) == dc_units(rg) + stack_units(rest));
            assert(stack_units(split) == (seq![seq![lg]] + dc_units(rg)) + stack_units(rest));
            let us = stack_units(split);
            assert(us[0] == seq![lg]);
            assert(us.drop_first() =~= stack_units(split2));
            assert forall|k: int| 0 <= k < split2.len() implies (#[trigger] split2[k]).len() > 0 by {
                if k < rest.len() {
                    assert(split2[k] == rest[k]);
                }
            }
            lemma_merge_down_short(polygon, m2);
            if let Ok(m3) = merge_down(polygon, m2) {
                lemma_run_is_fold(polygon, split2, m3);
            }
        } else {
            let split2 = rest.push(rg).push(lg);
            assert(split2.drop_last() =~= rest.push(rg));
            assert(split2.drop_last().drop_last() =~= rest);
            let mid = rest.push(rg);
            assert(mid.drop_last() =~= rest);
            assert(split2.drop_last() == mid);
            assert(split_weight(mid) == split_weight(rest) + (2 * rg.len() - 1) as nat);
            assert(split_weight(split2) == split_weight(mid) + (2 * lg.len() - 1) as nat);
            assert(stack_units(mid) == dc_units(rg) + stack_units(rest));
            assert(stack_units(split2) == dc_units(lg) + stack_units(mid));
            assert(stack_units(split2) == dc_units(lg) + (dc_units(rg) + stack_units(rest)));
            assert(stack_units(split) == (dc_units(lg) + dc_units(rg)) + stack_units(rest));
            assert(stack_units(split2) =~= stack_units(split));
            assert forall|k: int| 0 <= k < split2.len() implies (#[trigger] split2[k]).len() > 0 by {
                if k < rest.len() {
                    assert(split2[k] == rest[k]);
                }
            }
            assert(merge_down(polygon, m) == Ok::<Seq<Seq<VertexId>>, PolygonError>(m));
            lemma_run_is_fold(polygon, split2, m);
        }
    }
}

/// Divide and conquer merges every identifier it is given: the group `g`
/// is cut into units of groups of at most three identifiers that, taken in
/// order, are exactly `g`, and the run on `g` merges exactly those units,
/// in order, onto an empty merge stack.
pub proof fn lemma_dc_merges_every_identifier(polygon: Seq<Vertex>, g: Seq<VertexId>)
    requires
        g.len() > 0,
    ensures
        leaves_in(dc_units(g)) == g,
        small_units(dc_units(g)),
        dc_run(polygon, seq![g], Seq::empty()) == dc_fold(polygon, Seq::empty(), dc_units(g)),
{
    lemma_units_partition(g);
    let split = seq![g];
    assert(split.drop_last() =~= Seq::<Seq<VertexId>>::empty());
    assert(stack_units(Seq::<Seq<VertexId>>::empty()) == Seq::<Seq<Seq<VertexId>>>::empty());
    assert(stack_units(split) == dc_units(g) + Seq::<Seq<Seq<VertexId>>>::empty());
    assert(stack_units(split) =~= dc_units(g));
    lemma_run_is_fold(polygon, split, Seq::empty());
}

} // verus!
