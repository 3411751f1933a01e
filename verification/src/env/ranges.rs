//! Facts about collections of block ranges: pairwise disjointness, bounds,
//! and the total number of block identifiers they cover.

use vstd::prelude::*;
use vstd::set_lib::{lemma_int_range, lemma_len_subset, lemma_set_disjoint_lens, set_int_range};
use super::block::{BlockId, Interval};

verus! {

/// The entry at `(g, k)` exists in the grouped collection.
pub open spec fn valid_slot(gs: Seq<Seq<Interval>>, g: int, k: int) -> bool {
    0 <= g < gs.len() && 0 <= k < gs[g].len()
}

/// No two distinct entries of the grouped collection share a block identifier.
pub open spec fn pairwise_disjoint(gs: Seq<Seq<Interval>>) -> bool {
    forall|g1: int, k1: int, g2: int, k2: int|
        #![trigger gs[g1][k1], gs[g2][k2]]
        valid_slot(gs, g1, k1) && valid_slot(gs, g2, k2) && (g1 != g2 || k1 != k2)
            ==> gs[g1][k1].disjoint(gs[g2][k2])
}

/// Every entry is a non-empty range inside `[lo, hi)`.
pub open spec fn all_within(gs: Seq<Seq<Interval>>, lo: int, hi: int) -> bool {
    forall|g: int, k: int|
        #![trigger gs[g][k]]
        valid_slot(gs, g, k) ==> lo <= gs[g][k].begin.0 < gs[g][k].end.0 <= hi
}

/// `iv` shares no block identifier with any entry of the collection.
pub open spec fn disjoint_from_all(gs: Seq<Seq<Interval>>, iv: Interval) -> bool {
    forall|g: int, k: int| #![trigger gs[g][k]] valid_slot(gs, g, k) ==> iv.disjoint(gs[g][k])
}

/// No two distinct entries of the sequence share a block identifier.
pub open spec fn seq_disjoint(ivs: Seq<Interval>) -> bool {
    forall|i: int, j: int|
        #![trigger ivs[i], ivs[j]]
        0 <= i < ivs.len() && 0 <= j < ivs.len() && i != j ==> ivs[i].disjoint(ivs[j])
}

/// Every entry of the sequence is a non-empty range inside `[lo, hi)`.
pub open spec fn seq_within(ivs: Seq<Interval>, lo: int, hi: int) -> bool {
    forall|i: int| #![trigger ivs[i]] 0 <= i < ivs.len() ==> lo <= ivs[i].begin.0 < ivs[i].end.0 <= hi
}

/// `s` with entry `i` replaced by the last entry and the last entry dropped.
pub open spec fn swap_removed<A>(s: Seq<A>, i: int) -> Seq<A> {
    s.update(i, s.last()).drop_last()
}

/// Total number of block identifiers in the ranges of `ivs`.
pub open spec fn total_size(ivs: Seq<Interval>) -> int
    decreases ivs.len(),
{
    if ivs.len() == 0 {
        0
    } else {
        total_size(ivs.drop_last()) + ivs.last().size()
    }
}

/// The set of block identifiers in the ranges of `ivs`.
pub open spec fn covered(ivs: Seq<Interval>) -> Set<int>
    decreases ivs.len(),
{
    if ivs.len() == 0 {
        Set::empty()
    } else {
        covered(ivs.drop_last()).union(set_int_range(ivs.last().begin.0 as int, ivs.last().end.0 as int))
    }
}

pub proof fn lemma_group_disjoint(gs: Seq<Seq<Interval>>, g: int)
    requires
        pairwise_disjoint(gs),
        0 <= g < gs.len(),
    ensures
        seq_disjoint(gs[g]),
{
    assert forall|i: int, j: int|
        0 <= i < gs[g].len() && 0 <= j < gs[g].len() && i != j implies #[trigger] gs[g][i].disjoint(
        #[trigger] gs[g][j],
    ) by {
        assert(valid_slot(gs, g, i) && valid_slot(gs, g, j));
    }
}

pub proof fn lemma_group_within(gs: Seq<Seq<Interval>>, g: int, lo: int, hi: int)
    requires
        all_within(gs, lo, hi),
        0 <= g < gs.len(),
    ensures
        seq_within(gs[g], lo, hi),
{
    assert forall|i: int| 0 <= i < gs[g].len() implies lo <= #[trigger] gs[g][i].begin.0
        < gs[g][i].end.0 <= hi by {
        assert(valid_slot(gs, g, i));
    }
}

/// Appending a range that is disjoint from everything keeps the collection
/// pairwise disjoint.
pub proof fn lemma_push_disjoint(gs: Seq<Seq<Interval>>, g: int, iv: Interval)
    requires
        pairwise_disjoint(gs),
        0 <= g < gs.len(),
        disjoint_from_all(gs, iv),
    ensures
        pairwise_disjoint(gs.update(g, gs[g].push(iv))),
{
    let ns = gs.update(g, gs[g].push(iv));
    assert forall|g1: int, k1: int, g2: int, k2: int|
        valid_slot(ns, g1, k1) && valid_slot(ns, g2, k2) && (g1 != g2 || k1 != k2) implies #[trigger] ns[g1][k1].disjoint(
        #[trigger] ns[g2][k2],
    ) by {
        let n = gs[g].len() as int;
        let new1 = g1 == g && k1 == n;
        let new2 = g2 == g && k2 == n;
        if new1 {
            assert(ns[g1][k1] == iv);
            assert(valid_slot(gs, g2, k2));
            assert(ns[g2][k2] == gs[g2][k2]);
            assert(iv.disjoint(gs[g2][k2]));
        } else if new2 {
            assert(ns[g2][k2] == iv);
            assert(valid_slot(gs, g1, k1));
            assert(ns[g1][k1] == gs[g1][k1]);
            assert(iv.disjoint(gs[g1][k1]));
        } else {
            assert(valid_slot(gs, g1, k1));
            assert(valid_slot(gs, g2, k2));
            assert(ns[g1][k1] == gs[g1][k1]);
            assert(ns[g2][k2] == gs[g2][k2]);
        }
    }
}

/// Removing an entry keeps the collection pairwise disjoint, and the removed
/// range is disjoint from everything that remains.
pub proof fn lemma_swap_remove_disjoint(gs: Seq<Seq<Interval>>, g: int, i: int)
    requires
        pairwise_disjoint(gs),
        valid_slot(gs, g, i),
    ensures
        pairwise_disjoint(gs.update(g, swap_removed(gs[g], i))),
        disjoint_from_all(gs.update(g, swap_removed(gs[g], i)), gs[g][i]),
{
    let ns = gs.update(g, swap_removed(gs[g], i));
    let n = gs[g].len() as int;
    // position in the old collection of each entry of the new one
    let src = |g1: int, k1: int| -> int { if g1 == g && k1 == i { n - 1 } else { k1 } };
    assert forall|g1: int, k1: int| valid_slot(ns, g1, k1) implies valid_slot(gs, g1, src(g1, k1))
        && #[trigger] ns[g1][k1] == gs[g1][src(g1, k1)] && (g1 == g ==> src(g1, k1) != i) by {}
    assert forall|g1: int, k1: int, g2: int, k2: int|
        valid_slot(ns, g1, k1) && valid_slot(ns, g2, k2) && (g1 != g2 || k1 != k2) implies #[trigger] ns[g1][k1].disjoint(
        #[trigger] ns[g2][k2],
    ) by {
        assert(ns[g1][k1] == gs[g1][src(g1, k1)]);
        assert(ns[g2][k2] == gs[g2][src(g2, k2)]);
        assert(gs[g1][src(g1, k1)].disjoint(gs[g2][src(g2, k2)]));
    }
    assert forall|g1: int, k1: int| valid_slot(ns, g1, k1) implies gs[g][i].disjoint(
        #[trigger] ns[g1][k1],
    ) by {
        assert(ns[g1][k1] == gs[g1][src(g1, k1)]);
        assert(gs[g][i].disjoint(gs[g1][src(g1, k1)]));
    }
}

/// Moving all entries of group `src` to the end of group `dst` keeps the
/// collection pairwise disjoint.
pub proof fn lemma_move_group_disjoint(gs: Seq<Seq<Interval>>, src: int, dst: int)
    requires
        pairwise_disjoint(gs),
        0 <= src < gs.len(),
        0 <= dst < gs.len(),
        src != dst,
    ensures
        pairwise_disjoint(gs.update(dst, gs[dst] + gs[src]).update(src, Seq::empty())),
{
    let ns = gs.update(dst, gs[dst] + gs[src]).update(src, Seq::<Interval>::empty());
    let n = gs[dst].len() as int;
    let og = |g1: int, k1: int| -> int { if g1 == dst && k1 >= n { src } else { g1 } };
    let ok = |g1: int, k1: int| -> int { if g1 == dst && k1 >= n { k1 - n } else { k1 } };
    assert forall|g1: int, k1: int| valid_slot(ns, g1, k1) implies valid_slot(gs, og(g1, k1), ok(g1, k1))
        && #[trigger] ns[g1][k1] == gs[og(g1, k1)][ok(g1, k1)] by {}
    assert forall|g1: int, k1: int, g2: int, k2: int|
        valid_slot(ns, g1, k1) && valid_slot(ns, g2, k2) && (g1 != g2 || k1 != k2) implies #[trigger] ns[g1][k1].disjoint(
        #[trigger] ns[g2][k2],
    ) by {
        assert(ns[g1][k1] == gs[og(g1, k1)][ok(g1, k1)]);
        assert(ns[g2][k2] == gs[og(g2, k2)][ok(g2, k2)]);
        assert(gs[og(g1, k1)][ok(g1, k1)].disjoint(gs[og(g2, k2)][ok(g2, k2)]));
    }
}

/// Adding an empty group keeps the collection pairwise disjoint.
pub proof fn lemma_push_group_disjoint(gs: Seq<Seq<Interval>>)
    requires
        pairwise_disjoint(gs),
    ensures
        pairwise_disjoint(gs.push(Seq::empty())),
{
    let ns = gs.push(Seq::<Interval>::empty());
    assert forall|g1: int, k1: int, g2: int, k2: int|
        valid_slot(ns, g1, k1) && valid_slot(ns, g2, k2) && (g1 != g2 || k1 != k2) implies #[trigger] ns[g1][k1].disjoint(
        #[trigger] ns[g2][k2],
    ) by {
        assert(ns[g1] == gs[g1]);
        assert(ns[g2] == gs[g2]);
    }
}

/// Extending the last entry of group `g` by an adjacent range that is disjoint
/// from everything keeps the collection pairwise disjoint.
pub proof fn lemma_extend_last_disjoint(gs: Seq<Seq<Interval>>, g: int, iv: Interval, lo: int, hi: int)
    requires
        pairwise_disjoint(gs),
        all_within(gs, lo, hi),
        0 <= g < gs.len(),
        gs[g].len() > 0,
        gs[g].last().end == iv.begin,
        gs[g].last().begin.0 <= gs[g].last().end.0,
        iv.begin.0 <= iv.end.0,
        disjoint_from_all(gs, iv),
    ensures
        pairwise_disjoint(
            gs.update(
                g,
                gs[g].update(
                    gs[g].len() - 1,
                    Interval { begin: gs[g].last().begin, end: iv.end },
                ),
            ),
        ),
{
    let last = gs[g].len() - 1;
    let ext = Interval { begin: gs[g].last().begin, end: iv.end };
    let ns = gs.update(g, gs[g].update(last, ext));
    assert forall|g1: int, k1: int| valid_slot(ns, g1, k1) && !(g1 == g && k1 == last) implies #[trigger] ns[g1][k1]
        == gs[g1][k1] && ext.disjoint(ns[g1][k1]) by {
        assert(valid_slot(gs, g1, k1));
        assert(gs[g][last].disjoint(gs[g1][k1]));
        assert(iv.disjoint(gs[g1][k1]));
    }
    assert forall|g1: int, k1: int, g2: int, k2: int|
        valid_slot(ns, g1, k1) && valid_slot(ns, g2, k2) && (g1 != g2 || k1 != k2) implies #[trigger] ns[g1][k1].disjoint(
        #[trigger] ns[g2][k2],
    ) by {
        if g1 == g && k1 == last {
            assert(ext.disjoint(ns[g2][k2]));
        } else if g2 == g && k2 == last {
            assert(ext.disjoint(ns[g1][k1]));
        } else {
            assert(valid_slot(gs, g1, k1));
            assert(valid_slot(gs, g2, k2));
        }
    }
}

pub proof fn lemma_covered_finite(ivs: Seq<Interval>)
    ensures
        covered(ivs).finite(),
    decreases ivs.len(),
{
    if ivs.len() > 0 {
        lemma_covered_finite(ivs.drop_last());
        let l = ivs.last();
        if l.begin.0 <= l.end.0 {
            lemma_int_range(l.begin.0 as int, l.end.0 as int);
        } else {
            assert(set_int_range(l.begin.0 as int, l.end.0 as int) =~= Set::empty());
        }
    }
}

/// Pairwise disjoint ranges inside `[lo, hi)` cover exactly `total_size`
/// identifiers, so their total size is at most `hi - lo`.
pub proof fn lemma_total_size_bound(ivs: Seq<Interval>, lo: int, hi: int)
    requires
        seq_disjoint(ivs),
        seq_within(ivs, lo, hi),
        lo <= hi,
    ensures
        covered(ivs).len() == total_size(ivs),
        covered(ivs).subset_of(set_int_range(lo, hi)),
        0 <= total_size(ivs) <= hi - lo,
    decreases ivs.len(),
{
    lemma_covered_finite(ivs);
    if ivs.len() == 0 {
        assert(covered(ivs) =~= Set::<int>::empty());
        lemma_int_range(lo, hi);
    } else {
        let pre = ivs.drop_last();
        let l = ivs.last();
        assert(seq_disjoint(pre)) by {
            assert forall|i: int, j: int|
                0 <= i < pre.len() && 0 <= j < pre.len() && i != j implies #[trigger] pre[i].disjoint(
                #[trigger] pre[j],
            ) by {
                assert(pre[i] == ivs[i] && pre[j] == ivs[j]);
            }
        }
        assert(seq_within(pre, lo, hi)) by {
            assert forall|i: int| 0 <= i < pre.len() implies lo <= #[trigger] pre[i].begin.0
                < pre[i].end.0 <= hi by {
                assert(pre[i] == ivs[i]);
            }
        }
        lemma_total_size_bound(pre, lo, hi);
        lemma_covered_finite(pre);
        assert(ivs[ivs.len() - 1] == l);
        let ls = set_int_range(l.begin.0 as int, l.end.0 as int);
        lemma_int_range(l.begin.0 as int, l.end.0 as int);
        assert(covered(pre).disjoint(ls)) by {
            assert forall|x: int| covered(pre).contains(x) implies !ls.contains(x) by {
                lemma_covered_member(pre, x);
                let i = choose|i: int| 0 <= i < pre.len() && pre[i].holds(x);
                assert(pre[i] == ivs[i]);
                assert(ivs[i].disjoint(ivs[ivs.len() - 1]));
            }
        }
        lemma_set_disjoint_lens(covered(pre), ls);
        assert(covered(ivs) == covered(pre) + ls);
        assert(covered(ivs).subset_of(set_int_range(lo, hi)));
        lemma_int_range(lo, hi);
        lemma_len_subset(covered(ivs), set_int_range(lo, hi));
    }
}

/// A member of the covered set lies in one of the ranges.
pub proof fn lemma_covered_member(ivs: Seq<Interval>, x: int)
    requires
        covered(ivs).contains(x),
    ensures
        exists|i: int| 0 <= i < ivs.len() && ivs[i].holds(x),
    decreases ivs.len(),
{
    if ivs.len() > 0 {
        let pre = ivs.drop_last();
        if covered(pre).contains(x) {
            lemma_covered_member(pre, x);
            let i = choose|i: int| 0 <= i < pre.len() && pre[i].holds(x);
            assert(ivs[i] == pre[i]);
        } else {
            assert(ivs[ivs.len() - 1].holds(x));
        }
    }
}

/// The total size of the first `k + 1` ranges is the total size of the first
/// `k` plus the size of range `k`.
pub proof fn lemma_total_size_take(ivs: Seq<Interval>, k: int)
    requires
        0 <= k < ivs.len(),
    ensures
        total_size(ivs.take(k + 1)) == total_size(ivs.take(k)) + ivs[k].size(),
{
    assert(ivs.take(k + 1).drop_last() =~= ivs.take(k));
}

/// A sequence whose first range is non-empty and whose ranges all have
/// non-negative size has positive total size.
pub proof fn lemma_total_size_positive(ivs: Seq<Interval>)
    requires
        ivs.len() > 0,
        ivs[0].size() >= 1,
        forall|i: int| 0 <= i < ivs.len() ==> (#[trigger] ivs[i]).size() >= 0,
    ensures
        total_size(ivs) >= 1,
    decreases ivs.len(),
{
    if ivs.len() > 1 {
        let pre = ivs.drop_last();
        assert(pre[0] == ivs[0]);
        assert forall|i: int| 0 <= i < pre.len() implies (#[trigger] pre[i]).size() >= 0 by {
            assert(pre[i] == ivs[i]);
        }
        lemma_total_size_positive(pre);
        assert(ivs[ivs.len() - 1].size() >= 0);
    } else {
        assert(ivs.drop_last().len() == 0);
        assert(total_size(ivs.drop_last()) == 0);
        assert(ivs.last() == ivs[0]);
    }
}

} // verus!
