//! Proofs that the context operations keep a context well formed, and facts
//! about the fuel of lexical lookups.

use vstd::prelude::*;
use super::allocator::{alloc_outcome, arena_after, first_fit, is_first_fit, split_free_range};
use super::block::{blank_block, detached_block, Block, BlockId, Interval};
use super::ranges::{
    all_within, disjoint_from_all, lemma_extend_last_disjoint, lemma_move_group_disjoint,
    lemma_push_disjoint, lemma_push_group_disjoint, lemma_swap_remove_disjoint, pairwise_disjoint,
    swap_removed, valid_slot,
};
use super::region::RegionView;
use super::{region_ok, ContextView, EntryId, RegionId, Symbol, MAX_REGION_ID};

verus! {

/// The lookup result does not depend on the fuel once the walk has ended.
pub proof fn lemma_lookup_fuel(v: ContextView, b: BlockId, s: Symbol, n: nat, m: nat)
    requires
        v.lookup(b, s, n) is Some,
        n <= m,
    ensures
        v.lookup(b, s, m) == v.lookup(b, s, n),
    decreases n,
{
    if b.0 != 0 && n > 0 && b.0 <= v.blocks.len() {
        let blk = v.block(b);
        let reg = v.regions[blk.region.0 as int];
        if !(reg.active && reg.bindings.contains_key((b, s))) {
            lemma_lookup_fuel(v, blk.up, s, (n - 1) as nat, (m - 1) as nat);
        }
    }
}

/// Once some fuel makes the walk end, `resolve` is its result.
pub proof fn lemma_resolve_from_fuel(v: ContextView, b: BlockId, s: Symbol, n: nat)
    requires
        v.lookup(b, s, n) is Some,
    ensures
        v.resolves(b, s),
        v.resolve(b, s) == v.lookup(b, s, n)->0,
{
    let k = choose|k: nat| (#[trigger] v.lookup(b, s, k)) is Some;
    if k <= n {
        lemma_lookup_fuel(v, b, s, k, n);
    } else {
        lemma_lookup_fuel(v, b, s, n, k);
    }
}

/// Taking a range of `size` identifiers from a freelist `gs0[0]` whose
/// entries, together with the other groups of owned ranges, are pairwise
/// disjoint and inside `[1, next0)`: the range taken has `size` identifiers,
/// is disjoint from every remaining owned range, and the owned ranges stay
/// pairwise disjoint and inside the new identifier space.
pub(crate) proof fn lemma_alloc_groups(gs0: Seq<Seq<Interval>>, next0: u32, size: u32)
    requires
        gs0.len() >= 1,
        pairwise_disjoint(gs0),
        all_within(gs0, 1, next0 as int),
        1 <= next0,
        alloc_outcome(gs0[0], next0, size) is Some,
    ensures
        ({
            let (iv, fl, next) = alloc_outcome(gs0[0], next0, size)->0;
            let gs = gs0.update(0, fl);
            &&& pairwise_disjoint(gs)
            &&& disjoint_from_all(gs, iv)
            &&& all_within(gs, 1, next as int)
            &&& 1 <= iv.begin.0 <= iv.end.0 <= next
            &&& iv.size() == size
            &&& next0 <= next
            &&& (first_fit(gs0[0], size) is Some ==> next == next0)
            &&& (first_fit(gs0[0], size) is None ==> iv.begin.0 == next0 && next == next0 + size)
        }),
{
    let fl0 = gs0[0];
    assert(gs0[0] == fl0);
    match first_fit(fl0, size) {
        Some(i) => {
            assert(is_first_fit(fl0, size, i));
            assert(valid_slot(gs0, 0, i));
            let r = fl0[i];
            let gs1 = gs0.update(0, swap_removed(fl0, i));
            lemma_swap_remove_disjoint(gs0, 0, i);
            let (iv, fl) = split_free_range(fl0, i, size);
            assert(fl0.update(i, fl0.last()).drop_last() == swap_removed(fl0, i));
            // entries of gs1 are entries of gs0
            assert forall|g: int, k: int| valid_slot(gs1, g, k) implies 1 <= (#[trigger] gs1[g][k]).begin.0
                < gs1[g][k].end.0 <= next0 by {
                if g == 0 {
                    let src = if k == i { fl0.len() - 1 } else { k };
                    assert(gs1[g][k] == gs0[0][src]);
                    assert(valid_slot(gs0, 0, src));
                } else {
                    assert(gs1[g] == gs0[g]);
                    assert(valid_slot(gs0, g, k));
                }
            }
            if r.size() > size {
                let rem = Interval { begin: iv.end, end: r.end };
                assert(disjoint_from_all(gs1, rem)) by {
                    assert forall|g: int, k: int| valid_slot(gs1, g, k) implies rem.disjoint(#[trigger] gs1[g][k]) by {
                        assert(r.disjoint(gs1[g][k]));
                    }
                }
                lemma_push_disjoint(gs1, 0, rem);
                let gs2 = gs1.update(0, gs1[0].push(rem));
                assert(gs2 =~= gs0.update(0, fl));
                assert(disjoint_from_all(gs2, iv)) by {
                    assert forall|g: int, k: int| valid_slot(gs2, g, k) implies iv.disjoint(#[trigger] gs2[g][k]) by {
                        if g == 0 && k == gs1[0].len() {
                            assert(gs2[g][k] == rem);
                        } else {
                            assert(gs2[g][k] == gs1[g][k]);
                            assert(valid_slot(gs1, g, k));
                            assert(r.disjoint(gs1[g][k]));
                        }
                    }
                }
                assert(all_within(gs2, 1, next0 as int)) by {
                    assert forall|g: int, k: int| valid_slot(gs2, g, k) implies 1 <= (#[trigger] gs2[g][k]).begin.0
                        < gs2[g][k].end.0 <= next0 by {
                        if g == 0 && k == gs1[0].len() {
                            assert(gs2[g][k] == rem);
                        } else {
                            assert(gs2[g][k] == gs1[g][k]);
                            assert(valid_slot(gs1, g, k));
                        }
                    }
                }
            } else {
                assert(gs1 =~= gs0.update(0, fl));
                assert(disjoint_from_all(gs1, iv)) by {
                    assert forall|g: int, k: int| valid_slot(gs1, g, k) implies iv.disjoint(#[trigger] gs1[g][k]) by {
                        assert(r.disjoint(gs1[g][k]));
                    }
                }
            }
        },
        None => {
            let iv = Interval { begin: BlockId(next0), end: BlockId((next0 + size) as u32) };
            let next = (next0 + size) as u32;
            assert(gs0.update(0, fl0) =~= gs0);
            assert(disjoint_from_all(gs0, iv)) by {
                assert forall|g: int, k: int| valid_slot(gs0, g, k) implies iv.disjoint(#[trigger] gs0[g][k]) by {}
            }
            assert(all_within(gs0, 1, next as int)) by {
                assert forall|g: int, k: int| valid_slot(gs0, g, k) implies 1 <= (#[trigger] gs0[g][k]).begin.0
                    < gs0[g][k].end.0 <= next by {}
            }
        },
    }
}


/// Taking a range from the allocator of a well-formed context leaves all
/// owned ranges pairwise disjoint and inside the (new) identifier space, and
/// the range taken is disjoint from all of them.
pub(crate) proof fn lemma_alloc_ranges(v: ContextView, size: u32)
    requires
        v.wf(),
        size >= 1,
        alloc_outcome(v.block_freelist, v.next_block, size) is Some,
    ensures
        ({
            let (iv, fl, next) = alloc_outcome(v.block_freelist, v.next_block, size)->0;
            let gs = v.groups().update(0, fl);
            let blocks = arena_after(v.blocks, v.block_freelist, v.next_block, size);
            &&& pairwise_disjoint(gs)
            &&& disjoint_from_all(gs, iv)
            &&& all_within(gs, 1, next as int)
            &&& 1 <= iv.begin.0 < iv.end.0 <= next
            &&& iv.size() == size
            &&& v.next_block <= next
            &&& blocks.len() == next - 1
            &&& forall|i: int| 0 <= i < v.blocks.len() ==> blocks[i] == v.blocks[i]
            &&& forall|i: int| v.blocks.len() <= i < blocks.len() ==> blocks[i] == blank_block()
        }),
{
    assert(v.groups()[0] == v.block_freelist);
    lemma_alloc_groups(v.groups(), v.next_block, size);
}

/// Allocating a region keeps a context well formed.
pub(crate) proof fn lemma_alloc_region_wf(v: ContextView, size: u32)
    requires
        v.wf(),
    ensures
        v.alloc_region(size).0.wf(),
{
    if size == 0 {
        return;
    }
    if alloc_outcome(v.block_freelist, v.next_block, size) is None {
        return;
    }
    lemma_alloc_ranges(v, size);
    let (iv, fl, next) = alloc_outcome(v.block_freelist, v.next_block, size)->0;
    let gs1 = v.groups().update(0, fl);
    let blocks = arena_after(v.blocks, v.block_freelist, v.next_block, size);
    let nv = v.alloc_region(size).0;
    let fresh = RegionView::<EntryId> { active: true, intervals: seq![iv], bindings: Map::empty(), used: 1 };
    assert(seq![iv][0] == iv);
    assert(region_ok(fresh));
    // shape of the arena
    assert(nv.blocks.len() == next - 1);
    assert(nv.regions.len() >= 1) by {
        if v.region_freelist.len() > 0 {
            assert(v.region_freelist[v.region_freelist.len() - 1] < v.regions.len());
        }
    }
    assert forall|i: int| 0 <= i < nv.blocks.len() implies nv.block_ok(#[trigger] nv.blocks[i]) by {
        if i < v.blocks.len() && i != iv.begin.0 - 1 {
            assert(v.block_ok(v.blocks[i]));
            assert(nv.blocks[i] == v.blocks[i]);
        }
    }
    if v.region_freelist.len() > 0 {
        let idx = v.region_freelist.last() as int;
        assert(v.region_freelist[v.region_freelist.len() - 1] == idx);
        assert(!v.regions[idx].active);
        assert(region_ok(v.regions[idx]));
        assert(gs1[idx + 1] == Seq::<Interval>::empty());
        lemma_push_disjoint(gs1, idx + 1, iv);
        let gs2 = gs1.update(idx + 1, gs1[idx + 1].push(iv));
        assert(nv.groups() =~= gs2) by {
            assert(seq![iv] =~= Seq::<Interval>::empty().push(iv));
        }
        assert(all_within(gs2, 1, next as int)) by {
            assert forall|g: int, k: int| valid_slot(gs2, g, k) implies 1 <= (#[trigger] gs2[g][k]).begin.0
                < gs2[g][k].end.0 <= next by {
                if g != idx + 1 {
                    assert(gs2[g] == gs1[g]);
                    assert(valid_slot(gs1, g, k));
                }
            }
        }
        assert forall|r: int| 0 <= r < nv.regions.len() implies region_ok(#[trigger] nv.regions[r]) by {
            assert(region_ok(v.regions[r]));
        }
        let rf = v.region_freelist;
        let nrf = nv.region_freelist;
        assert(nrf =~= rf.drop_last());
        assert forall|a: int, b: int| 0 <= a < nrf.len() && 0 <= b < nrf.len() && a != b implies nrf[a] != nrf[b] by {
            assert(nrf[a] == rf[a] && nrf[b] == rf[b]);
        }
        assert forall|j: int| 0 <= j < nrf.len() implies (#[trigger] nrf[j] as int) < nv.regions.len()
            && !nv.regions[nrf[j] as int].active by {
            assert(nrf[j] == rf[j]);
            assert(rf[j] < v.regions.len());
            assert(rf[j] != rf[rf.len() - 1]);
        }
        assert forall|r: int| 0 <= r < nv.regions.len() && !(#[trigger] nv.regions[r]).active implies nrf.contains(
            r as u32,
        ) by {
            assert(r != idx);
            assert(!v.regions[r].active);
            assert(rf.contains(r as u32));
            let j = choose|j: int| 0 <= j < rf.len() && rf[j] == r as u32;
            assert(j != rf.len() - 1);
            assert(nrf[j] == r as u32);
        }
    } else if v.regions.len() > MAX_REGION_ID {
        assert(nv.groups() =~= gs1);
        assert forall|r: int| 0 <= r < nv.regions.len() implies region_ok(#[trigger] nv.regions[r]) by {
            assert(region_ok(v.regions[r]));
        }
        assert forall|j: int| 0 <= j < nv.region_freelist.len() implies (#[trigger] nv.region_freelist[j] as int)
            < nv.regions.len() && !nv.regions[nv.region_freelist[j] as int].active by {
            assert(v.region_freelist[j] < v.regions.len());
        }
        assert forall|r: int| 0 <= r < nv.regions.len() && !(#[trigger] nv.regions[r]).active implies nv.region_freelist.contains(
            r as u32,
        ) by {
            assert(!v.regions[r].active);
        }
    } else {
        lemma_push_group_disjoint(gs1);
        let gs2 = gs1.push(Seq::<Interval>::empty());
        let n = gs1.len() as int;
        assert(disjoint_from_all(gs2, iv)) by {
            assert forall|g: int, k: int| valid_slot(gs2, g, k) implies iv.disjoint(#[trigger] gs2[g][k]) by {
                assert(g < n);
                assert(gs2[g] == gs1[g]);
                assert(valid_slot(gs1, g, k));
            }
        }
        lemma_push_disjoint(gs2, n, iv);
        let gs3 = gs2.update(n, gs2[n].push(iv));
        assert(nv.groups() =~= gs3) by {
            assert(seq![iv] =~= Seq::<Interval>::empty().push(iv));
        }
        assert(all_within(gs3, 1, next as int)) by {
            assert forall|g: int, k: int| valid_slot(gs3, g, k) implies 1 <= (#[trigger] gs3[g][k]).begin.0
                < gs3[g][k].end.0 <= next by {
                if g != n {
                    assert(gs3[g] == gs1[g]);
                    assert(valid_slot(gs1, g, k));
                }
            }
        }
        assert forall|r: int| 0 <= r < nv.regions.len() implies region_ok(#[trigger] nv.regions[r]) by {
            if r < v.regions.len() {
                assert(region_ok(v.regions[r]));
            }
        }
        assert forall|j: int| 0 <= j < nv.region_freelist.len() implies (#[trigger] nv.region_freelist[j] as int)
            < nv.regions.len() && !nv.regions[nv.region_freelist[j] as int].active by {}
        assert forall|r: int| 0 <= r < nv.regions.len() && !(#[trigger] nv.regions[r]).active implies nv.region_freelist.contains(
            r as u32,
        ) by {
            if r < v.regions.len() {
                assert(!v.regions[r].active);
                assert(v.region_freelist.contains(r as u32));
            }
        }
    }
}

/// Releasing an active region keeps a context well formed.
pub(crate) proof fn lemma_freed_wf(v: ContextView, id: RegionId)
    requires
        v.wf(),
        (id.0 as int) < v.regions.len(),
        v.regions[id.0 as int].active,
    ensures
        v.freed(id).wf(),
{
    let nv = v.freed(id);
    let idx = id.0 as int;
    let gs = v.groups();
    lemma_move_group_disjoint(gs, idx + 1, 0);
    let gs2 = gs.update(0, gs[0] + gs[idx + 1]).update(idx + 1, Seq::<Interval>::empty());
    assert(nv.groups() =~= gs2);
    assert(all_within(gs2, 1, v.next_block as int)) by {
        assert forall|g: int, k: int| valid_slot(gs2, g, k) implies 1 <= (#[trigger] gs2[g][k]).begin.0
            < gs2[g][k].end.0 <= v.next_block by {
            if g == 0 {
                if k < gs[0].len() {
                    assert(valid_slot(gs, 0, k));
                    assert(gs2[g][k] == gs[0][k]);
                } else {
                    assert(valid_slot(gs, idx + 1, k - gs[0].len()));
                    assert(gs2[g][k] == gs[idx + 1][k - gs[0].len()]);
                }
            } else {
                assert(gs2[g] == gs[g]);
                assert(valid_slot(gs, g, k));
            }
        }
    }
    assert forall|i: int| 0 <= i < nv.blocks.len() implies nv.block_ok(#[trigger] nv.blocks[i]) by {
        assert(v.block_ok(v.blocks[i]));
    }
    assert forall|r: int| 0 <= r < nv.regions.len() implies region_ok(#[trigger] nv.regions[r]) by {
        assert(region_ok(v.regions[r]));
    }
    let rf = v.region_freelist;
    let nrf = nv.region_freelist;
    assert(!rf.contains(id.0)) by {
        if rf.contains(id.0) {
            let j = choose|j: int| 0 <= j < rf.len() && rf[j] == id.0;
            assert(!v.regions[rf[j] as int].active);
        }
    }
    assert forall|a: int, b: int| 0 <= a < nrf.len() && 0 <= b < nrf.len() && a != b implies nrf[a] != nrf[b] by {
        if a < rf.len() && b < rf.len() {
            assert(nrf[a] == rf[a] && nrf[b] == rf[b]);
        } else if a < rf.len() {
            assert(nrf[a] == rf[a]);
            assert(rf.contains(rf[a]));
        } else {
            assert(nrf[b] == rf[b]);
            assert(rf.contains(rf[b]));
        }
    }
    assert forall|j: int| 0 <= j < nrf.len() implies (#[trigger] nrf[j] as int) < nv.regions.len()
        && !nv.regions[nrf[j] as int].active by {
        if j < rf.len() {
            assert(nrf[j] == rf[j]);
            assert(rf[j] < v.regions.len());
        }
    }
    assert forall|r: int| 0 <= r < nv.regions.len() && !(#[trigger] nv.regions[r]).active implies nrf.contains(
        r as u32,
    ) by {
        if r == idx {
            assert(nrf[rf.len() as int] == id.0);
        } else {
            assert(!v.regions[r].active);
            assert(rf.contains(r as u32));
            let j = choose|j: int| 0 <= j < rf.len() && rf[j] == r as u32;
            assert(nrf[j] == r as u32);
        }
    }
}

/// Replacing an arena entry by an entry whose links are in range keeps a
/// context well formed.
pub(crate) proof fn lemma_set_block_wf(v: ContextView, i: int, blk: Block)
    requires
        v.wf(),
        0 <= i < v.blocks.len(),
        v.block_ok(blk),
    ensures
        v.with_block(i, blk).wf(),
{
    let nv = v.with_block(i, blk);
    assert(nv.groups() =~= v.groups());
    assert forall|j: int| 0 <= j < nv.blocks.len() implies nv.block_ok(#[trigger] nv.blocks[j]) by {
        if j != i {
            assert(v.block_ok(v.blocks[j]));
        }
    }
    assert forall|r: int| 0 <= r < nv.regions.len() implies region_ok(#[trigger] nv.regions[r]) by {
        assert(region_ok(v.regions[r]));
    }
    assert forall|j: int| 0 <= j < nv.region_freelist.len() implies (#[trigger] nv.region_freelist[j] as int)
        < nv.regions.len() && !nv.regions[nv.region_freelist[j] as int].active by {
        assert(v.region_freelist[j] < v.regions.len());
    }
    assert forall|r: int| 0 <= r < nv.regions.len() && !(#[trigger] nv.regions[r]).active implies nv.region_freelist.contains(
        r as u32,
    ) by {
        assert(!v.regions[r].active);
    }
}

/// Appending a non-null child (in range) to the children of a non-null
/// parent keeps a context well formed.
pub(crate) proof fn lemma_link_child_wf(v: ContextView, parent: BlockId, child: BlockId)
    requires
        v.wf(),
        1 <= parent.0 <= v.blocks.len(),
        1 <= child.0 <= v.blocks.len(),
    ensures
        (ContextView { blocks: v.linked_as_last_child(parent, child), ..v }).wf(),
{
    let pi = parent.0 - 1;
    let p = v.blocks[pi];
    assert(v.block_ok(p));
    if p.down.0 == 0 {
        lemma_set_block_wf(v, pi, Block { down: child, last_child: child, ..p });
        assert(v.with_block(pi, Block { down: child, last_child: child, ..p }) == (ContextView {
            blocks: v.linked_as_last_child(parent, child),
            ..v
        }));
    } else {
        let l = p.last_child;
        let li = l.0 - 1;
        if 1 <= l.0 <= v.blocks.len() {
            assert(v.block_ok(v.blocks[li]));
            let v1 = v.with_block(li, Block { next: child, ..v.blocks[li] });
            lemma_set_block_wf(v, li, Block { next: child, ..v.blocks[li] });
            assert(v1.block_ok(v1.blocks[pi]));
            lemma_set_block_wf(v1, pi, Block { last_child: child, ..v1.blocks[pi] });
            assert(v1.with_block(pi, Block { last_child: child, ..v1.blocks[pi] }) == (ContextView {
                blocks: v.linked_as_last_child(parent, child),
                ..v
            }));
        } else {
            lemma_set_block_wf(v, pi, Block { last_child: child, ..p });
            assert(v.with_block(pi, Block { last_child: child, ..p }) == (ContextView {
                blocks: v.linked_as_last_child(parent, child),
                ..v
            }));
        }
    }
}

/// Handing out one more block keeps a context well formed, and the new block
/// is a non-null arena block.
pub(crate) proof fn lemma_grow_region_wf(v: ContextView, r: RegionId)
    requires
        v.wf(),
        (r.0 as int) < v.regions.len(),
        v.regions[r.0 as int].active,
        v.grow_region(r) is Some,
    ensures
        ({
            let (nv, n) = v.grow_region(r)->0;
            &&& nv.wf()
            &&& 1 <= n.0 <= nv.blocks.len()
            &&& nv.blocks.len() >= v.blocks.len()
        }),
{
    let ri = r.0 as int;
    let reg = v.regions[ri];
    let gs = v.groups();
    assert(region_ok(reg));
    assert(gs[ri + 1] == reg.intervals);
    let li = reg.intervals.len() - 1;
    assert(valid_slot(gs, ri + 1, li));
    assert(reg.intervals.last() == reg.intervals[li]);
    let (nv, n) = v.grow_region(r)->0;
    if reg.used < reg.intervals.last().size() {
        let mid = ContextView {
            regions: v.regions.update(ri, RegionView { used: (reg.used + 1) as u32, ..reg }),
            ..v
        };
        assert(mid.groups() =~= gs);
        assert forall|i: int| 0 <= i < mid.blocks.len() implies mid.block_ok(#[trigger] mid.blocks[i]) by {
            assert(v.block_ok(v.blocks[i]));
        }
        assert forall|q: int| 0 <= q < mid.regions.len() implies region_ok(#[trigger] mid.regions[q]) by {
            assert(region_ok(v.regions[q]));
        }
        assert forall|j: int| 0 <= j < mid.region_freelist.len() implies (#[trigger] mid.region_freelist[j] as int)
            < mid.regions.len() && !mid.regions[mid.region_freelist[j] as int].active by {
            assert(v.region_freelist[j] < v.regions.len());
        }
        assert forall|q: int| 0 <= q < mid.regions.len() && !(#[trigger] mid.regions[q]).active implies mid.region_freelist.contains(
            q as u32,
        ) by {
            assert(!v.regions[q].active);
        }
        assert(mid.wf());
        lemma_set_block_wf(mid, n.0 - 1, detached_block(r));
        assert(nv == mid.with_block(n.0 - 1, detached_block(r)));
    } else {
        lemma_alloc_ranges(v, 1);
        let (iv, fl, next) = alloc_outcome(v.block_freelist, v.next_block, 1)->0;
        let gs1 = gs.update(0, fl);
        let coalesce = reg.intervals.last().end == iv.begin;
        let last = reg.intervals.last();
        assert(gs1[ri + 1] == reg.intervals);
        let gs2 = if coalesce {
            lemma_extend_last_disjoint(gs1, ri + 1, iv, 1, next as int);
            gs1.update(ri + 1, gs1[ri + 1].update(li, Interval { begin: last.begin, end: iv.end }))
        } else {
            lemma_push_disjoint(gs1, ri + 1, iv);
            gs1.update(ri + 1, gs1[ri + 1].push(iv))
        };
        let mid = ContextView { blocks: nv.blocks, ..nv };
        assert(nv.groups() =~= gs2);
        assert(all_within(gs2, 1, next as int)) by {
            assert forall|g: int, k: int| valid_slot(gs2, g, k) implies 1 <= (#[trigger] gs2[g][k]).begin.0
                < gs2[g][k].end.0 <= next by {
                if g != ri + 1 || (coalesce && k != li) || (!coalesce && k != reg.intervals.len()) {
                    assert(gs2[g][k] == gs1[g][k]);
                    assert(valid_slot(gs1, g, k));
                }
            }
        }
        let blocks = arena_after(v.blocks, v.block_freelist, v.next_block, 1);
        assert(nv.blocks == blocks.update(n.0 - 1, detached_block(r)));
        assert(1 <= n.0 <= blocks.len());
        assert forall|i: int| 0 <= i < nv.blocks.len() implies nv.block_ok(#[trigger] nv.blocks[i]) by {
            if i < v.blocks.len() && i != n.0 - 1 {
                assert(v.block_ok(v.blocks[i]));
                assert(nv.blocks[i] == v.blocks[i]);
            }
        }
        assert forall|q: int| 0 <= q < nv.regions.len() implies region_ok(#[trigger] nv.regions[q]) by {
            assert(region_ok(v.regions[q]));
            if q == ri {
                if coalesce {
                    assert(nv.regions[q].intervals.last() == Interval { begin: last.begin, end: iv.end });
                } else {
                    assert(nv.regions[q].intervals.last() == iv);
                }
            }
        }
        assert forall|j: int| 0 <= j < nv.region_freelist.len() implies (#[trigger] nv.region_freelist[j] as int)
            < nv.regions.len() && !nv.regions[nv.region_freelist[j] as int].active by {
            assert(v.region_freelist[j] < v.regions.len());
        }
        assert forall|q: int| 0 <= q < nv.regions.len() && !(#[trigger] nv.regions[q]).active implies nv.region_freelist.contains(
            q as u32,
        ) by {
            assert(!v.regions[q].active);
        }
    }
}

/// Adding a binding to an active region keeps a context well formed.
pub(crate) proof fn lemma_with_binding_wf(v: ContextView, r: RegionId, b: BlockId, s: Symbol, e: EntryId)
    requires
        v.wf(),
        (r.0 as int) < v.regions.len(),
        v.regions[r.0 as int].active,
    ensures
        v.with_binding(r, b, s, e).wf(),
{
    let nv = v.with_binding(r, b, s, e);
    assert(nv.groups() =~= v.groups());
    assert forall|q: int| 0 <= q < nv.regions.len() implies region_ok(#[trigger] nv.regions[q]) by {
        assert(region_ok(v.regions[q]));
    }
    assert forall|i: int| 0 <= i < nv.blocks.len() implies nv.block_ok(#[trigger] nv.blocks[i]) by {
        assert(v.block_ok(v.blocks[i]));
    }
    assert forall|j: int| 0 <= j < nv.region_freelist.len() implies (#[trigger] nv.region_freelist[j] as int)
        < nv.regions.len() && !nv.regions[nv.region_freelist[j] as int].active by {
        assert(v.region_freelist[j] < v.regions.len());
    }
    assert forall|q: int| 0 <= q < nv.regions.len() && !(#[trigger] nv.regions[q]).active
        implies nv.region_freelist.contains(q as u32) by {
        assert(!v.regions[q].active);
    }
}

} // verus!
