//! Scoping discipline: blocks in use, their parent chains, and the lexical
//! lookups that follow from them.
//!
//! A block is *live* when it is in the used part of an active region. A
//! context is *tidy* when it is well formed, the parent chain of every live
//! block runs through live blocks to the null block, and every binding of an
//! active region is at one of its live blocks. Contexts that are used through
//! `region_alloc`, `push_block`, `push_region`, `bind` at live cursors, and
//! `region_free` of regions without live nested regions stay tidy; in a tidy
//! context every lookup from a live block ends, and a block pushed under a
//! cursor sees exactly what the cursor saw.

use vstd::prelude::*;
use super::block::{Block, BlockId};
use super::cursor::Cursor;
use super::region::RegionView;
use super::{ContextView, EntryId, RegionId, Symbol};
use super::allocator::alloc_outcome;
use super::laws::walk_reaches;

verus! {

/// Block `b` is in the used part of region record `reg`: in one of its
/// ranges before the last one, or among the first `used` blocks of the last.
pub open spec fn in_used(reg: RegionView<EntryId>, b: int) -> bool {
    ||| exists|k: int| 0 <= k < reg.intervals.len() - 1 && (#[trigger] reg.intervals[k]).holds(b)
    ||| reg.intervals.len() > 0 && reg.intervals.last().begin.0 <= b < reg.intervals.last().begin.0
        + reg.used
}

impl ContextView {
    /// Block `b` is live: a non-null arena block in the used part of its
    /// (active) region.
    pub open spec fn live(self, b: BlockId) -> bool {
        &&& 1 <= b.0 <= self.blocks.len()
        &&& (self.block(b).region.0 as int) < self.regions.len()
        &&& self.regions[self.block(b).region.0 as int].active
        &&& in_used(self.regions[self.block(b).region.0 as int], b.0 as int)
    }

    /// Following parent links from `b` reaches the null block within `n`
    /// steps, through live blocks only.
    pub open spec fn live_chain(self, b: BlockId, n: nat) -> bool
        decreases n,
    {
        b.0 == 0 || (n > 0 && self.live(b) && self.live_chain(self.block(b).up, (n - 1) as nat))
    }

    /// The context is well formed, the blocks in the used part of an active
    /// region are recorded as belonging to it, parent chains of live blocks
    /// end through live blocks, and bindings of active regions sit at their
    /// live blocks.
    pub open spec fn tidy(self) -> bool {
        &&& self.wf()
        &&& forall|r: int, b: int|
            0 <= r < self.regions.len() && self.regions[r].active && 1 <= b <= self.blocks.len()
                && #[trigger] in_used(self.regions[r], b) ==> self.blocks[b - 1].region.0 == r
        &&& forall|b: BlockId| #[trigger] self.live(b) ==> exists|n: nat| #[trigger] self.live_chain(b, n)
        &&& forall|r: int, b: BlockId, s: Symbol|
            0 <= r < self.regions.len() && self.regions[r].active && (
            #[trigger] self.regions[r].bindings.contains_key((b, s))) ==> self.live(b) && self.block(
                b,
            ).region.0 == r
    }

    /// `v1` keeps the live blocks of `self`: they stay live with the same
    /// parent and region, and active regions stay active.
    pub open spec fn kept_in(self, v1: ContextView) -> bool {
        &&& v1.blocks.len() >= self.blocks.len()
        &&& v1.regions.len() >= self.regions.len()
        &&& forall|b: BlockId|
            #[trigger] self.live(b) ==> v1.live(b) && v1.block(b).up == self.block(b).up && v1.block(
                b,
            ).region == self.block(b).region
        &&& forall|q: int|
            0 <= q < self.regions.len() && (#[trigger] self.regions[q]).active ==> v1.regions[q].active
    }

    /// Every binding of an active region of `self` is a binding of the same
    /// active region of `v0`.
    pub open spec fn bindings_from(self, v0: ContextView) -> bool {
        forall|q: int, b: BlockId, s: Symbol|
            0 <= q < self.regions.len() && self.regions[q].active && (
            #[trigger] self.regions[q].bindings.contains_key((b, s))) ==> 0 <= q < v0.regions.len()
                && v0.regions[q].active && v0.regions[q].bindings.contains_key((b, s))
    }

    /// Active regions of `self` have the same bindings in `v1`.
    pub open spec fn same_bindings(self, v1: ContextView) -> bool {
        forall|q: int|
            0 <= q < self.regions.len() && (#[trigger] self.regions[q]).active ==> v1.regions[q].bindings
                == self.regions[q].bindings
    }
}

/// A chain of live blocks makes the lookup of every symbol end within its
/// length.
pub proof fn lemma_chain_lookup(v: ContextView, b: BlockId, s: Symbol, n: nat)
    requires
        v.live_chain(b, n),
    ensures
        v.lookup(b, s, n) is Some,
    decreases n,
{
    if b.0 != 0 {
        let blk = v.block(b);
        let reg = v.regions[blk.region.0 as int];
        if !(reg.active && reg.bindings.contains_key((b, s))) {
            lemma_chain_lookup(v, blk.up, s, (n - 1) as nat);
        }
    }
}

/// A chain of live blocks survives a change that keeps the live blocks.
pub proof fn lemma_chain_kept(v0: ContextView, v1: ContextView, b: BlockId, n: nat)
    requires
        v0.kept_in(v1),
        v0.live_chain(b, n),
    ensures
        v1.live_chain(b, n),
    decreases n,
{
    if b.0 != 0 {
        assert(v0.live(b));
        lemma_chain_kept(v0, v1, v0.block(b).up, (n - 1) as nat);
    }
}

/// Lookups along a chain of live blocks survive a change that keeps the live
/// blocks and the bindings of active regions.
pub proof fn lemma_lookup_kept(v0: ContextView, v1: ContextView, b: BlockId, s: Symbol, n: nat)
    requires
        v0.kept_in(v1),
        v0.same_bindings(v1),
        v0.live_chain(b, n),
    ensures
        v1.lookup(b, s, n) == v0.lookup(b, s, n),
    decreases n,
{
    if b.0 != 0 {
        let blk = v0.block(b);
        let q = blk.region.0 as int;
        assert(v0.live(b));
        assert(v1.block(b).region == blk.region);
        assert(v1.regions[q].bindings == v0.regions[q].bindings);
        lemma_lookup_kept(v0, v1, blk.up, s, (n - 1) as nat);
    }
}

/// In a tidy context every lookup from a live block (or the null block)
/// ends, so `find` may be called at any live cursor.
pub proof fn law_live_blocks_resolve(v: ContextView, b: BlockId, s: Symbol)
    requires
        v.tidy(),
        b.0 == 0 || v.live(b),
    ensures
        v.resolves(b, s),
{
    if b.0 == 0 {
        assert(v.lookup(b, s, 0) is Some);
    } else {
        let n = choose|n: nat| #[trigger] v.live_chain(b, n);
        lemma_chain_lookup(v, b, s, n);
    }
}

/// The parent of a live block in a tidy context is null or live, so `up`
/// from a live cursor yields a live cursor.
pub proof fn law_parent_of_live_is_live(v: ContextView, b: BlockId)
    requires
        v.tidy(),
        v.live(b),
    ensures
        v.block(b).up.0 == 0 || v.live(v.block(b).up),
{
    let n = choose|n: nat| #[trigger] v.live_chain(b, n);
    assert(v.live_chain(v.block(b).up, (n - 1) as nat));
}

/// The root of an active region of a well-formed context is live, so the
/// cursor that `cursor` spawns is live.
pub proof fn law_root_is_live(v: ContextView, id: RegionId)
    requires
        v.tidy(),
        v.root(id) is Some,
    ensures
        v.live(v.root(id)->0),
{
    let reg = v.regions[id.0 as int];
    let root = v.root(id)->0;
    let gs = v.groups();
    assert(super::region_ok(reg));
    assert(super::ranges::valid_slot(gs, id.0 as int + 1, 0));
    assert(gs[id.0 as int + 1] == reg.intervals);
    if reg.intervals.len() > 1 {
        assert(reg.intervals[0].holds(root.0 as int));
    } else {
        assert(reg.intervals.last() == reg.intervals[0]);
    }
    assert(in_used(reg, root.0 as int));
    assert(v.blocks[root.0 - 1].region.0 == id.0);
}

/// A new context is tidy.
pub proof fn law_empty_context_tidy()
    ensures
        super::empty_context().tidy(),
{
    let v = super::empty_context();
    assert(v.groups() =~= seq![Seq::<super::Interval>::empty()]);
}

/// A change from a tidy context stays tidy when it keeps the live blocks,
/// adds at most the live block `n` (whose parent is null or was live), adds
/// bindings only at live blocks of their region, and records the used blocks
/// of active regions as theirs.
proof fn lemma_tidy_step(v: ContextView, nv: ContextView, n: BlockId)
    requires
        v.tidy(),
        nv.wf(),
        v.kept_in(nv),
        forall|b: BlockId| #[trigger] nv.live(b) ==> v.live(b) || b == n,
        nv.live(n) ==> nv.block(n).up.0 == 0 || v.live(nv.block(n).up),
        forall|r: int, b: BlockId, s: Symbol|
            0 <= r < nv.regions.len() && nv.regions[r].active && (
            #[trigger] nv.regions[r].bindings.contains_key((b, s))) ==> (0 <= r < v.regions.len()
                && v.regions[r].active && v.regions[r].bindings.contains_key((b, s))) || (nv.live(b)
                && nv.block(b).region.0 == r),
        forall|r: int, b: int|
            0 <= r < nv.regions.len() && nv.regions[r].active && 1 <= b <= nv.blocks.len()
                && #[trigger] in_used(nv.regions[r], b) ==> nv.blocks[b - 1].region.0 == r,
    ensures
        nv.tidy(),
{
    assert forall|b: BlockId| #[trigger] nv.live(b) implies exists|k: nat| #[trigger] nv.live_chain(b, k) by {
        if v.live(b) {
            let k = choose|k: nat| #[trigger] v.live_chain(b, k);
            lemma_chain_kept(v, nv, b, k);
        } else {
            assert(b == n);
            let up = nv.block(n).up;
            if up.0 == 0 {
                assert(nv.live_chain(up, 0));
                assert(nv.live_chain(n, 1));
            } else {
                let k = choose|k: nat| #[trigger] v.live_chain(up, k);
                lemma_chain_kept(v, nv, up, k);
                assert(nv.live_chain(n, k + 1));
            }
        }
    }
    assert forall|r: int, b: BlockId, s: Symbol|
        0 <= r < nv.regions.len() && nv.regions[r].active && (
        #[trigger] nv.regions[r].bindings.contains_key((b, s))) implies nv.live(b) && nv.block(b).region.0
        == r by {
        if !(nv.live(b) && nv.block(b).region.0 == r) {
            assert(v.regions[r].bindings.contains_key((b, s)));
            assert(v.live(b));
        }
    }
}

/// Binding at a live cursor keeps a context tidy, and keeps the arena and
/// the live blocks.
pub proof fn law_bind_keeps_tidy(v: ContextView, c: Cursor, s: Symbol, e: EntryId)
    requires
        v.tidy(),
        v.live(c.i),
    ensures
        v.with_binding(v.block(c.i).region, c.i, s, e).tidy(),
        v.with_binding(v.block(c.i).region, c.i, s, e).blocks == v.blocks,
        forall|b: BlockId| #[trigger] v.with_binding(v.block(c.i).region, c.i, s, e).live(b) == v.live(b),
{
    let r = v.block(c.i).region;
    let nv = v.with_binding(r, c.i, s, e);
    super::wf_proofs::lemma_with_binding_wf(v, r, c.i, s, e);
    assert forall|b: BlockId| #[trigger] nv.live(b) == v.live(b) by {
        if 1 <= b.0 <= v.blocks.len() {
            let q = v.block(b).region.0 as int;
            assert(nv.regions[q].intervals == v.regions[q].intervals);
        }
    }
    assert forall|q: int, b: int|
        0 <= q < nv.regions.len() && nv.regions[q].active && 1 <= b <= nv.blocks.len() && #[trigger] in_used(
            nv.regions[q],
            b,
        ) implies nv.blocks[b - 1].region.0 == q by {
        assert(in_used(v.regions[q], b));
    }
    lemma_tidy_step(v, nv, BlockId(0));
}

/// A block in the used part of an active region lies in one of its ranges.
proof fn lemma_in_used_holds(reg: RegionView<EntryId>, b: int)
    requires
        super::region_ok(reg),
        reg.active,
        in_used(reg, b),
    ensures
        exists|k: int| 0 <= k < reg.intervals.len() && (#[trigger] reg.intervals[k]).holds(b),
{
    if !(exists|k: int| 0 <= k < reg.intervals.len() - 1 && (#[trigger] reg.intervals[k]).holds(b)) {
        assert(reg.intervals[reg.intervals.len() - 1].holds(b));
    } else {
        let k = choose|k: int| 0 <= k < reg.intervals.len() - 1 && (#[trigger] reg.intervals[k]).holds(b);
        assert(reg.intervals[k].holds(b));
    }
}

/// A block in the used part of an active region of a well-formed context
/// lies in one of that region's ranges (group `q + 1`) and below the first
/// never-used identifier.
proof fn lemma_used_block_owned(v: ContextView, q: int, b: int)
    requires
        v.wf(),
        0 <= q < v.regions.len(),
        v.regions[q].active,
        in_used(v.regions[q], b),
    ensures
        1 <= b < v.next_block,
        exists|k: int| super::ranges::valid_slot(v.groups(), q + 1, k) && (#[trigger] v.groups()[q + 1][k]).holds(b),
{
    let reg = v.regions[q];
    assert(super::region_ok(reg));
    lemma_in_used_holds(reg, b);
    let k = choose|k: int| 0 <= k < reg.intervals.len() && (#[trigger] reg.intervals[k]).holds(b);
    let gs = v.groups();
    assert(gs[q + 1] == reg.intervals);
    assert(super::ranges::valid_slot(gs, q + 1, k));
    assert(gs[q + 1][k] == reg.intervals[k]);
}

/// The root of a newly allocated region was not in use, lies in the arena,
/// has no links at all (its parent, first child, last child and next
/// sibling are the null block, whatever the block held before), and
/// belongs to the new region.
pub proof fn law_alloc_region_root_fresh(v: ContextView, size: u32)
    requires
        v.wf(),
    ensures
        v.alloc_region(size).1 matches Some(id) ==> {
            let nv = v.alloc_region(size).0;
            let b = nv.root(id)->0;
            &&& nv.root(id) is Some
            &&& !v.live(b)
            &&& 1 <= b.0 <= nv.blocks.len()
            &&& nv.block(b).up.0 == 0
            &&& nv.block(b).down.0 == 0
            &&& nv.block(b).last_child.0 == 0
            &&& nv.block(b).next.0 == 0
            &&& nv.block(b).region == id
        },
{
    let (nv, res) = v.alloc_region(size);
    if size == 0 || alloc_outcome(v.block_freelist, v.next_block, size) is None || res is None {
        return;
    }
    super::wf_proofs::lemma_alloc_ranges(v, size);
    let (iv, fl, next) = alloc_outcome(v.block_freelist, v.next_block, size)->0;
    let root = iv.begin;
    let gs = v.groups();
    let gs1 = gs.update(0, fl);
    let id = res->0;
    let freshv = nv.regions[id.0 as int];
    assert(freshv.intervals =~= seq![iv]);
    assert(nv.root(id) == Some(root));
    let blk = nv.block(root);
    assert(blk == super::block::detached_block(id));
    assert(blk.up.0 == 0 && blk.down.0 == 0 && blk.last_child.0 == 0 && blk.next.0 == 0 && blk.region == id);
    assert(!v.live(root)) by {
        if v.live(root) {
            let q = v.block(root).region.0 as int;
            assert(in_used(v.regions[q], root.0 as int));
            lemma_used_block_owned(v, q, root.0 as int);
            let k = choose|k: int| super::ranges::valid_slot(gs, q + 1, k) && (#[trigger] gs[q + 1][k]).holds(
                root.0 as int,
            );
            assert(super::ranges::valid_slot(gs1, q + 1, k));
            assert(gs1[q + 1][k] == gs[q + 1][k]);
            assert(iv.disjoint(gs1[q + 1][k]));
        }
    }
}

/// Allocating a region keeps a context tidy, keeps its live blocks and
/// bindings, and (on success) makes the new root live with a null parent.
pub proof fn law_alloc_region_keeps_tidy(v: ContextView, size: u32)
    requires
        v.tidy(),
    ensures
        v.alloc_region(size).0.tidy(),
        v.kept_in(v.alloc_region(size).0),
        v.same_bindings(v.alloc_region(size).0),
        v.alloc_region(size).0.bindings_from(v),
        v.alloc_region(size).1 is None ==> forall|b: BlockId| #[trigger] v.alloc_region(size).0.live(b) ==> v.live(b),
        v.alloc_region(size).1 is Some ==> {
            let nv = v.alloc_region(size).0;
            let id = v.alloc_region(size).1->0;
            let root = nv.root(id)->0;
            &&& nv.root(id) is Some
            &&& nv.live(root)
            &&& !v.live(root)
            &&& nv.block(root).up.0 == 0
            &&& forall|b: BlockId| #[trigger] nv.live(b) ==> v.live(b) || b == root
            &&& forall|i: int| 0 <= i < v.blocks.len() && i != root.0 - 1 ==> #[trigger] nv.blocks[i] == v.blocks[i]
            &&& forall|q: int| 0 <= q < v.regions.len() && q != id.0 ==> #[trigger] nv.regions[q] == v.regions[q]
        },
{
    let (nv, res) = v.alloc_region(size);
    if size == 0 || alloc_outcome(v.block_freelist, v.next_block, size) is None {
        assert(nv == v);
        assert(v.kept_in(v));
        return;
    }
    super::wf_proofs::lemma_alloc_ranges(v, size);
    super::wf_proofs::lemma_alloc_region_wf(v, size);
    let (iv, fl, next) = alloc_outcome(v.block_freelist, v.next_block, size)->0;
    let root = iv.begin;
    let gs = v.groups();
    let gs1 = gs.update(0, fl);
    // used blocks of active regions are outside the new range and in the old arena
    assert forall|q: int, b: int|
        0 <= q < v.regions.len() && v.regions[q].active && #[trigger] in_used(v.regions[q], b) implies !iv.holds(b)
        && 1 <= b <= v.blocks.len() by {
        lemma_used_block_owned(v, q, b);
        let k = choose|k: int| super::ranges::valid_slot(gs, q + 1, k) && (#[trigger] gs[q + 1][k]).holds(b);
        assert(super::ranges::valid_slot(gs1, q + 1, k));
        assert(gs1[q + 1][k] == gs[q + 1][k]);
        assert(iv.disjoint(gs1[q + 1][k]));
    }
    let fresh_idx: int = if v.region_freelist.len() > 0 { v.region_freelist.last() as int } else { v.regions.len() as int };
    let leak = v.region_freelist.len() == 0 && v.regions.len() > super::MAX_REGION_ID;
    assert(v.region_freelist.len() > 0 ==> !v.regions[fresh_idx].active) by {
        if v.region_freelist.len() > 0 {
            assert(v.region_freelist[v.region_freelist.len() - 1] == v.region_freelist.last());
        }
    }
    assert forall|i: int| 0 <= i < v.blocks.len() && i != root.0 - 1 implies #[trigger] nv.blocks[i] == v.blocks[i] by {}
    assert forall|q: int| 0 <= q < v.regions.len() && q != fresh_idx implies #[trigger] nv.regions[q] == v.regions[q] by {}
    // live blocks are kept
    assert forall|b: BlockId| #[trigger] v.live(b) implies nv.live(b) && nv.block(b).up == v.block(b).up
        && nv.block(b).region == v.block(b).region by {
        let q = v.block(b).region.0 as int;
        assert(in_used(v.regions[q], b.0 as int));
        assert(!iv.holds(b.0 as int));
        assert(b.0 - 1 != root.0 - 1);
        assert(nv.blocks[b.0 - 1] == v.blocks[b.0 - 1]);
        assert(q != fresh_idx);
    }
    assert forall|q: int| 0 <= q < v.regions.len() && (#[trigger] v.regions[q]).active implies nv.regions[q].active
        && nv.regions[q].bindings == v.regions[q].bindings by {
        assert(q != fresh_idx);
    }
    if leak {
        assert(nv.blocks.len() >= v.blocks.len());
        assert forall|b: BlockId| #[trigger] nv.live(b) implies v.live(b) || b == BlockId(0) by {
            let q = nv.block(b).region.0 as int;
            lemma_used_block_owned(nv, q, b.0 as int);
            assert(nv.regions[q] == v.regions[q]);
            lemma_used_block_owned(v, q, b.0 as int);
            assert(nv.blocks[b.0 - 1] == v.blocks[b.0 - 1]);
        }
        assert forall|q: int, b: int|
            0 <= q < nv.regions.len() && nv.regions[q].active && 1 <= b <= nv.blocks.len() && #[trigger] in_used(
                nv.regions[q],
                b,
            ) implies nv.blocks[b - 1].region.0 == q by {
            assert(nv.regions[q] == v.regions[q]);
            assert(in_used(v.regions[q], b));
        }
        lemma_tidy_step(v, nv, BlockId(0));
        return;
    }
    let id = res->0;
    assert(id.0 as int == fresh_idx);
    let freshv = nv.regions[fresh_idx];
    assert(freshv.intervals =~= seq![iv]);
    assert(freshv.used == 1);
    assert forall|b: int| #[trigger] in_used(freshv, b) implies b == root.0 by {
        if exists|k: int| 0 <= k < freshv.intervals.len() - 1 && (#[trigger] freshv.intervals[k]).holds(b) {
            let k = choose|k: int| 0 <= k < freshv.intervals.len() - 1 && (#[trigger] freshv.intervals[k]).holds(b);
            assert(false);
        }
        assert(freshv.intervals.last() == iv);
    }
    assert(nv.blocks[root.0 - 1] == super::block::detached_block(id));
    assert(nv.root(id) == Some(root));
    assert(in_used(freshv, root.0 as int)) by {
        assert(freshv.intervals.last() == iv);
    }
    assert(nv.live(root));
    assert(!v.live(root)) by {
        if v.live(root) {
            let q = v.block(root).region.0 as int;
            assert(in_used(v.regions[q], root.0 as int));
        }
    }
    assert forall|b: BlockId| #[trigger] nv.live(b) implies v.live(b) || b == root by {
        let q = nv.block(b).region.0 as int;
        if q != fresh_idx {
            assert(nv.regions[q] == v.regions[q]);
            lemma_used_block_owned(v, q, b.0 as int);
            if b != root {
                assert(nv.blocks[b.0 - 1] == v.blocks[b.0 - 1]);
            }
        }
    }
    assert forall|q: int, b: int|
        0 <= q < nv.regions.len() && nv.regions[q].active && 1 <= b <= nv.blocks.len() && #[trigger] in_used(
            nv.regions[q],
            b,
        ) implies nv.blocks[b - 1].region.0 == q by {
        if q != fresh_idx {
            assert(nv.regions[q] == v.regions[q]);
            assert(in_used(v.regions[q], b));
            assert(nv.blocks[b - 1] == v.blocks[b - 1]);
        }
    }
    assert forall|q: int, b: BlockId, s: Symbol|
        0 <= q < nv.regions.len() && nv.regions[q].active && (
        #[trigger] nv.regions[q].bindings.contains_key((b, s))) implies (0 <= q < v.regions.len()
            && v.regions[q].active && v.regions[q].bindings.contains_key((b, s))) || (nv.live(b)
            && nv.block(b).region.0 == q) by {
        if q == fresh_idx {
            assert(freshv.bindings == Map::<(BlockId, Symbol), EntryId>::empty());
        } else {
            assert(nv.regions[q] == v.regions[q]);
        }
    }
    lemma_tidy_step(v, nv, root);
}

/// The block that `grow_region` hands out was not in use in any active
/// region, the used part of the grown region gains exactly that block, other
/// regions and all bindings are unchanged, and only that arena entry changes.
proof fn lemma_grow_fresh(v: ContextView, r: RegionId)
    requires
        v.wf(),
        (r.0 as int) < v.regions.len(),
        v.regions[r.0 as int].active,
        v.grow_region(r) is Some,
    ensures
        ({
            let (gv, n) = v.grow_region(r)->0;
            let ri = r.0 as int;
            &&& forall|q: int|
                0 <= q < v.regions.len() && v.regions[q].active ==> !(#[trigger] in_used(v.regions[q], n.0 as int))
            &&& forall|b: int| #[trigger] in_used(gv.regions[ri], b) == (in_used(v.regions[ri], b) || b == n.0)
            &&& gv.regions.len() == v.regions.len()
            &&& forall|q: int| 0 <= q < v.regions.len() && q != ri ==> #[trigger] gv.regions[q] == v.regions[q]
            &&& gv.regions[ri].active
            &&& gv.regions[ri].bindings == v.regions[ri].bindings
            &&& 1 <= n.0 <= gv.blocks.len()
            &&& v.blocks.len() <= gv.blocks.len() <= v.blocks.len() + 1
            &&& gv.blocks.len() > v.blocks.len() ==> n.0 - 1 == v.blocks.len()
            &&& forall|i: int| 0 <= i < v.blocks.len() && i != n.0 - 1 ==> #[trigger] gv.blocks[i] == v.blocks[i]
            &&& gv.blocks[n.0 - 1] == super::block::detached_block(r)
            &&& gv.wf()
        }),
{
    super::wf_proofs::lemma_grow_region_wf(v, r);
    let ri = r.0 as int;
    let reg = v.regions[ri];
    let gs = v.groups();
    assert(super::region_ok(reg));
    let li = reg.intervals.len() - 1;
    let last = reg.intervals.last();
    assert(gs[ri + 1] == reg.intervals);
    assert(super::ranges::valid_slot(gs, ri + 1, li));
    assert(reg.intervals[li] == last);
    let (gv, n) = v.grow_region(r)->0;
    if reg.used < last.size() {
        assert(n.0 == last.begin.0 + reg.used);
        assert forall|q: int|
            0 <= q < v.regions.len() && v.regions[q].active implies !(#[trigger] in_used(v.regions[q], n.0 as int)) by {
            if in_used(v.regions[q], n.0 as int) {
                lemma_used_block_owned(v, q, n.0 as int);
                let k = choose|k: int| super::ranges::valid_slot(gs, q + 1, k) && (#[trigger] gs[q + 1][k]).holds(n.0 as int);
                if q != ri || k != li {
                    assert(gs[q + 1][k].disjoint(gs[ri + 1][li]));
                } else {
                    if exists|k2: int| 0 <= k2 < reg.intervals.len() - 1 && (#[trigger] reg.intervals[k2]).holds(n.0 as int) {
                        let k2 = choose|k2: int| 0 <= k2 < reg.intervals.len() - 1 && (#[trigger] reg.intervals[k2]).holds(n.0 as int);
                        assert(super::ranges::valid_slot(gs, ri + 1, k2));
                        assert(gs[ri + 1][k2].disjoint(gs[ri + 1][li]));
                    }
                }
            }
        }
        assert forall|b: int| #[trigger] in_used(gv.regions[ri], b) == (in_used(v.regions[ri], b) || b == n.0) by {
            assert(gv.regions[ri].intervals == reg.intervals);
            assert(gv.regions[ri].used == reg.used + 1);
        }
    } else {
        super::wf_proofs::lemma_alloc_ranges(v, 1);
        let (iv, fl, next) = alloc_outcome(v.block_freelist, v.next_block, 1)->0;
        let gs1 = gs.update(0, fl);
        let coalesce = last.end == iv.begin;
        assert(reg.used == last.size());
        assert(iv.holds(n.0 as int));
        assert forall|q: int|
            0 <= q < v.regions.len() && v.regions[q].active implies !(#[trigger] in_used(v.regions[q], n.0 as int)) by {
            if in_used(v.regions[q], n.0 as int) {
                lemma_used_block_owned(v, q, n.0 as int);
                let k = choose|k: int| super::ranges::valid_slot(gs, q + 1, k) && (#[trigger] gs[q + 1][k]).holds(n.0 as int);
                assert(super::ranges::valid_slot(gs1, q + 1, k));
                assert(gs1[q + 1][k] == gs[q + 1][k]);
                assert(iv.disjoint(gs1[q + 1][k]));
            }
        }
        let nreg = gv.regions[ri];
        if coalesce {
            assert(nreg.intervals == reg.intervals.update(li, super::Interval { begin: last.begin, end: iv.end }));
            assert(nreg.intervals.last() == super::Interval { begin: last.begin, end: iv.end });
            assert forall|b: int| #[trigger] in_used(nreg, b) == (in_used(reg, b) || b == n.0) by {
                if exists|k: int| 0 <= k < nreg.intervals.len() - 1 && (#[trigger] nreg.intervals[k]).holds(b) {
                    let k = choose|k: int| 0 <= k < nreg.intervals.len() - 1 && (#[trigger] nreg.intervals[k]).holds(b);
                    assert(reg.intervals[k] == nreg.intervals[k]);
                }
                if exists|k: int| 0 <= k < reg.intervals.len() - 1 && (#[trigger] reg.intervals[k]).holds(b) {
                    let k = choose|k: int| 0 <= k < reg.intervals.len() - 1 && (#[trigger] reg.intervals[k]).holds(b);
                    assert(reg.intervals[k] == nreg.intervals[k]);
                }
            }
        } else {
            assert(nreg.intervals == reg.intervals.push(iv));
            assert(nreg.intervals.last() == iv);
            assert forall|b: int| #[trigger] in_used(nreg, b) == (in_used(reg, b) || b == n.0) by {
                if exists|k: int| 0 <= k < nreg.intervals.len() - 1 && (#[trigger] nreg.intervals[k]).holds(b) {
                    let k = choose|k: int| 0 <= k < nreg.intervals.len() - 1 && (#[trigger] nreg.intervals[k]).holds(b);
                    assert(reg.intervals[k] == nreg.intervals[k]);
                    if k < li {
                        assert(0 <= k < reg.intervals.len() - 1 && reg.intervals[k].holds(b));
                    }
                }
                if exists|k: int| 0 <= k < reg.intervals.len() - 1 && (#[trigger] reg.intervals[k]).holds(b) {
                    let k = choose|k: int| 0 <= k < reg.intervals.len() - 1 && (#[trigger] reg.intervals[k]).holds(b);
                    assert(reg.intervals[k] == nreg.intervals[k]);
                }
                if last.begin.0 <= b < last.begin.0 + reg.used {
                    assert(nreg.intervals[li] == last);
                    assert(nreg.intervals[li].holds(b));
                }
            }
        }
    }
}

impl ContextView {
    /// `nv` is `self` with block `n` handed out to region `r`: `n` was not in
    /// use in any active region and is now in use in `r`; its entry is reset
    /// (no links, owned by `r`); every other arena entry, every other region
    /// and all bindings are unchanged; the arena grows by at most that one
    /// block; and the size of `r` grows by one block unless its last range
    /// still had room.
    pub open spec fn hands_out(self, r: RegionId, nv: ContextView, n: BlockId) -> bool {
        let ri = r.0 as int;
        let reg = self.regions[ri];
        let grown: int = if reg.used < reg.intervals.last().size() { 0 } else { 1 };
        &&& forall|q: int|
            0 <= q < self.regions.len() && self.regions[q].active ==> !(#[trigger] in_used(self.regions[q], n.0 as int))
        &&& forall|b: int| #[trigger] in_used(nv.regions[ri], b) == (in_used(reg, b) || b == n.0)
        &&& nv.regions.len() == self.regions.len()
        &&& forall|q: int| 0 <= q < self.regions.len() && q != ri ==> #[trigger] nv.regions[q] == self.regions[q]
        &&& nv.regions[ri].active
        &&& nv.regions[ri].bindings == reg.bindings
        &&& 1 <= n.0 <= nv.blocks.len()
        &&& self.blocks.len() <= nv.blocks.len() <= self.blocks.len() + 1
        &&& forall|i: int| 0 <= i < self.blocks.len() && i != n.0 - 1 ==> #[trigger] nv.blocks[i] == self.blocks[i]
        &&& nv.blocks[n.0 - 1] == super::block::detached_block(r)
        &&& nv.region_size(r) == Some((super::ranges::total_size(reg.intervals) + grown) as u32)
    }
}

/// Growing an active region of a well-formed context hands out one block
/// (see `hands_out`).
pub proof fn law_grow_region_hands_out(v: ContextView, r: RegionId)
    requires
        v.wf(),
        (r.0 as int) < v.regions.len(),
        v.regions[r.0 as int].active,
        v.grow_region(r) is Some,
    ensures
        ({
            let (gv, n) = v.grow_region(r)->0;
            v.hands_out(r, gv, n)
        }),
{
    lemma_grow_fresh(v, r);
    let (gv, n) = v.grow_region(r)->0;
    let ri = r.0 as int;
    let reg = v.regions[ri];
    assert(super::region_ok(reg));
    let li = reg.intervals.len() - 1;
    let last = reg.intervals.last();
    let nivs = gv.regions[ri].intervals;
    if reg.used < last.size() {
        assert(nivs == reg.intervals);
    } else {
        super::wf_proofs::lemma_alloc_ranges(v, 1);
        let (iv, fl, next) = alloc_outcome(v.block_freelist, v.next_block, 1)->0;
        if last.end == iv.begin {
            assert(nivs == reg.intervals.update(li, super::Interval { begin: last.begin, end: iv.end }));
            assert(nivs.drop_last() =~= reg.intervals.drop_last());
        } else {
            assert(nivs == reg.intervals.push(iv));
            assert(nivs.drop_last() =~= reg.intervals);
        }
    }
}

/// Linking a child changes only the down, last-child and next links.
proof fn lemma_link_child_entries(v: ContextView, parent: BlockId, child: BlockId)
    requires
        1 <= parent.0 <= v.blocks.len(),
    ensures
        v.linked_as_last_child(parent, child).len() == v.blocks.len(),
        forall|i: int|
            0 <= i < v.blocks.len() ==> (#[trigger] v.linked_as_last_child(parent, child)[i]).up
                == v.blocks[i].up && v.linked_as_last_child(parent, child)[i].region == v.blocks[i].region,
{
}

/// Pushing a block under a live cursor of a tidy context keeps it tidy, keeps
/// its live blocks and bindings, makes the new block live with the cursor as
/// parent, and lookups from the new block (and from the cursor) give what
/// lookups from the cursor gave before: a new scope sees exactly the
/// enclosing scopes.
pub proof fn law_push_block_scope(v: ContextView, c: Cursor)
    requires
        v.tidy(),
        v.live(c.i),
    ensures
        ({
            let (nv, c1, res) = v.push_block_result(c);
            &&& nv.tidy()
            &&& v.kept_in(nv)
            &&& v.same_bindings(nv)
            &&& res is None ==> nv == v && c1 == c
            &&& res is Some ==> {
                &&& nv.live(c1.i)
                &&& nv.block(c1.i).up == c.i
                &&& forall|s: Symbol|
                    #![trigger nv.resolve(c1.i, s)]
                    #![trigger nv.resolves(c1.i, s)]
                    nv.resolves(c1.i, s) && nv.resolve(c1.i, s) == v.resolve(c.i, s) && nv.resolves(c.i, s)
                        && nv.resolve(c.i, s) == v.resolve(c.i, s)
            }
        }),
{
    let (nv, c1, res) = v.push_block_result(c);
    let r = v.block(c.i).region;
    let ri = r.0 as int;
    if v.grow_region(r) is None {
        assert(nv == v && c1 == c);
        assert(v.kept_in(v));
        return;
    }
    lemma_grow_fresh(v, r);
    let (gv, n) = v.grow_region(r)->0;
    let cb = v.blocks[c.i.0 - 1];
    assert(v.block_ok(cb));
    assert(gv.blocks[c.i.0 - 1] == cb) by {
        assert(in_used(v.regions[ri], c.i.0 as int));
        assert(c.i.0 != n.0);
    }
    super::wf_proofs::lemma_link_child_wf(gv, c.i, n);
    let lv = ContextView { blocks: gv.linked_as_last_child(c.i, n), ..gv };
    assert(gv.block_ok(gv.blocks[c.i.0 - 1]));
    lemma_link_child_entries(gv, c.i, n);
    let nb = Block { up: c.i, ..lv.blocks[n.0 - 1] };
    assert(lv.block_ok(lv.blocks[n.0 - 1]));
    super::wf_proofs::lemma_set_block_wf(lv, n.0 - 1, nb);
    assert(nv == lv.with_block(n.0 - 1, nb));
    assert(c1.i == n);
    // arena entries other than the new block keep their parent and region
    assert forall|i: int| 0 <= i < v.blocks.len() && i != n.0 - 1 implies (#[trigger] nv.blocks[i]).up
        == v.blocks[i].up && nv.blocks[i].region == v.blocks[i].region by {
        assert(lv.blocks[i].up == gv.blocks[i].up);
    }
    assert(nv.blocks[n.0 - 1].region == r);
    assert(nv.blocks[n.0 - 1].up == c.i);
    assert(nv.regions == gv.regions);
    // live blocks are kept
    assert forall|b: BlockId| #[trigger] v.live(b) implies nv.live(b) && nv.block(b).up == v.block(b).up
        && nv.block(b).region == v.block(b).region by {
        let q = v.block(b).region.0 as int;
        assert(in_used(v.regions[q], b.0 as int));
        assert(b.0 != n.0);
        if q == ri {
            assert(in_used(gv.regions[ri], b.0 as int));
        } else {
            assert(gv.regions[q] == v.regions[q]);
        }
    }
    assert forall|q: int| 0 <= q < v.regions.len() && (#[trigger] v.regions[q]).active implies nv.regions[q].active
        && nv.regions[q].bindings == v.regions[q].bindings by {
        if q != ri {
            assert(gv.regions[q] == v.regions[q]);
        }
    }
    assert(v.kept_in(nv));
    assert(v.same_bindings(nv));
    // the new block is live
    assert(in_used(gv.regions[ri], n.0 as int));
    assert(nv.live(n));
    assert forall|b: BlockId| #[trigger] nv.live(b) implies v.live(b) || b == n by {
        if b != n {
            let q = nv.block(b).region.0 as int;
            assert(b.0 - 1 < v.blocks.len());
            assert(nv.blocks[b.0 - 1].region == v.blocks[b.0 - 1].region);
            if q == ri {
                assert(in_used(v.regions[ri], b.0 as int));
            } else {
                assert(gv.regions[q] == v.regions[q]);
            }
        }
    }
    assert forall|q: int, b: int|
        0 <= q < nv.regions.len() && nv.regions[q].active && 1 <= b <= nv.blocks.len() && #[trigger] in_used(
            nv.regions[q],
            b,
        ) implies nv.blocks[b - 1].region.0 == q by {
        if b == n.0 {
            if q != ri {
                assert(gv.regions[q] == v.regions[q]);
            }
        } else {
            if q == ri {
                assert(in_used(v.regions[ri], b));
            } else {
                assert(gv.regions[q] == v.regions[q]);
            }
            lemma_used_block_owned(v, q, b);
        }
    }
    assert forall|q: int, b: BlockId, s: Symbol|
        0 <= q < nv.regions.len() && nv.regions[q].active && (
        #[trigger] nv.regions[q].bindings.contains_key((b, s))) implies (0 <= q < v.regions.len()
            && v.regions[q].active && v.regions[q].bindings.contains_key((b, s))) || (nv.live(b)
            && nv.block(b).region.0 == q) by {
        if q != ri {
            assert(gv.regions[q] == v.regions[q]);
        }
    }
    lemma_tidy_step(v, nv, n);
    // lookups
    let k = choose|k: nat| #[trigger] v.live_chain(c.i, k);
    assert forall|s: Symbol| #![trigger nv.resolve(n, s)]
        nv.resolves(n, s) && nv.resolve(n, s) == v.resolve(c.i, s) && nv.resolves(c.i, s)
            && nv.resolve(c.i, s) == v.resolve(c.i, s) by {
        lemma_chain_lookup(v, c.i, s, k);
        lemma_lookup_kept(v, nv, c.i, s, k);
        super::wf_proofs::lemma_resolve_from_fuel(v, c.i, s, k);
        super::wf_proofs::lemma_resolve_from_fuel(nv, c.i, s, k);
        assert(!nv.regions[ri].bindings.contains_key((n, s))) by {
            if v.regions[ri].bindings.contains_key((n, s)) {
                assert(v.live(n));
                assert(in_used(v.regions[v.block(n).region.0 as int], n.0 as int));
            }
        }
        assert(nv.lookup(n, s, k + 1) == nv.lookup(c.i, s, k));
        super::wf_proofs::lemma_resolve_from_fuel(nv, n, s, k + 1);
    }
}

impl ContextView {
    /// `nv` is `self` with `n` appended as the new last child of block `c`:
    /// `n` was not in use, it is a leaf of `c`'s region with parent `c`; `c`
    /// keeps its first child (or takes `n` as first child when it had none)
    /// and takes `n` as last child; the old last child gets `n` as next
    /// sibling; and the size of `c`'s region grows by one block unless its
    /// last range still had room.
    pub open spec fn appends_leaf(self, c: BlockId, nv: ContextView, n: BlockId) -> bool {
        let p = self.block(c);
        let reg = self.regions[p.region.0 as int];
        let grown: int = if reg.used < reg.intervals.last().size() { 0 } else { 1 };
        &&& n != c
        &&& !self.live(n)
        &&& 1 <= n.0 <= nv.blocks.len()
        &&& nv.block(n).up == c
        &&& nv.block(n).down.0 == 0
        &&& nv.block(n).last_child.0 == 0
        &&& nv.block(n).region == p.region
        &&& (p.down.0 == 0 || p.last_child != n) ==> nv.block(n).next.0 == 0
        &&& nv.block(c).last_child == n
        &&& nv.block(c).down == (if p.down.0 == 0 { n } else { p.down })
        &&& p.down.0 != 0 && 1 <= p.last_child.0 <= self.blocks.len() ==> nv.block(p.last_child).next == n
        &&& nv.region_size(p.region) == Some((super::ranges::total_size(reg.intervals) + grown) as u32)
    }
}

/// Pushing a block under a live block appends a fresh leaf to its children
/// (see `appends_leaf`); when the allocator refuses, nothing changes.
pub proof fn law_push_block_shape(v: ContextView, c: Cursor)
    requires
        v.wf(),
        v.live(c.i),
    ensures
        ({
            let (nv, c1, res) = v.push_block_result(c);
            &&& res is Some ==> v.appends_leaf(c.i, nv, c1.i)
            &&& res is None ==> nv == v && c1 == c
        }),
{
    let (nv, c1, res) = v.push_block_result(c);
    let r = v.block(c.i).region;
    let ri = r.0 as int;
    if v.grow_region(r) is Some {
        lemma_grow_fresh(v, r);
        let (gv, n) = v.grow_region(r)->0;
        let p = v.block(c.i);
        let reg = v.regions[ri];
        assert(in_used(reg, c.i.0 as int));
        assert(n != c.i);
        assert(!v.live(n));
        assert(gv.blocks[c.i.0 - 1] == p);
        let lb = gv.linked_as_last_child(c.i, n);
        assert(c1.i == n);
        assert(nv.blocks == lb.update(n.0 - 1, Block { up: c.i, ..lb[n.0 - 1] }));
        assert(nv.regions == gv.regions);
        // the region's size
        let li = reg.intervals.len() - 1;
        let last = reg.intervals.last();
        let nivs = gv.regions[ri].intervals;
        if reg.used < last.size() {
            assert(nivs == reg.intervals);
        } else {
            super::wf_proofs::lemma_alloc_ranges(v, 1);
            let (iv, fl, next) = alloc_outcome(v.block_freelist, v.next_block, 1)->0;
            if last.end == iv.begin {
                assert(nivs == reg.intervals.update(li, super::Interval { begin: last.begin, end: iv.end }));
                assert(nivs.drop_last() =~= reg.intervals.drop_last());
            } else {
                assert(nivs == reg.intervals.push(iv));
                assert(nivs.drop_last() =~= reg.intervals);
            }
        }
    }
}

/// Lookups are kept by a change that keeps the parent link and region of
/// every arena block but `n`, and the activity and bindings of every region,
/// as long as they end without the walk passing `n`.
proof fn lemma_lookup_kept_off(v: ContextView, nv: ContextView, n: BlockId, x: BlockId, s: Symbol, m: nat)
    requires
        v.wf(),
        nv.blocks.len() >= v.blocks.len(),
        nv.regions.len() == v.regions.len(),
        forall|i: int|
            0 <= i < v.blocks.len() && i != n.0 - 1 ==> (#[trigger] nv.blocks[i]).up == v.blocks[i].up
                && nv.blocks[i].region == v.blocks[i].region,
        forall|q: int|
            0 <= q < v.regions.len() ==> (#[trigger] nv.regions[q]).active == v.regions[q].active
                && nv.regions[q].bindings == v.regions[q].bindings,
        v.lookup(x, s, m) is Some,
        !walk_reaches(v, x, s, n, m),
    ensures
        nv.lookup(x, s, m) == v.lookup(x, s, m),
    decreases m,
{
    if x.0 != 0 {
        assert(v.block_ok(v.blocks[x.0 - 1]));
        assert(nv.blocks[x.0 - 1].up == v.blocks[x.0 - 1].up);
        let q = v.block(x).region.0 as int;
        assert(nv.regions[q].active == v.regions[q].active);
        let reg = v.regions[q];
        if !(reg.active && reg.bindings.contains_key((x, s))) {
            lemma_lookup_kept_off(v, nv, n, v.block(x).up, s, (m - 1) as nat);
        }
    }
}

/// A pushed block sees exactly the scopes that enclose its parent, and the
/// parent's own lookups are unchanged, whenever the lookup from the parent
/// ends without passing the block that is handed out and the parent's region
/// holds no binding at that block. (Both can fail only when a block that is
/// no longer in use is handed out again: a released ancestor, or a block that
/// was bound before it was in use.)
pub proof fn law_push_block_sees_enclosing_scopes(v: ContextView, c: Cursor, s: Symbol, k: nat)
    requires
        v.wf(),
        1 <= c.i.0 <= v.blocks.len(),
        v.regions[v.block(c.i).region.0 as int].active,
        v.lookup(c.i, s, k) is Some,
        ({
            let (nv, c1, res) = v.push_block_result(c);
            res is Some ==> !walk_reaches(v, c.i, s, c1.i, k) && !v.regions[v.block(
                c.i,
            ).region.0 as int].bindings.contains_key((c1.i, s))
        }),
    ensures
        ({
            let (nv, c1, res) = v.push_block_result(c);
            &&& nv.resolves(c.i, s)
            &&& nv.resolve(c.i, s) == v.resolve(c.i, s)
            &&& nv.resolves(c1.i, s)
            &&& nv.resolve(c1.i, s) == v.resolve(c.i, s)
        }),
{
    let (nv, c1, res) = v.push_block_result(c);
    let r = v.block(c.i).region;
    let ri = r.0 as int;
    super::wf_proofs::lemma_resolve_from_fuel(v, c.i, s, k);
    if v.grow_region(r) is None {
        return;
    }
    lemma_grow_fresh(v, r);
    let (gv, n) = v.grow_region(r)->0;
    assert(c1.i == n);
    let lv = ContextView { blocks: gv.linked_as_last_child(c.i, n), ..gv };
    lemma_link_child_entries(gv, c.i, n);
    let nb = Block { up: c.i, ..lv.blocks[n.0 - 1] };
    assert(nv == lv.with_block(n.0 - 1, nb));
    assert forall|i: int| 0 <= i < v.blocks.len() && i != n.0 - 1 implies (#[trigger] nv.blocks[i]).up
        == v.blocks[i].up && nv.blocks[i].region == v.blocks[i].region by {
        assert(nv.blocks[i] == lv.blocks[i]);
        assert(gv.blocks[i] == v.blocks[i]);
    }
    assert forall|q: int| 0 <= q < v.regions.len() implies (#[trigger] nv.regions[q]).active == v.regions[q].active
        && nv.regions[q].bindings == v.regions[q].bindings by {
        if q != ri {
            assert(gv.regions[q] == v.regions[q]);
        }
    }
    lemma_lookup_kept_off(v, nv, n, c.i, s, k);
    super::wf_proofs::lemma_resolve_from_fuel(nv, c.i, s, k);
    // the new block: region r, no binding of `s` there, parent `c`
    assert(nv.blocks[n.0 - 1].region == r);
    assert(nv.blocks[n.0 - 1].up == c.i);
    assert(nv.lookup(n, s, k + 1) == nv.lookup(c.i, s, k));
    super::wf_proofs::lemma_resolve_from_fuel(nv, n, s, k + 1);
}

/// The parent links form a forest, witnessed by `depth`: every parent link of
/// an arena block is the null block or an arena block, and climbing to the
/// parent strictly lowers the depth (so no block is its own ancestor).
pub open spec fn is_forest(v: ContextView, depth: spec_fn(BlockId) -> nat) -> bool {
    forall|x: BlockId|
        1 <= x.0 <= v.blocks.len() ==> v.in_range(#[trigger] v.block(x).up) && (v.block(x).up.0 != 0
            ==> depth(v.block(x).up) < depth(x))
}

/// Block `a` is `y` or one of its ancestors, following parent links along
/// which `depth` decreases.
pub open spec fn descends_from(v: ContextView, depth: spec_fn(BlockId) -> nat, y: BlockId, a: BlockId) -> bool
    decreases depth(y),
{
    if y == a {
        true
    } else if y.0 == 0 || y.0 > v.blocks.len() {
        false
    } else if v.block(y).up.0 != 0 && depth(v.block(y).up) < depth(y) {
        descends_from(v, depth, v.block(y).up, a)
    } else {
        false
    }
}

/// Pushing a block keeps the parent links a forest, unless the block handed
/// out is the cursor's block or one of its ancestors (which happens only when
/// a released block on the cursor's chain is handed out again).
pub proof fn law_push_block_keeps_forest(v: ContextView, c: Cursor, depth: spec_fn(BlockId) -> nat)
    requires
        v.wf(),
        1 <= c.i.0 <= v.blocks.len(),
        v.regions[v.block(c.i).region.0 as int].active,
        is_forest(v, depth),
        ({
            let (nv, c1, res) = v.push_block_result(c);
            res is Some ==> !descends_from(v, depth, c.i, c1.i)
        }),
    ensures
        ({
            let (nv, c1, res) = v.push_block_result(c);
            exists|d2: spec_fn(BlockId) -> nat| is_forest(nv, d2)
        }),
{
    let (nv, c1, res) = v.push_block_result(c);
    let r = v.block(c.i).region;
    let ri = r.0 as int;
    if v.grow_region(r) is None {
        assert(is_forest(nv, depth));
        return;
    }
    lemma_grow_fresh(v, r);
    let (gv, n) = v.grow_region(r)->0;
    assert(c1.i == n);
    let lv = ContextView { blocks: gv.linked_as_last_child(c.i, n), ..gv };
    lemma_link_child_entries(gv, c.i, n);
    let nb = Block { up: c.i, ..lv.blocks[n.0 - 1] };
    assert(nv == lv.with_block(n.0 - 1, nb));
    let big = depth(c.i) + 1;
    let d2 = |y: BlockId| if descends_from(v, depth, y, n) { depth(y) + big } else { depth(y) };
    assert forall|x: BlockId| 1 <= x.0 <= nv.blocks.len() implies nv.in_range(#[trigger] nv.block(x).up) && (
    nv.block(x).up.0 != 0 ==> d2(nv.block(x).up) < d2(x)) by {
        if x == n {
            assert(nv.block(x).up == c.i);
            assert(!descends_from(v, depth, c.i, n));
        } else if x.0 <= v.blocks.len() {
            assert(nv.blocks[x.0 - 1] == lv.blocks[x.0 - 1]);
            assert(gv.blocks[x.0 - 1] == v.blocks[x.0 - 1]);
            assert(nv.block(x).up == v.block(x).up);
            let u = v.block(x).up;
            if u.0 != 0 {
                assert(depth(u) < depth(x));
                assert(descends_from(v, depth, x, n) == descends_from(v, depth, u, n));
            }
        } else {
            assert(gv.blocks.len() == v.blocks.len() + 1);
        }
    }
    assert(is_forest(nv, d2));
}

impl ContextView {
    /// `nv` has `child` as the new last child of block `parent`: `parent`
    /// keeps its first child (or takes `child` as first child when it had
    /// none), and its old last child, when that is an arena block other than
    /// `child`, gets `child` as next sibling.
    pub open spec fn appends_child(self, parent: BlockId, nv: ContextView, child: BlockId) -> bool {
        let p = self.block(parent);
        &&& nv.block(parent).last_child == child
        &&& nv.block(parent).down == (if p.down.0 == 0 { child } else { p.down })
        &&& p.down.0 != 0 && 1 <= p.last_child.0 <= self.blocks.len() && p.last_child != child
            ==> nv.block(p.last_child).next == child
    }
}

/// A nested region's root has the parent block as parent, and is appended as
/// the new last child of that block (see `appends_child`) when the parent is
/// an arena block other than the root that is handed out.
pub proof fn law_alloc_child_links(v: ContextView, size: u32, parent: BlockId)
    requires
        v.wf(),
    ensures
        ({
            let (nv, r) = v.alloc_child_region(size, parent);
            let p = v.block(parent);
            r is Some ==> {
                let root = nv.root(r->0)->0;
                &&& nv.root(r->0) is Some
                &&& nv.block(root).up == parent
                &&& 1 <= parent.0 <= v.blocks.len() && parent != root ==> v.appends_child(parent, nv, root)
            }
        }),
{
    let (nv, r) = v.alloc_child_region(size, parent);
    let (v1, r1) = v.alloc_region(size);
    if r1 is Some {
        let id = r1->0;
        super::wf_proofs::lemma_alloc_ranges(v, size);
        super::wf_proofs::lemma_alloc_region_wf(v, size);
        let (iv, fl, next) = alloc_outcome(v.block_freelist, v.next_block, size)->0;
        let root = v1.regions[id.0 as int].intervals[0].begin;
        assert(root == iv.begin);
        assert(forall|i: int| 0 <= i < v.blocks.len() && i != root.0 - 1 ==> #[trigger] v1.blocks[i] == v.blocks[i]);
        let v2 = v1.with_block(root.0 - 1, Block { up: parent, ..v1.block(root) });
        assert(nv.regions == v1.regions);
        assert(nv.root(id) == Some(root));
    }
}

/// `push_block` may be called at a live block of a well-formed context whose
/// children, if any, end with an arena block: the region grows without
/// touching that block's entry, and the arena only grows.
pub proof fn law_push_link_ok(v: ContextView, c: Cursor)
    requires
        v.wf(),
        v.live(c.i),
        v.block(c.i).down.0 != 0 ==> 1 <= v.block(c.i).last_child.0 <= v.blocks.len(),
    ensures
        v.push_link_ok(c),
{
    let r = v.block(c.i).region;
    if v.grow_region(r) is Some {
        lemma_grow_fresh(v, r);
        let (gv, n) = v.grow_region(r)->0;
        assert(in_used(v.regions[r.0 as int], c.i.0 as int));
        assert(gv.blocks[c.i.0 - 1] == v.blocks[c.i.0 - 1]);
    }
}

/// Allocating a one-block region nested under a live cursor of a tidy
/// context keeps it tidy, keeps its live blocks and bindings, makes the new
/// root live with the cursor as parent, and lookups from the new root (and
/// from the cursor) give what lookups from the cursor gave before: a nested
/// region sees exactly the enclosing scopes.
pub proof fn law_push_region_scope(v: ContextView, c: Cursor)
    requires
        v.tidy(),
        v.live(c.i),
    ensures
        ({
            let (nv, res) = v.alloc_child_region(1, c.i);
            &&& nv.tidy()
            &&& v.kept_in(nv)
            &&& v.same_bindings(nv)
            &&& res is Some ==> {
                let root = nv.root(res->0)->0;
                &&& nv.root(res->0) is Some
                &&& nv.live(root)
                &&& nv.block(root).up == c.i
                &&& forall|s: Symbol|
                    #![trigger nv.resolve(root, s)]
                    #![trigger nv.resolves(root, s)]
                    nv.resolves(root, s) && nv.resolve(root, s) == v.resolve(c.i, s) && nv.resolves(c.i, s)
                        && nv.resolve(c.i, s) == v.resolve(c.i, s)
            }
        }),
{
    law_alloc_region_keeps_tidy(v, 1);
    let (v1, res) = v.alloc_region(1);
    let (nv, res2) = v.alloc_child_region(1, c.i);
    if res is None {
        assert(nv == v1);
        assert forall|b: BlockId| #[trigger] nv.live(b) implies v.live(b) || b == BlockId(0) by {}
        lemma_tidy_step(v, nv, BlockId(0));
        return;
    }
    let id = res->0;
    let root = v1.root(id)->0;
    assert(v1.regions[id.0 as int].intervals[0].begin == root);
    let rb = v1.blocks[root.0 - 1];
    assert(v1.block_ok(rb));
    let nrb = Block { up: c.i, ..rb };
    super::wf_proofs::lemma_set_block_wf(v1, root.0 - 1, nrb);
    let v2 = v1.with_block(root.0 - 1, nrb);
    assert(c.i != root);
    assert(v1.blocks[c.i.0 - 1] == v.blocks[c.i.0 - 1]);
    assert(v.block_ok(v.blocks[c.i.0 - 1]));
    assert(v2.blocks[c.i.0 - 1] == v.blocks[c.i.0 - 1]);
    assert(c.i.0 <= v2.blocks.len());
    super::wf_proofs::lemma_link_child_wf(v2, c.i, root);
    lemma_link_child_entries(v2, c.i, root);
    assert(nv == ContextView { blocks: v2.linked_as_last_child(c.i, root), ..v2 });
    assert(nv.regions == v1.regions);
    assert forall|i: int| 0 <= i < v1.blocks.len() implies (#[trigger] nv.blocks[i]).region == v1.blocks[i].region
        && (i != root.0 - 1 ==> nv.blocks[i].up == v1.blocks[i].up) by {}
    assert(nv.blocks[root.0 - 1].up == c.i);
    assert forall|b: BlockId| #[trigger] nv.live(b) == v1.live(b) by {
        if 1 <= b.0 <= nv.blocks.len() {
            assert(nv.blocks[b.0 - 1].region == v1.blocks[b.0 - 1].region);
        }
    }
    assert forall|b: BlockId| #[trigger] v.live(b) implies nv.live(b) && nv.block(b).up == v.block(b).up
        && nv.block(b).region == v.block(b).region by {
        assert(v1.live(b));
        assert(b != root);
    }
    assert(v.kept_in(nv));
    assert(v.same_bindings(nv));
    assert forall|q: int, b: int|
        0 <= q < nv.regions.len() && nv.regions[q].active && 1 <= b <= nv.blocks.len() && #[trigger] in_used(
            nv.regions[q],
            b,
        ) implies nv.blocks[b - 1].region.0 == q by {
        assert(v1.blocks[b - 1].region.0 == q);
    }
    assert forall|q: int, b: BlockId, s: Symbol|
        0 <= q < nv.regions.len() && nv.regions[q].active && (
        #[trigger] nv.regions[q].bindings.contains_key((b, s))) implies (0 <= q < v.regions.len()
            && v.regions[q].active && v.regions[q].bindings.contains_key((b, s))) || (nv.live(b)
            && nv.block(b).region.0 == q) by {
        assert(v1.regions[q].bindings.contains_key((b, s)));
    }
    lemma_tidy_step(v, nv, root);
    let k = choose|k: nat| #[trigger] v.live_chain(c.i, k);
    assert forall|s: Symbol| #![trigger nv.resolve(root, s)]
        nv.resolves(root, s) && nv.resolve(root, s) == v.resolve(c.i, s) && nv.resolves(c.i, s)
            && nv.resolve(c.i, s) == v.resolve(c.i, s) by {
        lemma_chain_lookup(v, c.i, s, k);
        lemma_lookup_kept(v, nv, c.i, s, k);
        super::wf_proofs::lemma_resolve_from_fuel(v, c.i, s, k);
        super::wf_proofs::lemma_resolve_from_fuel(nv, c.i, s, k);
        assert(!nv.regions[id.0 as int].bindings.contains_key((root, s))) by {
            if nv.regions[id.0 as int].bindings.contains_key((root, s)) {
                assert(v.live(root));
            }
        }
        assert(nv.block(root).region == id);
        assert(nv.lookup(root, s, k + 1) == nv.lookup(c.i, s, k));
        super::wf_proofs::lemma_resolve_from_fuel(nv, root, s, k + 1);
    }
}

/// Chains of live blocks outside region `id` that never enter `id` survive
/// the release of `id`.
proof fn lemma_chain_after_free(v: ContextView, id: RegionId, b: BlockId, k: nat)
    requires
        v.tidy(),
        (id.0 as int) < v.regions.len(),
        v.regions[id.0 as int].active,
        v.live_chain(b, k),
        b.0 == 0 || v.block(b).region != id,
        forall|x: BlockId|
            #[trigger] v.live(x) && v.block(x).region != id && v.block(x).up.0 != 0 ==> v.block(
                v.block(x).up,
            ).region != id,
    ensures
        v.freed(id).live_chain(b, k),
    decreases k,
{
    if b.0 != 0 {
        let q = v.block(b).region.0 as int;
        assert(v.freed(id).regions[q] == v.regions[q]);
        lemma_chain_after_free(v, id, v.block(b).up, (k - 1) as nat);
    }
}

/// Releasing a region of a tidy context keeps it tidy, provided no live
/// block of another region has its parent in the released one (nested
/// regions are released before the regions they are nested in).
pub proof fn law_region_free_keeps_tidy(v: ContextView, id: RegionId)
    requires
        v.tidy(),
        (id.0 as int) < v.regions.len(),
        v.regions[id.0 as int].active,
        forall|x: BlockId|
            #[trigger] v.live(x) && v.block(x).region != id && v.block(x).up.0 != 0 ==> v.block(
                v.block(x).up,
            ).region != id,
    ensures
        v.freed(id).tidy(),
        forall|b: BlockId| #[trigger] v.freed(id).live(b) <==> v.live(b) && v.block(b).region != id,
{
    let nv = v.freed(id);
    super::wf_proofs::lemma_freed_wf(v, id);
    assert forall|b: BlockId| #[trigger] nv.live(b) <==> v.live(b) && v.block(b).region != id by {
        if 1 <= b.0 <= v.blocks.len() {
            let q = v.block(b).region.0 as int;
            if q != id.0 {
                assert(nv.regions[q] == v.regions[q]);
            }
        }
    }
    assert forall|b: BlockId| #[trigger] nv.live(b) implies exists|k: nat| #[trigger] nv.live_chain(b, k) by {
        let k = choose|k: nat| #[trigger] v.live_chain(b, k);
        lemma_chain_after_free(v, id, b, k);
    }
    assert forall|q: int, b: int|
        0 <= q < nv.regions.len() && nv.regions[q].active && 1 <= b <= nv.blocks.len() && #[trigger] in_used(
            nv.regions[q],
            b,
        ) implies nv.blocks[b - 1].region.0 == q by {
        assert(nv.regions[q] == v.regions[q]);
    }
    assert forall|q: int, b: BlockId, s: Symbol|
        0 <= q < nv.regions.len() && nv.regions[q].active && (
        #[trigger] nv.regions[q].bindings.contains_key((b, s))) implies nv.live(b) && nv.block(b).region.0
        == q by {
        assert(nv.regions[q] == v.regions[q]);
        assert(v.live(b));
    }
}

} // verus!
