//! Runs of public calls on a context: each call is a step between abstract
//! states, and what every step keeps holds along every run.

use vstd::prelude::*;
use super::block::{Block, BlockId};
use super::cursor::Cursor;
use super::wf_proofs::{
    lemma_alloc_ranges, lemma_alloc_region_wf, lemma_freed_wf, lemma_grow_region_wf, lemma_link_child_wf,
    lemma_set_block_wf, lemma_with_binding_wf,
};
use super::allocator::alloc_outcome;
use super::{region_ok, ContextView, EntryId, RegionId, Symbol};

verus! {

/// `nv` is the state after one public mutating call on `v` whose
/// requirements hold: `region_alloc`, `region_free`, `bind`, `push_block`,
/// `region_alloc_child` or `push_region`, a link operation (which rewrites
/// the links of one arena block), or a call that changes nothing.
pub open spec fn is_step(v: ContextView, nv: ContextView) -> bool {
    ||| nv == v
    ||| exists|size: u32| #[trigger] v.alloc_region(size).0 == nv
    ||| exists|id: RegionId|
        ((id.0 as int) < v.regions.len() ==> v.regions[id.0 as int].active) && #[trigger] v.freed(id) == nv
    ||| exists|b: BlockId, s: Symbol, e: EntryId|
        1 <= b.0 <= v.blocks.len() && v.regions[v.block(b).region.0 as int].active && #[trigger] v.with_binding(
            v.block(b).region,
            b,
            s,
            e,
        ) == nv
    ||| exists|c: Cursor|
        v.in_range(c.i) && (c.i.0 != 0 ==> v.regions[v.block(c.i).region.0 as int].active)
            && #[trigger] v.push_block_result(c).0 == nv
    ||| exists|size: u32, parent: BlockId| #[trigger] v.alloc_child_region(size, parent).0 == nv
    ||| exists|b: BlockId, blk: Block|
        1 <= b.0 <= v.blocks.len() && blk.region == v.block(b).region && (blk.down.0 == 0) == (blk.last_child.0
            == 0) && #[trigger] v.with_block(b.0 - 1, blk) == nv
}

/// Allocating a region keeps a context well formed and does not shrink the
/// arena.
proof fn lemma_alloc_region_step(v: ContextView, size: u32)
    requires
        v.wf(),
    ensures
        v.alloc_region(size).0.wf(),
        v.alloc_region(size).0.blocks.len() >= v.blocks.len(),
{
    lemma_alloc_region_wf(v, size);
    if size != 0 && alloc_outcome(v.block_freelist, v.next_block, size) is Some {
        lemma_alloc_ranges(v, size);
    }
}

/// Pushing a block keeps a context well formed and does not shrink the
/// arena.
proof fn lemma_push_block_step(v: ContextView, c: Cursor)
    requires
        v.wf(),
        v.in_range(c.i),
        c.i.0 != 0 ==> v.regions[v.block(c.i).region.0 as int].active,
    ensures
        v.push_block_result(c).0.wf(),
        v.push_block_result(c).0.blocks.len() >= v.blocks.len(),
{
    if c.i.0 != 0 {
        let r = v.block(c.i).region;
        assert(v.block_ok(v.blocks[c.i.0 - 1]));
        if v.grow_region(r) is Some {
            lemma_grow_region_wf(v, r);
            let (v1, n) = v.grow_region(r)->0;
            lemma_link_child_wf(v1, c.i, n);
            let lv = ContextView { blocks: v1.linked_as_last_child(c.i, n), ..v1 };
            let nb = Block { up: c.i, ..lv.blocks[n.0 - 1] };
            assert(lv.block_ok(lv.blocks[n.0 - 1]));
            lemma_set_block_wf(lv, n.0 - 1, nb);
            assert(v.push_block_result(c).0 == lv.with_block(n.0 - 1, nb));
        }
    }
}

/// Allocating a nested region keeps a context well formed and does not
/// shrink the arena.
proof fn lemma_alloc_child_step(v: ContextView, size: u32, parent: BlockId)
    requires
        v.wf(),
    ensures
        v.alloc_child_region(size, parent).0.wf(),
        v.alloc_child_region(size, parent).0.blocks.len() >= v.blocks.len(),
{
    lemma_alloc_region_step(v, size);
    let (v1, r) = v.alloc_region(size);
    if r is Some {
        let id = r->0;
        let reg = v1.regions[id.0 as int];
        let gs = v1.groups();
        assert(region_ok(reg));
        assert(gs[id.0 as int + 1] == reg.intervals);
        assert(super::ranges::valid_slot(gs, id.0 as int + 1, 0));
        let root = reg.intervals[0].begin;
        assert(1 <= root.0 <= v1.blocks.len());
        assert(v1.block_ok(v1.blocks[root.0 - 1]));
        let v2 = v1.with_block(root.0 - 1, Block { up: parent, ..v1.block(root) });
        lemma_set_block_wf(v1, root.0 - 1, Block { up: parent, ..v1.block(root) });
        if parent.0 != 0 && parent.0 <= v2.blocks.len() {
            lemma_link_child_wf(v2, parent, root);
        }
    }
}

/// One step keeps a context well formed and does not shrink the arena.
pub proof fn lemma_step(v: ContextView, nv: ContextView)
    requires
        v.wf(),
        is_step(v, nv),
    ensures
        nv.wf(),
        nv.blocks.len() >= v.blocks.len(),
{
    if nv == v {
    } else if exists|size: u32| #[trigger] v.alloc_region(size).0 == nv {
        let size = choose|size: u32| #[trigger] v.alloc_region(size).0 == nv;
        lemma_alloc_region_step(v, size);
    } else if exists|id: RegionId|
        ((id.0 as int) < v.regions.len() ==> v.regions[id.0 as int].active) && #[trigger] v.freed(id) == nv {
        let id = choose|id: RegionId|
            ((id.0 as int) < v.regions.len() ==> v.regions[id.0 as int].active) && #[trigger] v.freed(id) == nv;
        if (id.0 as int) < v.regions.len() {
            lemma_freed_wf(v, id);
        }
    } else if exists|b: BlockId, s: Symbol, e: EntryId|
        1 <= b.0 <= v.blocks.len() && v.regions[v.block(b).region.0 as int].active && #[trigger] v.with_binding(
            v.block(b).region,
            b,
            s,
            e,
        ) == nv {
        let (b, s, e) = choose|b: BlockId, s: Symbol, e: EntryId|
            1 <= b.0 <= v.blocks.len() && v.regions[v.block(b).region.0 as int].active && #[trigger] v.with_binding(
                v.block(b).region,
                b,
                s,
                e,
            ) == nv;
        assert(v.block_ok(v.blocks[b.0 - 1]));
        lemma_with_binding_wf(v, v.block(b).region, b, s, e);
    } else if exists|c: Cursor|
        v.in_range(c.i) && (c.i.0 != 0 ==> v.regions[v.block(c.i).region.0 as int].active)
            && #[trigger] v.push_block_result(c).0 == nv {
        let c = choose|c: Cursor|
            v.in_range(c.i) && (c.i.0 != 0 ==> v.regions[v.block(c.i).region.0 as int].active)
                && #[trigger] v.push_block_result(c).0 == nv;
        lemma_push_block_step(v, c);
    } else if exists|size: u32, parent: BlockId| #[trigger] v.alloc_child_region(size, parent).0 == nv {
        let (size, parent) = choose|size: u32, parent: BlockId| #[trigger] v.alloc_child_region(size, parent).0 == nv;
        lemma_alloc_child_step(v, size, parent);
    } else {
        let (b, blk) = choose|b: BlockId, blk: Block|
            1 <= b.0 <= v.blocks.len() && blk.region == v.block(b).region && (blk.down.0 == 0) == (
            blk.last_child.0 == 0) && #[trigger] v.with_block(b.0 - 1, blk) == nv;
        assert(v.block_ok(v.blocks[b.0 - 1]));
        lemma_set_block_wf(v, b.0 - 1, blk);
    }
}

/// The arena along a run of public calls. From a well-formed start (such as
/// the state of a new context), every state of the run is well formed, so the
/// arena holds exactly one entry per block identifier handed out so far
/// (`next_block - 1` entries: the null identifier takes no slot), and the
/// arena never shrinks.
pub proof fn law_capacity_along_run(vs: Seq<ContextView>, i: int, j: int)
    requires
        vs.len() > 0,
        vs[0].wf(),
        forall|k: int| 0 <= k < vs.len() - 1 ==> is_step(#[trigger] vs[k], vs[k + 1]),
        0 <= i <= j < vs.len(),
    ensures
        vs[j].wf(),
        vs[j].blocks.len() == vs[j].next_block - 1,
        vs[i].blocks.len() <= vs[j].blocks.len(),
    decreases j,
{
    if j > 0 {
        if i == j {
            law_capacity_along_run(vs, i - 1, j - 1);
        } else {
            law_capacity_along_run(vs, i, j - 1);
        }
        assert(is_step(vs[j - 1], vs[j]));
        lemma_step(vs[j - 1], vs[j]);
    }
}

/// Releasing a region keeps the arena and the first never-used block
/// identifier as they were.
pub proof fn law_free_keeps_capacity(v: ContextView, id: RegionId)
    ensures
        v.freed(id).blocks == v.blocks,
        v.freed(id).next_block == v.next_block,
{
}

/// `up` undoes `push_block` and `push_region`: the block (or nested root) that
/// either hands out is a non-null arena block whose parent link is the cursor
/// it was pushed from, so `up` from it (see `Context::up`) returns to that
/// cursor, also across a region boundary.
pub proof fn law_up_undoes_push(v: ContextView, c: Cursor)
    requires
        v.wf(),
        v.in_range(c.i),
        c.i.0 != 0,
        v.regions[v.block(c.i).region.0 as int].active,
    ensures
        ({
            let (nv, c1, res) = v.push_block_result(c);
            res is Some ==> c1.i.0 != 0 && nv.in_range(c1.i) && nv.block(c1.i).up == c.i
        }),
        ({
            let (nv, res) = v.alloc_child_region(1, c.i);
            res is Some ==> {
                let root = nv.root(res->0)->0;
                &&& root.0 != 0
                &&& nv.in_range(root)
                &&& nv.block(root).up == c.i
            }
        }),
{
    let r = v.block(c.i).region;
    assert(v.block_ok(v.blocks[c.i.0 - 1]));
    if v.grow_region(r) is Some {
        lemma_grow_region_wf(v, r);
        let (v1, n) = v.grow_region(r)->0;
        assert(v1.linked_as_last_child(c.i, n).len() == v1.blocks.len());
    }
    super::scope::law_alloc_child_links(v, 1, c.i);
    lemma_alloc_child_step(v, 1, c.i);
    let (nv, res) = v.alloc_child_region(1, c.i);
    if res is Some {
        let id = res->0;
        let reg = nv.regions[id.0 as int];
        let gs = nv.groups();
        assert(region_ok(reg));
        assert(gs[id.0 as int + 1] == reg.intervals);
        assert(super::ranges::valid_slot(gs, id.0 as int + 1, 0));
    }
}

/// A region keeps its root. Every public call after which region `id` is
/// still active leaves its root block where it was: growing the region into
/// further ranges, nesting regions under it, binding, linking, allocating or
/// releasing other regions never move the block that `cursor`, `iter` and
/// `iter_mut` start from.
pub proof fn law_root_stable(v: ContextView, nv: ContextView, id: RegionId)
    requires
        v.wf(),
        is_step(v, nv),
        v.root(id) is Some,
        nv.root(id) is Some,
    ensures
        nv.root(id) == v.root(id),
{
    let q = id.0 as int;
    assert(region_ok(v.regions[q]));
    if nv == v {
    } else if exists|size: u32| #[trigger] v.alloc_region(size).0 == nv {
        let size = choose|size: u32| #[trigger] v.alloc_region(size).0 == nv;
        lemma_alloc_region_keeps_active(v, size, id);
    } else if exists|i: RegionId|
        ((i.0 as int) < v.regions.len() ==> v.regions[i.0 as int].active) && #[trigger] v.freed(i) == nv {
        let i = choose|i: RegionId|
            ((i.0 as int) < v.regions.len() ==> v.regions[i.0 as int].active) && #[trigger] v.freed(i) == nv;
        if i == id {
            assert(!nv.regions[q].active);
        }
    } else if exists|b: BlockId, s: Symbol, e: EntryId|
        1 <= b.0 <= v.blocks.len() && v.regions[v.block(b).region.0 as int].active && #[trigger] v.with_binding(
            v.block(b).region,
            b,
            s,
            e,
        ) == nv {
    } else if exists|c: Cursor|
        v.in_range(c.i) && (c.i.0 != 0 ==> v.regions[v.block(c.i).region.0 as int].active)
            && #[trigger] v.push_block_result(c).0 == nv {
        let c = choose|c: Cursor|
            v.in_range(c.i) && (c.i.0 != 0 ==> v.regions[v.block(c.i).region.0 as int].active)
                && #[trigger] v.push_block_result(c).0 == nv;
        if c.i.0 != 0 {
            assert(v.block_ok(v.blocks[c.i.0 - 1]));
            lemma_grow_keeps_first_range(v, v.block(c.i).region, id);
        }
    } else if exists|size: u32, parent: BlockId| #[trigger] v.alloc_child_region(size, parent).0 == nv {
        let (size, parent) = choose|size: u32, parent: BlockId| #[trigger] v.alloc_child_region(size, parent).0 == nv;
        lemma_alloc_region_keeps_active(v, size, id);
    } else {
    }
}

/// Allocating a region leaves every active region's record as it was.
proof fn lemma_alloc_region_keeps_active(v: ContextView, size: u32, id: RegionId)
    requires
        v.wf(),
        (id.0 as int) < v.regions.len(),
        v.regions[id.0 as int].active,
    ensures
        (id.0 as int) < v.alloc_region(size).0.regions.len(),
        v.alloc_region(size).0.regions[id.0 as int] == v.regions[id.0 as int],
{
    if v.region_freelist.len() > 0 {
        let k = v.region_freelist.len() - 1;
        assert(v.region_freelist[k] < v.regions.len() && !v.regions[v.region_freelist[k] as int].active);
    }
}

/// Growing a region keeps the first range of every region where it begins.
proof fn lemma_grow_keeps_first_range(v: ContextView, r: RegionId, id: RegionId)
    requires
        v.wf(),
        (r.0 as int) < v.regions.len(),
        (id.0 as int) < v.regions.len(),
        v.regions[id.0 as int].active,
        v.grow_region(r) is Some,
    ensures
        ({
            let (gv, n) = v.grow_region(r)->0;
            &&& (id.0 as int) < gv.regions.len()
            &&& gv.regions[id.0 as int].active
            &&& gv.regions[id.0 as int].intervals.len() > 0
            &&& gv.regions[id.0 as int].intervals[0].begin == v.regions[id.0 as int].intervals[0].begin
        }),
{
    let ri = r.0 as int;
    let reg = v.regions[ri];
    assert(region_ok(v.regions[id.0 as int]));
    if id != r {
    } else {
        assert(region_ok(reg));
        let li = reg.intervals.len() - 1;
        if !(reg.used < reg.intervals.last().size()) {
            let (iv, fl, next) = alloc_outcome(v.block_freelist, v.next_block, 1)->0;
            let (gv, n) = v.grow_region(r)->0;
            if li == 0 {
                assert(gv.regions[ri].intervals[0].begin == reg.intervals[0].begin);
            } else {
                assert(gv.regions[ri].intervals[0] == reg.intervals[0]);
            }
        }
    }
}

/// A region keeps its root along a run of public calls, as long as it stays
/// active.
pub proof fn law_root_stable_along_run(vs: Seq<ContextView>, id: RegionId, i: int, j: int)
    requires
        vs.len() > 0,
        vs[0].wf(),
        forall|k: int| 0 <= k < vs.len() - 1 ==> is_step(#[trigger] vs[k], vs[k + 1]),
        0 <= i <= j < vs.len(),
        forall|k: int| i <= k <= j ==> (#[trigger] vs[k]).root(id) is Some,
    ensures
        vs[j].root(id) == vs[i].root(id),
    decreases j - i,
{
    if i < j {
        law_root_stable_along_run(vs, id, i, j - 1);
        law_capacity_along_run(vs, j - 1, j - 1);
        assert(is_step(vs[j - 1], vs[j]));
        assert(vs[j - 1].root(id) is Some);
        assert(vs[j].root(id) is Some);
        law_root_stable(vs[j - 1], vs[j], id);
    }
}

/// The root of a newly allocated region has no links at all and belongs to
/// the region; it was not in use before. This holds also when its range is
/// reused from a released region, whose links it drops.
pub proof fn law_new_root_has_no_links(v: ContextView, size: u32)
    requires
        v.wf(),
    ensures
        v.alloc_region(size).1 matches Some(id) ==> {
            let nv = v.alloc_region(size).0;
            let b = nv.root(id)->0;
            &&& nv.root(id) is Some
            &&& !v.live(b)
            &&& 1 <= b.0 <= nv.blocks.len()
            &&& nv.block(b).up.0 == 0
            &&& nv.block(b).down.0 == 0
            &&& nv.block(b).last_child.0 == 0
            &&& nv.block(b).next.0 == 0
            &&& nv.block(b).region == id
        },
{
    super::scope::law_alloc_region_root_fresh(v, size);
}

/// The root of a region nested under `parent` has `parent` as parent link and
/// no other links, and belongs to the new region. (When a stale `parent` or
/// its stale last child names the very block handed out as root, that block
/// is linked to itself, and only the parent link and the region are stated.)
pub proof fn law_nested_root_links(v: ContextView, size: u32, parent: BlockId)
    requires
        v.wf(),
    ensures
        v.alloc_child_region(size, parent).1 matches Some(id) ==> {
            let nv = v.alloc_child_region(size, parent).0;
            let b = nv.root(id)->0;
            &&& nv.root(id) is Some
            &&& nv.block(b).up == parent
            &&& nv.block(b).region == id
            &&& parent != b ==> nv.block(b).down.0 == 0 && nv.block(b).last_child.0 == 0
            &&& parent != b && (parent.0 == 0 || parent.0 > v.blocks.len() || v.block(parent).down.0 == 0
                || v.block(parent).last_child != b) ==> nv.block(b).next.0 == 0
        },
{
    super::scope::law_alloc_region_root_fresh(v, size);
    super::scope::law_alloc_child_links(v, size, parent);
    let (v1, r) = v.alloc_region(size);
    if r is Some {
        let id = r->0;
        let root = v1.root(id)->0;
        let v2 = v1.with_block(root.0 - 1, Block { up: parent, ..v1.block(root) });
        super::wf_proofs::lemma_alloc_ranges(v, size);
        assert(forall|i: int| 0 <= i < v.blocks.len() && i != root.0 - 1 ==> #[trigger] v1.blocks[i] == v.blocks[i]);
        if parent.0 != 0 && parent.0 <= v2.blocks.len() && parent != root {
            let lb = v2.linked_as_last_child(parent, root);
            let p2 = v2.blocks[parent.0 - 1];
            assert(lb.len() == v2.blocks.len());
            if parent.0 <= v.blocks.len() {
                assert(p2 == v.block(parent));
            }
            assert(lb[root.0 - 1].down == v2.blocks[root.0 - 1].down);
            assert(lb[root.0 - 1].last_child == v2.blocks[root.0 - 1].last_child);
            assert(lb[root.0 - 1].region == v2.blocks[root.0 - 1].region);
            assert(lb[root.0 - 1].up == v2.blocks[root.0 - 1].up);
            if p2.down.0 == 0 || p2.last_child != root {
                assert(lb[root.0 - 1].next == v2.blocks[root.0 - 1].next);
            }
        }
    }
}

/// Pushing a block moves no region's root, and allocating a region (nested or
/// not) moves the root of no region that was already active.
pub proof fn law_roots_kept(v: ContextView, c: Cursor, size: u32, parent: BlockId)
    requires
        v.wf(),
        v.in_range(c.i),
        c.i.0 != 0 ==> v.regions[v.block(c.i).region.0 as int].active,
    ensures
        forall|id: RegionId| #[trigger] v.push_block_result(c).0.root(id) == v.root(id),
        forall|id: RegionId| v.root(id) is Some ==> #[trigger] v.alloc_region(size).0.root(id) == v.root(id),
        forall|id: RegionId|
            v.root(id) is Some ==> #[trigger] v.alloc_child_region(size, parent).0.root(id) == v.root(id),
{
    assert forall|id: RegionId| #[trigger] v.push_block_result(c).0.root(id) == v.root(id) by {
        if c.i.0 != 0 {
            let r = v.block(c.i).region;
            assert(v.block_ok(v.blocks[c.i.0 - 1]));
            if v.grow_region(r) is Some {
                let (gv, n) = v.grow_region(r)->0;
                assert(v.push_block_result(c).0.regions == gv.regions);
                if (id.0 as int) < v.regions.len() && v.regions[id.0 as int].active {
                    lemma_grow_keeps_first_range(v, r, id);
                } else if id != r {
                    assert((id.0 as int) < v.regions.len() ==> gv.regions[id.0 as int] == v.regions[id.0 as int]);
                }
            }
        }
    }
    assert forall|id: RegionId| v.root(id) is Some implies #[trigger] v.alloc_region(size).0.root(id) == v.root(id) by {
        lemma_alloc_region_keeps_active(v, size, id);
    }
    assert forall|id: RegionId| v.root(id) is Some implies #[trigger] v.alloc_child_region(size, parent).0.root(id)
        == v.root(id) by {
        lemma_alloc_region_keeps_active(v, size, id);
        let (v1, r) = v.alloc_region(size);
        assert(v.alloc_child_region(size, parent).0.regions == v1.regions);
    }
}

} // verus!
