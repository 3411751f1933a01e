//! Properties of the environment that span several operations, stated over
//! the abstract state that the operations' contracts use.

use vstd::prelude::*;
use super::allocator::{alloc_outcome, arena_after, first_fit, fresh_range_refused, is_first_fit, padded};
use super::block::{Block, BlockId, Interval};
use super::ranges::{all_within, disjoint_from_all, pairwise_disjoint};
use super::wf_proofs::lemma_alloc_groups;
use super::scope::is_forest;
use super::ranges::valid_slot;
use super::{ContextView, EntryId, RegionId, Symbol, MAX_BLOCK_ID};

verus! {

/// No block identifier lies in two owned ranges: a block handed to a region
/// is neither in the block freelist nor in a range of another region, and
/// every owned range lies below the first never-used identifier.
///
/// (Group 0 of `groups()` is the block freelist, group `r + 1` the ranges of
/// region `r`.)
pub proof fn law_owned_ranges_never_overlap(v: ContextView, g1: int, k1: int, g2: int, k2: int, b: int)
    requires
        v.wf(),
        valid_slot(v.groups(), g1, k1),
        valid_slot(v.groups(), g2, k2),
        g1 != g2 || k1 != k2,
    ensures
        !(v.groups()[g1][k1].holds(b) && v.groups()[g2][k2].holds(b)),
        v.groups()[g1][k1].holds(b) ==> 1 <= b < v.next_block,
{
    let gs = v.groups();
    assert(gs[g1][k1].disjoint(gs[g2][k2]));
    assert(1 <= gs[g1][k1].begin.0 < gs[g1][k1].end.0 <= v.next_block);
}

/// The allocator never hands out an identifier twice. Given a freelist `fl`
/// and the ranges `held` elsewhere (by regions), all non-empty, pairwise
/// disjoint and inside `[1, next)`, and an arena of `next - 1` blocks: a
/// granted request yields a range of exactly `size` identifiers (possibly
/// none), not starting at the null identifier, disjoint from the new freelist and from every held
/// range; the new freelist and the held ranges are again pairwise disjoint
/// and inside the new identifier space; the first never-used identifier does
/// not decrease; and the arena again has one entry per used identifier. A
/// request is refused only when no freed range fits and the identifier space
/// is exhausted.
pub proof fn law_alloc_never_overlaps(
    fl: Seq<Interval>,
    held: Seq<Seq<Interval>>,
    next: u32,
    size: u32,
    arena: Seq<Block>,
)
    requires
        pairwise_disjoint(seq![fl] + held),
        all_within(seq![fl] + held, 1, next as int),
        1 <= next,
        arena.len() == next - 1,
    ensures
        match alloc_outcome(fl, next, size) {
            Some((iv, nfl, nnext)) => {
                &&& 1 <= iv.begin.0
                &&& iv.size() == size
                &&& disjoint_from_all(seq![nfl] + held, iv)
                &&& pairwise_disjoint(seq![nfl] + held)
                &&& all_within(seq![nfl] + held, 1, nnext as int)
                &&& next <= nnext
                &&& arena_after(arena, fl, next, size).len() == nnext - 1
            },
            None => first_fit(fl, size) is None && fresh_range_refused(next, size),
        },
{
    let gs0 = seq![fl] + held;
    assert(gs0[0] == fl);
    if alloc_outcome(fl, next, size) is Some {
        lemma_alloc_groups(gs0, next, size);
        let (iv, nfl, nnext) = alloc_outcome(fl, next, size)->0;
        assert(gs0.update(0, nfl) =~= seq![nfl] + held);
        if first_fit(fl, size) is None {
            assert(padded(arena, next + size - 1).len() == next + size - 1);
        }
    }
}

/// When a freed range can hold the request, allocating a region does not
/// grow the block arena.
pub proof fn law_alloc_reuses_free_range(v: ContextView, size: u32)
    requires
        v.wf(),
        size > 0,
        exists|i: int| 0 <= i < v.block_freelist.len() && v.block_freelist[i].size() >= size,
    ensures
        v.alloc_region(size).1 is Some || v.regions.len() > super::MAX_REGION_ID,
        v.alloc_region(size).0.blocks.len() == v.blocks.len(),
        v.alloc_region(size).0.next_block == v.next_block,
{
    let fl = v.block_freelist;
    let w = choose|i: int| 0 <= i < fl.len() && fl[i].size() >= size;
    lemma_first_fit_exists(fl, size, w);
    assert(arena_after(v.blocks, fl, v.next_block, size) == v.blocks);
    assert(alloc_outcome(fl, v.next_block, size) is Some);
    let (iv, nfl, next) = alloc_outcome(fl, v.next_block, size)->0;
    super::wf_proofs::lemma_alloc_ranges(v, size);
    assert(next == v.next_block);
    let blocks = arena_after(v.blocks, fl, v.next_block, size);
    let (nv, r) = v.alloc_region(size);
    if v.region_freelist.len() > 0 {
        let rid = RegionId(v.region_freelist.last());
        assert(nv.blocks == blocks.update(iv.begin.0 - 1, super::block::detached_block(rid)));
    } else if v.regions.len() > super::MAX_REGION_ID {
        assert(nv.blocks == blocks);
    } else {
        let rid = RegionId(v.regions.len() as u32);
        assert(nv.blocks == blocks.update(iv.begin.0 - 1, super::block::detached_block(rid)));
    }
}

/// When no freed range can hold the request, allocating a region grows the
/// block arena by exactly the requested size (or is refused when the
/// identifier space is exhausted).
pub proof fn law_alloc_grows_arena(v: ContextView, size: u32)
    requires
        v.wf(),
        size > 0,
        forall|i: int| 0 <= i < v.block_freelist.len() ==> (#[trigger] v.block_freelist[i]).size() < size,
    ensures
        !fresh_range_refused(v.next_block, size) ==> v.alloc_region(size).0.blocks.len()
            == v.blocks.len() + size,
        fresh_range_refused(v.next_block, size) ==> v.alloc_region(size) == (v, None::<RegionId>),
{
    let fl = v.block_freelist;
    assert(first_fit(fl, size) is None) by {
        assert forall|k: int| !is_first_fit(fl, size, k) by {
            if 0 <= k < fl.len() {
                assert(fl[k].size() < size);
            }
        }
    }
    if !fresh_range_refused(v.next_block, size) {
        let target = v.next_block + size - 1;
        assert(padded(v.blocks, target).len() == target);
        assert(arena_after(v.blocks, fl, v.next_block, size).len() == v.blocks.len() + size);
    }
}

/// The identifier limit: with no fitting freed range, a fresh range may start
/// at any identifier up to `MAX_BLOCK_ID` and end at any identifier up to
/// `u32::MAX`; one block starting at `MAX_BLOCK_ID` is still handed out, and
/// nothing starts past it.
pub proof fn law_identifier_limit(fl: Seq<super::Interval>, next: u32, size: u32)
    requires
        forall|i: int| 0 <= i < fl.len() ==> (#[trigger] fl[i]).size() < size,
    ensures
        alloc_outcome(fl, next, size) is Some <==> next <= MAX_BLOCK_ID && next + size <= u32::MAX,
        next <= MAX_BLOCK_ID && next + size <= u32::MAX ==> alloc_outcome(fl, next, size) == Some(
            (
                super::Interval { begin: BlockId(next), end: BlockId((next + size) as u32) },
                fl,
                (next + size) as u32,
            ),
        ),
        size == 1 && next == MAX_BLOCK_ID ==> alloc_outcome(fl, next, size) == Some(
            (
                super::Interval { begin: BlockId(MAX_BLOCK_ID), end: BlockId(u32::MAX) },
                fl,
                u32::MAX,
            ),
        ),
{
    assert(first_fit(fl, size) is None) by {
        assert forall|k: int| !is_first_fit(fl, size, k) by {
            if 0 <= k < fl.len() {
                assert(fl[k].size() < size);
            }
        }
    }
}

/// The first range that holds `size` identifiers exists when some range
/// does.
proof fn lemma_first_fit_exists(fl: Seq<super::Interval>, size: u32, w: int)
    requires
        0 <= w < fl.len(),
        fl[w].size() >= size,
    ensures
        first_fit(fl, size) is Some,
    decreases w,
{
    if forall|j: int| 0 <= j < w ==> !super::allocator::fits(#[trigger] fl[j], size) {
        assert(is_first_fit(fl, size, w));
    } else {
        let j = choose|j: int| 0 <= j < w && !!super::allocator::fits(#[trigger] fl[j], size);
        lemma_first_fit_exists(fl, size, j);
    }
}

/// A block whose active region binds `s` there resolves `s` to that binding,
/// whatever its ancestors bind (inner bindings shadow outer ones).
pub proof fn law_own_binding_shadows(v: ContextView, b: BlockId, s: Symbol)
    requires
        1 <= b.0 <= v.blocks.len(),
        v.regions[v.block(b).region.0 as int].active,
        v.regions[v.block(b).region.0 as int].bindings.contains_key((b, s)),
    ensures
        v.resolves(b, s),
        v.resolve(b, s) == Some(v.regions[v.block(b).region.0 as int].bindings[(b, s)]),
{
    super::wf_proofs::lemma_resolve_from_fuel(v, b, s, 1);
}

/// A block that does not bind `s` itself (or whose region is inactive)
/// resolves `s` exactly as its parent does.
pub proof fn law_unbound_defers_to_parent(v: ContextView, b: BlockId, s: Symbol)
    requires
        1 <= b.0 <= v.blocks.len(),
        !(v.regions[v.block(b).region.0 as int].active
            && v.regions[v.block(b).region.0 as int].bindings.contains_key((b, s))),
    ensures
        v.resolves(b, s) == v.resolves(v.block(b).up, s),
        v.resolves(b, s) ==> v.resolve(b, s) == v.resolve(v.block(b).up, s),
{
    let up = v.block(b).up;
    if v.resolves(up, s) {
        let n = choose|n: nat| (#[trigger] v.lookup(up, s, n)) is Some;
        assert(v.lookup(b, s, n + 1) == v.lookup(up, s, n));
        super::wf_proofs::lemma_resolve_from_fuel(v, up, s, n);
        super::wf_proofs::lemma_resolve_from_fuel(v, b, s, n + 1);
    }
    if v.resolves(b, s) {
        let n = choose|n: nat| (#[trigger] v.lookup(b, s, n)) is Some;
        assert(n > 0);
        assert(v.lookup(up, s, (n - 1) as nat) == v.lookup(b, s, n));
        super::wf_proofs::lemma_resolve_from_fuel(v, up, s, (n - 1) as nat);
    }
}

/// Binding one symbol leaves the lookups of every other symbol unchanged,
/// from every block.
pub proof fn law_bind_keeps_other_symbols(
    v: ContextView,
    r: RegionId,
    b: BlockId,
    s: Symbol,
    e: EntryId,
    c: BlockId,
    t: Symbol,
)
    requires
        v.wf(),
        (r.0 as int) < v.regions.len(),
        s != t,
    ensures
        v.with_binding(r, b, s, e).resolves(c, t) == v.resolves(c, t),
        v.resolves(c, t) ==> v.with_binding(r, b, s, e).resolve(c, t) == v.resolve(c, t),
{
    let w = v.with_binding(r, b, s, e);
    assert forall|n: nat| #[trigger] w.lookup(c, t, n) == v.lookup(c, t, n) by {
        lemma_lookup_other_symbol(v, r, b, s, e, c, t, n);
    }
    if v.resolves(c, t) {
        let n = choose|n: nat| (#[trigger] v.lookup(c, t, n)) is Some;
        super::wf_proofs::lemma_resolve_from_fuel(v, c, t, n);
        super::wf_proofs::lemma_resolve_from_fuel(w, c, t, n);
    }
    if w.resolves(c, t) {
        let n = choose|n: nat| (#[trigger] w.lookup(c, t, n)) is Some;
        assert(v.lookup(c, t, n) is Some);
    }
}

proof fn lemma_lookup_other_symbol(
    v: ContextView,
    r: RegionId,
    b: BlockId,
    s: Symbol,
    e: EntryId,
    c: BlockId,
    t: Symbol,
    n: nat,
)
    requires
        v.wf(),
        (r.0 as int) < v.regions.len(),
        s != t,
    ensures
        v.with_binding(r, b, s, e).lookup(c, t, n) == v.lookup(c, t, n),
    decreases n,
{
    let w = v.with_binding(r, b, s, e);
    if c.0 != 0 && n > 0 && c.0 <= v.blocks.len() {
        let q = v.block(c).region.0 as int;
        assert(v.block_ok(v.blocks[c.0 - 1]));
        assert(w.regions[q].active == v.regions[q].active);
        assert(w.regions[q].bindings.contains_key((c, t)) == v.regions[q].bindings.contains_key((c, t)));
        if v.regions[q].bindings.contains_key((c, t)) {
            assert(w.regions[q].bindings[(c, t)] == v.regions[q].bindings[(c, t)]);
        }
        lemma_lookup_other_symbol(v, r, b, s, e, v.block(c).up, t, (n - 1) as nat);
    }
}

/// After a region is released, no block recorded as belonging to it is owned
/// by an active region, the region has no root and no size, and its former
/// blocks bind nothing.
pub proof fn law_freed_region_owns_nothing(v: ContextView, id: RegionId, b: BlockId, s: Symbol)
    requires
        v.wf(),
        (id.0 as int) < v.regions.len(),
        v.regions[id.0 as int].active,
        1 <= b.0 <= v.blocks.len(),
        v.block(b).region == id,
    ensures
        v.freed(id).region_of(b) is None,
        v.freed(id).root(id) is None,
        v.freed(id).region_size(id) is None,
        !v.freed(id).regions[id.0 as int].active,
        v.freed(id).regions[id.0 as int].bindings == Map::<(BlockId, Symbol), EntryId>::empty(),
        v.freed(id).blocks == v.blocks,
{
}

/// A released region's identifier is the next one handed out, provided the
/// allocation succeeds.
pub proof fn law_freed_id_is_reused_first(v: ContextView, id: RegionId, size: u32)
    requires
        v.wf(),
        (id.0 as int) < v.regions.len(),
        v.regions[id.0 as int].active,
        size > 0,
        alloc_outcome(v.freed(id).block_freelist, v.next_block, size) is Some,
    ensures
        v.freed(id).alloc_region(size).1 == Some(id),
{
    let f = v.freed(id);
    assert(f.region_freelist.last() == id.0);
}

/// The walk up from `c` meets the null block within `n` steps without
/// passing block `b`.
pub open spec fn walk_avoids(v: ContextView, c: BlockId, b: BlockId, n: nat) -> bool
    decreases n,
{
    c.0 == 0 || (n > 0 && c != b && c.0 <= v.blocks.len() && walk_avoids(v, v.block(c).up, b, (n - 1) as nat))
}

/// A binding made in block `b` is invisible from every block whose walk up
/// does not pass `b`: sibling scopes and enclosing scopes do not see it.
pub proof fn law_binding_invisible_off_path(
    v: ContextView,
    r: RegionId,
    b: BlockId,
    s: Symbol,
    e: EntryId,
    c: BlockId,
    t: Symbol,
    n: nat,
)
    requires
        v.wf(),
        (r.0 as int) < v.regions.len(),
        walk_avoids(v, c, b, n),
    ensures
        v.resolves(c, t),
        v.with_binding(r, b, s, e).resolves(c, t),
        v.with_binding(r, b, s, e).resolve(c, t) == v.resolve(c, t),
{
    lemma_lookup_off_path(v, r, b, s, e, c, t, n);
    super::wf_proofs::lemma_resolve_from_fuel(v, c, t, n);
    super::wf_proofs::lemma_resolve_from_fuel(v.with_binding(r, b, s, e), c, t, n);
}

proof fn lemma_lookup_off_path(
    v: ContextView,
    r: RegionId,
    b: BlockId,
    s: Symbol,
    e: EntryId,
    c: BlockId,
    t: Symbol,
    n: nat,
)
    requires
        v.wf(),
        (r.0 as int) < v.regions.len(),
        walk_avoids(v, c, b, n),
    ensures
        v.lookup(c, t, n) is Some,
        v.with_binding(r, b, s, e).lookup(c, t, n) == v.lookup(c, t, n),
    decreases n,
{
    let w = v.with_binding(r, b, s, e);
    if c.0 != 0 {
        let q = v.block(c).region.0 as int;
        assert(v.block_ok(v.blocks[c.0 - 1]));
        assert(w.regions[q].active == v.regions[q].active);
        assert(w.regions[q].bindings.contains_key((c, t)) == v.regions[q].bindings.contains_key((c, t)));
        if v.regions[q].bindings.contains_key((c, t)) {
            assert(w.regions[q].bindings[(c, t)] == v.regions[q].bindings[(c, t)]);
        }
        lemma_lookup_off_path(v, r, b, s, e, v.block(c).up, t, (n - 1) as nat);
    }
}

/// Lookups end on a forest. When every parent link of an arena block is the
/// null block or an arena block, and climbing to the parent strictly lowers a
/// depth (the parent links form a forest: no block is its own ancestor; see
/// `is_forest`), the lookup walk from any arena block ends within `depth(b) + 1` blocks without
/// leaving the arena, so `find` may be called from there.
pub proof fn law_lookup_ends_on_forest(v: ContextView, depth: spec_fn(BlockId) -> nat, b: BlockId, s: Symbol)
    requires
        v.wf(),
        v.in_range(b),
        is_forest(v, depth),
    ensures
        v.lookup(b, s, depth(b) + 1) is Some,
        v.resolves(b, s),
    decreases depth(b),
{
    if b.0 != 0 {
        let up = v.block(b).up;
        if up.0 != 0 {
            law_lookup_ends_on_forest(v, depth, up, s);
            super::wf_proofs::lemma_lookup_fuel(v, up, s, depth(up) + 1, depth(b));
        }
    }
    assert(v.lookup(b, s, depth(b) + 1) is Some);
}

/// The lookup walk of `s` from `c` reaches block `b` within `n` steps, without
/// meeting a binding of `s` on the way (the block where it stops counts).
pub open spec fn walk_reaches(v: ContextView, c: BlockId, s: Symbol, b: BlockId, n: nat) -> bool
    decreases n,
{
    if c.0 == 0 || n == 0 || c.0 > v.blocks.len() {
        false
    } else if c == b {
        true
    } else {
        let reg = v.regions[v.block(c).region.0 as int];
        !(reg.active && reg.bindings.contains_key((c, s))) && walk_reaches(v, v.block(c).up, s, b, (n - 1) as nat)
    }
}

/// What a binding changes, in full. After `s` is bound to `e` at block `b` of
/// an active region (recorded in `b`'s region), the lookup of `t` from any
/// block `c` finds `e` exactly when `t` is `s` and the walk from `c` reaches
/// `b` before any other binding of `s` (that is, `b` is on `c`'s parent chain
/// with no binding of `s` strictly nearer); every other lookup is unchanged.
pub proof fn law_binding_visibility(
    v: ContextView,
    b: BlockId,
    s: Symbol,
    e: EntryId,
    c: BlockId,
    t: Symbol,
    n: nat,
)
    requires
        v.wf(),
        1 <= b.0 <= v.blocks.len(),
        v.regions[v.block(b).region.0 as int].active,
    ensures
        v.with_binding(v.block(b).region, b, s, e).lookup(c, t, n) == (if t == s && walk_reaches(v, c, s, b, n) {
            Some(Some(e))
        } else {
            v.lookup(c, t, n)
        }),
        v.lookup(c, t, n) is Some ==> {
            let w = v.with_binding(v.block(b).region, b, s, e);
            &&& w.resolves(c, t)
            &&& w.resolve(c, t) == (if t == s && walk_reaches(v, c, s, b, n) { Some(e) } else { v.resolve(c, t) })
        },
    decreases n,
{
    let r = v.block(b).region;
    let w = v.with_binding(r, b, s, e);
    assert(v.block_ok(v.blocks[b.0 - 1]));
    if c.0 != 0 && n > 0 && c.0 <= v.blocks.len() {
        let q = v.block(c).region.0 as int;
        assert(v.block_ok(v.blocks[c.0 - 1]));
        assert(w.regions[q].active == v.regions[q].active);
        if (c, t) != (b, s) {
            assert(w.regions[q].bindings.contains_key((c, t)) == v.regions[q].bindings.contains_key((c, t)));
            if v.regions[q].bindings.contains_key((c, t)) {
                assert(w.regions[q].bindings[(c, t)] == v.regions[q].bindings[(c, t)]);
            }
        } else {
            assert(w.regions[q].bindings.contains_key((c, t)));
        }
        law_binding_visibility(v, b, s, e, v.block(c).up, t, (n - 1) as nat);
    }
    if v.lookup(c, t, n) is Some {
        super::wf_proofs::lemma_resolve_from_fuel(v, c, t, n);
        super::wf_proofs::lemma_resolve_from_fuel(w, c, t, n);
    }
}

} // verus!
