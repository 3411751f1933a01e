//! Environment context managing block allocations, the scope tree and
//! symbol bindings.
//!
//! `BlockId(0)` is the null block; `RegionId(0)` is an ordinary region.

pub mod allocator;
pub mod block;
pub mod cursor;
pub mod wf_proofs;
pub mod iter;
pub mod laws;
pub mod region;
pub mod scope;
pub mod ranges;
pub mod runs;

use vstd::prelude::*;

verus! {

/// The largest block identifier that may begin a range: every range is
/// half-open with `end = begin + size`, and `end` must fit in `u32`.
pub const MAX_BLOCK_ID: u32 = u32::MAX - 1;

/// The largest region identifier; region identifiers are plain indices.
pub const MAX_REGION_ID: u32 = u32::MAX;

/// Identifier of a region (an index into the region table).
#[derive(Clone, Copy, Debug, Default, PartialEq, Eq)]
pub struct RegionId(pub u32);

/// Identifier of a symbol.
#[derive(Clone, Copy, Debug, Default, PartialEq, Eq, Hash)]
pub struct Symbol(pub u32);

/// Opaque handle of an entry stored outside the environment.
#[derive(Clone, Copy, Debug, Default, PartialEq, Eq, Hash)]
pub struct EntryId(pub u32);

} // verus!

pub use self::allocator::BlockAllocator;
pub use self::block::{Block, BlockId, Interval};
pub use self::cursor::Cursor;
pub use self::iter::{Iter, IterMut};
pub use self::region::{Region, RegionView};

use std::collections::HashMap;
use self::allocator::{alloc_outcome, arena_after};
use self::scope::in_used;
use self::block::detached_block;
use self::wf_proofs::{
    lemma_alloc_ranges, lemma_alloc_region_wf, lemma_freed_wf, lemma_grow_region_wf,
    lemma_link_child_wf, lemma_resolve_from_fuel, lemma_set_block_wf, lemma_with_binding_wf,
};
use self::ranges::{
    all_within, lemma_group_disjoint, lemma_group_within, lemma_total_size_bound,
    lemma_total_size_positive, lemma_total_size_take, pairwise_disjoint, seq_disjoint, seq_within,
    total_size, valid_slot,
};
use self::region::{binding_key_of, empty_region, lemma_bindings_view_empty, lemma_bindings_view_insert};

verus! {

/// Abstract state of a context.
pub struct ContextView {
    /// The block arena; block `b` is entry `b - 1`.
    pub blocks: Seq<Block>,
    /// The region table, indexed by region identifier.
    pub regions: Seq<RegionView<EntryId>>,
    /// Identifiers of freed regions, reused from the back.
    pub region_freelist: Seq<u32>,
    /// Freed block ranges.
    pub block_freelist: Seq<Interval>,
    /// First block identifier that has never been handed out.
    pub next_block: u32,
}

/// Conditions on a region record: an active region owns at least one range
/// and has handed out between one and all blocks of its last range; an
/// inactive region owns nothing, has nothing bound and nothing used.
pub open spec fn region_ok(r: RegionView<EntryId>) -> bool {
    if r.active {
        &&& r.intervals.len() >= 1
        &&& 1 <= r.used
        &&& r.used <= r.intervals.last().size()
    } else {
        &&& r.intervals.len() == 0
        &&& r.used == 0
        &&& r.bindings == Map::<(BlockId, Symbol), EntryId>::empty()
    }
}

impl ContextView {
    /// Block identifier `b` is null or names an arena entry.
    pub open spec fn in_range(self, b: BlockId) -> bool {
        b.0 <= self.blocks.len()
    }

    /// The arena entry of non-null block `b`.
    pub open spec fn block(self, b: BlockId) -> Block {
        self.blocks[b.0 - 1]
    }

    /// Conditions on one arena entry: its region exists, and it has a first
    /// child exactly when it has a last child. (The links themselves are
    /// unconstrained: the link operations store any block identifier.)
    pub open spec fn block_ok(self, blk: Block) -> bool {
        &&& (blk.region.0 as int) < self.regions.len()
        &&& (blk.down.0 == 0) == (blk.last_child.0 == 0)
    }

    /// All owned ranges, grouped: group 0 is the block freelist and group
    /// `r + 1` holds the ranges of region `r`.
    pub open spec fn groups(self) -> Seq<Seq<Interval>> {
        Seq::new(
            self.regions.len() + 1,
            |g: int| if g == 0 { self.block_freelist } else { self.regions[g - 1].intervals },
        )
    }

    /// Well-formedness of a context.
    ///
    /// Besides the shape conditions, it states that no block identifier is in
    /// two owned ranges (freelist entries and region ranges are pairwise
    /// disjoint), and that every owned range lies in `[1, next_block)`, the
    /// part of the identifier space that the arena covers.
    pub open spec fn wf(self) -> bool {
        &&& 1 <= self.next_block
        &&& self.blocks.len() == self.next_block - 1
        &&& self.regions.len() <= MAX_REGION_ID as int + 1
        &&& forall|i: int| 0 <= i < self.blocks.len() ==> self.block_ok(#[trigger] self.blocks[i])
        &&& forall|r: int| 0 <= r < self.regions.len() ==> region_ok(#[trigger] self.regions[r])
        &&& self.region_freelist.no_duplicates()
        &&& forall|j: int|
            0 <= j < self.region_freelist.len() ==> (#[trigger] self.region_freelist[j] as int)
                < self.regions.len() && !self.regions[self.region_freelist[j] as int].active
        &&& forall|r: int|
            0 <= r < self.regions.len() && !(#[trigger] self.regions[r]).active
                ==> self.region_freelist.contains(r as u32)
        &&& pairwise_disjoint(self.groups())
        &&& all_within(self.groups(), 1, self.next_block as int)
    }

    /// Total number of blocks owned by region `id`, if it is active.
    pub open spec fn region_size(self, id: RegionId) -> Option<u32> {
        if (id.0 as int) < self.regions.len() && self.regions[id.0 as int].active {
            Some(total_size(self.regions[id.0 as int].intervals) as u32)
        } else {
            None
        }
    }

    /// The root block of region `id`, if it is active.
    pub open spec fn root(self, id: RegionId) -> Option<BlockId> {
        if (id.0 as int) < self.regions.len() && self.regions[id.0 as int].active {
            Some(self.regions[id.0 as int].intervals[0].begin)
        } else {
            None
        }
    }

    /// Lexical lookup of `s` starting at block `b`, climbing parent links for
    /// at most `fuel` blocks: `Some(found)` when the walk ends within that many
    /// steps (at the null block, or at a block whose active region binds `s`
    /// there), `None` when fuel runs out or the walk leaves the arena.
    pub open spec fn lookup(self, b: BlockId, s: Symbol, fuel: nat) -> Option<Option<EntryId>>
        decreases fuel,
    {
        if b.0 == 0 {
            Some(None)
        } else if fuel == 0 || b.0 > self.blocks.len() {
            None
        } else {
            let blk = self.block(b);
            let reg = self.regions[blk.region.0 as int];
            if reg.active && reg.bindings.contains_key((b, s)) {
                Some(Some(reg.bindings[(b, s)]))
            } else {
                self.lookup(blk.up, s, (fuel - 1) as nat)
            }
        }
    }

    /// The lexical lookup of `s` from `b` ends.
    pub open spec fn resolves(self, b: BlockId, s: Symbol) -> bool {
        exists|n: nat| (#[trigger] self.lookup(b, s, n)) is Some
    }

    /// The result of the lexical lookup of `s` from `b` (meaningful when it
    /// ends).
    pub open spec fn resolve(self, b: BlockId, s: Symbol) -> Option<EntryId> {
        self.lookup(b, s, choose|n: nat| (#[trigger] self.lookup(b, s, n)) is Some)->0
    }

    /// The state with `s` bound to `e` in block `b`, recorded in region `r`.
    pub open spec fn with_binding(self, r: RegionId, b: BlockId, s: Symbol, e: EntryId) -> ContextView {
        ContextView {
            regions: self.regions.update(
                r.0 as int,
                RegionView {
                    bindings: self.regions[r.0 as int].bindings.insert((b, s), e),
                    ..self.regions[r.0 as int]
                },
            ),
            ..self
        }
    }

    /// The state after region `id` is released: when it exists, its ranges are
    /// appended to the block freelist, its record is cleared and its
    /// identifier is appended to the region freelist.
    pub open spec fn freed(self, id: RegionId) -> ContextView {
        if (id.0 as int) < self.regions.len() {
            ContextView {
                regions: self.regions.update(id.0 as int, empty_region()),
                block_freelist: self.block_freelist + self.regions[id.0 as int].intervals,
                region_freelist: self.region_freelist.push(id.0),
                ..self
            }
        } else {
            self
        }
    }

    /// The state and the result of allocating a region of `size` blocks.
    ///
    /// A range is taken from the block allocator (see `alloc_outcome`); the
    /// region record is the last freed one when there is one, else a new one
    /// appended to the table (refused, after the range was taken, when the
    /// table already holds `MAX_REGION_ID + 1` records). The region owns just
    /// that range, has no bindings, and has handed out its first block, the
    /// root, which has no links.
    pub open spec fn alloc_region(self, size: u32) -> (ContextView, Option<RegionId>) {
        if size == 0 {
            (self, None)
        } else {
            match alloc_outcome(self.block_freelist, self.next_block, size) {
                None => (self, None),
                Some((iv, fl, next)) => {
                    let blocks = arena_after(self.blocks, self.block_freelist, self.next_block, size);
                    let grown = ContextView { blocks, block_freelist: fl, next_block: next, ..self };
                    let fresh = RegionView {
                        active: true,
                        intervals: seq![iv],
                        bindings: Map::empty(),
                        used: 1,
                    };
                    if self.region_freelist.len() > 0 {
                        let rid = RegionId(self.region_freelist.last());
                        (
                            ContextView {
                                blocks: blocks.update(iv.begin.0 - 1, detached_block(rid)),
                                regions: self.regions.update(rid.0 as int, fresh),
                                region_freelist: self.region_freelist.drop_last(),
                                ..grown
                            },
                            Some(rid),
                        )
                    } else if self.regions.len() > MAX_REGION_ID {
                        (grown, None)
                    } else {
                        let rid = RegionId(self.regions.len() as u32);
                        (
                            ContextView {
                                blocks: blocks.update(iv.begin.0 - 1, detached_block(rid)),
                                regions: self.regions.push(fresh),
                                ..grown
                            },
                            Some(rid),
                        )
                    }
                },
            }
        }
    }

    /// The state after arena entry `i` is replaced by `blk`.
    pub open spec fn with_block(self, i: int, blk: Block) -> ContextView {
        ContextView { blocks: self.blocks.update(i, blk), ..self }
    }

    /// The state and the new block after region `r` hands out one more block:
    /// the next unused block of its last range when there is one; otherwise a
    /// one-block range is taken from the allocator and either extends the last
    /// range (when adjacent to it) or is appended as a new range. The new
    /// block is reset: no links, owned by `r`. `None` when the allocator
    /// refuses.
    pub open spec fn grow_region(self, r: RegionId) -> Option<(ContextView, BlockId)> {
        let ri = r.0 as int;
        let reg = self.regions[ri];
        if reg.intervals.len() > 0 && reg.used < reg.intervals.last().size() {
            let n = BlockId((reg.intervals.last().begin.0 + reg.used) as u32);
            Some(
                (
                    ContextView {
                        blocks: self.blocks.update(n.0 - 1, detached_block(r)),
                        regions: self.regions.update(ri, RegionView { used: (reg.used + 1) as u32, ..reg }),
                        ..self
                    },
                    n,
                ),
            )
        } else {
            match alloc_outcome(self.block_freelist, self.next_block, 1) {
                None => None,
                Some((iv, fl, next)) => {
                    let blocks = arena_after(self.blocks, self.block_freelist, self.next_block, 1);
                    let coalesce = reg.intervals.len() > 0 && reg.intervals.last().end == iv.begin;
                    let last = reg.intervals.last();
                    let ivs = if coalesce {
                        reg.intervals.update(reg.intervals.len() - 1, Interval { begin: last.begin, end: iv.end })
                    } else {
                        reg.intervals.push(iv)
                    };
                    let used: u32 = if coalesce { (reg.used + 1) as u32 } else { 1 };
                    let n = if coalesce { BlockId((last.begin.0 + reg.used) as u32) } else { iv.begin };
                    Some(
                        (
                            ContextView {
                                blocks: blocks.update(n.0 - 1, detached_block(r)),
                                regions: self.regions.update(ri, RegionView { intervals: ivs, used, ..reg }),
                                block_freelist: fl,
                                next_block: next,
                                ..self
                            },
                            n,
                        ),
                    )
                },
            }
        }
    }

    /// The arena after `child` is appended to the children of `parent`: it
    /// becomes the first and last child of a childless parent, else the next
    /// sibling of the current last child and the new last child.
    pub open spec fn linked_as_last_child(self, parent: BlockId, child: BlockId) -> Seq<Block> {
        let b = self.blocks;
        let p = b[parent.0 - 1];
        if p.down.0 == 0 {
            b.update(parent.0 - 1, Block { down: child, last_child: child, ..p })
        } else {
            let l = p.last_child;
            let lb = if 1 <= l.0 <= b.len() {
                b.update(l.0 - 1, Block { next: child, ..b[l.0 - 1] })
            } else {
                b
            };
            lb.update(parent.0 - 1, Block { last_child: child, ..lb[parent.0 - 1] })
        }
    }

    /// `push_block` on cursor `c` can append its new block after the last
    /// child of the cursor's block: once the region has grown, a block that
    /// has children names an arena block as its last child.
    pub open spec fn push_link_ok(self, c: Cursor) -> bool {
        c.i.0 != 0 ==> match self.grow_region(self.block(c.i).region) {
            Some((v1, n)) => v1.block(c.i).down.0 != 0 ==> 1 <= v1.block(c.i).last_child.0
                <= v1.blocks.len(),
            None => true,
        }
    }

    /// State, cursor and result of `push_block` on cursor `c`: a block is
    /// added to the region of the cursor's block, appended to its children,
    /// and the cursor moves to it.
    pub open spec fn push_block_result(self, c: Cursor) -> (ContextView, Cursor, Option<()>) {
        if c.i.0 == 0 {
            (self, c, None)
        } else {
            match self.grow_region(self.block(c.i).region) {
                None => (self, c, None),
                Some((v1, n)) => {
                    let b = ContextView { blocks: v1.linked_as_last_child(c.i, n), ..v1 }.blocks;
                    (
                        ContextView { blocks: b.update(n.0 - 1, Block { up: c.i, ..b[n.0 - 1] }), ..v1 },
                        Cursor { i: n },
                        Some(()),
                    )
                },
            }
        }
    }

    /// State and result of allocating a region of `size` blocks nested under
    /// `parent`: the new root's parent link is `parent`, and when `parent` is
    /// a non-null arena block the root is appended to its children.
    pub open spec fn alloc_child_region(self, size: u32, parent: BlockId) -> (ContextView, Option<RegionId>) {
        let (v1, r) = self.alloc_region(size);
        match r {
            None => (v1, None),
            Some(id) => {
                let root = v1.regions[id.0 as int].intervals[0].begin;
                let v2 = v1.with_block(root.0 - 1, Block { up: parent, ..v1.block(root) });
                if parent.0 != 0 && parent.0 <= v2.blocks.len() {
                    (ContextView { blocks: v2.linked_as_last_child(parent, root), ..v2 }, Some(id))
                } else {
                    (v2, Some(id))
                }
            },
        }
    }

    /// The region that owns `b` if `b` is live: a non-null arena block whose
    /// recorded region is active and that lies in the handed-out part of that
    /// region's ranges (see `live`).
    pub open spec fn region_of(self, b: BlockId) -> Option<RegionId> {
        if self.live(b) {
            Some(self.block(b).region)
        } else {
            None
        }
    }
}

/// Context managing the block arena, the regions and the range allocator.
pub struct Context {
    block_arena: Vec<Block>,
    region_arena: Vec<Region<EntryId>>,
    region_freelist: Vec<u32>,
    allocator: BlockAllocator,
}

impl View for Context {
    type V = ContextView;

    closed spec fn view(&self) -> ContextView {
        ContextView {
            blocks: self.block_arena@,
            regions: self.region_arena@.map_values(|r: Region<EntryId>| r@),
            region_freelist: self.region_freelist@,
            block_freelist: self.allocator.block_freelist@,
            next_block: self.allocator.block_next_id.0,
        }
    }
}

/// The state of a new context: nothing allocated, block identifiers start at 1.
pub open spec fn empty_context() -> ContextView {
    ContextView {
        blocks: Seq::empty(),
        regions: Seq::empty(),
        region_freelist: Seq::empty(),
        block_freelist: Seq::empty(),
        next_block: 1,
    }
}

impl Default for Context {
    /// Creates the default environment context.
    fn default() -> (c: Self)
        ensures
            c.wf(),
            c@ == empty_context(),
    {
        let c = Context {
            block_arena: Vec::new(),
            region_arena: Vec::new(),
            region_freelist: Vec::new(),
            allocator: BlockAllocator::new(),
        };
        proof {
            assert(c@.regions =~= Seq::<RegionView<EntryId>>::empty());
            assert(c@.groups() =~= seq![Seq::<Interval>::empty()]);
        }
        c
    }
}

impl Context {
    /// The context is well formed.
    pub open spec fn wf(&self) -> bool {
        self@.wf()
    }

    proof fn lemma_allocator_wf(&self)
        requires
            self.wf(),
        ensures
            self.allocator.wf(),
    {
        let gs = self@.groups();
        assert forall|i: int| 0 <= i < self.allocator.block_freelist@.len() implies (#[trigger] self.allocator.block_freelist@[i]).begin.0
            <= self.allocator.block_freelist@[i].end.0 by {
            assert(gs[0] == self.allocator.block_freelist@);
            assert(valid_slot(gs, 0, i));
        }
    }

    /// Creates a new empty environment context.
    pub fn new() -> (c: Self)
        ensures
            c.wf(),
            c@ == empty_context(),
    {
        Self::default()
    }

    /// Returns the total capacity of the backing block array.
    pub fn blocks_capacity(&self) -> (n: usize)
        ensures
            n == self@.blocks.len(),
    {
        self.block_arena.len()
    }

    /// Returns the number of ranges in the block freelist.
    pub fn block_freelist_len(&self) -> (n: usize)
        ensures
            n == self@.block_freelist.len(),
    {
        self.allocator.block_freelist.len()
    }

    /// Returns the bounds of the freed block range at position `idx`.
    pub fn block_freelist_interval(&self, idx: usize) -> (r: Option<(BlockId, BlockId)>)
        ensures
            r == (if idx < self@.block_freelist.len() {
                Some((self@.block_freelist[idx as int].begin, self@.block_freelist[idx as int].end))
            } else {
                None
            }),
    {
        if idx < self.allocator.block_freelist.len() {
            let r = self.allocator.block_freelist[idx];
            Some((r.begin, r.end))
        } else {
            None
        }
    }

    /// Returns the number of ranges that region `id` owns, if it exists.
    pub fn region_interval_count(&self, id: RegionId) -> (n: Option<usize>)
        ensures
            n == (if (id.0 as int) < self@.regions.len() {
                Some(self@.regions[id.0 as int].intervals.len() as usize)
            } else {
                None
            }),
    {
        let idx = id.0 as usize;
        if idx < self.region_arena.len() {
            Some(self.region_arena[idx].intervals.len())
        } else {
            None
        }
    }

    /// Whether `block` is live in its region: non-null, in the arena, its
    /// recorded region active, and inside the handed-out part of that
    /// region's ranges (an earlier range, or the first `used` blocks of the
    /// last one).
    fn block_is_live_in_region(&self, block: BlockId) -> (r: bool)
        ensures
            r == self@.live(block),
    {
        if block.0 == 0 || (block.0 as usize) > self.block_arena.len() {
            return false;
        }
        let region_id = self.block_arena[(block.0 as usize) - 1].region;
        let idx = region_id.0 as usize;
        if idx >= self.region_arena.len() {
            return false;
        }
        let region = &self.region_arena[idx];
        if !region.is_active {
            return false;
        }
        let ghost reg = self@.regions[idx as int];
        assert(reg == region@);
        let n = region.intervals.len();
        if n == 0 {
            return false;
        }
        assert(self@.live(block) == in_used(reg, block.0 as int));
        let mut k: usize = 0;
        while k + 1 < n
            invariant
                self@.live(block) == in_used(reg, block.0 as int),
                n == reg.intervals.len(),
                reg == region@,
                k < n,
                forall|j: int| 0 <= j < k ==> !(#[trigger] reg.intervals[j]).holds(block.0 as int),
            decreases n - k,
        {
            let iv = region.intervals[k];
            if iv.begin.0 <= block.0 && block.0 < iv.end.0 {
                assert(reg.intervals[k as int].holds(block.0 as int));
                assert(in_used(reg, block.0 as int));
                return true;
            }
            k = k + 1;
        }
        let last = region.intervals[n - 1];
        proof {
            assert(reg.intervals.last() == last);
            assert(!(exists|j: int| 0 <= j < reg.intervals.len() - 1 && (#[trigger] reg.intervals[j]).holds(
                block.0 as int,
            )));
        }
        (last.begin.0 as u64) <= (block.0 as u64) && (block.0 as u64) < (last.begin.0 as u64)
            + (region.active_interval_used as u64)
    }

    /// Returns the region of `block` if the block is live in it (see
    /// `block_is_live_in_region`).
    pub fn get_region_id_from_block(&self, block: BlockId) -> (r: Option<RegionId>)
        ensures
            r == self@.region_of(block),
    {
        if self.block_is_live_in_region(block) {
            Some(self.block_arena[(block.0 as usize) - 1].region)
        } else {
            None
        }
    }

    /// Returns the number of blocks region `id` owns, if it is active.
    pub fn region_size(&self, id: RegionId) -> (r: Option<u32>)
        requires
            self.wf(),
        ensures
            r == self@.region_size(id),
    {
        let idx = id.0 as usize;
        if idx < self.region_arena.len() {
            let r = &self.region_arena[idx];
            if !r.is_active {
                return None;
            }
            let ghost ivs = r.intervals@;
            proof {
                let gs = self@.groups();
                assert(gs[idx as int + 1] == ivs);
                lemma_group_disjoint(gs, idx as int + 1);
                lemma_group_within(gs, idx as int + 1, 1, self@.next_block as int);
            }
            let mut total = 0u32;
            let mut k: usize = 0;
            while k < r.intervals.len()
                invariant
                    ivs == r.intervals@,
                    k <= ivs.len(),
                    total == total_size(ivs.take(k as int)),
                    seq_disjoint(ivs),
                    seq_within(ivs, 1, self@.next_block as int),
                decreases ivs.len() - k,
            {
                let interval = r.intervals[k];
                proof {
                    lemma_total_size_take(ivs, k as int);
                    let pre = ivs.take(k as int + 1);
                    assert(seq_disjoint(pre)) by {
                        assert forall|i: int, j: int|
                            0 <= i < pre.len() && 0 <= j < pre.len() && i != j implies #[trigger] pre[i].disjoint(
                            #[trigger] pre[j],
                        ) by {
                            assert(pre[i] == ivs[i] && pre[j] == ivs[j]);
                        }
                    }
                    assert(seq_within(pre, 1, self@.next_block as int)) by {
                        assert forall|i: int| 0 <= i < pre.len() implies 1 <= #[trigger] pre[i].begin.0
                            < pre[i].end.0 <= self@.next_block by {
                            assert(pre[i] == ivs[i]);
                        }
                    }
                    lemma_total_size_bound(pre, 1, self@.next_block as int);
                }
                total += (interval.end.0) - (interval.begin.0);
                k += 1;
            }
            proof {
                assert(ivs.take(ivs.len() as int) =~= ivs);
                assert(self@.regions[idx as int] == r@);
                assert(region_ok(self@.regions[idx as int]));
                assert(ivs[0].size() >= 1) by {
                    assert(valid_slot(self@.groups(), idx as int + 1, 0));
                }
                lemma_total_size_positive(ivs);
            }
            if total > 0 {
                return Some(total);
            }
        }
        None
    }

    /// Spawns a cursor at the root block of region `id`.
    pub fn cursor(&self, id: RegionId) -> (c: Option<Cursor>)
        requires
            self.wf(),
        ensures
            c == (match self@.root(id) {
                Some(b) => Some(Cursor { i: b }),
                None => None,
            }),
    {
        let idx = id.0 as usize;
        if idx < self.region_arena.len() {
            let r = &self.region_arena[idx];
            if self.region_size(id).is_some() {
                if r.intervals.len() > 0 {
                    return Some(Cursor { i: r.intervals[0].begin });
                }
            }
        }
        None
    }

    /// Navigates to the parent block in place.
    pub fn up(&self, cursor: &mut Cursor) -> (r: Option<()>)
        requires
            self.wf(),
            self@.in_range(old(cursor).i),
        ensures
            old(cursor).i.0 != 0 && self@.block(old(cursor).i).up.0 != 0 ==> {
                &&& r == Some(())
                &&& final(cursor).i == self@.block(old(cursor).i).up
            },
            !(old(cursor).i.0 != 0 && self@.block(old(cursor).i).up.0 != 0) ==> {
                &&& r is None
                &&& *final(cursor) == *old(cursor)
            },
    {
        if cursor.i.0 == 0 {
            return None;
        }
        let idx = (cursor.i.0 as usize) - 1;
        let parent = self.block_arena[idx].up;
        proof {
            assert(self@.block_ok(self@.blocks[idx as int]));
        }
        if parent.0 == 0 {
            None
        } else {
            cursor.i = parent;
            Some(())
        }
    }

    /// Navigates to the first child block in place. The link is followed as
    /// stored, so the new position is an arena block only when the link names
    /// one.
    pub fn down(&self, cursor: &mut Cursor) -> (r: Option<()>)
        requires
            self.wf(),
            self@.in_range(old(cursor).i),
        ensures
            old(cursor).i.0 != 0 && self@.block(old(cursor).i).down.0 != 0 ==> {
                &&& r == Some(())
                &&& final(cursor).i == self@.block(old(cursor).i).down
            },
            !(old(cursor).i.0 != 0 && self@.block(old(cursor).i).down.0 != 0) ==> {
                &&& r is None
                &&& *final(cursor) == *old(cursor)
            },
    {
        if cursor.i.0 == 0 {
            return None;
        }
        let idx = (cursor.i.0 as usize) - 1;
        let child = self.block_arena[idx].down;
        proof {
            assert(self@.block_ok(self@.blocks[idx as int]));
        }
        if child.0 == 0 {
            None
        } else {
            cursor.i = child;
            Some(())
        }
    }

    /// Navigates to the next sibling block in place. The link is followed as
    /// stored, so the new position is an arena block only when the link names
    /// one.
    pub fn next(&self, cursor: &mut Cursor) -> (r: Option<()>)
        requires
            self.wf(),
            self@.in_range(old(cursor).i),
        ensures
            old(cursor).i.0 != 0 && self@.block(old(cursor).i).next.0 != 0 ==> {
                &&& r == Some(())
                &&& final(cursor).i == self@.block(old(cursor).i).next
            },
            !(old(cursor).i.0 != 0 && self@.block(old(cursor).i).next.0 != 0) ==> {
                &&& r is None
                &&& *final(cursor) == *old(cursor)
            },
    {
        if cursor.i.0 == 0 {
            return None;
        }
        let idx = (cursor.i.0 as usize) - 1;
        let next = self.block_arena[idx].next;
        proof {
            assert(self@.block_ok(self@.blocks[idx as int]));
        }
        if next.0 == 0 {
            None
        } else {
            cursor.i = next;
            Some(())
        }
    }

    /// Resolves `symbol` lexically, climbing parent blocks from the cursor;
    /// bindings of inactive regions are skipped.
    pub fn find(&self, cursor: Cursor, symbol: Symbol) -> (r: Option<EntryId>)
        requires
            self.wf(),
            self@.resolves(cursor.i, symbol),
        ensures
            r == self@.resolve(cursor.i, symbol),
    {
        let ghost n = choose|n: nat| (#[trigger] self@.lookup(cursor.i, symbol, n)) is Some;
        proof {
            lemma_resolve_from_fuel(self@, cursor.i, symbol, n);
        }
        let ghost result = self@.resolve(cursor.i, symbol);
        let mut curr = cursor.i;
        let ghost mut fuel: nat = n;
        while curr.0 != 0
            invariant
                self.wf(),
                result == self@.resolve(cursor.i, symbol),
                self@.lookup(curr, symbol, fuel) == Some(result),
            decreases fuel,
        {
            let block_idx = (curr.0 as usize) - 1;
            let region_id = self.block_arena[block_idx].region;
            let region_idx = region_id.0 as usize;
            proof {
                assert(self@.block_ok(self@.blocks[block_idx as int]));
            }
            let region = &self.region_arena[region_idx];
            proof {
                assert(self@.regions[region_idx as int] == region@);
            }
            if region.is_active {
                let key = binding_key_of(curr, symbol);
                match region.bindings.get(&key) {
                    Some(entry) => {
                        proof {
                            assert(region@.bindings[(curr, symbol)] == *entry);
                        }
                        return Some(*entry);
                    },
                    None => {},
                }
            }
            curr = self.block_arena[block_idx].up;
            proof {
                fuel = (fuel - 1) as nat;
            }
        }
        None
    }

    /// Binds `symbol` to `entry` in the cursor's block; a null cursor binds
    /// nothing. The block must be live: a cursor that outlived the release of
    /// its region (or names a block not handed out) is not accepted.
    pub fn bind(&mut self, cursor: Cursor, symbol: Symbol, entry: EntryId)
        requires
            old(self).wf(),
            old(self)@.in_range(cursor.i),
            cursor.i.0 != 0 ==> old(self)@.live(cursor.i),
        ensures
            final(self).wf(),
            cursor.i.0 == 0 ==> final(self)@ == old(self)@,
            cursor.i.0 != 0 ==> final(self)@ == old(self)@.with_binding(
                old(self)@.block(cursor.i).region,
                cursor.i,
                symbol,
                entry,
            ),
            cursor.i.0 != 0 ==> final(self)@.resolves(cursor.i, symbol) && final(self)@.resolve(
                cursor.i,
                symbol,
            ) == Some(entry),
    {
        if cursor.i.0 != 0 {
            let block_idx = (cursor.i.0 as usize) - 1;
            let region_id = self.block_arena[block_idx].region;
            let region_idx = region_id.0 as usize;
            proof {
                assert(old(self)@.block_ok(old(self)@.blocks[block_idx as int]));
            }
            let ghost old_view = self@;
            let key = binding_key_of(cursor.i, symbol);
            self.region_arena[region_idx].bindings.insert(key, entry);
            proof {
                let nv = old_view.with_binding(region_id, cursor.i, symbol, entry);
                lemma_bindings_view_insert(old(self).region_arena@[region_idx as int].bindings@, cursor.i, symbol, entry);
                assert(self@.regions =~= nv.regions);
                assert(self@ == nv);
                lemma_with_binding_wf(old_view, region_id, cursor.i, symbol, entry);
                assert(nv.lookup(cursor.i, symbol, 1) == Some(Some(entry)));
                lemma_resolve_from_fuel(nv, cursor.i, symbol, 1);
            }
        }
    }

    /// Allocates a block range of `size` identifiers from the freelist or by
    /// growing the arena.
    fn alloc_block_range(&mut self, size: u32) -> (r: Option<Interval>)
        requires
            old(self).wf(),
        ensures
            match alloc_outcome(old(self)@.block_freelist, old(self)@.next_block, size) {
                Some((iv, fl, next)) => {
                    &&& r == Some(iv)
                    &&& final(self)@ == ContextView {
                        blocks: arena_after(
                            old(self)@.blocks,
                            old(self)@.block_freelist,
                            old(self)@.next_block,
                            size,
                        ),
                        block_freelist: fl,
                        next_block: next,
                        ..old(self)@
                    }
                },
                None => {
                    &&& r is None
                    &&& final(self)@ == old(self)@
                },
            },
    {
        proof {
            self.lemma_allocator_wf();
        }
        let r = self.allocator.alloc_block_range(size, &mut self.block_arena);
        proof {
            if r is None {
                assert(self@.blocks =~= old(self)@.blocks);
            }
        }
        r
    }

    /// Allocates a region of `size` blocks; the region's root block is its
    /// first block. Refused (`None`) for `size == 0`, when no identifiers are
    /// left, or when the region table is full.
    pub fn region_alloc(&mut self, size: u32) -> (r: Option<RegionId>)
        requires
            old(self).wf(),
        ensures
            final(self).wf(),
            (final(self)@, r) == old(self)@.alloc_region(size),
            final(self)@.blocks.len() >= old(self)@.blocks.len(),
            match r {
                Some(id) => {
                    let root = final(self)@.root(id)->0;
                    &&& final(self)@.region_size(id) == Some(size)
                    &&& final(self)@.root(id) is Some
                    &&& !old(self)@.live(root)
                    &&& final(self)@.block(root).up.0 == 0
                    &&& final(self)@.block(root).down.0 == 0
                    &&& final(self)@.block(root).last_child.0 == 0
                    &&& final(self)@.block(root).next.0 == 0
                    &&& final(self)@.block(root).region == id
                    &&& forall|s: Symbol| #![trigger final(self)@.resolve(root, s)]
                        final(self)@.resolves(root, s) && final(self)@.resolve(root, s) is None
                },
                None => true,
            },
            forall|id: RegionId| old(self)@.root(id) is Some ==> #[trigger] final(self)@.root(id) == old(
                self,
            )@.root(id),
    {
        proof {
            self::scope::law_alloc_region_root_fresh(self@, size);
            self::runs::law_roots_kept(self@, Cursor { i: BlockId(0) }, size, BlockId(0));
        }
        if size == 0 {
            return None;
        }
        let ghost v0 = self@;
        let interval = match self.alloc_block_range(size) {
            Some(iv) => iv,
            None => {
                return None;
            },
        };
        proof {
            lemma_alloc_ranges(v0, size);
        }
        let ghost v1 = self@;
        let region_id = match self.region_freelist.pop() {
            Some(idx) => {
                proof {
                    assert(v0.region_freelist[v0.region_freelist.len() - 1] == idx);
                    assert(!v0.regions[idx as int].active);
                    assert(region_ok(v0.regions[idx as int]));
                }
                self.region_arena[idx as usize].is_active = true;
                self.region_arena[idx as usize].intervals.push(interval);
                self.region_arena[idx as usize].active_interval_used = 0;
                RegionId(idx)
            },
            None => {
                if self.region_arena.len() > MAX_REGION_ID as usize {
                    proof {
                        assert(self@ == v0.alloc_region(size).0);
                        lemma_alloc_region_wf(v0, size);
                    }
                    return None;
                }
                let idx = self.region_arena.len() as u32;
                self.region_arena.push(
                    Region {
                        is_active: true,
                        intervals: vec![interval],
                        bindings: HashMap::new(),
                        active_interval_used: 0,
                    },
                );
                RegionId(idx)
            },
        };
        let idx = region_id.0 as usize;
        self.region_arena[idx].active_interval_used = 1;
        let root_idx = (interval.begin.0 as usize) - 1;
        self.block_arena.set(root_idx, Block::detached(region_id));
        proof {
            let (nv, res) = v0.alloc_region(size);
            let fresh = RegionView::<EntryId> {
                active: true,
                intervals: seq![interval],
                bindings: Map::empty(),
                used: 1,
            };
            lemma_bindings_view_empty::<EntryId>();
            assert(self@.regions[idx as int] == fresh) by {
                assert(self@.regions[idx as int].intervals =~= seq![interval]);
                if v0.region_freelist.len() > 0 {
                    assert(v0.regions[idx as int].bindings == Map::<(BlockId, Symbol), EntryId>::empty());
                }
            }
            assert(self@.regions =~= nv.regions);
            assert(self@.blocks =~= nv.blocks);
            assert(self@.region_freelist =~= nv.region_freelist);
            assert(self@ == nv);
            assert(res == Some(region_id));
            lemma_alloc_region_wf(v0, size);
            let root = interval.begin;
            assert(self@.root(region_id) == Some(root));
            assert(total_size(seq![interval]) == interval.size()) by {
                assert(seq![interval].drop_last() =~= Seq::<Interval>::empty());
                assert(total_size(Seq::<Interval>::empty()) == 0);
            }
            assert(self@.block(root) == detached_block(region_id));
            assert(1 <= root.0 <= self@.blocks.len());
            assert(self@.regions[region_id.0 as int] == fresh);
            assert forall|s: Symbol| #![trigger self@.resolve(root, s)]
                self@.resolves(root, s) && self@.resolve(root, s) is None by {
                assert(!fresh.bindings.contains_key((root, s)));
                assert(self@.lookup(BlockId(0), s, 0) == Some(None::<EntryId>));
                assert(self@.lookup(root, s, 1) == Some(None::<EntryId>));
                lemma_resolve_from_fuel(self@, root, s, 1);
            }
        }
        Some(region_id)
    }

    /// Releases region `region_id`: its ranges go to the block freelist, its
    /// bindings are dropped and its identifier becomes reusable. Identifiers
    /// past the region table are ignored.
    pub fn region_free(&mut self, region_id: RegionId)
        requires
            old(self).wf(),
            (region_id.0 as int) < old(self)@.regions.len() ==> old(self)@.regions[region_id.0 as int].active,
        ensures
            final(self).wf(),
            final(self)@ == old(self)@.freed(region_id),
    {
        let idx = region_id.0 as usize;
        if idx < self.region_arena.len() {
            let ghost v0 = self@;
            let ghost ivs = v0.regions[idx as int].intervals;
            proof {
                let gs = v0.groups();
                assert(gs[idx as int + 1] == ivs);
                lemma_group_within(gs, idx as int + 1, 1, v0.next_block as int);
            }
            let mut intervals: Vec<Interval> = Vec::new();
            std::mem::swap(&mut intervals, &mut self.region_arena[idx].intervals);
            self.region_arena[idx].clear();
            let mut k: usize = 0;
            while k < intervals.len()
                invariant
                    intervals@ == ivs,
                    k <= ivs.len(),
                    seq_within(ivs, 1, v0.next_block as int),
                    self.allocator.block_freelist@ == v0.block_freelist + ivs.take(k as int),
                    self.allocator.block_next_id == old(self).allocator.block_next_id,
                    self.block_arena@ == v0.blocks,
                    self.region_freelist@ == v0.region_freelist,
                    self.region_arena@.len() == v0.regions.len(),
                    forall|r: int| 0 <= r < v0.regions.len() && r != idx ==> #[trigger] self.region_arena@[r]@ == v0.regions[r],
                    self.region_arena@[idx as int]@ == empty_region::<EntryId>(),
                decreases ivs.len() - k,
            {
                let interval = intervals[k];
                if (interval.begin.0 != 0) && (interval.end.0 != 0) && ((interval.end.0) > (interval.begin.0)) {
                    self.allocator.block_freelist.push(interval);
                }
                proof {
                    assert(ivs.take(k as int + 1) =~= ivs.take(k as int).push(ivs[k as int]));
                }
                k += 1;
            }
            self.region_freelist.push(region_id.0);
            proof {
                assert(ivs.take(ivs.len() as int) =~= ivs);
                let nv = v0.freed(region_id);
                assert(self@.regions =~= nv.regions);
                assert(self@ == nv);
                lemma_freed_wf(v0, region_id);
            }
        }
    }

    /// Hands out one more block of region `region_id`, growing the region
    /// when its last range is used up.
    fn alloc_block_in_region(&mut self, region_id: RegionId) -> (r: Option<BlockId>)
        requires
            old(self).wf(),
            (region_id.0 as int) < old(self)@.regions.len(),
            old(self)@.regions[region_id.0 as int].active,
        ensures
            final(self).wf(),
            match old(self)@.grow_region(region_id) {
                None => r is None && final(self)@ == old(self)@,
                Some((nv, n)) => r == Some(n) && final(self)@ == nv,
            },
            r matches Some(n) ==> old(self)@.hands_out(region_id, final(self)@, n),
    {
        let ghost v0 = self@;
        proof {
            if v0.grow_region(region_id) is Some {
                self::scope::law_grow_region_hands_out(v0, region_id);
            }
        }
        let idx = region_id.0 as usize;
        proof {
            assert(self@.regions[idx as int] == self.region_arena@[idx as int]@);
            assert(region_ok(v0.regions[idx as int]));
            let gs = v0.groups();
            let li = v0.regions[idx as int].intervals.len() - 1;
            assert(gs[idx as int + 1] == v0.regions[idx as int].intervals);
            assert(valid_slot(gs, idx as int + 1, li));
        }
        let has_space = {
            let region = &self.region_arena[idx];
            if region.intervals.len() > 0 {
                let last_interval = region.intervals[region.intervals.len() - 1];
                let size = last_interval.end.0 - last_interval.begin.0;
                region.active_interval_used < size
            } else {
                false
            }
        };
        if has_space {
            self.region_arena[idx].active_interval_used = self.region_arena[idx].active_interval_used + 1;
        } else {
            let new_interval = match self.alloc_block_range(1) {
                Some(iv) => iv,
                None => {
                    return None;
                },
            };
            proof {
                lemma_alloc_ranges(v0, 1);
            }
            let mut coalesced = false;
            let n_iv = self.region_arena[idx].intervals.len();
            if n_iv > 0 {
                let last_interval = self.region_arena[idx].intervals[n_iv - 1];
                if last_interval.end.0 == new_interval.begin.0 {
                    self.region_arena[idx].intervals.set(
                        n_iv - 1,
                        Interval { begin: last_interval.begin, end: new_interval.end },
                    );
                    self.region_arena[idx].active_interval_used = self.region_arena[idx].active_interval_used + 1;
                    coalesced = true;
                }
            }
            if !coalesced {
                self.region_arena[idx].intervals.push(new_interval);
                self.region_arena[idx].active_interval_used = 1;
            }
        }
        let used = self.region_arena[idx].active_interval_used;
        let n_iv = self.region_arena[idx].intervals.len();
        let offset = used - 1;
        let begin_val = self.region_arena[idx].intervals[n_iv - 1].begin.0;
        let new_block_id = BlockId(begin_val + offset);
        let block_idx = (new_block_id.0 as usize) - 1;
        proof {
            let (nv, n) = v0.grow_region(region_id)->0;
            assert(n == new_block_id);
            lemma_grow_region_wf(v0, region_id);
        }
        self.block_arena.set(block_idx, Block::detached(region_id));
        proof {
            let (nv, n) = v0.grow_region(region_id)->0;
            assert(self@.regions =~= nv.regions);
            assert(self@.blocks =~= nv.blocks);
            assert(self@ == nv);
        }
        Some(new_block_id)
    }

    /// Allocates a new child block in the region of the cursor's block,
    /// appends it to that block's children and moves the cursor down to it.
    /// A null cursor is left alone. The block must be live: a cursor that
    /// outlived the release of its region (or names a block not handed out)
    /// is not accepted.
    pub fn push_block(&mut self, cursor: &mut Cursor) -> (r: Option<()>)
        requires
            old(self).wf(),
            old(self)@.in_range(old(cursor).i),
            old(cursor).i.0 != 0 ==> old(self)@.live(old(cursor).i),
            old(self)@.push_link_ok(*old(cursor)),
        ensures
            final(self).wf(),
            (final(self)@, *final(cursor), r) == old(self)@.push_block_result(*old(cursor)),
            final(self)@.in_range(final(cursor).i),
            final(self)@.blocks.len() >= old(self)@.blocks.len(),
            r is Some ==> final(cursor).i.0 != 0 && final(self)@.block(final(cursor).i).up == old(cursor).i,
            r is Some ==> old(self)@.appends_leaf(
                old(cursor).i,
                final(self)@,
                final(cursor).i,
            ),
            forall|id: RegionId| #[trigger] final(self)@.root(id) == old(self)@.root(id),
    {
        proof {
            self::runs::law_roots_kept(self@, *cursor, 0, BlockId(0));
        }
        if cursor.i.0 != 0 {
            let ghost v0 = self@;
            let current = cursor.i;
            let block_idx = (current.0 as usize) - 1;
            let region_id = self.block_arena[block_idx].region;
            proof {
                assert(v0.block_ok(v0.blocks[block_idx as int]));
            }
            let new_block = match self.alloc_block_in_region(region_id) {
                Some(b) => b,
                None => {
                    return None;
                },
            };
            proof {
                lemma_grow_region_wf(v0, region_id);
            }
            let ghost v1 = self@;
            let down = self.block_arena[block_idx].down;
            proof {
                assert(v1.block_ok(v1.blocks[block_idx as int]));
                lemma_link_child_wf(v1, current, new_block);
            }
            if down.0 == 0 {
                let mut p = self.block_arena[block_idx];
                p.down = new_block;
                p.last_child = new_block;
                self.block_arena.set(block_idx, p);
            } else {
                let last = self.block_arena[block_idx].last_child;
                let last_idx = (last.0 as usize) - 1;
                let mut l = self.block_arena[last_idx];
                l.next = new_block;
                self.block_arena.set(last_idx, l);
                let mut p = self.block_arena[block_idx];
                p.last_child = new_block;
                self.block_arena.set(block_idx, p);
            }
            let ghost v2 = self@;
            proof {
                assert(v2.blocks =~= v1.linked_as_last_child(current, new_block));
                assert(v2 == (ContextView { blocks: v1.linked_as_last_child(current, new_block), ..v1 }));
            }
            let new_idx = (new_block.0 as usize) - 1;
            let mut nb = self.block_arena[new_idx];
            nb.up = current;
            proof {
                assert(v2.block_ok(v2.blocks[new_idx as int]));
                lemma_set_block_wf(v2, new_idx as int, nb);
            }
            self.block_arena.set(new_idx, nb);
            cursor.i = new_block;
            proof {
                assert(self@ == v2.with_block(new_idx as int, nb));
                if v0.live(current) {
                    self::scope::law_push_block_shape(v0, Cursor { i: current });
                }
            }
            Some(())
        } else {
            None
        }
    }

    /// Links `block` to its parent scope `parent`; a null or out-of-range
    /// `block` is ignored.
    pub fn link_up(&mut self, block: BlockId, parent: BlockId)
        requires
            old(self).wf(),
        ensures
            final(self).wf(),
            final(self)@ == (if block.0 != 0 && old(self)@.in_range(block) {
                old(self)@.with_block(block.0 - 1, Block { up: parent, ..old(self)@.block(block) })
            } else {
                old(self)@
            }),
    {
        if ((block.0) != 0) && ((block.0 as usize) <= (self.block_arena.len())) {
            let i = (block.0 as usize) - 1;
            let mut b = self.block_arena[i];
            b.up = parent;
            proof {
                assert(self@.block_ok(self@.blocks[i as int]));
                lemma_set_block_wf(self@, i as int, b);
            }
            self.block_arena.set(i, b);
        }
    }

    /// Links `block` to its first child `child`, which also becomes its last
    /// child; a null or out-of-range `block` is ignored.
    pub fn link_down(&mut self, block: BlockId, child: BlockId)
        requires
            old(self).wf(),
        ensures
            final(self).wf(),
            final(self)@ == (if block.0 != 0 && old(self)@.in_range(block) {
                old(self)@.with_block(
                    block.0 - 1,
                    Block { down: child, last_child: child, ..old(self)@.block(block) },
                )
            } else {
                old(self)@
            }),
    {
        if ((block.0) != 0) && ((block.0 as usize) <= (self.block_arena.len())) {
            let i = (block.0 as usize) - 1;
            let mut b = self.block_arena[i];
            b.down = child;
            b.last_child = child;
            proof {
                assert(self@.block_ok(self@.blocks[i as int]));
                lemma_set_block_wf(self@, i as int, b);
            }
            self.block_arena.set(i, b);
        }
    }

    /// Links `block` to its last child `last_child`; a null or out-of-range
    /// `block` is ignored.
    fn link_last_child(&mut self, block: BlockId, last_child: BlockId)
        requires
            old(self).wf(),
            last_child.0 != 0,
            block.0 != 0 && old(self)@.in_range(block) ==> old(self)@.block(block).down.0 != 0,
        ensures
            final(self).wf(),
            final(self)@ == (if block.0 != 0 && old(self)@.in_range(block) {
                old(self)@.with_block(block.0 - 1, Block { last_child, ..old(self)@.block(block) })
            } else {
                old(self)@
            }),
    {
        if ((block.0) != 0) && ((block.0 as usize) <= (self.block_arena.len())) {
            let i = (block.0 as usize) - 1;
            let mut b = self.block_arena[i];
            b.last_child = last_child;
            proof {
                assert(self@.block_ok(self@.blocks[i as int]));
                lemma_set_block_wf(self@, i as int, b);
            }
            self.block_arena.set(i, b);
        }
    }

    /// Links `block` to its next sibling `next`; a null or out-of-range
    /// `block` is ignored.
    pub fn link_next(&mut self, block: BlockId, next: BlockId)
        requires
            old(self).wf(),
        ensures
            final(self).wf(),
            final(self)@ == (if block.0 != 0 && old(self)@.in_range(block) {
                old(self)@.with_block(block.0 - 1, Block { next, ..old(self)@.block(block) })
            } else {
                old(self)@
            }),
    {
        if ((block.0) != 0) && ((block.0 as usize) <= (self.block_arena.len())) {
            let i = (block.0 as usize) - 1;
            let mut b = self.block_arena[i];
            b.next = next;
            proof {
                assert(self@.block_ok(self@.blocks[i as int]));
                lemma_set_block_wf(self@, i as int, b);
            }
            self.block_arena.set(i, b);
        }
    }

    /// Allocates a region of `size` blocks nested under the block `parent`:
    /// the new root's parent link is `parent`, and a non-null `parent` gets
    /// the root appended to its children.
    pub fn region_alloc_child(&mut self, size: u32, parent: BlockId) -> (r: Option<RegionId>)
        requires
            old(self).wf(),
            size > 0,
        ensures
            final(self).wf(),
            (final(self)@, r) == old(self)@.alloc_child_region(size, parent),
            final(self)@.blocks.len() >= old(self)@.blocks.len(),
            match r {
                Some(id) => {
                    &&& final(self)@.root(id) is Some
                    &&& final(self)@.block(final(self)@.root(id)->0).up == parent
                    &&& final(self)@.region_size(id) == Some(size)
                    &&& 1 <= parent.0 <= old(self)@.blocks.len() && parent != final(self)@.root(id)->0
                        ==> old(self)@.appends_child(parent, final(self)@, final(self)@.root(id)->0)
                },
                None => true,
            },
            forall|id: RegionId| old(self)@.root(id) is Some ==> #[trigger] final(self)@.root(id) == old(
                self,
            )@.root(id),
            r matches Some(id) ==> final(self)@.block(final(self)@.root(id)->0).region == id,
            r matches Some(id) ==> (parent != final(self)@.root(id)->0 ==> final(self)@.block(
                final(self)@.root(id)->0,
            ).down.0 == 0 && final(self)@.block(final(self)@.root(id)->0).last_child.0 == 0),
    {
        proof {
            self::runs::law_roots_kept(self@, Cursor { i: BlockId(0) }, size, parent);
            self::runs::law_nested_root_links(self@, size, parent);
        }
        let ghost v0 = self@;
        let region_id = match self.region_alloc(size) {
            Some(id) => id,
            None => {
                return None;
            },
        };
        let ghost v1 = self@;
        let root = self.region_arena[region_id.0 as usize].intervals[0].begin;
        proof {
            assert(self@.regions[region_id.0 as int] == self.region_arena@[region_id.0 as int]@);
            assert(v1.root(region_id) == Some(root));
            let gs = v1.groups();
            assert(region_ok(v1.regions[region_id.0 as int]));
            assert(valid_slot(gs, region_id.0 as int + 1, 0));
            assert(gs[region_id.0 as int + 1] == v1.regions[region_id.0 as int].intervals);
        }
        self.link_up(root, parent);
        let ghost v2 = self@;
        if (parent.0 != 0) && ((parent.0 as usize) <= (self.block_arena.len())) {
            let p_idx = (parent.0 as usize) - 1;
            let down = self.block_arena[p_idx].down;
            proof {
                assert(v2.block_ok(v2.blocks[p_idx as int]));
                lemma_link_child_wf(v2, parent, root);
            }
            if down.0 == 0 {
                self.link_down(parent, root);
            } else {
                let last = self.block_arena[p_idx].last_child;
                let ghost v3 = self@;
                self.link_next(last, root);
                proof {
                    assert(self@.blocks[p_idx as int].down == v3.blocks[p_idx as int].down);
                }
                self.link_last_child(parent, root);
            }
            proof {
                assert(self@.blocks =~= v2.linked_as_last_child(parent, root));
            }
        }
        proof {
            assert(self@.root(region_id) == Some(root));
            assert(self@.region_size(region_id) == v1.region_size(region_id));
            self::scope::law_alloc_child_links(v0, size, parent);
        }
        Some(region_id)
    }

    /// Allocates a one-block region nested under the cursor's block and moves
    /// the cursor to its root. A null cursor is left alone.
    pub fn push_region(&mut self, cursor: &mut Cursor) -> (r: Option<RegionId>)
        requires
            old(self).wf(),
        ensures
            final(self).wf(),
            r is Some ==> final(self)@.in_range(final(cursor).i),
            final(self)@.blocks.len() >= old(self)@.blocks.len(),
            old(cursor).i.0 == 0 ==> r is None && final(self)@ == old(self)@ && *final(cursor) == *old(cursor),
            old(cursor).i.0 != 0 ==> (final(self)@, r) == old(self)@.alloc_child_region(1, old(cursor).i),
            match r {
                Some(id) => {
                    &&& final(cursor).i.0 != 0
                    &&& final(self)@.root(id) == Some(final(cursor).i)
                    &&& final(self)@.block(final(cursor).i).up == old(cursor).i
                    &&& final(self)@.region_size(id) == Some(1u32)
                    &&& old(cursor).i.0 <= old(self)@.blocks.len() && old(cursor).i != final(cursor).i
                        ==> old(self)@.appends_child(old(cursor).i, final(self)@, final(cursor).i)
                },
                None => *final(cursor) == *old(cursor),
            },
            forall|id: RegionId| old(self)@.root(id) is Some ==> #[trigger] final(self)@.root(id) == old(
                self,
            )@.root(id),
            r matches Some(id) ==> final(self)@.block(final(cursor).i).region == id,
            r is Some && old(cursor).i != final(cursor).i ==> final(self)@.block(final(cursor).i).down.0 == 0
                && final(self)@.block(final(cursor).i).last_child.0 == 0,
    {
        if cursor.i.0 != 0 {
            let parent = cursor.i;
            let region_id = match self.region_alloc_child(1, parent) {
                Some(id) => id,
                None => {
                    return None;
                },
            };
            proof {
                assert(self@.regions[region_id.0 as int] == self.region_arena@[region_id.0 as int]@);
                let gs = self@.groups();
                assert(region_ok(self@.regions[region_id.0 as int]));
                assert(valid_slot(gs, region_id.0 as int + 1, 0));
                assert(gs[region_id.0 as int + 1] == self@.regions[region_id.0 as int].intervals);
                assert(gs[region_id.0 as int + 1][0].begin.0 >= 1);
            }
            let root = self.region_arena[region_id.0 as usize].intervals[0].begin;
            cursor.i = root;
            Some(region_id)
        } else {
            None
        }
    }

    /// Returns the arena entry of block `b`.
    pub fn block_at(&self, b: BlockId) -> (blk: Block)
        requires
            self.wf(),
            1 <= b.0 <= self@.blocks.len(),
        ensures
            blk == self@.block(b),
    {
        let blk = self.block_arena[(b.0 as usize) - 1];
        proof {
            assert(self@.block_ok(self@.blocks[b.0 - 1]));
        }
        blk
    }

    /// A read-only tree cursor at the root block of region `id`.
    pub fn iter(&self, id: RegionId) -> (r: Option<Iter<'_>>)
        requires
            self.wf(),
        ensures
            match self@.root(id) {
                Some(b) => r is Some && r->0.context == self && r->0.i == b && r->0.valid(),
                None => r is None,
            },
    {
        match self.cursor(id) {
            Some(c) => {
                proof {
                    self.lemma_root_in_range(id);
                }
                Some(Iter { context: self, i: c.i })
            },
            None => None,
        }
    }

    /// A tree cursor at the root block of region `id` that may also add
    /// blocks and bindings.
    pub fn iter_mut(&mut self, id: RegionId) -> (r: Option<IterMut<'_>>)
        requires
            old(self).wf(),
        ensures
            match old(self)@.root(id) {
                Some(b) => r is Some && (*r->0.context)@ == old(self)@ && r->0.i == b && r->0.valid()
                    && *final(self) == *final(r->0.context),
                None => r is None,
            },
    {
        match self.cursor(id) {
            Some(c) => {
                proof {
                    self.lemma_root_in_range(id);
                }
                Some(IterMut { context: self, i: c.i })
            },
            None => None,
        }
    }

    proof fn lemma_root_in_range(&self, id: RegionId)
        requires
            self.wf(),
            self@.root(id) is Some,
        ensures
            ({
                let b = self@.root(id)->0;
                1 <= b.0 <= self@.blocks.len()
            }),
    {
        let gs = self@.groups();
        assert(region_ok(self@.regions[id.0 as int]));
        assert(valid_slot(gs, id.0 as int + 1, 0));
        assert(gs[id.0 as int + 1] == self@.regions[id.0 as int].intervals);
    }
}

} // verus!
