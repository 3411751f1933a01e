//! Block range allocator: first-fit reuse of freed ranges, growth of the
//! arena otherwise.

use vstd::prelude::*;
use super::block::{blank_block, Block, BlockId, Interval};
use super::{RegionId, MAX_BLOCK_ID};

verus! {

/// Allocator managing block range reuse and freelist tracking.
pub struct BlockAllocator {
    /// Ranges freed by regions, in the order they were freed or split.
    pub block_freelist: Vec<Interval>,
    /// First block identifier that has never been handed out.
    pub block_next_id: BlockId,
}

/// The range holds at least `size` identifiers.
pub open spec fn fits(iv: Interval, size: u32) -> bool {
    iv.size() >= size
}

/// Entry `i` is the first entry of `fl` that holds `size` identifiers.
pub open spec fn is_first_fit(fl: Seq<Interval>, size: u32, i: int) -> bool {
    &&& 0 <= i < fl.len()
    &&& fits(fl[i], size)
    &&& forall|j: int| 0 <= j < i ==> !fits(#[trigger] fl[j], size)
}

/// Index of the first free range that holds `size` identifiers, if any.
pub open spec fn first_fit(fl: Seq<Interval>, size: u32) -> Option<int> {
    if exists|i: int| is_first_fit(fl, size, i) {
        Some(choose|i: int| is_first_fit(fl, size, i))
    } else {
        None
    }
}

/// Taking `size` identifiers from the front of free range `i`: the range that
/// is handed out, and the freelist after the entry is swap-removed and the
/// remainder (if any) appended.
pub open spec fn split_free_range(fl: Seq<Interval>, i: int, size: u32) -> (Interval, Seq<Interval>) {
    let r = fl[i];
    let rest = fl.update(i, fl.last()).drop_last();
    let cut = BlockId((r.begin.0 + size) as u32);
    let taken = Interval { begin: r.begin, end: cut };
    if r.size() > size {
        (taken, rest.push(Interval { begin: cut, end: r.end }))
    } else {
        (taken, rest)
    }
}

/// A fresh range `[next, next + size)` is out of the identifier space: its
/// `begin` is past `MAX_BLOCK_ID`, or its `end` does not fit in `u32`.
pub open spec fn fresh_range_refused(next: u32, size: u32) -> bool {
    next > MAX_BLOCK_ID || next + size > u32::MAX
}

/// What a request for `size` identifiers yields, given the freelist `fl` and
/// the first never-used identifier `next`: the range handed out, the new
/// freelist and the new `next`; `None` when the freelist has no fitting range
/// and a fresh range cannot be had: its `begin` would pass `MAX_BLOCK_ID`, or
/// its `end = next + size` would not fit in `u32`.
pub open spec fn alloc_outcome(fl: Seq<Interval>, next: u32, size: u32) -> Option<(Interval, Seq<Interval>, u32)> {
    match first_fit(fl, size) {
        Some(i) => Some((split_free_range(fl, i, size).0, split_free_range(fl, i, size).1, next)),
        None => if fresh_range_refused(next, size) {
            None
        } else {
            Some(
                (
                    Interval { begin: BlockId(next), end: BlockId((next + size) as u32) },
                    fl,
                    (next + size) as u32,
                ),
            )
        },
    }
}

/// `arena` padded with blank blocks up to length `target`.
pub open spec fn padded(arena: Seq<Block>, target: int) -> Seq<Block> {
    if arena.len() >= target {
        arena
    } else {
        arena + Seq::new((target - arena.len()) as nat, |j: int| blank_block())
    }
}

/// The arena after a request for `size` identifiers: it only grows when the
/// range comes from beyond the freelist, up to the end of that range.
pub open spec fn arena_after(arena: Seq<Block>, fl: Seq<Interval>, next: u32, size: u32) -> Seq<Block> {
    match first_fit(fl, size) {
        Some(i) => arena,
        None => if fresh_range_refused(next, size) {
            arena
        } else {
            padded(arena, next + size - 1)
        },
    }
}

impl BlockAllocator {
    /// Every freelist entry is a range with `begin <= end`.
    pub open spec fn wf(&self) -> bool {
        forall|i: int|
            0 <= i < self.block_freelist@.len() ==> (#[trigger] self.block_freelist@[i]).begin.0
                <= self.block_freelist@[i].end.0
    }

    /// Creates a new empty block allocator.
    pub fn new() -> (a: Self)
        ensures
            a.block_freelist@ == Seq::<Interval>::empty(),
            a.block_next_id == BlockId(1),
    {
        Self::default()
    }

    /// Index of the first freelist entry holding `size` identifiers.
    fn first_fit_index(&self, size: u32) -> (r: Option<usize>)
        requires
            self.wf(),
        ensures
            match r {
                Some(i) => first_fit(self.block_freelist@, size) == Some(i as int),
                None => first_fit(self.block_freelist@, size) is None,
            },
    {
        let n = self.block_freelist.len();
        let mut i: usize = 0;
        while i < n
            invariant
                n == self.block_freelist@.len(),
                i <= n,
                self.wf(),
                forall|j: int| 0 <= j < i ==> !fits(#[trigger] self.block_freelist@[j], size),
            decreases n - i,
        {
            let r = self.block_freelist[i];
            let r_size = r.end.0 - r.begin.0;
            if r_size >= size {
                proof {
                    let fl = self.block_freelist@;
                    assert(is_first_fit(fl, size, i as int));
                    assert forall|k: int| is_first_fit(fl, size, k) implies k == i by {
                        if k < i {
                            assert(!fits(fl[k], size));
                        } else if k > i {
                            assert(!fits(fl[i as int], size));
                        }
                    }
                }
                return Some(i);
            }
            i = i + 1;
        }
        proof {
            let fl = self.block_freelist@;
            assert forall|k: int| !is_first_fit(fl, size, k) by {
                if 0 <= k < fl.len() {
                    assert(!fits(fl[k], size));
                }
            }
        }
        None
    }

    /// Allocates a range of `size` block identifiers: the first freelist entry
    /// that is large enough is split, else the range is taken from
    /// `block_next_id` and `block_arena` grows to cover it.
    pub fn alloc_block_range(&mut self, size: u32, block_arena: &mut Vec<Block>) -> (r: Option<Interval>)
        requires
            old(self).wf(),
        ensures
            final(self).wf(),
            match alloc_outcome(old(self).block_freelist@, old(self).block_next_id.0, size) {
                Some((iv, fl, next)) => {
                    &&& r == Some(iv)
                    &&& final(self).block_freelist@ == fl
                    &&& final(self).block_next_id == BlockId(next)
                },
                None => {
                    &&& r is None
                    &&& final(self).block_freelist@ == old(self).block_freelist@
                    &&& final(self).block_next_id == old(self).block_next_id
                },
            },
            final(block_arena)@ == arena_after(
                old(block_arena)@,
                old(self).block_freelist@,
                old(self).block_next_id.0,
                size,
            ),
    {
        match self.first_fit_index(size) {
            Some(i) => {
                let r = self.block_freelist[i];
                let r_size = r.end.0 - r.begin.0;
                self.block_freelist.swap_remove(i);
                let cut = BlockId(r.begin.0 + size);
                if r_size > size {
                    self.block_freelist.push(Interval { begin: cut, end: r.end });
                }
                Some(Interval { begin: r.begin, end: cut })
            },
            None => {
                let begin = self.block_next_id;
                if begin.0 > MAX_BLOCK_ID || (begin.0 as u64) + (size as u64) > u32::MAX as u64 {
                    return None;
                }
                let end = BlockId(begin.0 + size);
                self.block_next_id = end;
                let target = (end.0 as usize).saturating_sub(1);
                let ghost old_arena = block_arena@;
                while block_arena.len() < target
                    invariant
                        old_arena.len() <= block_arena@.len(),
                        block_arena@.len() <= if old_arena.len() >= target { old_arena.len() as int } else { target as int },
                        block_arena@ =~= padded(old_arena, block_arena@.len() as int),
                    decreases target - block_arena@.len(),
                {
                    block_arena.push(Block::detached(RegionId(0)));
                    assert(block_arena@ =~= padded(old_arena, block_arena@.len() as int));
                }
                Some(Interval { begin, end })
            },
        }
    }
}

impl Default for BlockAllocator {
    /// Creates a default block allocator starting at `BlockId(1)`.
    fn default() -> (a: Self)
        ensures
            a.block_freelist@ == Seq::<Interval>::empty(),
            a.block_next_id == BlockId(1),
    {
        BlockAllocator { block_freelist: Vec::new(), block_next_id: BlockId(1) }
    }
}

} // verus!
