//! Block identifiers, block ranges and the structural tree node.

use vstd::prelude::*;
use super::RegionId;

verus! {

/// Identifier of a block in the arena; `BlockId(0)` is the null block.
///
/// A non-null `BlockId(b)` names the arena slot `b - 1`.
#[derive(Clone, Copy, Debug, Default, PartialEq, Eq, Hash)]
pub struct BlockId(pub u32);

/// Half-open range `[begin, end)` of block identifiers.
#[derive(Clone, Copy, Debug, Default)]
pub struct Interval {
    pub begin: BlockId,
    pub end: BlockId,
}

/// Tree node: parent, first child, last child and next sibling links, and the
/// region the block belongs to.
#[derive(Clone, Copy, Debug, Default)]
pub struct Block {
    pub up: BlockId,
    pub down: BlockId,
    pub last_child: BlockId,
    pub next: BlockId,
    pub region: RegionId,
}

impl Interval {
    /// Number of block identifiers in the range.
    pub open spec fn size(self) -> int {
        self.end.0 - self.begin.0
    }

    /// The range holds block identifier `b`.
    pub open spec fn holds(self, b: int) -> bool {
        self.begin.0 <= b < self.end.0
    }

    /// The two ranges share no block identifier (empty ranges are ignored by
    /// the callers, which only compare non-empty ranges).
    pub open spec fn disjoint(self, other: Interval) -> bool {
        self.end.0 <= other.begin.0 || other.end.0 <= self.begin.0
    }
}

/// A block with no links that belongs to region 0.
pub open spec fn blank_block() -> Block {
    Block {
        up: BlockId(0),
        down: BlockId(0),
        last_child: BlockId(0),
        next: BlockId(0),
        region: RegionId(0),
    }
}

/// A block with no links that belongs to `region`.
pub open spec fn detached_block(region: RegionId) -> Block {
    Block {
        up: BlockId(0),
        down: BlockId(0),
        last_child: BlockId(0),
        next: BlockId(0),
        region,
    }
}

impl Block {
    /// A block with no links that belongs to `region`.
    pub fn detached(region: RegionId) -> (b: Block)
        ensures
            b == detached_block(region),
    {
        Block {
            up: BlockId(0),
            down: BlockId(0),
            last_child: BlockId(0),
            next: BlockId(0),
            region,
        }
    }
}

} // verus!
