//! Position handle in the scope tree.

use vstd::prelude::*;
use super::block::BlockId;

verus! {

/// Lightweight, copyable position in the environment's block tree.
///
/// It holds only a block identifier, so it never borrows the context.
#[derive(Clone, Copy, Debug, Default, PartialEq, Eq)]
pub struct Cursor {
    pub i: BlockId,
}

} // verus!
