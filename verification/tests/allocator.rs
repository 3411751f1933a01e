//! Tests of the block range allocator on its own.

use lib::env::{BlockAllocator, BlockId, Interval};

/// Verifies default initialization and new() of `BlockAllocator`
#[test]
fn test_new() {
  let alloc = BlockAllocator::new();
  assert_eq!(alloc.block_freelist.len(), 0);
  assert_eq!(alloc.block_next_id.0, 1);

  let def = BlockAllocator::default();
  assert_eq!(def.block_freelist.len(), 0);
  assert_eq!(def.block_next_id.0, 1);
}

/// Verifies block range allocation when the freelist is empty
#[test]
fn test_alloc_range_no_freelist() {
  let mut alloc = BlockAllocator::new();
  let mut arena = Vec::new();
  let r1 = alloc.alloc_block_range(5, &mut arena).unwrap();
  assert_eq!(r1.begin.0, 1);
  assert_eq!(r1.end.0, 6);
  assert_eq!(arena.len(), 5);
}

/// Verifies exact-match block range reuse from the freelist
#[test]
fn test_alloc_range_freelist_exact() {
  let mut alloc = BlockAllocator::new();
  let mut arena = Vec::new();
  let r1 = alloc.alloc_block_range(5, &mut arena).unwrap();
  alloc.block_freelist.push(r1);

  let r2 = alloc.alloc_block_range(5, &mut arena).unwrap();
  assert_eq!(r2.begin.0, 1);
  assert_eq!(r2.end.0, 6);
  assert_eq!(alloc.block_freelist.len(), 0);
}

/// Verifies partial-match block range reuse and remainder splitting
#[test]
fn test_alloc_range_freelist_partial() {
  let mut alloc = BlockAllocator::new();
  let mut arena = Vec::new();
  let r1 = alloc.alloc_block_range(5, &mut arena).unwrap();
  alloc.block_freelist.push(r1);

  let r2 = alloc.alloc_block_range(3, &mut arena).unwrap();
  assert_eq!(r2.begin.0, 1);
  assert_eq!(r2.end.0, 4);
  assert_eq!(alloc.block_freelist.len(), 1);
  assert_eq!(alloc.block_freelist[0].begin.0, 4);
  assert_eq!(alloc.block_freelist[0].end.0, 6);
}

/// A fresh range starts at the first never-used identifier, even when the
/// freelist holds smaller ranges, and the freelist is left untouched.
#[test]
fn test_alloc_range_skips_small_free_ranges() {
  let mut alloc = BlockAllocator::new();
  let mut arena = Vec::new();
  alloc.block_freelist.push(Interval { begin: BlockId(1), end: BlockId(3) });
  alloc.block_next_id = BlockId(3);
  let r = alloc.alloc_block_range(4, &mut arena).unwrap();
  assert_eq!((r.begin.0, r.end.0), (3, 7));
  assert_eq!(alloc.block_next_id.0, 7);
  assert_eq!(alloc.block_freelist.len(), 1);
  assert_eq!(arena.len(), 6);
}
