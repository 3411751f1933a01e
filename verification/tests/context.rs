//! Tests of the context internals: capacity, freelists, region lookup.

use lib::env::{BlockId, Context, EntryId, RegionId, Symbol};

/// Verifies backing block capacity matches the allocated size
#[test]
fn test_backing_space_complexity_monotone_frontiers() {
  let mut context = Context::new();
  let r1 = context.region_alloc(10).unwrap();
  assert_eq!(context.blocks_capacity(), 10);
  context.region_free(r1);
}

/// Verifies `O(1)` swap-remove logic during freelist reclamation
#[test]
fn test_freelist_swap_remove_o1_complexity() {
  let mut context = Context::new();
  let r_a = context.region_alloc(5).unwrap();
  let sep1 = context.region_alloc(1).unwrap();
  let r_b = context.region_alloc(15).unwrap();
  let sep2 = context.region_alloc(1).unwrap();
  let r_c = context.region_alloc(25).unwrap();

  context.region_free(r_a);
  context.region_free(r_b);
  context.region_free(r_c);

  assert_eq!(context.block_freelist_len(), 3);
  assert_eq!(context.block_freelist_interval(0).unwrap().0.0, 1);
  assert_eq!(context.block_freelist_interval(1).unwrap().0.0, 7);
  assert_eq!(context.block_freelist_interval(2).unwrap().0.0, 23);

  let r_alloc = context.region_alloc(12).unwrap();

  assert_eq!(context.block_freelist_len(), 3);
  assert_eq!(context.block_freelist_interval(1).unwrap().0.0, 23);

  context.region_free(sep1);
  context.region_free(sep2);
  context.region_free(r_alloc);
}

/// Verifies default initialization and derives for handle types
#[test]
fn test_struct_derives_and_defaults() {
  assert_eq!(RegionId::default(), RegionId(0));
  assert_eq!(Symbol::default(), Symbol(0));
  assert_eq!(EntryId::default(), EntryId(0));
  assert_eq!(BlockId::default(), BlockId(0));
}

/// Verifies exact-match block range reuse from the freelist
#[test]
fn test_alloc_block_range_exact_match() {
  let mut context = Context::new();
  let r1 = context.region_alloc(10).unwrap();
  context.region_free(r1);

  let r2 = context.region_alloc(10).unwrap();
  assert_eq!(r2.0, 0);
}

/// Verifies partial-match block range splitting and remainder tracking
#[test]
fn test_alloc_block_range_partial_match() {
  let mut context = Context::new();
  let r1 = context.region_alloc(10).unwrap();
  context.region_free(r1);

  let _r2 = context.region_alloc(6).unwrap();
  assert_eq!(context.block_freelist_len(), 1);
  assert_eq!(context.block_freelist_interval(0).unwrap().0.0, 7);
  assert_eq!(context.block_freelist_interval(0).unwrap().1.0, 11);
}

/// Verifies region identifier recycling on allocation
#[test]
fn test_region_freelist_reuse() {
  let mut context = Context::new();
  let r1 = context.region_alloc(5).unwrap();
  let _r2 = context.region_alloc(5).unwrap();

  context.region_free(r1);
  let r3 = context.region_alloc(5).unwrap();
  assert_eq!(r3, r1);
}

/// Verifies error handling when freeing non-existent region identifiers
#[test]
fn test_region_free_invalid_id() {
  let mut context = Context::new();
  context.region_free(RegionId(999));
}

/// Verifies cursor creation checks on out-of-bounds region handles
#[test]
fn test_iterators_invalid_region() {
  let context = Context::new();
  assert!(context.cursor(RegionId(999)).is_none());
}

/// Verifies safety checks on invalid block or region identifiers
#[test]
fn test_introspection_invalid_inputs() {
  let context = Context::new();
  assert_eq!(context.region_size(RegionId(999)), None);
  assert_eq!(context.get_region_id_from_block(BlockId(999)), None);
  assert_eq!(context.get_region_id_from_block(BlockId(0)), None);
  assert_eq!(context.block_freelist_interval(999), None);
}

/// Verifies disjoint range allocation when active interval is full
/// and confirms that coalescing merges contiguous allocations.
#[test]
fn test_alloc_block_in_region_disjoint_allocation() {
  let mut context = Context::new();
  let r = context.region_alloc(2).unwrap();
  let mut cursor = context.cursor(r).unwrap();

  // Within capacity (size 2), creates Block 2
  context.push_block(&mut cursor).unwrap();
  assert_eq!(cursor.i.0, 2);

  // Out of capacity, allocates a new block (3). Since it's contiguous, it coalesces.
  context.push_block(&mut cursor).unwrap();
  assert_eq!(cursor.i.0, 3);
  assert_eq!(context.region_size(r), Some(3));

  // Verify that coalescing kept the number of intervals as 1
  assert_eq!(context.region_interval_count(r), Some(1));
}

/// Verifies size introspection behavior on empty regions
#[test]
fn test_zero_sized_region_size_introspection() {
  let mut context = Context::new();
  let r = context.region_alloc(0);
  assert!(r.is_none());
}

/// Verifies that looking up the owning region of a block in a freed region returns None.
#[test]
fn test_freed_block_region_resolution() {
  let mut context = Context::new();
  let r = context.region_alloc(5).unwrap();
  let cursor = context.cursor(r).unwrap();
  let block = cursor.i;
  assert_eq!(context.get_region_id_from_block(block), Some(r));
  context.region_free(r);
  assert_eq!(context.get_region_id_from_block(block), None);
}

/// Verifies nested region linking when the parent block is invalid
#[test]
fn test_region_alloc_child_invalid_parent() {
  let mut context = Context::new();
  let _r = context.region_alloc_child(2, BlockId(0)).unwrap();
  assert_eq!(context.block_at(BlockId(1)).up.0, 0);

  let r2 = context.region_alloc_child(2, BlockId(999)).unwrap();
  assert_eq!(context.get_region_id_from_block(BlockId(3)), Some(r2));
}
