//! Concrete instances of the library's laws and of its edge cases.

use lib::env::{BlockAllocator, BlockId, Context, Cursor, EntryId, Interval, RegionId, Symbol};

/// A fresh range whose end would not fit in `u32`, or whose begin would pass
/// `MAX_BLOCK_ID`, is refused and leaves the allocator unchanged.
#[test]
fn test_alloc_refused_at_identifier_limit() {
  let mut alloc = BlockAllocator::new();
  let mut arena = Vec::new();
  alloc.block_next_id = BlockId(u32::MAX - 3);
  assert!(alloc.alloc_block_range(4, &mut arena).is_none());
  assert_eq!(alloc.block_next_id.0, u32::MAX - 3);
  assert!(arena.is_empty());
  assert!(alloc.block_freelist.is_empty());

  alloc.block_next_id = BlockId(u32::MAX);
  assert!(alloc.alloc_block_range(1, &mut arena).is_none());
  assert_eq!(alloc.block_next_id.0, u32::MAX);
  assert!(arena.is_empty());
}

/// At the limit a fitting freed range is still handed out: the freelist is
/// consulted before the identifier space.
#[test]
fn test_freed_range_served_at_identifier_limit() {
  let mut alloc = BlockAllocator::new();
  let mut arena = Vec::new();
  alloc.block_next_id = BlockId(u32::MAX);
  alloc.block_freelist.push(Interval { begin: BlockId(u32::MAX - 1), end: BlockId(u32::MAX) });
  let r = alloc.alloc_block_range(1, &mut arena).unwrap();
  assert_eq!((r.begin.0, r.end.0), (u32::MAX - 1, u32::MAX));
  assert!(alloc.block_freelist.is_empty());
  assert!(arena.is_empty());
}

/// First fit: the first free range large enough is split, the remainder is
/// appended and the split entry is replaced by the last one.
#[test]
fn test_first_fit_split_order() {
  let mut alloc = BlockAllocator::new();
  let mut arena = Vec::new();
  alloc.block_next_id = BlockId(40);
  alloc.block_freelist.push(Interval { begin: BlockId(1), end: BlockId(3) });
  alloc.block_freelist.push(Interval { begin: BlockId(10), end: BlockId(20) });
  alloc.block_freelist.push(Interval { begin: BlockId(30), end: BlockId(35) });
  let r = alloc.alloc_block_range(4, &mut arena).unwrap();
  assert_eq!((r.begin.0, r.end.0), (10, 14));
  let fl: Vec<(u32, u32)> = alloc.block_freelist.iter().map(|iv| (iv.begin.0, iv.end.0)).collect();
  assert_eq!(fl, vec![(1, 3), (30, 35), (14, 20)]);
  assert!(arena.is_empty());
}

/// Freed region identifiers are reused last-freed first.
#[test]
fn test_region_ids_reused_last_freed_first() {
  let mut ctx = Context::new();
  let a = ctx.region_alloc(1).unwrap();
  let b = ctx.region_alloc(1).unwrap();
  let _c = ctx.region_alloc(1).unwrap();
  ctx.region_free(a);
  ctx.region_free(b);
  assert_eq!(ctx.region_alloc(1), Some(b));
  assert_eq!(ctx.region_alloc(1), Some(a));
  assert_eq!(ctx.region_alloc(1), Some(RegionId(3)));
}

/// Freeing appends the region's ranges to the block freelist in order.
#[test]
fn test_free_appends_ranges_in_order() {
  let mut ctx = Context::new();
  let a = ctx.region_alloc(1).unwrap(); // block 1
  let _sep = ctx.region_alloc(1).unwrap(); // block 2
  let mut c = ctx.cursor(a).unwrap();
  ctx.push_block(&mut c).unwrap(); // block 3, a second range of a
  assert_eq!(c.i, BlockId(3));
  assert_eq!(ctx.region_interval_count(a), Some(2));
  assert_eq!(ctx.region_size(a), Some(2));
  ctx.region_free(a);
  assert_eq!(ctx.block_freelist_interval(0), Some((BlockId(1), BlockId(2))));
  assert_eq!(ctx.block_freelist_interval(1), Some((BlockId(3), BlockId(4))));
  assert_eq!(ctx.region_interval_count(a), Some(0));
  assert_eq!(ctx.region_size(a), None);
  assert!(ctx.cursor(a).is_none());
}

/// Binding one symbol does not change the lookup of another.
#[test]
fn test_bind_keeps_other_symbols() {
  let mut ctx = Context::new();
  let r = ctx.region_alloc(2).unwrap();
  let mut c = ctx.cursor(r).unwrap();
  ctx.bind(c, Symbol(1), EntryId(10));
  ctx.push_block(&mut c).unwrap();
  assert_eq!(ctx.find(c, Symbol(1)), Some(EntryId(10)));
  ctx.bind(c, Symbol(2), EntryId(20));
  assert_eq!(ctx.find(c, Symbol(1)), Some(EntryId(10)));
  assert_eq!(ctx.find(c, Symbol(2)), Some(EntryId(20)));
}

/// A pushed block's parent is the cursor it was pushed from; the first child
/// is reached by `down` and later children by `next`.
#[test]
fn test_push_block_links() {
  let mut ctx = Context::new();
  let r = ctx.region_alloc(4).unwrap();
  let root = ctx.cursor(r).unwrap();
  let mut c = root;
  ctx.push_block(&mut c).unwrap();
  let first = c;
  assert!(ctx.up(&mut c).is_some());
  assert_eq!(c, root);
  ctx.push_block(&mut c).unwrap();
  let second = c;
  let mut d = root;
  ctx.down(&mut d).unwrap();
  assert_eq!(d, first);
  ctx.next(&mut d).unwrap();
  assert_eq!(d, second);
  assert!(ctx.next(&mut d).is_none());
  assert_eq!(d, second);
}

/// A nested region's root has the cursor as parent and is the cursor's last
/// child; the nested region has size one.
#[test]
fn test_push_region_links_and_size() {
  let mut ctx = Context::new();
  let outer = ctx.region_alloc(3).unwrap();
  let root = ctx.cursor(outer).unwrap();
  let mut c = root;
  let inner = ctx.push_region(&mut c).unwrap();
  assert_eq!(ctx.cursor(inner), Some(c));
  assert_eq!(ctx.region_size(inner), Some(1));
  assert_eq!(ctx.get_region_id_from_block(c.i), Some(inner));
  let mut p = c;
  ctx.up(&mut p).unwrap();
  assert_eq!(p, root);
  let mut d = root;
  ctx.down(&mut d).unwrap();
  assert_eq!(d, c);
}

/// A null cursor neither navigates, binds, nor allocates.
#[test]
fn test_null_cursor_is_inert() {
  let mut ctx = Context::new();
  let _r = ctx.region_alloc(2).unwrap();
  let mut c = Cursor::default();
  assert!(ctx.push_block(&mut c).is_none());
  assert!(ctx.push_region(&mut c).is_none());
  ctx.bind(c, Symbol(1), EntryId(1));
  assert_eq!(ctx.find(c, Symbol(1)), None);
  assert_eq!(ctx.blocks_capacity(), 2);
  assert_eq!(c, Cursor::default());
}

/// Region sizes add up over non-contiguous growth.
#[test]
fn test_region_size_over_growth() {
  let mut ctx = Context::new();
  let a = ctx.region_alloc(2).unwrap();
  let _b = ctx.region_alloc(1).unwrap();
  let mut c = ctx.cursor(a).unwrap();
  ctx.push_block(&mut c).unwrap(); // second block of a's first range
  assert_eq!(ctx.region_size(a), Some(2));
  ctx.push_block(&mut c).unwrap(); // new range
  ctx.push_block(&mut c).unwrap(); // coalesced with it
  assert_eq!(ctx.region_size(a), Some(4));
  assert_eq!(ctx.region_interval_count(a), Some(2));
  assert_eq!(ctx.blocks_capacity(), 5);
}

/// The mutable tree cursor: stepping over siblings, yielding blocks, and the
/// read-only view at the same position.
#[test]
fn test_iter_mut_stepping_and_readonly() {
  let mut ctx = Context::new();
  let r = ctx.region_alloc(3).unwrap();
  {
    let mut it = ctx.iter_mut(r).unwrap();
    assert_eq!(it.block_id(), BlockId(1));
    assert_eq!(it.region_id(), r);
    it.push().unwrap(); // block 2
    it.bind(Symbol(7), EntryId(70));
    it.up().unwrap();
    it.push().unwrap(); // block 3
    let ro = it.as_readonly();
    assert_eq!(ro.block_id(), BlockId(3));
    assert_eq!(ro.find(Symbol(7)), None);
  }
  let mut sibs = ctx.iter_mut(r).unwrap();
  sibs.down().unwrap();
  assert_eq!(sibs.find(Symbol(7)), Some(EntryId(70)));
  assert!(sibs.step_sibling());
  assert_eq!(sibs.block_id(), BlockId(3));
  assert!(!sibs.step_sibling());
  assert_eq!(sibs.next(), Some(BlockId(3)));
  assert_eq!(sibs.block_id(), BlockId(0));
  assert_eq!(sibs.next(), None);
  assert_eq!(sibs.region_id(), RegionId(0));
}

/// The read-only tree cursor yields the current position and advances.
#[test]
fn test_iter_yields_then_advances() {
  let mut ctx = Context::new();
  let r = ctx.region_alloc(1).unwrap();
  let mut it = ctx.iter(r).unwrap();
  let cur = it.next().unwrap();
  assert_eq!(cur.block_id(), BlockId(1));
  assert_eq!(it.block_id(), BlockId(0));
  assert!(it.next().is_none());
  assert!(it.up().is_none());
  assert!(it.down().is_none());
}

/// A pushed block is a fresh leaf appended after the last child: the parent
/// keeps its first child, takes the new block as last child, and the old last
/// child gets it as next sibling.
#[test]
fn test_push_block_appends_leaf() {
  let mut ctx = Context::new();
  let r = ctx.region_alloc(4).unwrap();
  let root = ctx.cursor(r).unwrap();
  let mut c = root;
  ctx.push_block(&mut c).unwrap();
  let first = c.i;
  let mut c = root;
  ctx.push_block(&mut c).unwrap();
  let second = c.i;
  let p = ctx.block_at(root.i);
  assert_eq!((p.down, p.last_child), (first, second));
  assert_eq!(ctx.block_at(first).next, second);
  let leaf = ctx.block_at(second);
  assert_eq!((leaf.up, leaf.down.0, leaf.last_child.0, leaf.next.0), (root.i, 0, 0, 0));
  assert_eq!(leaf.region, r);
  // the region had room: its size is unchanged
  assert_eq!(ctx.region_size(r), Some(4));
}

/// A binding is seen from the blocks below it up to the next binding of the
/// same symbol, and from nowhere else.
#[test]
fn test_binding_visibility() {
  let mut ctx = Context::new();
  let r = ctx.region_alloc(4).unwrap();
  let root = ctx.cursor(r).unwrap();
  let mut a = root;
  ctx.push_block(&mut a).unwrap(); // child of root
  let mut b = a;
  ctx.push_block(&mut b).unwrap(); // grandchild
  let mut s = root;
  ctx.push_block(&mut s).unwrap(); // second child of root
  ctx.bind(b, Symbol(7), EntryId(1));
  ctx.bind(a, Symbol(7), EntryId(2));
  assert_eq!(ctx.find(b, Symbol(7)), Some(EntryId(1))); // its own binding is nearer
  assert_eq!(ctx.find(a, Symbol(7)), Some(EntryId(2)));
  assert_eq!(ctx.find(root, Symbol(7)), None); // above the binding
  assert_eq!(ctx.find(s, Symbol(7)), None); // a sibling scope
  ctx.bind(root, Symbol(7), EntryId(3));
  assert_eq!(ctx.find(s, Symbol(7)), Some(EntryId(3)));
  assert_eq!(ctx.find(a, Symbol(7)), Some(EntryId(2)));
}

/// The arena holds one entry per block identifier handed out so far, never
/// shrinks, and is left alone by a release.
#[test]
fn test_capacity_along_calls() {
  let mut ctx = Context::new();
  assert_eq!(ctx.blocks_capacity(), 0);
  let a = ctx.region_alloc(10).unwrap();
  assert_eq!(ctx.blocks_capacity(), 10);
  let b = ctx.region_alloc(20).unwrap();
  assert_eq!(ctx.blocks_capacity(), 30);
  ctx.region_free(a);
  assert_eq!(ctx.blocks_capacity(), 30);
  let _c = ctx.region_alloc(5).unwrap(); // reuses a's range
  assert_eq!(ctx.blocks_capacity(), 30);
  let mut cur = ctx.cursor(b).unwrap();
  ctx.push_block(&mut cur).unwrap();
  assert_eq!(ctx.blocks_capacity(), 30);
  let _d = ctx.region_alloc(11).unwrap(); // no freed range holds 11
  assert_eq!(ctx.blocks_capacity(), 41);
}

/// Link operations store any block identifier, as the arena entries are
/// plain records; navigation then follows the stored link.
#[test]
fn test_links_store_any_identifier() {
  let mut ctx = Context::new();
  let _r = ctx.region_alloc(2).unwrap();
  ctx.link_down(BlockId(1), BlockId(99));
  ctx.link_next(BlockId(1), BlockId(77));
  let blk = ctx.block_at(BlockId(1));
  assert_eq!((blk.down.0, blk.last_child.0, blk.next.0), (99, 99, 77));
  let mut c = Cursor { i: BlockId(1) };
  ctx.down(&mut c).unwrap();
  assert_eq!(c.i.0, 99);
  // a link on a null or unknown block is ignored
  ctx.link_down(BlockId(0), BlockId(5));
  ctx.link_next(BlockId(50), BlockId(5));
  assert_eq!(ctx.blocks_capacity(), 2);
}

/// On a chain of parent links that ends at the null block, a lookup from the
/// bottom climbs to the top.
#[test]
fn test_lookup_climbs_a_chain() {
  let mut ctx = Context::new();
  let r = ctx.region_alloc(5).unwrap();
  let mut c = ctx.cursor(r).unwrap();
  for _ in 0..4 {
    ctx.push_block(&mut c).unwrap(); // blocks 2 to 5, each under the previous one
  }
  assert_eq!(c.i.0, 5);
  ctx.bind(c, Symbol(1), EntryId(9));
  // turn the chain around: 1 -> 2 -> 3 -> 4 -> 5 -> null
  for b in 1..5u32 {
    ctx.link_up(BlockId(b), BlockId(b + 1));
  }
  ctx.link_up(BlockId(5), BlockId(0));
  assert_eq!(ctx.find(Cursor { i: BlockId(1) }, Symbol(1)), Some(EntryId(9)));
  assert_eq!(ctx.find(Cursor { i: BlockId(1) }, Symbol(2)), None);
  assert_eq!(ctx.region_size(r), Some(5));
}

/// A nested region's root is appended after the existing children of the
/// cursor's block.
#[test]
fn test_push_region_appends_after_children() {
  let mut ctx = Context::new();
  let outer = ctx.region_alloc(3).unwrap();
  let root = ctx.cursor(outer).unwrap();
  let mut c = root;
  ctx.push_block(&mut c).unwrap();
  let first = c.i;
  let mut n = root;
  let inner = ctx.push_region(&mut n).unwrap();
  let p = ctx.block_at(root.i);
  assert_eq!((p.down, p.last_child), (first, n.i));
  assert_eq!(ctx.block_at(first).next, n.i);
  assert_eq!(ctx.block_at(n.i).up, root.i);
  assert_eq!(ctx.region_size(inner), Some(1));
}

/// Only blocks in the handed-out part of a region belong to it: the other
/// blocks of its range do not, until they are handed out.
#[test]
fn test_unused_block_has_no_region() {
  let mut ctx = Context::new();
  let r = ctx.region_alloc(5).unwrap();
  assert_eq!(ctx.get_region_id_from_block(BlockId(1)), Some(r));
  assert_eq!(ctx.get_region_id_from_block(BlockId(3)), None);
  let mut c = ctx.cursor(r).unwrap();
  ctx.push_block(&mut c).unwrap(); // block 2
  ctx.push_block(&mut c).unwrap(); // block 3
  assert_eq!(ctx.get_region_id_from_block(BlockId(3)), Some(r));
  assert_eq!(ctx.get_region_id_from_block(BlockId(4)), None);
}

/// A request for no identifiers takes an empty range: from the first free
/// range when there is one (which moves to the end of the freelist), else at
/// the first never-used identifier, which stays where it is.
#[test]
fn test_alloc_empty_range() {
  let mut alloc = BlockAllocator::new();
  let mut arena = Vec::new();
  let r = alloc.alloc_block_range(0, &mut arena).unwrap();
  assert_eq!((r.begin.0, r.end.0), (1, 1));
  assert_eq!(alloc.block_next_id.0, 1);
  alloc.block_next_id = BlockId(10);
  alloc.block_freelist.push(Interval { begin: BlockId(2), end: BlockId(4) });
  alloc.block_freelist.push(Interval { begin: BlockId(6), end: BlockId(8) });
  let r = alloc.alloc_block_range(0, &mut arena).unwrap();
  assert_eq!((r.begin.0, r.end.0), (2, 2));
  let fl: Vec<(u32, u32)> = alloc.block_freelist.iter().map(|iv| (iv.begin.0, iv.end.0)).collect();
  assert_eq!(fl, vec![(6, 8), (2, 4)]);
}
