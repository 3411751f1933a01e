//! Tests of the borrowing tree cursors `Iter` and `IterMut`.

use lib::env::{BlockId, Context, EntryId, Iter, IterMut, Symbol};

/// Verifies immutable navigation methods on `Iter`
#[test]
fn test_iter_immutable_navigation() {
  let mut context = Context::new();
  let r = context.region_alloc(3).unwrap();

  let root = context.iter(r).unwrap();
  assert_eq!(root.block_id().0, 1);
  assert_eq!(root.region_id(), r);
  let mut up = root;
  assert!(up.up().is_none());
  let mut down = root;
  assert!(down.down().is_none());
}

/// Verifies lexical lookup resolution climbing parent scopes
#[test]
fn test_iter_lexical_find() {
  let mut context = Context::new();
  let r_a = context.region_alloc(2).unwrap();
  let mut iter_mut_a = context.iter_mut(r_a).unwrap();
  iter_mut_a.push(); // creates 2
  iter_mut_a.bind(Symbol(42), EntryId(100));

  let r_b = context.region_alloc_child(2, BlockId(2)).unwrap();
  let iter_b = context.iter(r_b).unwrap();
  assert_eq!(iter_b.find(Symbol(42)), Some(EntryId(100)));
  assert_eq!(iter_b.find(Symbol(99)), None);
}

/// Verifies sibling traversal by `next`
#[test]
fn test_iter_iterator_impl() {
  let mut context = Context::new();
  let r = context.region_alloc(3).unwrap();

  let mut iter_mut = context.iter_mut(r).unwrap();
  iter_mut.push(); // creates 2
  iter_mut.up().unwrap();
  iter_mut.push(); // creates 3

  let root = context.iter(r).unwrap();
  let mut sibs = root;
  sibs.down().unwrap();
  let first = sibs.next().unwrap();
  assert_eq!(first.block_id().0, 2);
  let second = sibs.next().unwrap();
  assert_eq!(second.block_id().0, 3);
  assert!(sibs.next().is_none());
}

/// Verifies mutable parent/child navigation and child insertion
#[test]
fn test_iter_mut_navigation_and_push() {
  let mut context = Context::new();
  let r = context.region_alloc(3).unwrap();

  let mut iter_mut = context.iter_mut(r).unwrap();
  iter_mut.push(); // creates 2
  assert_eq!(iter_mut.block_id().0, 2);
  assert_eq!(iter_mut.region_id(), r);

  iter_mut.up().unwrap();
  assert_eq!(iter_mut.block_id().0, 1);

  iter_mut.down().unwrap();
  assert_eq!(iter_mut.block_id().0, 2);
}

/// Verifies `step_sibling` functionality on `IterMut`
#[test]
fn test_iter_mut_sibling_step() {
  let mut context = Context::new();
  let r = context.region_alloc(3).unwrap();

  let mut iter_mut = context.iter_mut(r).unwrap();
  iter_mut.push(); // creates 2
  iter_mut.up().unwrap();
  iter_mut.push(); // creates 3

  let mut sibs = context.iter_mut(r).unwrap();
  sibs.down().unwrap();
  assert_eq!(sibs.block_id().0, 2);
  assert!(sibs.step_sibling());
  assert_eq!(sibs.block_id().0, 3);
  assert!(!sibs.step_sibling());
}

/// Verifies `bind` method and symbol binding mutations on `IterMut`
#[test]
fn test_iter_mut_binding() {
  let mut context = Context::new();
  let r = context.region_alloc(1).unwrap();

  let mut iter_mut = context.iter_mut(r).unwrap();
  iter_mut.bind(Symbol(5), EntryId(50));
  assert_eq!(iter_mut.find(Symbol(5)), Some(EntryId(50)));

  let iter = iter_mut.as_readonly();
  assert_eq!(iter.block_id().0, 1);
}

/// Verifies correct sentinel handlings for iterators at block `0`
#[test]
fn test_iter_invalid_handling() {
  let context = Context::new();
  let invalid_iter = Iter { context: &context, i: BlockId(0) };
  let mut up = invalid_iter;
  assert!(up.up().is_none());
  let mut down = invalid_iter;
  assert!(down.down().is_none());
  assert_eq!(invalid_iter.region_id().0, 0);

  let mut context_mut = Context::new();
  let mut invalid_iter_mut1 = IterMut { context: &mut context_mut, i: BlockId(0) };
  assert!(invalid_iter_mut1.up().is_none());

  let mut invalid_iter_mut2 = IterMut { context: &mut context_mut, i: BlockId(0) };
  assert!(invalid_iter_mut2.down().is_none());

  let mut invalid_iter_mut3 = IterMut { context: &mut context_mut, i: BlockId(0) };
  assert!(!invalid_iter_mut3.step_sibling());
  assert_eq!(invalid_iter_mut3.region_id().0, 0);

  assert!(invalid_iter_mut3.push().is_none());
  invalid_iter_mut3.bind(Symbol(1), EntryId(1));
  assert!(invalid_iter_mut3.next().is_none());
}
