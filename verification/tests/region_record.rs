//! Tests of the region record.

use std::collections::HashMap;
use lib::env::region::binding_key_of;
use lib::env::{BlockId, Interval, Region, Symbol};

/// Verifies default initialization of `Region`
#[test]
fn test_region_default() {
  let r: Region<u32> = Region::default();
  assert!(!r.is_active);
  assert_eq!(r.intervals.len(), 0);
  assert_eq!(r.bindings.len(), 0);
  assert_eq!(r.active_interval_used, 0);
}

/// Verifies that `clear` resets the region state
#[test]
fn test_region_clear() {
  let mut r: Region<u32> = Region {
    is_active: true,
    ..Region::default()
  };
  r.intervals.push(Interval {
    begin: BlockId(1),
    end: BlockId(5),
  });
  r.bindings.insert(binding_key_of(BlockId(1), Symbol(10)), 20u32);
  r.active_interval_used = 3;

  r.clear();
  assert!(!r.is_active);
  assert_eq!(r.intervals.len(), 0);
  assert_eq!(r.bindings.len(), 0);
  assert_eq!(r.active_interval_used, 0);
}

/// Verifies direct struct construction of `Region`
#[test]
fn test_region_struct_construction() {
  let mut bindings = HashMap::new();
  bindings.insert(binding_key_of(BlockId(2), Symbol(5)), 12u32);

  let r: Region<u32> = Region {
    is_active: true,
    intervals: vec![Interval {
      begin: BlockId(2),
      end: BlockId(4),
    }],
    bindings,
    active_interval_used: 1,
  };

  assert!(r.is_active);
  assert_eq!(r.intervals.len(), 1);
  assert_eq!(r.intervals[0].begin.0, 2);
  assert_eq!(r.intervals[0].end.0, 4);
  assert_eq!(r.bindings.get(&binding_key_of(BlockId(2), Symbol(5))), Some(&12u32));
  assert_eq!(r.active_interval_used, 1);
}

/// Verifies that `clear` is safe to call multiple times
#[test]
fn test_region_double_clear() {
  let mut r: Region<u32> = Region::default();
  r.clear();
  assert!(!r.is_active);
  assert_eq!(r.intervals.len(), 0);
  assert_eq!(r.bindings.len(), 0);
  assert_eq!(r.active_interval_used, 0);

  r.clear();
  assert!(!r.is_active);
  assert_eq!(r.intervals.len(), 0);
  assert_eq!(r.bindings.len(), 0);
  assert_eq!(r.active_interval_used, 0);
}

/// Distinct (block, symbol) pairs get distinct keys.
#[test]
fn test_binding_key_layout() {
  assert_eq!(binding_key_of(BlockId(0), Symbol(7)), 7);
  assert_eq!(binding_key_of(BlockId(1), Symbol(0)), 1 << 32);
  assert_eq!(binding_key_of(BlockId(u32::MAX), Symbol(u32::MAX)), u64::MAX);
  assert_ne!(binding_key_of(BlockId(1), Symbol(2)), binding_key_of(BlockId(2), Symbol(1)));
}
