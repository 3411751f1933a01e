//! The sample programs run to completion and resolve names as their scopes
//! say.

use lib::env::{BlockId, Cursor, EntryId, Symbol};
use lib::scenarios::{
  simulate_async_continuations_with_cursors, simulate_class_hierarchy_regions, simulate_eval,
  simulate_lexical_scoping, simulate_region_usability, simulate_simultaneous_cursors,
};

#[test]
fn test_sample_program_scopes() {
  let p = simulate_lexical_scoping().unwrap();
  let at = |b: u32| Cursor { i: BlockId(b) };
  assert_eq!(p.ctx.find(at(1), Symbol(2)), Some(EntryId(1)));
  assert_eq!(p.ctx.find(at(1), Symbol(3)), None);
  assert_eq!(p.ctx.find(at(3), Symbol(2)), Some(EntryId(2)));
  assert_eq!(p.ctx.find(at(4), Symbol(2)), Some(EntryId(4)));
  assert_eq!(p.ctx.find(at(4), Symbol(1)), Some(EntryId(0)));
  assert_eq!(p.mem[4].value, "b3");
  assert_eq!(p.mem.len(), 8);
}

#[test]
fn test_sample_program_walks() {
  let p = simulate_lexical_scoping().unwrap();
  assert_eq!(simulate_eval(&p), Some(()));
  assert_eq!(simulate_simultaneous_cursors(&p), Some(()));
}

#[test]
fn test_region_scenarios_complete() {
  assert_eq!(simulate_async_continuations_with_cursors(), Some(()));
  assert_eq!(simulate_region_usability(), Some(()));
  assert_eq!(simulate_class_hierarchy_regions(), Some(()));
}
