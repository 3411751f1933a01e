//! Sample programs over the environment. The first builds the scopes of a
//! small nested program:
//!
//! ```text
//! { // block 1
//!   let a = "a";
//!   let b = "b1";
//!   { // block 2
//!     let b = "b2";
//!     { // block 3
//!       let c = "c1";
//!     }
//!     { // block 4
//!       let b = "b3";
//!       let c = "c2";
//!     }
//!     let c = "c3";
//!   }
//!   let d = "d";
//! }
//! ```
//!
//! with the symbols "a", "b", "c", "d" as `Symbol(1)` to `Symbol(4)`; the
//! others walk its scopes with cursors, or build scopes of their own out of
//! nested regions.

use vstd::prelude::*;
use crate::env::{Context, ContextView, Cursor, EntryId, RegionId, Symbol};
use crate::env::block::BlockId;
use crate::env::wf_proofs::lemma_resolve_from_fuel;

verus! {

/// A value named by a binding of the sample program.
#[allow(dead_code)]
#[derive(Debug)]
pub struct Entry {
    pub value: String,
    pub ty: String,
}

/// The sample program: its scopes, the values its bindings name (a binding
/// to `EntryId(k)` names `mem[k]`), and the region of its outermost scope.
pub struct Program {
    pub ctx: Context,
    pub mem: Vec<Entry>,
    pub root_region: RegionId,
}

/// Block `b` resolves `s` to `e`.
pub open spec fn resolves_to(v: ContextView, b: u32, s: u32, e: Option<EntryId>) -> bool {
    v.resolves(BlockId(b), Symbol(s)) && v.resolve(BlockId(b), Symbol(s)) == e
}

/// The scopes of the sample program: block 1 is the root of region 0, block
/// 2 its first child, blocks 3 and 4 the children of block 2, and every
/// name used in the program resolves, from each block, to the nearest
/// enclosing binding.
pub open spec fn lexical_scopes(v: ContextView) -> bool {
    &&& v.root(RegionId(0)) == Some(BlockId(1))
    &&& v.blocks.len() >= 4
    &&& v.block(BlockId(1)).up == BlockId(0)
    &&& v.block(BlockId(1)).down == BlockId(2)
    &&& v.block(BlockId(2)).up == BlockId(1)
    &&& v.block(BlockId(2)).down == BlockId(3)
    &&& v.block(BlockId(3)).up == BlockId(2)
    &&& v.block(BlockId(3)).next == BlockId(4)
    &&& v.block(BlockId(4)).up == BlockId(2)
    &&& resolves_to(v, 1, 1, Some(EntryId(0)))
    &&& resolves_to(v, 1, 2, Some(EntryId(1)))
    &&& resolves_to(v, 1, 3, None)
    &&& resolves_to(v, 1, 4, Some(EntryId(7)))
    &&& resolves_to(v, 2, 2, Some(EntryId(2)))
    &&& resolves_to(v, 2, 3, Some(EntryId(6)))
    &&& resolves_to(v, 3, 2, Some(EntryId(2)))
    &&& resolves_to(v, 3, 3, Some(EntryId(3)))
    &&& resolves_to(v, 4, 2, Some(EntryId(4)))
    &&& resolves_to(v, 4, 3, Some(EntryId(5)))
}

/// The sample program as `simulate_lexical_scoping` builds it.
pub open spec fn built(p: &Program) -> bool {
    &&& p.ctx.wf()
    &&& p.mem@.len() == 8
    &&& p.root_region == RegionId(0)
    &&& lexical_scopes(p.ctx@)
}

/// Builds the scopes and bindings of the sample program.
pub fn simulate_lexical_scoping() -> (p: Option<Program>)
    ensures
        p is Some,
        built(&p->0),
{
    let mem = vec![
        Entry { value: "a".to_string(), ty: "String".to_string() },
        Entry { value: "b1".to_string(), ty: "String".to_string() },
        Entry { value: "b2".to_string(), ty: "String".to_string() },
        Entry { value: "c1".to_string(), ty: "String".to_string() },
        Entry { value: "b3".to_string(), ty: "String".to_string() },
        Entry { value: "c2".to_string(), ty: "String".to_string() },
        Entry { value: "c3".to_string(), ty: "String".to_string() },
        Entry { value: "d".to_string(), ty: "String".to_string() },
    ];

    let mut ctx = Context::new();
    let root_region = ctx.region_alloc(8)?;
    let mut cursor = ctx.cursor(root_region)?;

    ctx.bind(cursor, Symbol(1), EntryId(0));
    ctx.bind(cursor, Symbol(2), EntryId(1));

    ctx.push_block(&mut cursor)?;
    ctx.bind(cursor, Symbol(2), EntryId(2));

    ctx.push_block(&mut cursor)?;
    ctx.bind(cursor, Symbol(3), EntryId(3));

    ctx.up(&mut cursor)?;
    ctx.push_block(&mut cursor)?;
    ctx.bind(cursor, Symbol(2), EntryId(4));
    ctx.bind(cursor, Symbol(3), EntryId(5));

    ctx.up(&mut cursor)?;
    ctx.bind(cursor, Symbol(3), EntryId(6));

    ctx.up(&mut cursor)?;
    ctx.bind(cursor, Symbol(4), EntryId(7));

    proof {
        let v = ctx@;
        reveal_with_fuel(ContextView::lookup, 4);
        lemma_resolve_from_fuel(v, BlockId(1), Symbol(1), 3);
        lemma_resolve_from_fuel(v, BlockId(1), Symbol(2), 3);
        lemma_resolve_from_fuel(v, BlockId(1), Symbol(3), 3);
        lemma_resolve_from_fuel(v, BlockId(1), Symbol(4), 3);
        lemma_resolve_from_fuel(v, BlockId(2), Symbol(2), 3);
        lemma_resolve_from_fuel(v, BlockId(2), Symbol(3), 3);
        lemma_resolve_from_fuel(v, BlockId(3), Symbol(2), 3);
        lemma_resolve_from_fuel(v, BlockId(3), Symbol(3), 3);
        lemma_resolve_from_fuel(v, BlockId(4), Symbol(2), 3);
        lemma_resolve_from_fuel(v, BlockId(4), Symbol(3), 3);
    }
    Some(Program { ctx, mem, root_region })
}

/// Resolves `sym` from `cursor` to the value it names.
fn find<'a>(p: &'a Program, cursor: Cursor, sym: Symbol) -> (r: Option<&'a Entry>)
    requires
        p.ctx.wf(),
        p.ctx@.resolves(cursor.i, sym),
        p.ctx@.resolve(cursor.i, sym) matches Some(e) ==> e.0 < p.mem@.len(),
    ensures
        r == (match p.ctx@.resolve(cursor.i, sym) {
            Some(e) => Some(&p.mem@[e.0 as int]),
            None => None,
        }),
{
    let idx = p.ctx.find(cursor, sym)?;
    Some(&p.mem[idx.0 as usize])
}

/// Walks the scopes of the sample program with one cursor and resolves
/// names on the way.
pub fn simulate_eval(p: &Program) -> (r: Option<()>)
    requires
        built(p),
    ensures
        r is Some,
{
    let mut cursor = p.ctx.cursor(p.root_region)?;

    // Block 1
    let a = find(p, cursor, Symbol(1));
    let b = find(p, cursor, Symbol(2));
    let c = find(p, cursor, Symbol(3));
    assert(a == Some(&p.mem@[0]) && b == Some(&p.mem@[1]) && c is None);

    // Enter block 2
    p.ctx.down(&mut cursor)?;
    let b = find(p, cursor, Symbol(2));
    let c = find(p, cursor, Symbol(3));
    assert(b == Some(&p.mem@[2]) && c == Some(&p.mem@[6]));

    // Enter block 3
    p.ctx.down(&mut cursor)?;
    let c = find(p, cursor, Symbol(3));
    let b = find(p, cursor, Symbol(2));
    assert(c == Some(&p.mem@[3]) && b == Some(&p.mem@[2]));

    // Exit block 3
    p.ctx.up(&mut cursor)?;

    // Enter block 4
    p.ctx.down(&mut cursor)?;
    p.ctx.next(&mut cursor)?;
    let b = find(p, cursor, Symbol(2));
    let c = find(p, cursor, Symbol(3));
    assert(b == Some(&p.mem@[4]) && c == Some(&p.mem@[5]));

    // Exit block 4 (back to block 2)
    p.ctx.up(&mut cursor)?;
    let c = find(p, cursor, Symbol(3));
    assert(c == Some(&p.mem@[6]));

    // Exit block 2 (back to block 1)
    p.ctx.up(&mut cursor)?;
    let d = find(p, cursor, Symbol(4));
    assert(d == Some(&p.mem@[7]));

    Some(())
}

/// Two cursors walk the scopes of the sample program independently and
/// resolve names at the same time.
pub fn simulate_simultaneous_cursors(p: &Program) -> (r: Option<()>)
    requires
        built(p),
    ensures
        r is Some,
{
    let mut c1 = p.ctx.cursor(p.root_region)?;
    let mut c2 = p.ctx.cursor(p.root_region)?;

    // c1 moves down to block 2
    p.ctx.down(&mut c1)?;

    // c2 moves down to block 2, then block 3, then its sibling block 4
    p.ctx.down(&mut c2)?;
    p.ctx.down(&mut c2)?;
    p.ctx.next(&mut c2)?;

    // both cursors are used for lookups at once
    let b = find(p, c1, Symbol(2));
    let c = find(p, c2, Symbol(3));
    assert(b == Some(&p.mem@[2]) && c == Some(&p.mem@[5]));

    Some(())
}

/// Two tasks hold cursors into one context; mutations happen one after the
/// other, and each task sees the other's changes from its own position.
pub fn simulate_async_continuations_with_cursors() -> (r: Option<()>)
    ensures
        r is Some,
{
    let mut ctx = Context::new();
    let root = ctx.region_alloc(8)?;

    let mut task1_cursor = ctx.cursor(root)?;
    let mut task2_cursor = ctx.cursor(root)?;

    // task 1 runs and changes the context
    ctx.bind(task1_cursor, Symbol(1), EntryId(1));
    ctx.push_block(&mut task1_cursor)?;
    ctx.bind(task1_cursor, Symbol(2), EntryId(2));

    // task 2 resumes and sees task 1's binding from its own position
    proof {
        assert(ctx@.lookup(task2_cursor.i, Symbol(1), 1) is Some);
    }
    let f = ctx.find(task2_cursor, Symbol(1));
    assert(f == Some(EntryId(1)));

    // task 2 moves down into the block task 1 created
    ctx.down(&mut task2_cursor)?;
    proof {
        reveal_with_fuel(ContextView::lookup, 2);
        assert(ctx@.lookup(task2_cursor.i, Symbol(2), 1) is Some);
    }
    let f = ctx.find(task2_cursor, Symbol(2));
    assert(f == Some(EntryId(2)));

    // task 1 resumes and adds another block
    ctx.push_block(&mut task1_cursor)?;
    ctx.bind(task1_cursor, Symbol(3), EntryId(3));

    // task 2 moves to the new block
    ctx.down(&mut task2_cursor)?;
    proof {
        assert(ctx@.lookup(task2_cursor.i, Symbol(3), 1) is Some);
    }
    let f = ctx.find(task2_cursor, Symbol(3));
    assert(f == Some(EntryId(3)));

    Some(())
}

/// A nested region: a cursor in it resolves the bindings of the enclosing
/// region, and the nested region is released when done.
pub fn simulate_region_usability() -> (r: Option<()>)
    ensures
        r is Some,
{
    let mut ctx = Context::new();

    // the outer region
    let r1 = ctx.region_alloc(4)?;
    let mut c1 = ctx.cursor(r1)?;
    ctx.bind(c1, Symbol(1), EntryId(1));

    // a nested region; the cursor moves to its root
    let r2 = ctx.push_region(&mut c1)?;
    ctx.bind(c1, Symbol(2), EntryId(2));

    // the nested root resolves the outer binding and its own
    proof {
        reveal_with_fuel(ContextView::lookup, 3);
        assert(ctx@.lookup(c1.i, Symbol(1), 2) is Some);
        assert(ctx@.lookup(c1.i, Symbol(2), 2) is Some);
    }
    let f1 = ctx.find(c1, Symbol(1));
    let f2 = ctx.find(c1, Symbol(2));
    assert(f1 == Some(EntryId(1)) && f2 == Some(EntryId(2)));

    // a separate cursor in the outer region
    let parent_cursor = ctx.cursor(r1)?;
    proof {
        assert(ctx@.lookup(parent_cursor.i, Symbol(1), 1) is Some);
    }
    let f = ctx.find(parent_cursor, Symbol(1));
    assert(f == Some(EntryId(1)));

    // release the nested region
    ctx.region_free(r2);

    Some(())
}

/// Scopes of a class hierarchy as nested regions: a global region, a region
/// per class nested under it, a region per method nested under its class,
/// and blocks inside a method. A method resolves names up to the global
/// scope through its class only; regions are released innermost first.
pub fn simulate_class_hierarchy_regions() -> (r: Option<()>)
    ensures
        r is Some,
{
    let mut ctx = Context::new();

    // top-level scope
    let global_region = ctx.region_alloc(10)?;
    let global_cursor = ctx.cursor(global_region)?;
    ctx.bind(global_cursor, Symbol(100), EntryId(100)); // global variable

    // class A
    let mut class_a_builder = global_cursor;
    let class_a_region = ctx.push_region(&mut class_a_builder)?;
    ctx.bind(class_a_builder, Symbol(200), EntryId(200)); // class A member

    // method A.foo
    let mut method_foo_builder = class_a_builder;
    let method_foo_region = ctx.push_region(&mut method_foo_builder)?;

    // blocks inside the method
    ctx.push_block(&mut method_foo_builder)?;
    ctx.bind(method_foo_builder, Symbol(300), EntryId(300)); // local in the first block

    ctx.push_block(&mut method_foo_builder)?;
    ctx.bind(method_foo_builder, Symbol(301), EntryId(301)); // local in the second block

    // the method resolves names all the way up to the global scope
    proof {
        reveal_with_fuel(ContextView::lookup, 6);
        assert(ctx@.lookup(method_foo_builder.i, Symbol(301), 5) is Some);
        assert(ctx@.lookup(method_foo_builder.i, Symbol(300), 5) is Some);
        assert(ctx@.lookup(method_foo_builder.i, Symbol(200), 5) is Some);
        assert(ctx@.lookup(method_foo_builder.i, Symbol(100), 5) is Some);
    }
    let f301 = ctx.find(method_foo_builder, Symbol(301)); // in the current block
    let f300 = ctx.find(method_foo_builder, Symbol(300)); // in the enclosing block
    let f200 = ctx.find(method_foo_builder, Symbol(200)); // in class A
    let f100 = ctx.find(method_foo_builder, Symbol(100)); // in the global scope
    assert(f301 == Some(EntryId(301)) && f300 == Some(EntryId(300)));
    assert(f200 == Some(EntryId(200)) && f100 == Some(EntryId(100)));

    // class B, a sibling of class A
    let mut class_b_builder = global_cursor;
    let class_b_region = ctx.push_region(&mut class_b_builder)?;
    ctx.bind(class_b_builder, Symbol(400), EntryId(400)); // class B member

    // method B.bar
    let mut method_bar_builder = class_b_builder;
    let method_bar_region = ctx.push_region(&mut method_bar_builder)?;

    // a block inside the method
    ctx.push_block(&mut method_bar_builder)?;
    ctx.bind(method_bar_builder, Symbol(500), EntryId(500));

    // the method resolves class B and the global scope, not class A
    proof {
        reveal_with_fuel(ContextView::lookup, 5);
        assert(ctx@.lookup(method_bar_builder.i, Symbol(500), 4) is Some);
        assert(ctx@.lookup(method_bar_builder.i, Symbol(400), 4) is Some);
        assert(ctx@.lookup(method_bar_builder.i, Symbol(100), 4) is Some);
    }
    let f500 = ctx.find(method_bar_builder, Symbol(500)); // in the current block
    let f400 = ctx.find(method_bar_builder, Symbol(400)); // in class B
    let f100 = ctx.find(method_bar_builder, Symbol(100)); // in the global scope
    assert(f500 == Some(EntryId(500)) && f400 == Some(EntryId(400)) && f100 == Some(EntryId(100)));
    assert(ctx@.lookup(method_bar_builder.i, Symbol(200), 4) == Some(None::<EntryId>));

    // release, innermost first
    ctx.region_free(method_bar_region);
    ctx.region_free(class_b_region);
    ctx.region_free(method_foo_region);
    ctx.region_free(class_a_region);

    Some(())
}

} // verus!
