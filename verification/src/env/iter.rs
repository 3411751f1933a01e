//! Borrowing cursors over the block tree: `Iter` reads a context, `IterMut`
//! also adds blocks and bindings.

use vstd::prelude::*;
use super::block::BlockId;
use super::cursor::Cursor;
use super::{Context, EntryId, RegionId, Symbol};

verus! {

/// Read-only cursor over the block tree of a context.
#[derive(Clone, Copy)]
pub struct Iter<'a> {
    pub context: &'a Context,
    pub i: BlockId,
}

/// Cursor over the block tree of a context that may also add blocks and
/// bindings.
pub struct IterMut<'a> {
    pub context: &'a mut Context,
    pub i: BlockId,
}

impl<'a> Iter<'a> {
    /// The context is well formed and the cursor's block is null or in its
    /// arena.
    pub open spec fn valid(&self) -> bool {
        self.context.wf() && self.context@.in_range(self.i)
    }

    /// Navigates to the parent block in place.
    pub fn up(&mut self) -> (r: Option<()>)
        requires
            old(self).valid(),
        ensures
            final(self).context.wf(),
            final(self).context == old(self).context,
            old(self).i.0 != 0 && old(self).context@.block(old(self).i).up.0 != 0 ==> {
                &&& r == Some(())
                &&& final(self).i == old(self).context@.block(old(self).i).up
            },
            !(old(self).i.0 != 0 && old(self).context@.block(old(self).i).up.0 != 0) ==> {
                &&& r is None
                &&& final(self).i == old(self).i
            },
    {
        let mut c = Cursor { i: self.i };
        let r = self.context.up(&mut c);
        self.i = c.i;
        r
    }

    /// Navigates to the first child block in place.
    pub fn down(&mut self) -> (r: Option<()>)
        requires
            old(self).valid(),
        ensures
            final(self).context.wf(),
            final(self).context == old(self).context,
            old(self).i.0 != 0 && old(self).context@.block(old(self).i).down.0 != 0 ==> {
                &&& r == Some(())
                &&& final(self).i == old(self).context@.block(old(self).i).down
            },
            !(old(self).i.0 != 0 && old(self).context@.block(old(self).i).down.0 != 0) ==> {
                &&& r is None
                &&& final(self).i == old(self).i
            },
    {
        let mut c = Cursor { i: self.i };
        let r = self.context.down(&mut c);
        self.i = c.i;
        r
    }

    /// Yields the current position and advances to the next sibling; the null
    /// position yields nothing.
    pub fn next(&mut self) -> (r: Option<Iter<'a>>)
        requires
            old(self).valid(),
        ensures
            final(self).context.wf(),
            final(self).context == old(self).context,
            old(self).i.0 == 0 ==> r is None && final(self).i == old(self).i,
            old(self).i.0 != 0 ==> r == Some(*old(self)) && final(self).i == old(self).context@.block(
                old(self).i,
            ).next,
    {
        if self.i.0 == 0 {
            return None;
        }
        let current = *self;
        let blk = self.context.block_at(self.i);
        self.i = blk.next;
        Some(current)
    }

    /// Resolves `symbol` lexically from the current block.
    pub fn find(&self, symbol: Symbol) -> (r: Option<EntryId>)
        requires
            self.valid(),
            self.context@.resolves(self.i, symbol),
        ensures
            r == self.context@.resolve(self.i, symbol),
    {
        self.context.find(Cursor { i: self.i }, symbol)
    }

    /// Returns the current block identifier.
    pub fn block_id(&self) -> (b: BlockId)
        ensures
            b == self.i,
    {
        self.i
    }

    /// Returns the region recorded for the current block (`RegionId(0)` at
    /// the null block).
    pub fn region_id(&self) -> (r: RegionId)
        requires
            self.valid(),
        ensures
            r == (if self.i.0 == 0 { RegionId(0) } else { self.context@.block(self.i).region }),
    {
        if self.i.0 == 0 {
            RegionId(0)
        } else {
            self.context.block_at(self.i).region
        }
    }
}

impl<'a> IterMut<'a> {
    /// The context is well formed and the cursor's block is null or in its
    /// arena.
    pub open spec fn valid(&self) -> bool {
        (*self.context).wf() && (*self.context)@.in_range(self.i)
    }

    /// Navigates to the parent block in place.
    pub fn up(&mut self) -> (r: Option<()>)
        requires
            old(self).valid(),
        ensures
            (*final(self).context).wf(),
            *final(final(self).context) == *final(old(self).context),
            (*final(self).context)@ == (*old(self).context)@,
            old(self).i.0 != 0 && (*old(self).context)@.block(old(self).i).up.0 != 0 ==> {
                &&& r == Some(())
                &&& final(self).i == (*old(self).context)@.block(old(self).i).up
            },
            !(old(self).i.0 != 0 && (*old(self).context)@.block(old(self).i).up.0 != 0) ==> {
                &&& r is None
                &&& final(self).i == old(self).i
            },
    {
        let mut c = Cursor { i: self.i };
        let r = self.context.up(&mut c);
        self.i = c.i;
        r
    }

    /// Navigates to the first child block in place.
    pub fn down(&mut self) -> (r: Option<()>)
        requires
            old(self).valid(),
        ensures
            (*final(self).context).wf(),
            *final(final(self).context) == *final(old(self).context),
            (*final(self).context)@ == (*old(self).context)@,
            old(self).i.0 != 0 && (*old(self).context)@.block(old(self).i).down.0 != 0 ==> {
                &&& r == Some(())
                &&& final(self).i == (*old(self).context)@.block(old(self).i).down
            },
            !(old(self).i.0 != 0 && (*old(self).context)@.block(old(self).i).down.0 != 0) ==> {
                &&& r is None
                &&& final(self).i == old(self).i
            },
    {
        let mut c = Cursor { i: self.i };
        let r = self.context.down(&mut c);
        self.i = c.i;
        r
    }

    /// Navigates to the next sibling block in place; `true` when it moved.
    pub fn step_sibling(&mut self) -> (moved: bool)
        requires
            old(self).valid(),
        ensures
            (*final(self).context).wf(),
            *final(final(self).context) == *final(old(self).context),
            (*final(self).context)@ == (*old(self).context)@,
            moved == (old(self).i.0 != 0 && (*old(self).context)@.block(old(self).i).next.0 != 0),
            moved ==> final(self).i == (*old(self).context)@.block(old(self).i).next,
            !moved ==> final(self).i == old(self).i,
    {
        let mut c = Cursor { i: self.i };
        let r = self.context.next(&mut c);
        self.i = c.i;
        r.is_some()
    }

    /// Allocates a new child block in the region of the current block and
    /// moves down to it; at the null block nothing happens.
    pub fn push(&mut self) -> (r: Option<()>)
        requires
            old(self).valid(),
            old(self).i.0 != 0 ==> (*old(self).context)@.live(old(self).i),
            (*old(self).context)@.push_link_ok(Cursor { i: old(self).i }),
        ensures
            final(self).valid(),
            *final(final(self).context) == *final(old(self).context),
            ((*final(self).context)@, Cursor { i: final(self).i }, r) == (*old(
                self,
            ).context)@.push_block_result(Cursor { i: old(self).i }),
            r is Some ==> (*final(self).context)@.block(final(self).i).up == old(self).i,
            r is Some ==> (*old(self).context)@.appends_leaf(
                old(self).i,
                (*final(self).context)@,
                final(self).i,
            ),
            forall|id: RegionId| #[trigger] (*final(self).context)@.root(id) == (*old(self).context)@.root(id),
    {
        let mut c = Cursor { i: self.i };
        let r = self.context.push_block(&mut c);
        self.i = c.i;
        r
    }

    /// Resolves `symbol` lexically from the current block.
    pub fn find(&self, symbol: Symbol) -> (r: Option<EntryId>)
        requires
            self.valid(),
            (*self.context)@.resolves(self.i, symbol),
        ensures
            r == (*old(self.context))@.resolve(self.i, symbol),
    {
        self.context.find(Cursor { i: self.i }, symbol)
    }

    /// Binds `symbol` to `entry` in the current block; at the null block
    /// nothing happens.
    pub fn bind(&mut self, symbol: Symbol, entry: EntryId)
        requires
            old(self).valid(),
            old(self).i.0 != 0 ==> (*old(self).context)@.live(old(self).i),
        ensures
            final(self).valid(),
            *final(final(self).context) == *final(old(self).context),
            final(self).i == old(self).i,
            old(self).i.0 == 0 ==> (*final(self).context)@ == (*old(self).context)@,
            old(self).i.0 != 0 ==> (*final(self).context)@ == (*old(self).context)@.with_binding(
                (*old(self).context)@.block(old(self).i).region,
                old(self).i,
                symbol,
                entry,
            ),
            old(self).i.0 != 0 ==> (*final(self).context)@.resolves(old(self).i, symbol),
            old(self).i.0 != 0 ==> (*final(self).context)@.resolve(old(self).i, symbol) == Some(entry),
    {
        self.context.bind(Cursor { i: self.i }, symbol, entry);
    }

    /// A read-only cursor at the same position.
    pub fn as_readonly(&self) -> (it: Iter<'_>)
        ensures
            it.context == &*old(self.context),
            it.i == self.i,
    {
        Iter { context: &*self.context, i: self.i }
    }

    /// Yields the current block and advances to the next sibling; the null
    /// block yields nothing.
    pub fn next(&mut self) -> (r: Option<BlockId>)
        requires
            old(self).valid(),
        ensures
            (*final(self).context).wf(),
            *final(final(self).context) == *final(old(self).context),
            (*final(self).context)@ == (*old(self).context)@,
            old(self).i.0 == 0 ==> r is None && final(self).i == old(self).i,
            old(self).i.0 != 0 ==> r == Some(old(self).i) && final(self).i == (*old(self).context)@.block(
                old(self).i,
            ).next,
    {
        if self.i.0 == 0 {
            return None;
        }
        let current = self.i;
        let blk = self.context.block_at(self.i);
        self.i = blk.next;
        Some(current)
    }

    /// Returns the current block identifier.
    pub fn block_id(&self) -> (b: BlockId)
        ensures
            b == self.i,
    {
        self.i
    }

    /// Returns the region recorded for the current block (`RegionId(0)` at
    /// the null block).
    pub fn region_id(&self) -> (r: RegionId)
        requires
            self.valid(),
        ensures
            r == (if self.i.0 == 0 { RegionId(0) } else { (*old(self.context))@.block(self.i).region }),
    {
        if self.i.0 == 0 {
            RegionId(0)
        } else {
            self.context.block_at(self.i).region
        }
    }
}

} // verus!
