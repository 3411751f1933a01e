//! Region record: the block ranges a region owns and its symbol bindings.

use std::collections::HashMap;
use vstd::prelude::*;
use super::block::{BlockId, Interval};
use super::Symbol;

verus! {

/// Key under which the binding of `symbol` in block `block` is stored.
pub open spec fn binding_key(block: BlockId, symbol: Symbol) -> u64 {
    (block.0 as int * 0x1_0000_0000 + symbol.0 as int) as u64
}

/// Two distinct (block, symbol) pairs never share a key.
pub proof fn lemma_binding_key_injective(b1: BlockId, s1: Symbol, b2: BlockId, s2: Symbol)
    requires
        binding_key(b1, s1) == binding_key(b2, s2),
    ensures
        b1 == b2,
        s1 == s2,
{
    let x1 = b1.0 as int * 0x1_0000_0000 + s1.0 as int;
    let x2 = b2.0 as int * 0x1_0000_0000 + s2.0 as int;
    assert(0 <= x1 < 0x1_0000_0000_0000_0000);
    assert(0 <= x2 < 0x1_0000_0000_0000_0000);
    assert(x1 == x2);
    if b1.0 < b2.0 {
        assert(x1 < x2);
    } else if b1.0 > b2.0 {
        assert(x1 > x2);
    }
}

/// Computes the key of the binding of `symbol` in block `block`.
pub fn binding_key_of(block: BlockId, symbol: Symbol) -> (k: u64)
    ensures
        k == binding_key(block, symbol),
{
    (block.0 as u64) * 0x1_0000_0000u64 + (symbol.0 as u64)
}

/// The bindings of a stored map, keyed by (block, symbol).
pub open spec fn bindings_view<T>(m: Map<u64, T>) -> Map<(BlockId, Symbol), T> {
    Map::new(
        |k: (BlockId, Symbol)| m.contains_key(binding_key(k.0, k.1)),
        |k: (BlockId, Symbol)| m[binding_key(k.0, k.1)],
    )
}

pub proof fn lemma_bindings_view_insert<T>(m: Map<u64, T>, b: BlockId, s: Symbol, v: T)
    ensures
        bindings_view(m.insert(binding_key(b, s), v)) == bindings_view(m).insert((b, s), v),
{
    let l = bindings_view(m.insert(binding_key(b, s), v));
    let r = bindings_view(m).insert((b, s), v);
    assert forall|k: (BlockId, Symbol)| #[trigger] l.contains_key(k) == r.contains_key(k) by {
        if binding_key(k.0, k.1) == binding_key(b, s) {
            lemma_binding_key_injective(k.0, k.1, b, s);
        }
    }
    assert forall|k: (BlockId, Symbol)| l.contains_key(k) implies #[trigger] l[k] == r[k] by {
        if binding_key(k.0, k.1) == binding_key(b, s) {
            lemma_binding_key_injective(k.0, k.1, b, s);
        }
    }
    assert(l =~= r);
}

pub proof fn lemma_bindings_view_empty<T>()
    ensures
        bindings_view(Map::<u64, T>::empty()) == Map::<(BlockId, Symbol), T>::empty(),
{
    assert(bindings_view(Map::<u64, T>::empty()) =~= Map::<(BlockId, Symbol), T>::empty());
}

/// Abstract state of a region.
pub struct RegionView<T> {
    pub active: bool,
    pub intervals: Seq<Interval>,
    pub bindings: Map<(BlockId, Symbol), T>,
    /// Number of blocks handed out from the last range.
    pub used: u32,
}

/// Memory region containing block ranges and symbol bindings.
///
/// `T` is the value stored per binding.
pub struct Region<T> {
    pub is_active: bool,
    pub intervals: Vec<Interval>,
    pub bindings: HashMap<u64, T>,
    pub active_interval_used: u32,
}

impl<T> View for Region<T> {
    type V = RegionView<T>;

    open spec fn view(&self) -> RegionView<T> {
        RegionView {
            active: self.is_active,
            intervals: self.intervals@,
            bindings: bindings_view(self.bindings@),
            used: self.active_interval_used,
        }
    }
}

/// An inactive region with no ranges and no bindings.
pub open spec fn empty_region<T>() -> RegionView<T> {
    RegionView {
        active: false,
        intervals: Seq::empty(),
        bindings: Map::empty(),
        used: 0,
    }
}

impl<T> Default for Region<T> {
    /// Produces an inactive region with no ranges, no bindings and nothing used.
    fn default() -> (r: Self)
        ensures
            r@ == empty_region::<T>(),
    {
        let r = Region {
            is_active: false,
            intervals: Vec::new(),
            bindings: HashMap::new(),
            active_interval_used: 0,
        };
        proof {
            lemma_bindings_view_empty::<T>();
        }
        r
    }
}

impl<T> Region<T> {
    /// Clears all ranges and bindings and marks the region inactive.
    pub fn clear(&mut self)
        ensures
            final(self)@ == empty_region::<T>(),
    {
        self.is_active = false;
        self.intervals.clear();
        self.bindings.clear();
        self.active_interval_used = 0;
        proof {
            lemma_bindings_view_empty::<T>();
        }
    }
}

} // verus!
