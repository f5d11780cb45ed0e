//! The index from identifiers to the leaf of the content tree that holds them.

use vstd::prelude::*;
use crate::id::ID;
use crate::range_map::{span_map, RangeMap};
use crate::span::IdSpan;

verus! {

/// Names a leaf of the content tree.
pub type LeafHandle = u64;

/// For each identifier, the leaf that the tree last reported it in.
///
/// The tree writes to it whenever a span comes to rest in a leaf; nothing else does.
#[derive(Debug)]
pub struct CursorMap {
    pub map: RangeMap<LeafHandle>,
}

impl View for CursorMap {
    type V = Map<ID, LeafHandle>;

    open spec fn view(&self) -> Map<ID, LeafHandle> {
        self.map@
    }
}

/// Both maps say the same of `id`.
pub open spec fn same_at(a: Map<ID, LeafHandle>, b: Map<ID, LeafHandle>, id: ID) -> bool {
    a.contains_key(id) == b.contains_key(id) && (a.contains_key(id) ==> a[id] == b[id])
}

/// The map says that `id` rests in `leaf`.
pub open spec fn points(m: Map<ID, LeafHandle>, id: ID, leaf: LeafHandle) -> bool {
    m.contains_key(id) && m[id] == leaf
}

impl CursorMap {
    /// The map that knows no identifier.
    pub fn new() -> (m: Self)
        ensures
            m@ == Map::<ID, LeafHandle>::empty(),
    {
        CursorMap { map: RangeMap::new() }
    }

    /// Records that the identifiers of `span` now rest in `leaf`.
    pub fn set(&mut self, span: IdSpan, leaf: LeafHandle)
        ensures
            final(self)@ == old(self)@.union_prefer_right(span_map(span, leaf)),
    {
        self.map.set(span, leaf);
    }

    /// The leaf last recorded for `id`.
    pub fn get(&self, id: ID) -> (leaf: Option<LeafHandle>)
        ensures
            leaf == (if self@.contains_key(id) {
                Some(self@[id])
            } else {
                None
            }),
    {
        self.map.get(id)
    }
}

} // verus!
