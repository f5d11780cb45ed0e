//! A set of identifiers that is filled one run at a time.

use vstd::prelude::*;
use crate::id::ID;
use crate::range_map::{span_map, RangeMap};
use crate::span::IdSpan;
use crate::y_span::YSpan;

verus! {

/// The identifiers of the runs inserted since the set was last cleared.
#[derive(Debug)]
pub struct OpSpanSet {
    pub map: RangeMap<bool>,
}

impl View for OpSpanSet {
    type V = Set<ID>;

    open spec fn view(&self) -> Set<ID> {
        self.map@.dom()
    }
}

impl Default for OpSpanSet {
    fn default() -> (s: OpSpanSet)
        ensures
            s@ == Set::<ID>::empty(),
    {
        let s = OpSpanSet { map: RangeMap::new() };
        proof {
            assert(s@ =~= Set::<ID>::empty());
        }
        s
    }
}

impl OpSpanSet {
    /// Adds the identifiers of the items of `value`, whose counters must
    /// fit their type.
    pub fn insert(&mut self, value: &YSpan)
        requires
            value.id.counter + value.len <= i32::MAX,
        ensures
            forall|id: ID|
                #[trigger] final(self)@.contains(id) <==> old(self)@.contains(id)
                    || value.id.spec_contains(value.len as int, id),
            value.len == 1 ==> final(self)@ == old(self)@.insert(value.id),
    {
        let end: i32 = (value.id.counter as i64 + value.len as i64) as i32;
        let span = IdSpan::new(value.id.peer, value.id.counter, end);
        self.map.set(span, true);
        proof {
            assert forall|id: ID| #[trigger]
                self@.contains(id) <==> old(self)@.contains(id) || value.id.spec_contains(
                    value.len as int,
                    id,
                ) by {
                assert(span_map(span, true).contains_key(id) == span.spec_contains(id));
            }
            if value.len == 1 {
                assert(self@ =~= old(self)@.insert(value.id));
            }
        }
    }

    /// Whether `id` was inserted.
    pub fn contain(&self, id: ID) -> (b: bool)
        ensures
            b == self@.contains(id),
    {
        self.map.has(id)
    }

    /// Empties the set.
    pub fn clear(&mut self)
        ensures
            final(self)@ == Set::<ID>::empty(),
    {
        self.map.clear();
        proof {
            assert(self@ =~= Set::<ID>::empty());
        }
    }
}

} // verus!
