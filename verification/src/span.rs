//! Half-open ranges of counters and of identifiers.

use vstd::prelude::*;
use crate::id::{Counter, PeerID, ID};

verus! {

/// The counters `start..end`.
#[derive(Clone, Copy, Debug, PartialEq, Eq, Hash, Structural)]
pub struct CounterSpan {
    pub start: Counter,
    pub end: Counter,
}

impl CounterSpan {
    /// Whether `c` lies in the span.
    pub open spec fn spec_contains(self, c: int) -> bool {
        self.start <= c < self.end
    }

    /// The number of counters in the span.
    pub open spec fn spec_len(self) -> nat {
        if self.end > self.start {
            (self.end - self.start) as nat
        } else {
            0
        }
    }

    /// The counters `start..end`.
    pub fn new(start: Counter, end: Counter) -> (s: CounterSpan)
        ensures
            s == (CounterSpan { start, end }),
    {
        CounterSpan { start, end }
    }

    /// Whether `c` lies in the span.
    pub fn contains(&self, c: Counter) -> (b: bool)
        ensures
            b == self.spec_contains(c as int),
    {
        self.start <= c && c < self.end
    }

    /// Whether the span holds no counter.
    pub fn is_empty(&self) -> (b: bool)
        ensures
            b == (self.spec_len() == 0),
    {
        self.end <= self.start
    }
}

/// The identifiers of one peer whose counters lie in `counter`.
#[derive(Clone, Copy, Debug, PartialEq, Eq, Hash, Structural)]
pub struct IdSpan {
    pub peer: PeerID,
    pub counter: CounterSpan,
}

impl IdSpan {
    /// Whether `id` lies in the span.
    pub open spec fn spec_contains(self, id: ID) -> bool {
        self.peer == id.peer && self.counter.spec_contains(id.counter as int)
    }

    /// Two spans can be stored as one: same peer, and the second starts where the first ends.
    pub open spec fn spec_mergable(self, other: IdSpan) -> bool {
        self.peer == other.peer && self.counter.end == other.counter.start
    }

    /// The operations `start..end` of `peer`.
    pub fn new(peer: PeerID, start: Counter, end: Counter) -> (s: IdSpan)
        ensures
            s == (IdSpan { peer, counter: CounterSpan { start, end } }),
    {
        IdSpan { peer, counter: CounterSpan { start, end } }
    }

    /// Whether `id` lies in the span.
    pub fn contains(&self, id: ID) -> (b: bool)
        ensures
            b == self.spec_contains(id),
    {
        self.peer == id.peer && self.counter.contains(id.counter)
    }

    /// Whether `other` starts where this span ends, on the same peer.
    pub fn is_mergable(&self, other: &IdSpan) -> (b: bool)
        ensures
            b == self.spec_mergable(*other),
    {
        self.peer == other.peer && self.counter.end == other.counter.start
    }

    /// Extends this span by `other`, which starts where it ends.
    pub fn merge(&mut self, other: &IdSpan)
        requires
            old(self).spec_mergable(*other),
        ensures
            final(self).peer == old(self).peer,
            final(self).counter.start == old(self).counter.start,
            final(self).counter.end == other.counter.end,
            old(self).counter.start <= old(self).counter.end <= other.counter.end ==> forall|id: ID|
                final(self).spec_contains(id) <==> old(self).spec_contains(id)
                    || other.spec_contains(id),
    {
        self.counter.end = other.counter.end;
    }
}

} // verus!
