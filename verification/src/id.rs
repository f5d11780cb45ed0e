//! Operation identifiers.

use vstd::prelude::*;

verus! {

/// Identifier of a replica.
pub type PeerID = u64;

/// Sequence number of an operation within its replica.
pub type Counter = i32;

/// The peer of the sentinel that stands for an anchor outside this replica's knowledge.
pub const UNKNOWN_PEER: PeerID = 0xffff_ffff_ffff_ffff;

/// Names one atomic operation: the `counter`-th operation of `peer`.
#[derive(Clone, Copy, Debug, PartialEq, Eq, Hash, Structural)]
pub struct ID {
    pub peer: PeerID,
    pub counter: Counter,
}

impl ID {
    /// The identifier `delta` operations after this one, as a specification.
    pub open spec fn spec_inc(self, delta: int) -> ID {
        ID { peer: self.peer, counter: (self.counter + delta) as Counter }
    }

    /// Whether `other` is one of the `len` identifiers that start at `self`.
    pub open spec fn spec_contains(self, len: int, other: ID) -> bool {
        self.peer == other.peer && self.counter <= other.counter < self.counter + len
    }

    /// The identifier of the `counter`-th operation of `peer`.
    pub fn new(peer: PeerID, counter: Counter) -> (id: ID)
        ensures
            id == (ID { peer, counter }),
    {
        ID { peer, counter }
    }

    /// The sentinel with the given counter.
    pub fn unknown(counter: Counter) -> (id: ID)
        ensures
            id == (ID { peer: UNKNOWN_PEER, counter }),
    {
        ID { peer: UNKNOWN_PEER, counter }
    }

    /// Whether this is the sentinel.
    pub fn is_unknown(&self) -> (b: bool)
        ensures
            b == (self.peer == UNKNOWN_PEER),
    {
        self.peer == UNKNOWN_PEER
    }

    /// The identifier `delta` operations later (earlier, if negative) on the same peer.
    pub fn inc(&self, delta: Counter) -> (id: ID)
        requires
            i32::MIN <= self.counter + delta <= i32::MAX,
        ensures
            id == self.spec_inc(delta as int),
            id.peer == self.peer,
            id.counter == self.counter + delta,
    {
        ID { peer: self.peer, counter: self.counter + delta }
    }

    /// Whether `other` lies in the run of `len` identifiers starting here.
    pub fn contains(&self, len: Counter, other: ID) -> (b: bool)
        ensures
            b == self.spec_contains(len as int, other),
    {
        let start: i64 = self.counter as i64;
        let end: i64 = start + len as i64;
        let c: i64 = other.counter as i64;
        self.peer == other.peer && start <= c && c < end
    }
}

/// Equality of optional identifiers.
pub fn opt_id_eq(a: Option<ID>, b: Option<ID>) -> (r: bool)
    ensures
        r == (a == b),
{
    match a {
        Some(x) => match b {
            Some(y) => x.peer == y.peer && x.counter == y.counter,
            None => false,
        },
        None => match b {
            Some(_) => false,
            None => true,
        },
    }
}

} // verus!
