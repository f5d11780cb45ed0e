//! Version vectors, and the spans that tell two versions apart.

use vstd::prelude::*;
use crate::id::{Counter, PeerID, ID};
use crate::span::{CounterSpan, IdSpan};

verus! {

/// The peers strictly ascend.
pub open spec fn sorted_by_peer(s: Seq<ID>) -> bool {
    forall|i: int, j: int| 0 <= i < j < s.len() ==> (#[trigger] s[i]).peer < (#[trigger] s[j]).peer
}

/// Some entry is for peer `p`.
pub open spec fn has_peer(s: Seq<ID>, p: PeerID) -> bool {
    exists|i: int| 0 <= i < s.len() && (#[trigger] s[i]).peer == p
}

/// The index of an entry for peer `p`.
pub open spec fn peer_index(s: Seq<ID>, p: PeerID) -> int {
    choose|i: int| 0 <= i < s.len() && (#[trigger] s[i]).peer == p
}

/// The entries as a map from peer to counter.
pub open spec fn ids_map(s: Seq<ID>) -> Map<PeerID, Counter> {
    Map::new(|p: PeerID| has_peer(s, p), |p: PeerID| s[peer_index(s, p)].counter)
}

/// In a sorted list, entry `i` is the one for its peer.
pub proof fn lemma_ids_map_at(s: Seq<ID>, i: int)
    requires
        sorted_by_peer(s),
        0 <= i < s.len(),
    ensures
        ids_map(s).contains_key(s[i].peer),
        ids_map(s)[s[i].peer] == s[i].counter,
        peer_index(s, s[i].peer) == i,
{
    let p = s[i].peer;
    assert(has_peer(s, p));
    let k = peer_index(s, p);
    assert(0 <= k < s.len() && s[k].peer == p);
    if k < i {
        assert(s[k].peer < s[i].peer);
    } else if i < k {
        assert(s[i].peer < s[k].peer);
    }
}

/// Writing entry `i` of a sorted list writes the map at that peer.
pub proof fn lemma_ids_map_update(s: Seq<ID>, i: int, c: Counter)
    requires
        sorted_by_peer(s),
        0 <= i < s.len(),
    ensures
        sorted_by_peer(s.update(i, ID { peer: s[i].peer, counter: c })),
        ids_map(s.update(i, ID { peer: s[i].peer, counter: c })) == ids_map(s).insert(s[i].peer, c),
{
    let t = s.update(i, ID { peer: s[i].peer, counter: c });
    assert(sorted_by_peer(t)) by {
        assert forall|a: int, b: int| 0 <= a < b < t.len() implies (#[trigger] t[a]).peer < (
        #[trigger] t[b]).peer by {
            assert(s[a].peer < s[b].peer);
        }
    }
    assert forall|p: PeerID| has_peer(t, p) == (has_peer(s, p) || p == s[i].peer) by {
        if has_peer(t, p) {
            let k = peer_index(t, p);
            assert(s[k].peer == p);
        }
        if has_peer(s, p) {
            let k = peer_index(s, p);
            assert(t[k].peer == p);
        }
        if p == s[i].peer {
            assert(t[i].peer == p);
        }
    }
    assert forall|p: PeerID| has_peer(t, p) implies #[trigger] ids_map(t)[p] == ids_map(s).insert(
        s[i].peer,
        c,
    )[p] by {
        let k = peer_index(t, p);
        lemma_ids_map_at(t, k);
        assert(s[k].peer == p);
        lemma_ids_map_at(s, k);
    }
    assert(ids_map(t) =~= ids_map(s).insert(s[i].peer, c));
}

/// Inserting an entry for a new peer in its place adds it to the map.
pub proof fn lemma_ids_map_insert(s: Seq<ID>, i: int, e: ID)
    requires
        sorted_by_peer(s),
        0 <= i <= s.len(),
        forall|k: int| 0 <= k < i ==> (#[trigger] s[k]).peer < e.peer,
        forall|k: int| i <= k < s.len() ==> e.peer < (#[trigger] s[k]).peer,
    ensures
        sorted_by_peer(s.insert(i, e)),
        ids_map(s.insert(i, e)) == ids_map(s).insert(e.peer, e.counter),
        !has_peer(s, e.peer),
{
    let t = s.insert(i, e);
    assert(sorted_by_peer(t)) by {
        assert forall|a: int, b: int| 0 <= a < b < t.len() implies (#[trigger] t[a]).peer < (
        #[trigger] t[b]).peer by {
            let a0 = if a < i {
                a
            } else {
                a - 1
            };
            let b0 = if b < i {
                b
            } else {
                b - 1
            };
            if a != i && b != i {
                assert(s[a0].peer < s[b0].peer);
            } else if a == i {
                assert(e.peer < s[b0].peer);
            } else {
                assert(s[a0].peer < e.peer);
            }
        }
    }
    assert(!has_peer(s, e.peer)) by {
        if has_peer(s, e.peer) {
            let k = peer_index(s, e.peer);
            if k < i {
                assert(s[k].peer < e.peer);
            } else {
                assert(e.peer < s[k].peer);
            }
        }
    }
    assert forall|p: PeerID| has_peer(t, p) == (has_peer(s, p) || p == e.peer) by {
        if has_peer(t, p) {
            let k = peer_index(t, p);
            if k < i {
                assert(s[k].peer == p);
            } else if k > i {
                assert(s[k - 1].peer == p);
            }
        }
        if has_peer(s, p) {
            let k = peer_index(s, p);
            if k < i {
                assert(t[k].peer == p);
            } else {
                assert(t[k + 1].peer == p);
            }
        }
        if p == e.peer {
            assert(t[i].peer == p);
        }
    }
    assert forall|p: PeerID| has_peer(t, p) implies #[trigger] ids_map(t)[p] == ids_map(s).insert(
        e.peer,
        e.counter,
    )[p] by {
        let k = peer_index(t, p);
        lemma_ids_map_at(t, k);
        if k < i {
            assert(s[k].peer == p);
            lemma_ids_map_at(s, k);
        } else if k > i {
            assert(s[k - 1].peer == p);
            lemma_ids_map_at(s, k - 1);
        }
    }
    assert(ids_map(t) =~= ids_map(s).insert(e.peer, e.counter));
}

/// Removing an entry of a sorted list removes its peer from the map.
pub proof fn lemma_ids_map_remove(s: Seq<ID>, i: int)
    requires
        sorted_by_peer(s),
        0 <= i < s.len(),
    ensures
        sorted_by_peer(s.remove(i)),
        ids_map(s.remove(i)) == ids_map(s).remove(s[i].peer),
{
    let t = s.remove(i);
    assert(sorted_by_peer(t)) by {
        assert forall|a: int, b: int| 0 <= a < b < t.len() implies (#[trigger] t[a]).peer < (
        #[trigger] t[b]).peer by {
            let a0 = if a < i {
                a
            } else {
                a + 1
            };
            let b0 = if b < i {
                b
            } else {
                b + 1
            };
            assert(s[a0].peer < s[b0].peer);
        }
    }
    assert forall|p: PeerID| has_peer(t, p) == (has_peer(s, p) && p != s[i].peer) by {
        if has_peer(t, p) {
            let k = peer_index(t, p);
            if k < i {
                assert(s[k].peer == p);
                assert(s[k].peer < s[i].peer);
            } else {
                assert(s[k + 1].peer == p);
                assert(s[i].peer < s[k + 1].peer);
            }
        }
        if has_peer(s, p) && p != s[i].peer {
            let k = peer_index(s, p);
            if k < i {
                assert(t[k].peer == p);
            } else {
                assert(t[k - 1].peer == p);
            }
        }
    }
    assert forall|p: PeerID| has_peer(t, p) implies #[trigger] ids_map(t)[p] == ids_map(s).remove(
        s[i].peer,
    )[p] by {
        let k = peer_index(t, p);
        lemma_ids_map_at(t, k);
        if k < i {
            assert(s[k].peer == p);
            lemma_ids_map_at(s, k);
        } else {
            assert(s[k + 1].peer == p);
            lemma_ids_map_at(s, k + 1);
        }
    }
    assert(ids_map(t) =~= ids_map(s).remove(s[i].peer));
}

/// Whether the peers strictly ascend.
pub fn is_sorted_by_peer(entries: &Vec<ID>) -> (b: bool)
    ensures
        b == sorted_by_peer(entries@),
{
    let n = entries.len();
    let mut i: usize = 1;
    while i < n
        invariant
            n == entries.len(),
            1 <= i,
            forall|a: int, b: int| 0 <= a < b < i && b < n ==> (#[trigger] entries[a]).peer < (
            #[trigger] entries[b]).peer,
        decreases n - i,
    {
        if entries[i - 1].peer >= entries[i].peer {
            proof {
                if sorted_by_peer(entries@) {
                    assert(entries@[i - 1].peer < entries@[i as int].peer);
                }
            }
            return false;
        }
        proof {
            assert forall|a: int, b: int| 0 <= a < b < i + 1 && b < n implies (
            #[trigger] entries[a]).peer < (#[trigger] entries[b]).peer by {
                if b == i && a < i - 1 {
                    assert(entries[a].peer < entries[i - 1].peer);
                }
            }
        }
        i = i + 1;
    }
    true
}

/// Two sorted lists of entries that stand for the same map are the same list.
pub proof fn lemma_entries_unique(a: Seq<ID>, b: Seq<ID>)
    requires
        sorted_by_peer(a),
        sorted_by_peer(b),
        ids_map(a) == ids_map(b),
    ensures
        a == b,
    decreases a.len(),
{
    if a.len() == 0 {
        if b.len() > 0 {
            lemma_ids_map_at(b, 0);
            assert(ids_map(a).contains_key(b[0].peer));
            assert(has_peer(a, b[0].peer));
        }
        assert(a =~= b);
    } else {
        let n = a.len() - 1;
        lemma_ids_map_at(a, n);
        assert(ids_map(b).contains_key(a[n].peer));
        assert(has_peer(b, a[n].peer));
        let k = peer_index(b, a[n].peer);
        let m = b.len() - 1;
        lemma_ids_map_at(b, m);
        lemma_ids_map_at(b, k);
        assert(ids_map(a).contains_key(b[m].peer));
        assert(has_peer(a, b[m].peer));
        let j = peer_index(a, b[m].peer);
        lemma_ids_map_at(a, j);
        if j < n {
            assert(a[j].peer < a[n].peer);
        }
        if k < m {
            assert(b[k].peer < b[m].peer);
        }
        assert(a[n].peer == b[m].peer);
        assert(a[n].counter == b[m].counter);
        lemma_ids_map_remove(a, n);
        lemma_ids_map_remove(b, m);
        assert(a.remove(n) =~= a.drop_last());
        assert(b.remove(m) =~= b.drop_last());
        lemma_entries_unique(a.drop_last(), b.drop_last());
        assert(a =~= a.drop_last().push(a[n]));
        assert(b =~= b.drop_last().push(b[m]));
    }
}

/// Where the entry for `peer` is, or where it would be inserted.
pub fn find_peer(entries: &Vec<ID>, peer: PeerID) -> (r: Result<usize, usize>)
    requires
        sorted_by_peer(entries@),
    ensures
        match r {
            Ok(i) => i < entries.len() && entries[i as int].peer == peer,
            Err(i) => {
                &&& i <= entries.len()
                &&& forall|k: int| 0 <= k < i ==> (#[trigger] entries[k]).peer < peer
                &&& forall|k: int| i <= k < entries.len() ==> peer < (#[trigger] entries[k]).peer
                &&& !has_peer(entries@, peer)
            },
        },
{
    let n = entries.len();
    let mut i: usize = 0;
    while i < n
        invariant
            n == entries.len(),
            i <= n,
            sorted_by_peer(entries@),
            forall|k: int| 0 <= k < i ==> (#[trigger] entries[k]).peer < peer,
        decreases n - i,
    {
        let p = entries[i].peer;
        if p == peer {
            return Ok(i);
        }
        if p > peer {
            proof {
                assert forall|k: int| i <= k < entries.len() implies peer < (
                #[trigger] entries[k]).peer by {
                    if k > i {
                        assert(entries[i as int].peer < entries[k].peer);
                    }
                }
                if has_peer(entries@, peer) {
                    let k = peer_index(entries@, peer);
                    if k < i {
                        assert(entries[k].peer < peer);
                    } else {
                        assert(peer < entries[k].peer);
                    }
                }
            }
            return Err(i);
        }
        i = i + 1;
    }
    proof {
        if has_peer(entries@, peer) {
            let k = peer_index(entries@, peer);
            assert(entries[k].peer < peer);
        }
    }
    Err(n)
}

/// For each peer, the number of its operations that a version holds: the
/// operations of `peer` with counters below the entry for `peer`.
#[derive(Debug, Clone)]
pub struct VersionVector {
    pub entries: Vec<ID>,
}

impl View for VersionVector {
    type V = Map<PeerID, Counter>;

    open spec fn view(&self) -> Map<PeerID, Counter> {
        ids_map(self.entries@)
    }
}

impl VersionVector {
    /// The entries are kept in ascending order of peer.
    pub open spec fn wf(self) -> bool {
        sorted_by_peer(self.entries@)
    }

    /// Whether the version is valid.
    pub fn check(&self) -> (ok: bool)
        ensures
            ok == self.wf(),
    {
        is_sorted_by_peer(&self.entries)
    }

    /// Two valid versions with the same view hold the same entries.
    pub proof fn lemma_view_decides(self, other: VersionVector)
        requires
            self.wf(),
            other.wf(),
            self@ == other@,
        ensures
            self.entries@ == other.entries@,
    {
        lemma_entries_unique(self.entries@, other.entries@);
    }

    /// The counter for `peer`, and 0 for a peer without entry.
    pub open spec fn spec_get(self, peer: PeerID) -> int {
        if self@.contains_key(peer) {
            self@[peer] as int
        } else {
            0
        }
    }

    /// The version holds `id`: its peer's entry lies above its counter.
    pub open spec fn spec_includes(self, id: ID) -> bool {
        self@.contains_key(id.peer) && self@[id.peer] > id.counter
    }

    /// Every entry of `self` is matched or exceeded in `other`.
    pub open spec fn spec_le(self, other: VersionVector) -> bool {
        forall|p: PeerID| self.spec_get(p) <= #[trigger] other.spec_get(p)
    }

    /// The version that holds nothing.
    pub fn new() -> (vv: VersionVector)
        ensures
            vv.wf(),
            vv@ == Map::<PeerID, Counter>::empty(),
            vv.entries@ == Seq::<ID>::empty(),
    {
        let vv = VersionVector { entries: Vec::new() };
        proof {
            assert(vv@ =~= Map::<PeerID, Counter>::empty());
        }
        vv
    }

    /// The number of peers with an entry.
    pub fn len(&self) -> (n: usize)
        ensures
            n == self.entries.len(),
    {
        self.entries.len()
    }

    /// The entry for `peer`.
    pub fn get(&self, peer: PeerID) -> (c: Option<Counter>)
        requires
            self.wf(),
        ensures
            c == (if self@.contains_key(peer) {
                Some(self@[peer])
            } else {
                None
            }),
    {
        match find_peer(&self.entries, peer) {
            Ok(i) => {
                proof {
                    lemma_ids_map_at(self.entries@, i as int);
                }
                Some(self.entries[i].counter)
            },
            Err(_) => None,
        }
    }

    /// The counter for `peer`, and 0 for a peer without entry.
    pub fn get_or_zero(&self, peer: PeerID) -> (c: Counter)
        requires
            self.wf(),
        ensures
            c == self.spec_get(peer),
    {
        match self.get(peer) {
            Some(c) => c,
            None => 0,
        }
    }

    /// Whether the version holds `id`.
    pub fn includes_id(&self, id: ID) -> (b: bool)
        requires
            self.wf(),
        ensures
            b == self.spec_includes(id),
    {
        match self.get(id.peer) {
            Some(c) => c > id.counter,
            None => false,
        }
    }

    /// Sets the entry for `peer` to `counter`.
    pub fn insert(&mut self, peer: PeerID, counter: Counter)
        requires
            old(self).wf(),
        ensures
            final(self).wf(),
            final(self)@ == old(self)@.insert(peer, counter),
    {
        match find_peer(&self.entries, peer) {
            Ok(i) => {
                proof {
                    lemma_ids_map_update(self.entries@, i as int, counter);
                }
                self.entries[i] = ID { peer, counter };
            },
            Err(i) => {
                proof {
                    lemma_ids_map_insert(self.entries@, i as int, ID { peer, counter });
                }
                self.entries.insert(i, ID { peer, counter });
            },
        }
    }

    /// Drops the entry for `peer`.
    pub fn remove(&mut self, peer: PeerID)
        requires
            old(self).wf(),
        ensures
            final(self).wf(),
            final(self)@ == old(self)@.remove(peer),
    {
        match find_peer(&self.entries, peer) {
            Ok(i) => {
                proof {
                    lemma_ids_map_remove(self.entries@, i as int);
                }
                self.entries.remove(i);
            },
            Err(_) => {
                proof {
                    assert(self@.remove(peer) =~= self@);
                }
            },
        }
    }

    /// Raises the entry of `id`'s peer to at least `id.counter`, so that the
    /// version holds every operation of that peer before `id`.
    pub fn set_end(&mut self, id: ID)
        requires
            old(self).wf(),
        ensures
            final(self).wf(),
            final(self)@ == (if id.counter > old(self).spec_get(id.peer) {
                old(self)@.insert(id.peer, id.counter)
            } else {
                old(self)@
            }),
            final(self).spec_get(id.peer) == (if id.counter > old(self).spec_get(id.peer) {
                id.counter as int
            } else {
                old(self).spec_get(id.peer)
            }),
            forall|p: PeerID| p != id.peer ==> final(self).spec_get(p) == old(self).spec_get(p),
    {
        if id.counter > self.get_or_zero(id.peer) {
            self.insert(id.peer, id.counter);
        }
    }

    /// Raises the entry of `id`'s peer so that the version holds `id` itself.
    pub fn set_last(&mut self, id: ID)
        requires
            old(self).wf(),
            id.counter < i32::MAX,
        ensures
            final(self).wf(),
            final(self)@ == (if id.counter + 1 > old(self).spec_get(id.peer) {
                old(self)@.insert(id.peer, (id.counter + 1) as Counter)
            } else {
                old(self)@
            }),
    {
        self.set_end(ID { peer: id.peer, counter: id.counter + 1 });
    }

    /// Lowers the entry of `span`'s peer to the start of `span`, where it lies above it.
    pub fn shrink_to_exclude(&mut self, span: IdSpan)
        requires
            old(self).wf(),
        ensures
            final(self).wf(),
            final(self)@ == (if old(self)@.contains_key(span.peer) && old(self)@[span.peer]
                > span.counter.start {
                if span.counter.start <= 0 {
                    old(self)@.remove(span.peer)
                } else {
                    old(self)@.insert(span.peer, span.counter.start)
                }
            } else {
                old(self)@
            }),
    {
        match self.get(span.peer) {
            Some(c) => {
                if c > span.counter.start {
                    if span.counter.start <= 0 {
                        self.remove(span.peer);
                    } else {
                        self.insert(span.peer, span.counter.start);
                    }
                }
            },
            None => {},
        }
    }

    /// A copy.
    pub fn duplicate(&self) -> (vv: VersionVector)
        ensures
            vv.entries@ == self.entries@,
    {
        let mut entries: Vec<ID> = Vec::new();
        let n = self.entries.len();
        let mut i: usize = 0;
        while i < n
            invariant
                n == self.entries.len(),
                i <= n,
                entries@ == self.entries@.take(i as int),
            decreases n - i,
        {
            entries.push(self.entries[i]);
            proof {
                assert(self.entries@.take(i + 1) =~= self.entries@.take(i as int).push(
                    self.entries@[i as int],
                ));
            }
            i = i + 1;
        }
        proof {
            assert(self.entries@.take(n as int) =~= self.entries@);
        }
        VersionVector { entries }
    }

    /// Whether both hold the same entries.
    pub fn same_as(&self, other: &VersionVector) -> (b: bool)
        ensures
            b == (self.entries@ == other.entries@),
    {
        let n = self.entries.len();
        if n != other.entries.len() {
            return false;
        }
        let mut i: usize = 0;
        while i < n
            invariant
                n == self.entries.len(),
                n == other.entries.len(),
                i <= n,
                self.entries@.take(i as int) == other.entries@.take(i as int),
            decreases n - i,
        {
            let a = self.entries[i];
            let b = other.entries[i];
            if a.peer != b.peer || a.counter != b.counter {
                return false;
            }
            proof {
                assert(self.entries@.take(i + 1) =~= self.entries@.take(i as int).push(a));
                assert(other.entries@.take(i + 1) =~= other.entries@.take(i as int).push(b));
            }
            i = i + 1;
        }
        proof {
            assert(self.entries@.take(n as int) =~= self.entries@);
            assert(other.entries@.take(n as int) =~= other.entries@);
        }
        true
    }

    /// Whether every entry of `self` is matched or exceeded in `other`.
    pub fn le(&self, other: &VersionVector) -> (b: bool)
        requires
            self.wf(),
            other.wf(),
        ensures
            b == self.spec_le(*other),
    {
        let n = self.entries.len();
        let mut i: usize = 0;
        while i < n
            invariant
                n == self.entries.len(),
                i <= n,
                self.wf(),
                other.wf(),
                forall|k: int|
                    0 <= k < i ==> self.spec_get((#[trigger] self.entries[k]).peer)
                        <= other.spec_get(self.entries[k].peer),
            decreases n - i,
        {
            let e = self.entries[i];
            proof {
                lemma_ids_map_at(self.entries@, i as int);
            }
            if e.counter > other.get_or_zero(e.peer) {
                return false;
            }
            i = i + 1;
        }
        let m = other.entries.len();
        let mut j: usize = 0;
        while j < m
            invariant
                m == other.entries.len(),
                j <= m,
                self.wf(),
                other.wf(),
                forall|k: int|
                    0 <= k < self.entries.len() ==> self.spec_get(
                        (#[trigger] self.entries[k]).peer,
                    ) <= other.spec_get(self.entries[k].peer),
                forall|k: int|
                    0 <= k < j ==> self.spec_get((#[trigger] other.entries[k]).peer)
                        <= other.spec_get(other.entries[k].peer),
            decreases m - j,
        {
            let e = other.entries[j];
            proof {
                lemma_ids_map_at(other.entries@, j as int);
            }
            if self.get_or_zero(e.peer) > e.counter {
                return false;
            }
            j = j + 1;
        }
        proof {
            assert forall|p: PeerID| self.spec_get(p) <= #[trigger] other.spec_get(p) by {
                if self@.contains_key(p) {
                    let k = peer_index(self.entries@, p);
                    assert(self.entries[k].peer == p);
                } else if other@.contains_key(p) {
                    let k = peer_index(other.entries@, p);
                    assert(other.entries[k].peer == p);
                }
            }
        }
        true
    }

    /// How the two versions compare: `Some(-1)` where `other` holds all of
    /// `self` and more, `Some(0)` where they hold the same, `Some(1)` where
    /// `self` holds all of `other` and more, and `None` where each holds
    /// something that the other lacks.
    pub fn compare(&self, other: &VersionVector) -> (r: Option<i32>)
        requires
            self.wf(),
            other.wf(),
        ensures
            r == (if self.spec_le(*other) && other.spec_le(*self) {
                Some(0i32)
            } else if self.spec_le(*other) {
                Some(-1i32)
            } else if other.spec_le(*self) {
                Some(1i32)
            } else {
                None
            }),
    {
        let below = self.le(other);
        let above = other.le(self);
        if below && above {
            Some(0)
        } else if below {
            Some(-1)
        } else if above {
            Some(1)
        } else {
            None
        }
    }

    /// The operations that `self` holds and `other` lacks, one span for each peer that has any.
    pub fn sub_iter_spans(&self, other: &VersionVector) -> (spans: IdSpanVector)
        requires
            self.wf(),
            other.wf(),
        ensures
            spans.wf(),
            forall|id: ID|
                id.counter >= 0 ==> (#[trigger] spans.spec_contains(id) <==> other.spec_get(id.peer)
                    <= id.counter < self.spec_get(id.peer)),
            forall|id: ID| spans.spec_contains(id) ==> id.counter >= 0,
            forall|a: int, b: int|
                0 <= a < b < spans.spans.len() ==> (#[trigger] spans.spans[a]).peer < (
                #[trigger] spans.spans[b]).peer,
            forall|k: int|
                0 <= k < spans.spans.len() ==> (#[trigger] spans.spans[k]).counter.start
                    < spans.spans[k].counter.end,
    {
        let mut out: Vec<IdSpan> = Vec::new();
        let n = self.entries.len();
        let mut i: usize = 0;
        while i < n
            invariant
                n == self.entries.len(),
                i <= n,
                self.wf(),
                other.wf(),
                out.len() <= i,
                forall|k: int|
                    0 <= k < out.len() ==> {
                        &&& (#[trigger] out[k]).counter.start < out[k].counter.end
                        &&& 0 <= out[k].counter.start
                        &&& self@.contains_key(out[k].peer)
                        &&& out[k].counter.end == self@[out[k].peer]
                        &&& out[k].counter.start == (if other.spec_get(out[k].peer) > 0 {
                            other.spec_get(out[k].peer)
                        } else {
                            0
                        })
                        &&& i > 0 && out[k].peer <= self.entries[i - 1].peer
                    },
                forall|a: int, b: int|
                    0 <= a < b < out.len() ==> (#[trigger] out[a]).peer < (#[trigger] out[b]).peer,
                forall|k: int|
                    0 <= k < i && self.entries[k].counter > 0 && self.entries[k].counter
                        > other.spec_get(self.entries[k].peer) ==> exists|m: int|
                        0 <= m < out.len() && (#[trigger] out[m]).peer == self.entries[k].peer,
            decreases n - i,
        {
            let e = self.entries[i];
            proof {
                lemma_ids_map_at(self.entries@, i as int);
            }
            let base = other.get_or_zero(e.peer);
            let start: Counter = if base > 0 {
                base
            } else {
                0
            };
            let ghost before = out@;
            if e.counter > start {
                out.push(IdSpan { peer: e.peer, counter: CounterSpan { start, end: e.counter } });
                proof {
                    assert forall|a: int, b: int| 0 <= a < b < out.len() implies (
                    #[trigger] out[a]).peer < (#[trigger] out[b]).peer by {
                        if b == out.len() - 1 {
                            assert(before[a].peer <= self.entries[i - 1].peer);
                            assert(self.entries[i - 1].peer < self.entries[i as int].peer);
                        } else {
                            assert(before[a].peer < before[b].peer);
                        }
                    }
                    assert forall|k: int|
                        0 <= k < i + 1 && self.entries[k].counter > 0 && self.entries[k].counter
                            > other.spec_get(self.entries[k].peer) implies exists|m: int|
                        0 <= m < out.len() && (#[trigger] out[m]).peer == self.entries[k].peer by {
                        if k < i {
                            let m = choose|m: int|
                                0 <= m < before.len() && (#[trigger] before[m]).peer
                                    == self.entries[k].peer;
                            assert(out[m].peer == self.entries[k].peer);
                        } else {
                            assert(out[out.len() - 1].peer == self.entries[k].peer);
                        }
                    }
                }
            } else {
                proof {
                    assert forall|k: int| 0 <= k < out.len() implies (#[trigger] out[k]).peer
                        <= self.entries[i as int].peer by {
                        assert(out[k].peer <= self.entries[i - 1].peer);
                        assert(self.entries[i - 1].peer < self.entries[i as int].peer);
                    }
                }
            }
            proof {
                assert forall|k: int| 0 <= k < out.len() implies (#[trigger] out[k]).peer
                    <= self.entries[i as int].peer by {
                    if k < before.len() {
                        assert(before[k].peer <= self.entries[i - 1].peer);
                        assert(self.entries[i - 1].peer < self.entries[i as int].peer);
                    }
                }
            }
            i = i + 1;
        }
        let spans = IdSpanVector { spans: out };
        proof {
            assert forall|a: int, b: int| 0 <= a < b < spans.spans.len() implies !(
            #[trigger] spans.spans[a]).spec_overlaps(#[trigger] spans.spans[b]) by {
                assert(spans.spans[a].peer < spans.spans[b].peer);
            }
            assert forall|id: ID| id.counter >= 0 implies (#[trigger] spans.spec_contains(id)
                <==> other.spec_get(id.peer) <= id.counter < self.spec_get(id.peer)) by {
                if spans.spec_contains(id) {
                    let k = choose|k: int|
                        0 <= k < spans.spans.len() && (#[trigger] spans.spans[k]).spec_contains(id);
                    assert(spans.spans[k].spec_contains(id));
                }
                if other.spec_get(id.peer) <= id.counter < self.spec_get(id.peer) {
                    let k = peer_index(self.entries@, id.peer);
                    lemma_ids_map_at(self.entries@, k);
                    let m = choose|m: int|
                        0 <= m < out.len() && (#[trigger] out[m]).peer == self.entries[k].peer;
                    assert(spans.spans[m].spec_contains(id));
                }
            }
            assert forall|id: ID| spans.spec_contains(id) implies id.counter >= 0 by {
                let k = choose|k: int|
                    0 <= k < spans.spans.len() && (#[trigger] spans.spans[k]).spec_contains(id);
                assert(spans.spans[k].spec_contains(id));
            }
        }
        spans
    }
}

/// What tells two versions apart: the operations that only the first
/// holds, and those that only the second holds.
#[derive(Debug, Clone)]
pub struct VersionVectorDiff {
    pub left: IdSpanVector,
    pub right: IdSpanVector,
}

impl VersionVector {
    /// What tells `self` and `rhs` apart.
    pub fn diff(&self, rhs: &VersionVector) -> (d: VersionVectorDiff)
        requires
            self.wf(),
            rhs.wf(),
        ensures
            d.left.wf(),
            d.right.wf(),
            forall|id: ID|
                id.counter >= 0 ==> (#[trigger] d.left.spec_contains(id) <==> rhs.spec_get(id.peer)
                    <= id.counter < self.spec_get(id.peer)),
            forall|id: ID|
                id.counter >= 0 ==> (#[trigger] d.right.spec_contains(id) <==> self.spec_get(id.peer)
                    <= id.counter < rhs.spec_get(id.peer)),
            forall|id: ID| d.left.spec_contains(id) || d.right.spec_contains(id) ==> id.counter >= 0,
    {
        VersionVectorDiff { left: self.sub_iter_spans(rhs), right: rhs.sub_iter_spans(self) }
    }

    /// Raises every entry to at least the entry of `other`, so that the
    /// version holds what either held. Returns the operations that it holds
    /// now and did not hold before.
    pub fn merge(&mut self, other: &VersionVector) -> (added: IdSpanVector)
        requires
            old(self).wf(),
            other.wf(),
        ensures
            final(self).wf(),
            forall|p: PeerID|
                other@.contains_key(p) ==> #[trigger] final(self).spec_get(p) == (if other.spec_get(p)
                    > old(self).spec_get(p) {
                    other.spec_get(p)
                } else {
                    old(self).spec_get(p)
                }),
            forall|p: PeerID|
                !other@.contains_key(p) ==> #[trigger] final(self).spec_get(p) == old(
                    self,
                ).spec_get(p),
            added.wf(),
            forall|id: ID|
                id.counter >= 0 ==> (#[trigger] added.spec_contains(id) <==> old(self).spec_get(
                    id.peer,
                ) <= id.counter < other.spec_get(id.peer)),
            forall|id: ID| added.spec_contains(id) ==> id.counter >= 0,
    {
        let added = other.sub_iter_spans(self);
        let n = other.entries.len();
        let mut i: usize = 0;
        while i < n
            invariant
                n == other.entries.len(),
                i <= n,
                self.wf(),
                other.wf(),
                forall|k: int|
                    0 <= k < i ==> self.spec_get((#[trigger] other.entries[k]).peer) == (
                    if other.entries[k].counter > old(self).spec_get(other.entries[k].peer) {
                        other.entries[k].counter as int
                    } else {
                        old(self).spec_get(other.entries[k].peer)
                    }),
                forall|p: PeerID|
                    (forall|k: int| 0 <= k < i ==> (#[trigger] other.entries[k]).peer != p)
                        ==> #[trigger] self.spec_get(p) == old(self).spec_get(p),
            decreases n - i,
        {
            let e = other.entries[i];
            let ghost before = *self;
            proof {
                assert forall|k: int| 0 <= k < i implies (#[trigger] other.entries[k]).peer
                    != e.peer by {
                    assert(other.entries[k].peer < other.entries[i as int].peer);
                }
            }
            self.set_end(e);
            proof {
                assert forall|k: int| 0 <= k < i + 1 implies self.spec_get(
                    (#[trigger] other.entries[k]).peer,
                ) == (if other.entries[k].counter > old(self).spec_get(other.entries[k].peer) {
                    other.entries[k].counter as int
                } else {
                    old(self).spec_get(other.entries[k].peer)
                }) by {
                    if k < i {
                        assert(other.entries[k].peer < other.entries[i as int].peer);
                        assert(self.spec_get(other.entries[k].peer) == before.spec_get(
                            other.entries[k].peer,
                        ));
                    }
                }
                assert forall|p: PeerID|
                    (forall|k: int| 0 <= k < i + 1 ==> (#[trigger] other.entries[k]).peer != p)
                        implies #[trigger] self.spec_get(p) == old(self).spec_get(p) by {
                    assert(other.entries[i as int].peer != p);
                    assert forall|k: int| 0 <= k < i implies (#[trigger] other.entries[k]).peer
                        != p by {}
                    assert(before.spec_get(p) == old(self).spec_get(p));
                }
            }
            i = i + 1;
        }
        proof {
            assert forall|p: PeerID| other@.contains_key(p) implies #[trigger] self.spec_get(p) == (
            if other.spec_get(p) > old(self).spec_get(p) {
                other.spec_get(p)
            } else {
                old(self).spec_get(p)
            }) by {
                let k = peer_index(other.entries@, p);
                lemma_ids_map_at(other.entries@, k);
                assert(other.entries[k].peer == p);
            }
            assert forall|p: PeerID| !other@.contains_key(p) implies #[trigger] self.spec_get(p)
                == old(self).spec_get(p) by {
                assert forall|k: int| 0 <= k < n implies (#[trigger] other.entries[k]).peer != p by {
                    lemma_ids_map_at(other.entries@, k);
                }
            }
        }
        added
    }
}

impl IdSpan {
    /// The two spans share an identifier.
    pub open spec fn spec_overlaps(self, other: IdSpan) -> bool {
        &&& self.peer == other.peer
        &&& self.counter.start < other.counter.end
        &&& other.counter.start < self.counter.end
        &&& self.counter.start < self.counter.end
        &&& other.counter.start < other.counter.end
    }

    /// Whether the two spans share an identifier.
    pub fn overlaps(&self, other: &IdSpan) -> (b: bool)
        ensures
            b == self.spec_overlaps(*other),
    {
        self.peer == other.peer && self.counter.start < other.counter.end && other.counter.start
            < self.counter.end && self.counter.start < self.counter.end && other.counter.start
            < other.counter.end
    }
}

/// A set of identifiers, held as spans that do not overlap.
#[derive(Debug, Clone)]
pub struct IdSpanVector {
    pub spans: Vec<IdSpan>,
}

impl IdSpanVector {
    /// No two spans share an identifier.
    pub open spec fn wf(self) -> bool {
        forall|a: int, b: int|
            0 <= a < b < self.spans.len() ==> !(#[trigger] self.spans[a]).spec_overlaps(
                #[trigger] self.spans[b],
            )
    }

    /// Whether `id` belongs to the set.
    pub open spec fn spec_contains(self, id: ID) -> bool {
        exists|k: int| 0 <= k < self.spans.len() && (#[trigger] self.spans[k]).spec_contains(id)
    }

    /// The empty set.
    pub fn new() -> (v: IdSpanVector)
        ensures
            v.wf(),
            v.spans.len() == 0,
            forall|id: ID| !v.spec_contains(id),
    {
        IdSpanVector { spans: Vec::new() }
    }

    /// Adds `span` to the set, unless it shares an identifier with a span
    /// that is already there. Says whether it was added.
    pub fn push(&mut self, span: IdSpan) -> (added: bool)
        requires
            old(self).wf(),
        ensures
            final(self).wf(),
            added == forall|k: int|
                0 <= k < old(self).spans.len() ==> !(#[trigger] old(self).spans[k]).spec_overlaps(
                    span,
                ),
            added ==> final(self).spans@ == old(self).spans@.push(span),
            !added ==> final(self).spans@ == old(self).spans@,
    {
        let n = self.spans.len();
        let mut i: usize = 0;
        while i < n
            invariant
                n == self.spans.len(),
                i <= n,
                *self == *old(self),
                self.wf(),
                forall|k: int| 0 <= k < i ==> !(#[trigger] self.spans[k]).spec_overlaps(span),
            decreases n - i,
        {
            if self.spans[i].overlaps(&span) {
                return false;
            }
            i = i + 1;
        }
        self.spans.push(span);
        proof {
            assert forall|a: int, b: int| 0 <= a < b < self.spans.len() implies !(
            #[trigger] self.spans[a]).spec_overlaps(#[trigger] self.spans[b]) by {
                if b < n {
                    assert(!old(self).spans[a].spec_overlaps(old(self).spans[b]));
                } else {
                    assert(!old(self).spans[a].spec_overlaps(span));
                }
            }
        }
        true
    }

    /// Whether `id` belongs to the set.
    pub fn contains(&self, id: ID) -> (b: bool)
        ensures
            b == self.spec_contains(id),
    {
        let n = self.spans.len();
        let mut i: usize = 0;
        while i < n
            invariant
                n == self.spans.len(),
                i <= n,
                forall|k: int| 0 <= k < i ==> !(#[trigger] self.spans[k]).spec_contains(id),
            decreases n - i,
        {
            if self.spans[i].contains(id) {
                return true;
            }
            i = i + 1;
        }
        false
    }
}

} // verus!
