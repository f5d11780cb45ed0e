//! The unit that the content tree stores: a run of consecutive insertions of
//! one peer, with the anchors they were inserted between and their visibility.

use vstd::prelude::*;
use crate::id::{Counter, ID};
use crate::span::{CounterSpan, IdSpan};

verus! {

/// A change of visibility applied to tracked items.
#[derive(Clone, Copy, Debug, PartialEq, Eq, Structural)]
pub enum StatusChange {
    SetAsCurrent,
    SetAsFuture,
    Delete,
    UndoDelete,
}

/// Why an item is or is not part of the visible sequence.
///
/// `future_count` counts the retreats that moved the item past the current
/// version, `delete_times` the deletions observed for it. Both saturate.
#[derive(Clone, Copy, Debug, PartialEq, Eq, Hash, Structural)]
pub struct Status {
    pub future_count: u32,
    pub delete_times: u32,
}

/// One more, unless the count is at its top.
pub open spec fn spec_sat_inc(x: u32) -> u32 {
    if x < u32::MAX {
        (x + 1) as u32
    } else {
        x
    }
}

/// One less, unless the count is 0.
pub open spec fn spec_sat_dec(x: u32) -> u32 {
    if x > 0 {
        (x - 1) as u32
    } else {
        x
    }
}

impl Status {
    /// The item is shown: it does not lie in the future and is not deleted.
    pub open spec fn spec_is_visible(self) -> bool {
        self.future_count == 0 && self.delete_times == 0
    }

    /// The status after `change`.
    pub open spec fn spec_apply(self, change: StatusChange) -> Status {
        match change {
            StatusChange::SetAsCurrent => Status { future_count: spec_sat_dec(self.future_count), ..self },
            StatusChange::SetAsFuture => Status { future_count: spec_sat_inc(self.future_count), ..self },
            StatusChange::Delete => Status { delete_times: spec_sat_inc(self.delete_times), ..self },
            StatusChange::UndoDelete => Status { delete_times: spec_sat_dec(self.delete_times), ..self },
        }
    }

    /// The status of an item that is shown.
    pub fn new() -> (s: Status)
        ensures
            s == (Status { future_count: 0, delete_times: 0 }),
            s.spec_is_visible(),
    {
        Status { future_count: 0, delete_times: 0 }
    }

    /// The status of an item that lies beyond the current version.
    pub fn future() -> (s: Status)
        ensures
            s == (Status { future_count: 1, delete_times: 0 }),
    {
        Status { future_count: 1, delete_times: 0 }
    }

    /// Whether the item is shown.
    pub fn is_visible(&self) -> (b: bool)
        ensures
            b == self.spec_is_visible(),
    {
        self.future_count == 0 && self.delete_times == 0
    }

    /// Counts `change`: a retreat or a deletion counts up, a forward or an undone deletion
    /// counts down, and no count leaves its range.
    pub fn apply_change(&mut self, change: StatusChange)
        ensures
            *final(self) == old(self).spec_apply(change),
    {
        match change {
            StatusChange::SetAsCurrent => {
                if self.future_count > 0 {
                    self.future_count = self.future_count - 1;
                }
            },
            StatusChange::SetAsFuture => {
                if self.future_count < u32::MAX {
                    self.future_count = self.future_count + 1;
                }
            },
            StatusChange::Delete => {
                if self.delete_times < u32::MAX {
                    self.delete_times = self.delete_times + 1;
                }
            },
            StatusChange::UndoDelete => {
                if self.delete_times > 0 {
                    self.delete_times = self.delete_times - 1;
                }
            },
        }
    }

    /// Whether both counts agree.
    pub fn eq_status(&self, other: &Status) -> (b: bool)
        ensures
            b == (*self == *other),
    {
        self.future_count == other.future_count && self.delete_times == other.delete_times
    }
}

/// One inserted item: the mathematical content of the tree is a sequence of these.
#[derive(Clone, Copy, Debug, PartialEq, Eq, Structural)]
pub struct Atom {
    pub id: ID,
    pub origin_left: Option<ID>,
    pub origin_right: Option<ID>,
    pub status: Status,
}

/// A run of `len` items with consecutive counters, inserted together.
///
/// The first item was inserted right of `origin_left`, each later item right
/// of its predecessor in the run, and all of them left of `origin_right`.
#[derive(Clone, Copy, Debug, PartialEq, Eq, Structural)]
pub struct YSpan {
    pub id: ID,
    pub len: usize,
    pub origin_left: Option<ID>,
    pub origin_right: Option<ID>,
    pub status: Status,
}

/// The number of visible items of a sequence.
pub open spec fn visible_len(s: Seq<Atom>) -> nat {
    s.filter(|a: Atom| a.status.spec_is_visible()).len()
}

/// The identifiers of the visible items, in order.
pub open spec fn visible_ids(s: Seq<Atom>) -> Seq<ID> {
    s.filter(|a: Atom| a.status.spec_is_visible()).map_values(|a: Atom| a.id)
}

/// Some item is named `id`.
pub open spec fn has_id(atoms: Seq<Atom>, id: ID) -> bool {
    exists|j: int| 0 <= j < atoms.len() && (#[trigger] atoms[j]).id == id
}

/// No two items share a name.
pub open spec fn distinct_ids(atoms: Seq<Atom>) -> bool {
    forall|i: int, j: int|
        0 <= i < j < atoms.len() ==> (#[trigger] atoms[i]).id != (#[trigger] atoms[j]).id
}

/// The names of a sequence are those of its two parts.
pub proof fn lemma_has_id_add(a: Seq<Atom>, b: Seq<Atom>, id: ID)
    ensures
        has_id(a + b, id) == (has_id(a, id) || has_id(b, id)),
{
    let s = a + b;
    if has_id(s, id) {
        let j = choose|j: int| 0 <= j < s.len() && (#[trigger] s[j]).id == id;
        if j < a.len() {
            assert(a[j].id == id);
        } else {
            assert(b[j - a.len()].id == id);
        }
    }
    if has_id(a, id) {
        let j = choose|j: int| 0 <= j < a.len() && (#[trigger] a[j]).id == id;
        assert(s[j].id == id);
    }
    if has_id(b, id) {
        let j = choose|j: int| 0 <= j < b.len() && (#[trigger] b[j]).id == id;
        assert(s[a.len() + j].id == id);
    }
}

/// Parts of a sequence without repeated names share no name.
pub proof fn lemma_distinct_parts(a: Seq<Atom>, b: Seq<Atom>, id: ID)
    requires
        distinct_ids(a + b),
    ensures
        !(has_id(a, id) && has_id(b, id)),
        distinct_ids(a),
        distinct_ids(b),
{
    let s = a + b;
    if has_id(a, id) && has_id(b, id) {
        let i = choose|j: int| 0 <= j < a.len() && (#[trigger] a[j]).id == id;
        let j = choose|j: int| 0 <= j < b.len() && (#[trigger] b[j]).id == id;
        assert(s[i].id == id);
        assert(s[a.len() + j].id == id);
    }
    assert forall|i: int, j: int| 0 <= i < j < a.len() implies (#[trigger] a[i]).id != (
    #[trigger] a[j]).id by {
        assert(s[i] == a[i] && s[j] == a[j]);
    }
    assert forall|i: int, j: int| 0 <= i < j < b.len() implies (#[trigger] b[i]).id != (
    #[trigger] b[j]).id by {
        assert(s[a.len() + i] == b[i] && s[a.len() + j] == b[j]);
    }
}

/// The visible items of a sequence are those of its two parts, and no more than its items.
pub proof fn lemma_visible_len_add(a: Seq<Atom>, b: Seq<Atom>)
    ensures
        visible_len(a + b) == visible_len(a) + visible_len(b),
        visible_len(a) <= a.len(),
{
    let p = |a: Atom| a.status.spec_is_visible();
    broadcast use vstd::seq_lib::group_filter_ensures;
    Seq::filter_distributes_over_add(a, b, p);
}

impl YSpan {
    /// At least one item, and the last counter fits.
    pub open spec fn wf(self) -> bool {
        &&& self.len >= 1
        &&& self.id.counter + self.len <= i32::MAX
    }

    /// The `k`-th item of the run.
    pub open spec fn atom(self, k: int) -> Atom {
        Atom {
            id: self.id.spec_inc(k),
            origin_left: if k == 0 {
                self.origin_left
            } else {
                Some(self.id.spec_inc(k - 1))
            },
            origin_right: self.origin_right,
            status: self.status,
        }
    }

    /// The items of the run, in order.
    pub open spec fn atoms(self) -> Seq<Atom> {
        Seq::new(self.len as nat, |k: int| self.atom(k))
    }

    /// The number of visible items: all or none.
    pub open spec fn spec_content_len(self) -> nat {
        if self.status.spec_is_visible() {
            self.len as nat
        } else {
            0
        }
    }

    /// The items `from..to` of the run, as a run of their own.
    pub open spec fn spec_slice(self, from: int, to: int) -> YSpan {
        YSpan {
            id: self.id.spec_inc(from),
            len: (to - from) as usize,
            origin_left: if from == 0 {
                self.origin_left
            } else {
                Some(self.id.spec_inc(from - 1))
            },
            origin_right: self.origin_right,
            status: self.status,
        }
    }

    /// `other` continues this run: its items follow on the same peer, were
    /// inserted right after this run's last item, and share anchor and status.
    pub open spec fn spec_mergable(self, other: YSpan) -> bool {
        &&& self.id.peer == other.id.peer
        &&& self.id.counter + self.len == other.id.counter
        &&& other.origin_left == Some(other.id.spec_inc(-1))
        &&& self.origin_right == other.origin_right
        &&& self.status == other.status
    }

    /// The run made of this one followed by `other`.
    pub open spec fn spec_merge(self, other: YSpan) -> YSpan {
        YSpan { len: (self.len + other.len) as usize, ..self }
    }

    /// The identifiers of the items.
    pub open spec fn id_span(self) -> IdSpan {
        IdSpan {
            peer: self.id.peer,
            counter: CounterSpan { start: self.id.counter, end: (self.id.counter + self.len) as Counter },
        }
    }

    /// The identifiers of the run's span are the names of its items.
    pub proof fn lemma_span_has_id(self, id: ID)
        requires
            self.wf(),
        ensures
            self.id_span().spec_contains(id) == has_id(self.atoms(), id),
    {
        if self.id_span().spec_contains(id) {
            let k = id.counter - self.id.counter;
            assert(self.atoms()[k].id == id);
        }
        if has_id(self.atoms(), id) {
            let k = choose|k: int| 0 <= k < self.atoms().len() && (#[trigger] self.atoms()[k]).id == id;
            assert(self.atoms()[k] == self.atom(k));
        }
    }

    /// The items of a run are all visible or all invisible.
    pub proof fn lemma_atoms_visible(self)
        ensures
            visible_len(self.atoms()) == self.spec_content_len(),
        decreases self.len,
    {
        let p = |a: Atom| a.status.spec_is_visible();
        let s = self.atoms();
        if self.len == 0 {
            assert(s =~= Seq::<Atom>::empty());
        } else {
            let shorter = YSpan { len: (self.len - 1) as usize, ..self };
            shorter.lemma_atoms_visible();
            assert(s.drop_last() =~= shorter.atoms());
            reveal(Seq::filter);
            assert(s.filter(p) == if p(s.last()) {
                s.drop_last().filter(p).push(s.last())
            } else {
                s.drop_last().filter(p)
            });
        }
    }

    /// A slice of a valid run is a valid run of the items it was cut from.
    pub proof fn lemma_slice(self, from: int, to: int)
        requires
            self.wf(),
            0 <= from < to <= self.len,
        ensures
            self.spec_slice(from, to).wf(),
            self.spec_slice(from, to).atoms() =~= self.atoms().subrange(from, to),
            self.spec_slice(0, self.len as int) == self,
    {
    }

    /// A run and its continuation merge to a valid run of the items of both.
    pub proof fn lemma_merge(self, other: YSpan)
        requires
            self.wf(),
            other.wf(),
            self.spec_mergable(other),
        ensures
            self.spec_merge(other).wf(),
            self.spec_merge(other).atoms() =~= self.atoms() + other.atoms(),
    {
    }

    /// The run of `len` visible items named from `id` on, inserted between `origin_left` and
    /// `origin_right`.
    pub fn new(id: ID, len: usize, origin_left: Option<ID>, origin_right: Option<ID>) -> (s: YSpan)
        ensures
            s == (YSpan { id, len, origin_left, origin_right, status: Status { future_count: 0, delete_times: 0 } }),
    {
        YSpan { id, len, origin_left, origin_right, status: Status::new() }
    }

    /// The number of items, visible or not.
    pub fn atom_len(&self) -> (n: usize)
        ensures
            n == self.len,
            n == self.atoms().len(),
    {
        self.len
    }

    /// The number of visible items.
    pub fn content_len(&self) -> (n: usize)
        ensures
            n == self.spec_content_len(),
            n == visible_len(self.atoms()),
    {
        proof {
            self.lemma_atoms_visible();
        }
        if self.status.is_visible() {
            self.len
        } else {
            0
        }
    }

    /// The identifier of the last item.
    pub fn last_id(&self) -> (id: ID)
        requires
            self.wf(),
        ensures
            id == self.id.spec_inc(self.len - 1),
    {
        ID { peer: self.id.peer, counter: (self.id.counter as i64 + (self.len as i64 - 1)) as i32 }
    }

    /// Whether `id` names one of the items.
    pub fn contains_id(&self, id: ID) -> (b: bool)
        requires
            self.wf(),
        ensures
            b == self.id.spec_contains(self.len as int, id),
            b == exists|k: int| 0 <= k < self.len && #[trigger] self.atoms()[k].id == id,
    {
        let b = self.id.peer == id.peer && self.id.counter <= id.counter && (id.counter as i64)
            < self.id.counter as i64 + self.len as i64;
        proof {
            if b {
                let k = id.counter - self.id.counter;
                assert(self.atoms()[k].id == id);
            }
        }
        b
    }

    /// The `k`-th item.
    pub fn atom_at(&self, k: usize) -> (a: Atom)
        requires
            self.wf(),
            k < self.len,
        ensures
            a == self.atoms()[k as int],
    {
        let origin_left = if k == 0 {
            self.origin_left
        } else {
            Some(ID { peer: self.id.peer, counter: (self.id.counter as i64 + (k as i64 - 1)) as i32 })
        };
        Atom {
            id: ID { peer: self.id.peer, counter: (self.id.counter as i64 + k as i64) as i32 },
            origin_left,
            origin_right: self.origin_right,
            status: self.status,
        }
    }

    /// The items `from..to` as a run of their own. The right part of a split
    /// is anchored to the last item of the left part.
    pub fn slice(&self, from: usize, to: usize) -> (s: YSpan)
        requires
            self.wf(),
            from < to <= self.len,
        ensures
            s == self.spec_slice(from as int, to as int),
            s.wf(),
            s.atoms() == self.atoms().subrange(from as int, to as int),
    {
        proof {
            self.lemma_slice(from as int, to as int);
        }
        let origin_left = if from == 0 {
            self.origin_left
        } else {
            Some(ID { peer: self.id.peer, counter: (self.id.counter as i64 + (from as i64 - 1)) as i32 })
        };
        YSpan {
            id: ID { peer: self.id.peer, counter: (self.id.counter as i64 + from as i64) as i32 },
            len: to - from,
            origin_left,
            origin_right: self.origin_right,
            status: self.status,
        }
    }

    /// Whether `other` continues this run.
    pub fn is_mergable(&self, other: &YSpan) -> (b: bool)
        requires
            self.wf(),
            other.wf(),
        ensures
            b == self.spec_mergable(*other),
    {
        let contiguous = self.id.peer == other.id.peer && self.id.counter as i64 + self.len as i64
            == other.id.counter as i64;
        if !contiguous {
            return false;
        }
        let anchored = match other.origin_left {
            Some(l) => l.peer == other.id.peer && l.counter as i64 == other.id.counter as i64 - 1,
            None => false,
        };
        anchored && crate::id::opt_id_eq(self.origin_right, other.origin_right)
            && self.status.eq_status(&other.status)
    }

    /// Appends the items of `other`, which continues this run.
    pub fn merge(&mut self, other: &YSpan)
        requires
            old(self).wf(),
            other.wf(),
            old(self).spec_mergable(*other),
        ensures
            *final(self) == old(self).spec_merge(*other),
            final(self).wf(),
            final(self).atoms() == old(self).atoms() + other.atoms(),
    {
        proof {
            self.lemma_merge(*other);
        }
        self.len = self.len + other.len;
    }
}

} // verus!
