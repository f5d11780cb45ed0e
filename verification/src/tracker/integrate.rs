//! Integrating an insertion.

use vstd::prelude::*;
use crate::id::{Counter, ID, UNKNOWN_PEER};
use crate::tracker::model::{
    anchor_end, anchor_start, future_marked, has_id, includes, index_of, lemma_index_of,
    lemma_insert_anchored, lemma_insert_known_complete, lemma_with_run_index, with_run,
};
use crate::tracker::{normalize, Tracker, TrackerError};
use crate::y_span::{Status, YSpan};
use crate::yata::find_position;

verus! {

/// Items that the old version held stay marked, and new items are marked
/// unless the new current version holds them.
pub proof fn lemma_insert_future_marked(before: Tracker, after: Tracker, q: int, fresh: YSpan)
    requires
        before.wf(),
        0 <= q <= before@.len(),
        fresh.wf(),
        after@ == with_run(before@, q, fresh),
        after.head_vv@ == before.head_vv@.insert(
            fresh.id.peer,
            (fresh.id.counter + fresh.len) as Counter,
        ),
        fresh.id.counter == before.head_vv.spec_get(fresh.id.peer),
        fresh.id.counter >= 0,
        after.current_vv@ == after.head_vv@ || (after.current_vv@ == before.current_vv@
            && fresh.status.future_count >= 1),
    ensures
        future_marked(after@, after.current_vv@),
{
    lemma_with_run_index(before@, q, fresh);
    let a = after@;
    assert forall|j: int| 0 <= j < a.len() && !includes(after.current_vv@, (#[trigger] a[j]).id)
        implies a[j].status.future_count >= 1 by {
        if q <= j < q + fresh.len {
            assert(a[j] == fresh.atom(j - q));
        } else {
            let j0 = if j < q {
                j
            } else {
                j - fresh.len
            };
            assert(a[j] == before@[j0]);
            assert(includes(before.head_vv@, before@[j0].id));
        }
    }
}

/// Where an item rests: the leaf that holds it, and its position in the sequence.
#[derive(Clone, Copy, Debug, PartialEq, Eq, Structural)]
pub struct Cursor {
    pub leaf: crate::cursor_map::LeafHandle,
    pub pos: usize,
}

impl Tracker {
    /// `fresh` is the next run of its peer, in the form in which runs are
    /// stored: a valid run of a real peer that starts where `head_vv` ends
    /// for that peer, whose origins are items of the sequence, and whose
    /// items are current if the tracker is live and lie in the future once
    /// if it is not.
    pub open spec fn is_next_run(self, fresh: YSpan) -> bool {
        &&& fresh.wf()
        &&& fresh.id.peer != UNKNOWN_PEER
        &&& fresh.id.counter == self.head_vv.spec_get(fresh.id.peer)
        &&& fresh.id.counter >= 0
        &&& self@.len() + fresh.len <= usize::MAX
        &&& fresh.origin_left is Some ==> has_id(self@, fresh.origin_left->Some_0)
        &&& fresh.origin_right is Some ==> has_id(self@, fresh.origin_right->Some_0)
        &&& fresh.status.future_count == (if self.is_live() {
            0int
        } else {
            1int
        })
    }

    /// Where the item named `id` rests: the leaf that `id_to_cursor` names
    /// for it, and its position in the sequence.
    pub fn get_cursor(&self, id: ID) -> (r: Option<Cursor>)
        requires
            self.wf_core(),
        ensures
            r is Some == has_id(self@, id),
            r is Some ==> {
                &&& r->Some_0.pos == index_of(self@, id)
                &&& r->Some_0.pos < self@.len()
                &&& self.id_to_cursor@.contains_key(id)
                &&& r->Some_0.leaf == self.id_to_cursor@[id]
                &&& self.content.root.leaf_holds(r->Some_0.leaf, id)
            },
    {
        proof {
            if has_id(self@, id) {
                crate::rle_tree::node::Node::Internal(self.content.root).lemma_indexed_holds(
                    self.id_to_cursor@,
                    id,
                );
            }
        }
        match self.id_to_cursor.get(id) {
            Some(leaf) => {
                match self.content.find_in_leaf(leaf, id) {
                    Some(pos) => {
                        proof {
                            lemma_index_of(self@, pos as int);
                        }
                        Some(Cursor { leaf, pos })
                    },
                    None => None,
                }
            },
            None => None,
        }
    }

    /// The position right of the item named by `left`, or the start.
    pub fn start_after(&self, left: Option<ID>) -> (start: usize)
        requires
            self.wf_core(),
            left is Some ==> has_id(self@, left->Some_0),
        ensures
            start == anchor_start(self@, left),
            start <= self@.len(),
    {
        match left {
            Some(l) => {
                match self.get_cursor(l) {
                    Some(c) => c.pos + 1,
                    None => 0,
                }
            },
            None => 0,
        }
    }

    /// The position of the item named by `right`, or the end.
    pub fn end_before(&self, right: Option<ID>) -> (end: usize)
        requires
            self.wf_core(),
            right is Some ==> has_id(self@, right->Some_0),
        ensures
            end == anchor_end(self@, right),
            end <= self@.len(),
    {
        match right {
            Some(r) => {
                match self.get_cursor(r) {
                    Some(c) => c.pos,
                    None => 0,
                }
            },
            None => self.content.len(),
        }
    }

    /// Whether `op` is a run that the sequence can take.
    pub fn is_valid_op(&self, op: &YSpan) -> (b: bool)
        requires
            self.wf_core(),
        ensures
            b == self.valid_op(*op),
    {
        if !op.check() || op.id.counter < 0 || op.id.is_unknown() {
            return false;
        }
        match normalize(op.origin_left) {
            Some(l) => {
                if l.counter < 0 {
                    return false;
                }
            },
            None => {},
        }
        match normalize(op.origin_right) {
            Some(r) => {
                if r.counter < 0 {
                    return false;
                }
            },
            None => {},
        }
        op.len <= usize::MAX - self.content.len()
    }

    /// The part of `op` that is new, as it will be stored; `None` where the
    /// tracker holds all of `op` already.
    pub fn fresh_part(&self, op: &YSpan) -> (r: Result<Option<YSpan>, TrackerError>)
        requires
            self.wf(),
        ensures
            match r {
                Err(TrackerError::MissingDependency) => !self.spec_can_integrate(*op),
                Err(TrackerError::MalformedInput) => self.spec_can_integrate(*op) && !self.valid_op(
                    *op,
                ),
                Err(TrackerError::InvariantViolated) => false,
                Ok(None) => self.spec_can_integrate(*op) && self.valid_op(*op)
                    && self.known_prefix(*op) >= op.len,
                Ok(Some(fresh)) => {
                    &&& self.spec_can_integrate(*op)
                    &&& self.valid_op(*op)
                    &&& 0 <= self.known_prefix(*op) < op.len
                    &&& fresh == self.spec_fresh(*op)
                    &&& self.is_next_run(fresh)
                    &&& fresh.id.peer == op.id.peer
                    &&& fresh.id.counter + fresh.len == op.id.counter + op.len
                },
            },
    {
        if !self.can_integrate(op) {
            return Err(TrackerError::MissingDependency);
        }
        if !self.is_valid_op(op) {
            return Err(TrackerError::MalformedInput);
        }
        let have = self.head_vv.get_or_zero(op.id.peer);
        proof {
            if self.head_vv@.contains_key(op.id.peer) {
                assert(self.head_vv@[op.id.peer] > 0);
            }
        }
        let known_count: usize = (have - op.id.counter) as usize;
        if known_count >= op.len {
            return Ok(None);
        }
        let piece = op.slice(known_count, op.len);
        let left = normalize(piece.origin_left);
        let right = normalize(piece.origin_right);
        let live = self.current_vv.same_as(&self.head_vv);
        let fresh = YSpan {
            id: piece.id,
            len: piece.len,
            origin_left: left,
            origin_right: right,
            status: if live {
                Status::new()
            } else {
                Status::future()
            },
        };
        proof {
            if left is Some {
                let l = left->Some_0;
                assert(l.counter >= 0 && includes(self.head_vv@, l));
                assert(has_id(self@, l));
            }
            if right is Some {
                let r = right->Some_0;
                assert(r.counter >= 0 && includes(self.head_vv@, r));
                assert(has_id(self@, r));
            }
        }
        Ok(Some(fresh))
    }

    /// Inserts `fresh`, the next operations of its peer, at position `q`,
    /// which lies right of its left origin and not right of its right origin.
    pub fn insert_fresh(&mut self, q: usize, fresh: YSpan)
        requires
            old(self).wf(),
            old(self).is_next_run(fresh),
            anchor_start(old(self)@, fresh.origin_left) <= q <= anchor_end(
                old(self)@,
                fresh.origin_right,
            ),
            q <= old(self)@.len(),
        ensures
            final(self).wf(),
            final(self).client_id == old(self).client_id,
            final(self)@ == with_run(old(self)@, q as int, fresh),
            final(self).head_vv@ == old(self).head_vv@.insert(
                fresh.id.peer,
                (fresh.id.counter + fresh.len) as Counter,
            ),
            old(self).is_live() ==> final(self).is_live(),
            !old(self).is_live() ==> final(self).current_vv.entries@ == old(
                self,
            ).current_vv.entries@,
    {
        let live = self.current_vv.same_as(&self.head_vv);
        let ghost before = *self;
        self.content.insert(q, fresh, &mut self.id_to_cursor);
        let end_counter: i32 = (fresh.id.counter as i64 + fresh.len as i64) as i32;
        self.head_vv.insert(fresh.id.peer, end_counter);
        if live {
            self.current_vv = self.head_vv.duplicate();
        }
        proof {
            lemma_insert_known_complete(before@, before.head_vv@, q as int, fresh);
            lemma_insert_anchored(before@, q as int, fresh);
            lemma_insert_future_marked(before, *self, q as int, fresh);
        }
    }

    /// Inserts `fresh`, the next operations of its peer, between its origins.
    pub fn place(&mut self, fresh: YSpan) -> (r: Result<(), TrackerError>)
        requires
            old(self).wf(),
            old(self).is_next_run(fresh),
        ensures
            final(self).wf(),
            final(self).client_id == old(self).client_id,
            match r {
                Err(e) => {
                    &&& e == TrackerError::InvariantViolated
                    &&& anchor_start(old(self)@, fresh.origin_left) > anchor_end(
                        old(self)@,
                        fresh.origin_right,
                    )
                    &&& final(self).same_state(*old(self))
                },
                Ok(()) => {
                    &&& anchor_start(old(self)@, fresh.origin_left) <= anchor_end(
                        old(self)@,
                        fresh.origin_right,
                    )
                    &&& final(self)@ == with_run(
                        old(self)@,
                        crate::yata::yata_position(
                            old(self)@,
                            fresh.id.peer,
                            fresh.origin_left,
                            fresh.origin_right,
                            anchor_start(old(self)@, fresh.origin_left),
                            anchor_end(old(self)@, fresh.origin_right),
                        ),
                        fresh,
                    )
                    &&& final(self).head_vv@ == old(self).head_vv@.insert(
                        fresh.id.peer,
                        (fresh.id.counter + fresh.len) as Counter,
                    )
                    &&& old(self).is_live() ==> final(self).is_live()
                    &&& !old(self).is_live() ==> final(self).current_vv.entries@ == old(
                        self,
                    ).current_vv.entries@
                },
            },
    {
        let start = self.start_after(fresh.origin_left);
        let end = self.end_before(fresh.origin_right);
        if start > end {
            return Err(TrackerError::InvariantViolated);
        }
        let q = find_position(
            &self.content,
            fresh.id.peer,
            fresh.origin_left,
            fresh.origin_right,
            start,
            end,
        );
        self.insert_fresh(q, fresh);
        Ok(())
    }

    /// What `integrate` makes of a tracker and an operation: the tracker
    /// `after` and the result `r`.
    pub open spec fn integrate_result(
        self,
        op: YSpan,
        after: Tracker,
        r: Result<(), TrackerError>,
    ) -> bool {
        &&& after.client_id == self.client_id
        &&& match r {
            Err(TrackerError::MissingDependency) => {
                &&& !self.spec_can_integrate(op)
                &&& after.same_state(self)
            },
            Err(TrackerError::MalformedInput) => {
                &&& self.spec_can_integrate(op)
                &&& !self.valid_op(op)
                &&& after.same_state(self)
            },
            Err(TrackerError::InvariantViolated) => {
                &&& self.spec_can_integrate(op)
                &&& self.valid_op(op)
                &&& self.known_prefix(op) < op.len
                &&& anchor_start(self@, self.spec_fresh(op).origin_left) > anchor_end(
                    self@,
                    self.spec_fresh(op).origin_right,
                )
                &&& after.same_state(self)
            },
            Ok(()) => {
                &&& self.spec_can_integrate(op)
                &&& self.valid_op(op)
                &&& self.known_prefix(op) >= op.len ==> after.same_state(self)
                &&& self.known_prefix(op) < op.len ==> {
                    &&& anchor_start(self@, self.spec_fresh(op).origin_left) <= anchor_end(
                        self@,
                        self.spec_fresh(op).origin_right,
                    )
                    &&& after@ == with_run(self@, self.spec_insert_pos(op), self.spec_fresh(op))
                    &&& after.head_vv@ == self.head_vv@.insert(
                        op.id.peer,
                        (op.id.counter + op.len) as Counter,
                    )
                    &&& self.is_live() ==> after.is_live()
                    &&& !self.is_live() ==> after.current_vv.entries@ == self.current_vv.entries@
                }
            },
        }
    }

    /// Integrates the insertion `op`.
    ///
    /// The items of `op` that the tracker holds already are skipped. The rest
    /// is inserted between its origins, at the position that the walk of
    /// `yata_position` gives, and `head_vv` grows to hold it. In a live
    /// tracker the new items are current and `current_vv` grows too;
    /// otherwise they lie in the future.
    ///
    /// An operation that refers to items not integrated yet is refused with
    /// `MissingDependency`, one that is no valid run with `MalformedInput`,
    /// and one whose origins stand in the wrong order with
    /// `InvariantViolated`. A refused operation changes nothing.
    pub fn integrate(&mut self, op: YSpan) -> (r: Result<(), TrackerError>)
        requires
            old(self).wf(),
        ensures
            final(self).wf(),
            old(self).integrate_result(op, *final(self), r),
    {
        match self.fresh_part(&op) {
            Err(e) => Err(e),
            Ok(None) => Ok(()),
            Ok(Some(fresh)) => self.place(fresh),
        }
    }
}

} // verus!
