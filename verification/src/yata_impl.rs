//! The sequence of a tracker as the list that the placement walk works on.

use vstd::prelude::*;
use core::cmp::Ordering;
use crate::id::{Counter, ID};
use crate::rle_tree::leaf::{lemma_spans_empty, spans_atoms};
use crate::tracker::model::{anchor_end, anchor_start, has_id, restyle_spans, with_run};
use crate::tracker::query::anchors_at;
use crate::tracker::{Tracker, TrackerError};
use crate::version::IdSpanVector;
use crate::y_span::{visible_ids, visible_len, Atom, Status, StatusChange, YSpan};

verus! {

/// The operations on a tracker that integrating an insertion is made of.
#[derive(Debug)]
pub struct YataImpl;

impl YataImpl {
    /// The bound that `id` stands for: none, where it names no item of the sequence.
    pub open spec fn spec_bound(atoms: Seq<Atom>, id: Option<ID>) -> Option<ID> {
        match id {
            Some(x) => if has_id(atoms, x) {
                Some(x)
            } else {
                None
            },
            None => None,
        }
    }

    /// The runs between the items named `from` and `to`, without those two.
    ///
    /// A bound that names no item of the sequence stands for that end of it.
    pub fn iter(container: &Tracker, from: Option<ID>, to: Option<ID>) -> (runs: Vec<YSpan>)
        requires
            container.wf_core(),
        ensures
            spans_atoms(runs@) == (if anchor_start(
                container@,
                Self::spec_bound(container@, from),
            ) <= anchor_end(container@, Self::spec_bound(container@, to)) {
                container@.subrange(
                    anchor_start(container@, Self::spec_bound(container@, from)),
                    anchor_end(container@, Self::spec_bound(container@, to)),
                )
            } else {
                Seq::<Atom>::empty()
            }),
    {
        let start: usize = match from {
            Some(l) => match container.get_cursor(l) {
                Some(c) => c.pos + 1,
                None => 0,
            },
            None => 0,
        };
        let end: usize = match to {
            Some(r) => match container.get_cursor(r) {
                Some(c) => c.pos,
                None => container.content.len(),
            },
            None => container.content.len(),
        };
        if start > end {
            proof {
                lemma_spans_empty();
            }
            return Vec::new();
        }
        container.content.iter_in(start, end)
    }

    /// The name of the first item of `op`.
    pub fn id(op: &YSpan) -> (id: ID)
        ensures
            id == op.id,
    {
        op.id
    }

    /// How the peers of two runs compare.
    pub fn cmp_id(op_a: &YSpan, op_b: &YSpan) -> (o: Ordering)
        ensures
            o == (if op_a.id.peer < op_b.id.peer {
                Ordering::Less
            } else if op_a.id.peer == op_b.id.peer {
                Ordering::Equal
            } else {
                Ordering::Greater
            }),
    {
        if op_a.id.peer < op_b.id.peer {
            Ordering::Less
        } else if op_a.id.peer == op_b.id.peer {
            Ordering::Equal
        } else {
            Ordering::Greater
        }
    }

    /// Whether `id` names an item of `op`.
    pub fn contains(op: &YSpan, id: ID) -> (b: bool)
        ensures
            b == op.id.spec_contains(op.len as int, id),
    {
        if op.id.peer != id.peer || id.counter < op.id.counter {
            return false;
        }
        let offset: u64 = (id.counter as i64 - op.id.counter as i64) as u64;
        if op.len > 0xffff_ffff {
            return true;
        }
        offset < op.len as u64
    }

    /// The item that `op` was inserted after.
    pub fn left_origin(op: &YSpan) -> (o: Option<ID>)
        ensures
            o == op.origin_left,
    {
        op.origin_left
    }

    /// The item that `op` was inserted before.
    pub fn right_origin(op: &YSpan) -> (o: Option<ID>)
        ensures
            o == op.origin_right,
    {
        op.origin_right
    }

    /// Inserts `op`, the next operations of its peer, right of the item at position `anchor`.
    pub fn insert_after(container: &mut Tracker, anchor: usize, op: YSpan)
        requires
            old(container).wf(),
            anchor < old(container)@.len(),
            old(container).is_next_run(op),
            anchor_start(old(container)@, op.origin_left) <= anchor + 1 <= anchor_end(
                old(container)@,
                op.origin_right,
            ),
        ensures
            final(container).wf(),
            final(container)@ == with_run(old(container)@, anchor + 1, op),
            final(container).head_vv@ == old(container).head_vv@.insert(
                op.id.peer,
                (op.id.counter + op.len) as Counter,
            ),
    {
        container.insert_fresh(anchor + 1, op);
    }

    /// Inserts `op`, the next operations of its peer, right of the item
    /// named `id`, or at the start where `id` is absent.
    pub fn insert_after_id(container: &mut Tracker, id: Option<ID>, op: YSpan)
        requires
            old(container).wf(),
            id is Some ==> has_id(old(container)@, id->Some_0),
            old(container).is_next_run(op),
            anchor_start(old(container)@, op.origin_left) <= anchor_start(old(container)@, id)
                <= anchor_end(old(container)@, op.origin_right),
        ensures
            final(container).wf(),
            final(container)@ == with_run(
                old(container)@,
                anchor_start(old(container)@, id),
                op,
            ),
            final(container).head_vv@ == old(container).head_vv@.insert(
                op.id.peer,
                (op.id.counter + op.len) as Counter,
            ),
    {
        let q = container.start_after(id);
        container.insert_fresh(q, op);
    }

    /// Integrates the insertion `op` into `container`.
    pub fn integrate(container: &mut Tracker, op: YSpan) -> (r: Result<(), TrackerError>)
        requires
            old(container).wf(),
        ensures
            final(container).wf(),
            old(container).integrate_result(op, *final(container), r),
    {
        container.integrate(op)
    }

    /// Whether the items that `op` refers to are integrated in `container`.
    pub fn can_integrate(container: &Tracker, op: &YSpan) -> (b: bool)
        requires
            container.wf_core(),
        ensures
            b == container.spec_can_integrate(*op),
    {
        container.can_integrate(op)
    }

    /// Whether both trackers hold the same items in the same order with the same status.
    pub fn is_content_eq(a: &Tracker, b: &Tracker) -> (r: bool)
        requires
            a.wf_core(),
            b.wf_core(),
        ensures
            r == (a@ == b@),
    {
        a.is_content_eq(b)
    }

    /// An empty tracker for the replica numbered `client_id`.
    pub fn new_container(client_id: usize) -> (t: Tracker)
        ensures
            t.wf(),
            t@ == Seq::<Atom>::empty(),
            t.client_id == client_id,
            t.head_vv.entries@ == Seq::<ID>::empty(),
            t.current_vv.entries@ == Seq::<ID>::empty(),
            t.id_to_cursor@ == Map::<ID, crate::cursor_map::LeafHandle>::empty(),
            t.is_live(),
    {
        Tracker::new(client_id as u64)
    }

    /// The visible position that the hint `pos` stands for in a sequence
    /// of `visible` visible items.
    pub open spec fn spec_place(pos: usize, visible: nat) -> int {
        if visible == 0 {
            0
        } else {
            pos as int % visible as int
        }
    }

    /// The next local insertion of `container`, before the visible item that
    /// the hint `pos` stands for: a run of `pos % 10 + 1` items.
    pub fn new_op(container: &Tracker, pos: usize) -> (op: YSpan)
        requires
            container.wf_core(),
        ensures
            op == (YSpan {
                id: ID {
                    peer: container.client_id,
                    counter: container.head_vv.spec_get(container.client_id) as Counter,
                },
                len: (pos % 10 + 1) as usize,
                origin_left: anchors_at(
                    container@,
                    Self::spec_place(pos, visible_len(container@)),
                ).0,
                origin_right: anchors_at(
                    container@,
                    Self::spec_place(pos, visible_len(container@)),
                ).1,
                status: Status { future_count: 0, delete_times: 0 },
            }),
    {
        let visible = container.visible_len();
        let at = if visible == 0 {
            0
        } else {
            pos % visible
        };
        let id = ID {
            peer: container.client_id,
            counter: container.head_vv.get_or_zero(container.client_id),
        };
        container.get_yspan_at_pos(id, at, pos % 10 + 1)
    }

    /// The deletion of visible items of `container` that the hints `pos`
    /// and `len` stand for: `len % 10` items from the visible position
    /// `pos % n` on, where `n` items are visible, or as many as there are.
    pub fn new_del_op(container: &Tracker, pos: usize, len: usize) -> (op: IdSpanVector)
        requires
            container.wf_core(),
        ensures
            op.wf(),
            forall|id: ID|
                #[trigger] op.spec_contains(id) <==> exists|k: int|
                    Self::spec_place(pos, visible_len(container@)) <= k < Self::spec_del_end(
                        pos,
                        len,
                        visible_len(container@),
                    ) && #[trigger] visible_ids(container@)[k] == id,
    {
        let visible = container.visible_len();
        if visible == 0 {
            return IdSpanVector::new();
        }
        let at = pos % visible;
        let wanted = len % 10;
        let count = if wanted < visible - at {
            wanted
        } else {
            visible - at
        };
        container.get_id_spans(at, count)
    }

    /// Where the deletion that the hints stand for ends.
    pub open spec fn spec_del_end(pos: usize, len: usize, visible: nat) -> int {
        if visible == 0 {
            0
        } else {
            let at = pos as int % visible as int;
            if len as int % 10 < visible - at {
                at + len as int % 10
            } else {
                visible as int
            }
        }
    }

    /// Marks the items named in `op` as deleted once more.
    pub fn integrate_delete_op(container: &mut Tracker, op: IdSpanVector)
        requires
            old(container).wf(),
            op.wf(),
        ensures
            final(container).wf(),
            final(container)@ == restyle_spans(old(container)@, op.spans@, StatusChange::Delete),
            final(container).head_vv.entries@ == old(container).head_vv.entries@,
            final(container).current_vv.entries@ == old(container).current_vv.entries@,
            final(container).client_id == old(container).client_id,
            old(container).is_live() ==> final(container).is_live(),
    {
        container.update_spans(&op, StatusChange::Delete);
    }
}

} // verus!
