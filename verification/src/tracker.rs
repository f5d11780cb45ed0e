//! The tracker of one sequence: its items in order, visible or not, and the
//! versions that say which of them are known and which are shown.

use vstd::prelude::*;
use crate::cursor_map::CursorMap;
use crate::id::{Counter, PeerID, ID, UNKNOWN_PEER};
use crate::rle_tree::tree::RleTree;
use crate::version::VersionVector;
use crate::y_span::{Atom, Status, YSpan};
use crate::yata::yata_position;

pub mod integrate;
pub mod laws;
pub mod commute;
pub mod checkout;
pub mod effects;
pub mod model;
pub mod query;
pub mod status;

verus! {

/// Why the tracker refused an operation.
#[derive(Clone, Copy, Debug, PartialEq, Eq, Structural)]
pub enum TrackerError {
    /// The operation refers to an item that the tracker has not integrated yet.
    MissingDependency,
    /// The operation is not a valid run, or the sequence cannot hold it.
    MalformedInput,
    /// The operation asks to stand right of its left origin and left of its
    /// right origin, and the right origin does not stand right of the left one.
    InvariantViolated,
}

/// The items of one sequence and the versions they are read against.
///
/// `head_vv` holds every item ever integrated. `current_vv` is the version
/// that the visibility of the items reflects; it lags `head_vv` while an
/// older version is checked out.
#[derive(Debug)]
pub struct Tracker {
    pub content: RleTree,
    pub id_to_cursor: CursorMap,
    pub head_vv: VersionVector,
    pub current_vv: VersionVector,
    pub client_id: PeerID,
}

impl View for Tracker {
    type V = Seq<Atom>;

    /// The items, in order.
    open spec fn view(&self) -> Seq<Atom> {
        self.content@
    }
}

/// An anchor that names the sentinel stands for no anchor.
pub open spec fn spec_normalize(o: Option<ID>) -> Option<ID> {
    match o {
        Some(id) => if id.peer == UNKNOWN_PEER {
            None
        } else {
            o
        },
        None => None,
    }
}

/// The anchor, or none where it names the sentinel.
pub fn normalize(o: Option<ID>) -> (r: Option<ID>)
    ensures
        r == spec_normalize(o),
{
    match o {
        Some(id) => if id.is_unknown() {
            None
        } else {
            o
        },
        None => None,
    }
}

impl Tracker {
    /// What holds of the items whatever version is checked out: they are the
    /// operations that `head_vv` holds, each once, every item stands right
    /// of its left origin and left of its right origin, and `id_to_cursor`
    /// names for every item the leaf that it rests in.
    pub open spec fn wf_core(self) -> bool {
        &&& self.content.wf()
        &&& self.head_vv.wf()
        &&& self.current_vv.wf()
        &&& model::positive(self.head_vv@)
        &&& model::known(self@, self.head_vv@)
        &&& model::complete(self@, self.head_vv@)
        &&& model::distinct_ids(self@)
        &&& model::anchored(self@)
        &&& self.content.indexed(self.id_to_cursor@)
    }

    /// A valid tracker: `wf_core`, and every item that the current version
    /// does not hold is marked as lying in the future.
    pub open spec fn wf(self) -> bool {
        &&& self.wf_core()
        &&& model::future_marked(self@, self.current_vv@)
    }

    /// The tracker shows the newest version.
    pub open spec fn is_live(self) -> bool {
        self.current_vv.entries@ == self.head_vv.entries@
    }

    /// An anchor is ready when it is absent, the sentinel, or integrated.
    pub open spec fn anchor_ready(self, o: Option<ID>) -> bool {
        o is Some ==> (o->Some_0.peer == UNKNOWN_PEER || self.head_vv.spec_includes(o->Some_0))
    }

    /// The items that `op` refers to are integrated: its origins, and the
    /// operation of its peer that precedes it.
    pub open spec fn spec_can_integrate(self, op: YSpan) -> bool {
        &&& self.anchor_ready(op.origin_left)
        &&& self.anchor_ready(op.origin_right)
        &&& op.id.counter != 0 ==> op.id.counter > i32::MIN && self.head_vv.spec_includes(
            ID { peer: op.id.peer, counter: (op.id.counter - 1) as Counter },
        )
    }

    /// `op` is a run of a real peer that the sequence can take, with
    /// counters and anchors that are not negative.
    pub open spec fn valid_op(self, op: YSpan) -> bool {
        &&& op.wf()
        &&& op.id.counter >= 0
        &&& op.id.peer != UNKNOWN_PEER
        &&& spec_normalize(op.origin_left) is Some ==> op.origin_left->Some_0.counter >= 0
        &&& spec_normalize(op.origin_right) is Some ==> op.origin_right->Some_0.counter >= 0
        &&& self@.len() + op.len <= usize::MAX
    }

    /// How many of the first items of `op` are integrated already.
    pub open spec fn known_prefix(self, op: YSpan) -> int {
        self.head_vv.spec_get(op.id.peer) - op.id.counter
    }

    /// The part of `op` that is new, as it is stored: anchors that name the
    /// sentinel are dropped, and the items are current if the tracker is live
    /// and lie in the future if it is not.
    pub open spec fn spec_fresh(self, op: YSpan) -> YSpan {
        let piece = op.spec_slice(self.known_prefix(op), op.len as int);
        YSpan {
            origin_left: spec_normalize(piece.origin_left),
            origin_right: spec_normalize(piece.origin_right),
            status: if self.is_live() {
                Status { future_count: 0, delete_times: 0 }
            } else {
                Status { future_count: 1, delete_times: 0 }
            },
            ..piece
        }
    }

    /// The position at which the new part of `op` is inserted.
    pub open spec fn spec_insert_pos(self, op: YSpan) -> int {
        let fresh = self.spec_fresh(op);
        yata_position(
            self@,
            fresh.id.peer,
            fresh.origin_left,
            fresh.origin_right,
            model::anchor_start(self@, fresh.origin_left),
            model::anchor_end(self@, fresh.origin_right),
        )
    }

    /// Nothing that a caller can see differs: the items, both versions,
    /// the cursor map and the replica's name are the same.
    pub open spec fn same_state(self, other: Tracker) -> bool {
        &&& self@ == other@
        &&& self.head_vv.entries@ == other.head_vv.entries@
        &&& self.current_vv.entries@ == other.current_vv.entries@
        &&& self.id_to_cursor@ == other.id_to_cursor@
        &&& self.client_id == other.client_id
    }

    /// An empty tracker for the replica `client_id`.
    pub fn new(client_id: PeerID) -> (t: Tracker)
        ensures
            t.wf(),
            t@ == Seq::<Atom>::empty(),
            t.client_id == client_id,
            t.head_vv@ == Map::<PeerID, Counter>::empty(),
            t.head_vv.entries@ == Seq::<ID>::empty(),
            t.current_vv.entries@ == Seq::<ID>::empty(),
            t.id_to_cursor@ == Map::<ID, crate::cursor_map::LeafHandle>::empty(),
            t.is_live(),
    {
        let t = Tracker {
            content: RleTree::new(),
            id_to_cursor: CursorMap::new(),
            head_vv: VersionVector::new(),
            current_vv: VersionVector::new(),
            client_id,
        };
        proof {
            assert forall|id: ID| id.counter >= 0 && t.head_vv.spec_includes(id) implies model::has_id(
                t@,
                id,
            ) by {}
        }
        t
    }

    /// The number of items, visible or not.
    pub fn len(&self) -> (n: usize)
        requires
            self.wf_core(),
        ensures
            n == self@.len(),
    {
        self.content.len()
    }

    /// Whether the items that `op` refers to are integrated.
    pub fn can_integrate(&self, op: &YSpan) -> (b: bool)
        requires
            self.wf_core(),
        ensures
            b == self.spec_can_integrate(*op),
    {
        match op.origin_left {
            Some(v) => {
                if !v.is_unknown() && !self.head_vv.includes_id(v) {
                    return false;
                }
            },
            None => {},
        }
        match op.origin_right {
            Some(v) => {
                if !v.is_unknown() && !self.head_vv.includes_id(v) {
                    return false;
                }
            },
            None => {},
        }
        if op.id.counter != 0 {
            if op.id.counter == i32::MIN {
                return false;
            }
            if !self.head_vv.includes_id(ID { peer: op.id.peer, counter: op.id.counter - 1 }) {
                return false;
            }
        }
        true
    }
}

} // verus!
