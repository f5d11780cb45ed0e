//! Identifiers of containers.
//!
//! A container is named either by a user-chosen name (a root container, which
//! exists without an operation creating it) or by the operation that created
//! it. The kind of the container is part of its identifier, so one name never
//! denotes containers of two kinds.

use vstd::prelude::*;
use crate::id::ID;
use crate::tracker::checkout::{checkout_atoms, lowered, raised};
use crate::tracker::effects::{apply_effects, Effect};
use crate::span::IdSpan;
use crate::tracker::model::restyle_spans;
use crate::tracker::query::{spans_ids, spans_merged};
use crate::tracker::{Tracker, TrackerError};
use crate::version::{IdSpanVector, VersionVector};
use crate::y_span::{visible_ids, StatusChange, YSpan};

verus! {

/// The kinds of container.
#[derive(Debug, PartialEq, Eq, Hash, Clone, Copy, Structural)]
pub enum ContainerType {
    Text,
    /// A map from keys to values.
    Mapping,
    List,
}

/// A container's identifier: how it is named, and its kind.
#[derive(Hash, PartialEq, Eq, Debug, Clone)]
pub enum ContainerID {
    /// A root container needs no operation to create it.
    Root { name: String, container_type: ContainerType },
    Normal { id: ID, container_type: ContainerType },
}

/// How a container is named, without its kind.
#[derive(Debug)]
pub enum ContainerIdRaw {
    Root { name: String },
    Normal { id: ID },
}

impl ContainerIdRaw {
    /// The identifier with this naming and the given kind.
    pub open spec fn spec_with_type(self, container_type: ContainerType) -> ContainerID {
        match self {
            ContainerIdRaw::Root { name } => ContainerID::Root { name, container_type },
            ContainerIdRaw::Normal { id } => ContainerID::Normal { id, container_type },
        }
    }

    /// The identifier with this naming and the kind `container_type`.
    pub fn with_type(self, container_type: ContainerType) -> (cid: ContainerID)
        ensures
            cid == self.spec_with_type(container_type),
    {
        match self {
            ContainerIdRaw::Root { name } => ContainerID::Root { name, container_type },
            ContainerIdRaw::Normal { id } => ContainerID::Normal { id, container_type },
        }
    }

    /// The naming of a root container called `name`.
    pub fn from_name(name: &str) -> (raw: ContainerIdRaw)
        ensures
            raw is Root,
            raw->Root_name@ == name@,
    {
        ContainerIdRaw::Root { name: name.to_owned() }
    }

    /// The naming that `cid` has.
    pub fn from_container_id(cid: &ContainerID) -> (raw: ContainerIdRaw)
        ensures
            match *cid {
                ContainerID::Root { name, .. } => raw is Root && raw->Root_name@ == name@,
                ContainerID::Normal { id, .. } => raw == (ContainerIdRaw::Normal { id }),
            },
    {
        match cid {
            ContainerID::Root { name, .. } => ContainerIdRaw::Root { name: name.clone() },
            ContainerID::Normal { id, .. } => ContainerIdRaw::Normal { id: *id },
        }
    }
}

impl From<ID> for ContainerIdRaw {
    fn from(id: ID) -> (raw: ContainerIdRaw) {
        ContainerIdRaw::Normal { id }
    }
}

impl vstd::std_specs::convert::FromSpecImpl<ID> for ContainerIdRaw {
    open spec fn obeys_from_spec() -> bool {
        true
    }

    open spec fn from_spec(id: ID) -> ContainerIdRaw {
        ContainerIdRaw::Normal { id }
    }
}

impl From<ContainerID> for ContainerIdRaw {
    fn from(cid: ContainerID) -> (raw: ContainerIdRaw) {
        match cid {
            ContainerID::Root { name, .. } => ContainerIdRaw::Root { name },
            ContainerID::Normal { id, .. } => ContainerIdRaw::Normal { id },
        }
    }
}

impl vstd::std_specs::convert::FromSpecImpl<ContainerID> for ContainerIdRaw {
    open spec fn obeys_from_spec() -> bool {
        true
    }

    open spec fn from_spec(cid: ContainerID) -> ContainerIdRaw {
        match cid {
            ContainerID::Root { name, .. } => ContainerIdRaw::Root { name },
            ContainerID::Normal { id, .. } => ContainerIdRaw::Normal { id },
        }
    }
}

impl ContainerID {
    /// The kind of the container.
    pub open spec fn spec_container_type(self) -> ContainerType {
        match self {
            ContainerID::Root { container_type, .. } => container_type,
            ContainerID::Normal { container_type, .. } => container_type,
        }
    }

    /// The identifier of the container of kind `container_type` that the operation `id`
    /// created.
    pub fn new_normal(id: ID, container_type: ContainerType) -> (cid: ContainerID)
        ensures
            cid == (ContainerID::Normal { id, container_type }),
    {
        ContainerID::Normal { id, container_type }
    }

    /// The identifier of the root container of kind `container_type` called `name`.
    pub fn new_root(name: &str, container_type: ContainerType) -> (cid: ContainerID)
        ensures
            cid is Root,
            cid->Root_name@ == name@,
            cid.spec_container_type() == container_type,
    {
        ContainerID::Root { name: name.to_owned(), container_type }
    }

    /// Whether the container is a root container.
    pub fn is_root(&self) -> (b: bool)
        ensures
            b == (*self is Root),
    {
        match self {
            ContainerID::Root { .. } => true,
            ContainerID::Normal { .. } => false,
        }
    }

    /// Whether an operation created the container.
    pub fn is_normal(&self) -> (b: bool)
        ensures
            b == (*self is Normal),
    {
        match self {
            ContainerID::Root { .. } => false,
            ContainerID::Normal { .. } => true,
        }
    }

    /// The name of a root container.
    pub fn name(&self) -> (name: &String)
        requires
            *self is Root,
        ensures
            *name == self->Root_name,
    {
        match self {
            ContainerID::Root { name, .. } => name,
            ContainerID::Normal { .. } => vstd::pervasive::unreached(),
        }
    }

    /// The kind of the container.
    pub fn container_type(&self) -> (t: ContainerType)
        ensures
            t == self.spec_container_type(),
    {
        match self {
            ContainerID::Root { container_type, .. } => *container_type,
            ContainerID::Normal { container_type, .. } => *container_type,
        }
    }
}

/// A container of a document: it has an identifier, and it follows the
/// versions of the document with a tracker.
pub trait Container {
    /// The identifier of the container.
    spec fn spec_id(&self) -> ContainerID;

    /// The tracker of the container.
    spec fn spec_tracker(&self) -> Tracker;

    fn id(&self) -> (id: &ContainerID)
        ensures
            *id == self.spec_id(),
    ;

    fn type_(&self) -> (t: ContainerType)
        ensures
            t == self.spec_id().spec_container_type(),
    ;

    /// What the container shows: its visible items, as spans of
    /// identifiers in the order of the sequence, each as long as it can be.
    fn get_value(&self) -> (spans: Vec<IdSpan>)
        requires
            self.spec_tracker().wf(),
        ensures
            spans_ids(spans@) == visible_ids(self.spec_tracker()@),
            spans_merged(spans@),
    ;

    /// Moves the items named in `spans` to the future.
    fn track_retreat(&mut self, spans: &IdSpanVector)
        requires
            old(self).spec_tracker().wf(),
            spans.wf(),
        ensures
            final(self).spec_id() == old(self).spec_id(),
            final(self).spec_tracker().wf(),
            final(self).spec_tracker()@ == restyle_spans(
                old(self).spec_tracker()@,
                spans.spans@,
                StatusChange::SetAsFuture,
            ),
            final(self).spec_tracker().current_vv@ == lowered(
                old(self).spec_tracker().current_vv@,
                spans.spans@,
            ),
    ;

    /// Moves the items named in `spans` back from the future.
    fn track_forward(&mut self, spans: &IdSpanVector)
        requires
            old(self).spec_tracker().wf(),
            spans.wf(),
        ensures
            final(self).spec_id() == old(self).spec_id(),
            final(self).spec_tracker().wf(),
            final(self).spec_tracker()@ == restyle_spans(
                old(self).spec_tracker()@,
                spans.spans@,
                StatusChange::SetAsCurrent,
            ),
            final(self).spec_tracker().current_vv@ == raised(
                old(self).spec_tracker().current_vv@,
                spans.spans@,
            ),
    ;

    /// Integrates the insertion `op`.
    fn track_apply(&mut self, op: YSpan) -> (r: Result<(), TrackerError>)
        requires
            old(self).spec_tracker().wf(),
        ensures
            final(self).spec_id() == old(self).spec_id(),
            final(self).spec_tracker().wf(),
            old(self).spec_tracker().integrate_result(op, final(self).spec_tracker(), r),
    ;

    /// Shows the version `vv`.
    fn tracker_checkout(&mut self, vv: &VersionVector)
        requires
            old(self).spec_tracker().wf(),
            vv.wf(),
        ensures
            final(self).spec_id() == old(self).spec_id(),
            final(self).spec_tracker().wf(),
            final(self).spec_tracker()@ == checkout_atoms(
                old(self).spec_tracker()@,
                old(self).spec_tracker().current_vv@,
                vv@,
            ),
            final(self).spec_tracker().current_vv.entries@ == vv.entries@,
    ;

    /// Shows the version `from`, moves the items named in `effect_spans`
    /// back from the future, and returns the script that turns what the
    /// version `from` shows into what is shown then.
    fn apply_tracked_effects_from(&mut self, from: &VersionVector, effect_spans: &IdSpanVector) -> (script:
        Vec<Effect>)
        requires
            old(self).spec_tracker().wf(),
            from.wf(),
            effect_spans.wf(),
        ensures
            final(self).spec_id() == old(self).spec_id(),
            final(self).spec_tracker().wf(),
            final(self).spec_tracker()@ == restyle_spans(
                checkout_atoms(
                    old(self).spec_tracker()@,
                    old(self).spec_tracker().current_vv@,
                    from@,
                ),
                effect_spans.spans@,
                StatusChange::SetAsCurrent,
            ),
            apply_effects(
                visible_ids(
                    checkout_atoms(
                        old(self).spec_tracker()@,
                        old(self).spec_tracker().current_vv@,
                        from@,
                    ),
                ),
                script@,
            ) == visible_ids(final(self).spec_tracker()@),
    ;
}

/// A list or a text: a container whose content is one sequence.
#[derive(Debug)]
pub struct SequenceContainer {
    pub id: ContainerID,
    pub tracker: Tracker,
}

impl SequenceContainer {
    /// An empty sequence named `id`, for the replica `client_id`.
    pub fn new(id: ContainerID, client_id: crate::id::PeerID) -> (c: SequenceContainer)
        ensures
            c.id == id,
            c.tracker.wf(),
            c.tracker@ == Seq::<crate::y_span::Atom>::empty(),
            c.tracker.client_id == client_id,
    {
        SequenceContainer { id, tracker: Tracker::new(client_id) }
    }
}

impl Container for SequenceContainer {
    open spec fn spec_id(&self) -> ContainerID {
        self.id
    }

    open spec fn spec_tracker(&self) -> Tracker {
        self.tracker
    }

    fn id(&self) -> (id: &ContainerID) {
        &self.id
    }

    fn type_(&self) -> (t: ContainerType) {
        self.id.container_type()
    }

    fn get_value(&self) -> (spans: Vec<IdSpan>) {
        self.tracker.iter_visible()
    }

    fn track_retreat(&mut self, spans: &IdSpanVector) {
        self.tracker.retreat(spans);
    }

    fn track_forward(&mut self, spans: &IdSpanVector) {
        self.tracker.forward(spans);
    }

    fn track_apply(&mut self, op: YSpan) -> (r: Result<(), TrackerError>) {
        self.tracker.integrate(op)
    }

    fn tracker_checkout(&mut self, vv: &VersionVector) {
        self.tracker.checkout(vv);
    }

    fn apply_tracked_effects_from(&mut self, from: &VersionVector, effect_spans: &IdSpanVector) -> (script:
        Vec<Effect>) {
        self.tracker.apply_tracked_effects_from(from, effect_spans)
    }
}

} // verus!
