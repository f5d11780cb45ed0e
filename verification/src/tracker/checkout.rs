//! Moving between versions: retreat, forward and checkout.

use vstd::prelude::*;
use crate::id::{Counter, PeerID, ID};
use crate::span::IdSpan;
use crate::tracker::model::{
    future_marked, in_spans, includes, restyle_spans, restyled,
};
use crate::tracker::effects::{apply_effects, Effect};
use crate::tracker::Tracker;
use crate::version::{IdSpanVector, VersionVector};
use crate::y_span::{visible_ids, Atom, StatusChange};

verus! {

/// The entry of `m` for `p`, and 0 where it has none.
pub open spec fn get0(m: Map<PeerID, Counter>, p: PeerID) -> int {
    if m.contains_key(p) {
        m[p] as int
    } else {
        0
    }
}

/// The version `m`, raised to hold the end of every span.
pub open spec fn raised(m: Map<PeerID, Counter>, spans: Seq<IdSpan>) -> Map<PeerID, Counter>
    decreases spans.len(),
{
    if spans.len() == 0 {
        m
    } else {
        let r = raised(m, spans.drop_last());
        let s = spans.last();
        if s.counter.start < s.counter.end && s.counter.end > get0(r, s.peer) {
            r.insert(s.peer, s.counter.end)
        } else {
            r
        }
    }
}

/// The version `m`, lowered to the start of every span that reaches its peer's entry.
pub open spec fn lowered(m: Map<PeerID, Counter>, spans: Seq<IdSpan>) -> Map<PeerID, Counter>
    decreases spans.len(),
{
    if spans.len() == 0 {
        m
    } else {
        let r = lowered(m, spans.drop_last());
        let s = spans.last();
        if s.counter.start < s.counter.end && r.contains_key(s.peer) && s.counter.start
            < r[s.peer] <= s.counter.end {
            if s.counter.start <= 0 {
                r.remove(s.peer)
            } else {
                r.insert(s.peer, s.counter.start)
            }
        } else {
            r
        }
    }
}

/// The items as they are after a checkout of `target` from `current`: those
/// that only `current` holds move to the future, and those that only
/// `target` holds move back from it.
pub open spec fn checkout_atoms(
    atoms: Seq<Atom>,
    current: Map<PeerID, Counter>,
    target: Map<PeerID, Counter>,
) -> Seq<Atom> {
    Seq::new(
        atoms.len(),
        |j: int|
            if includes(current, atoms[j].id) && !includes(target, atoms[j].id) {
                restyled(atoms[j], StatusChange::SetAsFuture)
            } else if includes(target, atoms[j].id) && !includes(current, atoms[j].id) {
                restyled(atoms[j], StatusChange::SetAsCurrent)
            } else {
                atoms[j]
            },
    )
}

/// A raised version holds what it held, and the items of the spans.
pub proof fn lemma_raised(m: Map<PeerID, Counter>, spans: Seq<IdSpan>)
    ensures
        forall|id: ID| includes(m, id) ==> #[trigger] includes(raised(m, spans), id),
        forall|id: ID|
            id.counter >= 0 && in_spans(spans, id) ==> #[trigger] includes(raised(m, spans), id),
    decreases spans.len(),
{
    if spans.len() > 0 {
        let head = spans.drop_last();
        let s = spans.last();
        lemma_raised(m, head);
        let r = raised(m, head);
        assert forall|id: ID| id.counter >= 0 && in_spans(spans, id) implies #[trigger] includes(
            raised(m, spans),
            id,
        ) by {
            let k = choose|k: int| 0 <= k < spans.len() && (#[trigger] spans[k]).spec_contains(id);
            if k < spans.len() - 1 {
                assert(head[k].spec_contains(id));
                assert(in_spans(head, id));
                assert(includes(r, id));
            } else {
                assert(s.spec_contains(id));
            }
        }
        assert forall|id: ID| includes(m, id) implies #[trigger] includes(raised(m, spans), id) by {
            assert(includes(r, id));
        }
    }
}

impl Tracker {
    /// Applies `change` to the items named in `spans`.
    ///
    /// Where items are set as current, `current_vv` is raised to hold them.
    pub fn update_spans(&mut self, spans: &IdSpanVector, change: StatusChange)
        requires
            old(self).wf(),
            spans.wf(),
        ensures
            final(self).wf(),
            final(self)@ == restyle_spans(old(self)@, spans.spans@, change),
            final(self).head_vv.entries@ == old(self).head_vv.entries@,
            final(self).client_id == old(self).client_id,
            final(self).current_vv@ == (if change == StatusChange::SetAsCurrent {
                raised(old(self).current_vv@, spans.spans@)
            } else {
                old(self).current_vv@
            }),
            change != StatusChange::SetAsCurrent ==> final(self).current_vv.entries@ == old(
                self,
            ).current_vv.entries@,
    {
        let _ = self.update_spans_reporting(spans, change);
    }

    /// Applies `change` to the items named in `spans`, and returns the
    /// script that turns what was shown into what is shown.
    ///
    /// Where items are set as current, `current_vv` is raised to hold them.
    pub fn update_spans_reporting(&mut self, spans: &IdSpanVector, change: StatusChange) -> (script:
        Vec<Effect>)
        requires
            old(self).wf(),
            spans.wf(),
        ensures
            final(self).wf(),
            final(self)@ == restyle_spans(old(self)@, spans.spans@, change),
            final(self).head_vv.entries@ == old(self).head_vv.entries@,
            final(self).client_id == old(self).client_id,
            final(self).current_vv@ == (if change == StatusChange::SetAsCurrent {
                raised(old(self).current_vv@, spans.spans@)
            } else {
                old(self).current_vv@
            }),
            change != StatusChange::SetAsCurrent ==> final(self).current_vv.entries@ == old(
                self,
            ).current_vv.entries@,
            apply_effects(visible_ids(old(self)@), script@) == visible_ids(final(self)@),
    {
        let ghost before = *self;
        let script = self.apply_status(spans, change);
        let raise = match change {
            StatusChange::SetAsCurrent => true,
            _ => false,
        };
        if raise {
            let n = spans.spans.len();
            let mut i: usize = 0;
            while i < n
                invariant
                    n == spans.spans.len(),
                    i <= n,
                    self.wf_core(),
                    before.wf(),
                    self@ == restyle_spans(before@, spans.spans@, change),
                    self.head_vv.entries@ == before.head_vv.entries@,
                    self.client_id == before.client_id,
                    self.current_vv@ == raised(before.current_vv@, spans.spans@.take(i as int)),
                decreases n - i,
            {
                let s = spans.spans[i];
                proof {
                    assert(spans.spans@.take(i + 1).drop_last() =~= spans.spans@.take(i as int));
                }
                if s.counter.start < s.counter.end {
                    self.current_vv.set_end(ID { peer: s.peer, counter: s.counter.end });
                }
                i = i + 1;
            }
            proof {
                assert(spans.spans@.take(n as int) =~= spans.spans@);
                lemma_raised(before.current_vv@, spans.spans@);
                assert forall|j: int|
                    0 <= j < self@.len() && !includes(self.current_vv@, (#[trigger] self@[j]).id)
                        implies self@[j].status.future_count >= 1 by {
                    assert(self@[j].id == before@[j].id);
                    assert(before@[j].id.counter >= 0);
                    assert(!in_spans(spans.spans@, before@[j].id));
                    assert(!includes(before.current_vv@, before@[j].id));
                }
            }
        } else {
            proof {
                assert forall|j: int|
                    0 <= j < self@.len() && !includes(self.current_vv@, (#[trigger] self@[j]).id)
                        implies self@[j].status.future_count >= 1 by {
                    assert(self@[j].id == before@[j].id);
                    assert(before@[j].status.future_count >= 1);
                }
            }
        }
        script
    }

    /// Moves the items named in `spans` back from the future.
    pub fn forward(&mut self, spans: &IdSpanVector)
        requires
            old(self).wf(),
            spans.wf(),
        ensures
            final(self).wf(),
            final(self)@ == restyle_spans(old(self)@, spans.spans@, StatusChange::SetAsCurrent),
            final(self).head_vv.entries@ == old(self).head_vv.entries@,
            final(self).client_id == old(self).client_id,
            final(self).current_vv@ == raised(old(self).current_vv@, spans.spans@),
    {
        self.update_spans(spans, StatusChange::SetAsCurrent);
    }

    /// Moves the items named in `spans` to the future.
    ///
    /// `current_vv` is lowered to the start of each span that reaches its
    /// peer's entry, so that it stops holding the items of that span. A span
    /// that ends below the entry leaves the entry as it is: the version would
    /// otherwise stop holding items that were not retreated.
    pub fn retreat(&mut self, spans: &IdSpanVector)
        requires
            old(self).wf(),
            spans.wf(),
        ensures
            final(self).wf(),
            final(self)@ == restyle_spans(old(self)@, spans.spans@, StatusChange::SetAsFuture),
            final(self).head_vv.entries@ == old(self).head_vv.entries@,
            final(self).client_id == old(self).client_id,
            final(self).current_vv@ == lowered(old(self).current_vv@, spans.spans@),
    {
        let ghost before = *self;
        let _ = self.apply_status(spans, StatusChange::SetAsFuture);
        proof {
            assert forall|j: int| 0 <= j < self@.len() implies (in_spans(
                spans.spans@,
                (#[trigger] self@[j]).id,
            ) ==> self@[j].status.future_count >= 1) && (!includes(
                self.current_vv@,
                self@[j].id,
            ) ==> self@[j].status.future_count >= 1) by {
                assert(self@[j].id == before@[j].id);
                if !includes(before.current_vv@, before@[j].id) {
                    assert(before@[j].status.future_count >= 1);
                }
            }
        }
        let n = spans.spans.len();
        let mut i: usize = 0;
        while i < n
            invariant
                n == spans.spans.len(),
                i <= n,
                self.wf_core(),
                before.wf_core(),
                self@ == restyle_spans(before@, spans.spans@, StatusChange::SetAsFuture),
                self.head_vv.entries@ == before.head_vv.entries@,
                self.client_id == before.client_id,
                self.current_vv@ == lowered(before.current_vv@, spans.spans@.take(i as int)),
                forall|j: int|
                    0 <= j < self@.len() && in_spans(spans.spans@, (#[trigger] self@[j]).id)
                        ==> self@[j].status.future_count >= 1,
                future_marked(self@, self.current_vv@),
            decreases n - i,
        {
            let s = spans.spans[i];
            let ghost cur = self.current_vv@;
            proof {
                assert(spans.spans@.take(i + 1).drop_last() =~= spans.spans@.take(i as int));
            }
            if s.counter.start < s.counter.end {
                match self.current_vv.get(s.peer) {
                    Some(c) => {
                        if s.counter.start < c && c <= s.counter.end {
                            if s.counter.start <= 0 {
                                self.current_vv.remove(s.peer);
                            } else {
                                self.current_vv.insert(s.peer, s.counter.start);
                            }
                            proof {
                                assert forall|j: int|
                                    0 <= j < self@.len() && !includes(
                                        self.current_vv@,
                                        (#[trigger] self@[j]).id,
                                    ) implies self@[j].status.future_count >= 1 by {
                                    let id = self@[j].id;
                                    if includes(cur, id) {
                                        assert(id.peer == s.peer);
                                        assert(s.spec_contains(id)) by {
                                            assert(self@[j].id == before@[j].id);
                                            assert(crate::tracker::model::known(
                                                before@,
                                                before.head_vv@,
                                            ));
                                            assert(before@[j].id.counter >= 0);
                                        }
                                        assert(spans.spans@[i as int].spec_contains(id));
                                    }
                                }
                            }
                        }
                    },
                    None => {},
                }
            }
            i = i + 1;
        }
        proof {
            assert(spans.spans@.take(n as int) =~= spans.spans@);
        }
    }

    /// Shows the version `from`, then moves the items named in
    /// `effect_spans` back from the future, and returns the script that
    /// turns what the version `from` shows into what is shown then.
    pub fn apply_tracked_effects_from(
        &mut self,
        from: &VersionVector,
        effect_spans: &IdSpanVector,
    ) -> (script: Vec<Effect>)
        requires
            old(self).wf(),
            from.wf(),
            effect_spans.wf(),
        ensures
            final(self).wf(),
            final(self)@ == restyle_spans(
                checkout_atoms(old(self)@, old(self).current_vv@, from@),
                effect_spans.spans@,
                StatusChange::SetAsCurrent,
            ),
            final(self).current_vv@ == raised(from@, effect_spans.spans@),
            final(self).head_vv.entries@ == old(self).head_vv.entries@,
            final(self).client_id == old(self).client_id,
            apply_effects(
                visible_ids(checkout_atoms(old(self)@, old(self).current_vv@, from@)),
                script@,
            ) == visible_ids(final(self)@),
    {
        self.checkout(from);
        self.update_spans_reporting(effect_spans, StatusChange::SetAsCurrent)
    }

    /// Shows the version `target`: the items that the current version holds
    /// and `target` does not are retreated, those that `target` holds and the
    /// current version does not are forwarded, and `target` becomes the
    /// current version.
    pub fn checkout(&mut self, target: &VersionVector)
        requires
            old(self).wf(),
            target.wf(),
        ensures
            final(self).wf(),
            final(self)@ == checkout_atoms(old(self)@, old(self).current_vv@, target@),
            final(self).current_vv.entries@ == target.entries@,
            final(self).head_vv.entries@ == old(self).head_vv.entries@,
            final(self).client_id == old(self).client_id,
    {
        let ghost before = *self;
        let diff = self.current_vv.diff(target);
        let to_retreat = diff.left;
        let to_forward = diff.right;
        let _ = self.apply_status(&to_retreat, StatusChange::SetAsFuture);
        let ghost mid = self@;
        let _ = self.apply_status(&to_forward, StatusChange::SetAsCurrent);
        self.current_vv = target.duplicate();
        proof {
            let want = checkout_atoms(before@, before.current_vv@, target@);
            assert forall|j: int| 0 <= j < self@.len() implies #[trigger] self@[j] == want[j] by {
                let id = before@[j].id;
                assert(mid[j].id == id);
                assert(includes(before.head_vv@, id) && id.counter >= 0);
                assert(in_spans(to_retreat.spans@, id) == to_retreat.spec_contains(id));
                assert(in_spans(to_forward.spans@, id) == to_forward.spec_contains(id));
            }
            assert(self@ =~= want);
            assert forall|j: int|
                0 <= j < self@.len() && !includes(self.current_vv@, (#[trigger] self@[j]).id)
                    implies self@[j].status.future_count >= 1 by {
                let id = before@[j].id;
                assert(self@[j] == want[j]);
                if !includes(before.current_vv@, id) {
                    assert(before@[j].status.future_count >= 1);
                }
            }
        }
    }
}

} // verus!
