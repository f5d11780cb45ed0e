//! Changing the status of items.

use vstd::prelude::*;
use crate::id::{Counter, ID};
use crate::span::{CounterSpan, IdSpan};
use crate::tracker::effects::{
    apply_effect, apply_effects, lemma_apply_effects_add, lemma_restyle_visible, spec_effect,
    Effect,
};
use crate::tracker::model::{
    has_id, in_spans, includes, lemma_restyle_range_is_span, lemma_restyle_range_step, lemma_restyle_spans_push, lemma_skeleton, restyle_range, restyle_spans, restyled,
};
use crate::tracker::Tracker;
use crate::version::IdSpanVector;
use crate::y_span::{visible_ids, visible_len, StatusChange};

verus! {

impl Tracker {
    /// The versions and the replica are those of `other`.
    pub open spec fn same_versions(self, other: Tracker) -> bool {
        &&& self.head_vv.entries@ == other.head_vv.entries@
        &&& self.current_vv.entries@ == other.current_vv.entries@
        &&& self.client_id == other.client_id
    }

    /// Applies `change` to the item at `pos` and to the items that follow it
    /// in its run, `max` items at most. Returns how many items it changed,
    /// and the step that shows how this changes what is shown, if it does.
    pub(crate) fn restyle_run(&mut self, pos: usize, max: usize, change: StatusChange) -> (r: (
        usize,
        Option<Effect>,
    ))
        requires
            old(self).wf_core(),
            pos < old(self)@.len(),
            max >= 1,
        ensures
            final(self).wf_core(),
            final(self).same_versions(*old(self)),
            1 <= r.0 <= max,
            pos + r.0 <= old(self)@.len(),
            final(self)@.len() == old(self)@.len(),
            forall|t: int|
                0 <= t < r.0 ==> (#[trigger] old(self)@[pos + t]).id == old(self)@[pos as int].id.spec_inc(
                    t,
                ) && final(self)@[pos + t] == restyled(old(self)@[pos + t], change),
            old(self)@[pos as int].id.counter + r.0 <= i32::MAX,
            forall|j: int|
                0 <= j < old(self)@.len() && !(pos <= j < pos + r.0) ==> #[trigger] final(self)@[j]
                    == old(self)@[j],
            r.1 == spec_effect(
                old(self)@[pos as int].id,
                r.0,
                visible_len(old(self)@.take(pos as int)) as usize,
                old(self)@[pos as int].status,
                old(self)@[pos as int].status.spec_apply(change),
            ),
            visible_ids(final(self)@) == (match r.1 {
                Some(e) => apply_effect(visible_ids(old(self)@), e),
                None => visible_ids(old(self)@),
            }),
    {
        let ghost before = self@;
        let first = self.content.atom_at(pos);
        let shown_before = self.content.visible_before(pos);
        let k = self.content.restyle(pos, max, change, &mut self.id_to_cursor);
        proof {
            let after = self@;
            assert forall|j: int| 0 <= j < before.len() implies (#[trigger] before[j]).id
                == after[j].id && before[j].origin_left == after[j].origin_left
                && before[j].origin_right == after[j].origin_right by {
                if pos <= j < pos + k {
                    let t = j - pos;
                    assert(after[pos + t].id == before[pos + t].id);
                } else {
                    assert(after[j] == before[j]);
                }
            }
            lemma_skeleton(before, after, self.head_vv@);
            lemma_restyle_visible(before, after, pos as int, k as int, change);
        }
        let was = first.status.is_visible();
        let mut status = first.status;
        status.apply_change(change);
        let now = status.is_visible();
        let effect = if was == now {
            None
        } else if now {
            Some(
                Effect::Ins {
                    pos: shown_before,
                    content: IdSpan {
                        peer: first.id.peer,
                        counter: CounterSpan {
                            start: first.id.counter,
                            end: first.id.counter + k as i32,
                        },
                    },
                },
            )
        } else {
            Some(Effect::Del { pos: shown_before, len: k })
        };
        (k, effect)
    }

    /// Applies `change` to the items named in `span`, and returns the
    /// script that turns what was shown into what is shown.
    pub(crate) fn restyle_span(&mut self, span: IdSpan, change: StatusChange) -> (script: Vec<Effect>)
        requires
            old(self).wf_core(),
        ensures
            final(self).wf_core(),
            final(self).same_versions(*old(self)),
            final(self)@ == restyle_spans(old(self)@, seq![span], change),
            apply_effects(visible_ids(old(self)@), script@) == visible_ids(final(self)@),
    {
        let mut script: Vec<Effect> = Vec::new();
        let have = self.head_vv.get_or_zero(span.peer);
        proof {
            if self.head_vv@.contains_key(span.peer) {
                assert(self.head_vv@[span.peer] > 0);
            }
        }
        let lo: i32 = if span.counter.start > 0 {
            span.counter.start
        } else {
            0
        };
        let top: i32 = if span.counter.end < have {
            span.counter.end
        } else {
            have
        };
        let hi: i32 = if top > lo {
            top
        } else {
            lo
        };
        let mut c: i32 = lo;
        let ghost start_atoms = self@;
        proof {
            assert(self@ =~= restyle_range(start_atoms, span.peer, lo as int, lo as int, change));
        }
        while c < hi
            invariant
                self.wf_core(),
                self.same_versions(*old(self)),
                old(self).wf_core(),
                start_atoms == old(self)@,
                0 <= lo <= c <= hi,
                hi <= have || c == hi,
                have == self.head_vv.spec_get(span.peer),
                self@ == restyle_range(start_atoms, span.peer, lo as int, c as int, change),
                apply_effects(visible_ids(start_atoms), script@) == visible_ids(self@),
            decreases hi - c,
        {
            let id = ID { peer: span.peer, counter: c };
            let ghost cur = self@;
            proof {
                assert(includes(self.head_vv@, id));
                assert(has_id(self@, id));
            }
            match self.get_cursor(id) {
                Some(at) => {
                    let pos = at.pos;
                    let (k, effect) = self.restyle_run(pos, (hi - c) as usize, change);
                    proof {
                        assert forall|t: int| 0 <= t < k implies (#[trigger] cur[pos + t]).id == (ID {
                            peer: span.peer,
                            counter: (c + t) as Counter,
                        }) && self@[pos + t] == restyled(cur[pos + t], change) by {
                            assert(cur[pos + t].id == cur[pos as int].id.spec_inc(t));
                        }
                        lemma_restyle_range_step(
                            start_atoms,
                            cur,
                            self@,
                            span.peer,
                            lo as int,
                            c as int,
                            pos as int,
                            k as int,
                            change,
                        );
                    }
                    match effect {
                        Some(e) => {
                            proof {
                                assert(script@.push(e).drop_last() =~= script@);
                            }
                            script.push(e);
                        },
                        None => {},
                    }
                    c = c + k as i32;
                },
                None => {
                    c = hi;
                },
            }
        }
        proof {
            lemma_restyle_range_is_span(
                start_atoms,
                old(self).head_vv@,
                span,
                lo as int,
                hi as int,
                change,
            );
        }
        script
    }

    /// Applies `change` to the items named in `spans`, leaves the versions
    /// as they are, and returns the script that turns what was shown into
    /// what is shown.
    pub(crate) fn apply_status(&mut self, spans: &IdSpanVector, change: StatusChange) -> (script: Vec<
        Effect,
    >)
        requires
            old(self).wf_core(),
            spans.wf(),
        ensures
            final(self).wf_core(),
            final(self).same_versions(*old(self)),
            final(self)@ == restyle_spans(old(self)@, spans.spans@, change),
            apply_effects(visible_ids(old(self)@), script@) == visible_ids(final(self)@),
    {
        let mut script: Vec<Effect> = Vec::new();
        let n = spans.spans.len();
        let mut i: usize = 0;
        proof {
            assert(self@ =~= restyle_spans(self@, spans.spans@.take(0), change)) by {
                assert forall|j: int| 0 <= j < self@.len() implies !in_spans(
                    spans.spans@.take(0),
                    (#[trigger] self@[j]).id,
                ) by {}
            }
        }
        while i < n
            invariant
                n == spans.spans.len(),
                i <= n,
                spans.wf(),
                self.wf_core(),
                self.same_versions(*old(self)),
                self@ == restyle_spans(old(self)@, spans.spans@.take(i as int), change),
                apply_effects(visible_ids(old(self)@), script@) == visible_ids(self@),
            decreases n - i,
        {
            let span = spans.spans[i];
            proof {
                let done = spans.spans@.take(i as int);
                assert forall|k: int| 0 <= k < done.len() implies !(#[trigger] done[k]).spec_overlaps(
                    span,
                ) by {
                    assert(!spans.spans[k].spec_overlaps(spans.spans[i as int]));
                }
                lemma_restyle_spans_push(old(self)@, done, span, change);
                assert(spans.spans@.take(i + 1) =~= done.push(span));
            }
            let mut more = self.restyle_span(span, change);
            proof {
                lemma_apply_effects_add(visible_ids(old(self)@), script@, more@);
            }
            script.append(&mut more);
            i = i + 1;
        }
        proof {
            assert(spans.spans@.take(n as int) =~= spans.spans@);
        }
        script
    }
}

} // verus!
