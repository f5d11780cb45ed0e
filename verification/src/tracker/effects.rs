//! How a change of status changes what is shown.

use vstd::prelude::*;
use crate::id::{Counter, ID};
use crate::span::{CounterSpan, IdSpan};
use crate::tracker::laws::lemma_visible_same;
use crate::tracker::query::{lemma_run_visible_ids, lemma_visible_ids_add, span_ids};
use crate::y_span::{visible_ids, visible_len, Atom, Status, StatusChange, YSpan};

verus! {

/// One step of an edit script on the visible sequence.
#[derive(Clone, Copy, Debug, PartialEq, Eq, Structural)]
pub enum Effect {
    /// The items named in `content` appear before the visible item at `pos`.
    Ins { pos: usize, content: IdSpan },
    /// The `len` visible items from the visible position `pos` on disappear.
    Del { pos: usize, len: usize },
}

/// The visible sequence `s` after the step `e`.
pub open spec fn apply_effect(s: Seq<ID>, e: Effect) -> Seq<ID> {
    match e {
        Effect::Ins { pos, content } => s.take(pos as int) + span_ids(content) + s.skip(pos as int),
        Effect::Del { pos, len } => s.take(pos as int) + s.skip(pos + len),
    }
}

/// The visible sequence `s` after the steps of `script`, in order.
pub open spec fn apply_effects(s: Seq<ID>, script: Seq<Effect>) -> Seq<ID>
    decreases script.len(),
{
    if script.len() == 0 {
        s
    } else {
        apply_effect(apply_effects(s, script.drop_last()), script.last())
    }
}

/// Two scripts one after the other are one script.
pub proof fn lemma_apply_effects_add(s: Seq<ID>, a: Seq<Effect>, b: Seq<Effect>)
    ensures
        apply_effects(s, a + b) == apply_effects(apply_effects(s, a), b),
    decreases b.len(),
{
    if b.len() == 0 {
        assert(a + b =~= a);
    } else {
        assert((a + b).drop_last() =~= a + b.drop_last());
        lemma_apply_effects_add(s, a, b.drop_last());
    }
}

/// The step that shows how the visible sequence changes when `k` items of
/// one run at `pos`, which `before` visible items precede, change their
/// status from `was` to `now`; `None` where it does not change.
pub open spec fn spec_effect(first: ID, k: usize, before: usize, was: Status, now: Status) -> Option<
    Effect,
> {
    if was.spec_is_visible() == now.spec_is_visible() {
        None
    } else if now.spec_is_visible() {
        Some(
            Effect::Ins {
                pos: before,
                content: IdSpan {
                    peer: first.peer,
                    counter: CounterSpan {
                        start: first.counter,
                        end: (first.counter + k) as Counter,
                    },
                },
            },
        )
    } else {
        Some(Effect::Del { pos: before, len: k })
    }
}

/// The step of `spec_effect` turns what was shown into what is shown.
pub proof fn lemma_restyle_visible(
    before: Seq<Atom>,
    after: Seq<Atom>,
    pos: int,
    k: int,
    change: StatusChange,
)
    requires
        0 <= pos,
        1 <= k,
        pos + k <= before.len(),
        before.len() <= usize::MAX,
        after.len() == before.len(),
        before[pos].id.counter + k <= i32::MAX,
        forall|t: int|
            0 <= t < k ==> (#[trigger] before[pos + t]).id == before[pos].id.spec_inc(t)
                && before[pos + t].status == before[pos].status,
        forall|t: int|
            0 <= t < k ==> #[trigger] after[pos + t] == (Atom {
                status: before[pos + t].status.spec_apply(change),
                ..before[pos + t]
            }),
        forall|j: int| 0 <= j < before.len() && !(pos <= j < pos + k) ==> #[trigger] after[j]
            == before[j],
    ensures
        visible_ids(after) == (match spec_effect(
            before[pos].id,
            k as usize,
            visible_len(before.take(pos)) as usize,
            before[pos].status,
            before[pos].status.spec_apply(change),
        ) {
            Some(e) => apply_effect(visible_ids(before), e),
            None => visible_ids(before),
        }),
{
    let was = before[pos].status;
    let now = was.spec_apply(change);
    let head = before.take(pos);
    let mid0 = before.subrange(pos, pos + k);
    let mid1 = after.subrange(pos, pos + k);
    let tail = before.skip(pos + k);
    assert(before =~= head + mid0 + tail);
    assert(after =~= head + mid1 + tail);
    lemma_visible_ids_add(head + mid0, tail);
    lemma_visible_ids_add(head, mid0);
    lemma_visible_ids_add(head + mid1, tail);
    lemma_visible_ids_add(head, mid1);
    let run0 = YSpan { id: before[pos].id, len: k as usize, origin_left: None, origin_right: None, status: was };
    let run1 = YSpan { status: now, ..run0 };
    assert forall|j: int| 0 <= j < k implies (#[trigger] mid0[j]).id == run0.atoms()[j].id
        && mid0[j].status.spec_is_visible() == run0.atoms()[j].status.spec_is_visible() by {
        assert(mid0[j] == before[pos + j]);
    }
    assert forall|j: int| 0 <= j < k implies (#[trigger] mid1[j]).id == run1.atoms()[j].id
        && mid1[j].status.spec_is_visible() == run1.atoms()[j].status.spec_is_visible() by {
        assert(mid1[j] == after[pos + j]);
        assert(before[pos + j].status == was);
    }
    lemma_visible_same(mid0, run0.atoms());
    lemma_visible_same(mid1, run1.atoms());
    lemma_run_visible_ids(run0);
    lemma_run_visible_ids(run1);
    let shown = visible_ids(before);
    let v = visible_len(head) as int;
    assert(visible_ids(head).len() == v);
    crate::y_span::lemma_visible_len_add(head, Seq::empty());
    assert(v <= head.len());
    if was.spec_is_visible() == now.spec_is_visible() {
        assert(visible_ids(after) =~= shown);
    } else if now.spec_is_visible() {
        assert(shown =~= visible_ids(head) + visible_ids(tail));
        assert(shown.take(v) =~= visible_ids(head));
        assert(shown.skip(v) =~= visible_ids(tail));
        assert(visible_ids(after) =~= shown.take(v) + span_ids(run1.id_span()) + shown.skip(v));
    } else {
        assert(span_ids(run0.id_span()).len() == k);
        assert(shown =~= visible_ids(head) + span_ids(run0.id_span()) + visible_ids(tail));
        assert(shown.take(v) =~= visible_ids(head));
        assert(shown.skip(v + k) =~= visible_ids(tail));
        assert(visible_ids(after) =~= shown.take(v) + shown.skip(v + k));
    }
}

} // verus!
