//! What holds of every tracker.

use vstd::prelude::*;
use crate::id::ID;
use crate::tracker::checkout::checkout_atoms;
use crate::tracker::model::{both_ok, includes, lemma_index_of, restyle_spans};
use crate::tracker::{Tracker, TrackerError};
use crate::version::{IdSpanVector, VersionVector};
use crate::y_span::{visible_ids, Atom, StatusChange, YSpan};

verus! {

/// Two sequences of the same items, visible in the one where they are
/// visible in the other, show the same.
pub proof fn lemma_visible_same(a: Seq<Atom>, b: Seq<Atom>)
    requires
        a.len() == b.len(),
        forall|j: int|
            0 <= j < a.len() ==> (#[trigger] a[j]).id == b[j].id && a[j].status.spec_is_visible()
                == b[j].status.spec_is_visible(),
    ensures
        visible_ids(a) == visible_ids(b),
    decreases a.len(),
{
    let p = |x: Atom| x.status.spec_is_visible();
    let f = |x: Atom| x.id;
    if a.len() == 0 {
        assert(a.filter(p) =~= Seq::<Atom>::empty()) by {
            reveal(Seq::filter);
        }
        assert(b.filter(p) =~= Seq::<Atom>::empty()) by {
            reveal(Seq::filter);
        }
        assert(visible_ids(a) =~= visible_ids(b));
    } else {
        let a0 = a.drop_last();
        let b0 = b.drop_last();
        assert forall|j: int| 0 <= j < a0.len() implies (#[trigger] a0[j]).id == b0[j].id
            && a0[j].status.spec_is_visible() == b0[j].status.spec_is_visible() by {
            assert(a0[j] == a[j]);
            assert(b0[j] == b[j]);
        }
        lemma_visible_same(a0, b0);
        assert(a.filter(p) == if p(a.last()) {
            a0.filter(p).push(a.last())
        } else {
            a0.filter(p)
        }) by {
            reveal(Seq::filter);
        }
        assert(b.filter(p) == if p(b.last()) {
            b0.filter(p).push(b.last())
        } else {
            b0.filter(p)
        }) by {
            reveal(Seq::filter);
        }
        assert(a.last() == a[a.len() - 1]);
        assert(b.last() == b[b.len() - 1]);
        if p(a.last()) {
            assert(a.filter(p).map_values(f) =~= a0.filter(p).map_values(f).push(a.last().id));
            assert(b.filter(p).map_values(f) =~= b0.filter(p).map_values(f).push(b.last().id));
        }
        assert(visible_ids(a) =~= visible_ids(b));
    }
}

/// Integrating an operation whose items `head_vv` holds already changes nothing.
pub proof fn law_reintegration_changes_nothing(
    before: Tracker,
    op: YSpan,
    after: Tracker,
    r: Result<(), TrackerError>,
)
    requires
        before.wf(),
        before.integrate_result(op, after, r),
        forall|k: int| 0 <= k < op.len ==> #[trigger] before.head_vv.spec_includes(op.id.spec_inc(k)),
    ensures
        after.same_state(before),
{
    if r is Ok {
        assert(op.len >= 1);
        assert(before.head_vv.spec_includes(op.id.spec_inc(op.len - 1)));
    }
}

/// Integrating an operation a second time changes nothing.
pub proof fn law_integrate_twice(
    first: Tracker,
    op: YSpan,
    second: Tracker,
    third: Tracker,
    r: Result<(), TrackerError>,
)
    requires
        first.wf(),
        second.wf(),
        first.integrate_result(op, second, Ok(())),
        second.integrate_result(op, third, r),
    ensures
        third.same_state(second),
{
    assert forall|k: int| 0 <= k < op.len implies #[trigger] second.head_vv.spec_includes(
        op.id.spec_inc(k),
    ) by {
        if first.known_prefix(op) >= op.len {
            assert(second.head_vv.entries@ == first.head_vv.entries@);
        }
    }
    law_reintegration_changes_nothing(second, op, third, r);
}

/// A retreat of some items followed by a forward of the same items shows
/// what was shown before.
pub proof fn law_retreat_forward_cancels(tracker: Tracker, spans: IdSpanVector)
    ensures
        visible_ids(
            restyle_spans(
                restyle_spans(tracker@, spans.spans@, StatusChange::SetAsFuture),
                spans.spans@,
                StatusChange::SetAsCurrent,
            ),
        ) == visible_ids(tracker@),
{
    let a = tracker@;
    let mid = restyle_spans(a, spans.spans@, StatusChange::SetAsFuture);
    let b = restyle_spans(mid, spans.spans@, StatusChange::SetAsCurrent);
    assert forall|j: int| 0 <= j < a.len() implies (#[trigger] b[j]).id == a[j].id
        && b[j].status.spec_is_visible() == a[j].status.spec_is_visible() by {
        assert(mid[j].id == a[j].id);
    }
    lemma_visible_same(b, a);
}

/// Where no count of retreats stands at its upper end, a retreat of some
/// items followed by a forward of the same items leaves every item as it was.
pub proof fn law_retreat_forward_restores(tracker: Tracker, spans: IdSpanVector)
    requires
        forall|j: int|
            0 <= j < tracker@.len() ==> (#[trigger] tracker@[j]).status.future_count < u32::MAX,
    ensures
        restyle_spans(
            restyle_spans(tracker@, spans.spans@, StatusChange::SetAsFuture),
            spans.spans@,
            StatusChange::SetAsCurrent,
        ) == tracker@,
{
    let a = tracker@;
    let mid = restyle_spans(a, spans.spans@, StatusChange::SetAsFuture);
    let b = restyle_spans(mid, spans.spans@, StatusChange::SetAsCurrent);
    assert forall|j: int| 0 <= j < a.len() implies #[trigger] b[j] == a[j] by {
        assert(mid[j].id == a[j].id);
        assert(a[j].status.future_count < u32::MAX);
    }
    assert(b =~= a);
}

/// Checking out a version, then another, then the first again shows what
/// the first checkout showed.
pub proof fn law_checkout_round_trip(tracker: Tracker, first: VersionVector, second: VersionVector)
    requires
        tracker.wf(),
    ensures
        visible_ids(
            checkout_atoms(
                checkout_atoms(
                    checkout_atoms(tracker@, tracker.current_vv@, first@),
                    first@,
                    second@,
                ),
                second@,
                first@,
            ),
        ) == visible_ids(checkout_atoms(tracker@, tracker.current_vv@, first@)),
{
    let a = tracker@;
    let c1 = checkout_atoms(a, tracker.current_vv@, first@);
    let c2 = checkout_atoms(c1, first@, second@);
    let c3 = checkout_atoms(c2, second@, first@);
    assert forall|j: int| 0 <= j < c1.len() implies (#[trigger] c3[j]).id == c1[j].id
        && c3[j].status.spec_is_visible() == c1[j].status.spec_is_visible() by {
        assert(c1[j].id == a[j].id);
        assert(c2[j].id == a[j].id);
        if !includes(first@, a[j].id) {
            if !includes(tracker.current_vv@, a[j].id) {
                assert(a[j].status.future_count >= 1);
            }
            assert(c1[j].status.future_count >= 1);
        }
    }
    lemma_visible_same(c3, c1);
}

/// For every operation that `head_vv` holds, `id_to_cursor` names a leaf
/// of the tree that holds the item of that name.
pub proof fn law_cursor_integrity(tracker: Tracker, id: ID)
    requires
        tracker.wf(),
        tracker.head_vv.spec_includes(id),
        id.counter >= 0,
    ensures
        tracker.id_to_cursor@.contains_key(id),
        tracker.content.root.leaf_holds(tracker.id_to_cursor@[id], id),
{
    assert(crate::tracker::model::has_id(tracker@, id));
    crate::rle_tree::node::Node::Internal(tracker.content.root).lemma_indexed_holds(
        tracker.id_to_cursor@,
        id,
    );
}

/// Every item stands right of its left origin and left of its right origin.
pub proof fn law_anchors_monotone(tracker: Tracker)
    requires
        tracker.wf(),
    ensures
        forall|j: int, k: int|
            0 <= j < tracker@.len() && 0 <= k < tracker@.len() && (#[trigger] tracker@[j]).origin_left
                == Some((#[trigger] tracker@[k]).id) ==> k < j,
        forall|j: int, k: int|
            0 <= j < tracker@.len() && 0 <= k < tracker@.len() && (
            #[trigger] tracker@[j]).origin_right == Some((#[trigger] tracker@[k]).id) ==> j < k,
{
    let a = tracker@;
    assert forall|j: int, k: int|
        0 <= j < a.len() && 0 <= k < a.len() && (#[trigger] a[j]).origin_left == Some(
            (#[trigger] a[k]).id,
        ) implies k < j by {
        assert(both_ok(a, j));
        let w = choose|w: int| 0 <= w < j && (#[trigger] a[w]).id == a[j].origin_left->Some_0;
        lemma_index_of(a, w);
        lemma_index_of(a, k);
    }
    assert forall|j: int, k: int|
        0 <= j < a.len() && 0 <= k < a.len() && (#[trigger] a[j]).origin_right == Some(
            (#[trigger] a[k]).id,
        ) implies j < k by {
        assert(both_ok(a, j));
        let w = choose|w: int|
            j < w < a.len() && (#[trigger] a[w]).id == a[j].origin_right->Some_0;
        lemma_index_of(a, w);
        lemma_index_of(a, k);
    }
}

} // verus!
