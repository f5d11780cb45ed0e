//! What a valid sequence of items is, and why insertion keeps it valid.

use vstd::prelude::*;
use crate::id::{Counter, PeerID, ID, UNKNOWN_PEER};
use crate::span::IdSpan;
pub use crate::y_span::{distinct_ids, has_id};
use crate::y_span::{Atom, StatusChange, YSpan};

verus! {

/// The version `h` holds `id`.
pub open spec fn includes(h: Map<PeerID, Counter>, id: ID) -> bool {
    h.contains_key(id.peer) && h[id.peer] > id.counter
}

/// Every entry of `h` is positive.
pub open spec fn positive(h: Map<PeerID, Counter>) -> bool {
    forall|p: PeerID| h.contains_key(p) ==> #[trigger] h[p] > 0
}

/// The position of an item named `id`.
pub open spec fn index_of(atoms: Seq<Atom>, id: ID) -> int {
    choose|j: int| 0 <= j < atoms.len() && (#[trigger] atoms[j]).id == id
}

/// Every item is an operation of a real peer that `h` holds.
pub open spec fn known(atoms: Seq<Atom>, h: Map<PeerID, Counter>) -> bool {
    forall|j: int|
        0 <= j < atoms.len() ==> includes(h, (#[trigger] atoms[j]).id) && atoms[j].id.counter >= 0
            && atoms[j].id.peer != UNKNOWN_PEER
}

/// Every operation that `h` holds is an item.
pub open spec fn complete(atoms: Seq<Atom>, h: Map<PeerID, Counter>) -> bool {
    forall|id: ID| id.counter >= 0 && includes(h, id) ==> #[trigger] has_id(atoms, id)
}

/// The left origin of item `j`, if it has one, is an item left of it.
pub open spec fn left_ok(atoms: Seq<Atom>, j: int) -> bool {
    atoms[j].origin_left is Some ==> exists|k: int|
        0 <= k < j && (#[trigger] atoms[k]).id == atoms[j].origin_left->Some_0
}

/// The right origin of item `j`, if it has one, is an item right of it.
pub open spec fn right_ok(atoms: Seq<Atom>, j: int) -> bool {
    atoms[j].origin_right is Some ==> exists|k: int|
        j < k < atoms.len() && (#[trigger] atoms[k]).id == atoms[j].origin_right->Some_0
}

/// Item `j` stands right of its left origin and left of its right origin.
pub open spec fn both_ok(atoms: Seq<Atom>, j: int) -> bool {
    left_ok(atoms, j) && right_ok(atoms, j)
}

/// Every item stands right of its left origin and left of its right origin.
pub open spec fn anchored(atoms: Seq<Atom>) -> bool {
    forall|j: int| 0 <= j < atoms.len() ==> #[trigger] both_ok(atoms, j)
}

/// Every item that `current` does not hold is marked as lying in the future.
pub open spec fn future_marked(atoms: Seq<Atom>, current: Map<PeerID, Counter>) -> bool {
    forall|j: int|
        0 <= j < atoms.len() && !includes(current, (#[trigger] atoms[j]).id)
            ==> atoms[j].status.future_count >= 1
}

/// The first position right of the left origin.
pub open spec fn anchor_start(atoms: Seq<Atom>, left: Option<ID>) -> int {
    match left {
        Some(l) => index_of(atoms, l) + 1,
        None => 0,
    }
}

/// The position of the right origin.
pub open spec fn anchor_end(atoms: Seq<Atom>, right: Option<ID>) -> int {
    match right {
        Some(r) => index_of(atoms, r),
        None => atoms.len() as int,
    }
}

/// Among distinct names, the item named `id` is found at one position only.
pub proof fn lemma_index_of(atoms: Seq<Atom>, j: int)
    requires
        distinct_ids(atoms),
        0 <= j < atoms.len(),
    ensures
        has_id(atoms, atoms[j].id),
        index_of(atoms, atoms[j].id) == j,
{
    let id = atoms[j].id;
    assert(has_id(atoms, id));
    let k = index_of(atoms, id);
    assert(0 <= k < atoms.len() && atoms[k].id == id);
    if k < j {
        assert(atoms[k].id != atoms[j].id);
    } else if j < k {
        assert(atoms[j].id != atoms[k].id);
    }
}

/// The sequence with the items of `run` inserted at `q`.
pub open spec fn with_run(atoms: Seq<Atom>, q: int, run: YSpan) -> Seq<Atom> {
    atoms.take(q) + run.atoms() + atoms.skip(q)
}

/// Where item `j` of the old sequence stands after an insertion of `m` items at `q`.
pub open spec fn shifted(j: int, q: int, m: int) -> int {
    if j < q {
        j
    } else {
        j + m
    }
}

/// Where the old and the new items stand after an insertion.
pub proof fn lemma_with_run_index(atoms: Seq<Atom>, q: int, run: YSpan)
    requires
        0 <= q <= atoms.len(),
        run.wf(),
    ensures
        with_run(atoms, q, run).len() == atoms.len() + run.len,
        forall|j: int|
            0 <= j < atoms.len() ==> (#[trigger] with_run(atoms, q, run)[shifted(
                j,
                q,
                run.len as int,
            )]) == atoms[j],
        forall|t: int|
            0 <= t < run.len ==> (#[trigger] with_run(atoms, q, run)[q + t]) == run.atom(t),
{
}

/// Inserting the next operations of a peer keeps the items those that the version holds.
pub proof fn lemma_insert_known_complete(
    atoms: Seq<Atom>,
    h: Map<PeerID, Counter>,
    q: int,
    run: YSpan,
)
    requires
        0 <= q <= atoms.len(),
        run.wf(),
        run.id.counter >= 0,
        run.id.peer != UNKNOWN_PEER,
        positive(h),
        known(atoms, h),
        complete(atoms, h),
        distinct_ids(atoms),
        run.id.counter == (if h.contains_key(run.id.peer) {
            h[run.id.peer] as int
        } else {
            0
        }),
    ensures
        positive(h.insert(run.id.peer, (run.id.counter + run.len) as Counter)),
        known(with_run(atoms, q, run), h.insert(run.id.peer, (run.id.counter + run.len) as Counter)),
        complete(
            with_run(atoms, q, run),
            h.insert(run.id.peer, (run.id.counter + run.len) as Counter),
        ),
        distinct_ids(with_run(atoms, q, run)),
        forall|id: ID| has_id(atoms, id) ==> has_id(with_run(atoms, q, run), id),
{
    let m = run.len as int;
    let after = with_run(atoms, q, run);
    let h2 = h.insert(run.id.peer, (run.id.counter + run.len) as Counter);
    lemma_with_run_index(atoms, q, run);
    assert forall|j: int| 0 <= j < after.len() implies includes(h2, (#[trigger] after[j]).id)
        && after[j].id.counter >= 0 && after[j].id.peer != UNKNOWN_PEER by {
        if j < q {
            assert(after[j] == atoms[j]);
        } else if j < q + m {
            assert(after[j] == run.atom(j - q));
        } else {
            assert(after[j] == atoms[j - m]);
        }
    }
    assert forall|id: ID| has_id(atoms, id) implies has_id(after, id) by {
        let j = index_of(atoms, id);
        assert(after[shifted(j, q, m)] == atoms[j]);
    }
    assert forall|id: ID| id.counter >= 0 && includes(h2, id) implies #[trigger] has_id(
        after,
        id,
    ) by {
        if includes(h, id) {
            assert(has_id(atoms, id));
        } else {
            let t = id.counter - run.id.counter;
            assert(after[q + t] == run.atom(t));
        }
    }
    assert forall|i: int, j: int| 0 <= i < j < after.len() implies (#[trigger] after[i]).id != (
    #[trigger] after[j]).id by {
        let fresh_i = q <= i < q + m;
        let fresh_j = q <= j < q + m;
        let i0 = if i < q {
            i
        } else {
            i - m
        };
        let j0 = if j < q {
            j
        } else {
            j - m
        };
        if fresh_i && fresh_j {
            assert(after[i] == run.atom(i - q));
            assert(after[j] == run.atom(j - q));
        } else if fresh_i {
            assert(after[i] == run.atom(i - q));
            assert(after[j] == atoms[j0]);
            assert(includes(h, atoms[j0].id));
        } else if fresh_j {
            assert(after[j] == run.atom(j - q));
            assert(after[i] == atoms[i0]);
            assert(includes(h, atoms[i0].id));
        } else {
            assert(after[i] == atoms[i0]);
            assert(after[j] == atoms[j0]);
            assert(atoms[i0].id != atoms[j0].id);
        }
    }
}

/// Inserting a run between its origins keeps every item between its own.
pub proof fn lemma_insert_anchored(atoms: Seq<Atom>, q: int, run: YSpan)
    requires
        0 <= q <= atoms.len(),
        run.wf(),
        anchored(atoms),
        run.origin_left is Some ==> has_id(atoms, run.origin_left->Some_0),
        run.origin_right is Some ==> has_id(atoms, run.origin_right->Some_0),
        anchor_start(atoms, run.origin_left) <= q <= anchor_end(atoms, run.origin_right),
    ensures
        anchored(with_run(atoms, q, run)),
{
    let m = run.len as int;
    let after = with_run(atoms, q, run);
    lemma_with_run_index(atoms, q, run);
    assert forall|j: int| 0 <= j < after.len() implies #[trigger] both_ok(after, j) by {
        if q <= j < q + m {
            let t = j - q;
            assert(after[j] == run.atom(t));
            if t > 0 {
                assert(after[q + (t - 1)] == run.atom(t - 1));
                assert(after[j - 1].id == after[j].origin_left->Some_0);
            } else if run.origin_left is Some {
                let k = index_of(atoms, run.origin_left->Some_0);
                assert(after[shifted(k, q, m)] == atoms[k]);
            }
            if run.origin_right is Some {
                let k = index_of(atoms, run.origin_right->Some_0);
                assert(after[shifted(k, q, m)] == atoms[k]);
            }
        } else {
            let j0 = if j < q {
                j
            } else {
                j - m
            };
            assert(after[shifted(j0, q, m)] == atoms[j0]);
            assert(both_ok(atoms, j0));
            if atoms[j0].origin_left is Some {
                let k = choose|k: int|
                    0 <= k < j0 && (#[trigger] atoms[k]).id == atoms[j0].origin_left->Some_0;
                assert(after[shifted(k, q, m)] == atoms[k]);
            }
            if atoms[j0].origin_right is Some {
                let k = choose|k: int|
                    j0 < k < atoms.len() && (#[trigger] atoms[k]).id
                        == atoms[j0].origin_right->Some_0;
                assert(after[shifted(k, q, m)] == atoms[k]);
            }
        }
    }
}


/// The item with `change` applied to its status.
pub open spec fn restyled(a: Atom, change: StatusChange) -> Atom {
    Atom { status: a.status.spec_apply(change), ..a }
}

/// Some span holds `id`.
pub open spec fn in_spans(spans: Seq<IdSpan>, id: ID) -> bool {
    exists|k: int| 0 <= k < spans.len() && (#[trigger] spans[k]).spec_contains(id)
}

/// The items with `change` applied to those named in `spans`.
pub open spec fn restyle_spans(atoms: Seq<Atom>, spans: Seq<IdSpan>, change: StatusChange) -> Seq<
    Atom,
> {
    Seq::new(
        atoms.len(),
        |j: int|
            if in_spans(spans, atoms[j].id) {
                restyled(atoms[j], change)
            } else {
                atoms[j]
            },
    )
}

/// The items with `change` applied to the operations `lo..hi` of `peer`.
pub open spec fn restyle_range(
    atoms: Seq<Atom>,
    peer: PeerID,
    lo: int,
    hi: int,
    change: StatusChange,
) -> Seq<Atom> {
    Seq::new(
        atoms.len(),
        |j: int|
            if atoms[j].id.peer == peer && lo <= atoms[j].id.counter < hi {
                restyled(atoms[j], change)
            } else {
                atoms[j]
            },
    )
}

/// The same items in the same order, whatever their status.
pub open spec fn same_skeleton(a: Seq<Atom>, b: Seq<Atom>) -> bool {
    &&& a.len() == b.len()
    &&& forall|j: int|
        0 <= j < a.len() ==> (#[trigger] a[j]).id == b[j].id && a[j].origin_left
            == b[j].origin_left && a[j].origin_right == b[j].origin_right
}

/// What is said of names and anchors holds of every sequence with the same skeleton.
pub proof fn lemma_skeleton(a: Seq<Atom>, b: Seq<Atom>, h: Map<PeerID, Counter>)
    requires
        same_skeleton(a, b),
        known(a, h),
        complete(a, h),
        distinct_ids(a),
        anchored(a),
    ensures
        known(b, h),
        complete(b, h),
        distinct_ids(b),
        anchored(b),
{
    assert forall|j: int| 0 <= j < b.len() implies includes(h, (#[trigger] b[j]).id)
        && b[j].id.counter >= 0 && b[j].id.peer != UNKNOWN_PEER by {
        assert(a[j].id == b[j].id);
    }
    assert forall|id: ID| id.counter >= 0 && includes(h, id) implies #[trigger] has_id(b, id) by {
        assert(has_id(a, id));
        let j = index_of(a, id);
        assert(a[j].id == b[j].id);
    }
    assert forall|i: int, j: int| 0 <= i < j < b.len() implies (#[trigger] b[i]).id != (
    #[trigger] b[j]).id by {
        assert(a[i].id == b[i].id);
        assert(a[j].id == b[j].id);
        assert(a[i].id != a[j].id);
    }
    assert forall|j: int| 0 <= j < b.len() implies #[trigger] both_ok(b, j) by {
        assert(both_ok(a, j));
        assert(a[j].id == b[j].id);
        if b[j].origin_left is Some {
            let k = choose|k: int|
                0 <= k < j && (#[trigger] a[k]).id == a[j].origin_left->Some_0;
            assert(a[k].id == b[k].id);
        }
        if b[j].origin_right is Some {
            let k = choose|k: int|
                j < k < a.len() && (#[trigger] a[k]).id == a[j].origin_right->Some_0;
            assert(a[k].id == b[k].id);
        }
    }
}

/// Changing the operations `lo..mid` and then `mid..hi` changes `lo..hi`.
pub proof fn lemma_restyle_range_step(
    old_atoms: Seq<Atom>,
    cur: Seq<Atom>,
    next: Seq<Atom>,
    peer: PeerID,
    lo: int,
    mid: int,
    pos: int,
    k: int,
    change: StatusChange,
)
    requires
        distinct_ids(old_atoms),
        lo <= mid,
        cur == restyle_range(old_atoms, peer, lo, mid, change),
        0 <= pos,
        1 <= k,
        pos + k <= cur.len(),
        next.len() == cur.len(),
        forall|t: int|
            0 <= t < k ==> (#[trigger] cur[pos + t]).id == (ID {
                peer,
                counter: (mid + t) as Counter,
            }) && next[pos + t] == restyled(cur[pos + t], change),
        forall|j: int| 0 <= j < cur.len() && !(pos <= j < pos + k) ==> #[trigger] next[j] == cur[j],
        mid + k <= i32::MAX,
        mid >= i32::MIN,
    ensures
        next == restyle_range(old_atoms, peer, lo, mid + k, change),
        same_skeleton(cur, next),
{
    let want = restyle_range(old_atoms, peer, lo, mid + k, change);
    assert forall|j: int| 0 <= j < next.len() implies #[trigger] next[j] == want[j] by {
        if pos <= j < pos + k {
            let t = j - pos;
            assert(cur[pos + t].id == (ID { peer, counter: (mid + t) as Counter }));
            assert(cur[j].id == old_atoms[j].id);
        } else {
            assert(next[j] == cur[j]);
            let id = old_atoms[j].id;
            if id.peer == peer && mid <= id.counter < mid + k {
                let t = id.counter - mid;
                assert(cur[pos + t].id == id);
                assert(old_atoms[pos + t].id == cur[pos + t].id);
                if pos + t < j {
                    assert(old_atoms[pos + t].id != old_atoms[j].id);
                } else {
                    assert(old_atoms[j].id != old_atoms[pos + t].id);
                }
            }
        }
    }
    assert(next =~= want);
    assert forall|j: int| 0 <= j < cur.len() implies (#[trigger] cur[j]).id == next[j].id
        && cur[j].origin_left == next[j].origin_left && cur[j].origin_right
        == next[j].origin_right by {
        if pos <= j < pos + k {
            let t = j - pos;
            assert(next[pos + t] == restyled(cur[pos + t], change));
        } else {
            assert(next[j] == cur[j]);
        }
    }
}

/// Changing the operations of a span that the version holds changes the span.
pub proof fn lemma_restyle_range_is_span(
    atoms: Seq<Atom>,
    h: Map<PeerID, Counter>,
    span: IdSpan,
    lo: int,
    hi: int,
    change: StatusChange,
)
    requires
        known(atoms, h),
        positive(h),
        lo == (if span.counter.start > 0 {
            span.counter.start as int
        } else {
            0
        }),
        hi >= lo,
        hi == lo || hi == (if span.counter.end < (if h.contains_key(span.peer) {
            h[span.peer] as int
        } else {
            0
        }) {
            span.counter.end as int
        } else {
            (if h.contains_key(span.peer) {
                h[span.peer] as int
            } else {
                0
            })
        }),
        hi == lo ==> (span.counter.end <= lo || (if h.contains_key(span.peer) {
            h[span.peer] as int
        } else {
            0
        }) <= lo),
    ensures
        restyle_range(atoms, span.peer, lo, hi, change) == restyle_spans(atoms, seq![span], change),
{
    let a = restyle_range(atoms, span.peer, lo, hi, change);
    let b = restyle_spans(atoms, seq![span], change);
    assert forall|j: int| 0 <= j < atoms.len() implies #[trigger] a[j] == b[j] by {
        let id = atoms[j].id;
        assert(includes(h, id) && id.counter >= 0);
        if in_spans(seq![span], id) {
            let k = choose|k: int|
                0 <= k < seq![span].len() && (#[trigger] seq![span][k]).spec_contains(id);
            assert(seq![span][k] == span);
        }
        if span.spec_contains(id) {
            assert(seq![span][0].spec_contains(id));
        }
    }
    assert(a =~= b);
}

/// Changing the items of some spans and then those of another span, which
/// shares no identifier with them, changes the items of all of them.
pub proof fn lemma_restyle_spans_push(
    atoms: Seq<Atom>,
    spans: Seq<IdSpan>,
    last: IdSpan,
    change: StatusChange,
)
    requires
        forall|k: int| 0 <= k < spans.len() ==> !(#[trigger] spans[k]).spec_overlaps(last),
    ensures
        restyle_spans(restyle_spans(atoms, spans, change), seq![last], change) == restyle_spans(
            atoms,
            spans.push(last),
            change,
        ),
{
    let mid = restyle_spans(atoms, spans, change);
    let a = restyle_spans(mid, seq![last], change);
    let b = restyle_spans(atoms, spans.push(last), change);
    assert forall|j: int| 0 <= j < atoms.len() implies #[trigger] a[j] == b[j] by {
        let id = atoms[j].id;
        assert(mid[j].id == id);
        if in_spans(seq![last], id) {
            let k = choose|k: int|
                0 <= k < seq![last].len() && (#[trigger] seq![last][k]).spec_contains(id);
            assert(seq![last][k] == last);
            assert(spans.push(last)[spans.len() as int].spec_contains(id));
            if in_spans(spans, id) {
                let m = choose|m: int| 0 <= m < spans.len() && (#[trigger] spans[m]).spec_contains(id);
                assert(spans[m].spec_overlaps(last));
            }
        } else {
            if in_spans(spans, id) {
                let m = choose|m: int| 0 <= m < spans.len() && (#[trigger] spans[m]).spec_contains(id);
                assert(spans.push(last)[m].spec_contains(id));
            }
            if in_spans(spans.push(last), id) {
                let m = choose|m: int|
                    0 <= m < spans.push(last).len() && (#[trigger] spans.push(last)[m]).spec_contains(
                        id,
                    );
                if m < spans.len() {
                    assert(spans[m].spec_contains(id));
                } else {
                    assert(seq![last][0].spec_contains(id));
                }
            }
        }
    }
    assert(a =~= b);
}

} // verus!
