//! Operations that were made without knowledge of each other and give the
//! same items in whichever order they come: two deletions, a deletion and
//! an insertion, and two insertions at one place.

use vstd::prelude::*;
use crate::id::{PeerID, ID};
use crate::span::IdSpan;
use crate::tracker::model::{
    anchor_end, anchor_start, distinct_ids, has_id, in_spans, index_of, lemma_index_of,
    restyle_spans, with_run,
};
use crate::tracker::{spec_normalize, Tracker, TrackerError};
use crate::y_span::{Atom, StatusChange, YSpan};
use crate::yata::{yata_position, yata_scan};

verus! {

/// The walk of a greater peer, once it has passed item `k - 1` of a run,
/// passes the rest of the run.
pub proof fn lemma_scan_passes_run(
    atoms: Seq<Atom>,
    peer: PeerID,
    left: Option<ID>,
    right: Option<ID>,
    run: YSpan,
    s: int,
    k: int,
    visited: Set<ID>,
)
    requires
        run.wf(),
        0 <= s,
        s + run.len <= atoms.len(),
        forall|j: int| 0 <= j < run.len ==> #[trigger] atoms[s + j] == run.atom(j),
        forall|j: int| 0 <= j < run.len ==> left != Some((#[trigger] run.atom(j)).id),
        1 <= k <= run.len,
        visited.contains(run.atom(k - 1).id),
    ensures
        yata_scan(atoms, peer, left, right, s + k, s + run.len, s + k, visited, Set::empty()) == s
            + run.len,
    decreases run.len - k,
{
    if k < run.len {
        let other = atoms[s + k];
        assert(other == run.atom(k));
        let before = run.atom(k - 1);
        let visited2 = visited.insert(other.id);
        let conflicting2 = Set::<ID>::empty().insert(other.id);
        assert(other.origin_left == Some(before.id));
        assert(left != Some(before.id));
        assert(visited2.contains(before.id));
        assert(before.id != other.id);
        assert(!conflicting2.contains(before.id));
        lemma_scan_passes_run(atoms, peer, left, right, run, s, k + 1, visited2);
    }
}

/// Among the items of one run with the same origins, a run of a greater
/// peer goes right of them and a run of a smaller peer left of them.
pub proof fn lemma_scan_over_run(atoms: Seq<Atom>, peer: PeerID, run: YSpan, s: int)
    requires
        run.wf(),
        0 <= s,
        s + run.len <= atoms.len(),
        forall|j: int| 0 <= j < run.len ==> #[trigger] atoms[s + j] == run.atom(j),
        forall|j: int| 0 <= j < run.len ==> run.origin_left != Some((#[trigger] run.atom(j)).id),
        peer != run.id.peer,
    ensures
        yata_position(atoms, peer, run.origin_left, run.origin_right, s, s + run.len) == (if peer
            > run.id.peer {
            s + run.len
        } else {
            s
        }),
{
    let other = atoms[s];
    assert(atoms[s + 0] == run.atom(0));
    assert(other.origin_left == run.origin_left);
    assert(other.origin_right == run.origin_right);
    assert(other.id.peer == run.id.peer);
    if peer > run.id.peer {
        lemma_scan_passes_run(
            atoms,
            peer,
            run.origin_left,
            run.origin_right,
            run,
            s,
            1,
            Set::<ID>::empty().insert(other.id),
        );
    }
}

/// An insertion between two anchors leaves the left one where it was and
/// moves the right one by its length.
pub proof fn lemma_anchors_after_insert(
    a: Seq<Atom>,
    q: int,
    run: YSpan,
    left: Option<ID>,
    right: Option<ID>,
)
    requires
        distinct_ids(with_run(a, q, run)),
        0 <= q <= a.len(),
        left is Some ==> has_id(a, left->Some_0),
        right is Some ==> has_id(a, right->Some_0),
        anchor_start(a, left) <= q <= anchor_end(a, right),
    ensures
        anchor_start(with_run(a, q, run), left) == anchor_start(a, left),
        anchor_end(with_run(a, q, run), right) == anchor_end(a, right) + run.len,
        left is Some ==> anchor_start(a, left) >= 1 && with_run(a, q, run)[anchor_start(a, left)
            - 1].id == left->Some_0,
{
    let b = with_run(a, q, run);
    assert(b.len() == a.len() + run.len);
    if left is Some {
        let j = index_of(a, left->Some_0);
        assert(b[j] == a[j]);
        lemma_index_of(b, j);
    }
    if right is Some {
        let j = index_of(a, right->Some_0);
        assert(b[j + run.len] == a[j]);
        lemma_index_of(b, j + run.len);
    }
}

impl Tracker {
    /// After `x` was integrated at a place where no item stood between its
    /// origins, a run `y` of another peer with the same origins goes right
    /// of `x` if its peer is the greater one, and left of it if not.
    pub proof fn lemma_second_at_one_place(self, x: YSpan, y: YSpan, after: Tracker)
        requires
            self.wf(),
            after.wf(),
            self.is_live(),
            x.id.peer != y.id.peer,
            x.origin_left == y.origin_left,
            x.origin_right == y.origin_right,
            self.known_prefix(x) == 0,
            self.known_prefix(y) == 0,
            self.spec_can_integrate(y),
            self.valid_op(y),
            anchor_start(self@, spec_normalize(x.origin_left)) == anchor_end(
                self@,
                spec_normalize(x.origin_right),
            ),
            self.integrate_result(x, after, Ok(())),
        ensures
            0 <= anchor_start(self@, spec_normalize(x.origin_left)) <= self@.len(),
            after@ == with_run(
                self@,
                anchor_start(self@, spec_normalize(x.origin_left)),
                self.spec_fresh(x),
            ),
            after.is_live(),
            after.spec_fresh(y) == self.spec_fresh(y),
            after.spec_insert_pos(y) == anchor_start(self@, spec_normalize(x.origin_left)) + (
            if y.id.peer > x.id.peer {
                x.len as int
            } else {
                0
            }),
    {
        let a = self@;
        let left = spec_normalize(x.origin_left);
        let right = spec_normalize(x.origin_right);
        let s = anchor_start(a, left);
        let fx = self.spec_fresh(x);
        let fy = self.spec_fresh(y);
        assert(fx.id == x.id && fx.len == x.len && fx.origin_left == left && fx.origin_right
            == right);
        assert(fy.id == y.id && fy.len == y.len && fy.origin_left == left && fy.origin_right
            == right);
        if left is Some {
            assert(self.head_vv.spec_includes(left->Some_0));
            assert(has_id(a, left->Some_0));
        }
        if right is Some {
            assert(self.head_vv.spec_includes(right->Some_0));
            assert(has_id(a, right->Some_0));
        }
        assert(self.spec_insert_pos(x) == s);
        let b = after@;
        assert(b == with_run(a, s, fx));
        assert(after.head_vv.spec_get(y.id.peer) == self.head_vv.spec_get(y.id.peer));
        assert(after.spec_fresh(y) == fy);
        lemma_anchors_after_insert(a, s, fx, left, right);
        assert forall|j: int| 0 <= j < fx.len implies #[trigger] b[s + j] == fx.atom(j) by {
            assert(fx.atoms()[j] == fx.atom(j));
        }
        assert forall|j: int| 0 <= j < fx.len implies fx.origin_left != Some(
            (#[trigger] fx.atom(j)).id,
        ) by {
            if left is Some {
                assert(b[s - 1].id == left->Some_0);
                assert(b[s + j] == fx.atom(j));
                assert(b[s - 1].id != b[s + j].id);
            }
        }
        lemma_scan_over_run(b, y.id.peer, fx, s);
    }
}

/// In a tracker that shows the newest version, two runs of different peers
/// that name the same origins, between which no item stands, end in the
/// same order whichever of the two is integrated first: the run of the
/// smaller peer stands left of the other.
pub proof fn law_insertions_at_one_place_commute(
    t: Tracker,
    x: YSpan,
    y: YSpan,
    tx: Tracker,
    txy: Tracker,
    ty: Tracker,
    tyx: Tracker,
)
    requires
        t.wf(),
        tx.wf(),
        ty.wf(),
        t.is_live(),
        x.id.peer < y.id.peer,
        x.origin_left == y.origin_left,
        x.origin_right == y.origin_right,
        t.known_prefix(x) == 0,
        t.known_prefix(y) == 0,
        anchor_start(t@, spec_normalize(x.origin_left)) == anchor_end(
            t@,
            spec_normalize(x.origin_right),
        ),
        t.integrate_result(x, tx, Ok(())),
        tx.integrate_result(y, txy, Ok(())),
        t.integrate_result(y, ty, Ok(())),
        ty.integrate_result(x, tyx, Ok(())),
    ensures
        txy@ == tyx@,
        txy@ == t@.take(anchor_start(t@, spec_normalize(x.origin_left))) + t.spec_fresh(x).atoms()
            + t.spec_fresh(y).atoms() + t@.skip(anchor_start(t@, spec_normalize(x.origin_left))),
{
    let a = t@;
    let s = anchor_start(a, spec_normalize(x.origin_left));
    let fx = t.spec_fresh(x);
    let fy = t.spec_fresh(y);
    t.lemma_second_at_one_place(x, y, tx);
    t.lemma_second_at_one_place(y, x, ty);
    assert(txy@ == with_run(with_run(a, s, fx), s + x.len, fy));
    assert(tyx@ == with_run(with_run(a, s, fy), s, fx));
    let wanted = a.take(s) + fx.atoms() + fy.atoms() + a.skip(s);
    assert(with_run(with_run(a, s, fx), s + x.len, fy) =~= wanted);
    assert(with_run(with_run(a, s, fy), s, fx) =~= wanted);
}

/// Two sequences that differ at most in the status of their items.
pub open spec fn same_but_status(a: Seq<Atom>, b: Seq<Atom>) -> bool {
    &&& a.len() == b.len()
    &&& forall|j: int|
        0 <= j < a.len() ==> (#[trigger] a[j]).id == b[j].id && a[j].origin_left
            == b[j].origin_left && a[j].origin_right == b[j].origin_right
}

/// The walk does not read the status of the items.
pub proof fn lemma_scan_ignores_status(
    a: Seq<Atom>,
    b: Seq<Atom>,
    peer: PeerID,
    left: Option<ID>,
    right: Option<ID>,
    i: int,
    end: int,
    cursor: int,
    visited: Set<ID>,
    conflicting: Set<ID>,
)
    requires
        same_but_status(a, b),
    ensures
        yata_scan(a, peer, left, right, i, end, cursor, visited, conflicting) == yata_scan(
            b,
            peer,
            left,
            right,
            i,
            end,
            cursor,
            visited,
            conflicting,
        ),
    decreases end - i,
{
    if i >= end || i < 0 || i >= a.len() {
    } else {
        let other = a[i];
        assert(other.id == b[i].id);
        let visited2 = visited.insert(other.id);
        let conflicting2 = conflicting.insert(other.id);
        lemma_scan_ignores_status(a, b, peer, left, right, i + 1, end, i + 1, visited2, Set::empty());
        lemma_scan_ignores_status(a, b, peer, left, right, i + 1, end, cursor, visited2, conflicting2);
    }
}

/// The anchors do not depend on the status of the items.
pub proof fn lemma_anchors_ignore_status(a: Seq<Atom>, b: Seq<Atom>, o: Option<ID>)
    requires
        same_but_status(a, b),
        distinct_ids(b),
        o is Some ==> has_id(a, o->Some_0),
    ensures
        anchor_start(a, o) == anchor_start(b, o),
        anchor_end(a, o) == anchor_end(b, o),
{
    if o is Some {
        let j = index_of(a, o->Some_0);
        assert(b[j].id == o->Some_0);
        lemma_index_of(b, j);
    }
}

/// Two deletions give the same items in either order.
pub proof fn law_deletions_commute(atoms: Seq<Atom>, first: Seq<IdSpan>, second: Seq<IdSpan>)
    ensures
        restyle_spans(restyle_spans(atoms, first, StatusChange::Delete), second, StatusChange::Delete)
            == restyle_spans(
            restyle_spans(atoms, second, StatusChange::Delete),
            first,
            StatusChange::Delete,
        ),
{
    let one = restyle_spans(atoms, first, StatusChange::Delete);
    let two = restyle_spans(atoms, second, StatusChange::Delete);
    let a = restyle_spans(one, second, StatusChange::Delete);
    let b = restyle_spans(two, first, StatusChange::Delete);
    assert forall|j: int| 0 <= j < atoms.len() implies #[trigger] a[j] == b[j] by {
        assert(one[j].id == atoms[j].id);
        assert(two[j].id == atoms[j].id);
    }
    assert(a =~= b);
}

/// A deletion of operations that the tracker holds, and the integration of
/// an insertion, give the same items and the same answer in either order.
///
/// `t` is the tracker before both, `d` the tracker after the deletion
/// alone, `ti` the one after the insertion alone, and `di` the one after the
/// deletion and then the insertion.
pub proof fn law_deletion_and_insertion_commute(
    t: Tracker,
    spans: Seq<IdSpan>,
    op: YSpan,
    d: Tracker,
    ti: Tracker,
    r: Result<(), TrackerError>,
    di: Tracker,
    r2: Result<(), TrackerError>,
)
    requires
        t.wf(),
        d.wf(),
        forall|id: ID| in_spans(spans, id) ==> #[trigger] t.head_vv.spec_includes(id),
        d@ == restyle_spans(t@, spans, StatusChange::Delete),
        d.head_vv.entries@ == t.head_vv.entries@,
        d.current_vv.entries@ == t.current_vv.entries@,
        t.integrate_result(op, ti, r),
        d.integrate_result(op, di, r2),
    ensures
        r2 == r,
        di@ == restyle_spans(ti@, spans, StatusChange::Delete),
{
    let a = t@;
    let b = d@;
    assert(same_but_status(a, b));
    assert(d.spec_can_integrate(op) == t.spec_can_integrate(op));
    assert(d.valid_op(op) == t.valid_op(op));
    assert(d.known_prefix(op) == t.known_prefix(op));
    assert(d.is_live() == t.is_live());
    let f = t.spec_fresh(op);
    assert(d.spec_fresh(op) == f);
    if !t.spec_can_integrate(op) {
        assert(r == Err::<(), TrackerError>(TrackerError::MissingDependency));
        assert(r2 == Err::<(), TrackerError>(TrackerError::MissingDependency));
    } else if !t.valid_op(op) {
        assert(r == Err::<(), TrackerError>(TrackerError::MalformedInput));
        assert(r2 == Err::<(), TrackerError>(TrackerError::MalformedInput));
    } else if t.known_prefix(op) >= op.len {
        assert(r is Ok);
        assert(r2 is Ok);
        assert(r->Ok_0 == r2->Ok_0);
        assert(r == r2);
    }
    if t.spec_can_integrate(op) && t.valid_op(op) && t.known_prefix(op) < op.len {
        let left = f.origin_left;
        let right = f.origin_right;
        assert(left is Some ==> has_id(a, left->Some_0)) by {
            if left is Some {
                let k = t.known_prefix(op);
                if k == 0 {
                    assert(t.head_vv.spec_includes(left->Some_0));
                } else {
                    assert(left->Some_0 == op.id.spec_inc(k - 1));
                    assert(t.head_vv.spec_includes(left->Some_0));
                }
            }
        }
        assert(right is Some ==> has_id(a, right->Some_0)) by {
            if right is Some {
                assert(t.head_vv.spec_includes(right->Some_0));
            }
        }
        lemma_anchors_ignore_status(a, b, left);
        lemma_anchors_ignore_status(a, b, right);
        let s = anchor_start(a, left);
        let e = anchor_end(a, right);
        lemma_scan_ignores_status(a, b, f.id.peer, left, right, s, e, s, Set::empty(), Set::empty());
        let q = t.spec_insert_pos(op);
        assert(d.spec_insert_pos(op) == q);
        assert(anchor_start(b, d.spec_fresh(op).origin_left) == s);
        assert(anchor_end(b, d.spec_fresh(op).origin_right) == e);
        if s > e {
            assert(r == Err::<(), TrackerError>(TrackerError::InvariantViolated));
            assert(r2 == Err::<(), TrackerError>(TrackerError::InvariantViolated));
        } else {
            assert(r is Ok);
            assert(r2 is Ok);
            assert(r->Ok_0 == r2->Ok_0);
            assert(r == r2);
        }
        if r is Ok {
            crate::yata::lemma_scan_bounds(
                a,
                f.id.peer,
                left,
                right,
                s,
                e,
                s,
                Set::empty(),
                Set::empty(),
            );
            assert(0 <= q <= a.len());
            let x = restyle_spans(with_run(a, q, f), spans, StatusChange::Delete);
            let y = with_run(b, q, f);
            assert forall|j: int| 0 <= j < x.len() implies #[trigger] x[j] == y[j] by {
                if q <= j < q + f.len {
                    let id = f.atom(j - q).id;
                    assert(with_run(a, q, f)[j] == f.atom(j - q));
                    assert(!t.head_vv.spec_includes(id));
                    assert(!in_spans(spans, id));
                }
            }
            assert(x =~= y);
        }
    }
}

} // verus!
