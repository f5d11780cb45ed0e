//! Reading the sequence.

use vstd::prelude::*;
use crate::id::{opt_id_eq, Counter, ID};
use crate::span::{CounterSpan, IdSpan};
use crate::tracker::model::{has_id, index_of, lemma_index_of};
use crate::tracker::Tracker;
use crate::version::IdSpanVector;
use crate::y_span::{lemma_visible_len_add, visible_ids, visible_len, Atom, Status, YSpan};

verus! {

/// The identifiers of a span, in order.
pub open spec fn span_ids(s: IdSpan) -> Seq<ID> {
    Seq::new(
        s.counter.spec_len(),
        |k: int| ID { peer: s.peer, counter: (s.counter.start + k) as Counter },
    )
}

/// The identifiers of a list of spans, in order.
pub open spec fn spans_ids(spans: Seq<IdSpan>) -> Seq<ID>
    decreases spans.len(),
{
    if spans.len() == 0 {
        Seq::empty()
    } else {
        spans_ids(spans.drop_last()) + span_ids(spans.last())
    }
}

/// The span that holds `id` alone.
pub open spec fn unit_span(id: ID) -> IdSpan {
    IdSpan { peer: id.peer, counter: CounterSpan { start: id.counter, end: (id.counter + 1) as Counter } }
}

/// The first identifier of a span.
pub open spec fn span_start(s: IdSpan) -> ID {
    ID { peer: s.peer, counter: s.counter.start }
}

/// The position of the visible item that `k` visible items precede.
pub open spec fn nth_visible(atoms: Seq<Atom>, k: int) -> int {
    choose|p: int|
        0 <= p < atoms.len() && atoms[p].status.spec_is_visible() && visible_len(atoms.take(p)) == k
}

/// The anchors of an insertion before the visible item at `pos`: the
/// visible item before that position, and the item that follows it.
pub open spec fn anchors_at(atoms: Seq<Atom>, pos: int) -> (Option<ID>, Option<ID>) {
    if pos == 0 {
        (
            None,
            if atoms.len() > 0 {
                Some(atoms[0].id)
            } else {
                None
            },
        )
    } else {
        let p = nth_visible(atoms, pos - 1);
        (
            Some(atoms[p].id),
            if p + 1 < atoms.len() {
                Some(atoms[p + 1].id)
            } else {
                None
            },
        )
    }
}

/// What a sequence shows is what its two parts show.
pub proof fn lemma_visible_ids_add(a: Seq<Atom>, b: Seq<Atom>)
    ensures
        visible_ids(a + b) == visible_ids(a) + visible_ids(b),
        visible_ids(a).len() == visible_len(a),
{
    let p = |x: Atom| x.status.spec_is_visible();
    Seq::filter_distributes_over_add(a, b, p);
    assert(visible_ids(a + b) =~= visible_ids(a) + visible_ids(b));
}

/// The visible items before a later position are more, where a visible item lies between.
pub proof fn lemma_visible_take(atoms: Seq<Atom>, p: int, q: int)
    requires
        0 <= p <= q <= atoms.len(),
    ensures
        visible_len(atoms.take(p)) <= visible_len(atoms.take(q)),
        p < q && atoms[p].status.spec_is_visible() ==> visible_len(atoms.take(p)) < visible_len(
            atoms.take(q),
        ),
        visible_len(atoms.take(q)) <= visible_len(atoms),
        p < atoms.len() && atoms[p].status.spec_is_visible() ==> visible_ids(atoms)[visible_len(
            atoms.take(p),
        ) as int] == atoms[p].id && visible_len(atoms.take(p)) < visible_len(atoms),
{
    let vis = |x: Atom| x.status.spec_is_visible();
    assert(atoms.take(q) =~= atoms.take(p) + atoms.subrange(p, q));
    lemma_visible_len_add(atoms.take(p), atoms.subrange(p, q));
    assert(atoms =~= atoms.take(q) + atoms.skip(q));
    lemma_visible_len_add(atoms.take(q), atoms.skip(q));
    if p < atoms.len() && atoms[p].status.spec_is_visible() {
        let one = seq![atoms[p]];
        assert(one.filter(vis) =~= one) by {
            reveal_with_fuel(Seq::filter, 2);
            assert(one.drop_last() =~= Seq::<Atom>::empty());
        }
        assert(visible_len(one) == 1);
        assert(visible_ids(one) =~= seq![atoms[p].id]);
        if p < q {
            assert(atoms.subrange(p, q) =~= one + atoms.subrange(p + 1, q));
            lemma_visible_len_add(one, atoms.subrange(p + 1, q));
        }
        assert(atoms =~= atoms.take(p) + (one + atoms.skip(p + 1)));
        lemma_visible_ids_add(atoms.take(p), one + atoms.skip(p + 1));
        lemma_visible_ids_add(one, atoms.skip(p + 1));
        lemma_visible_len_add(atoms.take(p), one + atoms.skip(p + 1));
        lemma_visible_len_add(one, atoms.skip(p + 1));
    }
}

/// One item counts as one visible item or as none.
pub proof fn lemma_visible_one(x: Atom)
    ensures
        visible_len(seq![x]) == (if x.status.spec_is_visible() {
            1nat
        } else {
            0nat
        }),
{
    let vis = |x: Atom| x.status.spec_is_visible();
    let one = seq![x];
    assert(one.drop_last() =~= Seq::<Atom>::empty());
    assert(one.filter(vis) =~= (if vis(x) {
        one
    } else {
        Seq::<Atom>::empty()
    })) by {
        reveal_with_fuel(Seq::filter, 2);
    }
}

/// A visible item is found by the number of visible items before it.
pub proof fn lemma_nth_visible(atoms: Seq<Atom>, p: int)
    requires
        0 <= p < atoms.len(),
        atoms[p].status.spec_is_visible(),
    ensures
        nth_visible(atoms, visible_len(atoms.take(p)) as int) == p,
{
    let k = visible_len(atoms.take(p)) as int;
    let q = nth_visible(atoms, k);
    if q < p {
        lemma_visible_take(atoms, q, p);
    } else if p < q {
        lemma_visible_take(atoms, p, q);
    }
}

/// The visible items of a run are all of its items or none.
pub proof fn lemma_run_visible_ids(run: YSpan)
    requires
        run.wf(),
    ensures
        visible_ids(run.atoms()) == (if run.status.spec_is_visible() {
            span_ids(run.id_span())
        } else {
            Seq::<ID>::empty()
        }),
    decreases run.len,
{
    let vis = |x: Atom| x.status.spec_is_visible();
    let s = run.atoms();
    if run.len == 1 {
        assert(s.drop_last() =~= Seq::<Atom>::empty());
        assert(s.filter(vis) =~= (if vis(s.last()) {
            seq![s.last()]
        } else {
            Seq::<Atom>::empty()
        })) by {
            reveal_with_fuel(Seq::filter, 2);
        }
        assert(visible_ids(s) =~= (if run.status.spec_is_visible() {
            span_ids(run.id_span())
        } else {
            Seq::<ID>::empty()
        }));
    } else {
        let shorter = YSpan { len: (run.len - 1) as usize, ..run };
        lemma_run_visible_ids(shorter);
        assert(s.drop_last() =~= shorter.atoms());
        assert(s =~= shorter.atoms() + seq![s.last()]);
        lemma_visible_ids_add(shorter.atoms(), seq![s.last()]);
        let one = seq![s.last()];
        assert(one.drop_last() =~= Seq::<Atom>::empty());
        assert(one.filter(vis) =~= (if vis(s.last()) {
            one
        } else {
            Seq::<Atom>::empty()
        })) by {
            reveal_with_fuel(Seq::filter, 2);
        }
        assert(visible_ids(s) =~= (if run.status.spec_is_visible() {
            span_ids(run.id_span())
        } else {
            Seq::<ID>::empty()
        }));
    }
}

/// Every span holds an identifier, and no span starts where the one before
/// it ends.
pub open spec fn spans_merged(spans: Seq<IdSpan>) -> bool {
    &&& forall|k: int|
        0 <= k < spans.len() ==> (#[trigger] spans[k]).counter.start < spans[k].counter.end
    &&& forall|k: int| 0 <= k < spans.len() - 1 ==> !(#[trigger] spans[k]).spec_mergable(spans[k + 1])
}

/// Appends the identifiers of `span`, extending the last span where `span`
/// starts where it ends.
pub fn push_span_merged(out: &mut Vec<IdSpan>, span: IdSpan)
    requires
        spans_merged(old(out)@),
        span.counter.start < span.counter.end,
    ensures
        spans_merged(final(out)@),
        spans_ids(final(out)@) == spans_ids(old(out)@) + span_ids(span),
{
    let n = out.len();
    if n > 0 && out[n - 1].is_mergable(&span) {
        let mut last = out[n - 1];
        let ghost before = last;
        last.merge(&span);
        out[n - 1] = last;
        proof {
            let s0 = old(out)@;
            let s1 = out@;
            assert(s1.drop_last() =~= s0.drop_last());
            assert(span_ids(last) =~= span_ids(before) + span_ids(span));
            assert(spans_ids(s1) =~= spans_ids(s0) + span_ids(span));
            assert forall|k: int| 0 <= k < s1.len() - 1 implies !(#[trigger] s1[k]).spec_mergable(
                s1[k + 1],
            ) by {
                assert(s1[k] == s0[k]);
                assert(!s0[k].spec_mergable(s0[k + 1]));
            }
        }
    } else {
        proof {
            assert(out@.push(span).drop_last() =~= out@);
        }
        out.push(span);
        proof {
            let s0 = old(out)@;
            let s1 = out@;
            assert forall|k: int| 0 <= k < s1.len() - 1 implies !(#[trigger] s1[k]).spec_mergable(
                s1[k + 1],
            ) by {
                if k < s0.len() - 1 {
                    assert(s1[k] == s0[k]);
                    assert(!s0[k].spec_mergable(s0[k + 1]));
                }
            }
        }
    }
}

/// Whether the two items are the same.
pub fn atom_eq(a: &Atom, b: &Atom) -> (r: bool)
    ensures
        r == (*a == *b),
{
    a.id.peer == b.id.peer && a.id.counter == b.id.counter && opt_id_eq(
        a.origin_left,
        b.origin_left,
    ) && opt_id_eq(a.origin_right, b.origin_right) && a.status.eq_status(&b.status)
}

impl Tracker {
    /// The number of visible items.
    pub fn visible_len(&self) -> (n: usize)
        requires
            self.wf_core(),
        ensures
            n == visible_len(self@),
            n == visible_ids(self@).len(),
    {
        proof {
            lemma_visible_ids_add(self@, Seq::empty());
        }
        self.content.content_len()
    }

    /// The position of the item named `id`.
    pub fn position_of(&self, id: ID) -> (r: Option<usize>)
        requires
            self.wf_core(),
        ensures
            r is Some == has_id(self@, id),
            r is Some ==> r->Some_0 == index_of(self@, id),
    {
        let found = self.content.find_id(id);
        proof {
            match found {
                Some(p) => {
                    lemma_index_of(self@, p as int);
                },
                None => {
                    if has_id(self@, id) {
                        let j = index_of(self@, id);
                        assert(self@[j].id == id);
                    }
                },
            }
        }
        found
    }

    /// The visible items, as spans of identifiers in the order of the
    /// sequence, each as long as it can be.
    pub fn iter_visible(&self) -> (spans: Vec<IdSpan>)
        requires
            self.wf_core(),
        ensures
            spans_ids(spans@) == visible_ids(self@),
            spans_merged(spans@),
    {
        let mut out: Vec<IdSpan> = Vec::new();
        let n = self.content.len();
        let mut pos: usize = 0;
        proof {
            assert(self@.take(0) =~= Seq::<Atom>::empty());
            lemma_visible_ids_add(Seq::empty(), Seq::empty());
            assert(visible_ids(Seq::<Atom>::empty()) =~= Seq::<ID>::empty());
        }
        while pos < n
            invariant
                self.wf_core(),
                n == self@.len(),
                pos <= n,
                spans_ids(out@) == visible_ids(self@.take(pos as int)),
                spans_merged(out@),
            decreases n - pos,
        {
            let run = self.content.span_at(pos);
            proof {
                assert(self@.take(pos + run.len) =~= self@.take(pos as int) + run.atoms());
                lemma_visible_ids_add(self@.take(pos as int), run.atoms());
                lemma_run_visible_ids(run);
            }
            if run.status.is_visible() {
                let end: i32 = (run.id.counter as i64 + run.len as i64) as i32;
                let span = IdSpan {
                    peer: run.id.peer,
                    counter: CounterSpan { start: run.id.counter, end },
                };
                proof {
                    assert(span == run.id_span());
                }
                push_span_merged(&mut out, span);
            } else {
                proof {
                    assert(visible_ids(self@.take(pos as int)) + Seq::<ID>::empty()
                        =~= visible_ids(self@.take(pos as int)));
                }
            }
            pos = pos + run.len;
        }
        proof {
            assert(self@.take(n as int) =~= self@);
        }
        out
    }

    /// The run that inserts `len` items named from `id` on before the
    /// visible item at `pos`: its left origin is the visible item before
    /// that position, and its right origin the item that follows that one.
    pub fn get_yspan_at_pos(&self, id: ID, pos: usize, len: usize) -> (op: YSpan)
        requires
            self.wf_core(),
            pos <= visible_len(self@),
        ensures
            op == (YSpan {
                id,
                len,
                origin_left: anchors_at(self@, pos as int).0,
                origin_right: anchors_at(self@, pos as int).1,
                status: Status { future_count: 0, delete_times: 0 },
            }),
    {
        let n = self.content.len();
        if pos == 0 {
            let right = if n > 0 {
                Some(self.content.atom_at(0).id)
            } else {
                None
            };
            return YSpan { id, len, origin_left: None, origin_right: right, status: Status::new() };
        }
        let p = self.content.visible_to_pos(pos - 1);
        proof {
            lemma_nth_visible(self@, p as int);
        }
        let left = self.content.atom_at(p).id;
        let right = if p + 1 < n {
            Some(self.content.atom_at(p + 1).id)
        } else {
            None
        };
        YSpan { id, len, origin_left: Some(left), origin_right: right, status: Status::new() }
    }

    /// The identifiers of the `len` visible items from the visible position
    /// `pos` on: one span for each item, in the order of the sequence.
    pub fn get_id_spans(&self, pos: usize, len: usize) -> (spans: IdSpanVector)
        requires
            self.wf_core(),
            pos + len <= visible_len(self@),
        ensures
            spans.wf(),
            spans.spans@ == Seq::new(len as nat, |k: int| unit_span(visible_ids(self@)[pos + k])),
            forall|id: ID|
                #[trigger] spans.spec_contains(id) <==> exists|k: int|
                    pos <= k < pos + len && #[trigger] visible_ids(self@)[k] == id,
    {
        let mut out = IdSpanVector::new();
        if len == 0 {
            proof {
                assert(out.spans@ =~= Seq::new(0nat, |k: int| unit_span(visible_ids(self@)[pos + k])));
            }
            return out;
        }
        let n = self.content.len();
        let mut p: usize = self.content.visible_to_pos(pos);
        let mut taken: usize = 0;
        proof {
            lemma_visible_ids_add(self@, Seq::empty());
            assert(out.spans@ =~= Seq::new(0nat, |k: int| unit_span(visible_ids(self@)[pos + k])));
        }
        while taken < len
            invariant
                self.wf_core(),
                n == self@.len(),
                taken <= len,
                pos + len <= visible_len(self@),
                visible_ids(self@).len() == visible_len(self@),
                p <= n,
                visible_len(self@.take(p as int)) == pos + taken,
                out.wf(),
                out.spans@ == Seq::new(
                    taken as nat,
                    |k: int| unit_span(visible_ids(self@)[pos + k]),
                ),
                forall|k: int|
                    0 <= k < out.spans.len() ==> has_id(
                        self@.take(p as int),
                        span_start(#[trigger] out.spans[k]),
                    ),
            decreases n - p,
        {
            proof {
                if p == n {
                    assert(self@.take(n as int) =~= self@);
                }
            }
            let run = self.content.span_at(p);
            let a = run.atom_at(0);
            proof {
                assert(run.atoms()[0] == self@.subrange(p as int, p + run.len)[0]);
                assert(a == self@[p as int]);
                lemma_visible_take(self@, p as int, p + 1);
                assert(self@.take(p + 1) =~= self@.take(p as int) + seq![self@[p as int]]);
                lemma_visible_len_add(self@.take(p as int), seq![self@[p as int]]);
                lemma_visible_one(self@[p as int]);
            }
            if a.status.is_visible() {
                let span = IdSpan {
                    peer: a.id.peer,
                    counter: CounterSpan { start: a.id.counter, end: a.id.counter + 1 },
                };
                let ghost before = out;
                proof {
                    assert(visible_ids(self@)[pos + taken] == a.id);
                    assert(span == unit_span(a.id));
                    assert forall|k: int| 0 <= k < out.spans.len() implies !(
                    #[trigger] out.spans[k]).spec_overlaps(span) by {
                        if out.spans[k].spec_overlaps(span) {
                            assert(out.spans[k] == unit_span(visible_ids(self@)[pos + k]));
                            assert(span_start(out.spans[k]) == a.id);
                            let j = choose|j: int|
                                0 <= j < self@.take(p as int).len() && (#[trigger] self@.take(
                                    p as int,
                                )[j]).id == a.id;
                            assert(self@[j].id != self@[p as int].id);
                        }
                    }
                }
                let added = out.push(span);
                proof {
                    assert(added);
                    assert(out.spans@ =~= Seq::new(
                        (taken + 1) as nat,
                        |k: int| unit_span(visible_ids(self@)[pos + k]),
                    ));
                    assert forall|k: int| 0 <= k < out.spans.len() implies has_id(
                        self@.take(p + 1),
                        span_start(#[trigger] out.spans[k]),
                    ) by {
                        if k < before.spans.len() {
                            assert(out.spans[k] == before.spans[k]);
                            let id = span_start(before.spans[k]);
                            let j = choose|j: int|
                                0 <= j < self@.take(p as int).len() && (#[trigger] self@.take(
                                    p as int,
                                )[j]).id == id;
                            assert(self@.take(p + 1)[j].id == id);
                        } else {
                            assert(self@.take(p + 1)[p as int].id == a.id);
                        }
                    }
                }
                taken = taken + 1;
            } else {
                proof {
                    assert forall|k: int| 0 <= k < out.spans.len() implies has_id(
                        self@.take(p + 1),
                        span_start(#[trigger] out.spans[k]),
                    ) by {
                        let id = span_start(out.spans[k]);
                        let j = choose|j: int|
                            0 <= j < self@.take(p as int).len() && (#[trigger] self@.take(
                                p as int,
                            )[j]).id == id;
                        assert(self@.take(p + 1)[j].id == id);
                    }
                }
            }
            p = p + 1;
        }
        proof {
            assert forall|id: ID| #[trigger]
                out.spec_contains(id) <==> exists|k: int|
                    pos <= k < pos + len && #[trigger] visible_ids(self@)[k] == id by {
                if out.spec_contains(id) {
                    let m = choose|m: int|
                        0 <= m < out.spans.len() && (#[trigger] out.spans[m]).spec_contains(id);
                    assert(out.spans[m] == unit_span(visible_ids(self@)[pos + m]));
                    assert(visible_ids(self@)[pos + m] == id);
                }
                if exists|k: int| pos <= k < pos + len && #[trigger] visible_ids(self@)[k] == id {
                    let k = choose|k: int|
                        pos <= k < pos + len && #[trigger] visible_ids(self@)[k] == id;
                    assert(out.spans[k - pos] == unit_span(visible_ids(self@)[pos + (k - pos)]));
                    assert(out.spans[k - pos].spec_contains(id)) by {
                        let j = choose|j: int|
                            0 <= j < self@.take(p as int).len() && (#[trigger] self@.take(
                                p as int,
                            )[j]).id == span_start(out.spans[k - pos]);
                        assert(crate::tracker::model::known(self@, self.head_vv@));
                        assert(self@[j].id.counter >= 0);
                        assert(self@[j].id == id);
                    }
                }
            }
        }
        out
    }

    /// Whether both trackers hold the same items in the same order with the same status.
    pub fn is_content_eq(&self, other: &Tracker) -> (r: bool)
        requires
            self.wf_core(),
            other.wf_core(),
        ensures
            r == (self@ == other@),
    {
        let n = self.content.len();
        if n != other.content.len() {
            return false;
        }
        let mut i: usize = 0;
        while i < n
            invariant
                self.wf_core(),
                other.wf_core(),
                n == self@.len(),
                n == other@.len(),
                i <= n,
                self@.take(i as int) == other@.take(i as int),
            decreases n - i,
        {
            let a = self.content.atom_at(i);
            let b = other.content.atom_at(i);
            if !atom_eq(&a, &b) {
                return false;
            }
            proof {
                assert(self@.take(i + 1) =~= self@.take(i as int).push(a));
                assert(other@.take(i + 1) =~= other@.take(i as int).push(b));
            }
            i = i + 1;
        }
        proof {
            assert(self@.take(n as int) =~= self@);
            assert(other@.take(n as int) =~= other@);
        }
        true
    }
}

} // verus!
