//! Leaves: short lists of runs, kept merged.

use vstd::prelude::*;
use crate::cursor_map::{points, same_at, CursorMap, LeafHandle};
use crate::id::ID;
use crate::rle_tree::{
    concat, lemma_concat_push, lemma_concat_split, Arena, Cache, NodeHandle, MAX_CHILDREN_NUM, MIN_CHILDREN_NUM,
};
use crate::span::IdSpan;
use crate::y_span::{
    distinct_ids, has_id, lemma_distinct_parts, lemma_has_id_add, lemma_visible_len_add, visible_len,
    Atom, YSpan,
};

verus! {

/// The items of each run.
pub open spec fn span_parts(s: Seq<YSpan>) -> Seq<Seq<Atom>> {
    Seq::new(s.len(), |i: int| s[i].atoms())
}

/// The items of a list of runs, in order.
pub open spec fn spans_atoms(s: Seq<YSpan>) -> Seq<Atom> {
    concat(span_parts(s))
}

/// Every run is valid and no run continues the one before it.
pub open spec fn spans_wf(s: Seq<YSpan>) -> bool {
    &&& forall|i: int| 0 <= i < s.len() ==> (#[trigger] s[i]).wf()
    &&& forall|i: int| 0 <= i < s.len() - 1 ==> !(#[trigger] s[i]).spec_mergable(s[i + 1])
}

/// A further run adds its items at the end.
pub proof fn lemma_spans_push(s: Seq<YSpan>, x: YSpan)
    ensures
        spans_atoms(s.push(x)) == spans_atoms(s) + x.atoms(),
{
    assert(span_parts(s.push(x)) =~= span_parts(s).push(x.atoms()));
    lemma_concat_push(span_parts(s), x.atoms());
}

/// No runs hold no items.
pub proof fn lemma_spans_empty()
    ensures
        spans_atoms(Seq::<YSpan>::empty()) == Seq::<Atom>::empty(),
        spans_wf(Seq::<YSpan>::empty()),
{
    assert(span_parts(Seq::<YSpan>::empty()) =~= Seq::<Seq<Atom>>::empty());
}

/// The first `i + 1` runs are the first `i` followed by run `i`.
pub proof fn lemma_spans_step(s: Seq<YSpan>, i: int)
    requires
        0 <= i < s.len(),
    ensures
        spans_atoms(s.take(i + 1)) == spans_atoms(s.take(i)) + s[i].atoms(),
        spans_atoms(s.take(i + 1)).len() <= spans_atoms(s).len(),
        visible_len(spans_atoms(s.take(i + 1))) == visible_len(spans_atoms(s.take(i)))
            + visible_len(s[i].atoms()),
{
    assert(s.take(i + 1) =~= s.take(i).push(s[i]));
    lemma_spans_push(s.take(i), s[i]);
    assert(span_parts(s.take(i + 1)) =~= span_parts(s).take(i + 1));
    lemma_concat_split(span_parts(s), i + 1);
    lemma_visible_len_add(spans_atoms(s.take(i)), s[i].atoms());
}

/// The items of a list of runs are those of its first `i` runs followed by those of the rest.
pub proof fn lemma_spans_split(s: Seq<YSpan>, i: int)
    requires
        0 <= i <= s.len(),
    ensures
        spans_atoms(s) == spans_atoms(s.take(i)) + spans_atoms(s.skip(i)),
        spans_wf(s) ==> spans_wf(s.take(i)) && spans_wf(s.skip(i)),
{
    lemma_concat_split(span_parts(s), i);
    assert(span_parts(s.take(i)) =~= span_parts(s).take(i));
    assert(span_parts(s.skip(i)) =~= span_parts(s).skip(i));
    if spans_wf(s) {
        let a = s.take(i);
        let b = s.skip(i);
        assert forall|j: int| 0 <= j < a.len() - 1 implies !(#[trigger] a[j]).spec_mergable(
            a[j + 1],
        ) by {
            assert(a[j] == s[j]);
        }
        assert forall|j: int| 0 <= j < b.len() - 1 implies !(#[trigger] b[j]).spec_mergable(
            b[j + 1],
        ) by {
            assert(b[j] == s[j + i]);
            assert(!s[j + i].spec_mergable(s[j + i + 1]));
        }
        assert forall|j: int| 0 <= j < b.len() implies (#[trigger] b[j]).wf() by {
            assert(b[j] == s[j + i]);
        }
    }
}

/// Appends `x` to a merged list, extending the last run where `x` continues it.
pub fn push_merged(v: &mut Vec<YSpan>, x: YSpan)
    requires
        spans_wf(old(v)@),
        x.wf(),
    ensures
        spans_wf(final(v)@),
        spans_atoms(final(v)@) == spans_atoms(old(v)@) + x.atoms(),
        old(v).len() <= final(v).len() <= old(v).len() + 1,
        final(v).len() >= 1,
{
    let n = v.len();
    if n > 0 && v[n - 1].is_mergable(&x) {
        let mut last = v[n - 1];
        last.merge(&x);
        v[n - 1] = last;
        proof {
            let s0 = old(v)@;
            let s1 = v@;
            assert(s1 =~= s0.drop_last().push(last));
            assert(s0 =~= s0.drop_last().push(s0.last()));
            lemma_spans_push(s0.drop_last(), last);
            lemma_spans_push(s0.drop_last(), s0.last());
            assert(spans_atoms(s1) =~= spans_atoms(s0) + x.atoms());
            assert forall|i: int| 0 <= i < s1.len() - 1 implies !(#[trigger] s1[i]).spec_mergable(
                s1[i + 1],
            ) by {
                assert(s1[i] == s0[i]);
                assert(!s0[i].spec_mergable(s0[i + 1]));
            }
        }
    } else {
        proof {
            lemma_spans_push(v@, x);
        }
        v.push(x);
        proof {
            let s0 = old(v)@;
            let s1 = v@;
            assert forall|i: int| 0 <= i < s1.len() - 1 implies !(#[trigger] s1[i]).spec_mergable(
                s1[i + 1],
            ) by {
                if i < s0.len() - 1 {
                    assert(s1[i] == s0[i]);
                    assert(!s0[i].spec_mergable(s0[i + 1]));
                }
            }
        }
    }
}

/// A leaf of the tree: at most `MAX_CHILDREN_NUM` runs.
#[derive(Debug)]
pub struct LeafNode {
    pub children: Vec<YSpan>,
    pub cache: Cache,
    pub handle: LeafHandle,
    pub parent: NodeHandle,
}

impl LeafNode {
    /// The items of the leaf, in order.
    pub open spec fn atoms(self) -> Seq<Atom> {
        spans_atoms(self.children@)
    }

    /// The runs are valid and merged, there are not too many, and the cache is right.
    pub open spec fn wf(self) -> bool {
        &&& spans_wf(self.children@)
        &&& self.children.len() <= MAX_CHILDREN_NUM
        &&& self.cache.describes(self.atoms())
    }

    /// The map says of every item of the leaf that it rests in this leaf.
    pub open spec fn indexed(self, m: Map<ID, LeafHandle>) -> bool {
        forall|j: int|
            0 <= j < self.atoms().len() ==> points(m, (#[trigger] self.atoms()[j]).id, self.handle)
    }

    /// An empty leaf under `parent`.
    pub fn new(arena: &mut Arena, parent: NodeHandle) -> (leaf: LeafNode)
        ensures
            leaf.wf(),
            leaf.atoms() == Seq::<Atom>::empty(),
            leaf.parent == parent,
            leaf.handle == old(arena).next,
            leaf.children.len() == 0,
    {
        proof {
            lemma_spans_empty();
        }
        let handle = arena.fresh();
        assert(visible_len(Seq::<Atom>::empty()) == 0);
        LeafNode { children: Vec::new(), cache: Cache { len: 0, visible: 0 }, handle, parent }
    }

    /// The number of items.
    pub fn len(&self) -> (n: usize)
        requires
            self.wf(),
        ensures
            n == self.atoms().len(),
    {
        self.cache.len
    }

    /// Recomputes the cache from the runs.
    pub fn update_cache(&mut self)
        requires
            spans_wf(old(self).children@),
            old(self).atoms().len() <= usize::MAX,
        ensures
            final(self).children == old(self).children,
            final(self).handle == old(self).handle,
            final(self).parent == old(self).parent,
            final(self).cache.describes(final(self).atoms()),
    {
        let mut len: usize = 0;
        let mut visible: usize = 0;
        let n = self.children.len();
        let mut i: usize = 0;
        proof {
            assert(self.children@.take(0) =~= Seq::<YSpan>::empty());
            lemma_spans_empty();
            assert(visible_len(Seq::<Atom>::empty()) == 0);
        }
        while i < n
            invariant
                n == self.children.len(),
                i <= n,
                spans_wf(self.children@),
                self.atoms().len() <= usize::MAX,
                len == spans_atoms(self.children@.take(i as int)).len(),
                visible == visible_len(spans_atoms(self.children@.take(i as int))),
                visible <= len,
            decreases n - i,
        {
            proof {
                lemma_spans_step(self.children@, i as int);
                self.children@[i as int].lemma_atoms_visible();
            }
            let c = &self.children[i];
            len = len + c.atom_len();
            visible = visible + c.content_len();
            i = i + 1;
        }
        proof {
            assert(self.children@.take(n as int) =~= self.children@);
        }
        self.cache = Cache { len, visible };
    }

    /// Reports every run of the leaf to `notify`.
    pub fn notify_all(&self, notify: &mut CursorMap)
        requires
            spans_wf(self.children@),
        ensures
            forall|id: ID| has_id(self.atoms(), id) ==> #[trigger] points(final(notify)@, id, self.handle),
            forall|id: ID|
                !has_id(self.atoms(), id) ==> #[trigger] same_at(old(notify)@, final(notify)@, id),
            self.indexed(final(notify)@),
    {
        let n = self.children.len();
        let mut i: usize = 0;
        proof {
            assert(self.children@.take(0) =~= Seq::<YSpan>::empty());
            lemma_spans_empty();
        }
        while i < n
            invariant
                n == self.children.len(),
                i <= n,
                spans_wf(self.children@),
                forall|id: ID|
                    has_id(spans_atoms(self.children@.take(i as int)), id) ==> #[trigger] points(
                        notify@,
                        id,
                        self.handle,
                    ),
                forall|id: ID|
                    !has_id(spans_atoms(self.children@.take(i as int)), id) ==> #[trigger] same_at(
                        old(notify)@,
                        notify@,
                        id,
                    ),
            decreases n - i,
        {
            let c = &self.children[i];
            let end: i32 = (c.id.counter as i64 + c.len as i64) as i32;
            let ghost before = notify@;
            let ghost prev = spans_atoms(self.children@.take(i as int));
            let ghost next = spans_atoms(self.children@.take(i + 1));
            notify.set(IdSpan::new(c.id.peer, c.id.counter, end), self.handle);
            proof {
                lemma_spans_step(self.children@, i as int);
                assert forall|id: ID| has_id(next, id) implies #[trigger] points(
                    notify@,
                    id,
                    self.handle,
                ) by {
                    lemma_has_id_add(prev, c.atoms(), id);
                    c.lemma_span_has_id(id);
                    if !has_id(c.atoms(), id) {
                        assert(points(before, id, self.handle));
                    }
                }
                assert forall|id: ID| !has_id(next, id) implies #[trigger] same_at(
                    old(notify)@,
                    notify@,
                    id,
                ) by {
                    lemma_has_id_add(prev, c.atoms(), id);
                    c.lemma_span_has_id(id);
                    assert(same_at(old(notify)@, before, id));
                }
            }
            i = i + 1;
        }
        proof {
            assert(self.children@.take(n as int) =~= self.children@);
            assert forall|j: int| 0 <= j < self.atoms().len() implies points(
                notify@,
                (#[trigger] self.atoms()[j]).id,
                self.handle,
            ) by {
                assert(has_id(self.atoms(), self.atoms()[j].id));
            }
        }
    }

    /// Replaces the runs by `out`, handing the last runs to a new leaf where
    /// they are too many, and reports every run to `notify`.
    pub fn install(&mut self, out: Vec<YSpan>, arena: &mut Arena, notify: &mut CursorMap) -> (r:
        Result<(), LeafNode>)
        requires
            spans_wf(out@),
            out.len() <= MAX_CHILDREN_NUM + 2,
            spans_atoms(out@).len() <= usize::MAX,
        ensures
            final(self).wf(),
            final(self).handle == old(self).handle,
            final(self).parent == old(self).parent,
            match r {
                Ok(()) => final(self).atoms() == spans_atoms(out@),
                Err(new) => {
                    &&& new.wf()
                    &&& new.parent == old(self).parent
                    &&& final(self).atoms() + new.atoms() == spans_atoms(out@)
                    &&& final(self).children.len() >= 1
                    &&& new.children.len() >= 1
                },
            },
            forall|id: ID|
                !has_id(spans_atoms(out@), id) ==> #[trigger] same_at(
                    old(notify)@,
                    final(notify)@,
                    id,
                ),
            distinct_ids(spans_atoms(out@)) ==> final(self).indexed(final(notify)@) && (r is Err
                ==> r->Err_0.indexed(final(notify)@)),
            r is Err <==> out.len() > MAX_CHILDREN_NUM,
            r is Err ==> r->Err_0.children.len() == MIN_CHILDREN_NUM && r->Err_0.handle == old(
                arena,
            ).next,
    {
        self.children = out;
        if self.children.len() > MAX_CHILDREN_NUM {
            let at = self.children.len() - MIN_CHILDREN_NUM;
            proof {
                lemma_spans_split(out@, at as int);
                assert(out@.take(at as int) =~= out@.subrange(0, at as int));
                assert(out@.skip(at as int) =~= out@.subrange(at as int, out@.len() as int));
            }
            let right = self.children.split_off(at);
            let handle = arena.fresh();
            let mut new = LeafNode {
                children: right,
                cache: Cache { len: 0, visible: 0 },
                handle,
                parent: self.parent,
            };
            self.update_cache();
            new.update_cache();
            self.notify_all(notify);
            let ghost mid = notify@;
            new.notify_all(notify);
            proof {
                let whole = spans_atoms(out@);
                assert(whole == self.atoms() + new.atoms());
                assert forall|id: ID| !has_id(whole, id) implies #[trigger] same_at(
                    old(notify)@,
                    notify@,
                    id,
                ) by {
                    lemma_has_id_add(self.atoms(), new.atoms(), id);
                    assert(same_at(old(notify)@, mid, id));
                    assert(same_at(mid, notify@, id));
                }
                if distinct_ids(whole) {
                    assert forall|j: int| 0 <= j < self.atoms().len() implies points(
                        notify@,
                        (#[trigger] self.atoms()[j]).id,
                        self.handle,
                    ) by {
                        let id = self.atoms()[j].id;
                        assert(has_id(self.atoms(), id));
                        lemma_distinct_parts(self.atoms(), new.atoms(), id);
                        assert(points(mid, id, self.handle));
                        assert(same_at(mid, notify@, id));
                    }
                }
            }
            Err(new)
        } else {
            self.update_cache();
            self.notify_all(notify);
            Ok(())
        }
    }

    /// Inserts the items of `value` before the item at `pos`.
    ///
    /// Where the leaf then holds too many runs, the last of them are handed
    /// to a new leaf, which is returned.
    pub fn insert(&mut self, pos: usize, value: YSpan, arena: &mut Arena, notify: &mut CursorMap) -> (r:
        Result<(), LeafNode>)
        requires
            old(self).wf(),
            value.wf(),
            pos <= old(self).atoms().len(),
            old(self).atoms().len() + value.len <= usize::MAX,
        ensures
            final(self).wf(),
            final(self).handle == old(self).handle,
            final(self).parent == old(self).parent,
            match r {
                Ok(()) => final(self).atoms() == old(self).atoms().take(pos as int) + value.atoms()
                    + old(self).atoms().skip(pos as int),
                Err(new) => {
                    &&& new.wf()
                    &&& new.parent == old(self).parent
                    &&& final(self).atoms() + new.atoms() == old(self).atoms().take(pos as int)
                        + value.atoms() + old(self).atoms().skip(pos as int)
                    &&& final(self).children.len() >= 1
                    &&& new.children.len() >= 1
                },
            },
            forall|id: ID|
                !has_id(
                    old(self).atoms().take(pos as int) + value.atoms() + old(self).atoms().skip(
                        pos as int,
                    ),
                    id,
                ) ==> #[trigger] same_at(old(notify)@, final(notify)@, id),
            distinct_ids(
                old(self).atoms().take(pos as int) + value.atoms() + old(self).atoms().skip(
                    pos as int,
                ),
            ) ==> final(self).indexed(final(notify)@) && (r is Err ==> r->Err_0.indexed(
                final(notify)@,
            )),
            r is Err ==> old(self).children.len() + 2 > MAX_CHILDREN_NUM,
    {
        let mut out: Vec<YSpan> = Vec::new();
        let n = self.children.len();
        let mut acc: usize = 0;
        let mut inserted = false;
        let mut i: usize = 0;
        let ghost all = self.atoms();
        proof {
            assert(self.children@.take(0) =~= Seq::<YSpan>::empty());
            lemma_spans_empty();
        }
        while i < n
            invariant
                n == self.children.len(),
                n <= MAX_CHILDREN_NUM,
                i <= n,
                self.wf(),
                value.wf(),
                all == self.atoms(),
                pos <= all.len(),
                spans_wf(out@),
                out.len() <= i + (if inserted {
                    2nat
                } else {
                    0nat
                }),
                acc == spans_atoms(self.children@.take(i as int)).len(),
                acc <= all.len(),
                !inserted ==> acc <= pos && spans_atoms(out@) == spans_atoms(
                    self.children@.take(i as int),
                ),
                inserted ==> pos <= acc && spans_atoms(out@) == spans_atoms(
                    self.children@.take(i as int),
                ).take(pos as int) + value.atoms() + spans_atoms(self.children@.take(i as int)).skip(
                    pos as int,
                ),
            decreases n - i,
        {
            let c = self.children[i];
            let ghost prev = spans_atoms(self.children@.take(i as int));
            let ghost next = spans_atoms(self.children@.take(i as int + 1));
            proof {
                lemma_spans_step(self.children@, i as int);
            }
            if !inserted && pos < acc + c.len {
                let off = pos - acc;
                if off > 0 {
                    push_merged(&mut out, c.slice(0, off));
                }
                push_merged(&mut out, value);
                push_merged(&mut out, c.slice(off, c.len));
                inserted = true;
                proof {
                    assert(spans_atoms(out@) =~= next.take(pos as int) + value.atoms() + next.skip(
                        pos as int,
                    ));
                }
            } else {
                push_merged(&mut out, c);
                proof {
                    if inserted {
                        assert(spans_atoms(out@) =~= next.take(pos as int) + value.atoms()
                            + next.skip(pos as int));
                    }
                }
            }
            acc = acc + c.len;
            i = i + 1;
        }
        proof {
            assert(self.children@.take(n as int) =~= self.children@);
        }
        if !inserted {
            push_merged(&mut out, value);
            proof {
                assert(spans_atoms(out@) =~= all.take(pos as int) + value.atoms() + all.skip(
                    pos as int,
                ));
            }
        }
        self.install(out, arena, notify)
    }

    /// Removes the items `from..to`; an absent bound stands for that end of the leaf.
    ///
    /// Removing the middle of a run leaves two runs, so here too a new leaf
    /// may be returned.
    #[verifier::rlimit(50)]
    pub fn delete(
        &mut self,
        from: Option<usize>,
        to: Option<usize>,
        arena: &mut Arena,
        notify: &mut CursorMap,
    ) -> (r: Result<(), LeafNode>)
        requires
            old(self).wf(),
            spec_range_start(from) <= spec_range_end(to, old(self).atoms().len()) <= old(
                self,
            ).atoms().len(),
        ensures
            final(self).wf(),
            final(self).handle == old(self).handle,
            final(self).parent == old(self).parent,
            match r {
                Ok(()) => final(self).atoms() == old(self).atoms().take(spec_range_start(from) as int)
                    + old(self).atoms().skip(
                    spec_range_end(to, old(self).atoms().len()) as int,
                ),
                Err(new) => {
                    &&& new.wf()
                    &&& new.parent == old(self).parent
                    &&& final(self).atoms() + new.atoms() == old(self).atoms().take(
                        spec_range_start(from) as int,
                    ) + old(self).atoms().skip(spec_range_end(to, old(self).atoms().len()) as int)
                    &&& final(self).children.len() >= 1
                    &&& new.children.len() >= 1
                },
            },
            forall|id: ID|
                !has_id(
                    old(self).atoms().take(spec_range_start(from) as int) + old(self).atoms().skip(
                        spec_range_end(to, old(self).atoms().len()) as int,
                    ),
                    id,
                ) ==> #[trigger] same_at(old(notify)@, final(notify)@, id),
            distinct_ids(
                old(self).atoms().take(spec_range_start(from) as int) + old(self).atoms().skip(
                    spec_range_end(to, old(self).atoms().len()) as int,
                ),
            ) ==> final(self).indexed(final(notify)@) && (r is Err ==> r->Err_0.indexed(
                final(notify)@,
            )),
            r is Err ==> old(self).children.len() == MAX_CHILDREN_NUM && spec_range_end(
                to,
                old(self).atoms().len(),
            ) < old(self).atoms().len(),
    {
        let s: usize = match from {
            Some(x) => x,
            None => 0,
        };
        let e: usize = match to {
            Some(x) => x,
            None => self.cache.len,
        };
        let mut out: Vec<YSpan> = Vec::new();
        let n = self.children.len();
        let mut acc: usize = 0;
        let mut i: usize = 0;
        let ghost all = self.atoms();
        proof {
            assert(self.children@.take(0) =~= Seq::<YSpan>::empty());
            lemma_spans_empty();
        }
        while i < n
            invariant
                n == self.children.len(),
                n <= MAX_CHILDREN_NUM,
                i <= n,
                self.wf(),
                all == self.atoms(),
                s <= e <= all.len(),
                spans_wf(out@),
                out.len() <= i + (if s < acc && e < acc {
                    1nat
                } else {
                    0nat
                }),
                acc == spans_atoms(self.children@.take(i as int)).len(),
                acc <= all.len(),
                spans_atoms(out@) == spans_atoms(self.children@.take(i as int)).take(
                    if s < acc {
                        s as int
                    } else {
                        acc as int
                    },
                ) + spans_atoms(self.children@.take(i as int)).skip(
                    if e < acc {
                        e as int
                    } else {
                        acc as int
                    },
                ),
            decreases n - i,
        {
            let c = self.children[i];
            let ghost prev = spans_atoms(self.children@.take(i as int));
            let ghost next = spans_atoms(self.children@.take(i as int + 1));
            proof {
                lemma_spans_step(self.children@, i as int);
            }
            let end = acc + c.len;
            if s > acc {
                let l = if s < end {
                    s - acc
                } else {
                    c.len
                };
                push_merged(&mut out, c.slice(0, l));
            }
            if e < end {
                let r0 = if e > acc {
                    e - acc
                } else {
                    0
                };
                push_merged(&mut out, c.slice(r0, c.len));
            }
            proof {
                let a2 = if s < end {
                    s as int
                } else {
                    end as int
                };
                let b2 = if e < end {
                    e as int
                } else {
                    end as int
                };
                assert(spans_atoms(out@) =~= next.take(a2) + next.skip(b2));
            }
            acc = end;
            i = i + 1;
        }
        proof {
            assert(self.children@.take(n as int) =~= self.children@);
            assert(spans_atoms(out@) =~= all.take(s as int) + all.skip(e as int));
        }
        self.install(out, arena, notify)
    }

    /// The rest of the run that holds the item at `pos`, from that item on.
    pub fn span_at(&self, pos: usize) -> (r: YSpan)
        requires
            self.wf(),
            pos < self.atoms().len(),
        ensures
            r.wf(),
            pos + r.len <= self.atoms().len(),
            r.atoms() == self.atoms().subrange(pos as int, pos + r.len),
    {
        let n = self.children.len();
        let mut acc: usize = 0;
        let mut i: usize = 0;
        proof {
            assert(self.children@.take(0) =~= Seq::<YSpan>::empty());
            lemma_spans_empty();
        }
        while i < n
            invariant
                n == self.children.len(),
                i <= n,
                self.wf(),
                pos < self.atoms().len(),
                acc == spans_atoms(self.children@.take(i as int)).len(),
                acc <= pos,
            decreases n - i,
        {
            let c = &self.children[i];
            proof {
                lemma_spans_step(self.children@, i as int);
                lemma_spans_split(self.children@, i as int + 1);
            }
            if pos < acc + c.len {
                let r = c.slice(pos - acc, c.len);
                proof {
                    assert(r.atoms() =~= self.atoms().subrange(pos as int, pos + r.len));
                }
                return r;
            }
            acc = acc + c.len;
            i = i + 1;
        }
        proof {
            assert(self.children@.take(n as int) =~= self.children@);
            assert(false);
        }
        self.children[0]
    }

    /// The item at `pos`.
    pub fn atom_at(&self, pos: usize) -> (a: Atom)
        requires
            self.wf(),
            pos < self.atoms().len(),
        ensures
            a == self.atoms()[pos as int],
    {
        let s = self.span_at(pos);
        proof {
            assert(s.atoms()[0] == self.atoms().subrange(pos as int, pos + s.len)[0]);
        }
        s.atom_at(0)
    }

    /// The number of visible items before position `pos`.
    pub fn visible_before(&self, pos: usize) -> (v: usize)
        requires
            self.wf(),
            pos <= self.atoms().len(),
        ensures
            v == visible_len(self.atoms().take(pos as int)),
    {
        let n = self.children.len();
        let mut acc: usize = 0;
        let mut vacc: usize = 0;
        let mut i: usize = 0;
        proof {
            assert(self.children@.take(0) =~= Seq::<YSpan>::empty());
            lemma_spans_empty();
            assert(visible_len(Seq::<Atom>::empty()) == 0);
        }
        while i < n
            invariant
                n == self.children.len(),
                i <= n,
                self.wf(),
                pos <= self.atoms().len(),
                acc == spans_atoms(self.children@.take(i as int)).len(),
                vacc == visible_len(spans_atoms(self.children@.take(i as int))),
                acc <= pos,
                vacc <= acc,
            decreases n - i,
        {
            let c = &self.children[i];
            let ghost prev = spans_atoms(self.children@.take(i as int));
            proof {
                lemma_spans_step(self.children@, i as int);
                lemma_spans_split(self.children@, i as int + 1);
                c.lemma_atoms_visible();
            }
            if pos < acc + c.len {
                let k = pos - acc;
                proof {
                    assert(self.atoms().take(acc + k) =~= prev + c.atoms().take(k as int));
                    lemma_visible_len_add(prev, c.atoms().take(k as int));
                    if k > 0 {
                        c.lemma_slice(0, k as int);
                        c.spec_slice(0, k as int).lemma_atoms_visible();
                    } else {
                        assert(c.atoms().take(0) =~= Seq::<Atom>::empty());
                        assert(visible_len(Seq::<Atom>::empty()) == 0);
                    }
                }
                return if c.status.is_visible() {
                    vacc + k
                } else {
                    vacc
                };
            }
            acc = acc + c.len;
            vacc = vacc + c.content_len();
            i = i + 1;
        }
        proof {
            assert(self.children@.take(n as int) =~= self.children@);
            assert(self.atoms().take(pos as int) =~= self.atoms());
        }
        vacc
    }

    /// The position of the visible item that `vis` visible items precede.
    pub fn visible_to_pos(&self, vis: usize) -> (p: usize)
        requires
            self.wf(),
            vis < visible_len(self.atoms()),
        ensures
            p < self.atoms().len(),
            self.atoms()[p as int].status.spec_is_visible(),
            visible_len(self.atoms().take(p as int)) == vis,
    {
        let n = self.children.len();
        let mut acc: usize = 0;
        let mut vacc: usize = 0;
        let mut i: usize = 0;
        proof {
            assert(self.children@.take(0) =~= Seq::<YSpan>::empty());
            lemma_spans_empty();
            assert(visible_len(Seq::<Atom>::empty()) == 0);
        }
        while i < n
            invariant
                n == self.children.len(),
                i <= n,
                self.wf(),
                vis < visible_len(self.atoms()),
                acc == spans_atoms(self.children@.take(i as int)).len(),
                vacc == visible_len(spans_atoms(self.children@.take(i as int))),
                vacc <= vis,
                vacc <= acc,
            decreases n - i,
        {
            let c = &self.children[i];
            let ghost prev = spans_atoms(self.children@.take(i as int));
            proof {
                lemma_spans_step(self.children@, i as int);
                lemma_spans_split(self.children@, i as int + 1);
                c.lemma_atoms_visible();
            }
            let v = c.content_len();
            if vis < vacc + v {
                let k = vis - vacc;
                proof {
                    assert(self.atoms().take(acc + k) =~= prev + c.atoms().take(k as int));
                    lemma_visible_len_add(prev, c.atoms().take(k as int));
                    if k > 0 {
                        c.lemma_slice(0, k as int);
                        c.spec_slice(0, k as int).lemma_atoms_visible();
                    } else {
                        assert(c.atoms().take(0) =~= Seq::<Atom>::empty());
                        assert(visible_len(Seq::<Atom>::empty()) == 0);
                    }
                    assert(self.atoms()[acc + k] == c.atoms()[k as int]);
                }
                return acc + k;
            }
            acc = acc + c.len;
            vacc = vacc + v;
            i = i + 1;
        }
        proof {
            assert(self.children@.take(n as int) =~= self.children@);
            assert(false);
        }
        0
    }

    /// The position of the item named `id`, if the leaf holds it.
    pub fn find_id(&self, id: ID) -> (r: Option<usize>)
        requires
            self.wf(),
        ensures
            match r {
                Some(p) => p < self.atoms().len() && self.atoms()[p as int].id == id,
                None => forall|j: int| 0 <= j < self.atoms().len() ==> (#[trigger] self.atoms()[j]).id
                    != id,
            },
    {
        let n = self.children.len();
        let mut acc: usize = 0;
        let mut i: usize = 0;
        proof {
            assert(self.children@.take(0) =~= Seq::<YSpan>::empty());
            lemma_spans_empty();
        }
        while i < n
            invariant
                n == self.children.len(),
                i <= n,
                self.wf(),
                acc == spans_atoms(self.children@.take(i as int)).len(),
                acc <= self.atoms().len(),
                forall|j: int|
                    0 <= j < acc ==> (#[trigger] spans_atoms(self.children@.take(i as int))[j]).id
                        != id,
            decreases n - i,
        {
            let c = &self.children[i];
            proof {
                lemma_spans_step(self.children@, i as int);
                lemma_spans_split(self.children@, i as int + 1);
            }
            if c.contains_id(id) {
                let k: usize = (id.counter as i64 - c.id.counter as i64) as usize;
                proof {
                    assert(c.atoms()[k as int].id == id);
                }
                return Some(acc + k);
            }
            proof {
                let next = spans_atoms(self.children@.take(i as int + 1));
                let prev = spans_atoms(self.children@.take(i as int));
                assert forall|j: int| 0 <= j < next.len() implies (#[trigger] next[j]).id != id by {
                    if j < prev.len() {
                        assert(next[j] == prev[j]);
                    } else {
                        assert(next[j] == c.atoms()[j - prev.len()]);
                    }
                }
            }
            acc = acc + c.len;
            i = i + 1;
        }
        proof {
            assert(self.children@.take(n as int) =~= self.children@);
        }
        None
    }
}

/// The start of a range whose lower bound may be absent.
pub open spec fn spec_range_start(from: Option<usize>) -> nat {
    match from {
        Some(x) => x as nat,
        None => 0,
    }
}

/// The start of the range, held within a sequence of `len` items.
pub open spec fn spec_clamped_start(from: Option<usize>, len: nat) -> nat {
    if spec_range_start(from) < len {
        spec_range_start(from)
    } else {
        len
    }
}

/// The end of the range, held within a sequence of `len` items and not before its start.
pub open spec fn spec_clamped_end(from: Option<usize>, to: Option<usize>, len: nat) -> nat {
    let end = if spec_range_end(to, len) < len {
        spec_range_end(to, len)
    } else {
        len
    };
    if end < spec_clamped_start(from, len) {
        spec_clamped_start(from, len)
    } else {
        end
    }
}

/// The end of a range over `len` items whose upper bound may be absent.
pub open spec fn spec_range_end(to: Option<usize>, len: nat) -> nat {
    match to {
        Some(x) => x as nat,
        None => len,
    }
}

} // verus!
