//! The tree as a whole.

use vstd::prelude::*;
use crate::cursor_map::{same_at, CursorMap, LeafHandle};
use crate::rle_tree::internal_delete::lemma_distinct_cut;
use crate::y_span::{distinct_ids, has_id};
use crate::id::ID;
use crate::rle_tree::leaf::{
    lemma_spans_empty, lemma_spans_push, spans_atoms, spec_clamped_end, spec_clamped_start,
};
use crate::rle_tree::node::InternalNode;
use crate::rle_tree::Arena;
use crate::y_span::{visible_len, Atom, StatusChange, YSpan};

verus! {

/// Taking `k` items out at `pos` and putting them back with another status
/// changes nothing else, and no name.
pub proof fn lemma_put_back(
    before: Seq<Atom>,
    piece: Seq<Atom>,
    after: Seq<Atom>,
    pos: int,
    k: int,
    change: StatusChange,
)
    requires
        0 <= pos,
        0 <= k,
        pos + k <= before.len(),
        piece.len() == k,
        forall|t: int|
            0 <= t < k ==> #[trigger] piece[t] == (Atom {
                status: before[pos + t].status.spec_apply(change),
                ..before[pos + t]
            }),
        after == (before.take(pos) + before.skip(pos + k)).take(pos) + piece + (before.take(pos)
            + before.skip(pos + k)).skip(pos),
    ensures
        after.len() == before.len(),
        forall|t: int|
            0 <= t < k ==> #[trigger] after[pos + t] == (Atom {
                status: before[pos + t].status.spec_apply(change),
                ..before[pos + t]
            }),
        forall|j: int|
            0 <= j < before.len() && !(pos <= j < pos + k) ==> #[trigger] after[j] == before[j],
        distinct_ids(before) ==> distinct_ids(after),
{
    assert(after =~= before.take(pos) + piece + before.skip(pos + k));
    assert forall|t: int| 0 <= t < k implies #[trigger] after[pos + t] == (Atom {
        status: before[pos + t].status.spec_apply(change),
        ..before[pos + t]
    }) by {
        assert(after[pos + t] == piece[t]);
    }
    assert forall|i: int| 0 <= i < after.len() implies (#[trigger] after[i]).id == before[i].id by {
        if pos <= i < pos + k {
            let t = i - pos;
            assert(after[pos + t].id == before[pos + t].id);
        }
    }
    if distinct_ids(before) {
        assert forall|i: int, j: int| 0 <= i < j < after.len() implies (#[trigger] after[i]).id != (
        #[trigger] after[j]).id by {
            assert(before[i].id != before[j].id);
        }
    }
}

/// A sequence of items, stored as runs in a balanced tree.
#[derive(Debug)]
pub struct RleTree {
    pub root: InternalNode,
    pub arena: Arena,
}

impl View for RleTree {
    type V = Seq<Atom>;

    /// The items, in order.
    open spec fn view(&self) -> Seq<Atom> {
        self.root.atoms()
    }
}

impl RleTree {
    /// The root is a valid subtree without a parent, and not the holder of
    /// a lone internal child.
    pub open spec fn wf(self) -> bool {
        &&& self.root.wf()
        &&& self.root.parent is None
        &&& !(self.root.children.len() == 1 && self.root.children[0] is Internal)
    }

    /// The map says of every item which leaf it rests in.
    pub open spec fn indexed(self, m: Map<ID, LeafHandle>) -> bool {
        self.root.indexed(m)
    }

    /// The empty sequence: a root without children that holds the first
    /// handle of a new arena.
    pub fn new() -> (t: RleTree)
        ensures
            t.wf(),
            t@ == Seq::<Atom>::empty(),
            forall|m: Map<ID, LeafHandle>| #[trigger] t.indexed(m),
            t.root.children@ == Seq::<crate::rle_tree::node::Node>::empty(),
            t.root.handle == 0,
            t.root.level() == 1,
            t.arena.next == 1,
    {
        let mut arena = Arena::new();
        let root = InternalNode::new(&mut arena, None);
        RleTree { root, arena }
    }

    /// The position of the item named `id` in a leaf named `leaf`, if such a leaf holds it.
    pub fn find_in_leaf(&self, leaf: LeafHandle, id: ID) -> (r: Option<usize>)
        requires
            self.wf(),
        ensures
            match r {
                Some(p) => p < self@.len() && self@[p as int].id == id && self.root.leaf_holds(
                    leaf,
                    id,
                ),
                None => !self.root.leaf_holds(leaf, id),
            },
    {
        self.root.find_in_leaf(leaf, id)
    }

    /// The number of items, visible or not.
    pub fn len(&self) -> (n: usize)
        requires
            self.wf(),
        ensures
            n == self@.len(),
    {
        self.root.cache.len
    }

    /// The number of visible items.
    pub fn content_len(&self) -> (n: usize)
        requires
            self.wf(),
        ensures
            n == visible_len(self@),
    {
        self.root.cache.visible
    }

    /// Inserts the items of `value` before the item at `index`.
    pub fn insert(&mut self, index: usize, value: YSpan, notify: &mut CursorMap)
        requires
            old(self).wf(),
            value.wf(),
            index <= old(self)@.len(),
            old(self)@.len() + value.len <= usize::MAX,
        ensures
            final(self).wf(),
            final(self)@ == old(self)@.take(index as int) + value.atoms() + old(self)@.skip(
                index as int,
            ),
            old(self).indexed(old(notify)@) && distinct_ids(final(self)@) ==> final(self).indexed(
                final(notify)@,
            ),
    {
        proof {
            self.root.lemma_children_kind();
        }
        let _ = self.root.insert(index, value, &mut self.arena, notify);
        proof {
            self.root.lemma_children_kind();
        }
    }

    /// Removes the items `start..end`; an absent bound stands for that end of the sequence.
    ///
    /// A bound beyond the end stands for the end, so that a removal from an
    /// empty tree changes nothing. The cursor map is written only at items
    /// that stay, and a tree without items is left as a root without children.
    pub fn delete(&mut self, start: Option<usize>, end: Option<usize>, notify: &mut CursorMap)
        requires
            old(self).wf(),
        ensures
            final(self).wf(),
            final(self)@ == old(self)@.take(spec_clamped_start(start, old(self)@.len()) as int)
                + old(self)@.skip(spec_clamped_end(start, end, old(self)@.len()) as int),
            final(self)@.len() == 0 ==> final(self).root.children.len() == 0,
            final(self).root.handle == old(self).root.handle,
            forall|id: ID|
                !has_id(final(self)@, id) ==> #[trigger] same_at(old(notify)@, final(notify)@, id),
            old(self).indexed(old(notify)@) && distinct_ids(old(self)@) ==> final(self).indexed(
                final(notify)@,
            ),
    {
        self.root.delete(start, end, &mut self.arena, notify);
    }

    /// The rest of the run that holds the item at `pos`, from that item on.
    pub fn span_at(&self, pos: usize) -> (r: YSpan)
        requires
            self.wf(),
            pos < self@.len(),
        ensures
            r.wf(),
            pos + r.len <= self@.len(),
            r.atoms() == self@.subrange(pos as int, pos + r.len),
    {
        self.root.span_at(pos)
    }

    /// The runs that hold the items `from..to`, in order, cut at both ends.
    pub fn iter_in(&self, from: usize, to: usize) -> (runs: Vec<YSpan>)
        requires
            self.wf(),
            from <= to <= self@.len(),
        ensures
            spans_atoms(runs@) == self@.subrange(from as int, to as int),
            forall|i: int| 0 <= i < runs.len() ==> (#[trigger] runs[i]).wf(),
    {
        let mut out: Vec<YSpan> = Vec::new();
        let mut pos: usize = from;
        proof {
            lemma_spans_empty();
            assert(self@.subrange(from as int, from as int) =~= Seq::<Atom>::empty());
        }
        while pos < to
            invariant
                self.wf(),
                from <= pos <= to <= self@.len(),
                spans_atoms(out@) == self@.subrange(from as int, pos as int),
                forall|i: int| 0 <= i < out.len() ==> (#[trigger] out[i]).wf(),
            decreases to - pos,
        {
            let run = self.span_at(pos);
            let k = if run.len < to - pos {
                run.len
            } else {
                to - pos
            };
            let piece = run.slice(0, k);
            proof {
                lemma_spans_push(out@, piece);
                assert(self@.subrange(from as int, pos + k) =~= self@.subrange(
                    from as int,
                    pos as int,
                ) + piece.atoms());
            }
            out.push(piece);
            pos = pos + k;
        }
        out
    }

    /// The item at `pos`.
    pub fn atom_at(&self, pos: usize) -> (a: Atom)
        requires
            self.wf(),
            pos < self@.len(),
        ensures
            a == self@[pos as int],
    {
        self.root.atom_at(pos)
    }

    /// The position of the item named `id`, if the tree holds it.
    pub fn find_id(&self, id: ID) -> (r: Option<usize>)
        requires
            self.wf(),
        ensures
            match r {
                Some(p) => p < self@.len() && self@[p as int].id == id,
                None => forall|j: int| 0 <= j < self@.len() ==> (#[trigger] self@[j]).id != id,
            },
    {
        self.root.find_id(id)
    }

    /// The number of visible items before position `pos`.
    pub fn visible_before(&self, pos: usize) -> (v: usize)
        requires
            self.wf(),
            pos <= self@.len(),
        ensures
            v == visible_len(self@.take(pos as int)),
    {
        self.root.visible_before(pos)
    }

    /// The position of the visible item that `vis` visible items precede.
    pub fn visible_to_pos(&self, vis: usize) -> (p: usize)
        requires
            self.wf(),
            vis < visible_len(self@),
        ensures
            p < self@.len(),
            self@[p as int].status.spec_is_visible(),
            visible_len(self@.take(p as int)) == vis,
    {
        self.root.visible_to_pos(vis)
    }

    /// Applies `change` to the item at `pos` and to the items that follow it
    /// in its run, `max` items at most. Returns how many items it changed.
    pub fn restyle(&mut self, pos: usize, max: usize, change: StatusChange, notify: &mut CursorMap) -> (k:
        usize)
        requires
            old(self).wf(),
            pos < old(self)@.len(),
            max >= 1,
        ensures
            final(self).wf(),
            1 <= k <= max,
            pos + k <= old(self)@.len(),
            final(self)@.len() == old(self)@.len(),
            old(self)@[pos as int].id.counter + k <= i32::MAX,
            forall|t: int|
                0 <= t < k ==> (#[trigger] old(self)@[pos + t]).id == old(self)@[pos as int].id.spec_inc(
                    t,
                ) && old(self)@[pos + t].status == old(self)@[pos as int].status,
            forall|t: int|
                0 <= t < k ==> #[trigger] final(self)@[pos + t] == (Atom {
                    status: old(self)@[pos + t].status.spec_apply(change),
                    ..old(self)@[pos + t]
                }),
            forall|j: int|
                0 <= j < old(self)@.len() && !(pos <= j < pos + k) ==> #[trigger] final(self)@[j]
                    == old(self)@[j],
            old(self).indexed(old(notify)@) && distinct_ids(old(self)@) ==> final(self).indexed(
                final(notify)@,
            ),
    {
        let ghost before = self@;
        let ghost good = self.indexed(notify@) && distinct_ids(self@);
        let run = self.span_at(pos);
        let k = if run.len < max {
            run.len
        } else {
            max
        };
        let mut piece = run.slice(0, k);
        piece.status.apply_change(change);
        proof {
            assert forall|t: int| 0 <= t < k implies (#[trigger] before[pos + t]).id
                == before[pos as int].id.spec_inc(t) && before[pos + t].status
                == before[pos as int].status && piece.atoms()[t] == (Atom {
                status: before[pos + t].status.spec_apply(change),
                ..before[pos + t]
            }) by {
                assert(run.atoms()[t] == before.subrange(pos as int, pos + run.len)[t]);
                assert(run.atoms()[0] == before.subrange(pos as int, pos + run.len)[0]);
                assert(run.spec_slice(0, k as int).atoms()[t] == run.atoms().subrange(0, k as int)[t]);
            }
            assert(run.atoms()[0] == before.subrange(pos as int, pos + run.len)[0]);
        }
        self.delete(Some(pos), Some(pos + k), notify);
        let ghost cut = self@;
        proof {
            assert(spec_clamped_start(Some(pos), before.len()) == pos);
            assert(spec_clamped_end(Some(pos), Some((pos + k) as usize), before.len()) == pos + k);
            assert(cut == before.take(pos as int) + before.skip(pos + k));
            lemma_distinct_cut(before, pos as int, pos + k);
        }
        self.insert(pos, piece, notify);
        proof {
            lemma_put_back(before, piece.atoms(), self@, pos as int, k as int, change);
        }
        k
    }

    /// Whether the tree is valid.
    pub fn check(&self) -> (ok: bool)
        ensures
            ok == (self.wf() && self.root.level() <= usize::MAX),
    {
        self.root.check() && self.root.is_root() && !(self.root.children.len() == 1
            && self.root.children[0].is_internal())
    }
}

} // verus!
