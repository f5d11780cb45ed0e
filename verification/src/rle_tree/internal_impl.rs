//! Internal nodes: insertion with splitting.

use vstd::prelude::*;
use crate::cursor_map::{same_at, CursorMap, LeafHandle};
use crate::id::ID;
use crate::rle_tree::leaf::LeafNode;
use crate::rle_tree::node::{InternalNode, Node};
use crate::rle_tree::{
    concat, lemma_concat_add, lemma_concat_at, lemma_concat_insert, lemma_concat_split,
    lemma_concat_two, lemma_concat_update, Arena, Cache, FindPosResult, NodeHandle, Position,
    MAX_CHILDREN_NUM, MIN_CHILDREN_NUM,
};
use crate::y_span::{
    distinct_ids, has_id, lemma_distinct_parts, lemma_has_id_add, lemma_visible_len_add, visible_len,
    Atom, YSpan,
};

verus! {

/// Two nodes that differ at most in the parent they name.
pub open spec fn same_subtree(a: Node, b: Node) -> bool {
    &&& a.atoms() == b.atoms()
    &&& a.level() == b.level()
    &&& a.wf() == b.wf()
    &&& a.balanced() == b.balanced()
    &&& a.spec_children_num() == b.spec_children_num()
    &&& forall|m: Map<ID, LeafHandle>| #[trigger] a.indexed(m) == b.indexed(m)
}

/// Records `parent` in the children from index `from` on.
pub fn adopt(children: &mut Vec<Node>, from: usize, parent: NodeHandle)
    requires
        from <= old(children).len(),
    ensures
        final(children).len() == old(children).len(),
        forall|k: int| 0 <= k < from ==> #[trigger] final(children)[k] == old(children)[k],
        forall|k: int|
            from <= k < old(children).len() ==> #[trigger] final(children)[k] == old(
                children,
            )[k].with_parent(parent),
        forall|k: int|
            from <= k < old(children).len() ==> same_subtree(
                #[trigger] final(children)[k],
                old(children)[k],
            ) && final(children)[k].parent() == Some(parent),
{
    let n = children.len();
    let mut j: usize = from;
    while j < n
        invariant
            from <= j <= n,
            n == children.len(),
            n == old(children).len(),
            forall|k: int| 0 <= k < from ==> #[trigger] children[k] == old(children)[k],
            forall|k: int|
                from <= k < j ==> #[trigger] children[k] == old(children)[k].with_parent(parent),
            forall|k: int|
                from <= k < j ==> same_subtree(#[trigger] children[k], old(children)[k])
                    && children[k].parent() == Some(parent),
            forall|k: int| j <= k < n ==> #[trigger] children[k] == old(children)[k],
        decreases n - j,
    {
        proof {
            old(children)[j as int].lemma_with_parent(parent);
        }
        children[j].set_parent(parent);
        j = j + 1;
    }
}

/// Inserting `v` at offset `off` of the middle part inserts it at that offset of the whole.
pub proof fn lemma_splice(pre: Seq<Atom>, mid: Seq<Atom>, post: Seq<Atom>, off: int, v: Seq<Atom>)
    requires
        0 <= off <= mid.len(),
    ensures
        pre + (mid.take(off) + v + mid.skip(off)) + post == (pre + mid + post).take(pre.len() + off)
            + v + (pre + mid + post).skip(pre.len() + off),
{
    assert(pre + (mid.take(off) + v + mid.skip(off)) + post =~= (pre + mid + post).take(
        pre.len() + off,
    ) + v + (pre + mid + post).skip(pre.len() + off));
}

/// Removing the items `a..b` of the middle part removes them from the whole.
pub proof fn lemma_cut(pre: Seq<Atom>, mid: Seq<Atom>, post: Seq<Atom>, a: int, b: int)
    requires
        0 <= a <= b <= mid.len(),
    ensures
        pre + (mid.take(a) + mid.skip(b)) + post == (pre + mid + post).take(pre.len() + a) + (pre
            + mid + post).skip(pre.len() + b),
{
    assert(pre + (mid.take(a) + mid.skip(b)) + post =~= (pre + mid + post).take(pre.len() + a) + (
    pre + mid + post).skip(pre.len() + b));
}

/// A child that split in two: the parts with the child replaced and its new
/// sibling inserted after it.
pub proof fn lemma_child_split(parts: Seq<Seq<Atom>>, ci: int, first: Seq<Atom>, second: Seq<Atom>)
    requires
        0 <= ci < parts.len(),
    ensures
        concat(parts.update(ci, first).insert(ci + 1, second)) == concat(parts.take(ci)) + (first
            + second) + concat(parts.skip(ci + 1)),
{
    let q = parts.update(ci, first);
    lemma_concat_insert(q, ci + 1, second);
    lemma_concat_at(q, ci);
    assert(q.take(ci) =~= parts.take(ci));
    assert(q.skip(ci + 1) =~= parts.skip(ci + 1));
    assert(concat(q.take(ci + 1)) + second + concat(q.skip(ci + 1)) =~= concat(parts.take(ci)) + (
    first + second) + concat(parts.skip(ci + 1)));
}

/// A map that changed only at the names of the middle part changed only at names of the whole.
pub proof fn lemma_frame_widen(
    pre: Seq<Atom>,
    held: Seq<Atom>,
    post: Seq<Atom>,
    a: Map<ID, LeafHandle>,
    b: Map<ID, LeafHandle>,
)
    requires
        forall|id: ID| !has_id(held, id) ==> #[trigger] same_at(a, b, id),
    ensures
        forall|id: ID| !has_id(pre + held + post, id) ==> #[trigger] same_at(a, b, id),
        distinct_ids(pre + held + post) ==> distinct_ids(held),
{
    assert forall|id: ID| !has_id(pre + held + post, id) implies #[trigger] same_at(a, b, id) by {
        lemma_has_id_add(pre + held, post, id);
        lemma_has_id_add(pre, held, id);
    }
    if distinct_ids(pre + held + post) {
        let any = ID { peer: 0, counter: 0 };
        lemma_distinct_parts(pre + held, post, any);
        lemma_distinct_parts(pre, held, any);
    }
}

/// Item `j` of part `k` is an item of the whole.
pub proof fn lemma_part_in_concat(parts: Seq<Seq<Atom>>, k: int, j: int)
    requires
        0 <= k < parts.len(),
        0 <= j < parts[k].len(),
    ensures
        has_id(concat(parts), parts[k][j].id),
{
    lemma_concat_at(parts, k);
    let pre = concat(parts.take(k));
    assert(concat(parts)[pre.len() + j] == parts[k][j]);
}

impl InternalNode {
    /// After a change below child `ci` that wrote to the map only at the
    /// names that child `ci` holds now, the map still says of every item
    /// below the node which leaf it rests in.
    pub proof fn lemma_child_indexed(
        self,
        after: InternalNode,
        ci: int,
        a: Map<ID, LeafHandle>,
        b: Map<ID, LeafHandle>,
        held: Seq<Atom>,
    )
        requires
            0 <= ci < self.children.len(),
            after.children@ == self.children@.update(ci, after.children[ci]),
            self.indexed(a),
            after.children[ci].indexed(b),
            distinct_ids(self.prefix(ci) + held + concat(self.parts().skip(ci + 1))),
            forall|id: ID| !has_id(held, id) ==> #[trigger] same_at(a, b, id),
        ensures
            after.indexed(b),
            forall|id: ID|
                !has_id(self.prefix(ci) + held + concat(self.parts().skip(ci + 1)), id)
                    ==> #[trigger] same_at(a, b, id),
            distinct_ids(held),
    {
        let pre = self.prefix(ci);
        let post = concat(self.parts().skip(ci + 1));
        lemma_frame_widen(pre, held, post, a, b);
        assert forall|k: int| 0 <= k < after.children.len() implies (
        #[trigger] after.children[k]).indexed(b) by {
            if k != ci {
                let c = self.children[k];
                assert(after.children[k] == c);
                assert(c.indexed(a));
                assert forall|j: int| 0 <= j < c.atoms().len() implies same_at(
                    a,
                    b,
                    (#[trigger] c.atoms()[j]).id,
                ) by {
                    let id = c.atoms()[j].id;
                    if k < ci {
                        assert(self.parts().take(ci)[k] == self.parts()[k]);
                        lemma_part_in_concat(self.parts().take(ci), k, j);
                        lemma_distinct_parts(pre + held, post, id);
                        lemma_distinct_parts(pre, held, id);
                    } else {
                        assert(self.parts().skip(ci + 1)[k - ci - 1] == self.parts()[k]);
                        lemma_part_in_concat(self.parts().skip(ci + 1), k - ci - 1, j);
                        lemma_distinct_parts(pre + held, post, id);
                        lemma_has_id_add(pre, held, id);
                    }
                }
                c.lemma_indexed_frame(a, b);
            }
        }
    }

    /// The items before child `i`.
    pub open spec fn prefix(self, i: int) -> Seq<Atom> {
        concat(self.parts().take(i))
    }

    /// The items below a child are part of the items below the node.
    pub proof fn lemma_child_len(self, i: int)
        requires
            0 <= i < self.children.len(),
        ensures
            self.atoms() == self.prefix(i) + self.children[i].atoms() + concat(
                self.parts().skip(i + 1),
            ),
            self.prefix(i + 1) == self.prefix(i) + self.children[i].atoms(),
            self.prefix(i).len() + self.children[i].atoms().len() <= self.atoms().len(),
            self.prefix(i + 1).len() <= self.atoms().len(),
            visible_len(self.prefix(i + 1)) == visible_len(self.prefix(i)) + visible_len(
                self.children[i].atoms(),
            ),
            visible_len(self.children[i].atoms()) <= self.children[i].atoms().len(),
    {
        lemma_concat_at(self.parts(), i);
        lemma_visible_len_add(self.prefix(i), self.children[i].atoms());
        lemma_visible_len_add(self.children[i].atoms(), Seq::empty());
    }

    /// One child was replaced by a valid subtree of the same height under the same parent.
    pub proof fn lemma_replace_child(self, after: InternalNode, ci: int)
        requires
            self.wf_children(),
            0 <= ci < self.children.len(),
            after.children@ == self.children@.update(ci, after.children[ci]),
            after.handle == self.handle,
            after.children[ci].wf(),
            after.children[ci].level() == self.children[ci].level(),
            after.children[ci].parent() == self.children[ci].parent(),
        ensures
            after.wf_children_loose(),
            after.balanced_except(ci),
            after.children[ci].balanced() ==> after.wf_children(),
            after.level() == self.level(),
            after.parts() == self.parts().update(ci, after.children[ci].atoms()),
            after.atoms() == self.prefix(ci) + after.children[ci].atoms() + concat(
                self.parts().skip(ci + 1),
            ),
    {
        assert(after.children[0].level() == self.children[0].level()) by {
            if ci != 0 {
                assert(after.children[0] == self.children[0]);
            }
        }
        assert forall|k: int| 0 <= k < after.children.len() implies (#[trigger] after.children[k]).wf()
            && after.children[k].level() + 1 == after.level() && after.children[k].parent()
            == Some(after.handle) && (k != ci ==> after.children[k].balanced()) by {
            if k != ci {
                assert(after.children[k] == self.children[k]);
            }
        }
        assert(after.parts() =~= self.parts().update(ci, after.children[ci].atoms())) by {
            assert forall|k: int| 0 <= k < after.children.len() implies #[trigger] after.parts()[k]
                == self.parts().update(ci, after.children[ci].atoms())[k] by {
                if k != ci {
                    assert(after.children[k] == self.children[k]);
                }
            }
        }
        lemma_concat_update(self.parts(), ci, after.children[ci].atoms());
    }

    /// An empty node under `parent`; without one, an empty root.
    pub fn new(arena: &mut Arena, parent: Option<NodeHandle>) -> (n: InternalNode)
        ensures
            n.wf(),
            n.atoms() == Seq::<Atom>::empty(),
            n.children.len() == 0,
            n.parent == parent,
            n.handle == old(arena).next,
            n.level() == 1,
            final(arena).next == (if old(arena).next < u64::MAX {
                (old(arena).next + 1) as u64
            } else {
                old(arena).next
            }),
    {
        let handle = arena.fresh();
        let n = InternalNode {
            children: Vec::new(),
            cache: Cache { len: 0, visible: 0 },
            handle,
            parent,
        };
        proof {
            assert(n.parts() =~= Seq::<Seq<Atom>>::empty());
            assert(visible_len(Seq::<Atom>::empty()) == 0);
        }
        n
    }

    /// The children, in order.
    pub fn children(&self) -> (c: &Vec<Node>)
        ensures
            *c == self.children,
    {
        &self.children
    }

    /// Whether the node is a root: it names no parent.
    pub fn is_root(&self) -> (b: bool)
        ensures
            b == (self.parent is None),
    {
        self.parent.is_none()
    }

    /// The number of items below the node.
    pub fn len(&self) -> (n: usize)
        requires
            self.wf(),
        ensures
            n == self.atoms().len(),
    {
        self.cache.len
    }

    /// Recomputes the cache from the caches of the children.
    pub fn update_cache(&mut self)
        requires
            old(self).wf_children_loose(),
            old(self).atoms().len() <= usize::MAX,
        ensures
            final(self).children == old(self).children,
            final(self).handle == old(self).handle,
            final(self).parent == old(self).parent,
            final(self).cache.describes(final(self).atoms()),
            final(self).atoms() == old(self).atoms(),
            final(self).parts() == old(self).parts(),
            final(self).level() == old(self).level(),
            final(self).wf_children_loose(),
            old(self).wf_children() ==> final(self).wf(),
            forall|m: Map<ID, LeafHandle>| #[trigger] final(self).indexed(m) == old(self).indexed(m),
    {
        let mut len: usize = 0;
        let mut visible: usize = 0;
        let n = self.children.len();
        let mut i: usize = 0;
        proof {
            assert(self.parts().take(0) =~= Seq::<Seq<Atom>>::empty());
            assert(visible_len(Seq::<Atom>::empty()) == 0);
        }
        while i < n
            invariant
                n == self.children.len(),
                i <= n,
                self.wf_children_loose(),
                self.atoms().len() <= usize::MAX,
                len == self.prefix(i as int).len(),
                visible == visible_len(self.prefix(i as int)),
                visible <= len,
            decreases n - i,
        {
            proof {
                self.lemma_child_len(i as int);
            }
            let c = &self.children[i];
            len = len + c.len();
            visible = visible + c.visible_len();
            i = i + 1;
        }
        proof {
            assert(self.parts().take(n as int) =~= self.parts());
        }
        self.cache = Cache { len, visible };
        proof {
            assert(self.parts() =~= old(self).parts());
            assert(self.level() == old(self).level());
            assert(self.wf_children_loose());
            if old(self).wf_children() {
                assert(self.wf_children());
            }
            assert forall|m: Map<ID, LeafHandle>| #[trigger] self.indexed(m) == old(self).indexed(
                m,
            ) by {
                assert(self.children == old(self).children);
            }
        }
    }

    /// The child that position `index` falls in, and the position within it.
    ///
    /// A position between two children belongs to the left one.
    pub fn find_pos_internal(&self, index: usize) -> (r: FindPosResult)
        requires
            self.wf(),
            self.children.len() > 0,
        ensures
            r.child_index < self.children.len(),
            r.found == (index <= self.atoms().len()),
            r.found ==> {
                &&& self.prefix(r.child_index as int).len() + r.offset == index
                &&& r.offset <= self.children[r.child_index as int].atoms().len()
                &&& (r.offset > 0 || r.child_index == 0)
                &&& r.pos == (if r.offset == 0 {
                    Position::Start
                } else if r.offset == self.children[r.child_index as int].atoms().len() {
                    Position::End
                } else {
                    Position::Middle
                })
            },
            !r.found ==> r.pos == Position::After && r.child_index == self.children.len() - 1,
    {
        let n = self.children.len();
        let mut i: usize = 0;
        let mut rest: usize = index;
        proof {
            assert(self.parts().take(0) =~= Seq::<Seq<Atom>>::empty());
            self.lemma_child_len(0);
        }
        let mut stop: bool = rest <= self.children[0].len();
        while !stop && i + 1 < n
            invariant
                n == self.children.len(),
                i < n,
                self.wf(),
                self.prefix(i as int).len() + rest == index,
                stop == (rest <= self.children[i as int].atoms().len()),
                rest > 0 || i == 0,
            decreases n - i,
        {
            proof {
                self.lemma_child_len(i as int);
            }
            rest = rest - self.children[i].len();
            i = i + 1;
            stop = rest <= self.children[i].len();
        }
        proof {
            self.lemma_child_len(i as int);
            if !stop {
                assert(self.parts().take(n as int) =~= self.parts());
            }
        }
        let child_len = self.children[i].len();
        if stop {
            let pos = if rest == 0 {
                Position::Start
            } else if rest == child_len {
                Position::End
            } else {
                Position::Middle
            };
            FindPosResult { child_index: i, offset: rest, pos, found: true }
        } else {
            FindPosResult { child_index: i, offset: rest, pos: Position::After, found: false }
        }
    }

    /// Moves the last `MIN_CHILDREN_NUM` children to a new sibling.
    pub fn _split(&mut self, arena: &mut Arena) -> (new: InternalNode)
        requires
            old(self).wf_children(),
            old(self).children.len() > MIN_CHILDREN_NUM,
        ensures
            final(self).wf_children(),
            new.wf_children(),
            final(self).handle == old(self).handle,
            final(self).parent == old(self).parent,
            final(self).cache == old(self).cache,
            new.parent == old(self).parent,
            final(self).level() == old(self).level(),
            new.level() == old(self).level(),
            final(self).children.len() == old(self).children.len() - MIN_CHILDREN_NUM,
            new.children.len() == MIN_CHILDREN_NUM,
            final(self).parts() == old(self).parts().take(
                old(self).children.len() - MIN_CHILDREN_NUM,
            ),
            new.parts() == old(self).parts().skip(old(self).children.len() - MIN_CHILDREN_NUM),
            final(self).atoms() + new.atoms() == old(self).atoms(),
            forall|m: Map<ID, LeafHandle>| old(self).indexed(m) ==> #[trigger] final(self).indexed(m),
            forall|m: Map<ID, LeafHandle>| old(self).indexed(m) ==> #[trigger] new.indexed(m),
    {
        let at = self.children.len() - MIN_CHILDREN_NUM;
        let mut moved = self.children.split_off(at);
        let handle = arena.fresh();
        adopt(&mut moved, 0, handle);
        let new = InternalNode {
            children: moved,
            cache: Cache { len: 0, visible: 0 },
            handle,
            parent: self.parent,
        };
        proof {
            let o = *old(self);
            assert forall|k: int| 0 <= k < new.children.len() implies (#[trigger] new.children[k]).wf()
                && new.children[k].level() + 1 == o.level() && new.children[k].parent() == Some(
                new.handle,
            ) && new.children[k].balanced() && new.children[k].atoms() == o.children[at
                + k].atoms() by {
                assert(same_subtree(new.children[k], o.children[at + k]));
            }
            assert(new.level() == o.level()) by {
                assert(new.children[0].level() + 1 == o.level());
            }
            assert(self.level() == o.level()) by {
                assert(self.children[0] == o.children[0]);
            }
            assert(self.parts() =~= o.parts().take(at as int));
            assert(new.parts() =~= o.parts().skip(at as int)) by {
                assert forall|k: int| 0 <= k < new.children.len() implies #[trigger] new.parts()[k]
                    == o.parts().skip(at as int)[k] by {
                    assert(new.children[k].atoms() == o.children[at + k].atoms());
                }
            }
            lemma_concat_split(o.parts(), at as int);
            assert forall|k: int| 0 <= k < self.children.len() implies (#[trigger] self.children[k]).wf()
                && self.children[k].level() + 1 == self.level() && self.children[k].parent()
                == Some(self.handle) && self.children[k].balanced() by {
                assert(self.children[k] == o.children[k]);
            }
            assert forall|m: Map<ID, LeafHandle>| o.indexed(m) implies #[trigger] self.indexed(m) by {
                assert forall|k: int| 0 <= k < self.children.len() implies (
                #[trigger] self.children[k]).indexed(m) by {
                    assert(self.children[k] == o.children[k]);
                }
            }
            assert forall|m: Map<ID, LeafHandle>| o.indexed(m) implies #[trigger] new.indexed(m) by {
                assert forall|k: int| 0 <= k < new.children.len() implies (
                #[trigger] new.children[k]).indexed(m) by {
                    assert(same_subtree(new.children[k], o.children[at + k]));
                    assert(o.children[at + k].indexed(m));
                }
            }
        }
        new
    }

    /// Adds `new` as child `child_index`; where the node is full, it is split
    /// first and the new sibling is returned.
    pub fn _insert_with_split(&mut self, child_index: usize, new: Node, arena: &mut Arena) -> (r:
        Result<(), InternalNode>)
        requires
            old(self).wf_children(),
            child_index <= old(self).children.len(),
            new.wf(),
            new.balanced(),
            new.level() + 1 == old(self).level(),
        ensures
            final(self).wf_children(),
            final(self).handle == old(self).handle,
            final(self).parent == old(self).parent,
            final(self).cache == old(self).cache,
            final(self).level() == old(self).level(),
            match r {
                Ok(()) => {
                    &&& final(self).atoms() == concat(
                        old(self).parts().insert(child_index as int, new.atoms()),
                    )
                    &&& final(self).children.len() == old(self).children.len() + 1
                },
                Err(sibling) => {
                    &&& sibling.wf_children()
                    &&& sibling.parent == old(self).parent
                    &&& sibling.level() == old(self).level()
                    &&& final(self).atoms() + sibling.atoms() == concat(
                        old(self).parts().insert(child_index as int, new.atoms()),
                    )
                    &&& final(self).children.len() >= MIN_CHILDREN_NUM
                    &&& sibling.children.len() >= MIN_CHILDREN_NUM
                    &&& final(self).children.len() + sibling.children.len() == old(
                        self,
                    ).children.len() + 1
                },
            },
            forall|m: Map<ID, LeafHandle>|
                old(self).indexed(m) && new.indexed(m) ==> #[trigger] final(self).indexed(m),
            r is Err ==> forall|m: Map<ID, LeafHandle>|
                old(self).indexed(m) && new.indexed(m) ==> #[trigger] r->Err_0.indexed(m),
            r is Err <==> old(self).children.len() == MAX_CHILDREN_NUM,
    {
        let mut new = new;
        let ghost given = new;
        let ghost o = *old(self);
        let ghost target = o.parts().insert(child_index as int, given.atoms());
        if self.children.len() == MAX_CHILDREN_NUM {
            let mut sibling = self._split(arena);
            let ghost left = *self;
            let ghost right = sibling;
            let at = self.children.len();
            if child_index < at {
                new.set_parent(self.handle);
                proof {
                    given.lemma_with_parent(self.handle);
                }
                self.children.insert(child_index, new);
                proof {
                    assert(self.parts() =~= left.parts().insert(child_index as int, given.atoms()));
                    assert(self.level() == o.level()) by {
                        if child_index > 0 {
                            assert(self.children[0] == left.children[0]);
                        }
                    }
                    assert forall|k: int| 0 <= k < self.children.len() implies (
                    #[trigger] self.children[k]).wf() && self.children[k].level() + 1
                        == self.level() && self.children[k].parent() == Some(self.handle)
                        && self.children[k].balanced() by {
                        if k < child_index {
                            assert(self.children[k] == left.children[k]);
                        } else if k > child_index {
                            assert(self.children[k] == left.children[k - 1]);
                        }
                    }
                    assert(target =~= left.parts().insert(child_index as int, given.atoms())
                        + right.parts());
                    lemma_concat_add(self.parts(), right.parts());
                    assert forall|m: Map<ID, LeafHandle>|
                        o.indexed(m) && given.indexed(m) implies #[trigger] self.indexed(m) by {
                        assert(left.indexed(m));
                        assert forall|k: int| 0 <= k < self.children.len() implies (
                        #[trigger] self.children[k]).indexed(m) by {
                            if k < child_index {
                                assert(self.children[k] == left.children[k]);
                            } else if k > child_index {
                                assert(self.children[k] == left.children[k - 1]);
                            } else {
                                assert(self.children[k] == given.with_parent(self.handle));
                            }
                        }
                    }
                }
            } else {
                new.set_parent(sibling.handle);
                proof {
                    given.lemma_with_parent(sibling.handle);
                }
                let at2 = child_index - at;
                sibling.children.insert(at2, new);
                proof {
                    assert(sibling.parts() =~= right.parts().insert(at2 as int, given.atoms()));
                    assert(sibling.level() == o.level()) by {
                        if at2 > 0 {
                            assert(sibling.children[0] == right.children[0]);
                        }
                    }
                    assert forall|k: int| 0 <= k < sibling.children.len() implies (
                    #[trigger] sibling.children[k]).wf() && sibling.children[k].level() + 1
                        == sibling.level() && sibling.children[k].parent() == Some(sibling.handle)
                        && sibling.children[k].balanced() by {
                        if k < at2 {
                            assert(sibling.children[k] == right.children[k]);
                        } else if k > at2 {
                            assert(sibling.children[k] == right.children[k - 1]);
                        }
                    }
                    assert(target =~= left.parts() + right.parts().insert(
                        at2 as int,
                        given.atoms(),
                    ));
                    lemma_concat_add(left.parts(), sibling.parts());
                    assert forall|m: Map<ID, LeafHandle>|
                        o.indexed(m) && given.indexed(m) implies #[trigger] sibling.indexed(m) by {
                        assert(right.indexed(m));
                        assert forall|k: int| 0 <= k < sibling.children.len() implies (
                        #[trigger] sibling.children[k]).indexed(m) by {
                            if k < at2 {
                                assert(sibling.children[k] == right.children[k]);
                            } else if k > at2 {
                                assert(sibling.children[k] == right.children[k - 1]);
                            } else {
                                assert(sibling.children[k] == given.with_parent(sibling.handle));
                            }
                        }
                    }
                }
            }
            Err(sibling)
        } else {
            new.set_parent(self.handle);
            proof {
                given.lemma_with_parent(self.handle);
            }
            self.children.insert(child_index, new);
            proof {
                assert(self.parts() =~= target);
                assert(self.level() == o.level()) by {
                    if child_index > 0 {
                        assert(self.children[0] == o.children[0]);
                    }
                }
                assert forall|k: int| 0 <= k < self.children.len() implies (
                #[trigger] self.children[k]).wf() && self.children[k].level() + 1 == self.level()
                    && self.children[k].parent() == Some(self.handle)
                    && self.children[k].balanced() by {
                    if k < child_index {
                        assert(self.children[k] == o.children[k]);
                    } else if k > child_index {
                        assert(self.children[k] == o.children[k - 1]);
                    }
                }
                assert forall|m: Map<ID, LeafHandle>|
                    o.indexed(m) && given.indexed(m) implies #[trigger] self.indexed(m) by {
                    assert forall|k: int| 0 <= k < self.children.len() implies (
                    #[trigger] self.children[k]).indexed(m) by {
                        if k < child_index {
                            assert(self.children[k] == o.children[k]);
                        } else if k > child_index {
                            assert(self.children[k] == o.children[k - 1]);
                        } else {
                            assert(self.children[k] == given.with_parent(self.handle));
                        }
                    }
                }
            }
            Ok(())
        }
    }

    /// Puts a new level under the root: the root's children move to a new
    /// node, and that node and `new` become the root's two children.
    pub fn _create_level(&mut self, new: InternalNode, arena: &mut Arena)
        requires
            old(self).wf(),
            new.wf(),
            old(self).parent is None,
            new.level() == old(self).level(),
            old(self).children.len() >= MIN_CHILDREN_NUM,
            new.children.len() >= MIN_CHILDREN_NUM,
            old(self).atoms().len() + new.atoms().len() <= usize::MAX,
        ensures
            final(self).wf(),
            final(self).atoms() == old(self).atoms() + new.atoms(),
            final(self).level() == old(self).level() + 1,
            final(self).parent is None,
            final(self).handle == old(self).handle,
            final(self).children.len() == 2,
            final(self).children[0] is Internal,
            final(self).children[0].atoms() == old(self).atoms(),
            final(self).children[0].spec_children_num() == old(self).children.len(),
            final(self).children[1] is Internal,
            final(self).children[1].atoms() == new.atoms(),
            final(self).children[1]->Internal_0.children == new.children,
            final(self).children[1]->Internal_0.handle == new.handle,
            forall|m: Map<ID, LeafHandle>|
                old(self).indexed(m) && new.indexed(m) ==> #[trigger] final(self).indexed(m),
    {
        let ghost o = *old(self);
        let left_handle = arena.fresh();
        let mut left_children: Vec<Node> = Vec::new();
        core::mem::swap(&mut left_children, &mut self.children);
        adopt(&mut left_children, 0, left_handle);
        let left = InternalNode {
            children: left_children,
            cache: self.cache,
            handle: left_handle,
            parent: Some(self.handle),
        };
        let mut right = new;
        right.parent = Some(self.handle);
        proof {
            assert forall|k: int| 0 <= k < left.children.len() implies (#[trigger] left.children[k]).wf()
                && left.children[k].level() + 1 == o.level() && left.children[k].parent() == Some(
                left_handle,
            ) && left.children[k].balanced() && left.children[k].atoms()
                == o.children[k].atoms() by {
                assert(same_subtree(left.children[k], o.children[k]));
            }
            assert(left.level() == o.level()) by {
                assert(left.children[0].level() + 1 == o.level());
            }
            assert(left.parts() =~= o.parts()) by {
                assert forall|k: int| 0 <= k < left.children.len() implies #[trigger] left.parts()[k]
                    == o.parts()[k] by {
                    assert(left.children[k].atoms() == o.children[k].atoms());
                }
            }
            assert(right.parts() =~= new.parts());
            assert(right.level() == new.level());
            assert(right.wf_children()) by {
                assert forall|k: int| 0 <= k < right.children.len() implies (
                #[trigger] right.children[k]).wf() && right.children[k].level() + 1
                    == right.level() && right.children[k].parent() == Some(right.handle)
                    && right.children[k].balanced() by {
                    assert(right.children[k] == new.children[k]);
                }
            }
        }
        let ghost l = Node::Internal(left);
        let ghost r = Node::Internal(right);
        self.children.push(Node::Internal(left));
        self.children.push(Node::Internal(right));
        proof {
            assert(self.children@ =~= seq![l, r]);
            assert(self.children[0] == l && self.children[1] == r);
            assert(l.atoms() == o.atoms() && r.atoms() == new.atoms());
            assert(l.wf() && r.wf());
            assert(self.parts() =~= seq![o.atoms(), new.atoms()]);
            lemma_concat_two(o.atoms(), new.atoms());
            assert(self.level() == o.level() + 1);
            assert(self.wf_children());
            assert forall|m: Map<ID, LeafHandle>|
                o.indexed(m) && new.indexed(m) implies #[trigger] self.indexed(m) by {
                assert forall|k: int| 0 <= k < left.children.len() implies (
                #[trigger] left.children[k]).indexed(m) by {
                    assert(same_subtree(left.children[k], o.children[k]));
                    assert(o.children[k].indexed(m));
                }
                assert(right.children == new.children);
                assert(l.indexed(m) && r.indexed(m));
            }
        }
        let ghost built = *self;
        self.update_cache();
        proof {
            assert forall|m: Map<ID, LeafHandle>| built.indexed(m) implies #[trigger] self.indexed(
                m,
            ) by {
                assert(self.children == built.children);
            }
        }
    }

    /// Inserts below this node, leaving its own cache for the caller to update.
    pub fn _insert(
        &mut self,
        index: usize,
        value: YSpan,
        arena: &mut Arena,
        notify: &mut CursorMap,
    ) -> (r: Result<(), InternalNode>)
        requires
            old(self).wf(),
            value.wf(),
            index <= old(self).atoms().len(),
            old(self).atoms().len() + value.len <= usize::MAX,
        ensures
            final(self).wf_children(),
            final(self).handle == old(self).handle,
            final(self).parent == old(self).parent,
            final(self).level() == old(self).level(),
            match r {
                Ok(()) => {
                    &&& final(self).atoms() == old(self).atoms().take(index as int) + value.atoms()
                        + old(self).atoms().skip(index as int)
                    &&& final(self).children.len() >= old(self).children.len()
                    &&& final(self).children.len() <= old(self).children.len() + 1
                    &&& final(self).children.len() >= 1
                    &&& old(self).children.len() == 0 ==> final(self).children.len() == 1
                        && final(self).children[0] is Leaf
                },
                Err(sibling) => {
                    &&& old(self).children.len() == MAX_CHILDREN_NUM
                    &&& final(self).children.len() + sibling.children.len() == MAX_CHILDREN_NUM
                        + 1
                    &&& sibling.wf_children()
                    &&& sibling.parent == old(self).parent
                    &&& sibling.level() == old(self).level()
                    &&& final(self).atoms() + sibling.atoms() == old(self).atoms().take(
                        index as int,
                    ) + value.atoms() + old(self).atoms().skip(index as int)
                    &&& final(self).children.len() >= MIN_CHILDREN_NUM
                    &&& sibling.children.len() >= MIN_CHILDREN_NUM
                },
            },
            forall|id: ID|
                !has_id(
                    old(self).atoms().take(index as int) + value.atoms() + old(self).atoms().skip(
                        index as int,
                    ),
                    id,
                ) ==> #[trigger] same_at(old(notify)@, final(notify)@, id),
            old(self).indexed(old(notify)@) && distinct_ids(
                old(self).atoms().take(index as int) + value.atoms() + old(self).atoms().skip(
                    index as int,
                ),
            ) ==> final(self).indexed(final(notify)@) && (r is Err ==> r->Err_0.indexed(
                final(notify)@,
            )),
        decreases old(self).level(), 0nat,
    {
        let ghost o = *old(self);
        if self.children.len() == 0 {
            let leaf = LeafNode::new(arena, self.handle);
            self.children.push(Node::Leaf(leaf));
            proof {
                assert(self.parts() =~= seq![Seq::<Atom>::empty()]);
                crate::rle_tree::lemma_concat_one(Seq::<Atom>::empty());
                assert(o.parts() =~= Seq::<Seq<Atom>>::empty());
                assert(self.atoms() =~= o.atoms());
                assert(self.children[0].atoms() =~= Seq::<Atom>::empty());
                assert forall|any: Map<ID, LeafHandle>| #[trigger] self.indexed(any) by {
                    assert forall|k: int| 0 <= k < self.children.len() implies (
                    #[trigger] self.children[k]).indexed(any) by {
                        assert(self.children[k].atoms().len() == 0);
                    }
                }
            }
        }
        let ghost m = *self;
        let ghost notify0 = notify@;
        let found = self.find_pos_internal(index);
        let ci = found.child_index;
        let off = found.offset;
        proof {
            m.lemma_child_len(ci as int);
        }
        let res: Result<(), Node> = match &mut self.children[ci] {
            Node::Internal(c) => match c.insert(off, value, arena, notify) {
                Ok(()) => Ok(()),
                Err(n) => Err(Node::Internal(n)),
            },
            Node::Leaf(c) => match c.insert(off, value, arena, notify) {
                Ok(()) => Ok(()),
                Err(l) => Err(Node::Leaf(l)),
            },
        };
        let ghost child = m.children[ci as int];
        let ghost grown = child.atoms().take(off as int) + value.atoms() + child.atoms().skip(
            off as int,
        );
        let ghost wanted = o.atoms().take(index as int) + value.atoms() + o.atoms().skip(index as int);
        proof {
            assert(self.children@ =~= m.children@.update(ci as int, self.children[ci as int]));
            m.lemma_replace_child(*self, ci as int);
            lemma_splice(
                m.prefix(ci as int),
                child.atoms(),
                concat(m.parts().skip(ci + 1)),
                off as int,
                value.atoms(),
            );
            lemma_frame_widen(
                m.prefix(ci as int),
                grown,
                concat(m.parts().skip(ci + 1)),
                notify0,
                notify@,
            );
            if o.indexed(notify0) && distinct_ids(wanted) {
                assert(m.indexed(notify0));
                assert(m.children[ci as int].indexed(notify0));
                m.lemma_child_indexed(*self, ci as int, notify0, notify@, grown);
            }
        }
        match res {
            Ok(()) => Ok(()),
            Err(new) => {
                let ghost before = *self;
                let r = self._insert_with_split(ci + 1, new, arena);
                proof {
                    lemma_child_split(
                        m.parts(),
                        ci as int,
                        before.children[ci as int].atoms(),
                        new.atoms(),
                    );
                    if o.indexed(notify0) && distinct_ids(wanted) {
                        assert(before.indexed(notify@) && new.indexed(notify@));
                        assert(self.indexed(notify@));
                        if r is Err {
                            assert(r->Err_0.indexed(notify@));
                        }
                    }
                }
                r
            },
        }
    }

    /// Inserts the items of `value` before the item at `index`.
    ///
    /// A node that had to split returns its new sibling, unless it is the
    /// root: the root grows a level instead.
    pub fn insert(
        &mut self,
        index: usize,
        value: YSpan,
        arena: &mut Arena,
        notify: &mut CursorMap,
    ) -> (r: Result<(), InternalNode>)
        requires
            old(self).wf(),
            value.wf(),
            index <= old(self).atoms().len(),
            old(self).atoms().len() + value.len <= usize::MAX,
        ensures
            final(self).wf(),
            final(self).handle == old(self).handle,
            final(self).parent == old(self).parent,
            final(self).children.len() >= 1,
            match r {
                Ok(()) => {
                    &&& final(self).atoms() == old(self).atoms().take(index as int) + value.atoms()
                        + old(self).atoms().skip(index as int)
                    &&& final(self).level() == old(self).level() || (old(self).parent is None
                        && final(self).level() == old(self).level() + 1)
                    &&& old(self).parent is Some ==> final(self).level() == old(self).level()
                    &&& final(self).children.len() >= old(self).children.len()
                        || final(self).level() > old(self).level()
                    &&& final(self).level() > old(self).level() ==> {
                        &&& old(self).children.len() == MAX_CHILDREN_NUM
                        &&& final(self).children.len() == 2
                        &&& final(self).children[0] is Internal
                        &&& final(self).children[1] is Internal
                        &&& final(self).children[0].spec_children_num()
                            + final(self).children[1].spec_children_num() == MAX_CHILDREN_NUM + 1
                    }
                    &&& final(self).level() == old(self).level() ==> final(self).children.len()
                        <= old(self).children.len() + 1
                    &&& old(self).children.len() == 0 ==> final(self).children.len() == 1
                        && final(self).children[0] is Leaf
                },
                Err(sibling) => {
                    &&& old(self).parent is Some
                    &&& old(self).children.len() == MAX_CHILDREN_NUM
                    &&& final(self).children.len() + sibling.children.len() == MAX_CHILDREN_NUM
                        + 1
                    &&& sibling.wf()
                    &&& sibling.parent == old(self).parent
                    &&& sibling.level() == old(self).level()
                    &&& final(self).level() == old(self).level()
                    &&& final(self).atoms() + sibling.atoms() == old(self).atoms().take(
                        index as int,
                    ) + value.atoms() + old(self).atoms().skip(index as int)
                    &&& final(self).children.len() >= MIN_CHILDREN_NUM
                    &&& sibling.children.len() >= MIN_CHILDREN_NUM
                },
            },
            forall|id: ID|
                !has_id(
                    old(self).atoms().take(index as int) + value.atoms() + old(self).atoms().skip(
                        index as int,
                    ),
                    id,
                ) ==> #[trigger] same_at(old(notify)@, final(notify)@, id),
            old(self).indexed(old(notify)@) && distinct_ids(
                old(self).atoms().take(index as int) + value.atoms() + old(self).atoms().skip(
                    index as int,
                ),
            ) ==> final(self).indexed(final(notify)@) && (r is Err ==> r->Err_0.indexed(
                final(notify)@,
            )),
        decreases old(self).level(), 1nat,
    {
        let ghost wanted = old(self).atoms().take(index as int) + value.atoms() + old(
            self,
        ).atoms().skip(index as int);
        let ghost good = old(self).indexed(notify@) && distinct_ids(wanted);
        match self._insert(index, value, arena, notify) {
            Ok(()) => {
                proof {
                    assert(wanted.len() == old(self).atoms().len() + value.len);
                }
                let ghost mid = *self;
                self.update_cache();
                proof {
                    if good {
                        assert(mid.indexed(notify@));
                        assert(self.indexed(notify@));
                    }
                }
                Ok(())
            },
            Err(sibling) => {
                let mut sibling = sibling;
                proof {
                    assert(wanted.len() == old(self).atoms().len() + value.len);
                }
                let ghost mid = *self;
                let ghost mid_sibling = sibling;
                self.update_cache();
                sibling.update_cache();
                proof {
                    if good {
                        assert(mid.indexed(notify@) && mid_sibling.indexed(notify@));
                        assert(self.indexed(notify@));
                        assert(sibling.indexed(notify@));
                    }
                }
                if self.is_root() {
                    let ghost left = *self;
                    self._create_level(sibling, arena);
                    proof {
                        if good {
                            assert(left.indexed(notify@) && sibling.indexed(notify@));
                            assert(self.indexed(notify@));
                        }
                    }
                    Ok(())
                } else {
                    Err(sibling)
                }
            },
        }
    }
}

} // verus!
