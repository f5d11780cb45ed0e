//! Internal nodes: removal with rebalancing.
//!
//! A range is removed in steps. A step finds the child that holds the first
//! item of the range. A child that the range covers goes as a whole; a child
//! that it covers in part is entered, down to the leaf, where the rest of
//! the range that lies in the leaf goes. After each step the node that lost
//! a child is brought back to size by its parent: it merges with a sibling
//! where the two fit in one node, and takes one child from the sibling where
//! they do not. A root left with a single internal child takes that child's place.

use vstd::prelude::*;
use crate::cursor_map::{same_at, CursorMap, LeafHandle};
use crate::id::ID;
use crate::rle_tree::internal_impl::{
    adopt, lemma_child_split, lemma_cut, lemma_frame_widen, same_subtree,
};
use crate::rle_tree::leaf::{spec_clamped_end, spec_clamped_start};
use crate::rle_tree::node::{InternalNode, Node};
use crate::rle_tree::{
    concat, lemma_concat_add, lemma_concat_at, lemma_concat_one, lemma_concat_push, lemma_concat_remove, Arena, MAX_CHILDREN_NUM, MIN_CHILDREN_NUM,
};
use crate::y_span::{distinct_ids, has_id, Atom};

verus! {

/// Two neighbouring parts become one.
pub proof fn lemma_merge_parts(parts: Seq<Seq<Atom>>, li: int)
    requires
        0 <= li,
        li + 1 < parts.len(),
    ensures
        concat(parts.remove(li + 1).update(li, parts[li] + parts[li + 1])) == concat(parts),
{
    let q = parts.remove(li + 1).update(li, parts[li] + parts[li + 1]);
    lemma_concat_at(q, li);
    lemma_concat_at(parts, li);
    lemma_concat_at(parts, li + 1);
    assert(q.take(li) =~= parts.take(li));
    assert(q.skip(li + 1) =~= parts.skip(li + 2));
    assert(concat(q) =~= concat(parts));
}

/// Items move between two neighbouring parts.
pub proof fn lemma_shift_parts(parts: Seq<Seq<Atom>>, li: int, a: Seq<Atom>, b: Seq<Atom>)
    requires
        0 <= li,
        li + 1 < parts.len(),
        a + b == parts[li] + parts[li + 1],
    ensures
        concat(parts.update(li, a).update(li + 1, b)) == concat(parts),
{
    let q = parts.update(li, a).update(li + 1, b);
    lemma_concat_at(q, li);
    lemma_concat_at(q, li + 1);
    lemma_concat_at(parts, li);
    lemma_concat_at(parts, li + 1);
    assert(q.take(li) =~= parts.take(li));
    assert(q.skip(li + 2) =~= parts.skip(li + 2));
    let pre = concat(parts.take(li));
    let post = concat(parts.skip(li + 2));
    assert(pre + a + (b + post) =~= pre + (a + b) + post);
    assert(pre + parts[li] + (parts[li + 1] + post) =~= pre + (parts[li] + parts[li + 1]) + post);
}

/// A part without items can be left out.
pub proof fn lemma_remove_empty_part(parts: Seq<Seq<Atom>>, ci: int)
    requires
        0 <= ci < parts.len(),
        parts[ci].len() == 0,
    ensures
        concat(parts.remove(ci)) == concat(parts),
{
    lemma_concat_remove(parts, ci);
    lemma_concat_at(parts, ci);
    assert(concat(parts.take(ci)) + parts[ci] + concat(parts.skip(ci + 1)) =~= concat(
        parts.take(ci),
    ) + concat(parts.skip(ci + 1)));
}

/// What is left of a sequence without repeated names has no repeated
/// names, and no name that the sequence had not.
pub proof fn lemma_distinct_cut(a: Seq<Atom>, s: int, t: int)
    requires
        0 <= s <= t <= a.len(),
    ensures
        distinct_ids(a) ==> distinct_ids(a.take(s) + a.skip(t)),
        forall|id: ID| has_id(a.take(s) + a.skip(t), id) ==> has_id(a, id),
{
    let b = a.take(s) + a.skip(t);
    assert forall|id: ID| has_id(b, id) implies has_id(a, id) by {
        let j = choose|j: int| 0 <= j < b.len() && (#[trigger] b[j]).id == id;
        if j < s {
            assert(a[j].id == id);
        } else {
            assert(a[j - s + t].id == id);
        }
    }
    if distinct_ids(a) {
        assert forall|i: int, j: int| 0 <= i < j < b.len() implies (#[trigger] b[i]).id != (
        #[trigger] b[j]).id by {
            let i0 = if i < s {
                i
            } else {
                i - s + t
            };
            let j0 = if j < s {
                j
            } else {
                j - s + t
            };
            assert(b[i] == a[i0] && b[j] == a[j0]);
            assert(a[i0].id != a[j0].id);
        }
    }
}

/// What a removal of `s..t` leaves is among what a removal of `s..g` leaves, where `g` is not after `t`.
pub proof fn lemma_cut_within(a: Seq<Atom>, s: int, g: int, t: int)
    requires
        0 <= s <= g <= t <= a.len(),
    ensures
        forall|id: ID| has_id(a.take(s) + a.skip(t), id) ==> has_id(a.take(s) + a.skip(g), id),
{
    let b = a.take(s) + a.skip(t);
    let c = a.take(s) + a.skip(g);
    assert forall|id: ID| has_id(b, id) implies has_id(c, id) by {
        let j = choose|j: int| 0 <= j < b.len() && (#[trigger] b[j]).id == id;
        if j < s {
            assert(c[j].id == id);
        } else {
            assert(c[j + (t - g)] == a[j - s + t]);
            assert(c[j + (t - g)].id == id);
        }
    }
}

/// What a removal of `off..end` leaves of the middle part is among what a
/// removal up to `to` leaves of the whole, where `to` is the same place as
/// `end` or the middle part ends at `end`.
pub proof fn lemma_cut_lift(
    pre: Seq<Atom>,
    mid: Seq<Atom>,
    post: Seq<Atom>,
    off: int,
    end: int,
    to: int,
)
    requires
        0 <= off <= end <= mid.len(),
        pre.len() + end <= to <= pre.len() + mid.len() + post.len(),
        end == mid.len() || to == pre.len() + end,
    ensures
        forall|id: ID|
            has_id(mid.take(off) + mid.skip(end), id) ==> has_id(
                (pre + mid + post).take(pre.len() + off) + (pre + mid + post).skip(to),
                id,
            ),
{
    let whole = pre + mid + post;
    let b = mid.take(off) + mid.skip(end);
    let c = whole.take(pre.len() + off) + whole.skip(to);
    assert forall|id: ID| has_id(b, id) implies has_id(c, id) by {
        let j = choose|j: int| 0 <= j < b.len() && (#[trigger] b[j]).id == id;
        if j < off {
            assert(c[pre.len() + j] == mid[j]);
            assert(c[pre.len() + j].id == id);
        } else {
            assert(end < mid.len());
            assert(b[j] == mid[j - off + end]);
            assert(c[pre.len() + j] == whole[j - off + to]);
            assert(whole[pre.len() + (j - off + end)] == mid[j - off + end]);
            assert(c[pre.len() + j].id == id);
        }
    }
}

impl Node {
    /// Where one step of a removal of `from..to` below the node ends: a
    /// leaf gives up the whole range.
    pub open spec fn step_end(self, from: int, to: int) -> int {
        match self {
            Node::Leaf(_) => to,
            Node::Internal(n) => n.step_end(from, to),
        }
    }
}

impl InternalNode {
    /// Takes over the children of `right`, which stood right of this node.
    pub fn absorb(&mut self, right: InternalNode)
        requires
            old(self).wf(),
            right.wf(),
            right.level() == old(self).level(),
            old(self).children.len() >= 1,
            old(self).children.len() + right.children.len() <= MAX_CHILDREN_NUM,
            old(self).atoms().len() + right.atoms().len() <= usize::MAX,
        ensures
            final(self).wf(),
            final(self).atoms() == old(self).atoms() + right.atoms(),
            final(self).level() == old(self).level(),
            final(self).handle == old(self).handle,
            final(self).parent == old(self).parent,
            final(self).children.len() == old(self).children.len() + right.children.len(),
            forall|m: Map<ID, LeafHandle>|
                old(self).indexed(m) && right.indexed(m) ==> #[trigger] final(self).indexed(m),
    {
        let ghost o = *old(self);
        let ghost r0 = right;
        let mut right = right;
        let from = self.children.len();
        self.children.append(&mut right.children);
        let ghost joined = self.children@;
        adopt(&mut self.children, from, self.handle);
        proof {
            assert forall|k: int| 0 <= k < self.children.len() implies (#[trigger] self.children[k]).wf()
                && self.children[k].level() + 1 == o.level() && self.children[k].parent() == Some(
                self.handle,
            ) && self.children[k].balanced() && self.children[k].atoms() == (o.parts()
                + r0.parts())[k] by {
                if k < from {
                    assert(self.children[k] == o.children[k]);
                } else {
                    assert(joined[k] == r0.children[k - from]);
                    assert(same_subtree(self.children[k], joined[k]));
                }
            }
            assert(self.level() == o.level()) by {
                assert(self.children[0].level() + 1 == o.level());
            }
            assert(self.parts() =~= o.parts() + r0.parts());
            lemma_concat_add(o.parts(), r0.parts());
            assert(self.wf_children());
            assert forall|m: Map<ID, LeafHandle>|
                o.indexed(m) && r0.indexed(m) implies #[trigger] self.indexed(m) by {
                assert forall|k: int| 0 <= k < self.children.len() implies (
                #[trigger] self.children[k]).indexed(m) by {
                    if k < from {
                        assert(self.children[k] == o.children[k]);
                    } else {
                        assert(joined[k] == r0.children[k - from]);
                        assert(same_subtree(self.children[k], joined[k]));
                        assert(r0.children[k - from].indexed(m));
                    }
                }
            }
        }
        self.update_cache();
    }

    /// Moves the first child of `right` to the end of this node.
    pub fn take_first_of(&mut self, right: &mut InternalNode)
        requires
            old(self).wf(),
            old(right).wf(),
            old(right).level() == old(self).level(),
            1 <= old(self).children.len() < MAX_CHILDREN_NUM,
            old(right).children.len() >= 2,
            old(self).atoms().len() + old(right).atoms().len() <= usize::MAX,
        ensures
            final(self).wf(),
            final(right).wf(),
            final(self).atoms() + final(right).atoms() == old(self).atoms() + old(right).atoms(),
            final(self).level() == old(self).level(),
            final(right).level() == old(right).level(),
            final(self).handle == old(self).handle,
            final(self).parent == old(self).parent,
            final(right).handle == old(right).handle,
            final(right).parent == old(right).parent,
            final(self).children.len() == old(self).children.len() + 1,
            final(right).children.len() == old(right).children.len() - 1,
            forall|m: Map<ID, LeafHandle>|
                old(self).indexed(m) && old(right).indexed(m) ==> #[trigger] final(self).indexed(m),
            forall|m: Map<ID, LeafHandle>|
                old(self).indexed(m) && old(right).indexed(m) ==> #[trigger] final(right).indexed(
                    m,
                ),
    {
        let ghost l0 = *old(self);
        let ghost r0 = *old(right);
        let mut moved = right.children.remove(0);
        let ghost given = moved;
        moved.set_parent(self.handle);
        proof {
            given.lemma_with_parent(self.handle);
            assert(given == r0.children[0]);
        }
        self.children.push(moved);
        proof {
            assert forall|k: int| 0 <= k < self.children.len() implies (#[trigger] self.children[k]).wf()
                && self.children[k].level() + 1 == l0.level() && self.children[k].parent() == Some(
                self.handle,
            ) && self.children[k].balanced() by {
                if k < l0.children.len() {
                    assert(self.children[k] == l0.children[k]);
                }
            }
            assert(self.children[0] == l0.children[0]);
            assert(self.level() == l0.level());
            assert(self.parts() =~= l0.parts().push(given.atoms()));
            lemma_concat_push(l0.parts(), given.atoms());
            assert forall|k: int| 0 <= k < right.children.len() implies (
            #[trigger] right.children[k]).wf() && right.children[k].level() + 1 == r0.level()
                && right.children[k].parent() == Some(right.handle)
                && right.children[k].balanced() by {
                assert(right.children[k] == r0.children[k + 1]);
            }
            assert(right.children[0] == r0.children[1]);
            assert(right.level() == r0.level());
            assert(right.parts() =~= r0.parts().skip(1));
            lemma_concat_at(r0.parts(), 0);
            assert(r0.parts().take(0) =~= Seq::<Seq<Atom>>::empty());
            assert(self.atoms() + right.atoms() =~= l0.atoms() + r0.atoms());
            assert(self.wf_children());
            assert(right.wf_children());
            assert forall|m: Map<ID, LeafHandle>|
                l0.indexed(m) && r0.indexed(m) implies #[trigger] self.indexed(m) by {
                assert forall|k: int| 0 <= k < self.children.len() implies (
                #[trigger] self.children[k]).indexed(m) by {
                    if k < l0.children.len() {
                        assert(self.children[k] == l0.children[k]);
                    } else {
                        assert(self.children[k] == given.with_parent(self.handle));
                        assert(r0.children[0].indexed(m));
                    }
                }
            }
            assert forall|m: Map<ID, LeafHandle>|
                l0.indexed(m) && r0.indexed(m) implies #[trigger] right.indexed(m) by {
                assert forall|k: int| 0 <= k < right.children.len() implies (
                #[trigger] right.children[k]).indexed(m) by {
                    assert(right.children[k] == r0.children[k + 1]);
                }
            }
        }
        self.update_cache();
        right.update_cache();
    }

    /// Moves the last child of this node to the front of `right`.
    pub fn give_last_to(&mut self, right: &mut InternalNode)
        requires
            old(self).wf(),
            old(right).wf(),
            old(right).level() == old(self).level(),
            old(self).children.len() >= 2,
            1 <= old(right).children.len() < MAX_CHILDREN_NUM,
            old(self).atoms().len() + old(right).atoms().len() <= usize::MAX,
        ensures
            final(self).wf(),
            final(right).wf(),
            final(self).atoms() + final(right).atoms() == old(self).atoms() + old(right).atoms(),
            final(self).level() == old(self).level(),
            final(right).level() == old(right).level(),
            final(self).handle == old(self).handle,
            final(self).parent == old(self).parent,
            final(right).handle == old(right).handle,
            final(right).parent == old(right).parent,
            final(self).children.len() == old(self).children.len() - 1,
            final(right).children.len() == old(right).children.len() + 1,
            forall|m: Map<ID, LeafHandle>|
                old(self).indexed(m) && old(right).indexed(m) ==> #[trigger] final(self).indexed(m),
            forall|m: Map<ID, LeafHandle>|
                old(self).indexed(m) && old(right).indexed(m) ==> #[trigger] final(right).indexed(
                    m,
                ),
    {
        let ghost l0 = *old(self);
        let ghost r0 = *old(right);
        let last = self.children.len() - 1;
        let mut moved = self.children.remove(last);
        let ghost given = moved;
        moved.set_parent(right.handle);
        proof {
            given.lemma_with_parent(right.handle);
            assert(given == l0.children[last as int]);
        }
        right.children.insert(0, moved);
        proof {
            assert forall|k: int| 0 <= k < self.children.len() implies (#[trigger] self.children[k]).wf()
                && self.children[k].level() + 1 == l0.level() && self.children[k].parent() == Some(
                self.handle,
            ) && self.children[k].balanced() by {
                assert(self.children[k] == l0.children[k]);
            }
            assert(self.children[0] == l0.children[0]);
            assert(self.level() == l0.level());
            assert(self.parts() =~= l0.parts().take(last as int));
            lemma_concat_at(l0.parts(), last as int);
            assert(l0.parts().skip(last + 1) =~= Seq::<Seq<Atom>>::empty());
            assert forall|k: int| 0 <= k < right.children.len() implies (
            #[trigger] right.children[k]).wf() && right.children[k].level() + 1 == r0.level()
                && right.children[k].parent() == Some(right.handle)
                && right.children[k].balanced() by {
                if k > 0 {
                    assert(right.children[k] == r0.children[k - 1]);
                }
            }
            assert(right.level() == r0.level());
            assert(right.parts() =~= seq![given.atoms()] + r0.parts());
            lemma_concat_add(seq![given.atoms()], r0.parts());
            lemma_concat_one(given.atoms());
            assert(self.atoms() + right.atoms() =~= l0.atoms() + r0.atoms());
            assert(self.wf_children());
            assert(right.wf_children());
            assert forall|m: Map<ID, LeafHandle>|
                l0.indexed(m) && r0.indexed(m) implies #[trigger] self.indexed(m) by {
                assert forall|k: int| 0 <= k < self.children.len() implies (
                #[trigger] self.children[k]).indexed(m) by {
                    assert(self.children[k] == l0.children[k]);
                }
            }
            assert forall|m: Map<ID, LeafHandle>|
                l0.indexed(m) && r0.indexed(m) implies #[trigger] right.indexed(m) by {
                assert forall|k: int| 0 <= k < right.children.len() implies (
                #[trigger] right.children[k]).indexed(m) by {
                    if k > 0 {
                        assert(right.children[k] == r0.children[k - 1]);
                    } else {
                        assert(right.children[k] == given.with_parent(right.handle));
                        assert(l0.children[last as int].indexed(m));
                    }
                }
            }
        }
        self.update_cache();
        right.update_cache();
    }

    /// Merges child `li + 1` into child `li`.
    pub fn _merge_children(&mut self, li: usize)
        requires
            old(self).wf_children_loose(),
            li + 1 < old(self).children.len(),
            forall|i: int|
                0 <= i < old(self).children.len() && i != li && i != li + 1 ==> (#[trigger] old(
                    self,
                ).children[i]).balanced(),
            old(self).level() >= 2,
            old(self).children[li as int].spec_children_num() >= 1,
            old(self).children[li as int].spec_children_num() + old(self).children[li
                + 1].spec_children_num() <= MAX_CHILDREN_NUM,
            old(self).children[li as int].spec_children_num() + old(self).children[li
                + 1].spec_children_num() >= MIN_CHILDREN_NUM,
            old(self).atoms().len() <= usize::MAX,
        ensures
            final(self).wf_children(),
            final(self).atoms() == old(self).atoms(),
            final(self).level() == old(self).level(),
            final(self).handle == old(self).handle,
            final(self).parent == old(self).parent,
            final(self).cache == old(self).cache,
            final(self).children.len() == old(self).children.len() - 1,
            forall|m: Map<ID, LeafHandle>| old(self).indexed(m) ==> #[trigger] final(self).indexed(m),
    {
        let ghost o = *old(self);
        proof {
            o.lemma_children_kind();
            o.lemma_child_len(li as int);
            o.lemma_child_len(li + 1);
        }
        let right = self.children.remove(li + 1);
        match right {
            Node::Internal(r) => {
                match &mut self.children[li] {
                    Node::Internal(l) => {
                        l.absorb(r);
                    },
                    Node::Leaf(_) => {
                        proof {
                            assert(false);
                        }
                    },
                }
            },
            Node::Leaf(_) => {
                proof {
                    assert(false);
                }
            },
        }
        proof {
            let merged = self.children[li as int];
            assert(merged.atoms() == o.parts()[li as int] + o.parts()[li + 1]);
            assert forall|k: int| 0 <= k < self.children.len() implies (#[trigger] self.children[k]).wf()
                && self.children[k].level() + 1 == o.level() && self.children[k].parent() == Some(
                self.handle,
            ) && self.children[k].balanced() && self.children[k].atoms() == o.parts().remove(
                li + 1,
            ).update(li as int, merged.atoms())[k] by {
                if k < li {
                    assert(self.children[k] == o.children[k]);
                } else if k > li {
                    assert(self.children[k] == o.children[k + 1]);
                }
            }
            assert(self.level() == o.level()) by {
                assert(self.children[0].level() + 1 == o.level());
            }
            assert(self.parts() =~= o.parts().remove(li + 1).update(li as int, merged.atoms()));
            lemma_merge_parts(o.parts(), li as int);
            assert forall|m: Map<ID, LeafHandle>| o.indexed(m) implies #[trigger] self.indexed(m) by {
                assert(o.children[li as int].indexed(m) && o.children[li + 1].indexed(m));
                let l0 = o.children[li as int]->Internal_0;
                let r0 = o.children[li + 1]->Internal_0;
                let l1 = merged->Internal_0;
                assert(l0.indexed(m) && r0.indexed(m));
                assert(l1.indexed(m));
                assert(merged.indexed(m));
                assert forall|k: int| 0 <= k < self.children.len() implies (
                #[trigger] self.children[k]).indexed(m) by {
                    if k < li {
                        assert(self.children[k] == o.children[k]);
                    } else if k > li {
                        assert(self.children[k] == o.children[k + 1]);
                    }
                }
            }
        }
    }

    /// Moves one child between child `li` and child `li + 1`: to the left
    /// one if `to_left`, else to the right one.
    #[verifier::rlimit(50)]
    pub fn _borrow_child(&mut self, li: usize, to_left: bool)
        requires
            old(self).wf_children_loose(),
            li + 1 < old(self).children.len(),
            forall|i: int|
                0 <= i < old(self).children.len() && i != li && i != li + 1 ==> (#[trigger] old(
                    self,
                ).children[i]).balanced(),
            old(self).level() >= 2,
            old(self).children[li as int].spec_children_num() + old(self).children[li
                + 1].spec_children_num() > MAX_CHILDREN_NUM,
            to_left ==> old(self).children[li as int].spec_children_num() == MIN_CHILDREN_NUM - 1,
            !to_left ==> old(self).children[li + 1].spec_children_num() == MIN_CHILDREN_NUM - 1,
            old(self).atoms().len() <= usize::MAX,
        ensures
            final(self).wf_children(),
            final(self).atoms() == old(self).atoms(),
            final(self).level() == old(self).level(),
            final(self).handle == old(self).handle,
            final(self).parent == old(self).parent,
            final(self).cache == old(self).cache,
            final(self).children.len() == old(self).children.len(),
            forall|m: Map<ID, LeafHandle>| old(self).indexed(m) ==> #[trigger] final(self).indexed(m),
    {
        let ghost o = *old(self);
        proof {
            o.lemma_children_kind();
            o.lemma_child_len(li as int);
            o.lemma_child_len(li + 1);
        }
        let right = self.children.remove(li + 1);
        let back: Node = match right {
            Node::Internal(r) => {
                let mut r = r;
                match &mut self.children[li] {
                    Node::Internal(l) => {
                        if to_left {
                            l.take_first_of(&mut r);
                        } else {
                            l.give_last_to(&mut r);
                        }
                    },
                    Node::Leaf(_) => {
                        proof {
                            assert(false);
                        }
                    },
                }
                Node::Internal(r)
            },
            Node::Leaf(l) => {
                proof {
                    assert(false);
                }
                Node::Leaf(l)
            },
        };
        self.children.insert(li + 1, back);
        proof {
            let a = self.children[li as int];
            let b = self.children[li + 1];
            assert(b == back);
            assert(a.atoms() + b.atoms() == o.parts()[li as int] + o.parts()[li + 1]);
            assert forall|k: int| 0 <= k < self.children.len() implies (#[trigger] self.children[k]).wf()
                && self.children[k].level() + 1 == o.level() && self.children[k].parent() == Some(
                self.handle,
            ) && self.children[k].balanced() && self.children[k].atoms() == o.parts().update(
                li as int,
                a.atoms(),
            ).update(li + 1, b.atoms())[k] by {
                if k < li {
                    assert(self.children[k] == o.children[k]);
                } else if k > li + 1 {
                    assert(self.children[k] == o.children[k]);
                }
            }
            assert(self.level() == o.level()) by {
                assert(self.children[0].level() + 1 == o.level());
            }
            assert(self.parts() =~= o.parts().update(li as int, a.atoms()).update(
                li + 1,
                b.atoms(),
            ));
            lemma_shift_parts(o.parts(), li as int, a.atoms(), b.atoms());
            assert forall|m: Map<ID, LeafHandle>| o.indexed(m) implies #[trigger] self.indexed(m) by {
                assert(o.children[li as int].indexed(m) && o.children[li + 1].indexed(m));
                let l0 = o.children[li as int]->Internal_0;
                let r0 = o.children[li + 1]->Internal_0;
                let l1 = a->Internal_0;
                let r1 = b->Internal_0;
                assert(l0.indexed(m) && r0.indexed(m));
                assert(l1.indexed(m));
                assert(r1.indexed(m));
                assert(a.indexed(m) && b.indexed(m));
                assert forall|k: int| 0 <= k < self.children.len() implies (
                #[trigger] self.children[k]).indexed(m) by {
                    if k < li {
                        assert(self.children[k] == o.children[k]);
                    } else if k > li + 1 {
                        assert(self.children[k] == o.children[k]);
                    }
                }
            }
        }
    }

    /// Removes child `ci` with all that lies below it.
    pub fn _drop_child(&mut self, ci: usize)
        requires
            old(self).wf_children(),
            ci < old(self).children.len(),
        ensures
            final(self).wf_children(),
            final(self).atoms() == old(self).prefix(ci as int) + concat(
                old(self).parts().skip(ci + 1),
            ),
            old(self).children.len() >= 2 ==> final(self).level() == old(self).level(),
            final(self).handle == old(self).handle,
            final(self).parent == old(self).parent,
            final(self).cache == old(self).cache,
            final(self).children.len() == old(self).children.len() - 1,
            forall|m: Map<ID, LeafHandle>| old(self).indexed(m) ==> #[trigger] final(self).indexed(m),
    {
        let ghost o = *old(self);
        self.children.remove(ci);
        proof {
            assert(self.level() == o.level() || o.children.len() < 2) by {
                if o.children.len() >= 2 {
                    if ci == 0 {
                        assert(self.children[0] == o.children[1]);
                    } else {
                        assert(self.children[0] == o.children[0]);
                    }
                }
            }
            assert forall|k: int| 0 <= k < self.children.len() implies (#[trigger] self.children[k]).wf()
                && self.children[k].level() + 1 == self.level() && self.children[k].parent()
                == Some(self.handle) && self.children[k].balanced() && self.children[k].atoms()
                == o.parts().remove(ci as int)[k] by {
                if k < ci {
                    assert(self.children[k] == o.children[k]);
                } else {
                    assert(self.children[k] == o.children[k + 1]);
                }
            }
            assert(self.parts() =~= o.parts().remove(ci as int));
            lemma_concat_remove(o.parts(), ci as int);
            assert forall|m: Map<ID, LeafHandle>| o.indexed(m) implies #[trigger] self.indexed(m) by {
                assert forall|k: int| 0 <= k < self.children.len() implies (
                #[trigger] self.children[k]).indexed(m) by {
                    if k < ci {
                        assert(self.children[k] == o.children[k]);
                    } else {
                        assert(self.children[k] == o.children[k + 1]);
                    }
                }
            }
        }
    }

    /// Brings child `ci` back to size after it lost a child: an empty leaf
    /// is dropped, an internal node with too few children merges with a
    /// sibling or takes a child from it.
    pub fn _settle_child(&mut self, ci: usize)
        requires
            old(self).wf_children_loose(),
            old(self).balanced_except(ci as int),
            ci < old(self).children.len(),
            old(self).children[ci as int] is Internal ==> old(
                self,
            ).children[ci as int].spec_children_num() >= MIN_CHILDREN_NUM - 1,
            old(self).atoms().len() <= usize::MAX,
        ensures
            final(self).wf_children_loose(),
            final(self).children.len() != 1 ==> final(self).wf_children(),
            old(self).children.len() >= 2 ==> final(self).wf_children(),
            final(self).atoms() == old(self).atoms(),
            final(self).level() == old(self).level(),
            final(self).handle == old(self).handle,
            final(self).parent == old(self).parent,
            final(self).cache == old(self).cache,
            final(self).children.len() + 1 >= old(self).children.len(),
            final(self).children.len() <= old(self).children.len(),
            old(self).children[ci as int] is Leaf && old(self).children[ci as int].spec_children_num()
                >= 1 ==> final(self).children.len() == old(self).children.len(),
            forall|m: Map<ID, LeafHandle>| old(self).indexed(m) ==> #[trigger] final(self).indexed(m),
    {
        let ghost o = *old(self);
        let n = self.children.len();
        let is_leaf = !self.children[ci].is_internal();
        let count = self.children[ci].children_num();
        proof {
            o.lemma_children_kind();
            o.lemma_loose();
        }
        if is_leaf {
            if count == 0 {
                self.children.remove(ci);
                proof {
                    assert(o.children[ci as int].atoms() =~= Seq::<Atom>::empty()) by {
                        crate::rle_tree::leaf::lemma_spans_empty();
                        assert(o.children[ci as int]->Leaf_0.children@ =~= Seq::empty());
                    }
                    assert forall|k: int| 0 <= k < self.children.len() implies (
                    #[trigger] self.children[k]).wf() && self.children[k].level() + 1 == o.level()
                        && self.children[k].parent() == Some(self.handle)
                        && self.children[k].balanced() && self.children[k].atoms()
                        == o.parts().remove(ci as int)[k] by {
                        if k < ci {
                            assert(self.children[k] == o.children[k]);
                        } else {
                            assert(self.children[k] == o.children[k + 1]);
                        }
                    }
                    assert(self.level() == o.level()) by {
                        if self.children.len() > 0 {
                            assert(self.children[0].level() + 1 == o.level());
                        }
                    }
                    assert(self.parts() =~= o.parts().remove(ci as int));
                    lemma_remove_empty_part(o.parts(), ci as int);
                    assert forall|m: Map<ID, LeafHandle>| o.indexed(m) implies #[trigger] self.indexed(
                        m,
                    ) by {
                        assert forall|k: int| 0 <= k < self.children.len() implies (
                        #[trigger] self.children[k]).indexed(m) by {
                            if k < ci {
                                assert(self.children[k] == o.children[k]);
                            } else {
                                assert(self.children[k] == o.children[k + 1]);
                            }
                        }
                    }
                }
            }
            return ;
        }
        if count >= MIN_CHILDREN_NUM || n < 2 {
            return ;
        }
        let li = if ci + 1 < n {
            ci
        } else {
            ci - 1
        };
        let lc = self.children[li].children_num();
        let rc = self.children[li + 1].children_num();
        proof {
            assert(o.children[li as int] is Internal && o.children[li + 1] is Internal);
            assert(o.children[li as int].wf() && o.children[li + 1].wf());
            if ci == li {
                assert(o.children[li + 1].balanced());
            } else {
                assert(o.children[li as int].balanced());
            }
        }
        if lc + rc <= MAX_CHILDREN_NUM {
            self._merge_children(li);
        } else {
            self._borrow_child(li, ci == li);
        }
    }

    /// The prefixes grow with the number of children that they cover.
    pub proof fn lemma_prefix_grows(self, a: int, b: int)
        requires
            0 <= a <= b <= self.children.len(),
        ensures
            self.prefix(a).len() <= self.prefix(b).len(),
        decreases b - a,
    {
        if a < b {
            self.lemma_prefix_grows(a, b - 1);
            self.lemma_child_len(b - 1);
        }
    }

    /// Child `i` holds the item at `pos`.
    pub open spec fn holds_at(self, i: int, pos: int) -> bool {
        &&& 0 <= i < self.children.len()
        &&& self.prefix(i).len() <= pos < self.prefix(i).len() + self.children[i].atoms().len()
    }

    /// The child that holds the item at `pos`.
    pub open spec fn child_at(self, pos: int) -> int {
        choose|i: int| self.holds_at(i, pos)
    }

    /// Only one child holds the item at `pos`.
    pub proof fn lemma_child_at(self, i: int, pos: int)
        requires
            self.holds_at(i, pos),
        ensures
            self.child_at(pos) == i,
    {
        let k = self.child_at(pos);
        assert(self.holds_at(k, pos));
        if k < i {
            self.lemma_prefix_grows(k + 1, i);
            self.lemma_child_len(k);
        } else if i < k {
            self.lemma_prefix_grows(i + 1, k);
            self.lemma_child_len(i);
        }
    }

    /// Where one step of a removal of `from..to` ends: at the end of the
    /// child that starts at `from`, where the range covers that child, and
    /// else at `to` or at the end of the leaf that holds the item at `from`,
    /// whichever comes first.
    #[verifier::opaque]
    pub open spec fn step_end(self, from: int, to: int) -> int
        decreases self,
    {
        let ci = self.child_at(from);
        if 0 <= ci < self.children.len() {
            let start = self.prefix(ci).len() as int;
            let stop = start + self.children[ci].atoms().len();
            let last = if to < stop {
                to
            } else {
                stop
            };
            if from == start && stop <= to {
                stop
            } else {
                match self.children[ci] {
                    Node::Leaf(_) => last,
                    Node::Internal(c) => start + c.step_end(from - start, last - start),
                }
            }
        } else {
            to
        }
    }

    /// What `step_end` is, given the child that holds the item at `from`.
    pub proof fn lemma_step_end(self, ci: int, from: int, to: int)
        requires
            self.holds_at(ci, from),
        ensures
            self.child_at(from) == ci,
            self.step_end(from, to) == {
                let start = self.prefix(ci).len() as int;
                let stop = start + self.children[ci].atoms().len();
                if from == start && stop <= to {
                    stop
                } else if to < stop {
                    start + self.children[ci].step_end(from - start, to - start)
                } else {
                    start + self.children[ci].step_end(from - start, stop - start)
                }
            },
    {
        reveal_with_fuel(InternalNode::step_end, 1);
        self.lemma_child_at(ci, from);
    }

    /// The child that holds the item at `from`, and the position within it.
    pub fn _delete_start(&self, from: usize) -> (r: (usize, usize))
        requires
            self.wf(),
            from < self.atoms().len(),
        ensures
            r.0 < self.children.len(),
            self.prefix(r.0 as int).len() + r.1 == from,
            r.1 < self.children[r.0 as int].atoms().len(),
            self.child_at(from as int) == r.0,
    {
        let n = self.children.len();
        let mut i: usize = 0;
        let mut rest: usize = from;
        proof {
            assert(self.parts().take(0) =~= Seq::<Seq<Atom>>::empty());
        }
        while i < n
            invariant
                n == self.children.len(),
                i <= n,
                self.wf(),
                from < self.atoms().len(),
                self.prefix(i as int).len() + rest == from,
            decreases n - i,
        {
            proof {
                self.lemma_child_len(i as int);
            }
            let l = self.children[i].len();
            if rest < l {
                proof {
                    self.lemma_child_at(i as int, from as int);
                }
                return (i, rest);
            }
            rest = rest - l;
            i = i + 1;
        }
        proof {
            assert(self.parts().take(n as int) =~= self.parts());
            assert(false);
        }
        (0, 0)
    }

    /// Where a removal of `count` items from `offset` on ends within child `child_index`.
    pub fn _delete_end(&self, child_index: usize, offset: usize, count: usize) -> (end: usize)
        requires
            self.wf(),
            child_index < self.children.len(),
            offset < self.children[child_index as int].atoms().len(),
            count >= 1,
        ensures
            offset < end <= self.children[child_index as int].atoms().len(),
            end - offset <= count,
            end == if offset + count <= self.children[child_index as int].atoms().len() {
                offset + count
            } else {
                self.children[child_index as int].atoms().len() as int
            },
    {
        let child_len = self.children[child_index].len();
        if count > child_len - offset {
            child_len
        } else {
            offset + count
        }
    }

    /// The items that a removal below `child` left: those of `child`, and
    /// those of the node that it split off.
    pub open spec fn kept(child: Node, res: Result<(), Node>) -> Seq<Atom> {
        if res is Ok {
            child.atoms()
        } else {
            child.atoms() + res->Err_0.atoms()
        }
    }

    /// The items that a removal below the node left: those of the node,
    /// and those of the sibling that it split off.
    pub open spec fn kept_below(self, r: Result<(), InternalNode>) -> Seq<Atom> {
        if r is Ok {
            self.atoms()
        } else {
            self.atoms() + r->Err_0.atoms()
        }
    }

    /// Removes the items `off..end` of child `ci`, or as many of them as one step takes.
    ///
    /// A child splits only where the removal ends within it.
    pub fn _delete_in_child(
        &mut self,
        ci: usize,
        off: usize,
        end: usize,
        arena: &mut Arena,
        notify: &mut CursorMap,
    ) -> (res: Result<(), Node>)
        requires
            old(self).wf(),
            ci < old(self).children.len(),
            off < end <= old(self).children[ci as int].atoms().len(),
        ensures
            final(self).handle == old(self).handle,
            final(self).parent == old(self).parent,
            final(self).cache == old(self).cache,
            final(self).children@ == old(self).children@.update(
                ci as int,
                final(self).children[ci as int],
            ),
            final(self).children[ci as int].wf(),
            final(self).children[ci as int].level() == old(self).children[ci as int].level(),
            final(self).children[ci as int].parent() == old(self).children[ci as int].parent(),
            final(self).children[ci as int] is Internal ==> final(self).children[ci as int].spec_children_num() + 1 >= MIN_CHILDREN_NUM,
            final(self).children[ci as int] is Leaf && (off > 0 || end < old(
                self,
            ).children[ci as int].atoms().len()) ==> final(self).children[ci as int].spec_children_num() >= 1,
            off < old(self).children[ci as int].step_end(off as int, end as int) <= end,
            Self::kept(final(self).children[ci as int], res) == old(
                self,
            ).children[ci as int].atoms().take(off as int) + old(
                self,
            ).children[ci as int].atoms().skip(
                old(self).children[ci as int].step_end(off as int, end as int),
            ),
            res is Err ==> {
                &&& final(self).children[ci as int].balanced()
                &&& res->Err_0.wf()
                &&& res->Err_0.balanced()
                &&& res->Err_0.level() == old(self).children[ci as int].level()
                &&& old(self).children[ci as int].step_end(off as int, end as int) == end
                &&& end < old(self).children[ci as int].atoms().len()
                &&& old(self).children[ci as int].spec_children_num() == MAX_CHILDREN_NUM
            },
            forall|id: ID|
                !has_id(
                    old(self).children[ci as int].atoms().take(off as int) + old(
                        self,
                    ).children[ci as int].atoms().skip(end as int),
                    id,
                ) ==> #[trigger] same_at(old(notify)@, final(notify)@, id),
            old(self).children[ci as int].indexed(old(notify)@) && distinct_ids(
                Self::kept(final(self).children[ci as int], res),
            ) ==> final(self).children[ci as int].indexed(final(notify)@) && (res is Err
                ==> res->Err_0.indexed(final(notify)@)),
        decreases old(self).level(), 0nat,
    {
        proof {
            old(self).lemma_children_kind();
        }
        match &mut self.children[ci] {
            Node::Internal(c) => match c._delete_step(off, end, arena, notify) {
                Ok(()) => Ok(()),
                Err(n) => Err(Node::Internal(n)),
            },
            Node::Leaf(c) => {
                let ghost before = c.atoms();
                let r = c.delete(Some(off), Some(end), arena, notify);
                proof {
                    if c.children.len() == 0 {
                        crate::rle_tree::leaf::lemma_spans_empty();
                        assert(c.children@ =~= Seq::empty());
                    }
                    if off > 0 || end < before.len() {
                        assert((before.take(off as int) + before.skip(end as int)).len() > 0);
                    }
                }
                match r {
                    Ok(()) => Ok(()),
                    Err(l) => Err(Node::Leaf(l)),
                }
            },
        }
    }

    /// The items below the node after a removal below child `ci`, with the
    /// node that the child split off, if any, counted right of the child.
    pub open spec fn kept_at(self, ci: int, res: Result<(), Node>) -> Seq<Atom> {
        if res is Ok {
            self.atoms()
        } else {
            concat(self.parts().insert(ci + 1, res->Err_0.atoms()))
        }
    }

    /// Removes below child `ci`, which holds the item at `from` at its
    /// position `off` and is not covered by the range, and leaves the child,
    /// and the node that it may have split off, for the caller to settle.
    pub fn _delete_below(
        &mut self,
        ci: usize,
        off: usize,
        from: usize,
        to: usize,
        arena: &mut Arena,
        notify: &mut CursorMap,
    ) -> (res: Result<(), Node>)
        requires
            old(self).wf(),
            from < to <= old(self).atoms().len(),
            ci < old(self).children.len(),
            old(self).prefix(ci as int).len() + off == from,
            off < old(self).children[ci as int].atoms().len(),
            off > 0 || to - from < old(self).children[ci as int].atoms().len(),
        ensures
            final(self).handle == old(self).handle,
            final(self).parent == old(self).parent,
            final(self).cache == old(self).cache,
            final(self).level() == old(self).level(),
            final(self).children.len() == old(self).children.len(),
            final(self).wf_children_loose(),
            final(self).balanced_except(ci as int),
            final(self).children[ci as int] is Internal ==> final(self).children[ci as int].spec_children_num() + 1 >= MIN_CHILDREN_NUM,
            final(self).children[ci as int] is Leaf ==> final(self).children[ci as int].spec_children_num() >= 1,
            res is Err ==> {
                &&& final(self).wf_children()
                &&& res->Err_0.wf()
                &&& res->Err_0.balanced()
                &&& res->Err_0.level() + 1 == final(self).level()
                &&& old(self).step_end(from as int, to as int) == to
                &&& to < old(self).atoms().len()
                &&& old(self).children[ci as int].spec_children_num() == MAX_CHILDREN_NUM
            },
            from < old(self).step_end(from as int, to as int) <= to,
            final(self).kept_at(ci as int, res) == old(self).atoms().take(from as int) + old(
                self,
            ).atoms().skip(old(self).step_end(from as int, to as int)),
            forall|id: ID|
                !has_id(old(self).atoms().take(from as int) + old(self).atoms().skip(to as int), id)
                    ==> #[trigger] same_at(old(notify)@, final(notify)@, id),
            old(self).indexed(old(notify)@) && distinct_ids(final(self).kept_at(ci as int, res))
                ==> final(self).indexed(final(notify)@) && (res is Err ==> res->Err_0.indexed(
                final(notify)@,
            )),
        decreases old(self).level(), 1nat,
    {
        let ghost o = *old(self);
        let end = self._delete_end(ci, off, to - from);
        proof {
            o.lemma_child_len(ci as int);
            o.lemma_step_end(ci as int, from as int, to as int);
        }
        let ghost child = o.children[ci as int];
        let ghost notify0 = notify@;
        let ghost reach = child.step_end(off as int, end as int);
        let res = self._delete_in_child(ci, off, end, arena, notify);
        let ghost mid = *self;
        let ghost kept = Self::kept(mid.children[ci as int], res);
        let ghost wanted = o.atoms().take(from as int) + o.atoms().skip(from - off + reach);
        proof {
            assert(o.step_end(from as int, to as int) == from - off + reach);
            o.lemma_replace_child(mid, ci as int);
            lemma_cut(
                o.prefix(ci as int),
                child.atoms(),
                concat(o.parts().skip(ci + 1)),
                off as int,
                reach,
            );
            assert(o.prefix(ci as int) + kept + concat(o.parts().skip(ci + 1)) == wanted);
            if res is Err {
                lemma_child_split(
                    o.parts(),
                    ci as int,
                    mid.children[ci as int].atoms(),
                    res->Err_0.atoms(),
                );
            }
            assert(mid.kept_at(ci as int, res) == wanted);
            lemma_cut_lift(
                o.prefix(ci as int),
                child.atoms(),
                concat(o.parts().skip(ci + 1)),
                off as int,
                end as int,
                to as int,
            );
            lemma_cut_within(child.atoms(), off as int, reach, end as int);
            assert forall|id: ID| !has_id(kept, id) implies #[trigger] same_at(
                notify0,
                notify@,
                id,
            ) by {
                assert(!has_id(child.atoms().take(off as int) + child.atoms().skip(end as int), id));
            }
            lemma_frame_widen(
                o.prefix(ci as int),
                kept,
                concat(o.parts().skip(ci + 1)),
                notify0,
                notify@,
            );
            assert forall|id: ID|
                !has_id(
                    o.atoms().take(from as int) + o.atoms().skip(to as int),
                    id,
                ) implies #[trigger] same_at(notify0, notify@, id) by {
                assert(!has_id(child.atoms().take(off as int) + child.atoms().skip(end as int), id));
            }
            if o.indexed(notify0) && distinct_ids(wanted) {
                assert(o.children[ci as int].indexed(notify0));
                o.lemma_child_indexed(mid, ci as int, notify0, notify@, kept);
            }
        }
        res
    }

    /// One step of the removal of `from..to` below this node.
    ///
    /// The child that starts at `from` goes as a whole, where the range
    /// covers it. Else the items go that lie before `to` and share a leaf
    /// with the item at `from`: the step ends at `step_end`. Only a step
    /// that ends at `to`, within a leaf, can split that leaf, and only a node
    /// that is full then hands back a sibling.
    ///
    /// The node's own number of children may drop by one; its parent sees to that.
    pub fn _delete_step(
        &mut self,
        from: usize,
        to: usize,
        arena: &mut Arena,
        notify: &mut CursorMap,
    ) -> (r: Result<(), InternalNode>)
        requires
            old(self).wf(),
            from < to <= old(self).atoms().len(),
        ensures
            final(self).handle == old(self).handle,
            final(self).parent == old(self).parent,
            r is Err || old(self).children.len() >= 2 ==> final(self).level() == old(self).level(),
            final(self).level() <= old(self).level(),
            from < old(self).step_end(from as int, to as int) <= to,
            final(self).kept_below(r) == old(self).atoms().take(from as int) + old(
                self,
            ).atoms().skip(old(self).step_end(from as int, to as int)),
            match r {
                Ok(()) => {
                    &&& final(self).wf_relaxed()
                    &&& old(self).children.len() >= 2 ==> final(self).wf()
                    &&& final(self).children.len() + 1 >= old(self).children.len()
                    &&& final(self).children.len() <= old(self).children.len() + 1
                    &&& final(self).children.len() > old(self).children.len() ==> old(
                        self,
                    ).children[old(self).child_at(from as int)].spec_children_num()
                        == MAX_CHILDREN_NUM
                    &&& final(self).children.len() < old(self).children.len() && old(self).level()
                        == 1 ==> old(self).prefix(old(self).child_at(from as int)).len() == from
                        && old(self).step_end(from as int, to as int) == from + old(
                        self,
                    ).children[old(self).child_at(from as int)].atoms().len()
                },
                Err(sibling) => {
                    &&& final(self).wf()
                    &&& sibling.wf()
                    &&& sibling.parent == old(self).parent
                    &&& sibling.level() == old(self).level()
                    &&& final(self).children.len() >= MIN_CHILDREN_NUM
                    &&& sibling.children.len() >= MIN_CHILDREN_NUM
                    &&& final(self).children.len() + sibling.children.len() == MAX_CHILDREN_NUM
                        + 1
                    &&& old(self).children.len() == MAX_CHILDREN_NUM
                    &&& old(self).step_end(from as int, to as int) == to
                    &&& to < old(self).atoms().len()
                },
            },
            forall|id: ID|
                !has_id(old(self).atoms().take(from as int) + old(self).atoms().skip(to as int), id)
                    ==> #[trigger] same_at(old(notify)@, final(notify)@, id),
            old(self).indexed(old(notify)@) && distinct_ids(final(self).kept_below(r)) ==> final(self).indexed(final(notify)@) && (r is Err ==> r->Err_0.indexed(final(notify)@)),
        decreases old(self).level(), 2nat,
    {
        let ghost o = *old(self);
        let ghost notify0 = notify@;
        let (first, off) = self._delete_start(from);
        proof {
            o.lemma_child_len(first as int);
            o.lemma_children_kind();
        }
        if off == 0 && to - from >= self.children[first].len() {
            proof {
                let pre = o.prefix(first as int);
                let gone = o.children[first as int].atoms();
                let post = concat(o.parts().skip(first + 1));
                assert(pre + post =~= o.atoms().take(from as int) + o.atoms().skip(
                    from + gone.len(),
                ));
                assert((pre + gone + post).len() == pre.len() + gone.len() + post.len());
                o.lemma_step_end(first as int, from as int, to as int);
            }
            self._drop_child(first);
            let ghost dropped = *self;
            self.update_cache();
            proof {
                self.lemma_loose();
                if o.indexed(notify0) {
                    assert(dropped.indexed(notify0));
                    assert(self.indexed(notify0));
                }
            }
            return Ok(());
        }
        proof {
            o.lemma_step_end(first as int, from as int, to as int);
        }
        let res = self._delete_below(first, off, from, to, arena, notify);
        let ghost mid = *self;
        let ghost wanted = mid.kept_at(first as int, res);
        let ghost good = o.indexed(notify0) && distinct_ids(wanted);
        let r = match res {
            Ok(()) => {
                self._settle_child(first);
                proof {
                    if good {
                        assert(mid.indexed(notify@));
                        assert(self.indexed(notify@));
                    }
                }
                Ok(())
            },
            Err(new) => {
                let r2 = self._insert_with_split(first + 1, new, arena);
                proof {
                    if good {
                        assert(mid.indexed(notify@) && new.indexed(notify@));
                        assert(self.indexed(notify@));
                        if r2 is Err {
                            assert(r2->Err_0.indexed(notify@));
                        }
                    }
                }
                r2
            },
        };
        let ghost settled = *self;
        match r {
            Ok(()) => {
                proof {
                    assert(self.atoms() == wanted);
                    assert(wanted.len() <= o.atoms().len());
                }
                self.update_cache();
                proof {
                    self.lemma_loose();
                    if good {
                        assert(settled.indexed(notify@));
                        assert(self.indexed(notify@));
                    }
                }
                Ok(())
            },
            Err(sibling) => {
                let mut sibling = sibling;
                let ghost split = sibling;
                proof {
                    assert(self.atoms() + sibling.atoms() == wanted);
                    assert((self.atoms() + sibling.atoms()).len() == self.atoms().len()
                        + sibling.atoms().len());
                    assert(wanted.len() <= o.atoms().len());
                }
                self.update_cache();
                sibling.update_cache();
                proof {
                    if good {
                        assert(settled.indexed(notify@) && split.indexed(notify@));
                        assert(self.indexed(notify@));
                        assert(sibling.indexed(notify@));
                    }
                }
                Err(sibling)
            },
        }
    }

    /// While the node's only child is an internal node, the node takes that
    /// child's place. This is how a root loses levels.
    pub fn _root_shrink_levels_if_one_child(&mut self)
        requires
            old(self).wf_relaxed(),
        ensures
            final(self).wf(),
            final(self).atoms() == old(self).atoms(),
            final(self).parent == old(self).parent,
            final(self).handle == old(self).handle,
            final(self).level() <= old(self).level(),
            !(final(self).children.len() == 1 && final(self).children[0] is Internal),
            !(old(self).children.len() == 1 && old(self).children[0] is Internal) ==> final(self).children == old(self).children,
            forall|m: Map<ID, LeafHandle>| old(self).indexed(m) ==> #[trigger] final(self).indexed(m),
    {
        while self.children.len() == 1 && self.children[0].is_internal()
            invariant
                self.wf_relaxed(),
                self.atoms() == old(self).atoms(),
                self.parent == old(self).parent,
                self.handle == old(self).handle,
                self.level() <= old(self).level(),
                !(old(self).children.len() == 1 && old(self).children[0] is Internal)
                    ==> self.children == old(self).children,
                forall|m: Map<ID, LeafHandle>| old(self).indexed(m) ==> #[trigger] self.indexed(m),
            decreases self.level(),
        {
            let ghost before = *self;
            proof {
                before.lemma_child_len(0);
                assert(before.parts() =~= seq![before.children[0].atoms()]);
                lemma_concat_one(before.children[0].atoms());
            }
            let child = self.children.pop();
            match child {
                Some(Node::Internal(c)) => {
                    let mut c = c;
                    core::mem::swap(&mut self.children, &mut c.children);
                    let ghost taken = self.children@;
                    adopt(&mut self.children, 0, self.handle);
                    proof {
                        let inner = before.children[0]->Internal_0;
                        assert(taken == inner.children@);
                        assert forall|k: int| 0 <= k < self.children.len() implies (
                        #[trigger] self.children[k]).wf() && self.children[k].level() + 1
                            == inner.level() && self.children[k].parent() == Some(self.handle)
                            && self.children[k].balanced() && self.children[k].atoms()
                            == inner.parts()[k] by {
                            assert(same_subtree(self.children[k], taken[k]));
                        }
                        assert(self.level() == inner.level()) by {
                            if self.children.len() > 0 {
                                assert(self.children[0].level() + 1 == inner.level());
                            }
                        }
                        assert(self.parts() =~= inner.parts());
                        assert(self.wf_children());
                        self.lemma_loose();
                        assert forall|m: Map<ID, LeafHandle>| old(self).indexed(m) implies #[trigger] self.indexed(
                            m,
                        ) by {
                            assert(before.indexed(m));
                            assert(before.children[0].indexed(m));
                            assert forall|k: int| 0 <= k < self.children.len() implies (
                            #[trigger] self.children[k]).indexed(m) by {
                                assert(same_subtree(self.children[k], taken[k]));
                                assert(inner.children[k].indexed(m));
                            }
                        }
                    }
                },
                _ => {
                    proof {
                        assert(false);
                    }
                },
            }
        }
        proof {
            self.lemma_loose();
            if self.children.len() == 1 {
                assert(self.children[0].balanced());
                assert(self.balanced_except(-1));
            }
        }
    }

    /// Removes the items `from..to` below this node, one step after another.
    ///
    /// After each step a node left with a lone internal child takes that
    /// child's place, so the subtree may lose levels. Only the last step can
    /// split a leaf; where that finds this node full, the node splits as
    /// well and hands back its new sibling.
    pub fn _delete(
        &mut self,
        from: usize,
        to: usize,
        arena: &mut Arena,
        notify: &mut CursorMap,
    ) -> (r: Result<(), InternalNode>)
        requires
            old(self).wf(),
            from <= to <= old(self).atoms().len(),
        ensures
            final(self).wf(),
            final(self).handle == old(self).handle,
            final(self).parent == old(self).parent,
            final(self).level() <= old(self).level(),
            final(self).kept_below(r) == old(self).atoms().take(from as int) + old(
                self,
            ).atoms().skip(to as int),
            from == to ==> r is Ok && final(self).children == old(self).children,
            match r {
                Ok(()) => old(self).level() == 1 && from < to && old(self).step_end(
                    from as int,
                    to as int,
                ) == to ==> {
                    &&& final(self).children.len() <= old(self).children.len() + 1
                    &&& final(self).children.len() + 1 >= old(self).children.len()
                    &&& final(self).children.len() > old(self).children.len() ==> old(
                        self,
                    ).children[old(self).child_at(from as int)].spec_children_num()
                        == MAX_CHILDREN_NUM
                    &&& final(self).children.len() < old(self).children.len() ==> old(
                        self,
                    ).prefix(old(self).child_at(from as int)).len() == from && to == from
                        + old(self).children[old(self).child_at(from as int)].atoms().len()
                },
                Err(sibling) => {
                    &&& sibling.wf()
                    &&& sibling.parent == old(self).parent
                    &&& sibling.level() == final(self).level()
                    &&& final(self).children.len() >= MIN_CHILDREN_NUM
                    &&& sibling.children.len() >= MIN_CHILDREN_NUM
                    &&& final(self).children.len() + sibling.children.len() == MAX_CHILDREN_NUM
                        + 1
                    &&& from < to < old(self).atoms().len()
                    &&& old(self).children.len() == MAX_CHILDREN_NUM || old(self).step_end(
                        from as int,
                        to as int,
                    ) < to
                },
            },
            forall|id: ID|
                !has_id(final(self).kept_below(r), id) ==> #[trigger] same_at(
                    old(notify)@,
                    final(notify)@,
                    id,
                ),
            old(self).indexed(old(notify)@) && distinct_ids(old(self).atoms()) ==> final(self).indexed(final(notify)@) && (r is Err ==> r->Err_0.indexed(final(notify)@)),
    {
        let mut e: usize = to;
        let ghost all = self.atoms();
        let ghost notify0 = notify@;
        let ghost good = self.indexed(notify0) && distinct_ids(all);
        let ghost target = all.take(from as int) + all.skip(to as int);
        let ghost first = old(self).step_end(from as int, to as int) - from;
        let ghost steps: nat = 0;
        proof {
            assert(all.take(from as int) + all.skip(from as int) =~= all);
        }
        while from < e
            invariant
                self.wf(),
                self.parent == old(self).parent,
                self.handle == old(self).handle,
                self.level() <= old(self).level(),
                from <= e <= to <= all.len(),
                all == old(self).atoms(),
                notify0 == old(notify)@,
                good == (old(self).indexed(notify0) && distinct_ids(all)),
                target == all.take(from as int) + all.skip(to as int),
                first == old(self).step_end(from as int, to as int) - from,
                self.atoms() == all.take(from as int) + all.skip(from + (to - e)),
                self.atoms().len() == all.len() - (to - e),
                forall|id: ID| !has_id(target, id) ==> #[trigger] same_at(notify0, notify@, id),
                good ==> self.indexed(notify@) && distinct_ids(all),
                steps == 0 ==> e == to && *self == *old(self),
                steps >= 1 ==> to - e >= first && first >= 1,
                steps >= 2 ==> to - e > first,
                steps == 1 && old(self).level() == 1 ==> {
                    &&& to - e == first
                    &&& self.children.len() <= old(self).children.len() + 1
                    &&& self.children.len() + 1 >= old(self).children.len()
                    &&& self.children.len() > old(self).children.len() ==> old(
                        self,
                    ).children[old(self).child_at(from as int)].spec_children_num()
                        == MAX_CHILDREN_NUM
                    &&& self.children.len() < old(self).children.len() ==> old(self).prefix(
                        old(self).child_at(from as int),
                    ).len() == from && first == old(self).children[old(self).child_at(
                        from as int,
                    )].atoms().len()
                },
            decreases e - from,
        {
            let before = self.cache.len;
            let ghost cur = self.atoms();
            let ghost cur_node = *self;
            let ghost notify1 = notify@;
            let r = self._delete_step(from, e, arena, notify);
            let ghost left = self.kept_below(r);
            let ghost removed = cur_node.step_end(from as int, e as int) - from;
            proof {
                lemma_distinct_cut(all, from as int, from + (to - e));
                assert(left == cur.take(from as int) + cur.skip(from + removed));
                assert(left.len() == cur.len() - removed);
                lemma_distinct_cut(cur, from as int, from + removed);
                assert(cur.take(from as int) + cur.skip(e as int) =~= target);
                assert forall|id: ID| !has_id(target, id) implies #[trigger] same_at(
                    notify0,
                    notify@,
                    id,
                ) by {
                    assert(same_at(notify0, notify1, id));
                    assert(same_at(notify1, notify@, id));
                }
                if good {
                    assert(cur_node.indexed(notify1));
                    assert(distinct_ids(left));
                }
            }
            match r {
                Ok(()) => {},
                Err(sibling) => {
                    proof {
                        assert(removed == e - from);
                        assert(left == target);
                        assert(self.atoms() + sibling.atoms() == target);
                        if good {
                            assert(self.indexed(notify@) && sibling.indexed(notify@));
                        }
                    }
                    return Err(sibling);
                },
            }
            let ghost stepped = *self;
            proof {
                cur_node.lemma_children_kind();
                self.lemma_children_kind();
            }
            self._root_shrink_levels_if_one_child();
            let gone = before - self.cache.len;
            proof {
                assert(gone == removed);
                assert(self.atoms() == cur.take(from as int) + cur.skip(from + gone));
                assert(cur.take(from as int) + cur.skip(from + gone) =~= all.take(from as int)
                    + all.skip(from + (to - e) + gone));
                if good {
                    assert(stepped.indexed(notify@));
                    assert(self.indexed(notify@));
                }
                steps = steps + 1;
            }
            e = e - gone;
        }
        proof {
            assert(self.atoms() == target);
        }
        Ok(())
    }

    /// Removes the items `start..end` from the tree that this node is the
    /// root of; an absent bound stands for that end of the sequence.
    ///
    /// A bound beyond the end stands for the end, and a range that ends
    /// before it starts for the empty range at its start, so that a removal
    /// from an empty tree changes nothing. The cursor map is written only at
    /// items that stay. Afterwards the root holds no lone internal child,
    /// and no child at all where no item is left.
    pub fn delete(
        &mut self,
        start: Option<usize>,
        end: Option<usize>,
        arena: &mut Arena,
        notify: &mut CursorMap,
    )
        requires
            old(self).wf(),
            old(self).parent is None,
        ensures
            final(self).wf(),
            final(self).parent is None,
            final(self).handle == old(self).handle,
            final(self).atoms() == old(self).atoms().take(
                spec_clamped_start(start, old(self).atoms().len()) as int,
            ) + old(self).atoms().skip(
                spec_clamped_end(start, end, old(self).atoms().len()) as int,
            ),
            !(final(self).children.len() == 1 && final(self).children[0] is Internal),
            final(self).atoms().len() == 0 ==> final(self).children.len() == 0,
            forall|id: ID|
                !has_id(final(self).atoms(), id) ==> #[trigger] same_at(
                    old(notify)@,
                    final(notify)@,
                    id,
                ),
            old(self).indexed(old(notify)@) && distinct_ids(old(self).atoms()) ==> final(self).indexed(final(notify)@),
    {
        let len = self.cache.len;
        let s: usize = match start {
            Some(x) => if x < len {
                x
            } else {
                len
            },
            None => 0,
        };
        let e1: usize = match end {
            Some(x) => if x < len {
                x
            } else {
                len
            },
            None => len,
        };
        let e: usize = if e1 < s {
            s
        } else {
            e1
        };
        let ghost all = self.atoms();
        let ghost good = self.indexed(notify@) && distinct_ids(all);
        match self._delete(s, e, arena, notify) {
            Ok(()) => {},
            Err(sibling) => {
                proof {
                    assert((self.atoms() + sibling.atoms()).len() == self.atoms().len()
                        + sibling.atoms().len());
                }
                let ghost half = *self;
                self._create_level(sibling, arena);
                proof {
                    if good {
                        assert(half.indexed(notify@) && sibling.indexed(notify@));
                        assert(self.indexed(notify@));
                    }
                }
            },
        }
        proof {
            self.lemma_loose();
        }
        let ghost grown = *self;
        self._root_shrink_levels_if_one_child();
        if self.cache.len == 0 && self.children.len() > 0 {
            let ghost full = *self;
            self.children = Vec::new();
            proof {
                assert(self.parts() =~= Seq::<Seq<Atom>>::empty());
                assert(self.atoms() =~= full.atoms());
            }
        }
        proof {
            if good {
                assert(grown.indexed(notify@));
            }
        }
    }
}

} // verus!
