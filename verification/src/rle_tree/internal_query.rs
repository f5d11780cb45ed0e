//! Internal nodes: looking items up.

use vstd::prelude::*;
use crate::cursor_map::LeafHandle;
use crate::id::ID;
use crate::rle_tree::node::{InternalNode, Node};
use crate::y_span::{lemma_visible_len_add, visible_len, Atom, YSpan};

verus! {

impl InternalNode {
    /// The rest of the run that holds the item at `pos`, from that item on.
    pub fn span_at(&self, pos: usize) -> (r: YSpan)
        requires
            self.wf(),
            pos < self.atoms().len(),
        ensures
            r.wf(),
            pos + r.len <= self.atoms().len(),
            r.atoms() == self.atoms().subrange(pos as int, pos + r.len),
        decreases self.level(),
    {
        let (ci, off) = self._delete_start(pos);
        proof {
            self.lemma_child_len(ci as int);
        }
        let r = match &self.children[ci] {
            Node::Internal(c) => c.span_at(off),
            Node::Leaf(c) => c.span_at(off),
        };
        proof {
            let child = self.children[ci as int].atoms();
            assert(child.subrange(off as int, off + r.len) =~= self.atoms().subrange(
                pos as int,
                pos + r.len,
            ));
        }
        r
    }

    /// The item at `pos`.
    pub fn atom_at(&self, pos: usize) -> (a: Atom)
        requires
            self.wf(),
            pos < self.atoms().len(),
        ensures
            a == self.atoms()[pos as int],
    {
        let s = self.span_at(pos);
        proof {
            assert(s.atoms()[0] == self.atoms().subrange(pos as int, pos + s.len)[0]);
        }
        s.atom_at(0)
    }

    /// The position of the item named `id`, if the subtree holds it.
    pub fn find_id(&self, id: ID) -> (r: Option<usize>)
        requires
            self.wf(),
        ensures
            match r {
                Some(p) => p < self.atoms().len() && self.atoms()[p as int].id == id,
                None => forall|j: int| 0 <= j < self.atoms().len() ==> (#[trigger] self.atoms()[j]).id
                    != id,
            },
        decreases self.level(),
    {
        let n = self.children.len();
        let mut acc: usize = 0;
        let mut i: usize = 0;
        proof {
            assert(self.parts().take(0) =~= Seq::<Seq<Atom>>::empty());
        }
        while i < n
            invariant
                n == self.children.len(),
                i <= n,
                self.wf(),
                acc == self.prefix(i as int).len(),
                forall|j: int| 0 <= j < acc ==> (#[trigger] self.prefix(i as int)[j]).id != id,
            decreases n - i,
        {
            proof {
                self.lemma_child_len(i as int);
            }
            let found = match &self.children[i] {
                Node::Internal(c) => c.find_id(id),
                Node::Leaf(c) => c.find_id(id),
            };
            let ghost child = self.children[i as int].atoms();
            match found {
                Some(p) => {
                    proof {
                        assert(self.atoms()[acc + p] == child[p as int]);
                    }
                    return Some(acc + p);
                },
                None => {},
            }
            proof {
                let prev = self.prefix(i as int);
                let next = self.prefix(i + 1);
                assert forall|j: int| 0 <= j < next.len() implies (#[trigger] next[j]).id != id by {
                    if j < prev.len() {
                        assert(next[j] == prev[j]);
                    } else {
                        assert(next[j] == child[j - prev.len()]);
                    }
                }
            }
            acc = acc + self.children[i].len();
            i = i + 1;
        }
        proof {
            assert(self.parts().take(n as int) =~= self.parts());
        }
        None
    }

    /// The number of visible items before position `pos`.
    pub fn visible_before(&self, pos: usize) -> (v: usize)
        requires
            self.wf(),
            pos <= self.atoms().len(),
        ensures
            v == visible_len(self.atoms().take(pos as int)),
        decreases self.level(),
    {
        let n = self.children.len();
        let mut acc: usize = 0;
        let mut vacc: usize = 0;
        let mut i: usize = 0;
        proof {
            assert(self.parts().take(0) =~= Seq::<Seq<Atom>>::empty());
            assert(visible_len(Seq::<Atom>::empty()) == 0);
        }
        while i < n
            invariant
                n == self.children.len(),
                i <= n,
                self.wf(),
                pos <= self.atoms().len(),
                acc == self.prefix(i as int).len(),
                vacc == visible_len(self.prefix(i as int)),
                acc <= pos,
            decreases n - i,
        {
            proof {
                self.lemma_child_len(i as int);
            }
            let l = self.children[i].len();
            if pos < acc + l {
                let k = pos - acc;
                let v = match &self.children[i] {
                    Node::Internal(c) => c.visible_before(k),
                    Node::Leaf(c) => c.visible_before(k),
                };
                proof {
                    let prev = self.prefix(i as int);
                    let child = self.children[i as int].atoms();
                    assert(self.atoms().take(acc + k) =~= prev + child.take(k as int));
                    lemma_visible_len_add(prev, child.take(k as int));
                    lemma_visible_len_add(child.take(k as int), child.skip(k as int));
                    assert(child.take(k as int) + child.skip(k as int) =~= child);
                }
                return vacc + v;
            }
            acc = acc + l;
            vacc = vacc + self.children[i].visible_len();
            i = i + 1;
        }
        proof {
            assert(self.parts().take(n as int) =~= self.parts());
            assert(self.atoms().take(pos as int) =~= self.atoms());
        }
        vacc
    }

    /// The position of the item named `id` in a leaf named `leaf`, if such a leaf holds it.
    pub fn find_in_leaf(&self, leaf: LeafHandle, id: ID) -> (r: Option<usize>)
        requires
            self.wf(),
        ensures
            match r {
                Some(p) => p < self.atoms().len() && self.atoms()[p as int].id == id
                    && self.leaf_holds(leaf, id),
                None => !self.leaf_holds(leaf, id),
            },
        decreases self.level(),
    {
        let n = self.children.len();
        let mut acc: usize = 0;
        let mut i: usize = 0;
        proof {
            assert(self.parts().take(0) =~= Seq::<Seq<Atom>>::empty());
        }
        while i < n
            invariant
                n == self.children.len(),
                i <= n,
                self.wf(),
                acc == self.prefix(i as int).len(),
                forall|k: int| 0 <= k < i ==> !(#[trigger] self.children[k]).leaf_holds(leaf, id),
            decreases n - i,
        {
            proof {
                self.lemma_child_len(i as int);
            }
            let found = match &self.children[i] {
                Node::Internal(c) => c.find_in_leaf(leaf, id),
                Node::Leaf(c) => if c.handle == leaf {
                    let f = c.find_id(id);
                    proof {
                        if f is Some {
                            assert(c.atoms()[f->Some_0 as int].id == id);
                        } else if crate::y_span::has_id(c.atoms(), id) {
                            let j = choose|j: int|
                                0 <= j < c.atoms().len() && (#[trigger] c.atoms()[j]).id == id;
                            assert(c.atoms()[j].id == id);
                        }
                    }
                    f
                } else {
                    None
                },
            };
            let ghost child = self.children[i as int].atoms();
            match found {
                Some(p) => {
                    proof {
                        assert(self.atoms()[acc + p] == child[p as int]);
                        assert(self.children[i as int].leaf_holds(leaf, id));
                    }
                    return Some(acc + p);
                },
                None => {},
            }
            acc = acc + self.children[i].len();
            i = i + 1;
        }
        None
    }

    /// The position of the visible item that `vis` visible items precede.
    pub fn visible_to_pos(&self, vis: usize) -> (p: usize)
        requires
            self.wf(),
            vis < visible_len(self.atoms()),
        ensures
            p < self.atoms().len(),
            self.atoms()[p as int].status.spec_is_visible(),
            visible_len(self.atoms().take(p as int)) == vis,
        decreases self.level(),
    {
        let n = self.children.len();
        let mut acc: usize = 0;
        let mut vacc: usize = 0;
        let mut i: usize = 0;
        proof {
            assert(self.parts().take(0) =~= Seq::<Seq<Atom>>::empty());
            assert(visible_len(Seq::<Atom>::empty()) == 0);
        }
        while i < n
            invariant
                n == self.children.len(),
                i <= n,
                self.wf(),
                vis < visible_len(self.atoms()),
                acc == self.prefix(i as int).len(),
                vacc == visible_len(self.prefix(i as int)),
                vacc <= vis,
            decreases n - i,
        {
            proof {
                self.lemma_child_len(i as int);
            }
            let v = self.children[i].visible_len();
            if vis < vacc + v {
                let k = vis - vacc;
                let p = match &self.children[i] {
                    Node::Internal(c) => c.visible_to_pos(k),
                    Node::Leaf(c) => c.visible_to_pos(k),
                };
                proof {
                    let prev = self.prefix(i as int);
                    let child = self.children[i as int].atoms();
                    assert(self.atoms().take(acc + p) =~= prev + child.take(p as int));
                    lemma_visible_len_add(prev, child.take(p as int));
                    assert(self.atoms()[acc + p] == child[p as int]);
                }
                return acc + p;
            }
            acc = acc + self.children[i].len();
            vacc = vacc + v;
            i = i + 1;
        }
        proof {
            assert(self.parts().take(n as int) =~= self.parts());
            assert(false);
        }
        0
    }
}

} // verus!
