//! Checking at run time that a tree is valid.

use vstd::prelude::*;
use crate::rle_tree::leaf::{lemma_spans_empty, lemma_spans_step, spans_atoms, spans_wf, LeafNode};
use crate::rle_tree::node::{InternalNode, Node};
use crate::rle_tree::{MAX_CHILDREN_NUM, MIN_CHILDREN_NUM};
use crate::y_span::{visible_len, Atom, YSpan};

verus! {

impl YSpan {
    /// Whether the run is valid.
    pub fn check(&self) -> (ok: bool)
        ensures
            ok == self.wf(),
    {
        if self.len < 1 || self.len > 0xffff_ffff {
            return false;
        }
        self.id.counter as i64 + self.len as i64 <= 0x7fff_ffff
    }
}

impl LeafNode {
    /// Whether the leaf is valid: its runs are valid and merged, they are
    /// not too many, and the cache is right.
    pub fn check(&self) -> (ok: bool)
        ensures
            ok == self.wf(),
    {
        let n = self.children.len();
        if n > MAX_CHILDREN_NUM {
            return false;
        }
        let mut len: usize = 0;
        let mut visible: usize = 0;
        let mut i: usize = 0;
        proof {
            assert(self.children@.take(0) =~= Seq::<YSpan>::empty());
            lemma_spans_empty();
            assert(visible_len(Seq::<Atom>::empty()) == 0);
        }
        while i < n
            invariant
                n == self.children.len(),
                i <= n,
                spans_wf(self.children@.take(i as int)),
                len == spans_atoms(self.children@.take(i as int)).len(),
                visible == visible_len(spans_atoms(self.children@.take(i as int))),
                visible <= len,
            decreases n - i,
        {
            let c = &self.children[i];
            proof {
                lemma_spans_step(self.children@, i as int);
            }
            if !c.check() {
                proof {
                    assert(!self.children@[i as int].wf());
                }
                return false;
            }
            if i > 0 {
                proof {
                    assert(self.children@.take(i as int)[i - 1].wf());
                }
                if self.children[i - 1].is_mergable(c) {
                    proof {
                        assert(self.children@[i - 1].spec_mergable(self.children@[i as int]));
                    }
                    return false;
                }
            }
            proof {
                let a = self.children@.take(i as int);
                let b = self.children@.take(i + 1);
                assert forall|j: int| 0 <= j < b.len() implies (#[trigger] b[j]).wf() by {
                    if j < i {
                        assert(a[j].wf());
                    }
                }
                assert forall|j: int| 0 <= j < b.len() - 1 implies !(#[trigger] b[j]).spec_mergable(
                    b[j + 1],
                ) by {
                    if j < i - 1 {
                        assert(!a[j].spec_mergable(a[j + 1]));
                    }
                }
                c.lemma_atoms_visible();
            }
            match len.checked_add(c.len) {
                Some(x) => {
                    len = x;
                },
                None => {
                    return false;
                },
            }
            visible = visible + c.content_len();
            i = i + 1;
        }
        proof {
            assert(self.children@.take(n as int) =~= self.children@);
        }
        len == self.cache.len && visible == self.cache.visible
    }
}

impl Node {
    /// The level of the node, if the subtree is valid and the level fits.
    pub fn check_level(&self) -> (r: Option<usize>)
        ensures
            r is Some == (self.wf() && self.level() <= usize::MAX),
            r is Some ==> r->Some_0 == self.level(),
        decreases self,
    {
        match self {
            Node::Leaf(l) => if l.check() {
                Some(0)
            } else {
                None
            },
            Node::Internal(n) => n.check_level(),
        }
    }
}

impl InternalNode {
    /// Every internal node below this one has between `MIN_CHILDREN_NUM`
    /// and `MAX_CHILDREN_NUM` children, and in no leaf below it does a run
    /// continue the run before it.
    pub open spec fn within_bounds(self) -> bool
        decreases self,
    {
        &&& self.children.len() <= MAX_CHILDREN_NUM
        &&& forall|i: int|
            0 <= i < self.children.len() ==> match #[trigger] self.children[i] {
                Node::Internal(c) => MIN_CHILDREN_NUM <= c.children.len() && c.within_bounds(),
                Node::Leaf(l) => l.children.len() <= MAX_CHILDREN_NUM && forall|k: int|
                    0 <= k < l.children.len() - 1 ==> !(#[trigger] l.children[k]).spec_mergable(
                        l.children[k + 1],
                    ),
            }
    }

    /// In a valid tree every internal node below the root has a permitted
    /// number of children, and the runs of every leaf are merged.
    pub proof fn law_balance(self)
        requires
            self.wf(),
        ensures
            self.within_bounds(),
        decreases self,
    {
        assert forall|i: int| 0 <= i < self.children.len() implies match #[trigger] self.children[i] {
            Node::Internal(c) => MIN_CHILDREN_NUM <= c.children.len() && c.within_bounds(),
            Node::Leaf(l) => l.children.len() <= MAX_CHILDREN_NUM && forall|k: int|
                0 <= k < l.children.len() - 1 ==> !(#[trigger] l.children[k]).spec_mergable(
                    l.children[k + 1],
                ),
        } by {
            let child = self.children[i];
            assert(child.wf() && child.balanced());
            match child {
                Node::Internal(c) => {
                    c.law_balance();
                },
                Node::Leaf(l) => {
                    assert(spans_wf(l.children@));
                },
            }
        }
    }

    /// Every node below names the node that holds it as its parent.
    pub open spec fn parents_agree(self) -> bool
        decreases self,
    {
        forall|i: int|
            0 <= i < self.children.len() ==> {
                &&& (#[trigger] self.children[i]).parent() == Some(self.handle)
                &&& match self.children[i] {
                    Node::Internal(c) => c.parents_agree(),
                    Node::Leaf(_) => true,
                }
            }
    }

    /// Whether every node below names the node that holds it as its parent.
    pub fn _check_child_parent(&self) -> (ok: bool)
        ensures
            ok == self.parents_agree(),
        decreases self,
    {
        let n = self.children.len();
        let mut i: usize = 0;
        while i < n
            invariant
                n == self.children.len(),
                i <= n,
                forall|k: int|
                    0 <= k < i ==> {
                        &&& (#[trigger] self.children[k]).parent() == Some(self.handle)
                        &&& match self.children[k] {
                            Node::Internal(c) => c.parents_agree(),
                            Node::Leaf(_) => true,
                        }
                    },
            decreases n - i,
        {
            let good = match &self.children[i] {
                Node::Internal(c) => {
                    let named = match c.parent {
                        Some(p) => p == self.handle,
                        None => false,
                    };
                    named && c._check_child_parent()
                },
                Node::Leaf(l) => l.parent == self.handle,
            };
            if !good {
                proof {
                    let bad = self.children[i as int];
                    assert(!(bad.parent() == Some(self.handle) && match bad {
                        Node::Internal(c) => c.parents_agree(),
                        Node::Leaf(_) => true,
                    }));
                }
                return false;
            }
            i = i + 1;
        }
        true
    }

    /// The level of the node, if the subtree is valid and the level fits.
    pub fn check_level(&self) -> (r: Option<usize>)
        ensures
            r is Some == (self.wf() && self.level() <= usize::MAX),
            r is Some ==> r->Some_0 == self.level(),
        decreases self,
    {
        let n = self.children.len();
        if n > MAX_CHILDREN_NUM {
            return None;
        }
        let mut len: usize = 0;
        let mut visible: usize = 0;
        let mut below: usize = 0;
        let mut i: usize = 0;
        proof {
            assert(self.parts().take(0) =~= Seq::<Seq<Atom>>::empty());
            assert(visible_len(Seq::<Atom>::empty()) == 0);
        }
        while i < n
            invariant
                n == self.children.len(),
                n <= MAX_CHILDREN_NUM,
                i <= n,
                forall|k: int|
                    0 <= k < i ==> {
                        &&& (#[trigger] self.children[k]).wf()
                        &&& self.children[k].level() == below
                        &&& self.children[k].parent() == Some(self.handle)
                        &&& self.children[k].balanced()
                    },
                len == self.prefix(i as int).len(),
                visible == visible_len(self.prefix(i as int)),
                visible <= len,
            decreases n - i,
        {
            let c = &self.children[i];
            proof {
                self.lemma_child_len(i as int);
            }
            let level = match c.check_level() {
                Some(l) => l,
                None => {
                    proof {
                        if self.wf() {
                            assert(self.children[i as int].wf());
                            assert(self.children[i as int].level() + 1 == self.level());
                        }
                    }
                    return None;
                },
            };
            if i == 0 {
                below = level;
            } else if level != below {
                proof {
                    if self.wf() {
                        assert(self.children[i as int].level() + 1 == self.level());
                        assert(self.children[0].level() == below);
                    }
                }
                return None;
            }
            let named = match c {
                Node::Internal(m) => match m.parent {
                    Some(p) => p == self.handle,
                    None => false,
                },
                Node::Leaf(l) => l.parent == self.handle,
            };
            if !named {
                proof {
                    assert(self.children[i as int].parent() != Some(self.handle));
                }
                return None;
            }
            if c.is_internal() && c.children_num() < MIN_CHILDREN_NUM {
                proof {
                    assert(!self.children[i as int].balanced());
                }
                return None;
            }
            match len.checked_add(c.len()) {
                Some(x) => {
                    len = x;
                },
                None => {
                    return None;
                },
            }
            visible = visible + c.visible_len();
            i = i + 1;
        }
        proof {
            assert(self.parts().take(n as int) =~= self.parts());
            if n > 0 {
                assert(self.children[0].level() == below);
            }
        }
        if len != self.cache.len || visible != self.cache.visible {
            return None;
        }
        if n == 0 {
            return Some(1);
        }
        if below == usize::MAX {
            return None;
        }
        Some(below + 1)
    }

    /// Whether the subtree is valid: every node has a permitted number of
    /// children, names its parent, and caches the right counts, and all
    /// leaves lie at the same depth.
    ///
    /// No node may hold more than `MAX_CHILDREN_NUM` children, and only a
    /// root may hold fewer than `MIN_CHILDREN_NUM`: this node too must hold
    /// that many if it names a parent.
    pub fn check(&self) -> (ok: bool)
        ensures
            ok == (self.wf() && self.level() <= usize::MAX && (self.parent is Some
                ==> self.children.len() >= MIN_CHILDREN_NUM)),
    {
        if self.parent.is_some() && self.children.len() < MIN_CHILDREN_NUM {
            return false;
        }
        self.check_level().is_some()
    }
}

} // verus!
