//! The nodes of the tree and what they stand for.

use vstd::prelude::*;
use crate::cursor_map::{same_at, LeafHandle};
use crate::id::ID;
use crate::rle_tree::leaf::LeafNode;
use crate::rle_tree::{
    concat, lemma_concat_at, Cache, NodeHandle, MAX_CHILDREN_NUM, MIN_CHILDREN_NUM,
};
use crate::y_span::Atom;

verus! {

/// A node above the leaves.
///
/// `parent` names the node that holds this one; the root has none.
#[derive(Debug)]
pub struct InternalNode {
    pub children: Vec<Node>,
    pub cache: Cache,
    pub handle: NodeHandle,
    pub parent: Option<NodeHandle>,
}

/// A node of the tree.
#[derive(Debug)]
pub enum Node {
    Internal(InternalNode),
    Leaf(LeafNode),
}

impl InternalNode {
    /// The items below each child.
    pub open spec fn parts(self) -> Seq<Seq<Atom>>
        decreases self,
    {
        Seq::new(
            self.children.len() as nat,
            |i: int|
                if 0 <= i < self.children.len() {
                    self.children[i].atoms()
                } else {
                    Seq::empty()
                },
        )
    }

    /// The items below the node, in order.
    pub open spec fn atoms(self) -> Seq<Atom> {
        concat(self.parts())
    }

    /// The number of edges down to a leaf.
    pub open spec fn level(self) -> nat
        decreases self,
    {
        if self.children.len() == 0 {
            1
        } else {
            self.children[0].level() + 1
        }
    }

    /// The children are valid subtrees of equal height that name this node as
    /// their parent, there are at most `MAX_CHILDREN_NUM` of them, and each
    /// internal one has at least `MIN_CHILDREN_NUM` children of its own.
    pub open spec fn wf_children(self) -> bool
        decreases self,
    {
        &&& self.children.len() <= MAX_CHILDREN_NUM
        &&& forall|i: int|
            0 <= i < self.children.len() ==> {
                &&& (#[trigger] self.children[i]).wf()
                &&& self.children[i].level() + 1 == self.level()
                &&& self.children[i].parent() == Some(self.handle)
                &&& self.children[i].balanced()
            }
    }

    /// The map says of every item below the node which leaf it rests in.
    pub open spec fn indexed(self, m: Map<ID, LeafHandle>) -> bool
        decreases self,
    {
        forall|i: int| 0 <= i < self.children.len() ==> (#[trigger] self.children[i]).indexed(m)
    }

    /// Some leaf below the node is named `leaf` and holds the item named `id`.
    pub open spec fn leaf_holds(self, leaf: LeafHandle, id: ID) -> bool
        decreases self,
    {
        exists|i: int|
            0 <= i < self.children.len() && (#[trigger] self.children[i]).leaf_holds(leaf, id)
    }

    /// Like `wf_children`, without the lower bound on the children's own children.
    pub open spec fn wf_children_loose(self) -> bool {
        &&& self.children.len() <= MAX_CHILDREN_NUM
        &&& forall|i: int|
            0 <= i < self.children.len() ==> {
                &&& (#[trigger] self.children[i]).wf()
                &&& self.children[i].level() + 1 == self.level()
                &&& self.children[i].parent() == Some(self.handle)
            }
    }

    /// Every child but child `ci` has enough children of its own.
    pub open spec fn balanced_except(self, ci: int) -> bool {
        forall|i: int|
            0 <= i < self.children.len() && i != ci ==> (#[trigger] self.children[i]).balanced()
    }

    /// A valid subtree, except that an only child may have too few children.
    ///
    /// This is the state of a root between a removal and the collapse of its levels.
    pub open spec fn wf_relaxed(self) -> bool {
        &&& self.wf_children_loose()
        &&& self.children.len() != 1 ==> self.balanced_except(-1)
        &&& self.cache.describes(self.atoms())
    }

    /// How the three notions of a valid node relate.
    pub proof fn lemma_loose(self)
        ensures
            self.wf_children() <==> self.wf_children_loose() && self.balanced_except(-1),
            self.wf() ==> self.wf_relaxed(),
            self.wf_relaxed() && self.children.len() != 1 ==> self.wf(),
    {
    }

    /// The children are all leaves or all internal.
    pub proof fn lemma_children_kind(self)
        requires
            self.wf_children_loose(),
        ensures
            forall|i: int|
                0 <= i < self.children.len() ==> ((#[trigger] self.children[i]) is Internal) == (
                self.level() >= 2),
            self.level() >= 1,
    {
        assert forall|i: int| 0 <= i < self.children.len() implies ((
        #[trigger] self.children[i]) is Internal) == (self.level() >= 2) by {
            self.children[i].lemma_level_kind();
        }
    }

    /// A valid subtree: valid children and a cache that describes the items.
    pub open spec fn wf(self) -> bool {
        self.wf_children() && self.cache.describes(self.atoms())
    }
}

impl Node {
    /// The items below the node, in order.
    pub open spec fn atoms(self) -> Seq<Atom>
        decreases self,
    {
        match self {
            Node::Leaf(l) => l.atoms(),
            Node::Internal(n) => concat(n.parts()),
        }
    }

    /// The number of edges down to a leaf.
    pub open spec fn level(self) -> nat
        decreases self,
    {
        match self {
            Node::Leaf(_) => 0,
            Node::Internal(n) => n.level(),
        }
    }

    /// A valid subtree.
    pub open spec fn wf(self) -> bool
        decreases self,
    {
        match self {
            Node::Leaf(l) => l.wf(),
            Node::Internal(n) => n.wf_children() && n.cache.describes(concat(n.parts())),
        }
    }

    /// The map says of every item below the node which leaf it rests in.
    pub open spec fn indexed(self, m: Map<ID, LeafHandle>) -> bool
        decreases self,
    {
        match self {
            Node::Leaf(l) => l.indexed(m),
            Node::Internal(n) => n.indexed(m),
        }
    }

    /// Some leaf below the node is named `leaf` and holds the item named `id`.
    pub open spec fn leaf_holds(self, leaf: LeafHandle, id: ID) -> bool
        decreases self,
    {
        match self {
            Node::Leaf(l) => l.handle == leaf && crate::y_span::has_id(l.atoms(), id),
            Node::Internal(n) => n.leaf_holds(leaf, id),
        }
    }

    /// An item below the node rests in the leaf that the map names for it.
    pub proof fn lemma_indexed_holds(self, m: Map<ID, LeafHandle>, id: ID)
        requires
            self.indexed(m),
            crate::y_span::has_id(self.atoms(), id),
        ensures
            m.contains_key(id),
            self.leaf_holds(m[id], id),
        decreases self,
    {
        match self {
            Node::Leaf(l) => {
                let j = choose|j: int| 0 <= j < l.atoms().len() && (#[trigger] l.atoms()[j]).id == id;
                assert(crate::cursor_map::points(m, l.atoms()[j].id, l.handle));
            },
            Node::Internal(n) => {
                crate::rle_tree::lemma_has_id_in_concat(n.parts(), id);
                let k = choose|k: int|
                    0 <= k < n.parts().len() && crate::y_span::has_id(#[trigger] n.parts()[k], id);
                assert(n.parts()[k] == n.children[k].atoms());
                n.children[k].lemma_indexed_holds(m, id);
            },
        }
    }

    /// A map that says the same of the items below the node serves as well.
    pub proof fn lemma_indexed_frame(self, a: Map<ID, LeafHandle>, b: Map<ID, LeafHandle>)
        requires
            self.indexed(a),
            forall|j: int|
                0 <= j < self.atoms().len() ==> same_at(a, b, (#[trigger] self.atoms()[j]).id),
        ensures
            self.indexed(b),
        decreases self,
    {
        match self {
            Node::Leaf(l) => {
                assert forall|j: int| 0 <= j < l.atoms().len() implies crate::cursor_map::points(
                    b,
                    (#[trigger] l.atoms()[j]).id,
                    l.handle,
                ) by {
                    assert(same_at(a, b, self.atoms()[j].id));
                }
            },
            Node::Internal(n) => {
                assert forall|i: int| 0 <= i < n.children.len() implies (
                #[trigger] n.children[i]).indexed(b) by {
                    let c = n.children[i];
                    lemma_concat_at(n.parts(), i);
                    let pre = concat(n.parts().take(i));
                    assert forall|j: int| 0 <= j < c.atoms().len() implies same_at(
                        a,
                        b,
                        (#[trigger] c.atoms()[j]).id,
                    ) by {
                        assert(self.atoms()[pre.len() + j] == c.atoms()[j]);
                    }
                    c.lemma_indexed_frame(a, b);
                }
            },
        }
    }

    /// Internal nodes are those above level 0.
    pub proof fn lemma_level_kind(self)
        ensures
            (self is Internal) == (self.level() >= 1),
    {
    }

    /// The node that holds this one.
    pub open spec fn parent(self) -> Option<NodeHandle> {
        match self {
            Node::Leaf(l) => Some(l.parent),
            Node::Internal(n) => n.parent,
        }
    }

    /// The number of children: runs for a leaf, nodes for an internal node.
    pub open spec fn spec_children_num(self) -> nat {
        match self {
            Node::Leaf(l) => l.children.len() as nat,
            Node::Internal(n) => n.children.len() as nat,
        }
    }

    /// An internal node has enough children to stand below the root.
    pub open spec fn balanced(self) -> bool {
        match self {
            Node::Leaf(_) => true,
            Node::Internal(n) => n.children.len() >= MIN_CHILDREN_NUM,
        }
    }

    /// The same node under another parent.
    pub open spec fn with_parent(self, parent: NodeHandle) -> Node {
        match self {
            Node::Leaf(l) => Node::Leaf(LeafNode { parent, ..l }),
            Node::Internal(n) => Node::Internal(InternalNode { parent: Some(parent), ..n }),
        }
    }

    /// Naming another parent changes nothing else.
    pub proof fn lemma_with_parent(self, parent: NodeHandle)
        ensures
            self.with_parent(parent).atoms() == self.atoms(),
            self.with_parent(parent).level() == self.level(),
            self.with_parent(parent).wf() == self.wf(),
            self.with_parent(parent).balanced() == self.balanced(),
            self.with_parent(parent).parent() == Some(parent),
            self.with_parent(parent).spec_children_num() == self.spec_children_num(),
            forall|m: Map<ID, LeafHandle>|
                #[trigger] self.with_parent(parent).indexed(m) == self.indexed(m),
    {
        match self {
            Node::Leaf(l) => {
                let k = LeafNode { parent, ..l };
                assert forall|m: Map<ID, LeafHandle>| #[trigger]
                    self.with_parent(parent).indexed(m) == self.indexed(m) by {
                    assert(k.atoms() == l.atoms());
                }
            },
            Node::Internal(n) => {
                let k = InternalNode { parent: Some(parent), ..n };
                assert(k.parts() =~= n.parts());
                assert forall|m: Map<ID, LeafHandle>| #[trigger]
                    self.with_parent(parent).indexed(m) == self.indexed(m) by {
                    assert(k.children == n.children);
                }
            },
        }
    }

    /// The number of items below the node.
    pub fn len(&self) -> (n: usize)
        requires
            self.wf(),
        ensures
            n == self.atoms().len(),
    {
        match self {
            Node::Leaf(l) => l.cache.len,
            Node::Internal(n) => n.cache.len,
        }
    }

    /// The number of visible items below the node.
    pub fn visible_len(&self) -> (n: usize)
        requires
            self.wf(),
        ensures
            n == crate::y_span::visible_len(self.atoms()),
    {
        match self {
            Node::Leaf(l) => l.cache.visible,
            Node::Internal(n) => n.cache.visible,
        }
    }

    /// The number of children: runs for a leaf, nodes for an internal node.
    pub fn children_num(&self) -> (n: usize)
        ensures
            n == self.spec_children_num(),
    {
        match self {
            Node::Leaf(l) => l.children.len(),
            Node::Internal(n) => n.children.len(),
        }
    }

    /// Whether the node is an internal node.
    pub fn is_internal(&self) -> (b: bool)
        ensures
            b == (self is Internal),
    {
        match self {
            Node::Leaf(_) => false,
            Node::Internal(_) => true,
        }
    }

    /// Records `parent` as the node that holds this one.
    pub fn set_parent(&mut self, parent: NodeHandle)
        ensures
            *final(self) == old(self).with_parent(parent),
    {
        match self {
            Node::Leaf(l) => {
                l.parent = parent;
            },
            Node::Internal(n) => {
                n.parent = Some(parent);
            },
        }
    }
}

} // verus!
