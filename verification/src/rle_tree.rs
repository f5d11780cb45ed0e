//! A balanced tree whose leaves hold runs of items.
//!
//! The tree is read as the sequence of the items of its runs, in order. Every
//! node caches how many items, and how many visible items, lie below it, so a
//! position in either count is found in logarithmic time.

use vstd::prelude::*;
use crate::y_span::{visible_len, Atom};

pub mod leaf;
pub mod node;
pub mod internal_impl;
pub mod internal_delete;
pub mod internal_query;
pub mod invariants;
pub mod tree;

verus! {

/// The most children a node may have.
pub const MAX_CHILDREN_NUM: usize = 4;

/// The fewest children an internal node below the root may have.
pub const MIN_CHILDREN_NUM: usize = 2;

/// Names a node of a tree.
pub type NodeHandle = u64;

/// Hands out the handles of a tree's nodes.
#[derive(Debug)]
pub struct Arena {
    pub next: NodeHandle,
}

impl Arena {
    /// An arena that has handed out no handle.
    pub fn new() -> (a: Arena)
        ensures
            a.next == 0,
    {
        Arena { next: 0 }
    }

    /// A handle for a new node. Handles differ until the counter saturates.
    pub fn fresh(&mut self) -> (h: NodeHandle)
        ensures
            h == old(self).next,
            final(self).next == if old(self).next < u64::MAX {
                (old(self).next + 1) as u64
            } else {
                old(self).next
            },
    {
        let h = self.next;
        if self.next < u64::MAX {
            self.next = self.next + 1;
        }
        h
    }
}

/// How many items, and how many visible items, a node holds.
#[derive(Clone, Copy, Debug, PartialEq, Eq, Structural)]
pub struct Cache {
    pub len: usize,
    pub visible: usize,
}

impl Cache {
    /// The cache that describes `atoms`.
    pub open spec fn describes(self, atoms: Seq<Atom>) -> bool {
        self.len == atoms.len() && self.visible == visible_len(atoms)
    }
}

/// Where an index falls with respect to an element.
#[derive(Clone, Copy, Debug, PartialEq, Eq, Structural)]
pub enum Position {
    Before,
    Start,
    Middle,
    End,
    After,
}

/// The child that an index falls in, and the index relative to that child.
#[derive(Clone, Copy, Debug)]
pub struct FindPosResult {
    pub child_index: usize,
    pub offset: usize,
    pub pos: Position,
    pub found: bool,
}

/// The parts one after another.
pub open spec fn concat(parts: Seq<Seq<Atom>>) -> Seq<Atom>
    decreases parts.len(),
{
    if parts.len() == 0 {
        Seq::empty()
    } else {
        concat(parts.drop_last()) + parts.last()
    }
}

/// A further part goes at the end.
pub proof fn lemma_concat_push(parts: Seq<Seq<Atom>>, x: Seq<Atom>)
    ensures
        concat(parts.push(x)) == concat(parts) + x,
{
    assert(parts.push(x).drop_last() =~= parts);
}

/// The parts of two lists one after the other are the two wholes one after the other.
pub proof fn lemma_concat_add(a: Seq<Seq<Atom>>, b: Seq<Seq<Atom>>)
    ensures
        concat(a + b) == concat(a) + concat(b),
    decreases b.len(),
{
    if b.len() == 0 {
        assert(a + b =~= a);
        assert(concat(a) + concat(b) =~= concat(a));
    } else {
        assert((a + b).drop_last() =~= a + b.drop_last());
        lemma_concat_add(a, b.drop_last());
        assert(concat(a + b) =~= concat(a) + concat(b));
    }
}

/// One part is the whole.
pub proof fn lemma_concat_one(x: Seq<Atom>)
    ensures
        concat(seq![x]) == x,
{
    let e = Seq::<Seq<Atom>>::empty();
    assert(seq![x] =~= e.push(x));
    lemma_concat_push(e, x);
    assert(concat(e) + x =~= x);
}

/// Two parts are the first followed by the second.
pub proof fn lemma_concat_two(x: Seq<Atom>, y: Seq<Atom>)
    ensures
        concat(seq![x, y]) == x + y,
{
    assert(seq![x, y] =~= seq![x].push(y));
    lemma_concat_push(seq![x], y);
    lemma_concat_one(x);
}

/// The whole is the first `i` parts followed by the rest.
pub proof fn lemma_concat_split(parts: Seq<Seq<Atom>>, i: int)
    requires
        0 <= i <= parts.len(),
    ensures
        concat(parts) == concat(parts.take(i)) + concat(parts.skip(i)),
        concat(parts.take(i)).len() <= concat(parts).len(),
{
    assert(parts =~= parts.take(i) + parts.skip(i));
    lemma_concat_add(parts.take(i), parts.skip(i));
}

/// The whole is what precedes part `i`, part `i`, and what follows it.
pub proof fn lemma_concat_at(parts: Seq<Seq<Atom>>, i: int)
    requires
        0 <= i < parts.len(),
    ensures
        concat(parts) == concat(parts.take(i)) + parts[i] + concat(parts.skip(i + 1)),
        concat(parts.take(i + 1)) == concat(parts.take(i)) + parts[i],
        concat(parts.skip(i)) == parts[i] + concat(parts.skip(i + 1)),
{
    lemma_concat_split(parts, i + 1);
    assert(parts.take(i + 1) =~= parts.take(i).push(parts[i]));
    lemma_concat_push(parts.take(i), parts[i]);
    assert(parts.skip(i) =~= seq![parts[i]] + parts.skip(i + 1));
    lemma_concat_add(seq![parts[i]], parts.skip(i + 1));
    lemma_concat_one(parts[i]);
}

/// Replacing part `i` replaces it in the whole.
pub proof fn lemma_concat_update(parts: Seq<Seq<Atom>>, i: int, x: Seq<Atom>)
    requires
        0 <= i < parts.len(),
    ensures
        concat(parts.update(i, x)) == concat(parts.take(i)) + x + concat(parts.skip(i + 1)),
{
    let q = parts.update(i, x);
    lemma_concat_at(q, i);
    assert(q.take(i) =~= parts.take(i));
    assert(q.skip(i + 1) =~= parts.skip(i + 1));
}

/// Inserting a part before part `i` inserts it in the whole.
pub proof fn lemma_concat_insert(parts: Seq<Seq<Atom>>, i: int, x: Seq<Atom>)
    requires
        0 <= i <= parts.len(),
    ensures
        concat(parts.insert(i, x)) == concat(parts.take(i)) + x + concat(parts.skip(i)),
{
    let q = parts.insert(i, x);
    lemma_concat_at(q, i);
    assert(q.take(i) =~= parts.take(i));
    assert(q.skip(i + 1) =~= parts.skip(i));
}

/// Removing part `i` removes it from the whole.
pub proof fn lemma_concat_remove(parts: Seq<Seq<Atom>>, i: int)
    requires
        0 <= i < parts.len(),
    ensures
        concat(parts.remove(i)) == concat(parts.take(i)) + concat(parts.skip(i + 1)),
{
    let q = parts.remove(i);
    lemma_concat_split(q, i);
    assert(q.take(i) =~= parts.take(i));
    assert(q.skip(i) =~= parts.skip(i + 1));
}

/// An item of the whole is an item of some part.
pub proof fn lemma_has_id_in_concat(parts: Seq<Seq<Atom>>, id: crate::id::ID)
    requires
        crate::y_span::has_id(concat(parts), id),
    ensures
        exists|k: int| 0 <= k < parts.len() && crate::y_span::has_id(#[trigger] parts[k], id),
    decreases parts.len(),
{
    if parts.len() > 0 {
        crate::y_span::lemma_has_id_add(concat(parts.drop_last()), parts.last(), id);
        if crate::y_span::has_id(parts.last(), id) {
            assert(crate::y_span::has_id(parts[parts.len() - 1], id));
        } else {
            lemma_has_id_in_concat(parts.drop_last(), id);
            let k = choose|k: int|
                0 <= k < parts.drop_last().len() && crate::y_span::has_id(
                    #[trigger] parts.drop_last()[k],
                    id,
                );
            assert(parts[k] == parts.drop_last()[k]);
        }
    }
}

} // verus!
