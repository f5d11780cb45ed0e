//! Where a new run goes among the runs that were inserted concurrently.
//!
//! A run names the item it was inserted after (its left origin) and the item
//! it was inserted before (its right origin). It is placed between the two.
//! The items already there are walked from left to right to find the last one
//! that has to stay to its left: one with the same left origin and a smaller
//! peer, or one that was itself inserted after such an item. The walk ends at
//! an item whose left origin lies outside the walked range, or at one that
//! shares both origins and has the greater or equal peer.

use vstd::prelude::*;
use crate::id::{opt_id_eq, PeerID, ID};
use crate::op_span_set::OpSpanSet;
use crate::rle_tree::tree::RleTree;
use crate::y_span::Atom;

verus! {

/// The position at which the walk from item `i` to item `end` leaves a run
/// of peer `peer` with origins `left` and `right`.
///
/// `cursor` is the position found so far, `visited` holds the items walked,
/// and `conflicting` those walked since the position last moved.
pub open spec fn yata_scan(
    atoms: Seq<Atom>,
    peer: PeerID,
    left: Option<ID>,
    right: Option<ID>,
    i: int,
    end: int,
    cursor: int,
    visited: Set<ID>,
    conflicting: Set<ID>,
) -> int
    decreases end - i,
{
    if i >= end || i < 0 || i >= atoms.len() {
        cursor
    } else {
        let other = atoms[i];
        let visited2 = visited.insert(other.id);
        let conflicting2 = conflicting.insert(other.id);
        if other.origin_left == left {
            if peer > other.id.peer {
                yata_scan(atoms, peer, left, right, i + 1, end, i + 1, visited2, Set::empty())
            } else if other.origin_right == right {
                cursor
            } else {
                yata_scan(atoms, peer, left, right, i + 1, end, cursor, visited2, conflicting2)
            }
        } else if other.origin_left is Some && visited2.contains(other.origin_left->Some_0) {
            if !conflicting2.contains(other.origin_left->Some_0) {
                yata_scan(atoms, peer, left, right, i + 1, end, i + 1, visited2, Set::empty())
            } else {
                yata_scan(atoms, peer, left, right, i + 1, end, cursor, visited2, conflicting2)
            }
        } else {
            cursor
        }
    }
}

/// The position for a run of peer `peer` with origins `left` and `right`
/// among the items `start..end`.
pub open spec fn yata_position(
    atoms: Seq<Atom>,
    peer: PeerID,
    left: Option<ID>,
    right: Option<ID>,
    start: int,
    end: int,
) -> int {
    yata_scan(atoms, peer, left, right, start, end, start, Set::empty(), Set::empty())
}

/// The walk never leaves the range it walks.
pub proof fn lemma_scan_bounds(
    atoms: Seq<Atom>,
    peer: PeerID,
    left: Option<ID>,
    right: Option<ID>,
    i: int,
    end: int,
    cursor: int,
    visited: Set<ID>,
    conflicting: Set<ID>,
)
    requires
        cursor <= i,
    ensures
        cursor <= yata_scan(atoms, peer, left, right, i, end, cursor, visited, conflicting),
        yata_scan(atoms, peer, left, right, i, end, cursor, visited, conflicting) <= (if end > i {
            end
        } else {
            i
        }),
    decreases end - i,
{
    if i >= end || i < 0 || i >= atoms.len() {
    } else {
        let other = atoms[i];
        let visited2 = visited.insert(other.id);
        let conflicting2 = conflicting.insert(other.id);
        lemma_scan_bounds(atoms, peer, left, right, i + 1, end, i + 1, visited2, Set::empty());
        lemma_scan_bounds(atoms, peer, left, right, i + 1, end, cursor, visited2, conflicting2);
    }
}

/// Walks the items `start..end` of `content` and returns the position for a
/// run of peer `peer` with origins `left` and `right`.
pub fn find_position(
    content: &RleTree,
    peer: PeerID,
    left: Option<ID>,
    right: Option<ID>,
    start: usize,
    end: usize,
) -> (q: usize)
    requires
        content.wf(),
        start <= end <= content@.len(),
    ensures
        q == yata_position(content@, peer, left, right, start as int, end as int),
        start <= q <= end,
{
    let mut visited = OpSpanSet::default();
    let mut conflicting = OpSpanSet::default();
    let mut cursor: usize = start;
    let mut i: usize = start;
    let mut done: bool = false;
    let ghost atoms = content@;
    proof {
        lemma_scan_bounds(
            atoms,
            peer,
            left,
            right,
            start as int,
            end as int,
            start as int,
            Set::empty(),
            Set::empty(),
        );
    }
    while i < end && !done
        invariant
            content.wf(),
            atoms == content@,
            start <= cursor <= i <= end <= atoms.len(),
            !done ==> yata_position(atoms, peer, left, right, start as int, end as int)
                == yata_scan(
                atoms,
                peer,
                left,
                right,
                i as int,
                end as int,
                cursor as int,
                visited@,
                conflicting@,
            ),
            done ==> yata_position(atoms, peer, left, right, start as int, end as int) == cursor,
        decreases end - i + (if done {
            0int
        } else {
            1int
        }),
    {
        let run = content.span_at(i);
        let unit = run.slice(0, 1);
        let other = unit.atom_at(0);
        proof {
            assert(run.atoms()[0] == atoms.subrange(i as int, i + run.len)[0]);
            assert(unit.atoms()[0] == run.atoms().subrange(0, 1)[0]);
            assert(other == atoms[i as int]);
            assert(unit.id == other.id);
        }
        visited.insert(&unit);
        conflicting.insert(&unit);
        if opt_id_eq(other.origin_left, left) {
            if peer > other.id.peer {
                cursor = i + 1;
                conflicting.clear();
            } else if opt_id_eq(other.origin_right, right) {
                done = true;
            }
        } else {
            let inside = match other.origin_left {
                Some(x) => visited.contain(x),
                None => false,
            };
            if inside {
                let stays = match other.origin_left {
                    Some(x) => conflicting.contain(x),
                    None => false,
                };
                if !stays {
                    cursor = i + 1;
                    conflicting.clear();
                }
            } else {
                done = true;
            }
        }
        if !done {
            i = i + 1;
        }
    }
    cursor
}

} // verus!
