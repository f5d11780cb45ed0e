//! Frontiers, and the byte forms of frontiers and version vectors.

use vstd::prelude::*;
use crate::encoding::{ids_bytes, lemma_parsed_is_written, lemma_round_trip, parse_ids, read_ids, write_ids};
use crate::id::ID;
use crate::version::{
    find_peer, ids_map, is_sorted_by_peer, lemma_ids_map_at, lemma_ids_map_insert,
    lemma_ids_map_update, sorted_by_peer, VersionVector,
};

verus! {

/// Why bytes were refused.
#[derive(Clone, Copy, Debug, PartialEq, Eq, Structural)]
pub enum LoroError {
    /// The bytes are not the bytes of frontiers.
    BadFrontierBinary,
    /// The bytes are not the bytes of a version vector.
    BadVersionVectorBinary,
}

/// The last operations of a version: one identifier for each peer that has
/// any, in ascending order of peer.
#[derive(Debug, Clone)]
pub struct Frontiers {
    pub ids: Vec<ID>,
}

impl View for Frontiers {
    type V = Seq<ID>;

    open spec fn view(&self) -> Seq<ID> {
        self.ids@
    }
}

impl Frontiers {
    /// The identifiers are kept in strictly ascending order of peer.
    pub open spec fn wf(self) -> bool {
        sorted_by_peer(self.ids@)
    }

    /// Whether `id` is one of the identifiers.
    pub open spec fn spec_contains(self, id: ID) -> bool {
        ids_map(self.ids@).contains_key(id.peer) && ids_map(self.ids@)[id.peer] == id.counter
    }

    /// Frontiers without identifiers.
    pub fn new() -> (f: Frontiers)
        ensures
            f.wf(),
            f@ == Seq::<ID>::empty(),
    {
        Frontiers { ids: Vec::new() }
    }

    /// The number of identifiers.
    pub fn len(&self) -> (n: usize)
        ensures
            n == self@.len(),
    {
        self.ids.len()
    }

    /// The identifiers, in ascending order of peer.
    pub fn ids(&self) -> (ids: &Vec<ID>)
        ensures
            ids@ == self@,
    {
        &self.ids
    }

    /// Adds `id`, unless an operation of its peer that is as late or later is there.
    pub fn push(&mut self, id: ID)
        requires
            old(self).wf(),
        ensures
            final(self).wf(),
            ids_map(final(self)@) == (if ids_map(old(self)@).contains_key(id.peer) && ids_map(
                old(self)@,
            )[id.peer] >= id.counter {
                ids_map(old(self)@)
            } else {
                ids_map(old(self)@).insert(id.peer, id.counter)
            }),
    {
        match find_peer(&self.ids, id.peer) {
            Ok(i) => {
                proof {
                    lemma_ids_map_at(self.ids@, i as int);
                }
                if self.ids[i].counter < id.counter {
                    proof {
                        lemma_ids_map_update(self.ids@, i as int, id.counter);
                    }
                    self.ids[i] = id;
                }
            },
            Err(i) => {
                proof {
                    lemma_ids_map_insert(self.ids@, i as int, id);
                }
                self.ids.insert(i, id);
            },
        }
    }

    /// Whether `id` is one of the identifiers.
    pub fn contains(&self, id: ID) -> (b: bool)
        requires
            self.wf(),
        ensures
            b == self.spec_contains(id),
    {
        match find_peer(&self.ids, id.peer) {
            Ok(i) => {
                proof {
                    lemma_ids_map_at(self.ids@, i as int);
                }
                self.ids[i].counter == id.counter
            },
            Err(_) => false,
        }
    }

    /// Whether the frontiers are valid.
    pub fn check(&self) -> (ok: bool)
        ensures
            ok == self.wf(),
    {
        is_sorted_by_peer(&self.ids)
    }

    /// The bytes of the frontiers, from which `decode` gives the frontiers back.
    pub fn encode(&self) -> (bytes: Vec<u8>)
        requires
            self.wf(),
        ensures
            bytes@ == ids_bytes(self@),
            parse_ids(bytes@) == Some(self@),
    {
        let mut out: Vec<u8> = Vec::new();
        write_ids(&mut out, &self.ids);
        proof {
            assert(Seq::<u8>::empty() + ids_bytes(self@) =~= ids_bytes(self@));
            lemma_round_trip(self@);
        }
        out
    }

    /// The frontiers that `bytes` is the bytes of.
    ///
    /// Bytes that are the bytes of no frontiers are refused with
    /// `BadFrontierBinary`: bytes that end early or go on after the last
    /// entry, an entry whose peer does not lie above the one before it, and
    /// a number written in more bytes than it needs or too large for its place.
    pub fn decode(bytes: &[u8]) -> (r: Result<Frontiers, LoroError>)
        ensures
            match r {
                Ok(f) => f.wf() && bytes@ == ids_bytes(f@) && parse_ids(bytes@) == Some(f@),
                Err(e) => e == LoroError::BadFrontierBinary && parse_ids(bytes@) is None
                    && forall|ids: Seq<ID>| sorted_by_peer(ids) ==> #[trigger] ids_bytes(ids)
                    != bytes@,
            },
    {
        proof {
            lemma_parsed_is_written(bytes@);
        }
        match read_ids(bytes) {
            Some(ids) => Ok(Frontiers { ids }),
            None => {
                proof {
                    assert forall|ids: Seq<ID>| sorted_by_peer(ids) implies #[trigger] ids_bytes(ids)
                        != bytes@ by {
                        lemma_round_trip(ids);
                    }
                }
                Err(LoroError::BadFrontierBinary)
            },
        }
    }
}

impl VersionVector {
    /// The bytes of the version vector: its entries in ascending order of
    /// peer. From them `decode` gives the version vector back.
    pub fn encode(&self) -> (bytes: Vec<u8>)
        requires
            self.wf(),
        ensures
            bytes@ == ids_bytes(self.entries@),
            parse_ids(bytes@) == Some(self.entries@),
    {
        let mut out: Vec<u8> = Vec::new();
        write_ids(&mut out, &self.entries);
        proof {
            assert(Seq::<u8>::empty() + ids_bytes(self.entries@) =~= ids_bytes(self.entries@));
            lemma_round_trip(self.entries@);
        }
        out
    }

    /// The version vector that `bytes` is the bytes of.
    pub fn decode(bytes: &[u8]) -> (r: Result<VersionVector, LoroError>)
        ensures
            match r {
                Ok(vv) => vv.wf() && bytes@ == ids_bytes(vv.entries@) && parse_ids(bytes@) == Some(
                    vv.entries@,
                ),
                Err(e) => e == LoroError::BadVersionVectorBinary && parse_ids(bytes@) is None
                    && forall|ids: Seq<ID>| sorted_by_peer(ids) ==> #[trigger] ids_bytes(ids)
                    != bytes@,
            },
    {
        proof {
            lemma_parsed_is_written(bytes@);
        }
        match read_ids(bytes) {
            Some(entries) => Ok(VersionVector { entries }),
            None => {
                proof {
                    assert forall|ids: Seq<ID>| sorted_by_peer(ids) implies #[trigger] ids_bytes(ids)
                        != bytes@ by {
                        lemma_round_trip(ids);
                    }
                }
                Err(LoroError::BadVersionVectorBinary)
            },
        }
    }
}

/// Decoding the bytes of frontiers gives the frontiers back.
pub proof fn law_frontiers_round_trip(f: Frontiers)
    requires
        f.wf(),
    ensures
        parse_ids(ids_bytes(f@)) == Some(f@),
{
    lemma_round_trip(f@);
}

/// Decoding the bytes of a version vector gives the version vector back.
pub proof fn law_version_vector_round_trip(vv: VersionVector)
    requires
        vv.wf(),
    ensures
        parse_ids(ids_bytes(vv.entries@)) == Some(vv.entries@),
{
    lemma_round_trip(vv.entries@);
}

} // verus!
