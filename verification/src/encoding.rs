//! The byte form of lists of identifiers.
//!
//! A number is written in groups of seven bits, lowest group first, each
//! byte but the last with its high bit set, in as few bytes as the number
//! needs. A counter that is not negative is written as that number, and a
//! negative counter `c` as the number `c + 2^32`. A list of identifiers is
//! the number of its entries followed by peer and counter of each entry.

use vstd::prelude::*;
use crate::id::{Counter, PeerID, ID};

verus! {

/// The bytes of the number `n`.
pub open spec fn varint(n: nat) -> Seq<u8>
    decreases n,
{
    if n < 128 {
        seq![n as u8]
    } else {
        seq![(n % 128 + 128) as u8] + varint(n / 128)
    }
}

/// The number written at `pos`, and the position after it; `None` where no
/// number is written there in as few bytes as it needs.
pub open spec fn parse_varint(b: Seq<u8>, pos: int) -> Option<(nat, int)>
    decreases b.len() - pos,
{
    if pos < 0 || pos >= b.len() {
        None
    } else if b[pos] < 128 {
        Some((b[pos] as nat, pos + 1))
    } else {
        match parse_varint(b, pos + 1) {
            Some((hi, next)) => if hi == 0 {
                None
            } else {
                Some((((b[pos] - 128) + 128 * hi) as nat, next))
            },
            None => None,
        }
    }
}

/// The number that stands for the counter `c`.
pub open spec fn counter_number(c: int) -> nat {
    if c >= 0 {
        c as nat
    } else {
        (c + 0x1_0000_0000) as nat
    }
}

/// The counter that the number `z` stands for.
pub open spec fn number_counter(z: nat) -> int {
    if z < 0x8000_0000 {
        z as int
    } else {
        z as int - 0x1_0000_0000
    }
}

/// The bytes of the entries of a list.
pub open spec fn pairs_bytes(ids: Seq<ID>) -> Seq<u8>
    decreases ids.len(),
{
    if ids.len() == 0 {
        Seq::empty()
    } else {
        varint(ids[0].peer as nat) + varint(counter_number(ids[0].counter as int)) + pairs_bytes(
            ids.skip(1),
        )
    }
}

/// The bytes of a list of identifiers.
pub open spec fn ids_bytes(ids: Seq<ID>) -> Seq<u8> {
    varint(ids.len()) + pairs_bytes(ids)
}

/// The `count` entries written at `pos`, each with a peer above `floor`
/// and above the one before it, and the position after them.
pub open spec fn parse_pairs(b: Seq<u8>, pos: int, count: nat, floor: int) -> Option<(Seq<ID>, int)>
    decreases count,
{
    if count == 0 {
        Some((Seq::empty(), pos))
    } else {
        match parse_varint(b, pos) {
            None => None,
            Some((peer, after_peer)) => if peer > u64::MAX || peer <= floor {
                None
            } else {
                match parse_varint(b, after_peer) {
                    None => None,
                    Some((zz, after_counter)) => if zz > u32::MAX {
                        None
                    } else {
                        match parse_pairs(b, after_counter, (count - 1) as nat, peer as int) {
                            None => None,
                            Some((rest, end)) => Some(
                                (
                                    seq![
                                        ID { peer: peer as PeerID, counter: number_counter(zz) as Counter },
                                    ] + rest,
                                    end,
                                ),
                            ),
                        }
                    },
                }
            },
        }
    }
}

/// The list of identifiers that `b` is the bytes of; `None` where it is the
/// bytes of none with strictly ascending peers.
pub open spec fn parse_ids(b: Seq<u8>) -> Option<Seq<ID>> {
    match parse_varint(b, 0) {
        None => None,
        Some((n, p)) => match parse_pairs(b, p, n, -1) {
            None => None,
            Some((ids, end)) => if end == b.len() {
                Some(ids)
            } else {
                None
            },
        },
    }
}

/// The number of a counter stands for that counter, and fits in 32 bits.
pub proof fn lemma_counter_number(c: int)
    requires
        i32::MIN <= c <= i32::MAX,
    ensures
        number_counter(counter_number(c)) == c,
        counter_number(c) <= u32::MAX,
{
}

/// The counter of a number of 32 bits is a counter, and its number is that number.
pub proof fn lemma_number_counter(z: nat)
    requires
        z <= u32::MAX,
    ensures
        counter_number(number_counter(z)) == z,
        i32::MIN <= number_counter(z) <= i32::MAX,
{
}

/// Every number takes a byte at least.
pub proof fn lemma_varint_len(n: nat)
    ensures
        varint(n).len() >= 1,
    decreases n,
{
    if n >= 128 {
        lemma_varint_len(n / 128);
    }
}

/// What is written is read back.
pub proof fn lemma_parse_written(pre: Seq<u8>, n: nat, post: Seq<u8>)
    ensures
        parse_varint(pre + varint(n) + post, pre.len() as int) == Some(
            (n, (pre.len() + varint(n).len()) as int),
        ),
    decreases n,
{
    let b = pre + varint(n) + post;
    let pos = pre.len() as int;
    lemma_varint_len(n);
    if n < 128 {
        assert(b[pos] == varint(n)[0]);
    } else {
        let first = seq![(n % 128 + 128) as u8];
        assert(varint(n) == first + varint(n / 128));
        assert(b[pos] == first[0]);
        assert(b =~= (pre + first) + varint(n / 128) + post);
        lemma_parse_written(pre + first, n / 128, post);
        assert(n / 128 > 0);
        assert((n % 128 + 128) - 128 + 128 * (n / 128) == n);
    }
}

/// What is read was written.
pub proof fn lemma_written_parsed(b: Seq<u8>, pos: int)
    ensures
        match parse_varint(b, pos) {
            Some((n, next)) => 0 <= pos < next <= b.len() && b.subrange(pos, next) == varint(n),
            None => true,
        },
    decreases b.len() - pos,
{
    if pos < 0 || pos >= b.len() {
    } else if b[pos] < 128 {
        assert(b.subrange(pos, pos + 1) =~= seq![b[pos]]);
    } else {
        lemma_written_parsed(b, pos + 1);
        match parse_varint(b, pos + 1) {
            Some((hi, next)) => {
                if hi != 0 {
                    let n = ((b[pos] - 128) + 128 * hi) as nat;
                    assert(n >= 128);
                    assert(n % 128 == b[pos] - 128 && n / 128 == hi) by {
                        assert(0 <= b[pos] - 128 < 128);
                    }
                    assert(b.subrange(pos, next) =~= seq![b[pos]] + b.subrange(pos + 1, next));
                }
            },
            None => {},
        }
    }
}

/// A number written in more than `k` bytes is at least 128 to the power `k`.
pub proof fn lemma_long_is_large(b: Seq<u8>, pos: int, k: nat)
    requires
        k >= 1,
    ensures
        match parse_varint(b, pos) {
            Some((n, next)) => next - pos > k ==> n >= pow128(k),
            None => true,
        },
    decreases b.len() - pos,
{
    if pos < 0 || pos >= b.len() {
    } else if b[pos] < 128 {
    } else {
        if k > 1 {
            lemma_long_is_large(b, pos + 1, (k - 1) as nat);
        }
        match parse_varint(b, pos + 1) {
            Some((hi, next)) => {
                if hi != 0 && next - pos > k {
                    assert(hi >= pow128((k - 1) as nat)) by {
                        reveal_with_fuel(pow128, 2);
                    }
                    assert(128 * hi >= 128 * pow128((k - 1) as nat)) by (nonlinear_arith)
                        requires
                            hi >= pow128((k - 1) as nat),
                    ;
                }
            },
            None => {},
        }
    }
}

/// 128 to the power `k`.
pub open spec fn pow128(k: nat) -> nat
    decreases k,
{
    if k == 0 {
        1
    } else {
        128 * pow128((k - 1) as nat)
    }
}

/// 128 to the power 10 does not fit in 64 bits.
pub proof fn lemma_pow128_10()
    ensures
        pow128(10) > u64::MAX,
{
    reveal_with_fuel(pow128, 11);
}

/// The entries that are written are read back.
pub proof fn lemma_pairs_parsed(pre: Seq<u8>, ids: Seq<ID>, post: Seq<u8>, floor: int)
    requires
        crate::version::sorted_by_peer(ids),
        ids.len() > 0 ==> floor < ids[0].peer,
    ensures
        parse_pairs(pre + pairs_bytes(ids) + post, pre.len() as int, ids.len(), floor) == Some(
            (ids, (pre.len() + pairs_bytes(ids).len()) as int),
        ),
    decreases ids.len(),
{
    let b = pre + pairs_bytes(ids) + post;
    if ids.len() == 0 {
    } else {
        let e = ids[0];
        let rest = ids.skip(1);
        let pb = varint(e.peer as nat);
        let cb = varint(counter_number(e.counter as int));
        assert(pairs_bytes(ids) == pb + cb + pairs_bytes(rest));
        assert(b =~= pre + pb + (cb + pairs_bytes(rest) + post));
        lemma_parse_written(pre, e.peer as nat, cb + pairs_bytes(rest) + post);
        assert(b =~= (pre + pb) + cb + (pairs_bytes(rest) + post));
        lemma_parse_written(pre + pb, counter_number(e.counter as int), pairs_bytes(rest) + post);
        lemma_counter_number(e.counter as int);
        assert(crate::version::sorted_by_peer(rest)) by {
            assert forall|i: int, j: int| 0 <= i < j < rest.len() implies (#[trigger] rest[i]).peer
                < (#[trigger] rest[j]).peer by {
                assert(ids[i + 1].peer < ids[j + 1].peer);
            }
        }
        if rest.len() > 0 {
            assert(ids[0].peer < ids[1].peer);
            assert(rest[0] == ids[1]);
        }
        assert(b =~= (pre + pb + cb) + pairs_bytes(rest) + post);
        lemma_pairs_parsed(pre + pb + cb, rest, post, e.peer as int);
        assert(seq![e] + rest =~= ids);
    }
}

/// The entries that are read were written, with ascending peers.
pub proof fn lemma_parsed_pairs(b: Seq<u8>, pos: int, count: nat, floor: int)
    ensures
        match parse_pairs(b, pos, count, floor) {
            Some((ids, end)) => {
                &&& ids.len() == count
                &&& crate::version::sorted_by_peer(ids)
                &&& ids.len() > 0 ==> floor < ids[0].peer
                &&& count > 0 ==> 0 <= pos < end <= b.len()
                &&& count == 0 ==> end == pos
                &&& pos <= end
                &&& count > 0 ==> b.subrange(pos, end) == pairs_bytes(ids)
                &&& pairs_bytes(ids).len() == end - pos
            },
            None => true,
        },
    decreases count,
{
    if count == 0 {
        assert(pairs_bytes(Seq::<ID>::empty()) =~= Seq::<u8>::empty());
    } else {
        lemma_written_parsed(b, pos);
        match parse_varint(b, pos) {
            None => {},
            Some((peer, after_peer)) => {
                lemma_written_parsed(b, after_peer);
                match parse_varint(b, after_peer) {
                    None => {},
                    Some((zz, after_counter)) => {
                        lemma_parsed_pairs(b, after_counter, (count - 1) as nat, peer as int);
                        if peer <= u64::MAX && peer > floor && zz <= u32::MAX {
                            match parse_pairs(b, after_counter, (count - 1) as nat, peer as int) {
                                None => {},
                                Some((rest, end)) => {
                                    lemma_number_counter(zz);
                                    let e = ID {
                                        peer: peer as PeerID,
                                        counter: number_counter(zz) as Counter,
                                    };
                                    let ids = seq![e] + rest;
                                    assert(ids.skip(1) =~= rest);
                                    assert(ids[0] == e);
                                    assert(crate::version::sorted_by_peer(ids)) by {
                                        assert forall|i: int, j: int|
                                            0 <= i < j < ids.len() implies (#[trigger] ids[i]).peer
                                            < (#[trigger] ids[j]).peer by {
                                            if i == 0 {
                                                assert(ids[j] == rest[j - 1]);
                                                if j - 1 > 0 {
                                                    assert(rest[0].peer < rest[j - 1].peer);
                                                }
                                            } else {
                                                assert(rest[i - 1].peer < rest[j - 1].peer);
                                            }
                                        }
                                    }
                                    if count - 1 > 0 {
                                        assert(b.subrange(pos, end) =~= b.subrange(pos, after_peer)
                                            + b.subrange(after_peer, after_counter) + b.subrange(after_counter, end));
                                    } else {
                                        assert(b.subrange(pos, end) =~= b.subrange(pos, after_peer)
                                            + b.subrange(after_peer, after_counter));
                                        assert(pairs_bytes(rest) =~= Seq::<u8>::empty());
                                        assert(b.subrange(pos, after_peer) + b.subrange(after_peer, after_counter)
                                            =~= b.subrange(pos, after_peer) + b.subrange(after_peer, after_counter)
                                            + pairs_bytes(rest));
                                    }
                                },
                            }
                        }
                    },
                }
            },
        }
    }
}

/// Reading the bytes of a list with strictly ascending peers gives the list back.
pub proof fn lemma_round_trip(ids: Seq<ID>)
    requires
        crate::version::sorted_by_peer(ids),
    ensures
        parse_ids(ids_bytes(ids)) == Some(ids),
{
    let b = ids_bytes(ids);
    lemma_parse_written(Seq::empty(), ids.len(), pairs_bytes(ids));
    assert(b =~= Seq::<u8>::empty() + varint(ids.len()) + pairs_bytes(ids));
    lemma_pairs_parsed(varint(ids.len()), ids, Seq::empty(), -1);
    assert(b =~= varint(ids.len()) + pairs_bytes(ids) + Seq::<u8>::empty());
}

/// Bytes that are read as a list are the bytes of that list.
pub proof fn lemma_parsed_is_written(b: Seq<u8>)
    ensures
        match parse_ids(b) {
            Some(ids) => crate::version::sorted_by_peer(ids) && b == ids_bytes(ids),
            None => true,
        },
{
    lemma_written_parsed(b, 0);
    match parse_varint(b, 0) {
        None => {},
        Some((n, p)) => {
            lemma_parsed_pairs(b, p, n, -1);
            match parse_pairs(b, p, n, -1) {
                None => {},
                Some((ids, end)) => {
                    if end == b.len() {
                        if n > 0 {
                            assert(b =~= b.subrange(0, p) + b.subrange(p, end));
                        } else {
                            assert(b =~= b.subrange(0, p));
                            assert(pairs_bytes(ids) =~= Seq::<u8>::empty());
                            assert(b =~= b.subrange(0, p) + pairs_bytes(ids));
                        }
                    }
                },
            }
        },
    }
}

/// Appends the bytes of `n`.
pub fn write_varint(out: &mut Vec<u8>, n: u64)
    ensures
        final(out)@ == old(out)@ + varint(n as nat),
{
    let mut rest: u64 = n;
    while rest >= 128
        invariant
            out@ + varint(rest as nat) == old(out)@ + varint(n as nat),
        decreases rest,
    {
        let low: u8 = (rest % 128 + 128) as u8;
        proof {
            assert(varint(rest as nat) == seq![low] + varint((rest / 128) as nat));
            assert(out@.push(low) + varint((rest / 128) as nat) =~= out@ + (seq![low] + varint(
                (rest / 128) as nat,
            )));
        }
        out.push(low);
        rest = rest / 128;
    }
    proof {
        assert(varint(rest as nat) == seq![rest as u8]);
        assert(out@.push(rest as u8) =~= out@ + varint(rest as nat));
    }
    out.push(rest as u8);
}

/// Reads the number written at `pos`, in `limit` bytes at most.
pub fn read_varint_within(bytes: &[u8], pos: usize, limit: usize) -> (r: Option<(u64, usize)>)
    ensures
        match r {
            Some((n, next)) => parse_varint(bytes@, pos as int) == Some((n as nat, next as int))
                && next - pos <= limit,
            None => match parse_varint(bytes@, pos as int) {
                Some((n, next)) => n > u64::MAX || next - pos > limit,
                None => true,
            },
        },
    decreases limit,
{
    proof {
        lemma_written_parsed(bytes@, pos as int);
    }
    if limit == 0 || pos >= bytes.len() {
        return None;
    }
    let byte = bytes[pos];
    if byte < 128 {
        return Some((byte as u64, pos + 1));
    }
    proof {
        lemma_written_parsed(bytes@, pos + 1);
    }
    match read_varint_within(bytes, pos + 1, limit - 1) {
        Some((hi, next)) => {
            if hi == 0 {
                return None;
            }
            let low: u64 = (byte - 128) as u64;
            if hi > (u64::MAX - low) / 128 {
                proof {
                    assert(low + 128 * hi > u64::MAX) by (nonlinear_arith)
                        requires
                            hi > (u64::MAX - low) / 128,
                            0 <= low < 128,
                    ;
                }
                return None;
            }
            proof {
                assert(low + 128 * hi <= u64::MAX) by (nonlinear_arith)
                    requires
                        hi <= (u64::MAX - low) / 128,
                        0 <= low < 128,
                ;
            }
            Some((low + 128 * hi, next))
        },
        None => {
            proof {
                match parse_varint(bytes@, pos + 1) {
                    Some((hi, next)) => {
                        if hi > u64::MAX {
                            assert((byte - 128) + 128 * hi > u64::MAX);
                        }
                    },
                    None => {},
                }
            }
            None
        },
    }
}

/// Reads the number written at `pos`, if it fits in 64 bits.
pub fn read_varint(bytes: &[u8], pos: usize) -> (r: Option<(u64, usize)>)
    ensures
        match r {
            Some((n, next)) => parse_varint(bytes@, pos as int) == Some((n as nat, next as int)),
            None => match parse_varint(bytes@, pos as int) {
                Some((n, next)) => n > u64::MAX,
                None => true,
            },
        },
{
    proof {
        lemma_long_is_large(bytes@, pos as int, 10);
        lemma_pow128_10();
    }
    read_varint_within(bytes, pos, 10)
}

/// Appends the bytes of the list `ids`.
pub fn write_ids(out: &mut Vec<u8>, ids: &Vec<ID>)
    ensures
        final(out)@ == old(out)@ + ids_bytes(ids@),
{
    let n = ids.len();
    write_varint(out, n as u64);
    let mut i: usize = 0;
    proof {
        assert(pairs_bytes(ids@.skip(n as int)) =~= Seq::<u8>::empty());
        assert(ids@.skip(0) =~= ids@);
    }
    while i < n
        invariant
            n == ids.len(),
            i <= n,
            out@ + pairs_bytes(ids@.skip(i as int)) == old(out)@ + ids_bytes(ids@),
        decreases n - i,
    {
        let e = ids[i];
        let ghost before = out@;
        let ghost tail = ids@.skip(i as int);
        proof {
            assert(tail[0] == e);
            assert(tail.skip(1) =~= ids@.skip(i + 1));
        }
        write_varint(out, e.peer);
        let z: u64 = if e.counter >= 0 {
            e.counter as u64
        } else {
            (e.counter as i64 + 0x1_0000_0000) as u64
        };
        write_varint(out, z);
        proof {
            assert(z == counter_number(e.counter as int));
            assert(out@ + pairs_bytes(ids@.skip(i + 1)) =~= before + pairs_bytes(tail));
        }
        i = i + 1;
    }
    proof {
        assert(pairs_bytes(ids@.skip(n as int)) =~= Seq::<u8>::empty());
        assert(out@ + pairs_bytes(ids@.skip(n as int)) =~= out@);
    }
}

/// Reads the list of identifiers that `bytes` is the bytes of.
pub fn read_ids(bytes: &[u8]) -> (r: Option<Vec<ID>>)
    ensures
        match r {
            Some(ids) => parse_ids(bytes@) == Some(ids@),
            None => parse_ids(bytes@) is None,
        },
{
    let total = bytes.len();
    let (count, start) = match read_varint(bytes, 0) {
        Some(x) => x,
        None => {
            proof {
                assert(bytes@.len() == total);
                lemma_no_count(bytes@);
            }
            return None;
        },
    };
    let mut ids: Vec<ID> = Vec::new();
    let mut pos: usize = start;
    let mut left: u64 = count;
    let mut floor: Option<u64> = None;
    proof {
        lemma_written_parsed(bytes@, 0);
    }
    while left > 0
        invariant
            pos <= bytes.len(),
            parse_varint(bytes@, 0) == Some((count as nat, start as int)),
            match parse_pairs(bytes@, pos as int, left as nat, spec_floor(floor)) {
                Some((rest, end)) => parse_pairs(bytes@, start as int, count as nat, -1) == Some(
                    (ids@ + rest, end),
                ),
                None => parse_pairs(bytes@, start as int, count as nat, -1) is None,
            },
        decreases left,
    {
        proof {
            lemma_written_parsed(bytes@, pos as int);
        }
        let (peer, after_peer) = match read_varint(bytes, pos) {
            Some(x) => x,
            None => {
                return None;
            },
        };
        let above = match floor {
            Some(f) => peer > f,
            None => true,
        };
        if !above {
            return None;
        }
        proof {
            lemma_written_parsed(bytes@, after_peer as int);
        }
        let (zz, after_counter) = match read_varint(bytes, after_peer) {
            Some(x) => x,
            None => {
                return None;
            },
        };
        if zz > 0xffff_ffff {
            return None;
        }
        let counter: i32 = if zz < 0x8000_0000 {
            zz as i32
        } else {
            (zz as i64 - 0x1_0000_0000) as i32
        };
        let ghost before = ids@;
        let e = ID { peer, counter };
        ids.push(e);
        proof {
            assert(counter == number_counter(zz as nat));
            match parse_pairs(bytes@, after_counter as int, (left - 1) as nat, peer as int) {
                Some((rest, end)) => {
                    assert(ids@ + rest =~= before + (seq![e] + rest));
                },
                None => {},
            }
        }
        pos = after_counter;
        left = left - 1;
        floor = Some(peer);
    }
    if pos != bytes.len() {
        return None;
    }
    proof {
        assert(ids@ + Seq::<ID>::empty() =~= ids@);
    }
    Some(ids)
}

/// The bound that `floor` stands for: below every peer where there is none.
pub open spec fn spec_floor(floor: Option<u64>) -> int {
    match floor {
        Some(f) => f as int,
        None => -1,
    }
}

/// Bytes whose count does not fit in 64 bits are the bytes of no list.
pub proof fn lemma_no_count(b: Seq<u8>)
    requires
        b.len() <= u64::MAX,
        match parse_varint(b, 0) {
            Some((n, next)) => n > u64::MAX,
            None => true,
        },
    ensures
        parse_ids(b) is None,
{
    match parse_varint(b, 0) {
        Some((n, p)) => {
            lemma_parsed_pairs(b, p, n, -1);
            lemma_pairs_long(b, p, n, -1);
        },
        None => {},
    }
}

/// A list takes at least two bytes for each entry.
pub proof fn lemma_pairs_long(b: Seq<u8>, pos: int, count: nat, floor: int)
    ensures
        match parse_pairs(b, pos, count, floor) {
            Some((ids, end)) => end - pos >= 2 * count && (count > 0 ==> end <= b.len()),
            None => true,
        },
    decreases count,
{
    if count > 0 {
        lemma_written_parsed(b, pos);
        match parse_varint(b, pos) {
            None => {},
            Some((peer, after_peer)) => {
                lemma_written_parsed(b, after_peer);
                match parse_varint(b, after_peer) {
                    None => {},
                    Some((zz, after_counter)) => {
                        lemma_pairs_long(b, after_counter, (count - 1) as nat, peer as int);
                    },
                }
            },
        }
    }
}

} // verus!
