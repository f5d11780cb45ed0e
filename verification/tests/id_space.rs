use loro_core::frontiers::{Frontiers, LoroError};
use loro_core::id::{opt_id_eq, ID, UNKNOWN_PEER};
use loro_core::span::{CounterSpan, IdSpan};
use loro_core::version::{IdSpanVector, VersionVector};

#[test]
fn id_inc_moves_the_counter() {
    let id = ID::new(7, 10);
    assert_eq!(id.inc(5), ID::new(7, 15));
    assert_eq!(id.inc(-10), ID::new(7, 0));
    assert_eq!(id.inc(0), id);
}

#[test]
fn id_contains_is_a_half_open_range_of_one_peer() {
    let id = ID::new(1, 10);
    assert!(id.contains(10, ID::new(1, 10)));
    assert!(id.contains(10, ID::new(1, 19)));
    assert!(!id.contains(10, ID::new(1, 20)));
    assert!(!id.contains(10, ID::new(1, 9)));
    assert!(!id.contains(10, ID::new(2, 12)));
    assert!(!id.contains(0, ID::new(1, 10)));
    assert!(ID::new(1, i32::MAX).contains(1, ID::new(1, i32::MAX)));
}

#[test]
fn unknown_is_the_reserved_peer() {
    assert!(ID::unknown(3).is_unknown());
    assert_eq!(ID::unknown(3), ID::new(UNKNOWN_PEER, 3));
    assert!(!ID::new(0, 3).is_unknown());
}

#[test]
fn optional_ids_compare_by_value() {
    assert!(opt_id_eq(None, None));
    assert!(opt_id_eq(Some(ID::new(1, 2)), Some(ID::new(1, 2))));
    assert!(!opt_id_eq(Some(ID::new(1, 2)), Some(ID::new(1, 3))));
    assert!(!opt_id_eq(Some(ID::new(1, 2)), None));
    assert!(!opt_id_eq(None, Some(ID::new(1, 2))));
}

#[test]
fn id_spans_merge_when_adjacent_on_one_peer() {
    let mut a = IdSpan::new(1, 0, 5);
    let b = IdSpan::new(1, 5, 9);
    assert!(a.is_mergable(&b));
    assert!(!b.is_mergable(&a));
    assert!(!a.is_mergable(&IdSpan::new(2, 5, 9)));
    assert!(!a.is_mergable(&IdSpan::new(1, 6, 9)));
    a.merge(&b);
    assert_eq!(a, IdSpan::new(1, 0, 9));
    assert!(a.contains(ID::new(1, 8)));
    assert!(!a.contains(ID::new(1, 9)));
    assert!(CounterSpan::new(3, 3).is_empty());
    assert!(!CounterSpan::new(3, 4).is_empty());
    assert!(CounterSpan::new(3, 4).contains(3));
}

#[test]
fn span_overlap_needs_a_shared_identifier() {
    assert!(IdSpan::new(1, 0, 5).overlaps(&IdSpan::new(1, 4, 9)));
    assert!(!IdSpan::new(1, 0, 5).overlaps(&IdSpan::new(1, 5, 9)));
    assert!(!IdSpan::new(1, 0, 5).overlaps(&IdSpan::new(2, 0, 5)));
    assert!(!IdSpan::new(1, 3, 3).overlaps(&IdSpan::new(1, 0, 9)));
}

#[test]
fn version_vector_includes_what_lies_below_the_entry() {
    let mut vv = VersionVector::new();
    assert!(!vv.includes_id(ID::new(1, 0)));
    vv.set_end(ID::new(1, 5));
    assert!(vv.includes_id(ID::new(1, 0)));
    assert!(vv.includes_id(ID::new(1, 4)));
    assert!(!vv.includes_id(ID::new(1, 5)));
    assert!(!vv.includes_id(ID::new(2, 0)));
    assert_eq!(vv.get(1), Some(5));
    assert_eq!(vv.get(2), None);
    assert_eq!(vv.get_or_zero(2), 0);
    assert_eq!(vv.len(), 1);
}

#[test]
fn set_end_only_raises() {
    let mut vv = VersionVector::new();
    vv.set_end(ID::new(1, 10));
    vv.set_end(ID::new(1, 5));
    assert_eq!(vv.get(1), Some(10));
    vv.set_end(ID::new(1, 12));
    assert_eq!(vv.get(1), Some(12));
    vv.set_end(ID::new(3, 0));
    assert_eq!(vv.get(3), None);
    vv.set_last(ID::new(2, 6));
    assert_eq!(vv.get(2), Some(7));
    vv.set_last(ID::new(2, 3));
    assert_eq!(vv.get(2), Some(7));
}

#[test]
fn insert_remove_and_shrink() {
    let mut vv = VersionVector::new();
    vv.insert(5, 3);
    vv.insert(1, 9);
    vv.insert(3, 4);
    assert_eq!(vv.entries, vec![ID::new(1, 9), ID::new(3, 4), ID::new(5, 3)]);
    vv.insert(3, 2);
    assert_eq!(vv.get(3), Some(2));
    vv.remove(1);
    assert_eq!(vv.get(1), None);
    assert_eq!(vv.len(), 2);
    vv.remove(42);
    assert_eq!(vv.len(), 2);
    vv.shrink_to_exclude(IdSpan::new(5, 1, 8));
    assert_eq!(vv.get(5), Some(1));
    vv.shrink_to_exclude(IdSpan::new(5, 4, 8));
    assert_eq!(vv.get(5), Some(1));
    vv.shrink_to_exclude(IdSpan::new(5, 0, 8));
    assert_eq!(vv.get(5), None);
}

#[test]
fn versions_compare_entry_by_entry() {
    let mut a = VersionVector::new();
    let mut b = VersionVector::new();
    assert_eq!(a.compare(&b), Some(0));
    a.set_end(ID::new(1, 3));
    assert_eq!(a.compare(&b), Some(1));
    assert_eq!(b.compare(&a), Some(-1));
    b.set_end(ID::new(2, 1));
    assert_eq!(a.compare(&b), None);
    assert!(!a.le(&b));
    b.set_end(ID::new(1, 3));
    assert_eq!(a.compare(&b), Some(-1));
    assert!(a.le(&b));
    a.set_end(ID::new(2, 1));
    assert_eq!(a.compare(&b), Some(0));
    assert!(a.same_as(&b));
    assert!(a.duplicate().same_as(&a));
}

#[test]
fn difference_of_versions_is_one_span_per_peer() {
    let mut a = VersionVector::new();
    a.set_end(ID::new(1, 5));
    a.set_end(ID::new(2, 3));
    a.set_end(ID::new(4, 2));
    let mut b = VersionVector::new();
    b.set_end(ID::new(1, 2));
    b.set_end(ID::new(2, 7));
    let d = a.sub_iter_spans(&b);
    assert_eq!(d.spans, vec![IdSpan::new(1, 2, 5), IdSpan::new(4, 0, 2)]);
    assert!(d.contains(ID::new(1, 2)));
    assert!(d.contains(ID::new(1, 4)));
    assert!(!d.contains(ID::new(1, 5)));
    assert!(!d.contains(ID::new(2, 0)));
    let e = b.sub_iter_spans(&a);
    assert_eq!(e.spans, vec![IdSpan::new(2, 3, 7)]);
}

#[test]
fn span_vectors_refuse_overlap() {
    let mut v = IdSpanVector::new();
    assert!(v.push(IdSpan::new(1, 0, 5)));
    assert!(v.push(IdSpan::new(1, 5, 8)));
    assert!(!v.push(IdSpan::new(1, 7, 9)));
    assert!(v.push(IdSpan::new(2, 7, 9)));
    assert_eq!(v.spans.len(), 3);
    assert!(v.contains(ID::new(1, 7)));
    assert!(!v.contains(ID::new(1, 8)));
}

#[test]
fn frontier_codec() {
    let mut f = Frontiers::new();
    f.push(ID::new(2, 3));
    f.push(ID::new(1, 7));
    assert_eq!(f.ids, vec![ID::new(1, 7), ID::new(2, 3)]);
    let bytes = f.encode();
    assert_eq!(bytes, vec![2u8, 1, 7, 2, 3]);
    let back = Frontiers::decode(&bytes).unwrap();
    assert_eq!(back.ids, f.ids);
    assert_eq!(Frontiers::decode(&[]).unwrap_err(), LoroError::BadFrontierBinary);
}

#[test]
fn frontier_bytes_use_as_few_bytes_as_needed() {
    let mut f = Frontiers::new();
    f.push(ID::new(300, -1));
    f.push(ID::new(u64::MAX, i32::MAX));
    f.push(ID::new(127, i32::MIN));
    let bytes = f.encode();
    assert_eq!(
        bytes,
        vec![
            3u8, 127, 0x80, 0x80, 0x80, 0x80, 0x08, 0xac, 0x02, 0xff, 0xff, 0xff, 0xff, 0x0f, 0xff,
            0xff, 0xff, 0xff, 0xff, 0xff, 0xff, 0xff, 0xff, 0x01, 0xff, 0xff, 0xff, 0xff, 0x07,
        ]
    );
    let back = Frontiers::decode(&bytes).unwrap();
    assert_eq!(back.ids, vec![ID::new(127, i32::MIN), ID::new(300, -1), ID::new(u64::MAX, i32::MAX)]);
    assert_eq!(Frontiers::new().encode(), vec![0u8]);
    assert_eq!(Frontiers::decode(&[0]).unwrap().ids, Vec::<ID>::new());
}

#[test]
fn malformed_frontier_bytes_are_refused() {
    let bad: Vec<Vec<u8>> = vec![
        vec![],
        vec![1],
        vec![1, 5],
        vec![2, 1, 7],
        vec![1, 1, 7, 0],
        vec![2, 2, 3, 1, 7],
        vec![2, 1, 7, 1, 3],
        vec![1, 0x81, 0x00, 7],
        vec![0x80, 0x00],
        vec![1, 1, 0x80, 0x80, 0x80, 0x80, 0x10],
        vec![1, 0xff, 0xff, 0xff, 0xff, 0xff, 0xff, 0xff, 0xff, 0xff, 0x02, 0],
        vec![0x80],
    ];
    for bytes in bad {
        assert_eq!(Frontiers::decode(&bytes).unwrap_err(), LoroError::BadFrontierBinary);
    }
}

#[test]
fn frontiers_keep_the_latest_of_each_peer() {
    let mut f = Frontiers::new();
    f.push(ID::new(1, 7));
    f.push(ID::new(1, 3));
    assert_eq!(f.ids, vec![ID::new(1, 7)]);
    f.push(ID::new(1, 9));
    assert_eq!(f.ids, vec![ID::new(1, 9)]);
    assert!(f.contains(ID::new(1, 9)));
    assert!(!f.contains(ID::new(1, 7)));
    assert_eq!(f.len(), 1);
    assert_eq!(f.ids().len(), 1);
}

#[test]
fn version_vector_codec() {
    let mut vv = VersionVector::new();
    vv.set_end(ID::new(9, 200));
    vv.set_end(ID::new(1, 1));
    let bytes = vv.encode();
    assert_eq!(bytes, vec![2u8, 1, 1, 9, 0xc8, 0x01]);
    let back = VersionVector::decode(&bytes).unwrap();
    assert!(back.same_as(&vv));
    assert_eq!(
        VersionVector::decode(&[1, 1]).unwrap_err(),
        LoroError::BadVersionVectorBinary
    );
}

#[test]
fn round_trip_of_many_frontiers() {
    let mut seed: u64 = 12345;
    for _ in 0..200 {
        let mut f = Frontiers::new();
        let n = (seed % 7) as usize;
        for _ in 0..n {
            seed = seed.wrapping_mul(6364136223846793005).wrapping_add(1442695040888963407);
            let peer = seed >> (seed % 60);
            seed = seed.wrapping_mul(6364136223846793005).wrapping_add(1442695040888963407);
            let counter = (seed >> 32) as u32 as i32;
            f.push(ID::new(peer, counter));
        }
        let bytes = f.encode();
        assert_eq!(Frontiers::decode(&bytes).unwrap().ids, f.ids);
    }
}

#[test]
fn merge_takes_the_greater_entry() {
    let mut a = VersionVector::new();
    a.set_end(ID::new(1, 5));
    a.set_end(ID::new(2, 3));
    let mut b = VersionVector::new();
    b.set_end(ID::new(2, 7));
    b.set_end(ID::new(3, 2));
    b.set_end(ID::new(1, 1));
    let d = a.diff(&b);
    assert_eq!(d.left.spans, vec![IdSpan::new(1, 1, 5)]);
    assert_eq!(d.right.spans, vec![IdSpan::new(2, 3, 7), IdSpan::new(3, 0, 2)]);
    let added = a.merge(&b);
    assert_eq!(added.spans, vec![IdSpan::new(2, 3, 7), IdSpan::new(3, 0, 2)]);
    assert_eq!(a.entries, vec![ID::new(1, 5), ID::new(2, 7), ID::new(3, 2)]);
    assert_eq!(a.merge(&b).spans.len(), 0);
    assert_eq!(b.compare(&a), Some(-1));
}

#[test]
fn only_ascending_peers_are_valid() {
    assert!(VersionVector::new().check());
    assert!(Frontiers::new().check());
    let mut vv = VersionVector::new();
    vv.insert(5, 2);
    vv.insert(1, 9);
    vv.insert(3, 1);
    assert!(vv.check());
    assert_eq!(VersionVector::decode(&vv.encode()).unwrap().entries, vv.entries);
    let swapped = VersionVector { entries: vec![ID::new(5, 2), ID::new(1, 9)] };
    assert!(!swapped.check());
    let twice = Frontiers { ids: vec![ID::new(1, 2), ID::new(1, 9)] };
    assert!(!twice.check());
    let one = Frontiers { ids: vec![ID::new(7, 0)] };
    assert!(one.check());
    assert_eq!(Frontiers::decode(&one.encode()).unwrap().ids, one.ids);
    let far = Frontiers { ids: vec![ID::new(1, 2), ID::new(2, 0), ID::new(2, 1)] };
    assert!(!far.check());
}
