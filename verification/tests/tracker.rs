use loro_core::id::ID;
use loro_core::span::IdSpan;
use loro_core::tracker::effects::Effect;
use loro_core::tracker::{Tracker, TrackerError};
use loro_core::version::{IdSpanVector, VersionVector};
use loro_core::y_span::{Status, StatusChange, YSpan};
use loro_core::yata_impl::YataImpl;

fn op(peer: u64, counter: i32, len: usize, left: Option<(u64, i32)>, right: Option<(u64, i32)>) -> YSpan {
    YSpan::new(
        ID::new(peer, counter),
        len,
        left.map(|(p, c)| ID::new(p, c)),
        right.map(|(p, c)| ID::new(p, c)),
    )
}

fn visible(t: &Tracker) -> Vec<(u64, i32)> {
    let mut out = Vec::new();
    for span in t.iter_visible() {
        for c in span.counter.start..span.counter.end {
            out.push((span.peer, c));
        }
    }
    out
}

fn all(t: &Tracker) -> Vec<(u64, i32)> {
    (0..t.len()).map(|i| t.content.atom_at(i)).map(|a| (a.id.peer, a.id.counter)).collect()
}

fn spans(list: &[(u64, i32, i32)]) -> IdSpanVector {
    let mut v = IdSpanVector::new();
    for &(p, s, e) in list {
        assert!(v.push(IdSpan::new(p, s, e)));
    }
    v
}

fn vv(list: &[(u64, i32)]) -> VersionVector {
    let mut v = VersionVector::new();
    for &(p, c) in list {
        v.set_end(ID::new(p, c));
    }
    v
}

fn check(t: &Tracker) {
    assert!(t.content.check());
    let atoms: Vec<_> = (0..t.len()).map(|i| t.content.atom_at(i)).collect();
    for (i, a) in atoms.iter().enumerate() {
        let c = t.get_cursor(a.id).unwrap();
        assert_eq!(c.pos, i);
        assert_eq!(t.id_to_cursor.get(a.id), Some(c.leaf));
        if let Some(l) = a.origin_left {
            assert!(t.get_cursor(l).unwrap().pos < i);
        }
        if let Some(r) = a.origin_right {
            assert!(t.get_cursor(r).unwrap().pos > i);
        }
        assert!(t.head_vv.includes_id(a.id));
    }
}

#[test]
fn two_peer_interleaving() {
    let ab = op(1, 0, 2, None, None);
    let xy = op(2, 0, 2, None, None);
    let mut first = Tracker::new(1);
    first.integrate(ab).unwrap();
    first.integrate(xy).unwrap();
    let mut second = Tracker::new(2);
    second.integrate(xy).unwrap();
    second.integrate(ab).unwrap();
    assert_eq!(visible(&first), vec![(1, 0), (1, 1), (2, 0), (2, 1)]);
    assert_eq!(visible(&second), visible(&first));
    assert!(first.is_content_eq(&second));
    check(&first);
    check(&second);
}

#[test]
fn concurrent_delete_and_insert_at_the_same_anchor() {
    let ab = op(1, 0, 2, None, None);
    let c = op(2, 0, 1, Some((1, 1)), None);
    let del = spans(&[(1, 1, 2)]);

    let mut first = Tracker::new(1);
    first.integrate(ab).unwrap();
    first.update_spans(&del, StatusChange::Delete);
    assert_eq!(visible(&first), vec![(1, 0)]);
    first.integrate(c).unwrap();

    let mut second = Tracker::new(2);
    second.integrate(ab).unwrap();
    second.integrate(c).unwrap();
    second.update_spans(&del, StatusChange::Delete);

    assert_eq!(visible(&first), vec![(1, 0), (2, 0)]);
    assert_eq!(visible(&second), vec![(1, 0), (2, 0)]);
    assert_eq!(all(&first), vec![(1, 0), (1, 1), (2, 0)]);
    assert!(first.is_content_eq(&second));
    check(&first);
}

#[test]
fn retreat_visibility() {
    let mut t = Tracker::new(1);
    t.integrate(op(1, 0, 5, None, None)).unwrap();
    assert_eq!(t.current_vv.get(1), Some(5));
    let s = spans(&[(1, 3, 5)]);
    t.retreat(&s);
    assert_eq!(visible(&t), vec![(1, 0), (1, 1), (1, 2)]);
    assert_eq!(t.current_vv.get(1), Some(3));
    assert_eq!(t.head_vv.get(1), Some(5));
    t.forward(&s);
    assert_eq!(visible(&t), vec![(1, 0), (1, 1), (1, 2), (1, 3), (1, 4)]);
    assert_eq!(t.current_vv.get(1), Some(5));
    check(&t);
}

#[test]
fn nested_retreats_need_as_many_forwards() {
    let mut t = Tracker::new(1);
    t.integrate(op(1, 0, 4, None, None)).unwrap();
    let s = spans(&[(1, 2, 4)]);
    t.retreat(&s);
    t.retreat(&s);
    assert_eq!(t.content.atom_at(2).status, Status { future_count: 2, delete_times: 0 });
    t.forward(&s);
    assert_eq!(visible(&t), vec![(1, 0), (1, 1)]);
    t.forward(&s);
    assert_eq!(visible(&t), vec![(1, 0), (1, 1), (1, 2), (1, 3)]);
    t.forward(&s);
    assert_eq!(t.content.atom_at(2).status, Status::new());
}

#[test]
fn a_retreat_inside_the_version_leaves_the_version() {
    let mut t = Tracker::new(1);
    t.integrate(op(1, 0, 6, None, None)).unwrap();
    t.retreat(&spans(&[(1, 2, 4)]));
    assert_eq!(visible(&t), vec![(1, 0), (1, 1), (1, 4), (1, 5)]);
    assert_eq!(t.current_vv.get(1), Some(6));
    t.retreat(&spans(&[(1, 0, 9)]));
    assert_eq!(visible(&t), vec![]);
    assert_eq!(t.current_vv.get(1), None);
}

#[test]
fn checkout_across_branches() {
    let a = op(1, 0, 1, None, None);
    let b = op(2, 0, 1, Some((1, 0)), None);
    let c = op(3, 0, 1, Some((1, 0)), None);
    let mut t = Tracker::new(1);
    t.integrate(a).unwrap();
    t.integrate(c).unwrap();
    t.integrate(b).unwrap();
    assert_eq!(visible(&t), vec![(1, 0), (2, 0), (3, 0)]);

    t.checkout(&vv(&[(1, 1), (3, 1)]));
    assert_eq!(visible(&t), vec![(1, 0), (3, 0)]);
    t.checkout(&vv(&[(1, 1), (2, 1)]));
    assert_eq!(visible(&t), vec![(1, 0), (2, 0)]);
    t.checkout(&vv(&[(1, 1), (2, 1), (3, 1)]));
    assert_eq!(visible(&t), vec![(1, 0), (2, 0), (3, 0)]);
    t.checkout(&VersionVector::new());
    assert_eq!(visible(&t), vec![]);
    assert_eq!(all(&t), vec![(1, 0), (2, 0), (3, 0)]);
    check(&t);

    let mut other = Tracker::new(2);
    other.integrate(a).unwrap();
    other.integrate(b).unwrap();
    other.integrate(c).unwrap();
    assert_eq!(all(&other), all(&t));
}

#[test]
fn checkout_round_trip() {
    let mut t = Tracker::new(1);
    t.integrate(op(1, 0, 3, None, None)).unwrap();
    t.integrate(op(2, 0, 3, Some((1, 1)), Some((1, 2)))).unwrap();
    t.integrate(op(1, 3, 2, Some((2, 2)), Some((1, 2)))).unwrap();
    t.update_spans(&spans(&[(2, 1, 2)]), StatusChange::Delete);
    let v1 = vv(&[(1, 2), (2, 3)]);
    let v2 = vv(&[(1, 5), (2, 1)]);
    t.checkout(&v1);
    let shown = visible(&t);
    assert_eq!(shown, vec![(1, 0), (1, 1), (2, 0), (2, 2)]);
    t.checkout(&v2);
    assert_eq!(visible(&t), vec![(1, 0), (1, 1), (2, 0), (1, 3), (1, 4), (1, 2)]);
    t.checkout(&v1);
    assert_eq!(visible(&t), shown);
    assert!(t.current_vv.same_as(&v1));
    check(&t);
}

#[test]
fn integrating_while_an_old_version_is_shown() {
    let mut t = Tracker::new(1);
    t.integrate(op(1, 0, 2, None, None)).unwrap();
    t.checkout(&vv(&[(1, 1)]));
    assert_eq!(visible(&t), vec![(1, 0)]);
    t.integrate(op(2, 0, 2, Some((1, 1)), None)).unwrap();
    assert_eq!(visible(&t), vec![(1, 0)]);
    assert_eq!(all(&t), vec![(1, 0), (1, 1), (2, 0), (2, 1)]);
    assert_eq!(t.head_vv.get(2), Some(2));
    assert_eq!(t.current_vv.get(2), None);
    let head = t.head_vv.duplicate();
    t.checkout(&head);
    assert_eq!(visible(&t), vec![(1, 0), (1, 1), (2, 0), (2, 1)]);
    check(&t);
}

#[test]
fn integrating_again_changes_nothing() {
    let mut t = Tracker::new(1);
    let a = op(1, 0, 3, None, None);
    t.integrate(a).unwrap();
    t.integrate(op(2, 0, 1, Some((1, 0)), Some((1, 1)))).unwrap();
    let before = all(&t);
    assert_eq!(t.integrate(a), Ok(()));
    assert_eq!(all(&t), before);
    assert_eq!(t.head_vv.get(1), Some(3));
    assert_eq!(t.integrate(op(1, 1, 2, Some((1, 0)), None)), Ok(()));
    assert_eq!(all(&t), before);
}

#[test]
fn the_known_part_of_an_operation_is_skipped() {
    let mut t = Tracker::new(1);
    t.integrate(op(1, 0, 3, None, None)).unwrap();
    t.integrate(op(1, 1, 4, Some((1, 0)), None)).unwrap();
    assert_eq!(all(&t), vec![(1, 0), (1, 1), (1, 2), (1, 3), (1, 4)]);
    assert_eq!(t.content.atom_at(3).origin_left, Some(ID::new(1, 2)));
    assert_eq!(t.head_vv.get(1), Some(5));
}

#[test]
fn refused_operations() {
    let mut t = Tracker::new(1);
    t.integrate(op(1, 0, 2, None, None)).unwrap();
    t.integrate(op(2, 0, 1, None, Some((1, 0)))).unwrap();
    assert_eq!(all(&t), vec![(2, 0), (1, 0), (1, 1)]);

    assert_eq!(t.integrate(op(3, 0, 1, Some((9, 0)), None)), Err(TrackerError::MissingDependency));
    assert_eq!(t.integrate(op(3, 0, 1, None, Some((1, 2)))), Err(TrackerError::MissingDependency));
    assert_eq!(t.integrate(op(3, 2, 1, None, None)), Err(TrackerError::MissingDependency));
    assert!(!t.can_integrate(&op(3, 2, 1, None, None)));
    assert!(t.can_integrate(&op(3, 0, 1, Some((1, 1)), None)));

    assert_eq!(t.integrate(op(3, 0, 0, None, None)), Err(TrackerError::MalformedInput));
    assert_eq!(t.integrate(op(u64::MAX, 0, 1, None, None)), Err(TrackerError::MalformedInput));
    assert_eq!(t.integrate(op(3, i32::MAX, 1, None, None)), Err(TrackerError::MissingDependency));
    assert_eq!(t.integrate(op(3, 0, 1, Some((1, -1)), None)), Err(TrackerError::MalformedInput));

    assert_eq!(
        t.integrate(op(3, 0, 1, Some((1, 1)), Some((2, 0)))),
        Err(TrackerError::InvariantViolated)
    );
    assert_eq!(all(&t), vec![(2, 0), (1, 0), (1, 1)]);
    assert_eq!(t.head_vv.get(3), None);
    check(&t);
}

#[test]
fn unknown_anchors_stand_for_the_ends() {
    let mut t = Tracker::new(1);
    t.integrate(op(1, 0, 2, None, None)).unwrap();
    let o = YSpan::new(ID::new(2, 0), 1, Some(ID::unknown(5)), Some(ID::unknown(6)));
    assert!(t.can_integrate(&o));
    t.integrate(o).unwrap();
    assert_eq!(all(&t), vec![(1, 0), (1, 1), (2, 0)]);
    assert_eq!(t.content.atom_at(2).origin_left, None);
    assert_eq!(t.content.atom_at(2).origin_right, None);
}

#[test]
fn same_origin_orders_by_peer() {
    let base = op(1, 0, 1, None, None);
    let ops = [
        op(5, 0, 2, Some((1, 0)), None),
        op(3, 0, 2, Some((1, 0)), None),
        op(4, 0, 1, Some((1, 0)), None),
    ];
    let orders: [[usize; 3]; 6] = [[0, 1, 2], [0, 2, 1], [1, 0, 2], [1, 2, 0], [2, 0, 1], [2, 1, 0]];
    for order in orders {
        let mut t = Tracker::new(1);
        t.integrate(base).unwrap();
        for i in order {
            t.integrate(ops[i]).unwrap();
        }
        assert_eq!(all(&t), vec![(1, 0), (3, 0), (3, 1), (4, 0), (5, 0), (5, 1)]);
        check(&t);
    }
}

#[test]
fn an_insertion_into_a_run_splits_it() {
    let mut t = Tracker::new(1);
    t.integrate(op(1, 0, 4, None, None)).unwrap();
    t.integrate(op(2, 0, 1, Some((1, 1)), Some((1, 2)))).unwrap();
    assert_eq!(all(&t), vec![(1, 0), (1, 1), (2, 0), (1, 2), (1, 3)]);
    assert_eq!(t.content.atom_at(3).origin_left, Some(ID::new(1, 1)));
    check(&t);
}

#[test]
fn deleting_twice_needs_two_undos() {
    let mut t = Tracker::new(1);
    t.integrate(op(1, 0, 3, None, None)).unwrap();
    let s = spans(&[(1, 1, 2)]);
    t.update_spans(&s, StatusChange::Delete);
    t.update_spans(&s, StatusChange::Delete);
    assert_eq!(t.content.atom_at(1).status, Status { future_count: 0, delete_times: 2 });
    t.update_spans(&s, StatusChange::UndoDelete);
    assert_eq!(visible(&t), vec![(1, 0), (1, 2)]);
    t.update_spans(&s, StatusChange::UndoDelete);
    assert_eq!(visible(&t), vec![(1, 0), (1, 1), (1, 2)]);
    t.update_spans(&s, StatusChange::UndoDelete);
    assert_eq!(t.content.atom_at(1).status, Status::new());
    assert_eq!(t.visible_len(), 3);
}

#[test]
fn spans_beyond_the_head_are_ignored() {
    let mut t = Tracker::new(1);
    t.integrate(op(1, 0, 3, None, None)).unwrap();
    t.update_spans(&spans(&[(1, 2, 50), (7, 0, 4), (1, -5, 1)]), StatusChange::Delete);
    assert_eq!(visible(&t), vec![(1, 1)]);
}

#[test]
fn effects_replay_on_the_visible_sequence() {
    let mut t = Tracker::new(1);
    t.integrate(op(1, 0, 3, None, None)).unwrap();
    t.integrate(op(2, 0, 2, Some((1, 0)), Some((1, 1)))).unwrap();
    t.integrate(op(3, 0, 1, Some((1, 2)), None)).unwrap();
    assert_eq!(all(&t), vec![(1, 0), (2, 0), (2, 1), (1, 1), (1, 2), (3, 0)]);
    let script = t.apply_tracked_effects_from(&vv(&[(1, 3)]), &spans(&[(2, 0, 2), (3, 0, 1)]));
    assert_eq!(
        script,
        vec![
            Effect::Ins { pos: 1, content: IdSpan::new(2, 0, 2) },
            Effect::Ins { pos: 5, content: IdSpan::new(3, 0, 1) },
        ]
    );
    assert_eq!(visible(&t), all(&t));
    assert_eq!(t.current_vv.get(2), Some(2));

    let script = t.update_spans_reporting(&spans(&[(1, 0, 2)]), StatusChange::Delete);
    assert_eq!(script, vec![Effect::Del { pos: 0, len: 1 }, Effect::Del { pos: 2, len: 1 }]);
    assert_eq!(visible(&t), vec![(2, 0), (2, 1), (1, 2), (3, 0)]);
    let script = t.update_spans_reporting(&spans(&[(1, 0, 2)]), StatusChange::Delete);
    assert_eq!(script, vec![]);
}

#[test]
fn local_operations_take_their_anchors_from_what_is_shown() {
    let mut t = Tracker::new(7);
    assert_eq!(YataImpl::new_op(&t, 13), op(7, 0, 4, None, None));
    t.integrate(op(1, 0, 3, None, None)).unwrap();
    t.update_spans(&spans(&[(1, 1, 2)]), StatusChange::Delete);
    assert_eq!(t.get_yspan_at_pos(ID::new(7, 0), 0, 2), op(7, 0, 2, None, Some((1, 0))));
    assert_eq!(t.get_yspan_at_pos(ID::new(7, 0), 1, 2), op(7, 0, 2, Some((1, 0)), Some((1, 1))));
    assert_eq!(t.get_yspan_at_pos(ID::new(7, 0), 2, 2), op(7, 0, 2, Some((1, 2)), None));
    assert_eq!(YataImpl::new_op(&t, 5), op(7, 0, 6, Some((1, 0)), Some((1, 1))));
    let made = YataImpl::new_op(&t, 5);
    t.integrate(made).unwrap();
    assert_eq!(YataImpl::new_op(&t, 0).id, ID::new(7, 6));
}

#[test]
fn deletions_name_what_is_shown() {
    let mut t = Tracker::new(1);
    assert_eq!(YataImpl::new_del_op(&t, 3, 4).spans.len(), 0);
    t.integrate(op(1, 0, 3, None, None)).unwrap();
    t.integrate(op(2, 0, 3, Some((1, 2)), None)).unwrap();
    t.update_spans(&spans(&[(1, 1, 3)]), StatusChange::Delete);
    assert_eq!(visible(&t), vec![(1, 0), (2, 0), (2, 1), (2, 2)]);
    let d = t.get_id_spans(0, 3);
    assert_eq!(d.spans, vec![IdSpan::new(1, 0, 1), IdSpan::new(2, 0, 1), IdSpan::new(2, 1, 2)]);
    let d = YataImpl::new_del_op(&t, 6, 25);
    assert_eq!(d.spans, vec![IdSpan::new(2, 1, 2), IdSpan::new(2, 2, 3)]);
    assert_eq!(YataImpl::new_del_op(&t, 6, 20).spans.len(), 0);
    YataImpl::integrate_delete_op(&mut t, d);
    assert_eq!(visible(&t), vec![(1, 0), (2, 0)]);
}

#[test]
fn runs_between_two_items() {
    let mut t = Tracker::new(1);
    t.integrate(op(1, 0, 5, None, None)).unwrap();
    t.integrate(op(2, 0, 2, Some((1, 1)), Some((1, 2)))).unwrap();
    let runs = YataImpl::iter(&t, Some(ID::new(1, 0)), Some(ID::new(1, 3)));
    let ids: Vec<(u64, i32, usize)> = runs.iter().map(|r| (r.id.peer, r.id.counter, r.len)).collect();
    assert_eq!(ids, vec![(1, 1, 1), (2, 0, 2), (1, 2, 1)]);
    assert_eq!(YataImpl::iter(&t, Some(ID::new(1, 3)), Some(ID::new(1, 0))).len(), 0);
    assert_eq!(YataImpl::iter(&t, None, None).iter().map(|r| r.len).sum::<usize>(), 7);
    assert_eq!(YataImpl::id(&op(1, 4, 2, None, None)), ID::new(1, 4));
    assert!(YataImpl::contains(&op(1, 4, 2, None, None), ID::new(1, 5)));
    assert!(!YataImpl::contains(&op(1, 4, 2, None, None), ID::new(1, 6)));
    assert_eq!(YataImpl::left_origin(&op(1, 4, 2, Some((3, 3)), None)), Some(ID::new(3, 3)));
    assert_eq!(YataImpl::right_origin(&op(1, 4, 2, Some((3, 3)), None)), None);
    assert_eq!(
        YataImpl::cmp_id(&op(1, 4, 2, None, None), &op(2, 0, 1, None, None)),
        std::cmp::Ordering::Less
    );
}

#[test]
fn inserting_at_a_chosen_place() {
    let mut t = Tracker::new(1);
    t.integrate(op(1, 0, 3, None, None)).unwrap();
    YataImpl::insert_after_id(&mut t, Some(ID::new(1, 2)), op(2, 0, 1, Some((1, 0)), None));
    YataImpl::insert_after(&mut t, 0, op(3, 0, 1, Some((1, 0)), Some((1, 1))));
    YataImpl::insert_after_id(&mut t, None, op(4, 0, 1, None, Some((1, 0))));
    assert_eq!(all(&t), vec![(4, 0), (1, 0), (3, 0), (1, 1), (1, 2), (2, 0)]);
    check(&t);
}

fn cursors(t: &Tracker, list: &[(u64, i32)]) -> Vec<Option<u64>> {
    list.iter().map(|&(p, c)| t.id_to_cursor.get(ID::new(p, c))).collect()
}

#[test]
fn integrating_again_leaves_the_cursor_map() {
    let mut t = Tracker::new(1);
    let a = op(1, 0, 3, None, None);
    t.integrate(a).unwrap();
    t.integrate(op(2, 0, 1, Some((1, 0)), Some((1, 1)))).unwrap();
    let probe = [(1, 0), (1, 1), (1, 2), (2, 0), (3, 0)];
    let before = cursors(&t, &probe);
    let head = t.head_vv.entries.clone();
    let current = t.current_vv.entries.clone();
    assert_eq!(t.integrate(a), Ok(()));
    assert_eq!(cursors(&t, &probe), before);
    assert_eq!(t.head_vv.entries, head);
    assert_eq!(t.current_vv.entries, current);
    assert_eq!(t.integrate(op(3, 0, 1, Some((9, 9)), None)), Err(TrackerError::MissingDependency));
    assert_eq!(cursors(&t, &probe), before);
    assert_eq!(before[4], None);
}

#[test]
fn a_deletion_keeps_the_newest_version_shown() {
    let mut t = YataImpl::new_container(4);
    assert!(t.head_vv.entries.is_empty());
    assert!(t.current_vv.entries.is_empty());
    assert_eq!(t.id_to_cursor.get(ID::new(4, 0)), None);
    t.integrate(op(4, 0, 3, None, None)).unwrap();
    t.integrate(op(5, 0, 2, Some((4, 2)), None)).unwrap();
    assert_eq!(t.current_vv.entries, t.head_vv.entries);
    YataImpl::integrate_delete_op(&mut t, spans(&[(4, 1, 3)]));
    assert_eq!(t.current_vv.entries, t.head_vv.entries);
    assert_eq!(visible(&t), vec![(4, 0), (5, 0), (5, 1)]);
    t.integrate(op(5, 2, 1, Some((5, 1)), None)).unwrap();
    assert_eq!(t.current_vv.entries, t.head_vv.entries);
    assert_eq!(visible(&t), vec![(4, 0), (5, 0), (5, 1), (5, 2)]);
}

#[test]
fn a_bound_that_names_nothing_stands_for_that_end() {
    let mut t = Tracker::new(1);
    t.integrate(op(1, 0, 5, None, None)).unwrap();
    t.integrate(op(2, 0, 2, Some((1, 1)), Some((1, 2)))).unwrap();
    let total = |runs: Vec<YSpan>| runs.iter().map(|r| r.len).sum::<usize>();
    assert_eq!(total(YataImpl::iter(&t, Some(ID::new(8, 0)), None)), 7);
    assert_eq!(total(YataImpl::iter(&t, None, Some(ID::new(8, 0)))), 7);
    assert_eq!(total(YataImpl::iter(&t, Some(ID::new(8, 0)), Some(ID::new(1, 2)))), 4);
    assert_eq!(total(YataImpl::iter(&t, Some(ID::new(1, 1)), Some(ID::new(1, 9)))), 5);
}

#[test]
fn insertions_at_one_place_end_in_the_order_of_their_peers() {
    let base = op(1, 0, 4, None, None);
    let x = op(2, 0, 3, Some((1, 1)), Some((1, 2)));
    let y = op(5, 0, 2, Some((1, 1)), Some((1, 2)));
    let mut first = Tracker::new(1);
    first.integrate(base).unwrap();
    first.integrate(x).unwrap();
    first.integrate(y).unwrap();
    let mut second = Tracker::new(9);
    second.integrate(base).unwrap();
    second.integrate(y).unwrap();
    second.integrate(x).unwrap();
    let expected = vec![(1, 0), (1, 1), (2, 0), (2, 1), (2, 2), (5, 0), (5, 1), (1, 2), (1, 3)];
    assert_eq!(all(&first), expected);
    assert_eq!(all(&second), expected);
    assert_eq!(visible(&first), visible(&second));
    check(&first);
    check(&second);
}

fn status_of(t: &Tracker) -> Vec<(u64, i32, u32, u32)> {
    (0..t.len())
        .map(|i| t.content.atom_at(i))
        .map(|a| (a.id.peer, a.id.counter, a.status.future_count, a.status.delete_times))
        .collect()
}

#[test]
fn a_deletion_and_an_insertion_come_in_either_order() {
    let base = op(1, 0, 4, None, None);
    let x = op(2, 0, 2, Some((1, 1)), Some((1, 2)));
    let gone = spans(&[(1, 1, 3)]);
    let mut first = Tracker::new(1);
    first.integrate(base).unwrap();
    first.update_spans(&gone, StatusChange::Delete);
    assert_eq!(first.integrate(x), Ok(()));
    let mut second = Tracker::new(1);
    second.integrate(base).unwrap();
    assert_eq!(second.integrate(x), Ok(()));
    second.update_spans(&gone, StatusChange::Delete);
    assert_eq!(status_of(&first), status_of(&second));
    assert_eq!(
        status_of(&first),
        vec![(1, 0, 0, 0), (1, 1, 0, 1), (2, 0, 0, 0), (2, 1, 0, 0), (1, 2, 0, 1), (1, 3, 0, 0)]
    );
    let more = spans(&[(1, 2, 4)]);
    first.update_spans(&more, StatusChange::Delete);
    second.update_spans(&more, StatusChange::Delete);
    let mut third = Tracker::new(1);
    third.integrate(base).unwrap();
    third.integrate(x).unwrap();
    third.update_spans(&more, StatusChange::Delete);
    third.update_spans(&gone, StatusChange::Delete);
    assert_eq!(status_of(&third), status_of(&first));
    assert_eq!(visible(&third), vec![(1, 0), (2, 0), (2, 1)]);
}
