use loro_core::id::ID;
use loro_core::y_span::{Status, StatusChange, YSpan};

#[test]
fn status_changes_count_up_and_down() {
    let mut s = Status::new();
    assert!(s.is_visible());
    s.apply_change(StatusChange::SetAsFuture);
    assert_eq!(s, Status { future_count: 1, delete_times: 0 });
    assert!(!s.is_visible());
    s.apply_change(StatusChange::Delete);
    assert_eq!(s, Status { future_count: 1, delete_times: 1 });
    s.apply_change(StatusChange::SetAsCurrent);
    assert_eq!(s, Status { future_count: 0, delete_times: 1 });
    assert!(!s.is_visible());
    s.apply_change(StatusChange::UndoDelete);
    assert_eq!(s, Status::new());
    assert!(s.is_visible());
    s.apply_change(StatusChange::SetAsCurrent);
    s.apply_change(StatusChange::UndoDelete);
    assert_eq!(s, Status::new());
    assert_eq!(Status::future(), Status { future_count: 1, delete_times: 0 });
}

#[test]
fn status_counts_stop_at_the_top() {
    let mut s = Status { future_count: u32::MAX, delete_times: u32::MAX };
    s.apply_change(StatusChange::SetAsFuture);
    s.apply_change(StatusChange::Delete);
    assert_eq!(s, Status { future_count: u32::MAX, delete_times: u32::MAX });
    s.apply_change(StatusChange::SetAsCurrent);
    assert_eq!(s.future_count, u32::MAX - 1);
    assert!(s.eq_status(&Status { future_count: u32::MAX - 1, delete_times: u32::MAX }));
}

#[test]
fn a_slice_is_anchored_to_the_item_before_it() {
    let run = YSpan::new(ID::new(4, 10), 6, Some(ID::new(1, 1)), Some(ID::new(2, 2)));
    assert!(run.check());
    let left = run.slice(0, 2);
    let right = run.slice(2, 6);
    assert_eq!(left, YSpan::new(ID::new(4, 10), 2, Some(ID::new(1, 1)), Some(ID::new(2, 2))));
    assert_eq!(right, YSpan::new(ID::new(4, 12), 4, Some(ID::new(4, 11)), Some(ID::new(2, 2))));
    assert_eq!(run.slice(0, 6), run);
    assert_eq!(run.last_id(), ID::new(4, 15));
    assert_eq!(run.atom_len(), 6);
    assert_eq!(run.content_len(), 6);
    assert!(run.contains_id(ID::new(4, 15)));
    assert!(!run.contains_id(ID::new(4, 16)));
    assert!(!run.contains_id(ID::new(5, 12)));
    let a = run.atom_at(3);
    assert_eq!((a.id, a.origin_left, a.origin_right), (ID::new(4, 13), Some(ID::new(4, 12)), Some(ID::new(2, 2))));
    assert_eq!(run.atom_at(0).origin_left, Some(ID::new(1, 1)));

    let mut joined = left;
    assert!(joined.is_mergable(&right));
    joined.merge(&right);
    assert_eq!(joined, run);
}

#[test]
fn runs_that_do_not_continue_each_other() {
    let a = YSpan::new(ID::new(1, 0), 2, None, None);
    let next = |left: Option<ID>, right: Option<ID>, peer: u64, counter: i32| {
        YSpan::new(ID::new(peer, counter), 1, left, right)
    };
    assert!(a.is_mergable(&next(Some(ID::new(1, 1)), None, 1, 2)));
    assert!(!a.is_mergable(&next(Some(ID::new(1, 0)), None, 1, 2)));
    assert!(!a.is_mergable(&next(None, None, 1, 2)));
    assert!(!a.is_mergable(&next(Some(ID::new(1, 1)), Some(ID::new(3, 0)), 1, 2)));
    assert!(!a.is_mergable(&next(Some(ID::new(1, 1)), None, 1, 3)));
    assert!(!a.is_mergable(&next(Some(ID::new(1, 1)), None, 2, 2)));
    let mut deleted = next(Some(ID::new(1, 1)), None, 1, 2);
    deleted.status.apply_change(StatusChange::Delete);
    assert!(!a.is_mergable(&deleted));
    assert_eq!(deleted.content_len(), 0);
    assert_eq!(deleted.atom_len(), 1);
}

#[test]
fn invalid_runs() {
    assert!(!YSpan::new(ID::new(1, 0), 0, None, None).check());
    assert!(!YSpan::new(ID::new(1, i32::MAX), 1, None, None).check());
    assert!(YSpan::new(ID::new(1, i32::MAX - 1), 1, None, None).check());
    assert!(YSpan::new(ID::new(1, -5), 4, None, None).check());
    assert!(!YSpan::new(ID::new(1, 0), usize::MAX, None, None).check());
}
