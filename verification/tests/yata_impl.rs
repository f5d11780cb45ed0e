use crdt_list::crdt::{GetOp, ListCrdt, OpSet};
use crdt_list::test::{Action, TestFramework};
use loro_core::id::ID;
use loro_core::op_span_set::OpSpanSet;
use loro_core::tracker::Tracker;
use loro_core::version::IdSpanVector;
use loro_core::y_span::{Status, YSpan};
use loro_core::yata_impl::YataImpl;
use std::cmp::Ordering;

#[test]
fn test() {
    let mut set = OpSpanSet::default();
    set.insert(&YSpan {
        id: ID::new(1, 10),
        len: 10,
        origin_left: Some(ID::new(0, 1)),
        origin_right: Some(ID::new(0, 2)),
        status: Status::new(),
    });
    assert!(set.contain(ID::new(1, 10)));
    assert!(set.contain(ID::new(1, 11)));
    assert!(set.contain(ID::new(1, 18)));
    assert!(set.contain(ID::new(1, 19)));

    assert!(!set.contain(ID::new(1, 8)));
    assert!(!set.contain(ID::new(1, 9)));
    assert!(!set.contain(ID::new(1, 20)));
    assert!(!set.contain(ID::new(1, 21)));
}

/// The set of the framework, kept in the library's set.
#[derive(Default)]
struct Visited(OpSpanSet);

impl OpSet<YSpan, ID> for Visited {
    fn insert(&mut self, value: &YSpan) {
        self.0.insert(value)
    }

    fn contain(&self, id: ID) -> bool {
        self.0.contain(id)
    }

    fn clear(&mut self) {
        self.0.clear()
    }
}

struct Run(YSpan);

impl GetOp for Run {
    type Target = YSpan;

    fn get_op(&self) -> YSpan {
        self.0
    }
}

/// The library's operations under the traits of the framework.
struct Harness;

impl ListCrdt for Harness {
    type OpUnit = YSpan;
    type OpId = ID;
    type Container = Tracker;
    type Set = Visited;
    type Cursor<'a> = Run;
    type Iterator<'a> = std::vec::IntoIter<Run>;

    fn iter(container: &mut Tracker, from: Option<ID>, to: Option<ID>) -> Self::Iterator<'_> {
        let runs: Vec<Run> = YataImpl::iter(container, from, to).into_iter().map(Run).collect();
        runs.into_iter()
    }

    fn id(op: &YSpan) -> ID {
        YataImpl::id(op)
    }

    fn cmp_id(op_a: &YSpan, op_b: &YSpan) -> Ordering {
        YataImpl::cmp_id(op_a, op_b)
    }

    fn contains(op: &YSpan, id: ID) -> bool {
        YataImpl::contains(op, id)
    }
}

impl TestFramework for Harness {
    type DeleteOp = IdSpanVector;

    fn is_content_eq(a: &Tracker, b: &Tracker) -> bool {
        let eq = YataImpl::is_content_eq(a, b);
        assert!(eq);
        eq
    }

    fn new_container(id: usize) -> Tracker {
        YataImpl::new_container(id)
    }

    fn new_op(_: &mut impl rand::Rng, container: &mut Tracker, pos: usize) -> YSpan {
        YataImpl::new_op(container, pos)
    }

    fn new_del_op(container: &Tracker, pos: usize, len: usize) -> IdSpanVector {
        YataImpl::new_del_op(container, pos, len)
    }

    fn integrate_delete_op(container: &mut Tracker, op: IdSpanVector) {
        YataImpl::integrate_delete_op(container, op)
    }

    fn integrate(container: &mut Tracker, op: YSpan) {
        YataImpl::integrate(container, op).unwrap();
        assert!(container.content.check());
    }

    fn can_integrate(container: &Tracker, op: &YSpan) -> bool {
        YataImpl::can_integrate(container, op)
    }
}

#[test]
fn issue_1() {
    crdt_list::test::test_with_actions::<Harness>(
        5,
        100,
        vec![
            Action::NewOp { client_id: 177, pos: 41 },
            Action::Delete { client_id: 255, pos: 255, len: 255 },
            Action::NewOp { client_id: 162, pos: 162 },
            Action::Delete { client_id: 255, pos: 255, len: 229 },
            Action::Delete { client_id: 150, pos: 227, len: 1 },
            Action::NewOp { client_id: 255, pos: 255 },
            Action::Delete { client_id: 255, pos: 255, len: 0 },
            Action::Sync { from: 0, to: 0 },
            Action::Sync { from: 0, to: 48 },
            Action::Sync { from: 0, to: 0 },
            Action::NewOp { client_id: 150, pos: 150 },
            Action::Delete { client_id: 63, pos: 229, len: 229 },
            Action::Delete { client_id: 175, pos: 175, len: 255 },
            Action::Delete { client_id: 237, pos: 237, len: 237 },
            Action::Delete { client_id: 237, pos: 237, len: 237 },
            Action::Delete { client_id: 229, pos: 229, len: 229 },
            Action::NewOp { client_id: 58, pos: 255 },
            Action::Delete { client_id: 255, pos: 255, len: 255 },
            Action::Delete { client_id: 175, pos: 175, len: 175 },
            Action::Delete { client_id: 175, pos: 175, len: 175 },
            Action::Delete { client_id: 175, pos: 237, len: 237 },
            Action::Delete { client_id: 237, pos: 237, len: 237 },
            Action::Delete { client_id: 237, pos: 237, len: 237 },
            Action::Delete { client_id: 237, pos: 237, len: 237 },
            Action::Delete { client_id: 255, pos: 255, len: 255 },
            Action::Delete { client_id: 255, pos: 255, len: 255 },
            Action::Delete { client_id: 255, pos: 255, len: 255 },
            Action::Sync { from: 48, to: 175 },
            Action::Delete { client_id: 175, pos: 175, len: 175 },
            Action::Delete { client_id: 175, pos: 175, len: 175 },
            Action::Delete { client_id: 175, pos: 237, len: 237 },
            Action::Delete { client_id: 237, pos: 237, len: 237 },
            Action::Delete { client_id: 175, pos: 175, len: 229 },
            Action::Delete { client_id: 237, pos: 237, len: 237 },
            Action::Delete { client_id: 237, pos: 237, len: 229 },
            Action::Delete { client_id: 229, pos: 114, len: 223 },
            Action::Delete { client_id: 255, pos: 229, len: 255 },
            Action::Delete { client_id: 175, pos: 175, len: 175 },
            Action::Delete { client_id: 175, pos: 175, len: 175 },
            Action::Delete { client_id: 175, pos: 175, len: 175 },
            Action::Delete { client_id: 237, pos: 237, len: 237 },
            Action::Delete { client_id: 237, pos: 237, len: 237 },
            Action::Delete { client_id: 255, pos: 255, len: 255 },
            Action::Delete { client_id: 255, pos: 255, len: 255 },
            Action::Delete { client_id: 196, pos: 150, len: 150 },
            Action::Sync { from: 162, to: 162 },
            Action::NewOp { client_id: 162, pos: 162 },
            Action::NewOp { client_id: 162, pos: 162 },
            Action::NewOp { client_id: 162, pos: 162 },
            Action::NewOp { client_id: 162, pos: 162 },
            Action::Sync { from: 81, to: 162 },
            Action::Sync { from: 0, to: 0 },
            Action::Sync { from: 162, to: 162 },
            Action::Sync { from: 0, to: 0 },
            Action::Sync { from: 0, to: 0 },
            Action::Sync { from: 0, to: 162 },
            Action::NewOp { client_id: 162, pos: 162 },
            Action::NewOp { client_id: 162, pos: 162 },
            Action::NewOp { client_id: 233, pos: 162 },
            Action::NewOp { client_id: 150, pos: 150 },
            Action::Delete { client_id: 255, pos: 255, len: 255 },
            Action::Sync { from: 0, to: 0 },
            Action::Delete { client_id: 175, pos: 255, len: 255 },
            Action::Delete { client_id: 229, pos: 229, len: 196 },
            Action::NewOp { client_id: 162, pos: 162 },
            Action::NewOp { client_id: 162, pos: 162 },
            Action::NewOp { client_id: 162, pos: 162 },
            Action::NewOp { client_id: 162, pos: 1 },
            Action::NewOp { client_id: 162, pos: 255 },
            Action::Delete { client_id: 229, pos: 229, len: 229 },
            Action::Sync { from: 255, to: 255 },
            Action::Sync { from: 255, to: 162 },
            Action::NewOp { client_id: 162, pos: 162 },
        ],
    )
}

#[test]
fn normalize() {
    let mut actions = vec![
        Action::NewOp { client_id: 129, pos: 142 },
        Action::NewOp { client_id: 0, pos: 85 },
        Action::Sync { from: 85, to: 86 },
        Action::NewOp { client_id: 129, pos: 129 },
        Action::Sync { from: 129, to: 129 },
        Action::NewOp { client_id: 106, pos: 106 },
        Action::NewOp { client_id: 1, pos: 0 },
        Action::NewOp { client_id: 129, pos: 106 },
    ];

    crdt_list::test::normalize_actions(&mut actions, 5, 100);
    println!("{:?}", actions);
}

#[test]
fn random_rounds_converge() {
    for seed in 0..20u64 {
        crdt_list::test::test::<Harness>(seed, 4, 120);
    }
}

#[test]
fn a_run_without_items_adds_nothing() {
    let mut set = OpSpanSet::default();
    set.insert(&YSpan::new(ID::new(3, 4), 0, None, None));
    assert!(!set.contain(ID::new(3, 4)));
    assert!(!set.contain(ID::new(3, 3)));
    set.insert(&YSpan::new(ID::new(3, i32::MAX - 2), 2, None, None));
    assert!(set.contain(ID::new(3, i32::MAX - 2)));
    assert!(set.contain(ID::new(3, i32::MAX - 1)));
    assert!(!set.contain(ID::new(3, i32::MAX - 3)));
}
