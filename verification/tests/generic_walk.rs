use crdt_list::crdt::{GetOp, ListCrdt, OpSet};
use crdt_list::yata::Yata;
use loro_core::id::ID;
use loro_core::op_span_set::OpSpanSet;
use loro_core::tracker::Tracker;
use loro_core::y_span::YSpan;
use loro_core::yata_impl::YataImpl;
use std::cell::RefCell;
use std::cmp::Ordering;
use std::rc::Rc;

#[derive(Default)]
struct Seen(OpSpanSet);

impl OpSet<YSpan, ID> for Seen {
    fn insert(&mut self, value: &YSpan) {
        self.0.insert(value)
    }

    fn contain(&self, id: ID) -> bool {
        self.0.contain(id)
    }

    fn clear(&mut self) {
        self.0.clear()
    }
}

/// A tracker that its cursors can reach.
#[derive(Debug)]
struct Shared(Rc<RefCell<Tracker>>);

/// A run of the tracker and the position of its last item.
struct At {
    tracker: Rc<RefCell<Tracker>>,
    run: YSpan,
    last: usize,
}

impl GetOp for At {
    type Target = YSpan;

    fn get_op(&self) -> YSpan {
        self.run
    }
}

/// The library's sequence under the traits of the generic walk of `crdt_list`.
struct Generic;

impl ListCrdt for Generic {
    type OpUnit = YSpan;
    type OpId = ID;
    type Container = Shared;
    type Set = Seen;
    type Cursor<'a> = At;
    type Iterator<'a> = std::vec::IntoIter<At>;

    fn iter(container: &mut Shared, from: Option<ID>, to: Option<ID>) -> Self::Iterator<'_> {
        let tracker = container.0.borrow();
        let mut pos = match from {
            Some(id) => tracker.get_cursor(id).unwrap().pos + 1,
            None => 0,
        };
        let mut out = Vec::new();
        for run in YataImpl::iter(&tracker, from, to) {
            pos += run.len;
            out.push(At { tracker: container.0.clone(), run, last: pos - 1 });
        }
        out.into_iter()
    }

    fn id(op: &YSpan) -> ID {
        YataImpl::id(op)
    }

    fn cmp_id(op_a: &YSpan, op_b: &YSpan) -> Ordering {
        YataImpl::cmp_id(op_a, op_b)
    }

    fn contains(op: &YSpan, id: ID) -> bool {
        YataImpl::contains(op, id)
    }
}

impl Yata for Generic {
    type Context = ();

    fn left_origin(op: &YSpan) -> Option<ID> {
        YataImpl::left_origin(op)
    }

    fn right_origin(op: &YSpan) -> Option<ID> {
        YataImpl::right_origin(op)
    }

    fn insert_after(anchor: At, op: YSpan, _: &mut ()) {
        YataImpl::insert_after(&mut anchor.tracker.borrow_mut(), anchor.last, op)
    }

    fn insert_after_id(container: &mut Shared, id: Option<ID>, op: YSpan, _: &mut ()) {
        YataImpl::insert_after_id(&mut container.0.borrow_mut(), id, op)
    }
}

fn integrate_by_generic_walk(shared: &mut Shared, op: YSpan) {
    let fresh = shared.0.borrow().fresh_part(&op).unwrap();
    if let Some(fresh) = fresh {
        crdt_list::yata::integrate::<Generic>(shared, fresh, &mut ());
    }
}

fn next(seed: &mut u64) -> usize {
    *seed = seed.wrapping_mul(6364136223846793005).wrapping_add(1442695040888963407);
    (*seed >> 33) as usize
}

fn items(t: &Tracker) -> Vec<(u64, i32)> {
    (0..t.len()).map(|i| t.content.atom_at(i)).map(|a| (a.id.peer, a.id.counter)).collect()
}

/// Replicas make insertions and exchange them; every replica integrates
/// every operation twice, once by the library's walk and once by the walk
/// of `crdt_list`, and the two sequences are the same after each one.
#[test]
fn the_library_walk_places_as_the_generic_walk_does() {
    for start in 0..12u64 {
        let mut seed = 0x5eed_0000 + start;
        let n = 4usize;
        let mut by_library: Vec<Tracker> = (0..n).map(|i| Tracker::new(i as u64 + 1)).collect();
        let mut by_generic: Vec<Shared> =
            (0..n).map(|i| Shared(Rc::new(RefCell::new(Tracker::new(i as u64 + 1))))).collect();
        let mut logs: Vec<Vec<YSpan>> = vec![Vec::new(); n];
        let mut taken: Vec<Vec<usize>> = vec![vec![0; n]; n];
        for _ in 0..150 {
            let who = next(&mut seed) % n;
            if next(&mut seed) % 3 != 0 {
                let op = YataImpl::new_op(&by_library[who], next(&mut seed));
                logs[who].push(op);
                taken[who][who] += 1;
                by_library[who].integrate(op).unwrap();
                integrate_by_generic_walk(&mut by_generic[who], op);
            } else {
                let from = (who + 1 + next(&mut seed) % (n - 1)) % n;
                let mut pending: Vec<YSpan> = Vec::new();
                for source in 0..n {
                    let upto = taken[from][source];
                    while taken[who][source] < upto {
                        pending.push(logs[source][taken[who][source]]);
                        taken[who][source] += 1;
                    }
                }
                while !pending.is_empty() {
                    let mut rest = Vec::new();
                    let before = pending.len();
                    for op in pending {
                        if by_library[who].can_integrate(&op) {
                            by_library[who].integrate(op).unwrap();
                            integrate_by_generic_walk(&mut by_generic[who], op);
                            assert_eq!(items(&by_library[who]), items(&by_generic[who].0.borrow()));
                        } else {
                            rest.push(op);
                        }
                    }
                    assert!(rest.len() < before);
                    pending = rest;
                }
            }
            assert!(by_library[who].is_content_eq(&by_generic[who].0.borrow()));
        }
    }
}
