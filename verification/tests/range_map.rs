use loro_core::cursor_map::CursorMap;
use loro_core::id::ID;
use loro_core::range_map::RangeMap;
use loro_core::rle_tree::internal_impl::adopt;
use loro_core::rle_tree::leaf::LeafNode;
use loro_core::rle_tree::node::{InternalNode, Node};
use loro_core::rle_tree::{Arena, Position, MAX_CHILDREN_NUM, MIN_CHILDREN_NUM};
use loro_core::span::IdSpan;
use loro_core::y_span::YSpan;

#[test]
fn later_writes_win() {
    let mut m: RangeMap<u8> = RangeMap::new();
    assert_eq!(m.get(ID::new(1, 0)), None);
    m.set(IdSpan::new(1, 0, 10), 1);
    m.set(IdSpan::new(1, 3, 6), 2);
    m.set(IdSpan::new(2, 0, 2), 3);
    let got: Vec<Option<u8>> = (-1..11).map(|c| m.get(ID::new(1, c))).collect();
    assert_eq!(
        got,
        vec![None, Some(1), Some(1), Some(1), Some(2), Some(2), Some(2), Some(1), Some(1), Some(1), Some(1), None]
    );
    assert_eq!(m.get(ID::new(2, 1)), Some(3));
    assert!(m.has(ID::new(2, 0)));
    assert!(!m.has(ID::new(2, 2)));
    m.set(IdSpan::new(1, 5, 5), 9);
    assert_eq!(m.get(ID::new(1, 5)), Some(2));
    m.set(IdSpan::new(1, -3, 20), 7);
    assert_eq!(m.get(ID::new(1, 4)), Some(7));
    assert_eq!(m.entries.len(), 2);
    m.clear();
    assert!(!m.has(ID::new(1, 4)));
}

#[test]
fn the_cursor_map_remembers_the_last_leaf() {
    let mut m = CursorMap::new();
    m.set(IdSpan::new(1, 0, 4), 10);
    m.set(IdSpan::new(1, 2, 4), 11);
    assert_eq!(m.get(ID::new(1, 1)), Some(10));
    assert_eq!(m.get(ID::new(1, 2)), Some(11));
    assert_eq!(m.get(ID::new(1, 4)), None);
}

#[test]
fn handles_count_up() {
    let mut arena = Arena::new();
    assert_eq!(arena.fresh(), 0);
    assert_eq!(arena.fresh(), 1);
    let mut last = Arena { next: u64::MAX };
    assert_eq!(last.fresh(), u64::MAX);
    assert_eq!(last.fresh(), u64::MAX);
}

#[test]
fn an_empty_tree_takes_a_removal() {
    let mut arena = Arena::new();
    let mut map = CursorMap::new();
    let mut root = InternalNode::new(&mut arena, None);
    assert!(root.is_root());
    assert_eq!(root.children().len(), 0);
    root.delete(None, None, &mut arena, &mut map);
    root.delete(Some(0), Some(0), &mut arena, &mut map);
    assert_eq!(root.len(), 0);
    assert!(root.check());
}

#[test]
fn a_full_root_grows_a_level() {
    let mut arena = Arena::new();
    let mut map = CursorMap::new();
    let mut root = InternalNode::new(&mut arena, None);
    let mut k = 0;
    while root.check_level() == Some(1) {
        assert!(root.insert(0, YSpan::new(ID::new(k + 1, 0), 1, None, None), &mut arena, &mut map).is_ok());
        k += 1;
    }
    assert_eq!(k as usize, MAX_CHILDREN_NUM + 1 + 2 * (MAX_CHILDREN_NUM - 1));
    assert_eq!(root.check_level(), Some(2));
    assert_eq!(root.children().len(), 2);
    assert!(root.check());
    assert!(root._check_child_parent());
    for child in root.children().iter() {
        assert!(child.is_internal());
        assert!(child.children_num() >= 2);
    }
    assert_eq!(root.len(), k as usize);
    let first = root.find_pos_internal(0);
    assert_eq!((first.child_index, first.offset, first.pos, first.found), (0, 0, Position::Start, true));
    let left = root.children()[0].len();
    let edge = root.find_pos_internal(left);
    assert_eq!((edge.child_index, edge.offset, edge.pos), (0, left, Position::End));
    let inner = root.find_pos_internal(left + 1);
    assert_eq!((inner.child_index, inner.offset, inner.pos), (1, 1, Position::Middle));
    let past = root.find_pos_internal(k as usize + 3);
    assert_eq!((past.child_index, past.pos, past.found), (1, Position::After, false));
    assert_eq!(root._delete_start(left), (1, 0));
    assert_eq!(root._delete_end(1, 0, 2), 2);
    assert_eq!(root._delete_end(1, 1, usize::MAX), root.children()[1].len());
}

#[test]
fn a_non_root_node_hands_its_new_sibling_up() {
    let mut arena = Arena::new();
    let mut map = CursorMap::new();
    let mut node = InternalNode::new(&mut arena, Some(99));
    assert!(!node.is_root());
    let mut split = None;
    let mut k = 0;
    while split.is_none() {
        let r = node.insert(0, YSpan::new(ID::new(k + 1, 0), 1, None, None), &mut arena, &mut map);
        k += 1;
        if let Err(sibling) = r {
            split = Some(sibling);
        }
    }
    let sibling = split.unwrap();
    assert_eq!(sibling.parent, Some(99));
    assert_eq!(node.len() + sibling.len(), k as usize);
    assert!(node.check());
    assert!(sibling.check());
    assert!(node.children().len() >= 2 && sibling.children().len() >= 2);
    assert!(!node._check_child_parent() || node.children().iter().all(|c| match c {
        Node::Leaf(l) => l.parent == node.handle,
        Node::Internal(n) => n.parent == Some(node.handle),
    }));
}

#[test]
fn adopted_children_name_their_new_parent() {
    let mut arena = Arena::new();
    let mut children = vec![
        Node::Leaf(LeafNode::new(&mut arena, 1)),
        Node::Leaf(LeafNode::new(&mut arena, 1)),
        Node::Internal(InternalNode::new(&mut arena, Some(1))),
    ];
    adopt(&mut children, 1, 7);
    let parents: Vec<Option<u64>> = children
        .iter()
        .map(|c| match c {
            Node::Leaf(l) => Some(l.parent),
            Node::Internal(n) => n.parent,
        })
        .collect();
    assert_eq!(parents, vec![Some(1), Some(7), Some(7)]);
}

fn one_run(arena: &mut Arena, map: &mut CursorMap, len: usize) -> InternalNode {
    let mut root = InternalNode::new(arena, None);
    assert!(root.insert(0, YSpan::new(ID::new(1, 0), len, None, None), arena, map).is_ok());
    root
}

fn names(root: &InternalNode) -> Vec<(u64, i32)> {
    (0..root.len()).map(|i| root.atom_at(i)).map(|a| (a.id.peer, a.id.counter)).collect()
}

#[test]
fn the_first_insertion_makes_one_leaf() {
    let mut arena = Arena::new();
    let mut map = CursorMap::new();
    let root = one_run(&mut arena, &mut map, 10);
    assert_eq!(root.children().len(), 1);
    assert!(!root.children()[0].is_internal());
    assert_eq!(root.children()[0].children_num(), 1);
    assert_eq!(root.len(), 10);
    let leaf = map.get(ID::new(1, 0));
    assert!(leaf.is_some());
    assert_eq!(map.get(ID::new(1, 9)), leaf);
    assert!(root.check());
}

#[test]
fn removing_the_middle_of_a_run() {
    let mut arena = Arena::new();
    let mut map = CursorMap::new();
    let mut root = one_run(&mut arena, &mut map, 10);
    let before: Vec<_> = (3..7).map(|c| map.get(ID::new(1, c))).collect();
    assert!(root._delete(3, 7, &mut arena, &mut map).is_ok());
    assert_eq!(root.len(), 6);
    assert_eq!(root.children().len(), 1);
    assert_eq!(root.children()[0].children_num(), 2);
    assert_eq!(names(&root), vec![(1, 0), (1, 1), (1, 2), (1, 7), (1, 8), (1, 9)]);
    let after: Vec<_> = (3..7).map(|c| map.get(ID::new(1, c))).collect();
    assert_eq!(before, after);
    assert!(root.check());
}

#[test]
fn one_step_ends_with_the_leaf() {
    let mut arena = Arena::new();
    let mut map = CursorMap::new();
    let mut root = InternalNode::new(&mut arena, None);
    let mut n = 0;
    while root.check_level() == Some(1) {
        let at = root.len();
        assert!(root.insert(at, YSpan::new(ID::new(n + 1, 0), 1, None, None), &mut arena, &mut map).is_ok());
        n += 1;
    }
    let n = n as usize;
    assert_eq!(root._delete_start(1), (0, 1));
    let in_leaf = match &root.children()[0] {
        Node::Internal(inner) => inner.children()[0].len(),
        Node::Leaf(_) => unreachable!(),
    };
    assert!(in_leaf >= 2);
    assert!(root._delete_step(1, n, &mut arena, &mut map).is_ok());
    assert_eq!(root.len(), n - (in_leaf - 1));
    assert_eq!(names(&root)[0], (1, 0));
    assert_eq!(names(&root)[1], (in_leaf as u64 + 1, 0));
}

#[test]
fn a_whole_range_goes_at_once() {
    let mut arena = Arena::new();
    let mut map = CursorMap::new();
    let mut root = InternalNode::new(&mut arena, None);
    for k in 0..40u64 {
        let at = root.len();
        assert!(root.insert(at, YSpan::new(ID::new(k + 1, 0), 1, None, None), &mut arena, &mut map).is_ok());
    }
    let gone: Vec<_> = (5..33u64).map(|k| map.get(ID::new(k + 1, 0))).collect();
    let r = root._delete(5, 33, &mut arena, &mut map);
    let mut left = names(&root);
    if let Err(sibling) = &r {
        left.extend(names(sibling));
    }
    let mut expected: Vec<(u64, i32)> = (0..5u64).map(|k| (k + 1, 0)).collect();
    expected.extend((33..40u64).map(|k| (k + 1, 0)));
    assert_eq!(left, expected);
    assert!(r.is_ok());
    assert!(root.check());
    assert!(!(root.children().len() == 1 && root.children()[0].is_internal()));
    let still: Vec<_> = (5..33u64).map(|k| map.get(ID::new(k + 1, 0))).collect();
    assert_eq!(gone, still);
    for (peer, counter) in expected {
        let id = ID::new(peer, counter);
        let leaf = map.get(id).unwrap();
        assert!(root.find_in_leaf(leaf, id).is_some());
    }
}

#[test]
fn a_removal_from_an_empty_root_changes_nothing() {
    let mut arena = Arena::new();
    let mut map = CursorMap::new();
    let mut root = InternalNode::new(&mut arena, None);
    root.delete(Some(0), Some(1), &mut arena, &mut map);
    assert!(root.children().is_empty());
    assert!(root.is_root());
    assert_eq!(root.len(), 0);
    assert_eq!(map.get(ID::new(1, 0)), None);
    assert!(root.check());
}

#[test]
fn bounds_beyond_the_end_stand_for_the_end() {
    let mut arena = Arena::new();
    let mut map = CursorMap::new();
    let mut root = one_run(&mut arena, &mut map, 5);
    root.delete(Some(7), Some(9), &mut arena, &mut map);
    assert_eq!(root.len(), 5);
    root.delete(Some(4), Some(2), &mut arena, &mut map);
    assert_eq!(root.len(), 5);
    root.delete(Some(3), Some(100), &mut arena, &mut map);
    assert_eq!(names(&root), vec![(1, 0), (1, 1), (1, 2)]);
    assert!(root.check());
}

#[test]
fn removing_everything_leaves_a_bare_root() {
    let mut arena = Arena::new();
    let mut map = CursorMap::new();
    let mut root = InternalNode::new(&mut arena, None);
    for k in 0..100u64 {
        assert!(root.insert(0, YSpan::new(ID::new(k + 1, 0), 1, None, None), &mut arena, &mut map).is_ok());
    }
    assert!(root.check_level().unwrap() >= 3);
    root.delete(None, None, &mut arena, &mut map);
    assert_eq!(root.children().len(), 0);
    assert_eq!(root.len(), 0);
    assert!(root.is_root());
    assert_eq!(root.check_level(), Some(1));
    assert!(root.check());
}

#[test]
fn the_root_never_holds_a_lone_internal_child() {
    let mut arena = Arena::new();
    let mut map = CursorMap::new();
    let mut root = InternalNode::new(&mut arena, None);
    for k in 0..60u64 {
        let at = root.len();
        assert!(root.insert(at, YSpan::new(ID::new(k + 1, 0), 1, None, None), &mut arena, &mut map).is_ok());
        assert!(!(root.children().len() == 1 && root.children()[0].is_internal()));
    }
    while root.len() > 0 {
        let cut = if root.len() > 7 { 7 } else { root.len() };
        root.delete(Some(0), Some(cut), &mut arena, &mut map);
        assert!(!(root.children().len() == 1 && root.children()[0].is_internal()));
        assert!(root.check());
        assert!(root._check_child_parent());
    }
    assert_eq!(root.children().len(), 0);
}

fn leaf_with(arena: &mut Arena, map: &mut CursorMap, parent: u64, peer: u64) -> Node {
    let mut leaf = LeafNode::new(arena, parent);
    assert!(leaf.insert(0, YSpan::new(ID::new(peer, 0), 2, None, None), arena, map).is_ok());
    Node::Leaf(leaf)
}

#[test]
fn a_full_node_splits_into_one_child_more() {
    let mut arena = Arena::new();
    let mut map = CursorMap::new();
    let mut node = InternalNode::new(&mut arena, None);
    for k in 0..MAX_CHILDREN_NUM {
        let leaf = leaf_with(&mut arena, &mut map, node.handle, k as u64 + 1);
        assert!(node._insert_with_split(k, leaf, &mut arena).is_ok());
        assert_eq!(node.children().len(), k + 1);
    }
    let leaf = leaf_with(&mut arena, &mut map, node.handle, 9);
    let sibling = node._insert_with_split(1, leaf, &mut arena).unwrap_err();
    assert_eq!(node.children().len() + sibling.children().len(), MAX_CHILDREN_NUM + 1);
    assert!(node.children().len() >= 2 && sibling.children().len() >= 2);
    let mut order: Vec<u64> = Vec::new();
    for half in [&node, &sibling] {
        for child in half.children().iter() {
            match child {
                Node::Leaf(l) => {
                    assert_eq!(l.parent, half.handle);
                    order.push(l.atom_at(0).id.peer);
                },
                Node::Internal(_) => unreachable!(),
            }
        }
    }
    assert_eq!(order, vec![1, 9, 2, 3, 4]);
}

#[test]
fn a_new_level_holds_the_old_root_first() {
    let mut arena = Arena::new();
    let mut map = CursorMap::new();
    let mut root = InternalNode::new(&mut arena, None);
    let mut other = InternalNode::new(&mut arena, None);
    for k in 0..3usize {
        let leaf = leaf_with(&mut arena, &mut map, root.handle, k as u64 + 1);
        assert!(root._insert_with_split(k, leaf, &mut arena).is_ok());
    }
    for k in 0..2usize {
        let leaf = leaf_with(&mut arena, &mut map, other.handle, k as u64 + 11);
        assert!(other._insert_with_split(k, leaf, &mut arena).is_ok());
    }
    root.update_cache();
    other.update_cache();
    let other_handle = other.handle;
    root._create_level(other, &mut arena);
    assert!(root.is_root());
    assert_eq!(root.children().len(), 2);
    assert_eq!(root.check_level(), Some(2));
    assert_eq!(root.len(), 10);
    match (&root.children()[0], &root.children()[1]) {
        (Node::Internal(l), Node::Internal(r)) => {
            assert_eq!(l.children().len(), 3);
            assert_eq!(names(l), vec![(1, 0), (1, 1), (2, 0), (2, 1), (3, 0), (3, 1)]);
            assert_eq!(r.handle, other_handle);
            assert_eq!(names(r), vec![(11, 0), (11, 1), (12, 0), (12, 1)]);
            assert_eq!(l.parent, Some(root.handle));
            assert_eq!(r.parent, Some(root.handle));
        },
        _ => unreachable!(),
    }
    assert!(root.check());
    assert!(root._check_child_parent());
}

#[test]
fn only_a_root_may_hold_too_few_children() {
    let mut arena = Arena::new();
    let mut map = CursorMap::new();
    let root = InternalNode::new(&mut arena, None);
    assert!(root.check());
    let mut inner = InternalNode::new(&mut arena, Some(root.handle));
    assert!(!inner.check());
    let leaf = leaf_with(&mut arena, &mut map, inner.handle, 1);
    assert!(inner._insert_with_split(0, leaf, &mut arena).is_ok());
    inner.update_cache();
    assert_eq!(inner.children().len(), 1);
    assert!(!inner.check());
    assert!(inner.check_level().is_some());
    let leaf = leaf_with(&mut arena, &mut map, inner.handle, 2);
    assert!(inner._insert_with_split(1, leaf, &mut arena).is_ok());
    inner.update_cache();
    assert_eq!(inner.children().len(), MIN_CHILDREN_NUM);
    assert!(inner.check());
    inner.parent = None;
    assert!(inner.check());
}
