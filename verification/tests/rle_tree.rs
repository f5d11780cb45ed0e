use loro_core::cursor_map::CursorMap;
use loro_core::id::ID;
use loro_core::rle_tree::tree::RleTree;
use loro_core::y_span::YSpan;

fn span(peer: u64, counter: i32, len: usize) -> YSpan {
    YSpan::new(ID::new(peer, counter), len, None, None)
}

fn ids(tree: &RleTree) -> Vec<(u64, i32)> {
    let mut out = Vec::new();
    for i in 0..tree.len() {
        let a = tree.atom_at(i);
        out.push((a.id.peer, a.id.counter));
    }
    out
}

#[test]
fn insert_then_read_back_in_order() {
    let mut tree = RleTree::new();
    let mut map = CursorMap::new();
    tree.insert(0, span(1, 0, 3), &mut map);
    tree.insert(3, span(2, 0, 2), &mut map);
    tree.insert(1, span(3, 0, 1), &mut map);
    assert!(tree.check());
    assert_eq!(tree.len(), 6);
    assert_eq!(ids(&tree), vec![(1, 0), (3, 0), (1, 1), (1, 2), (2, 0), (2, 1)]);
}

fn resolves(tree: &RleTree, map: &CursorMap, id: ID) -> bool {
    match map.get(id) {
        Some(leaf) => tree.find_in_leaf(leaf, id).is_some(),
        None => false,
    }
}

#[test]
fn ten_thousand_insertions_and_removals() {
    let mut tree = RleTree::new();
    let mut map = CursorMap::new();
    let mut order: Vec<ID> = Vec::new();
    let mut seed: u64 = 0x2545f4914f6cdd1d;
    let n = 10_000usize;
    for k in 0..n {
        seed = seed.wrapping_mul(6364136223846793005).wrapping_add(1442695040888963407);
        let pos = ((seed >> 33) as usize) % (tree.len() + 1);
        let id = ID::new((k % 7) as u64 + 1, 2 * (k / 7) as i32);
        tree.insert(pos, YSpan::new(id, 1, None, None), &mut map);
        order.push(id);
        assert_eq!(tree.atom_at(pos).id, id);
        assert!(resolves(&tree, &map, id));
        if k % 100 == 0 {
            assert!(tree.check());
            assert!(tree.root._check_child_parent());
            for &seen in order.iter().step_by(37) {
                assert!(resolves(&tree, &map, seen));
            }
        }
    }
    assert!(tree.check());
    assert_eq!(tree.len(), n);
    assert!(tree.root.check_level().unwrap() > 4);
    for &id in order.iter() {
        assert!(resolves(&tree, &map, id));
    }
    for (k, &id) in order.iter().enumerate().rev() {
        let pos = tree.find_id(id).unwrap();
        tree.delete(Some(pos), Some(pos + 1), &mut map);
        if k % 100 == 0 {
            assert!(tree.check());
            assert!(tree.root._check_child_parent());
            for &left in order[..k].iter().step_by(37) {
                assert!(resolves(&tree, &map, left));
            }
        }
    }
    assert_eq!(tree.len(), 0);
    assert_eq!(tree.root.children().len(), 0);
    assert!(tree.check());
}

#[test]
fn split_and_merge_stress() {
    let mut tree = RleTree::new();
    let mut map = CursorMap::new();
    let mut model: Vec<(u64, i32)> = Vec::new();
    let mut seed: u64 = 0x9e3779b97f4a7c15;
    let n = 2000usize;
    for k in 0..n {
        seed = seed.wrapping_mul(6364136223846793005).wrapping_add(1442695040888963407);
        let pos = ((seed >> 33) as usize) % (model.len() + 1);
        tree.insert(pos, span(k as u64 + 1, 0, 1), &mut map);
        model.insert(pos, (k as u64 + 1, 0));
        if k % 97 == 0 {
            assert!(tree.check());
            assert_eq!(ids(&tree), model);
        }
    }
    assert!(tree.check());
    assert_eq!(ids(&tree), model);
    for k in (0..n).rev() {
        let id = ID::new(k as u64 + 1, 0);
        let pos = tree.find_id(id).unwrap();
        tree.delete(Some(pos), Some(pos + 1), &mut map);
        if k % 97 == 0 {
            assert!(tree.check());
        }
    }
    assert_eq!(tree.len(), 0);
    assert!(tree.check());
}

#[test]
fn runs_merge_and_split() {
    let mut tree = RleTree::new();
    let mut map = CursorMap::new();
    tree.insert(0, YSpan::new(ID::new(1, 0), 3, None, None), &mut map);
    tree.insert(3, YSpan::new(ID::new(1, 3), 2, Some(ID::new(1, 2)), None), &mut map);
    assert_eq!(tree.span_at(0).len, 5);
    assert_eq!(tree.iter_in(0, 5).len(), 1);
    tree.insert(2, YSpan::new(ID::new(2, 0), 1, Some(ID::new(1, 1)), Some(ID::new(1, 2))), &mut map);
    let runs = tree.iter_in(0, 6);
    assert_eq!(runs.iter().map(|r| (r.id, r.len)).collect::<Vec<_>>(), vec![
        (ID::new(1, 0), 2),
        (ID::new(2, 0), 1),
        (ID::new(1, 2), 3),
    ]);
    assert_eq!(runs[2].origin_left, Some(ID::new(1, 1)));
    tree.delete(Some(2), Some(3), &mut map);
    assert_eq!(tree.span_at(0).len, 5);
    assert_eq!(tree.iter_in(1, 4).iter().map(|r| (r.id, r.len)).collect::<Vec<_>>(), vec![
        (ID::new(1, 1), 3),
    ]);
    tree.delete(Some(1), Some(4), &mut map);
    assert_eq!(ids(&tree), vec![(1, 0), (1, 4)]);
    assert_eq!(tree.iter_in(0, 2).len(), 2);
    tree.delete(None, None, &mut map);
    assert_eq!(tree.len(), 0);
    assert!(tree.check());
}

#[test]
fn visible_positions() {
    let mut tree = RleTree::new();
    let mut map = CursorMap::new();
    tree.insert(0, YSpan::new(ID::new(1, 0), 6, None, None), &mut map);
    assert_eq!(tree.restyle(2, 2, loro_core::y_span::StatusChange::Delete, &mut map), 2);
    assert_eq!(tree.restyle(5, 9, loro_core::y_span::StatusChange::SetAsFuture, &mut map), 1);
    assert_eq!(tree.len(), 6);
    assert_eq!(tree.content_len(), 3);
    assert_eq!(tree.visible_to_pos(0), 0);
    assert_eq!(tree.visible_to_pos(1), 1);
    assert_eq!(tree.visible_to_pos(2), 4);
    assert_eq!((0..=6).map(|p| tree.visible_before(p)).collect::<Vec<_>>(), vec![0, 1, 2, 2, 2, 3, 3]);
    assert_eq!(tree.find_id(ID::new(1, 4)), Some(4));
    assert_eq!(tree.find_id(ID::new(1, 6)), None);
    assert!(tree.check());
}

#[test]
fn ranges_are_removed_as_from_a_list() {
    let mut seed: u64 = 0xfeed_beef;
    let mut next = move || {
        seed = seed.wrapping_mul(6364136223846793005).wrapping_add(1442695040888963407);
        (seed >> 33) as usize
    };
    for round in 0..6 {
        let mut tree = RleTree::new();
        let mut map = CursorMap::new();
        let mut model: Vec<(u64, i32)> = Vec::new();
        for k in 0..1500usize {
            let pos = next() % (model.len() + 1);
            let len = next() % 3 + 1;
            let peer = k as u64 + 1;
            tree.insert(pos, span(peer, 0, len), &mut map);
            for c in 0..len {
                model.insert(pos + c, (peer, c as i32));
            }
        }
        assert_eq!(ids(&tree), model);
        while !model.is_empty() {
            let from = next() % model.len();
            let width = match round {
                0 => next() % 4,
                1 => next() % 40,
                2 => next() % 400,
                _ => next() % (model.len() + 1),
            };
            let to = (from + width).min(model.len());
            tree.delete(Some(from), Some(to), &mut map);
            model.drain(from..to);
            assert!(tree.check());
            assert_eq!(tree.len(), model.len());
            if next() % 8 == 0 {
                assert_eq!(ids(&tree), model);
                for &(peer, counter) in model.iter().step_by(11) {
                    assert!(resolves(&tree, &map, ID::new(peer, counter)));
                }
            }
            if next() % 16 == 0 && !model.is_empty() {
                let cut = next() % model.len();
                if next() % 2 == 0 {
                    tree.delete(None, Some(cut), &mut map);
                    model.drain(..cut);
                } else {
                    tree.delete(Some(cut), None, &mut map);
                    model.truncate(cut);
                }
                assert!(tree.check());
                assert_eq!(ids(&tree), model);
            }
        }
        assert_eq!(tree.len(), 0);
        assert_eq!(tree.root.children().len(), 0);
    }
}

#[test]
fn a_new_tree_is_an_empty_root() {
    let tree = RleTree::new();
    assert_eq!(tree.len(), 0);
    assert_eq!(tree.content_len(), 0);
    assert_eq!(tree.root.children().len(), 0);
    assert_eq!(tree.root.handle, 0);
    assert_eq!(tree.root.parent, None);
    assert_eq!(tree.root.check_level(), Some(1));
    assert_eq!(tree.arena.next, 1);
    assert!(tree.check());
}

#[test]
fn a_removal_writes_only_at_what_stays() {
    let mut tree = RleTree::new();
    let mut map = CursorMap::new();
    for k in 0..200u64 {
        let at = (k as usize * 7) % (tree.len() + 1);
        tree.insert(at, span(k + 1, 0, 1), &mut map);
    }
    let order = ids(&tree);
    let gone: Vec<_> = order[20..150].iter().map(|&(p, c)| map.get(ID::new(p, c))).collect();
    tree.delete(Some(20), Some(150), &mut map);
    assert!(tree.check());
    let mut expected = order[..20].to_vec();
    expected.extend_from_slice(&order[150..]);
    assert_eq!(ids(&tree), expected);
    let still: Vec<_> = order[20..150].iter().map(|&(p, c)| map.get(ID::new(p, c))).collect();
    assert_eq!(gone, still);
    for (p, c) in expected {
        assert!(resolves(&tree, &map, ID::new(p, c)));
    }
    tree.delete(Some(3), Some(1000), &mut map);
    assert_eq!(tree.len(), 3);
    tree.delete(None, None, &mut map);
    assert_eq!(tree.root.children().len(), 0);
    tree.delete(Some(0), Some(1), &mut map);
    assert_eq!(tree.len(), 0);
    assert!(tree.check());
}
