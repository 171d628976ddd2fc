use simple_db::node::{NodePtr, Status};
use simple_db::order::{Relation, TotalOrder};
use simple_db::tree::RedBlackTree;

/// Black height below `p`, or `None` where the subtree breaks a rule:
/// a red node under a red parent, unequal black heights, a child that does
/// not point back, or a key out of order.
fn black_height(
    tree: &RedBlackTree<u8, u8>,
    p: NodePtr,
    parent: NodePtr,
    low: Option<u8>,
    high: Option<u8>,
) -> Option<u32> {
    if p.is_null() {
        return Some(0);
    }
    if p.get_parent(tree) != parent {
        return None;
    }
    let key = p.key(tree).unwrap();
    if low.map_or(false, |l| key <= l) || high.map_or(false, |h| key >= h) {
        return None;
    }
    if p.is_red(tree) && parent.is_red(tree) {
        return None;
    }
    let left = p.left(tree);
    let right = p.right(tree);
    if !left.is_null() && !left.is_left(tree) {
        return None;
    }
    if !right.is_null() && !right.is_right(tree) {
        return None;
    }
    let l = black_height(tree, left, p, low, Some(key))?;
    let r = black_height(tree, right, p, Some(key), high)?;
    if l != r {
        return None;
    }
    Some(l + if p.is_black(tree) { 1 } else { 0 })
}

fn is_red_black(tree: &RedBlackTree<u8, u8>) -> bool {
    if tree.root.is_null() {
        return tree.size == 0;
    }
    tree.root.is_black(tree)
        && tree.root.is_root(tree)
        && black_height(tree, tree.root, NodePtr::null(), None, None).is_some()
}

fn keys_in_order(tree: &mut RedBlackTree<u8, u8>) -> Vec<u8> {
    let mut keys = Vec::new();
    let mut iter = tree.root.into_iter();
    while let Some(node) = iter.next(tree) {
        keys.push(node.key(tree).unwrap());
    }
    keys
}

/// A fixed shuffle of 1..=59.
fn shuffled() -> Vec<u8> {
    let mut keys: Vec<u8> = (1..60).collect();
    let mut state: u32 = 12345;
    for i in (1..keys.len()).rev() {
        state = state.wrapping_mul(1103515245).wrapping_add(12345);
        let j = (state >> 16) as usize % (i + 1);
        keys.swap(i, j);
    }
    keys
}

#[test]
fn invariants_hold_after_each_ascending_insertion() {
    let mut rb = RedBlackTree::<u8, u8>::new();
    assert!(is_red_black(&rb));
    for i in 1..60 {
        rb.insert_or_replace(i, i, 0, Status::Available);
        assert!(is_red_black(&rb));
        assert_eq!(rb.size, i as u64);
        assert_eq!(keys_in_order(&mut rb), (1..=i).collect::<Vec<u8>>());
        assert!(is_red_black(&rb));
    }
}

#[test]
fn invariants_hold_after_each_descending_insertion() {
    let mut rb = RedBlackTree::<u8, u8>::new();
    for i in (1..60).rev() {
        rb.insert_or_replace(i, i, 0, Status::Available);
        assert!(is_red_black(&rb));
        assert_eq!(keys_in_order(&mut rb), (i..60).collect::<Vec<u8>>());
    }
}

#[test]
fn invariants_hold_after_each_shuffled_insertion() {
    let mut rb = RedBlackTree::<u8, u8>::new();
    let mut seen: Vec<u8> = Vec::new();
    for k in shuffled() {
        rb.insert_or_replace(k, k, 0, Status::Available);
        seen.push(k);
        seen.sort();
        assert!(is_red_black(&rb));
        assert_eq!(keys_in_order(&mut rb), seen);
    }
    assert_eq!(rb.size, 59);
}

#[test]
fn random_insertions() {
    let mut rb = RedBlackTree::<u8, u8>::new();
    for k in shuffled() {
        rb.insert_or_replace(k, k, 0, Status::Available);
    }
    let mut iter = rb.root.into_iter();
    for i in 1..60 {
        assert_eq!(Some(i), iter.next(&mut rb).unwrap().value(&rb));
    }
    assert_eq!(None, iter.next(&mut rb));
}

#[test]
fn traversal_leaves_the_tree_as_it_was() {
    let mut rb = RedBlackTree::<u8, u8>::new();
    for k in shuffled() {
        rb.insert_or_replace(k, k, 0, Status::Available);
    }
    let links = |tree: &RedBlackTree<u8, u8>| -> Vec<(NodePtr, NodePtr, NodePtr)> {
        (1..60u8)
            .map(|k| {
                let n = tree.find_node(&k);
                (n.left(tree), n.right(tree), n.get_parent(tree))
            })
            .collect()
    };
    let before = links(&rb);
    assert_eq!(keys_in_order(&mut rb), (1..60).collect::<Vec<u8>>());
    assert_eq!(links(&rb), before);
    // and a second traversal gives the same
    assert_eq!(keys_in_order(&mut rb), (1..60).collect::<Vec<u8>>());
}

#[test]
fn traversal_of_an_empty_tree_gives_nothing() {
    let mut rb = RedBlackTree::<u8, u8>::new();
    let mut iter = rb.root.into_iter();
    assert_eq!(iter.next(&mut rb), None);
    assert_eq!(iter.next(&mut rb), None);
}

#[test]
fn overwrite_keeps_one_node_for_the_key() {
    let mut rb = RedBlackTree::<u8, u8>::new();
    rb.insert_or_replace(5, 1, 10, Status::Available);
    rb.insert_or_replace(3, 2, 10, Status::Available);
    let size = rb.size;
    let slots = rb.nodes.len();
    // the later call wins, whatever its timestamp
    rb.insert_or_replace(5, 9, 4, Status::Available);
    assert_eq!(rb.size, size);
    assert_eq!(rb.nodes.len(), slots);
    assert_eq!(rb.value(&5), Some(9));
    assert_eq!(rb.find_node(&5).timestamp(&rb), Some(4));
    let mut iter = rb.root.into_iter();
    let mut seen = Vec::new();
    while let Some(node) = iter.next(&mut rb) {
        seen.push((node.key(&rb).unwrap(), node.value(&rb).unwrap()));
    }
    assert_eq!(seen, vec![(3, 2), (5, 9)]);
}

#[test]
fn bent_insertions_rotate_twice() {
    // left child, then its right child
    let mut rb = RedBlackTree::<u8, u8>::new();
    rb.insert_or_replace(3, 30, 0, Status::Available);
    rb.insert_or_replace(1, 10, 0, Status::Available);
    rb.insert_or_replace(2, 20, 0, Status::Available);
    let top = rb.find_node(&2);
    assert_eq!(rb.root, top);
    assert!(top.is_black(&rb) && top.is_root(&rb));
    assert_eq!(top.left(&rb), rb.find_node(&1));
    assert_eq!(top.right(&rb), rb.find_node(&3));
    assert!(rb.find_node(&1).is_red(&rb) && rb.find_node(&3).is_red(&rb));
    assert!(is_red_black(&rb));

    // right child, then its left child
    let mut rb = RedBlackTree::<u8, u8>::new();
    rb.insert_or_replace(1, 10, 0, Status::Available);
    rb.insert_or_replace(3, 30, 0, Status::Available);
    rb.insert_or_replace(2, 20, 0, Status::Available);
    let top = rb.find_node(&2);
    assert_eq!(rb.root, top);
    assert_eq!(top.left(&rb), rb.find_node(&1));
    assert_eq!(top.right(&rb), rb.find_node(&3));
    assert!(rb.find_node(&1).is_left(&rb) && rb.find_node(&3).is_right(&rb));
    assert!(is_red_black(&rb));
}

#[test]
fn straight_insertions_on_the_right_rotate_left() {
    let mut rb = RedBlackTree::<u8, u8>::new();
    rb.insert_or_replace(1, 10, 0, Status::Available);
    rb.insert_or_replace(2, 20, 0, Status::Available);
    rb.insert_or_replace(3, 30, 0, Status::Available);
    let top = rb.find_node(&2);
    assert_eq!(rb.root, top);
    assert!(top.is_black(&rb));
    assert_eq!(top.left(&rb), rb.find_node(&1));
    assert_eq!(top.right(&rb), rb.find_node(&3));
    assert!(rb.find_node(&1).is_red(&rb) && rb.find_node(&3).is_red(&rb));
}

#[test]
fn color_flip_moves_the_fault_up() {
    // ascending keys flip colors at 4 and again at 6, where the red
    // grandparent meets a red parent and a rotation ends it
    let mut rb = RedBlackTree::<u8, u8>::new();
    for k in 1..=6 {
        rb.insert_or_replace(k, k, 0, Status::Available);
        assert!(is_red_black(&rb));
    }
    for k in 7..=8 {
        rb.insert_or_replace(k, k, 0, Status::Available);
    }
    assert!(is_red_black(&rb));
    assert_eq!(rb.root, rb.find_node(&4));
}

#[test]
fn rotations_keep_the_order() {
    let mut rb = RedBlackTree::<u8, u8>::new();
    for k in [4u8, 2, 6, 1, 3, 5, 7] {
        rb.insert_or_replace(k, k, 0, Status::Available);
    }
    let root = rb.root;
    rb.left_rotate(root);
    assert_eq!(rb.root, rb.find_node(&6));
    assert_eq!(rb.find_node(&4).get_parent(&rb), rb.find_node(&6));
    assert_eq!(rb.find_node(&4).right(&rb), rb.find_node(&5));
    assert_eq!(rb.find_node(&5).get_parent(&rb), rb.find_node(&4));
    assert!(rb.find_node(&5).is_right(&rb));
    assert!(rb.find_node(&4).is_left(&rb));
    assert!(rb.find_node(&6).is_root(&rb));
    assert_eq!(keys_in_order(&mut rb), vec![1, 2, 3, 4, 5, 6, 7]);
    let root = rb.root;
    rb.right_rotate(root);
    assert_eq!(rb.root, rb.find_node(&4));
    assert_eq!(rb.find_node(&6).left(&rb), rb.find_node(&5));
    assert!(is_red_black(&rb));
    let root = rb.root;
    rb.left_right_rotate(root);
    assert_eq!(rb.root, rb.find_node(&3));
    assert_eq!(rb.find_node(&3).left(&rb), rb.find_node(&2));
    assert_eq!(rb.find_node(&3).right(&rb), rb.find_node(&4));
    assert_eq!(keys_in_order(&mut rb), vec![1, 2, 3, 4, 5, 6, 7]);
    // 4 has no left child now, and 5 is the left child of its right child
    let pivot = rb.find_node(&4);
    rb.right_left_rotate(pivot);
    assert_eq!(rb.root, rb.find_node(&3));
    assert_eq!(rb.find_node(&3).right(&rb), rb.find_node(&5));
    assert_eq!(rb.find_node(&5).left(&rb), rb.find_node(&4));
    assert_eq!(rb.find_node(&5).right(&rb), rb.find_node(&6));
    assert!(rb.find_node(&6).left(&rb).is_null());
    assert!(rb.find_node(&4).right(&rb).is_null());
    assert!(rb.find_node(&5).is_right(&rb));
    assert_eq!(keys_in_order(&mut rb), vec![1, 2, 3, 4, 5, 6, 7]);
}

#[test]
fn lookups_on_absent_keys() {
    let mut rb = RedBlackTree::<u8, u8>::new();
    assert!(rb.find_node(&1).is_null());
    assert!(!rb.has_node(&1));
    assert_eq!(rb.value(&1), None);
    assert!(!rb.check_key_deleted(&1));
    rb.insert_or_replace(2, 20, 0, Status::Available);
    assert!(rb.find_node(&1).is_null());
    assert!(rb.find_node(&3).is_null());
    assert!(!rb.has_node(&3));
    assert!(rb.has_node(&2));
}

#[test]
fn delete_key_tombstones_in_place() {
    let mut rb = RedBlackTree::<u8, u8>::new();
    rb.insert_or_replace(2, 20, 1, Status::Available);
    assert!(!rb.check_key_deleted(&2));
    rb.delete_key(&2, 7);
    assert!(rb.check_key_deleted(&2));
    assert!(rb.has_node(&2));
    assert_eq!(rb.value(&2), Some(20));
    assert_eq!(rb.find_node(&2).timestamp(&rb), Some(7));
    assert!(rb.find_node(&2).is_deleted(&rb));
    assert_eq!(rb.size, 1);
}

#[test]
fn delete_key_of_an_absent_key_leaves_a_placeholder() {
    let mut rb = RedBlackTree::<u8, u8>::new();
    rb.insert_or_replace(2, 20, 1, Status::Available);
    rb.delete_key(&9, 5);
    assert_eq!(rb.size, 2);
    assert!(rb.has_node(&9));
    assert!(rb.check_key_deleted(&9));
    assert_eq!(rb.value(&9), Some(0));
    assert_eq!(rb.find_node(&9).timestamp(&rb), Some(5));
    assert!(is_red_black(&rb));
    // a later write brings the key back
    rb.insert_or_replace(9, 90, 6, Status::Available);
    assert!(!rb.check_key_deleted(&9));
    assert_eq!(rb.size, 2);
}

#[test]
fn handles_read_absent_nodes_as_black_and_empty() {
    let mut rb = RedBlackTree::<u8, u8>::new();
    rb.insert_or_replace(2, 20, 1, Status::Available);
    for p in [NodePtr::null(), NodePtr::at(5)] {
        assert_eq!(p.value(&rb), None);
        assert_eq!(p.key(&rb), None);
        assert_eq!(p.timestamp(&rb), None);
        assert!(p.left(&rb).is_null());
        assert!(p.right(&rb).is_null());
        assert!(p.get_parent(&rb).is_null());
        assert!(p.is_black(&rb));
        assert!(!p.is_red(&rb));
        assert!(!p.is_left(&rb) && !p.is_right(&rb) && !p.is_root(&rb) && !p.is_deleted(&rb));
        p.set_value(&mut rb, 1);
        p.set_timestamp(&mut rb, 1);
        p.set_right_child(&mut rb, NodePtr::at(0));
    }
    assert!(NodePtr::null().is_null());
    assert!(!NodePtr::at(0).is_null());
    assert!(NodePtr::at(3).same(NodePtr::at(3)));
    assert!(!NodePtr::at(3).same(NodePtr::at(4)));
    assert!(!NodePtr::at(3).same(NodePtr::null()));
    assert!(NodePtr::null().same(NodePtr::null()));
    assert_eq!(rb.value(&2), Some(20));
    assert!(rb.find_node(&2).right(&rb).is_null());
}

#[test]
fn handles_write_single_nodes() {
    let mut rb = RedBlackTree::<u8, u8>::new();
    let a = NodePtr::new(&mut rb, 1, 10, 3, Status::Available);
    let b = NodePtr::new(&mut rb, 2, 20, 4, Status::Deleted);
    assert_eq!(a, NodePtr::at(0));
    assert_eq!(b, NodePtr::at(1));
    assert_eq!(a.key(&rb), Some(1));
    assert_eq!(b.value(&rb), Some(20));
    assert_eq!(b.timestamp(&rb), Some(4));
    assert!(b.is_deleted(&rb) && !a.is_deleted(&rb));
    assert!(a.is_black(&rb) && a.is_root(&rb));
    assert!(a.left(&rb).is_null() && a.right(&rb).is_null() && a.get_parent(&rb).is_null());
    a.set_right_child(&mut rb, b);
    b.set_parent(&mut rb, a);
    b.set_side_right(&mut rb);
    b.set_color_red(&mut rb);
    assert_eq!(a.right(&rb), b);
    assert_eq!(b.get_parent(&rb), a);
    assert!(b.is_right(&rb) && b.is_red(&rb));
    a.set_left_child(&mut rb, b);
    b.set_side_left(&mut rb);
    b.set_color_black(&mut rb);
    assert_eq!(a.left(&rb), b);
    assert!(b.is_left(&rb) && b.is_black(&rb));
    b.set_side_root(&mut rb);
    assert!(b.is_root(&rb));
    a.set_value(&mut rb, 11);
    a.set_timestamp(&mut rb, 8);
    a.set_status(&mut rb, Status::Deleted);
    assert_eq!(a.value(&rb), Some(11));
    assert_eq!(a.timestamp(&rb), Some(8));
    assert!(a.is_deleted(&rb));
    b.set_status(&mut rb, Status::Available);
    b.set_deleted(&mut rb, 12);
    assert!(b.is_deleted(&rb));
    assert_eq!(b.timestamp(&rb), Some(12));
    assert_eq!(b.value(&rb), Some(20));
}

#[test]
fn keys_compare_as_their_order_says() {
    assert_eq!(3u8.compare(&4), Relation::Less);
    assert_eq!(4u8.compare(&4), Relation::Equal);
    assert_eq!(5u8.compare(&4), Relation::Greater);
    assert_eq!(3u64.compare(&4), Relation::Less);
    assert_eq!(4u64.compare(&4), Relation::Equal);
    assert_eq!(u64::MAX.compare(&4), Relation::Greater);
    assert_eq!(7u8.duplicate(), 7);
    assert_eq!(7u64.duplicate(), 7);
    let cases: Vec<(Vec<u8>, Vec<u8>)> = vec![
        (vec![], vec![]),
        (vec![], vec![0]),
        (vec![1], vec![1, 0]),
        (vec![1, 2], vec![1, 3]),
        (vec![2], vec![1, 255]),
        (vec![1, 2, 3], vec![1, 2, 3]),
        (b"10".to_vec(), b"9".to_vec()),
    ];
    for (a, b) in cases {
        let expected = match a.cmp(&b) {
            std::cmp::Ordering::Less => Relation::Less,
            std::cmp::Ordering::Equal => Relation::Equal,
            std::cmp::Ordering::Greater => Relation::Greater,
        };
        assert_eq!(a.compare(&b), expected);
        assert_eq!(a.duplicate(), a);
    }
}

#[test]
fn byte_string_keys_are_kept_in_lexicographic_order() {
    let mut rb = RedBlackTree::<Vec<u8>, u8>::new();
    for (i, k) in ["b", "a", "ab", "", "ba", "aa"].iter().enumerate() {
        rb.insert_or_replace(k.as_bytes().to_vec(), i as u8, 0, Status::Available);
    }
    let mut iter = rb.root.into_iter();
    let mut seen = Vec::new();
    while let Some(node) = iter.next(&mut rb) {
        seen.push(String::from_utf8(node.key(&rb).unwrap()).unwrap());
    }
    assert_eq!(seen, vec!["", "a", "aa", "ab", "b", "ba"]);
}
