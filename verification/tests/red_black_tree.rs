use simple_db::node::{NodePtr, Status};
use simple_db::tree::RedBlackTree;

#[test]
fn insert_nothing() {
    let rb = RedBlackTree::<u8, u8>::new();
    assert_eq!(rb.size, 0);
    assert_eq!(rb.root, NodePtr::null())
}

#[test]
fn insert_root() {
    let mut rb = RedBlackTree::<u8, u8>::new();
    rb.insert_or_replace(11, 16, 0, Status::Available);

    // check tree status
    assert_eq!(rb.size, 1);
    assert_ne!(rb.root, NodePtr::null());

    // check root node status, all types in node
    let x = rb.find_node(&11);
    assert_eq!(x.value(&rb), Some(16));
    assert_eq!(x.left(&rb).is_null(), true);
    assert_eq!(x.right(&rb).is_null(), true);
    assert_eq!(x.get_parent(&rb).is_null(), true);
    assert_eq!(x.is_root(&rb), true);
    assert_eq!(x.is_black(&rb), true);
}

/*
*     11
*    /  \
*   8   14
*/
#[test]
fn insert_root_left_right() {
    let mut rb = RedBlackTree::<u8, u8>::new();
    rb.insert_or_replace(11, 16, 0, Status::Available);
    rb.insert_or_replace(14, 19, 0, Status::Available);
    rb.insert_or_replace(8, 13, 0, Status::Available);

    // check tree status
    assert_eq!(rb.size, 3);
    assert_ne!(rb.root, NodePtr::null());

    // check root node status, all types in node
    let x = rb.find_node(&11);
    let y = rb.find_node(&8);
    let z = rb.find_node(&14);
    assert_eq!(x.value(&rb), Some(16));
    assert_eq!(x.left(&rb), y);
    assert_eq!(x.right(&rb), z);
    assert_eq!(x.get_parent(&rb).is_null(), true);
    assert_eq!(x.is_root(&rb), true);
    assert_eq!(x.is_black(&rb), true);

    // check left node status, all types in node
    assert_eq!(y.value(&rb), Some(13));
    assert_eq!(y.left(&rb).is_null(), true);
    assert_eq!(y.right(&rb).is_null(), true);
    assert_eq!(y.get_parent(&rb), x);
    assert_eq!(y.is_left(&rb), true);
    assert_eq!(y.is_red(&rb), true);

    // check right node status, all types in node
    assert_eq!(z.value(&rb), Some(19));
    assert_eq!(z.left(&rb).is_null(), true);
    assert_eq!(z.right(&rb).is_null(), true);
    assert_eq!(z.get_parent(&rb), x);
    assert_eq!(z.is_right(&rb), true);
    assert_eq!(z.is_red(&rb), true);
}

/*
*           11 B
*          /  \
*       R 8   14 R
*        /
*     R 7 -> new insert,Red aunt
*           POST
*           11 B
*          /  \
*       B 8   14 B
*        /
*     R 7 -> new insert,Red aunt
*/
#[test]
fn check_color_flip() {
    let mut rb = RedBlackTree::<u8, u8>::new();
    rb.insert_or_replace(11, 16, 0, Status::Available);
    rb.insert_or_replace(14, 19, 0, Status::Available);
    rb.insert_or_replace(8, 13, 0, Status::Available);
    rb.insert_or_replace(7, 12, 0, Status::Available);

    // check tree status
    assert_eq!(rb.size, 4);
    assert_ne!(rb.root, NodePtr::null());

    // check root node status
    let x = rb.find_node(&11);
    let y = rb.find_node(&8);
    let z = rb.find_node(&14);
    let w = rb.find_node(&7);

    assert_eq!(x.value(&rb), Some(16));
    assert_eq!(x.left(&rb), y);
    assert_eq!(x.right(&rb), z);
    assert_eq!(x.get_parent(&rb).is_null(), true);
    assert_eq!(x.is_root(&rb), true);
    assert_eq!(x.is_black(&rb), true);

    // check left node status
    assert_eq!(y.value(&rb), Some(13));
    assert_eq!(y.left(&rb), w);
    assert_eq!(y.right(&rb).is_null(), true);
    assert_eq!(y.get_parent(&rb), x);
    assert_eq!(y.is_left(&rb), true);
    assert_eq!(y.is_black(&rb), true);

    // check right node status
    assert_eq!(z.value(&rb), Some(19));
    assert_eq!(z.left(&rb).is_null(), true);
    assert_eq!(z.right(&rb).is_null(), true);
    assert_eq!(z.get_parent(&rb), x);
    assert_eq!(z.is_right(&rb), true);
    assert_eq!(z.is_black(&rb), true);

    // check new inserted node status
    assert_eq!(w.value(&rb), Some(12));
    assert_eq!(w.left(&rb).is_null(), true);
    assert_eq!(w.right(&rb).is_null(), true);
    assert_eq!(w.get_parent(&rb), y);
    assert_eq!(w.is_left(&rb), true);
    assert_eq!(w.is_red(&rb), true);
}

/*
*           11 B
*          /  \
*       B 8   14 B
*        /
*     R 7
*      /
*   R 6 -> new insert
*       POST
*           11 B
*          /  \
*       B 7   14 B
*        / \
*     R 6   8 R
*/
#[test]
fn red_black_tree_check_right_rotate() {
    let mut rb = RedBlackTree::<u8, u8>::new();
    rb.insert_or_replace(11, 16, 0, Status::Available);
    rb.insert_or_replace(14, 19, 0, Status::Available);
    rb.insert_or_replace(8, 13, 0, Status::Available);
    rb.insert_or_replace(7, 12, 0, Status::Available);
    rb.insert_or_replace(6, 11, 0, Status::Available);

    // check tree status
    assert_eq!(rb.size, 5);
    assert_ne!(rb.root, NodePtr::null());

    // check root node status
    let root = rb.find_node(&11);
    let l = rb.find_node(&7);
    let r = rb.find_node(&14);
    let ll = rb.find_node(&6);
    let lr = rb.find_node(&8);

    assert_eq!(rb.has_node(&11), true);
    assert_eq!(rb.has_node(&7), true);
    assert_eq!(rb.has_node(&14), true);
    assert_eq!(rb.has_node(&6), true);
    assert_eq!(rb.has_node(&8), true);

    assert_eq!(root.value(&rb), Some(16));
    assert_eq!(root.left(&rb), l);
    assert_eq!(root.right(&rb), r);
    assert_eq!(root.get_parent(&rb).is_null(), true);
    assert_eq!(root.is_root(&rb), true);
    assert_eq!(root.is_black(&rb), true);

    // check left node status
    assert_eq!(l.value(&rb), Some(12));
    assert_eq!(l.left(&rb), ll);
    assert_eq!(l.right(&rb), lr);
    assert_eq!(l.get_parent(&rb), root);
    assert_eq!(l.is_left(&rb), true);
    assert_eq!(l.is_black(&rb), true);

    // check right node status
    assert_eq!(r.value(&rb), Some(19));
    assert_eq!(r.left(&rb).is_null(), true);
    assert_eq!(r.right(&rb).is_null(), true);
    assert_eq!(r.get_parent(&rb), root);
    assert_eq!(r.is_right(&rb), true);
    assert_eq!(r.is_black(&rb), true);

    // check new inserted node status
    assert_eq!(ll.value(&rb), Some(11));
    assert_eq!(ll.left(&rb).is_null(), true);
    assert_eq!(ll.right(&rb).is_null(), true);
    assert_eq!(ll.get_parent(&rb), l);
    assert_eq!(ll.is_left(&rb), true);
    assert_eq!(ll.is_red(&rb), true);

    // check parent which get pulled in the right side
    assert_eq!(lr.value(&rb), Some(13));
    assert_eq!(lr.left(&rb).is_null(), true);
    assert_eq!(lr.right(&rb).is_null(), true);
    assert_eq!(lr.get_parent(&rb), l);
    assert_eq!(lr.is_right(&rb), true);
    assert_eq!(lr.is_red(&rb), true);
}

#[test]
fn increasing_insertions() {
    let mut rb = RedBlackTree::<u8, u8>::new();
    for i in 1..60 {
        rb.insert_or_replace(i, i, 0, Status::Available);
    }

    let mut iter = rb.root.into_iter();
    for i in 1..60 {
        assert_eq!(Some(i), iter.next(&mut rb).unwrap().value(&rb));
    }
    assert_eq!(None, iter.next(&mut rb));
}

#[test]
fn decreasing_insertions() {
    let mut rb = RedBlackTree::<u8, u8>::new();
    for i in (1..60).rev() {
        rb.insert_or_replace(i, i, 0, Status::Available);
    }

    let mut iter = rb.root.into_iter();
    for i in 1..60 {
        assert_eq!(Some(i), iter.next(&mut rb).unwrap().value(&rb));
    }
    assert_eq!(None, iter.next(&mut rb));
}

#[test]
fn reset_same_key() {
    let mut rb = RedBlackTree::<u8, u8>::new();
    for i in 1..60 {
        rb.insert_or_replace(i, i, 0, Status::Available);
    }

    let mut iter = rb.root.into_iter();
    for i in 1..60 {
        rb.insert_or_replace(i, i + 5, 0, Status::Available);
    }

    for i in 1..60 {
        assert_eq!(Some(i + 5), iter.next(&mut rb).unwrap().value(&rb));
    }
    assert_eq!(None, iter.next(&mut rb));
}
