use simple_db::node::Status;
use simple_db::tree::RedBlackTree;

/*
*           11 B
*          /  \
*       B 8   14 B
*        /
*     R 7
*      /
*   R 6 -> new insert
*       POST
*           11 B
*          /  \
*       B 7   14 B
*        / \
*     R 6   8 R
*/
#[test]
fn inorder_iterator_check_right_rotate() {
    let mut rb = RedBlackTree::<u8, u8>::new();
    rb.insert_or_replace(11, 16, 0, Status::Available);
    rb.insert_or_replace(14, 19, 0, Status::Available);
    rb.insert_or_replace(8, 13, 0, Status::Available);
    rb.insert_or_replace(7, 12, 0, Status::Available);
    rb.insert_or_replace(6, 11, 0, Status::Available);

    let mut iter = rb.root.into_iter();
    assert_eq!(iter.next(&mut rb).unwrap().value(&rb), Some(11));
    assert_eq!(iter.next(&mut rb).unwrap().value(&rb), Some(12));
    assert_eq!(iter.next(&mut rb).unwrap().value(&rb), Some(13));
    assert_eq!(iter.next(&mut rb).unwrap().value(&rb), Some(16));
    assert_eq!(iter.next(&mut rb).unwrap().value(&rb), Some(19));
    assert_eq!(iter.next(&mut rb), None);
}
