//! Single and double rotations.
//!
//! A rotation relinks three nodes and the parent above them. It keeps the
//! in-order listing, the entries, the colors and the black-height labels, and
//! moves only the ranges of the two nodes that trade places.

use vstd::prelude::*;
use crate::node::{Label, Node, NodePtr, Side};
use crate::order::TotalOrder;
use crate::tree::RedBlackTree;

verus! {

impl<K: TotalOrder, V> RedBlackTree<K, V> {
    /// Slot `x` names a node with a right child: a left rotation can pivot there.
    pub open spec fn can_rotate_left(&self, x: NodePtr) -> bool {
        &&& self.linked()
        &&& self.holds(x)
        &&& self.nodes@[x.index.unwrap() as int].right.index is Some
    }

    /// Slot `x` names a node with a left child: a right rotation can pivot there.
    pub open spec fn can_rotate_right(&self, x: NodePtr) -> bool {
        &&& self.linked()
        &&& self.holds(x)
        &&& self.nodes@[x.index.unwrap() as int].left.index is Some
    }

    /// Node `i` after a left rotation at `x`, whose right child `y` moves up:
    /// `x` takes the left subtree of `y` as its right subtree and becomes the
    /// left child of `y`; `y` takes the place of `x` below the old parent.
    pub open spec fn left_rotated_node(&self, x: usize, i: int) -> Node<K, V> {
        let n = self.nodes@[i];
        let y = self.nodes@[x as int].right;
        let moved = self.nodes@[y.index.unwrap() as int].left;
        let px = NodePtr { index: Some(x) };
        if i == x {
            Node { right: moved, parent: y, side: Side::Left, ..n }
        } else if y.is(i) {
            Node { left: px, parent: self.nodes@[x as int].parent, side: self.nodes@[x as int].side, ..n }
        } else {
            Node {
                left: if n.left == px {
                    y
                } else {
                    n.left
                },
                right: if n.right == px {
                    y
                } else {
                    n.right
                },
                parent: if moved.is(i) {
                    px
                } else {
                    n.parent
                },
                side: if moved.is(i) {
                    Side::Right
                } else {
                    n.side
                },
                ..n
            }
        }
    }

    /// The label of node `i` after a left rotation at `x`: `y` takes over
    /// the range of `x`, and `x` keeps what lies before `y`.
    pub open spec fn left_rotated_label(&self, x: usize, i: int) -> Label {
        let l = self.labels@[i];
        let y = self.nodes@[x as int].right.index.unwrap() as int;
        if i == x {
            Label { hi: self.labels@[y].pos, ..l }
        } else if i == y {
            Label { lo: self.labels@[x as int].lo, ..l }
        } else {
            l
        }
    }

    /// `self` is `old` after a left rotation at slot `x`.
    pub open spec fn left_rotated(&self, old: &Self, x: usize) -> bool {
        &&& self.nodes@.len() == old.nodes@.len()
        &&& self.labels@.len() == old.labels@.len()
        &&& forall|i: int|
            0 <= i < old.count() ==> #[trigger] self.nodes@[i] == old.left_rotated_node(x, i)
        &&& forall|i: int|
            0 <= i < old.count() ==> #[trigger] self.labels@[i] == old.left_rotated_label(x, i)
        &&& self.order@ == old.order@
        &&& self.root == if old.root.is(x as int) {
            old.nodes@[x as int].right
        } else {
            old.root
        }
    }

    /// Node `i` after a right rotation at `x`, whose left child `y` moves up.
    pub open spec fn right_rotated_node(&self, x: usize, i: int) -> Node<K, V> {
        let n = self.nodes@[i];
        let y = self.nodes@[x as int].left;
        let moved = self.nodes@[y.index.unwrap() as int].right;
        let px = NodePtr { index: Some(x) };
        if i == x {
            Node { left: moved, parent: y, side: Side::Right, ..n }
        } else if y.is(i) {
            Node { right: px, parent: self.nodes@[x as int].parent, side: self.nodes@[x as int].side, ..n }
        } else {
            Node {
                left: if n.left == px {
                    y
                } else {
                    n.left
                },
                right: if n.right == px {
                    y
                } else {
                    n.right
                },
                parent: if moved.is(i) {
                    px
                } else {
                    n.parent
                },
                side: if moved.is(i) {
                    Side::Left
                } else {
                    n.side
                },
                ..n
            }
        }
    }

    /// The label of node `i` after a right rotation at `x`.
    pub open spec fn right_rotated_label(&self, x: usize, i: int) -> Label {
        let l = self.labels@[i];
        let y = self.nodes@[x as int].left.index.unwrap() as int;
        if i == x {
            Label { lo: self.labels@[y].pos + 1, ..l }
        } else if i == y {
            Label { hi: self.labels@[x as int].hi, ..l }
        } else {
            l
        }
    }

    /// `self` is `old` after a right rotation at slot `x`.
    pub open spec fn right_rotated(&self, old: &Self, x: usize) -> bool {
        &&& self.nodes@.len() == old.nodes@.len()
        &&& self.labels@.len() == old.labels@.len()
        &&& forall|i: int|
            0 <= i < old.count() ==> #[trigger] self.nodes@[i] == old.right_rotated_node(x, i)
        &&& forall|i: int|
            0 <= i < old.count() ==> #[trigger] self.labels@[i] == old.right_rotated_label(x, i)
        &&& self.order@ == old.order@
        &&& self.root == if old.root.is(x as int) {
            old.nodes@[x as int].left
        } else {
            old.root
        }
    }
}

/// A left rotation keeps the arena a tree with the same in-order listing.
pub proof fn lemma_left_rotation_linked<K: TotalOrder, V>(
    old: RedBlackTree<K, V>,
    new: RedBlackTree<K, V>,
    x: usize,
)
    requires
        old.can_rotate_left(NodePtr { index: Some(x) }),
        new.left_rotated(&old, x),
    ensures
        new.linked(),
{
    let y = old.nodes@[x as int].right.index.unwrap() as int;
    assert(old.node_linked(x as int));
    assert(old.node_linked(y));
    let moved = old.nodes@[y].left;
    if moved.index is Some {
        assert(old.node_linked(moved.index.unwrap() as int));
    }
    let up = old.nodes@[x as int].parent;
    if up.index is Some {
        assert(old.node_linked(up.index.unwrap() as int));
    }
    assert forall|i: int| 0 <= i < new.count() implies #[trigger] new.node_linked(i) by {
        assert(old.node_linked(i));
        assert(new.nodes@[i] == old.left_rotated_node(x, i));
        assert(new.labels@[i] == old.left_rotated_label(x, i));
        let n = old.nodes@[i];
        if n.left.index is Some {
            let c = n.left.index.unwrap() as int;
            assert(new.nodes@[c] == old.left_rotated_node(x, c));
            assert(new.labels@[c] == old.left_rotated_label(x, c));
        }
        if n.right.index is Some {
            let c = n.right.index.unwrap() as int;
            assert(new.nodes@[c] == old.left_rotated_node(x, c));
            assert(new.labels@[c] == old.left_rotated_label(x, c));
        }
        if n.parent.index is Some {
            let p = n.parent.index.unwrap() as int;
            assert(new.nodes@[p] == old.left_rotated_node(x, p));
        }
        assert(new.nodes@[x as int] == old.left_rotated_node(x, x as int));
        assert(new.labels@[x as int] == old.left_rotated_label(x, x as int));
        assert(new.nodes@[y] == old.left_rotated_node(x, y));
        assert(new.labels@[y] == old.left_rotated_label(x, y));
        if moved.index is Some {
            let m = moved.index.unwrap() as int;
            assert(new.nodes@[m] == old.left_rotated_node(x, m));
            assert(new.labels@[m] == old.left_rotated_label(x, m));
        }
    }
    assert forall|a: int| 0 <= a < new.count() implies #[trigger] new.position_taken(a) by {
        assert(old.position_taken(a));
        assert(new.labels@[old.order@[a]] == old.left_rotated_label(x, old.order@[a]));
    }
    match new.root.index {
        None => {},
        Some(r) => {
            assert(new.nodes@[r as int] == old.left_rotated_node(x, r as int));
            assert(new.labels@[r as int] == old.left_rotated_label(x, r as int));
            if !old.root.is(x as int) {
                assert(old.node_linked(old.root.index.unwrap() as int));
            }
        },
    }
}

/// A right rotation keeps the arena a tree with the same in-order listing.
pub proof fn lemma_right_rotation_linked<K: TotalOrder, V>(
    old: RedBlackTree<K, V>,
    new: RedBlackTree<K, V>,
    x: usize,
)
    requires
        old.can_rotate_right(NodePtr { index: Some(x) }),
        new.right_rotated(&old, x),
    ensures
        new.linked(),
{
    let y = old.nodes@[x as int].left.index.unwrap() as int;
    assert(old.node_linked(x as int));
    assert(old.node_linked(y));
    let moved = old.nodes@[y].right;
    if moved.index is Some {
        assert(old.node_linked(moved.index.unwrap() as int));
    }
    let up = old.nodes@[x as int].parent;
    if up.index is Some {
        assert(old.node_linked(up.index.unwrap() as int));
    }
    assert forall|i: int| 0 <= i < new.count() implies #[trigger] new.node_linked(i) by {
        assert(old.node_linked(i));
        assert(new.nodes@[i] == old.right_rotated_node(x, i));
        assert(new.labels@[i] == old.right_rotated_label(x, i));
        let n = old.nodes@[i];
        if n.left.index is Some {
            let c = n.left.index.unwrap() as int;
            assert(new.nodes@[c] == old.right_rotated_node(x, c));
            assert(new.labels@[c] == old.right_rotated_label(x, c));
        }
        if n.right.index is Some {
            let c = n.right.index.unwrap() as int;
            assert(new.nodes@[c] == old.right_rotated_node(x, c));
            assert(new.labels@[c] == old.right_rotated_label(x, c));
        }
        if n.parent.index is Some {
            let p = n.parent.index.unwrap() as int;
            assert(new.nodes@[p] == old.right_rotated_node(x, p));
        }
        assert(new.nodes@[x as int] == old.right_rotated_node(x, x as int));
        assert(new.labels@[x as int] == old.right_rotated_label(x, x as int));
        assert(new.nodes@[y] == old.right_rotated_node(x, y));
        assert(new.labels@[y] == old.right_rotated_label(x, y));
        if moved.index is Some {
            let m = moved.index.unwrap() as int;
            assert(new.nodes@[m] == old.right_rotated_node(x, m));
            assert(new.labels@[m] == old.right_rotated_label(x, m));
        }
    }
    assert forall|a: int| 0 <= a < new.count() implies #[trigger] new.position_taken(a) by {
        assert(old.position_taken(a));
        assert(new.labels@[old.order@[a]] == old.right_rotated_label(x, old.order@[a]));
    }
    match new.root.index {
        None => {},
        Some(r) => {
            assert(new.nodes@[r as int] == old.right_rotated_node(x, r as int));
            assert(new.labels@[r as int] == old.right_rotated_label(x, r as int));
            if !old.root.is(x as int) {
                assert(old.node_linked(old.root.index.unwrap() as int));
            }
        },
    }
}


impl<K: TotalOrder, V> RedBlackTree<K, V> {
    /// Rotates left at `node`: its right child moves up and `node` becomes
    /// the left child of it.
    pub fn left_rotate(&mut self, node: NodePtr)
        requires
            old(self).can_rotate_left(node),
        ensures
            final(self).left_rotated(old(self), node.index.unwrap()),
            final(self).linked(),
            final(self).size == old(self).size,
    {
        let ghost x = node.index.unwrap();
        proof {
            assert(self.node_linked(x as int));
            let y = self.nodes@[x as int].right.index.unwrap() as int;
            assert(self.node_linked(y));
            if self.nodes@[y].left.index is Some {
                assert(self.node_linked(self.nodes@[y].left.index.unwrap() as int));
            }
            if self.nodes@[x as int].parent.index is Some {
                assert(self.node_linked(self.nodes@[x as int].parent.index.unwrap() as int));
            }
        }
        let temp = node.right(self);
        let moved = temp.left(self);
        node.set_right_child(self, moved);
        if !moved.is_null() {
            moved.set_parent(self, node);
            moved.set_side_right(self);
        }
        let up = node.get_parent(self);
        if node.is_root(self) {
            self.root = temp;
            temp.set_side_root(self);
        } else if node.is_left(self) {
            up.set_left_child(self, temp);
            temp.set_side_left(self);
        } else {
            up.set_right_child(self, temp);
            temp.set_side_right(self);
        }
        temp.set_parent(self, up);
        temp.set_left_child(self, node);
        node.set_parent(self, temp);
        node.set_side_left(self);
        proof {
            let before = *old(self);
            self.labels@ = Seq::new(before.labels@.len(), |i: int| before.left_rotated_label(x, i));
            assert forall|i: int| 0 <= i < before.count() implies #[trigger] self.nodes@[i]
                == before.left_rotated_node(x, i) by {
                assert(before.node_linked(i));
            }
            lemma_left_rotation_linked(before, *self, x);
        }
    }

    /// Rotates right at `node`: its left child moves up and `node` becomes
    /// the right child of it.
    pub fn right_rotate(&mut self, node: NodePtr)
        requires
            old(self).can_rotate_right(node),
        ensures
            final(self).right_rotated(old(self), node.index.unwrap()),
            final(self).linked(),
            final(self).size == old(self).size,
    {
        let ghost x = node.index.unwrap();
        proof {
            assert(self.node_linked(x as int));
            let y = self.nodes@[x as int].left.index.unwrap() as int;
            assert(self.node_linked(y));
            if self.nodes@[y].right.index is Some {
                assert(self.node_linked(self.nodes@[y].right.index.unwrap() as int));
            }
            if self.nodes@[x as int].parent.index is Some {
                assert(self.node_linked(self.nodes@[x as int].parent.index.unwrap() as int));
            }
        }
        let temp = node.left(self);
        let moved = temp.right(self);
        node.set_left_child(self, moved);
        if !moved.is_null() {
            moved.set_parent(self, node);
            moved.set_side_left(self);
        }
        let up = node.get_parent(self);
        if node.is_root(self) {
            self.root = temp;
            temp.set_side_root(self);
        } else if node.is_left(self) {
            up.set_left_child(self, temp);
            temp.set_side_left(self);
        } else {
            up.set_right_child(self, temp);
            temp.set_side_right(self);
        }
        temp.set_parent(self, up);
        temp.set_right_child(self, node);
        node.set_parent(self, temp);
        node.set_side_right(self);
        proof {
            let before = *old(self);
            self.labels@ = Seq::new(before.labels@.len(), |i: int| before.right_rotated_label(x, i));
            assert forall|i: int| 0 <= i < before.count() implies #[trigger] self.nodes@[i]
                == before.right_rotated_node(x, i) by {
                assert(before.node_linked(i));
            }
            lemma_right_rotation_linked(before, *self, x);
        }
    }
}

impl<K: TotalOrder, V> RedBlackTree<K, V> {
    /// Slot `g` names a node whose left child has a right child: a
    /// left-right double rotation can pivot there.
    pub open spec fn can_rotate_left_right(&self, g: NodePtr) -> bool {
        &&& self.can_rotate_right(g)
        &&& self.can_rotate_left(self.nodes@[g.index.unwrap() as int].left)
    }

    /// Node `i` after a left-right double rotation at `g`: the right child
    /// `x` of the left child `p` of `g` moves to the top, with `p` on its
    /// left and `g` on its right; the left subtree of `x` goes to `p`, the
    /// right one to `g`.
    pub open spec fn left_right_rotated_node(&self, g: usize, i: int) -> Node<K, V> {
        let n = self.nodes@[i];
        let p = self.nodes@[g as int].left;
        let x = self.nodes@[p.index.unwrap() as int].right;
        let to_p = self.nodes@[x.index.unwrap() as int].left;
        let to_g = self.nodes@[x.index.unwrap() as int].right;
        let pg = NodePtr { index: Some(g) };
        if i == g {
            Node { left: to_g, parent: x, side: Side::Right, ..n }
        } else if p.is(i) {
            Node { right: to_p, parent: x, ..n }
        } else if x.is(i) {
            Node {
                left: p,
                right: pg,
                parent: self.nodes@[g as int].parent,
                side: self.nodes@[g as int].side,
                ..n
            }
        } else {
            Node {
                left: if n.left == pg {
                    x
                } else {
                    n.left
                },
                right: if n.right == pg {
                    x
                } else {
                    n.right
                },
                parent: if to_p.is(i) {
                    p
                } else if to_g.is(i) {
                    pg
                } else {
                    n.parent
                },
                side: if to_p.is(i) {
                    Side::Right
                } else if to_g.is(i) {
                    Side::Left
                } else {
                    n.side
                },
                ..n
            }
        }
    }

    /// The label of node `i` after a left-right double rotation at `g`.
    pub open spec fn left_right_rotated_label(&self, g: usize, i: int) -> Label {
        let l = self.labels@[i];
        let p = self.nodes@[g as int].left;
        let x = self.nodes@[p.index.unwrap() as int].right;
        let at = self.labels@[x.index.unwrap() as int].pos;
        if i == g {
            Label { lo: at + 1, ..l }
        } else if p.is(i) {
            Label { hi: at, ..l }
        } else if x.is(i) {
            Label { lo: self.labels@[g as int].lo, hi: self.labels@[g as int].hi, ..l }
        } else {
            l
        }
    }

    /// `self` is `old` after a left-right double rotation at slot `g`.
    pub open spec fn left_right_rotated(&self, old: &Self, g: usize) -> bool {
        &&& self.nodes@.len() == old.nodes@.len()
        &&& self.labels@.len() == old.labels@.len()
        &&& forall|i: int|
            0 <= i < old.count() ==> #[trigger] self.nodes@[i] == old.left_right_rotated_node(g, i)
        &&& forall|i: int|
            0 <= i < old.count() ==> #[trigger] self.labels@[i] == old.left_right_rotated_label(g, i)
        &&& self.order@ == old.order@
        &&& self.root == if old.root.is(g as int) {
            old.nodes@[old.nodes@[g as int].left.index.unwrap() as int].right
        } else {
            old.root
        }
    }
}

/// A left rotation at the left child followed by a right rotation at `g`
/// is the left-right double rotation at `g`.
pub proof fn lemma_left_right_rotation<K: TotalOrder, V>(
    s0: RedBlackTree<K, V>,
    s1: RedBlackTree<K, V>,
    s2: RedBlackTree<K, V>,
    g: usize,
)
    requires
        s0.can_rotate_left_right(NodePtr { index: Some(g) }),
        s1.left_rotated(&s0, s0.nodes@[g as int].left.index.unwrap()),
        s2.right_rotated(&s1, g),
    ensures
        s2.left_right_rotated(&s0, g),
{
    let p = s0.nodes@[g as int].left.index.unwrap();
    let x = s0.nodes@[p as int].right.index.unwrap();
    assert(s0.node_linked(g as int));
    assert(s0.node_linked(p as int));
    assert(s0.node_linked(x as int));
    let to_p = s0.nodes@[x as int].left;
    let to_g = s0.nodes@[x as int].right;
    if to_p.index is Some {
        assert(s0.node_linked(to_p.index.unwrap() as int));
    }
    if to_g.index is Some {
        assert(s0.node_linked(to_g.index.unwrap() as int));
    }
    assert(s1.nodes@[g as int] == s0.left_rotated_node(p, g as int));
    assert(s1.nodes@[p as int] == s0.left_rotated_node(p, p as int));
    assert(s1.nodes@[x as int] == s0.left_rotated_node(p, x as int));
    assert(s1.labels@[g as int] == s0.left_rotated_label(p, g as int));
    assert(s1.labels@[p as int] == s0.left_rotated_label(p, p as int));
    assert(s1.labels@[x as int] == s0.left_rotated_label(p, x as int));
    assert forall|i: int| 0 <= i < s0.count() implies #[trigger] s2.nodes@[i]
        == s0.left_right_rotated_node(g, i) by {
        assert(s0.node_linked(i));
        assert(s1.nodes@[i] == s0.left_rotated_node(p, i));
        assert(s2.nodes@[i] == s1.right_rotated_node(g, i));
    }
    assert forall|i: int| 0 <= i < s0.count() implies #[trigger] s2.labels@[i]
        == s0.left_right_rotated_label(g, i) by {
        assert(s1.labels@[i] == s0.left_rotated_label(p, i));
        assert(s2.labels@[i] == s1.right_rotated_label(g, i));
    }
}

impl<K: TotalOrder, V> RedBlackTree<K, V> {
    /// Rotates left at the left child of `node`, then right at `node`.
    pub fn left_right_rotate(&mut self, node: NodePtr)
        requires
            old(self).can_rotate_left_right(node),
        ensures
            final(self).left_right_rotated(old(self), node.index.unwrap()),
            final(self).linked(),
            final(self).size == old(self).size,
    {
        let ghost g = node.index.unwrap();
        let ghost s0 = *self;
        let child = node.left(self);
        self.left_rotate(child);
        let ghost s1 = *self;
        proof {
            assert(s0.node_linked(g as int));
            assert(s1.nodes@[g as int] == s0.left_rotated_node(child.index.unwrap(), g as int));
        }
        self.right_rotate(node);
        proof {
            lemma_left_right_rotation(s0, s1, *self, g);
        }
    }
}

impl<K: TotalOrder, V> RedBlackTree<K, V> {
    /// Slot `g` names a node whose right child has a left child: a
    /// right-left double rotation can pivot there.
    pub open spec fn can_rotate_right_left(&self, g: NodePtr) -> bool {
        &&& self.can_rotate_left(g)
        &&& self.can_rotate_right(self.nodes@[g.index.unwrap() as int].right)
    }

    /// Node `i` after a right-left double rotation at `g`: the left child
    /// `x` of the right child `p` of `g` moves to the top, with `p` on its
    /// right and `g` on its left; the right subtree of `x` goes to `p`, the
    /// left one to `g`.
    pub open spec fn right_left_rotated_node(&self, g: usize, i: int) -> Node<K, V> {
        let n = self.nodes@[i];
        let p = self.nodes@[g as int].right;
        let x = self.nodes@[p.index.unwrap() as int].left;
        let to_p = self.nodes@[x.index.unwrap() as int].right;
        let to_g = self.nodes@[x.index.unwrap() as int].left;
        let pg = NodePtr { index: Some(g) };
        if i == g {
            Node { right: to_g, parent: x, side: Side::Left, ..n }
        } else if p.is(i) {
            Node { left: to_p, parent: x, ..n }
        } else if x.is(i) {
            Node {
                right: p,
                left: pg,
                parent: self.nodes@[g as int].parent,
                side: self.nodes@[g as int].side,
                ..n
            }
        } else {
            Node {
                right: if n.right == pg {
                    x
                } else {
                    n.right
                },
                left: if n.left == pg {
                    x
                } else {
                    n.left
                },
                parent: if to_p.is(i) {
                    p
                } else if to_g.is(i) {
                    pg
                } else {
                    n.parent
                },
                side: if to_p.is(i) {
                    Side::Left
                } else if to_g.is(i) {
                    Side::Right
                } else {
                    n.side
                },
                ..n
            }
        }
    }

    /// The label of node `i` after a right-left double rotation at `g`.
    pub open spec fn right_left_rotated_label(&self, g: usize, i: int) -> Label {
        let l = self.labels@[i];
        let p = self.nodes@[g as int].right;
        let x = self.nodes@[p.index.unwrap() as int].left;
        let at = self.labels@[x.index.unwrap() as int].pos;
        if i == g {
            Label { hi: at, ..l }
        } else if p.is(i) {
            Label { lo: at + 1, ..l }
        } else if x.is(i) {
            Label { lo: self.labels@[g as int].lo, hi: self.labels@[g as int].hi, ..l }
        } else {
            l
        }
    }

    /// `self` is `old` after a right-left double rotation at slot `g`.
    pub open spec fn right_left_rotated(&self, old: &Self, g: usize) -> bool {
        &&& self.nodes@.len() == old.nodes@.len()
        &&& self.labels@.len() == old.labels@.len()
        &&& forall|i: int|
            0 <= i < old.count() ==> #[trigger] self.nodes@[i] == old.right_left_rotated_node(g, i)
        &&& forall|i: int|
            0 <= i < old.count() ==> #[trigger] self.labels@[i] == old.right_left_rotated_label(g, i)
        &&& self.order@ == old.order@
        &&& self.root == if old.root.is(g as int) {
            old.nodes@[old.nodes@[g as int].right.index.unwrap() as int].left
        } else {
            old.root
        }
    }
}

/// A right rotation at the right child followed by a left rotation at `g`
/// is the right-left double rotation at `g`.
pub proof fn lemma_right_left_rotation<K: TotalOrder, V>(
    s0: RedBlackTree<K, V>,
    s1: RedBlackTree<K, V>,
    s2: RedBlackTree<K, V>,
    g: usize,
)
    requires
        s0.can_rotate_right_left(NodePtr { index: Some(g) }),
        s1.right_rotated(&s0, s0.nodes@[g as int].right.index.unwrap()),
        s2.left_rotated(&s1, g),
    ensures
        s2.right_left_rotated(&s0, g),
{
    let p = s0.nodes@[g as int].right.index.unwrap();
    let x = s0.nodes@[p as int].left.index.unwrap();
    assert(s0.node_linked(g as int));
    assert(s0.node_linked(p as int));
    assert(s0.node_linked(x as int));
    let to_p = s0.nodes@[x as int].right;
    let to_g = s0.nodes@[x as int].left;
    if to_p.index is Some {
        assert(s0.node_linked(to_p.index.unwrap() as int));
    }
    if to_g.index is Some {
        assert(s0.node_linked(to_g.index.unwrap() as int));
    }
    assert(s1.nodes@[g as int] == s0.right_rotated_node(p, g as int));
    assert(s1.nodes@[p as int] == s0.right_rotated_node(p, p as int));
    assert(s1.nodes@[x as int] == s0.right_rotated_node(p, x as int));
    assert(s1.labels@[g as int] == s0.right_rotated_label(p, g as int));
    assert(s1.labels@[p as int] == s0.right_rotated_label(p, p as int));
    assert(s1.labels@[x as int] == s0.right_rotated_label(p, x as int));
    assert forall|i: int| 0 <= i < s0.count() implies #[trigger] s2.nodes@[i]
        == s0.right_left_rotated_node(g, i) by {
        assert(s0.node_linked(i));
        assert(s1.nodes@[i] == s0.right_rotated_node(p, i));
        assert(s2.nodes@[i] == s1.left_rotated_node(g, i));
    }
    assert forall|i: int| 0 <= i < s0.count() implies #[trigger] s2.labels@[i]
        == s0.right_left_rotated_label(g, i) by {
        assert(s1.labels@[i] == s0.right_rotated_label(p, i));
        assert(s2.labels@[i] == s1.left_rotated_label(g, i));
    }
}

impl<K: TotalOrder, V> RedBlackTree<K, V> {
    /// Rotates right at the right child of `node`, then left at `node`.
    pub fn right_left_rotate(&mut self, node: NodePtr)
        requires
            old(self).can_rotate_right_left(node),
        ensures
            final(self).right_left_rotated(old(self), node.index.unwrap()),
            final(self).linked(),
            final(self).size == old(self).size,
    {
        let ghost g = node.index.unwrap();
        let ghost s0 = *self;
        let child = node.right(self);
        self.right_rotate(child);
        let ghost s1 = *self;
        proof {
            assert(s0.node_linked(g as int));
            assert(s1.nodes@[g as int] == s0.right_rotated_node(child.index.unwrap(), g as int));
        }
        self.left_rotate(node);
        proof {
            lemma_right_left_rotation(s0, s1, *self, g);
        }
    }
}

} // verus!
