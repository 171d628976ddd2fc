//! Restoring the red-black invariants after an insertion.
//!
//! A new node is red. Where its parent is red too, either the aunt is red
//! and three nodes are recolored, which may move the fault two levels up, or
//! the aunt is black and one or two rotations with a recoloring end it.

use vstd::prelude::*;
use crate::node::{Color, Label, Node, NodePtr, Side};
use crate::order::TotalOrder;
use crate::tree::{lemma_same_entries, lemma_same_links, RedBlackTree};

verus! {

impl<K: TotalOrder, V> RedBlackTree<K, V> {
    /// The link `c` names a red node. A null link counts as black.
    pub open spec fn red_link(&self, c: NodePtr) -> bool {
        self.node(c) matches Some(n) && n.color == Color::Red
    }

    /// The slot of the parent of slot `x`.
    pub open spec fn parent_of(&self, x: usize) -> usize {
        self.nodes@[x as int].parent.index.unwrap()
    }

    /// The link to the aunt of slot `x`: the other child of its grandparent.
    pub open spec fn aunt_of(&self, x: usize) -> NodePtr {
        let p = self.parent_of(x);
        let g = self.parent_of(p);
        if self.nodes@[p as int].side == Side::Left {
            self.nodes@[g as int].right
        } else {
            self.nodes@[g as int].left
        }
    }

    /// `x` names a red node below a red parent, and the tree is a red-black
    /// tree but for that.
    pub open spec fn red_red_at(&self, x: NodePtr) -> bool {
        &&& self.holds(x)
        &&& self.red_black_but(x.index.unwrap() as int)
        &&& self.nodes@[x.index.unwrap() as int].color == Color::Red
        &&& self.red_link(self.nodes@[x.index.unwrap() as int].parent)
    }

    /// Slot `x` is at fault: a red node, not the root, below a red parent.
    pub open spec fn at_fault(&self, x: usize) -> bool {
        &&& !self.root.is(x as int)
        &&& self.nodes@[x as int].color == Color::Red
        &&& self.red_link(self.nodes@[x as int].parent)
    }

    /// The arena, the root and the ghost placement of `self` are those of `old`.
    pub open spec fn same_tree(&self, old: &Self) -> bool {
        &&& self.nodes@ == old.nodes@
        &&& self.root == old.root
        &&& self.labels@ == old.labels@
        &&& self.order@ == old.order@
    }

    /// `self` is `old` after the rotation at the grandparent of slot `x`
    /// that the sides of `x` and of its parent call for: a single rotation
    /// where both hang on the same side, a double one where they do not.
    pub open spec fn turned(&self, old: &Self, x: usize) -> bool {
        let p = old.parent_of(x);
        let g = old.parent_of(p);
        if old.nodes@[x as int].side == Side::Left {
            if old.nodes@[p as int].side == Side::Left {
                self.right_rotated(old, g)
            } else {
                self.right_left_rotated(old, g)
            }
        } else {
            if old.nodes@[p as int].side == Side::Right {
                self.left_rotated(old, g)
            } else {
                self.left_right_rotated(old, g)
            }
        }
    }

    /// `self` is `old` after the fault at slot `x` was rotated out: the
    /// rotation at the grandparent, then the node that came to the top
    /// black and its two children red. After a single rotation the parent
    /// of `x` is on top, after a double one `x` itself.
    pub open spec fn rotated_out(&self, old: &Self, x: usize) -> bool {
        let p = old.parent_of(x);
        let g = old.parent_of(p);
        let h = old.labels@[x as int].bh;
        exists|mid: Self| #[trigger]
            mid.turned(old, x) && if old.nodes@[x as int].side == old.nodes@[p as int].side {
                self.repainted(&mid, p, x, g, h)
            } else {
                self.repainted(&mid, x, p, g, h)
            }
    }

    /// `self` is what the fixup that starts at slot `x` makes of `old` in
    /// at most `steps` color flips: nothing where `x` is not at fault; the
    /// rotation where the aunt of `x` is black; and where she is red, the
    /// color flip followed by the fixup that starts at the grandparent.
    pub open spec fn fixed_up_in(&self, old: &Self, x: usize, steps: nat) -> bool
        decreases steps,
    {
        if !old.at_fault(x) {
            self.same_tree(old)
        } else if old.red_link(old.aunt_of(x)) {
            steps > 0 && exists|mid: Self| #[trigger]
                mid.flipped(old, x) && self.fixed_up_in(
                    &mid,
                    old.parent_of(old.parent_of(x)),
                    (steps - 1) as nat,
                )
        } else {
            self.rotated_out(old, x)
        }
    }

    /// `self` is what the fixup that starts at slot `x` makes of `old`.
    pub open spec fn fixed_up(&self, old: &Self, x: usize) -> bool {
        exists|steps: nat| self.fixed_up_in(old, x, steps)
    }

    /// `self` is `old` with slot `top` black above the red slots `a` and `b`,
    /// whose subtrees have black height `h`.
    pub open spec fn repainted(&self, old: &Self, top: usize, a: usize, b: usize, h: int) -> bool {
        &&& self.nodes@.len() == old.nodes@.len()
        &&& self.labels@.len() == old.labels@.len()
        &&& self.order@ == old.order@
        &&& self.root == old.root
        &&& forall|i: int|
            0 <= i < old.count() ==> #[trigger] self.nodes@[i] == (Node {
                color: if i == top {
                    Color::Black
                } else if i == a || i == b {
                    Color::Red
                } else {
                    old.nodes@[i].color
                },
                ..old.nodes@[i]
            })
        &&& forall|i: int|
            0 <= i < old.count() ==> #[trigger] self.labels@[i] == (Label {
                bh: if i == top {
                    h + 1
                } else if i == a || i == b {
                    h
                } else {
                    old.labels@[i].bh
                },
                ..old.labels@[i]
            })
    }
}

/// Node and parent are both left children and the aunt is black: a right
/// rotation at the grandparent, with the parent black above node and
/// grandparent in red, ends the fault.
pub proof fn lemma_straight_left<K: TotalOrder, V>(
    s0: RedBlackTree<K, V>,
    s1: RedBlackTree<K, V>,
    s2: RedBlackTree<K, V>,
    x: usize,
)
    requires
        s0.red_red_at(NodePtr { index: Some(x) }),
        s0.nodes@[x as int].side == Side::Left,
        s0.nodes@[s0.parent_of(x) as int].side == Side::Left,
        !s0.red_link(s0.aunt_of(x)),
        s1.right_rotated(&s0, s0.parent_of(s0.parent_of(x))),
        s1.linked(),
        s2.repainted(&s1, s0.parent_of(x), x, s0.parent_of(s0.parent_of(x)), s0.labels@[x as int].bh),
    ensures
        s2.red_black(),
        s2.same_entries(&s0),
{
    let p = s0.parent_of(x);
    assert(s0.node_linked(x as int));
    assert(s0.node_linked(p as int));
    assert(s0.no_red_parent(p as int));
    let g = s0.parent_of(p);
    assert(s0.node_linked(g as int));
    assert(s0.node_balanced(x as int));
    assert(s0.node_balanced(p as int));
    assert(s0.node_balanced(g as int));
    let aunt = s0.nodes@[g as int].right;
    let moved = s0.nodes@[p as int].right;
    let up = s0.nodes@[g as int].parent;
    if moved.index is Some {
        assert(s0.node_linked(moved.index.unwrap() as int));
        assert(s0.no_red_parent(moved.index.unwrap() as int));
    }
    if aunt.index is Some {
        assert(s0.node_linked(aunt.index.unwrap() as int));
    }
    if up.index is Some {
        assert(s0.node_linked(up.index.unwrap() as int));
        assert(s0.node_balanced(up.index.unwrap() as int));
    }
    assert forall|i: int| 0 <= i < s0.count() implies #[trigger] s2.nodes@[i].same_entry(s0.nodes@[i]) by {
        assert(s1.nodes@[i] == s0.right_rotated_node(g, i));
    }
    lemma_same_links(s2, s1);
    lemma_same_entries(s2, s0);
    assert forall|i: int|
        #![trigger s2.node_balanced(i)]
        #![trigger s2.no_red_parent(i)]
        0 <= i < s2.count() implies s2.node_balanced(i) && s2.no_red_parent(i) by {
        assert(s0.node_linked(i));
        assert(s0.node_balanced(i));
        if i != x {
            assert(s0.no_red_parent(i));
        }
        assert(s1.nodes@[i] == s0.right_rotated_node(g, i));
        assert(s1.labels@[i] == s0.right_rotated_label(g, i));
        let n = s1.nodes@[i];
        if n.left.index is Some {
            let c = n.left.index.unwrap() as int;
            assert(s1.nodes@[c] == s0.right_rotated_node(g, c));
            assert(s1.labels@[c] == s0.right_rotated_label(g, c));
        }
        if n.right.index is Some {
            let c = n.right.index.unwrap() as int;
            assert(s1.nodes@[c] == s0.right_rotated_node(g, c));
            assert(s1.labels@[c] == s0.right_rotated_label(g, c));
        }
        if n.parent.index is Some {
            let c = n.parent.index.unwrap() as int;
            assert(s1.nodes@[c] == s0.right_rotated_node(g, c));
        }
        assert(s1.node_linked(i));
    }
    match s2.root.index {
        None => {},
        Some(r) => {
            assert(s1.nodes@[r as int] == s0.right_rotated_node(g, r as int));
            if !s0.root.is(g as int) {
                assert(s0.node_linked(s0.root.index.unwrap() as int));
            }
        },
    }
}

/// Node is a right child, its parent a left child, and the aunt is black: a
/// left-right double rotation at the grandparent, with the node black above
/// parent and grandparent in red, ends the fault.
pub proof fn lemma_bent_left<K: TotalOrder, V>(
    s0: RedBlackTree<K, V>,
    s1: RedBlackTree<K, V>,
    s2: RedBlackTree<K, V>,
    x: usize,
)
    requires
        s0.red_red_at(NodePtr { index: Some(x) }),
        s0.nodes@[x as int].side == Side::Right,
        s0.nodes@[s0.parent_of(x) as int].side == Side::Left,
        !s0.red_link(s0.aunt_of(x)),
        s1.left_right_rotated(&s0, s0.parent_of(s0.parent_of(x))),
        s1.linked(),
        s2.repainted(&s1, x, s0.parent_of(x), s0.parent_of(s0.parent_of(x)), s0.labels@[x as int].bh),
    ensures
        s2.red_black(),
        s2.same_entries(&s0),
{
    let p = s0.parent_of(x);
    assert(s0.node_linked(x as int));
    assert(s0.node_linked(p as int));
    assert(s0.no_red_parent(p as int));
    let g = s0.parent_of(p);
    assert(s0.node_linked(g as int));
    assert(s0.node_balanced(x as int));
    assert(s0.node_balanced(p as int));
    assert(s0.node_balanced(g as int));
    let aunt = s0.nodes@[g as int].right;
    let to_p = s0.nodes@[x as int].left;
    let to_g = s0.nodes@[x as int].right;
    let low = s0.nodes@[p as int].left;
    let up = s0.nodes@[g as int].parent;
    if to_p.index is Some {
        assert(s0.node_linked(to_p.index.unwrap() as int));
        assert(s0.no_red_parent(to_p.index.unwrap() as int));
    }
    if to_g.index is Some {
        assert(s0.node_linked(to_g.index.unwrap() as int));
        assert(s0.no_red_parent(to_g.index.unwrap() as int));
    }
    if low.index is Some {
        assert(s0.node_linked(low.index.unwrap() as int));
        assert(s0.no_red_parent(low.index.unwrap() as int));
    }
    if aunt.index is Some {
        assert(s0.node_linked(aunt.index.unwrap() as int));
    }
    if up.index is Some {
        assert(s0.node_linked(up.index.unwrap() as int));
        assert(s0.node_balanced(up.index.unwrap() as int));
    }
    assert forall|i: int| 0 <= i < s0.count() implies #[trigger] s2.nodes@[i].same_entry(s0.nodes@[i]) by {
        assert(s1.nodes@[i] == s0.left_right_rotated_node(g, i));
    }
    lemma_same_links(s2, s1);
    lemma_same_entries(s2, s0);
    assert forall|i: int|
        #![trigger s2.node_balanced(i)]
        #![trigger s2.no_red_parent(i)]
        0 <= i < s2.count() implies s2.node_balanced(i) && s2.no_red_parent(i) by {
        assert(s0.node_linked(i));
        assert(s0.node_balanced(i));
        if i != x {
            assert(s0.no_red_parent(i));
        }
        assert(s1.nodes@[i] == s0.left_right_rotated_node(g, i));
        assert(s1.labels@[i] == s0.left_right_rotated_label(g, i));
        let n = s1.nodes@[i];
        if n.left.index is Some {
            let c = n.left.index.unwrap() as int;
            assert(s1.nodes@[c] == s0.left_right_rotated_node(g, c));
            assert(s1.labels@[c] == s0.left_right_rotated_label(g, c));
        }
        if n.right.index is Some {
            let c = n.right.index.unwrap() as int;
            assert(s1.nodes@[c] == s0.left_right_rotated_node(g, c));
            assert(s1.labels@[c] == s0.left_right_rotated_label(g, c));
        }
        if n.parent.index is Some {
            let c = n.parent.index.unwrap() as int;
            assert(s1.nodes@[c] == s0.left_right_rotated_node(g, c));
        }
        assert(s1.node_linked(i));
    }
    match s2.root.index {
        None => {},
        Some(r) => {
            assert(s1.nodes@[r as int] == s0.left_right_rotated_node(g, r as int));
            if !s0.root.is(g as int) {
                assert(s0.node_linked(s0.root.index.unwrap() as int));
            }
        },
    }
}

/// Node and parent are both right children and the aunt is black: a left
/// rotation at the grandparent, with the parent black above node and
/// grandparent in red, ends the fault.
pub proof fn lemma_straight_right<K: TotalOrder, V>(
    s0: RedBlackTree<K, V>,
    s1: RedBlackTree<K, V>,
    s2: RedBlackTree<K, V>,
    x: usize,
)
    requires
        s0.red_red_at(NodePtr { index: Some(x) }),
        s0.nodes@[x as int].side == Side::Right,
        s0.nodes@[s0.parent_of(x) as int].side == Side::Right,
        !s0.red_link(s0.aunt_of(x)),
        s1.left_rotated(&s0, s0.parent_of(s0.parent_of(x))),
        s1.linked(),
        s2.repainted(&s1, s0.parent_of(x), x, s0.parent_of(s0.parent_of(x)), s0.labels@[x as int].bh),
    ensures
        s2.red_black(),
        s2.same_entries(&s0),
{
    let p = s0.parent_of(x);
    assert(s0.node_linked(x as int));
    assert(s0.node_linked(p as int));
    assert(s0.no_red_parent(p as int));
    let g = s0.parent_of(p);
    assert(s0.node_linked(g as int));
    assert(s0.node_balanced(x as int));
    assert(s0.node_balanced(p as int));
    assert(s0.node_balanced(g as int));
    let aunt = s0.nodes@[g as int].left;
    let moved = s0.nodes@[p as int].left;
    let up = s0.nodes@[g as int].parent;
    if moved.index is Some {
        assert(s0.node_linked(moved.index.unwrap() as int));
        assert(s0.no_red_parent(moved.index.unwrap() as int));
    }
    if aunt.index is Some {
        assert(s0.node_linked(aunt.index.unwrap() as int));
    }
    if up.index is Some {
        assert(s0.node_linked(up.index.unwrap() as int));
        assert(s0.node_balanced(up.index.unwrap() as int));
    }
    assert forall|i: int| 0 <= i < s0.count() implies #[trigger] s2.nodes@[i].same_entry(s0.nodes@[i]) by {
        assert(s1.nodes@[i] == s0.left_rotated_node(g, i));
    }
    lemma_same_links(s2, s1);
    lemma_same_entries(s2, s0);
    assert forall|i: int|
        #![trigger s2.node_balanced(i)]
        #![trigger s2.no_red_parent(i)]
        0 <= i < s2.count() implies s2.node_balanced(i) && s2.no_red_parent(i) by {
        assert(s0.node_linked(i));
        assert(s0.node_balanced(i));
        if i != x {
            assert(s0.no_red_parent(i));
        }
        assert(s1.nodes@[i] == s0.left_rotated_node(g, i));
        assert(s1.labels@[i] == s0.left_rotated_label(g, i));
        let n = s1.nodes@[i];
        if n.right.index is Some {
            let c = n.right.index.unwrap() as int;
            assert(s1.nodes@[c] == s0.left_rotated_node(g, c));
            assert(s1.labels@[c] == s0.left_rotated_label(g, c));
        }
        if n.left.index is Some {
            let c = n.left.index.unwrap() as int;
            assert(s1.nodes@[c] == s0.left_rotated_node(g, c));
            assert(s1.labels@[c] == s0.left_rotated_label(g, c));
        }
        if n.parent.index is Some {
            let c = n.parent.index.unwrap() as int;
            assert(s1.nodes@[c] == s0.left_rotated_node(g, c));
        }
        assert(s1.node_linked(i));
    }
    match s2.root.index {
        None => {},
        Some(r) => {
            assert(s1.nodes@[r as int] == s0.left_rotated_node(g, r as int));
            if !s0.root.is(g as int) {
                assert(s0.node_linked(s0.root.index.unwrap() as int));
            }
        },
    }
}

/// Node is a left child, its parent a right child, and the aunt is black: a
/// right-left double rotation at the grandparent, with the node black above
/// parent and grandparent in red, ends the fault.
pub proof fn lemma_bent_right<K: TotalOrder, V>(
    s0: RedBlackTree<K, V>,
    s1: RedBlackTree<K, V>,
    s2: RedBlackTree<K, V>,
    x: usize,
)
    requires
        s0.red_red_at(NodePtr { index: Some(x) }),
        s0.nodes@[x as int].side == Side::Left,
        s0.nodes@[s0.parent_of(x) as int].side == Side::Right,
        !s0.red_link(s0.aunt_of(x)),
        s1.right_left_rotated(&s0, s0.parent_of(s0.parent_of(x))),
        s1.linked(),
        s2.repainted(&s1, x, s0.parent_of(x), s0.parent_of(s0.parent_of(x)), s0.labels@[x as int].bh),
    ensures
        s2.red_black(),
        s2.same_entries(&s0),
{
    let p = s0.parent_of(x);
    assert(s0.node_linked(x as int));
    assert(s0.node_linked(p as int));
    assert(s0.no_red_parent(p as int));
    let g = s0.parent_of(p);
    assert(s0.node_linked(g as int));
    assert(s0.node_balanced(x as int));
    assert(s0.node_balanced(p as int));
    assert(s0.node_balanced(g as int));
    let aunt = s0.nodes@[g as int].left;
    let to_p = s0.nodes@[x as int].right;
    let to_g = s0.nodes@[x as int].left;
    let low = s0.nodes@[p as int].right;
    let up = s0.nodes@[g as int].parent;
    if to_p.index is Some {
        assert(s0.node_linked(to_p.index.unwrap() as int));
        assert(s0.no_red_parent(to_p.index.unwrap() as int));
    }
    if to_g.index is Some {
        assert(s0.node_linked(to_g.index.unwrap() as int));
        assert(s0.no_red_parent(to_g.index.unwrap() as int));
    }
    if low.index is Some {
        assert(s0.node_linked(low.index.unwrap() as int));
        assert(s0.no_red_parent(low.index.unwrap() as int));
    }
    if aunt.index is Some {
        assert(s0.node_linked(aunt.index.unwrap() as int));
    }
    if up.index is Some {
        assert(s0.node_linked(up.index.unwrap() as int));
        assert(s0.node_balanced(up.index.unwrap() as int));
    }
    assert forall|i: int| 0 <= i < s0.count() implies #[trigger] s2.nodes@[i].same_entry(s0.nodes@[i]) by {
        assert(s1.nodes@[i] == s0.right_left_rotated_node(g, i));
    }
    lemma_same_links(s2, s1);
    lemma_same_entries(s2, s0);
    assert forall|i: int|
        #![trigger s2.node_balanced(i)]
        #![trigger s2.no_red_parent(i)]
        0 <= i < s2.count() implies s2.node_balanced(i) && s2.no_red_parent(i) by {
        assert(s0.node_linked(i));
        assert(s0.node_balanced(i));
        if i != x {
            assert(s0.no_red_parent(i));
        }
        assert(s1.nodes@[i] == s0.right_left_rotated_node(g, i));
        assert(s1.labels@[i] == s0.right_left_rotated_label(g, i));
        let n = s1.nodes@[i];
        if n.right.index is Some {
            let c = n.right.index.unwrap() as int;
            assert(s1.nodes@[c] == s0.right_left_rotated_node(g, c));
            assert(s1.labels@[c] == s0.right_left_rotated_label(g, c));
        }
        if n.left.index is Some {
            let c = n.left.index.unwrap() as int;
            assert(s1.nodes@[c] == s0.right_left_rotated_node(g, c));
            assert(s1.labels@[c] == s0.right_left_rotated_label(g, c));
        }
        if n.parent.index is Some {
            let c = n.parent.index.unwrap() as int;
            assert(s1.nodes@[c] == s0.right_left_rotated_node(g, c));
        }
        assert(s1.node_linked(i));
    }
    match s2.root.index {
        None => {},
        Some(r) => {
            assert(s1.nodes@[r as int] == s0.right_left_rotated_node(g, r as int));
            if !s0.root.is(g as int) {
                assert(s0.node_linked(s0.root.index.unwrap() as int));
            }
        },
    }
}


impl<K: TotalOrder, V> RedBlackTree<K, V> {
    /// `self` is `old` after the color flip above slot `x`, whose parent and
    /// aunt are red: both turn black, and the grandparent turns red unless it
    /// is the root.
    pub open spec fn flipped(&self, old: &Self, x: usize) -> bool {
        let p = old.parent_of(x);
        let g = old.parent_of(p);
        let aunt = old.aunt_of(x);
        &&& self.nodes@.len() == old.nodes@.len()
        &&& self.labels@.len() == old.labels@.len()
        &&& self.order@ == old.order@
        &&& self.root == old.root
        &&& forall|i: int|
            0 <= i < old.count() ==> #[trigger] self.nodes@[i] == (Node {
                color: if i == p || aunt.is(i) {
                    Color::Black
                } else if i == g && !old.root.is(i) {
                    Color::Red
                } else {
                    old.nodes@[i].color
                },
                ..old.nodes@[i]
            })
        &&& forall|i: int|
            0 <= i < old.count() ==> #[trigger] self.labels@[i] == (Label {
                bh: if i == p || aunt.is(i) || (i == g && old.root.is(i)) {
                    old.labels@[i].bh + 1
                } else {
                    old.labels@[i].bh
                },
                ..old.labels@[i]
            })
    }
}

/// With a red aunt, the color flip leaves a red-black tree but for the
/// grandparent, which may now be red below a red parent.
pub proof fn lemma_flipped<K: TotalOrder, V>(s0: RedBlackTree<K, V>, s1: RedBlackTree<K, V>, x: usize)
    requires
        s0.red_red_at(NodePtr { index: Some(x) }),
        s0.red_link(s0.aunt_of(x)),
        s1.flipped(&s0, x),
    ensures
        s1.red_black_but(s0.parent_of(s0.parent_of(x)) as int),
        s1.same_entries(&s0),
        s1.same_links(&s0),
        s0.parent_of(s0.parent_of(x)) < s0.nodes@.len(),
        s0.nodes@[x as int].parent.index is Some,
        s0.nodes@[s0.parent_of(x) as int].parent.index is Some,
{
    let p = s0.parent_of(x);
    assert(s0.node_linked(x as int));
    assert(s0.node_linked(p as int));
    assert(s0.no_red_parent(p as int));
    let g = s0.parent_of(p);
    assert(s0.node_linked(g as int));
    assert(s0.node_balanced(x as int));
    assert(s0.node_balanced(p as int));
    assert(s0.node_balanced(g as int));
    let aunt = s0.aunt_of(x).index.unwrap();
    assert(s0.node_linked(aunt as int));
    assert(s0.node_balanced(aunt as int));
    lemma_same_links(s1, s0);
    lemma_same_entries(s1, s0);
    assert forall|i: int|
        #![trigger s1.node_balanced(i)]
        #![trigger s1.no_red_parent(i)]
        0 <= i < s1.count() implies s1.node_balanced(i) && (i != g ==> s1.no_red_parent(i)) by {
        assert(s0.node_linked(i));
        assert(s0.node_balanced(i));
        if i != x {
            assert(s0.no_red_parent(i));
        }
        let n = s0.nodes@[i];
        if n.left.index is Some {
            let c = n.left.index.unwrap() as int;
            assert(s0.node_linked(c));
        }
        if n.right.index is Some {
            let c = n.right.index.unwrap() as int;
            assert(s0.node_linked(c));
        }
    }
    if s0.root.index is Some {
        assert(s0.node_linked(s0.root.index.unwrap() as int));
    }
}

impl<K: TotalOrder, V> RedBlackTree<K, V> {
    /// Restores the invariants upward from `node`, the only place where a
    /// red node may stand below a red parent.
    pub fn check_color(&mut self, node: NodePtr)
        requires
            old(self).holds(node),
            old(self).red_black_but(node.index.unwrap() as int),
        ensures
            final(self).red_black(),
            final(self).same_entries(old(self)),
            final(self).size == old(self).size,
            final(self).fixed_up(old(self), node.index.unwrap()),
        decreases old(self).count() - (old(self).labels@[node.index.unwrap() as int].hi - old(
            self,
        ).labels@[node.index.unwrap() as int].lo),
    {
        let ghost x = node.index.unwrap();
        proof {
            assert(self.node_linked(x as int));
        }
        if node.same(self.root) {
            proof {
                assert(self.no_red_parent(x as int));
                assert(self.fixed_up_in(old(self), x, 0));
            }
            return ;
        }
        let parent = node.get_parent(self);
        proof {
            if !(self.red_link(node) && self.red_link(parent)) {
                assert(self.no_red_parent(x as int));
                assert(self.fixed_up_in(old(self), x, 0));
            }
        }
        if node.is_red(self) && parent.is_red(self) {
            let grandparent = parent.get_parent(self);
            let ghost before = *self;
            proof {
                assert(self.node_linked(parent.index.unwrap() as int));
                assert(self.no_red_parent(parent.index.unwrap() as int));
                assert(self.node_linked(grandparent.index.unwrap() as int));
            }
            let moved_up = self.correct_tree(node);
            proof {
                if !moved_up {
                    assert(self.fixed_up_in(&before, x, 0));
                }
            }
            if moved_up {
                proof {
                    assert(before.labels@[grandparent.index.unwrap() as int].lo
                        == self.labels@[grandparent.index.unwrap() as int].lo);
                    assert(before.labels@[grandparent.index.unwrap() as int].hi
                        == self.labels@[grandparent.index.unwrap() as int].hi);
                }
                let ghost mid = *self;
                self.check_color(grandparent);
                proof {
                    assert forall|i: int| 0 <= i < self.count() implies (#[trigger] self.nodes@[i]).same_entry(
                        before.nodes@[i],
                    ) by {
                        assert(self.nodes@[i].same_entry(mid.nodes@[i]));
                        assert(mid.nodes@[i].same_entry(before.nodes@[i]));
                    }
                    let steps = choose|steps: nat| self.fixed_up_in(&mid, grandparent.index.unwrap(), steps);
                    assert(mid.flipped(&before, x) && self.fixed_up_in(
                        &mid,
                        before.parent_of(before.parent_of(x)),
                        steps,
                    ));
                    assert(self.fixed_up_in(&before, x, steps + 1));
                }
            }
        }
    }

    /// Repairs a red node below a red parent: a rotation where the aunt is
    /// black, a color flip where she is red. Returns whether it flipped
    /// colors, after which the grandparent may be at fault in turn.
    pub fn correct_tree(&mut self, node: NodePtr) -> (moved_up: bool)
        requires
            old(self).red_red_at(node),
        ensures
            final(self).same_entries(old(self)),
            final(self).size == old(self).size,
            moved_up == old(self).red_link(old(self).aunt_of(node.index.unwrap())),
            !moved_up ==> final(self).red_black(),
            !moved_up ==> final(self).rotated_out(old(self), node.index.unwrap()),
            moved_up ==> final(self).flipped(old(self), node.index.unwrap()),
            moved_up ==> final(self).same_links(old(self)),
            moved_up ==> final(self).red_black_but(
                old(self).parent_of(old(self).parent_of(node.index.unwrap())) as int,
            ),
    {
        let ghost x = node.index.unwrap();
        let ghost before = *self;
        proof {
            assert(self.node_linked(x as int));
            assert(self.node_linked(self.parent_of(x) as int));
            assert(self.no_red_parent(self.parent_of(x) as int));
            assert(self.node_linked(self.parent_of(self.parent_of(x)) as int));
        }
        let parent = node.get_parent(self);
        let grandparent = parent.get_parent(self);
        let aunt = if parent.is_left(self) {
            grandparent.right(self)
        } else {
            grandparent.left(self)
        };
        if aunt.is_null() || aunt.is_black(self) {
            self.rotate(node);
            return false;
        }
        proof {
            assert(self.node_linked(aunt.index.unwrap() as int));
        }
        parent.set_color_black(self);
        if !grandparent.is_root(self) {
            grandparent.set_color_red(self);
        }
        aunt.set_color_black(self);
        proof {
            self.labels@ = Seq::new(
                before.labels@.len(),
                |i: int|
                    Label {
                        bh: if parent.is(i) || aunt.is(i) || (grandparent.is(i) && before.root.is(i)) {
                            before.labels@[i].bh + 1
                        } else {
                            before.labels@[i].bh
                        },
                        ..before.labels@[i]
                    },
            );
            lemma_flipped(before, *self, x);
        }
        true
    }

    /// Ends a red-red fault below a black aunt by one or two rotations at
    /// the grandparent and a recoloring of the three nodes that moved.
    pub fn rotate(&mut self, node: NodePtr)
        requires
            old(self).red_red_at(node),
            !old(self).red_link(old(self).aunt_of(node.index.unwrap())),
        ensures
            final(self).red_black(),
            final(self).same_entries(old(self)),
            final(self).size == old(self).size,
            final(self).rotated_out(old(self), node.index.unwrap()),
    {
        let ghost x = node.index.unwrap();
        let ghost s0 = *self;
        proof {
            assert(self.node_linked(x as int));
            assert(self.node_linked(self.parent_of(x) as int));
            assert(self.no_red_parent(self.parent_of(x) as int));
            assert(self.node_linked(self.parent_of(self.parent_of(x)) as int));
        }
        let parent = node.get_parent(self);
        let grandparent = parent.get_parent(self);
        let ghost h = self.labels@[x as int].bh;
        if node.is_left(self) {
            if parent.is_left(self) {
                self.right_rotate(grandparent);
                let ghost s1 = *self;
                proof {
                    assert(s1.nodes@[x as int] == s0.right_rotated_node(grandparent.index.unwrap(), x as int));
                    assert(s1.nodes@[parent.index.unwrap() as int] == s0.right_rotated_node(
                        grandparent.index.unwrap(),
                        parent.index.unwrap() as int,
                    ));
                }
                node.set_color_red(self);
                let top = node.get_parent(self);
                top.set_color_black(self);
                let other = top.right(self);
                if !other.is_null() {
                    other.set_color_red(self);
                }
                proof {
                    self.labels@ = Seq::new(
                        s1.labels@.len(),
                        |i: int|
                            Label {
                                bh: if parent.is(i) {
                                    h + 1
                                } else if node.is(i) || grandparent.is(i) {
                                    h
                                } else {
                                    s1.labels@[i].bh
                                },
                                ..s1.labels@[i]
                            },
                    );
                    lemma_straight_left(s0, s1, *self, x);
                    assert(s1.turned(&s0, x));
                }
                return ;
            }
            self.right_left_rotate(grandparent);
            let ghost s1 = *self;
            proof {
                assert(s1.nodes@[x as int] == s0.right_left_rotated_node(grandparent.index.unwrap(), x as int));
            }
            node.set_color_black(self);
            node.left(self).set_color_red(self);
            node.right(self).set_color_red(self);
            proof {
                self.labels@ = Seq::new(
                    s1.labels@.len(),
                    |i: int|
                        Label {
                            bh: if node.is(i) {
                                h + 1
                            } else if parent.is(i) || grandparent.is(i) {
                                h
                            } else {
                                s1.labels@[i].bh
                            },
                            ..s1.labels@[i]
                        },
                );
                lemma_bent_right(s0, s1, *self, x);
                assert(s1.turned(&s0, x));
            }
            return ;
        } else {
            if parent.is_right(self) {
                self.left_rotate(grandparent);
                let ghost s1 = *self;
                proof {
                    assert(s1.nodes@[x as int] == s0.left_rotated_node(grandparent.index.unwrap(), x as int));
                    assert(s1.nodes@[parent.index.unwrap() as int] == s0.left_rotated_node(
                        grandparent.index.unwrap(),
                        parent.index.unwrap() as int,
                    ));
                }
                node.set_color_red(self);
                let top = node.get_parent(self);
                top.set_color_black(self);
                let other = top.left(self);
                if !other.is_null() {
                    other.set_color_red(self);
                }
                proof {
                    self.labels@ = Seq::new(
                        s1.labels@.len(),
                        |i: int|
                            Label {
                                bh: if parent.is(i) {
                                    h + 1
                                } else if node.is(i) || grandparent.is(i) {
                                    h
                                } else {
                                    s1.labels@[i].bh
                                },
                                ..s1.labels@[i]
                            },
                    );
                    lemma_straight_right(s0, s1, *self, x);
                    assert(s1.turned(&s0, x));
                }
                return ;
            }
            self.left_right_rotate(grandparent);
            let ghost s1 = *self;
            proof {
                assert(s1.nodes@[x as int] == s0.left_right_rotated_node(grandparent.index.unwrap(), x as int));
            }
            node.set_color_black(self);
            node.left(self).set_color_red(self);
            node.right(self).set_color_red(self);
            proof {
                self.labels@ = Seq::new(
                    s1.labels@.len(),
                    |i: int|
                        Label {
                            bh: if node.is(i) {
                                h + 1
                            } else if parent.is(i) || grandparent.is(i) {
                                h
                            } else {
                                s1.labels@[i].bh
                            },
                            ..s1.labels@[i]
                        },
                );
                lemma_bent_left(s0, s1, *self, x);
                assert(s1.turned(&s0, x));
            }
            return ;
        }
    }
}

} // verus!
