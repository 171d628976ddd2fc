//! The tree while a traversal is under way.
//!
//! The traversal keeps no stack. Before it descends into the left subtree of
//! a node, it lets the last node of that subtree, whose right link is null,
//! point back to the node: a thread. It takes the thread away when it comes
//! back over it. So between two steps the arena is a red-black tree but for
//! the threads that are live, and this module says which those are.

use vstd::prelude::*;
use crate::node::{Color, NodePtr, Side};
use crate::order::TotalOrder;
use crate::tree::RedBlackTree;

verus! {

impl<K: TotalOrder, V> RedBlackTree<K, V> {
    /// The node `c` lies in the left subtree of slot `t`.
    pub open spec fn inside_left(&self, t: int, c: NodePtr) -> bool {
        c.index matches Some(c) && self.labels@[t].lo <= self.labels@[c as int].lo
            && self.labels@[c as int].hi <= self.labels@[t].pos
    }

    /// The thread that leads to slot `t` is live when the traversal stands
    /// at `cur` with `e` nodes given out: it has gone into the left subtree
    /// of `t` and has not yet given out `t`.
    pub open spec fn live(&self, t: int, cur: NodePtr, e: int) -> bool {
        &&& self.labels@[t].lo < self.labels@[t].pos
        &&& {
            ||| self.labels@[t].lo < e <= self.labels@[t].pos
            ||| e == self.labels@[t].lo && self.inside_left(t, cur)
        }
    }

    /// Slot `i` has no right child: its subtree ends with itself.
    pub open spec fn ends_here(&self, i: int) -> bool {
        self.labels@[i].hi == self.labels@[i].pos + 1
    }

    /// The right link that slot `i` must hold at this point of the traversal.
    pub open spec fn right_fits(&self, i: int, cur: NodePtr, e: int) -> bool {
        let l = self.labels@[i];
        let right = self.nodes@[i].right;
        if self.ends_here(i) {
            if l.pos + 1 < self.count() && self.live(self.order@[l.pos + 1], cur, e) {
                right.is(self.order@[l.pos + 1])
            } else {
                right.index is None
            }
        } else {
            right.index is Some && self.child_fits(right, i, Side::Right, l.pos + 1, l.hi)
        }
    }

    /// The parent link of slot `i` agrees with its side marker and with the
    /// placement of the parent.
    pub open spec fn hangs(&self, i: int) -> bool {
        let node = self.nodes@[i];
        let l = self.labels@[i];
        match node.parent.index {
            None => node.side == Side::Root && self.root.is(i),
            Some(p) => {
                &&& p < self.nodes@.len()
                &&& match node.side {
                    Side::Left => {
                        &&& self.nodes@[p as int].left.is(i)
                        &&& self.labels@[p as int].lo == l.lo
                        &&& self.labels@[p as int].pos == l.hi
                    },
                    Side::Right => {
                        &&& self.nodes@[p as int].right.is(i)
                        &&& self.labels@[p as int].pos + 1 == l.lo
                        &&& self.labels@[p as int].hi == l.hi
                    },
                    Side::Root => false,
                }
            },
        }
    }

    /// The links of slot `i` are those of the tree, but for a live thread in
    /// place of a null right link.
    pub open spec fn node_threaded(&self, i: int, cur: NodePtr, e: int) -> bool {
        let node = self.nodes@[i];
        let l = self.labels@[i];
        &&& 0 <= l.lo <= l.pos < l.hi <= self.count()
        &&& self.order@[l.pos] == i
        &&& self.child_fits(node.left, i, Side::Left, l.lo, l.pos)
        &&& self.right_fits(i, cur, e)
        &&& self.hangs(i)
    }

    /// The black height below the right child of slot `i`, whatever thread
    /// its right link may hold.
    pub open spec fn right_black_height(&self, i: int) -> int {
        if self.ends_here(i) {
            0
        } else {
            self.black_height(self.nodes@[i].right)
        }
    }

    /// Slot `i` is balanced when threads are left out.
    pub open spec fn node_balanced_unthreaded(&self, i: int) -> bool {
        let node = self.nodes@[i];
        &&& self.black_height(node.left) == self.right_black_height(i)
        &&& self.labels@[i].bh == self.black_height(node.left) + if node.color == Color::Black {
            1int
        } else {
            0int
        }
    }

    /// Where the traversal stands: at the end, or at a node that it visits
    /// for the first time, before its subtree, or for the second time, right
    /// after its left subtree.
    pub open spec fn stands_at(&self, cur: NodePtr, e: int) -> bool {
        match cur.index {
            None => e == self.count(),
            Some(c) => {
                &&& c < self.nodes@.len()
                &&& e == self.labels@[c as int].lo || e == self.labels@[c as int].pos
            },
        }
    }

    /// The state of the tree between two steps of a traversal that stands at
    /// `cur` and has given out the first `e` nodes: a red-black tree but for
    /// the live threads.
    pub open spec fn threaded(&self, cur: NodePtr, e: int) -> bool {
        &&& self.labels@.len() == self.nodes@.len()
        &&& self.order@.len() == self.nodes@.len()
        &&& 0 <= e <= self.count()
        &&& self.stands_at(cur, e)
        &&& forall|i: int| 0 <= i < self.count() ==> #[trigger] self.node_threaded(i, cur, e)
        &&& forall|a: int| 0 <= a < self.count() ==> #[trigger] self.position_taken(a)
        &&& match self.root.index {
            None => self.count() == 0,
            Some(r) => {
                &&& r < self.nodes@.len()
                &&& self.nodes@[r as int].parent.index is None
                &&& self.labels@[r as int].lo == 0
                &&& self.labels@[r as int].hi == self.count()
            },
        }
        &&& self.ordered()
        &&& self.root_is_black()
        &&& self.no_red_red()
        &&& forall|i: int| 0 <= i < self.count() ==> #[trigger] self.node_balanced_unthreaded(i)
    }
}

/// A red-black tree is the state of a traversal that has not begun.
pub proof fn lemma_traversal_begins<K: TotalOrder, V>(tree: RedBlackTree<K, V>)
    requires
        tree.red_black(),
    ensures
        tree.threaded(tree.root, 0),
{
    let cur = tree.root;
    if cur.index is Some {
        assert(tree.node_linked(cur.index.unwrap() as int));
    }
    assert forall|i: int| 0 <= i < tree.count() implies #[trigger] tree.node_threaded(i, cur, 0) by {
        assert(tree.node_linked(i));
        let node = tree.nodes@[i];
        if node.right.index is Some {
            assert(tree.node_linked(node.right.index.unwrap() as int));
        }
        if node.parent.index is Some {
            assert(tree.node_linked(node.parent.index.unwrap() as int));
        }
        let l = tree.labels@[i];
        if l.pos + 1 < tree.count() {
            assert(tree.position_taken(l.pos + 1));
            assert(tree.node_linked(tree.order@[l.pos + 1]));
        }
    }
    assert forall|i: int| 0 <= i < tree.count() implies #[trigger] tree.node_balanced_unthreaded(i) by {
        assert(tree.node_linked(i));
        assert(tree.node_balanced(i));
        let node = tree.nodes@[i];
        if node.right.index is Some {
            assert(tree.node_linked(node.right.index.unwrap() as int));
        }
    }
}

/// Once the traversal has given out every node, the tree is a red-black tree again.
pub proof fn lemma_traversal_ends<K: TotalOrder, V>(tree: RedBlackTree<K, V>)
    requires
        tree.threaded(NodePtr { index: None }, tree.count()),
    ensures
        tree.red_black(),
{
    let cur = NodePtr { index: None };
    let e = tree.count();
    assert forall|i: int| 0 <= i < tree.count() implies #[trigger] tree.node_linked(i) by {
        assert(tree.node_threaded(i, cur, e));
        let l = tree.labels@[i];
        if l.pos + 1 < tree.count() {
            assert(tree.position_taken(l.pos + 1));
            assert(tree.node_threaded(tree.order@[l.pos + 1], cur, e));
        }
    }
    assert forall|i: int| 0 <= i < tree.count() implies #[trigger] tree.node_balanced(i) by {
        assert(tree.node_threaded(i, cur, e));
        assert(tree.node_balanced_unthreaded(i));
        let l = tree.labels@[i];
        if l.pos + 1 < tree.count() {
            assert(tree.position_taken(l.pos + 1));
            assert(tree.node_threaded(tree.order@[l.pos + 1], cur, e));
        }
    }
}

/// Subtrees nest: a node whose position lies in the range of slot `b` lies
/// in the subtree of `b`, on the side of `b` where its position is, and so
/// does its parent unless the node is `b` itself.
pub proof fn lemma_enclosed<K: TotalOrder, V>(
    tree: RedBlackTree<K, V>,
    cur: NodePtr,
    e: int,
    a: int,
    b: int,
)
    requires
        tree.threaded(cur, e),
        0 <= a < tree.count(),
        0 <= b < tree.count(),
        tree.labels@[b].lo <= tree.labels@[a].pos < tree.labels@[b].hi,
    ensures
        tree.labels@[b].lo <= tree.labels@[a].lo,
        tree.labels@[a].hi <= tree.labels@[b].hi,
        tree.labels@[a].pos < tree.labels@[b].pos ==> tree.labels@[a].hi <= tree.labels@[b].pos,
        tree.labels@[a].pos > tree.labels@[b].pos ==> tree.labels@[a].lo > tree.labels@[b].pos,
        tree.labels@[a].pos == tree.labels@[b].pos ==> a == b,
        a != b ==> tree.nodes@[a].parent.index is Some && tree.labels@[b].lo
            <= tree.labels@[tree.nodes@[a].parent.index.unwrap() as int].pos < tree.labels@[b].hi,
    decreases tree.labels@[b].hi - tree.labels@[b].lo,
{
    assert(tree.node_threaded(a, cur, e));
    assert(tree.node_threaded(b, cur, e));
    if tree.labels@[a].pos < tree.labels@[b].pos {
        let l = tree.nodes@[b].left.index.unwrap() as int;
        assert(tree.node_threaded(l, cur, e));
        lemma_enclosed(tree, cur, e, a, l);
    } else if tree.labels@[a].pos > tree.labels@[b].pos {
        let r = tree.nodes@[b].right.index.unwrap() as int;
        assert(tree.node_threaded(r, cur, e));
        lemma_enclosed(tree, cur, e, a, r);
    }
}

/// Below slot `b`, whose range holds the position of `c` and the next one:
/// where the subtree of `c` ends with `c`, the node after `c` has `c` in
/// its left subtree.
pub proof fn lemma_successor_below<K: TotalOrder, V>(
    tree: RedBlackTree<K, V>,
    cur: NodePtr,
    e: int,
    c: int,
    b: int,
)
    requires
        tree.threaded(cur, e),
        0 <= c < tree.count(),
        0 <= b < tree.count(),
        tree.ends_here(c),
        tree.labels@[b].lo <= tree.labels@[c].pos,
        tree.labels@[c].pos + 1 < tree.labels@[b].hi,
    ensures
        tree.labels@[tree.order@[tree.labels@[c].pos + 1]].lo <= tree.labels@[c].pos,
    decreases tree.labels@[b].hi - tree.labels@[b].lo,
{
    assert(tree.node_threaded(c, cur, e));
    assert(tree.node_threaded(b, cur, e));
    let at = tree.labels@[c].pos;
    if tree.labels@[b].pos == at + 1 {
    } else if tree.labels@[b].pos > at + 1 {
        let l = tree.nodes@[b].left.index.unwrap() as int;
        assert(tree.node_threaded(l, cur, e));
        lemma_successor_below(tree, cur, e, c, l);
    } else if tree.labels@[b].pos < at {
        let r = tree.nodes@[b].right.index.unwrap() as int;
        assert(tree.node_threaded(r, cur, e));
        lemma_successor_below(tree, cur, e, c, r);
    } else {
        lemma_enclosed(tree, cur, e, c, b);
    }
}

/// Where the subtree of `c` ends with `c` and `c` is not the last node, the
/// node after `c` has `c` in its left subtree.
pub proof fn lemma_successor<K: TotalOrder, V>(tree: RedBlackTree<K, V>, cur: NodePtr, e: int, c: int)
    requires
        tree.threaded(cur, e),
        0 <= c < tree.count(),
        tree.ends_here(c),
        tree.labels@[c].pos + 1 < tree.count(),
    ensures
        tree.labels@[tree.order@[tree.labels@[c].pos + 1]].lo <= tree.labels@[c].pos,
{
    assert(tree.node_threaded(c, cur, e));
    lemma_successor_below(tree, cur, e, c, tree.root.index.unwrap() as int);
}

impl<K: TotalOrder, V> RedBlackTree<K, V> {
    /// `self` is `old` but for right links: a traversal has laid or taken
    /// away threads, and nothing else differs.
    pub open spec fn same_but_right_links(&self, old: &Self) -> bool {
        &&& self.root == old.root
        &&& self.size == old.size
        &&& self.labels@ == old.labels@
        &&& self.order@ == old.order@
        &&& self.nodes@.len() == old.nodes@.len()
        &&& forall|i: int|
            0 <= i < old.count() ==> #[trigger] self.nodes@[i] == (crate::node::Node {
                right: self.nodes@[i].right,
                ..old.nodes@[i]
            })
    }

    /// `self` is `old` with the right link of slot `m` replaced by `link`.
    pub open spec fn relinked_right(&self, old: &Self, m: int, link: NodePtr) -> bool {
        &&& self.root == old.root
        &&& self.size == old.size
        &&& self.labels@ == old.labels@
        &&& self.order@ == old.order@
        &&& self.nodes@.len() == old.nodes@.len()
        &&& forall|i: int|
            0 <= i < old.count() ==> #[trigger] self.nodes@[i] == if i == m {
                crate::node::Node { right: link, ..old.nodes@[i] }
            } else {
                old.nodes@[i]
            }
    }
}

/// Giving out a node without a left subtree, and going on along its right
/// link, leaves every thread as it was.
pub proof fn lemma_live_after_leaf<K: TotalOrder, V>(tree: RedBlackTree<K, V>, c: usize, e: int, t: int)
    requires
        tree.threaded(NodePtr { index: Some(c) }, e),
        tree.nodes@[c as int].left.index is None,
        0 <= t < tree.count(),
    ensures
        e == tree.labels@[c as int].pos,
        tree.live(t, tree.nodes@[c as int].right, e + 1) == tree.live(t, NodePtr { index: Some(c) }, e),
{
    let cur = NodePtr { index: Some(c) };
    let next = tree.nodes@[c as int].right;
    assert(tree.node_threaded(c as int, cur, e));
    assert(tree.node_threaded(t, cur, e));
    let lt = tree.labels@[t];
    if lt.lo < lt.pos {
        if lt.lo <= e < lt.pos {
            lemma_enclosed(tree, cur, e, c as int, t);
        }
        if e + 1 == lt.lo && tree.inside_left(t, next) {
            let r = next.index.unwrap() as int;
            if tree.ends_here(c as int) {
                assert(tree.position_taken(e + 1));
                assert(tree.node_threaded(r, cur, e));
            } else {
                assert(tree.node_threaded(r, cur, e));
                lemma_enclosed(tree, cur, e, r, t);
            }
        }
    }
}

/// Giving out a node without a left subtree leaves the traversal at the
/// node that its right link names, with one more node given out.
pub proof fn lemma_step_leaf<K: TotalOrder, V>(tree: RedBlackTree<K, V>, c: usize, e: int)
    requires
        tree.threaded(NodePtr { index: Some(c) }, e),
        tree.nodes@[c as int].left.index is None,
    ensures
        e == tree.labels@[c as int].pos,
        tree.order@[e] == c,
        tree.threaded(tree.nodes@[c as int].right, e + 1),
{
    let cur = NodePtr { index: Some(c) };
    let next = tree.nodes@[c as int].right;
    assert(tree.node_threaded(c as int, cur, e));
    lemma_live_after_leaf(tree, c, e, c as int);
    assert forall|i: int| 0 <= i < tree.count() implies #[trigger] tree.node_threaded(i, next, e + 1) by {
        assert(tree.node_threaded(i, cur, e));
        let l = tree.labels@[i];
        if l.pos + 1 < tree.count() {
            assert(tree.position_taken(l.pos + 1));
            lemma_live_after_leaf(tree, c, e, tree.order@[l.pos + 1]);
        }
    }
    if tree.ends_here(c as int) {
        if e + 1 < tree.count() {
            assert(tree.position_taken(e + 1));
            let s = tree.order@[e + 1];
            lemma_successor(tree, cur, e, c as int);
            assert(tree.node_threaded(s, cur, e));
            assert(tree.live(s, cur, e));
        }
    } else {
        assert(tree.node_threaded(next.index.unwrap() as int, cur, e));
    }
}

/// Threading the last node `m` of the left subtree of `c` to `c` and
/// stepping to the left child of `c` makes that one thread live and leaves
/// every other thread as it was.
pub proof fn lemma_live_after_thread<K: TotalOrder, V>(tree: RedBlackTree<K, V>, c: usize, e: int, t: int)
    requires
        tree.threaded(NodePtr { index: Some(c) }, e),
        tree.nodes@[c as int].left.index is Some,
        e == tree.labels@[c as int].lo,
        0 <= t < tree.count(),
    ensures
        tree.live(t, tree.nodes@[c as int].left, e) == (t == c || tree.live(t, NodePtr { index: Some(c) }, e)),
        !tree.live(c as int, NodePtr { index: Some(c) }, e),
{
    let cur = NodePtr { index: Some(c) };
    let next = tree.nodes@[c as int].left;
    assert(tree.node_threaded(c as int, cur, e));
    assert(tree.node_threaded(t, cur, e));
    assert(tree.node_threaded(next.index.unwrap() as int, cur, e));
    let lt = tree.labels@[t];
    if t != c && lt.lo < lt.pos && lt.lo == e {
        if tree.labels@[c as int].pos < lt.pos {
            lemma_enclosed(tree, cur, e, c as int, t);
        } else {
            lemma_enclosed(tree, cur, e, t, c as int);
        }
    }
}

/// The first visit to a node with a left subtree: once the last node of
/// that subtree is threaded to it, the traversal stands at its left child.
pub proof fn lemma_step_thread<K: TotalOrder, V>(
    s0: RedBlackTree<K, V>,
    s1: RedBlackTree<K, V>,
    c: usize,
    m: int,
    e: int,
)
    requires
        s0.threaded(NodePtr { index: Some(c) }, e),
        s0.nodes@[c as int].left.index is Some,
        0 <= m < s0.count(),
        s0.labels@[m].hi == s0.labels@[c as int].pos,
        s0.nodes@[m].right.index is None,
        s1.relinked_right(&s0, m, NodePtr { index: Some(c) }),
    ensures
        e == s0.labels@[c as int].lo,
        s1.threaded(s0.nodes@[c as int].left, e),
        s1.same_entries(&s0),
        s1.same_but_right_links(&s0),
{
    let cur = NodePtr { index: Some(c) };
    let next = s0.nodes@[c as int].left;
    assert(s0.node_threaded(c as int, cur, e));
    assert(s0.node_threaded(m, cur, e));
    assert(s0.node_threaded(next.index.unwrap() as int, cur, e));
    assert(s0.position_taken(s0.labels@[c as int].pos));
    assert(s0.ends_here(m));
    assert(!s0.live(c as int, cur, e));
    assert(e == s0.labels@[c as int].lo);
    assert forall|t: int| 0 <= t < s0.count() implies s1.live(t, next, e) == (t == c || s0.live(
        t,
        cur,
        e,
    )) by {
        lemma_live_after_thread(s0, c, e, t);
    }
    assert forall|i: int| 0 <= i < s1.count() implies #[trigger] s1.node_threaded(i, next, e) by {
        assert(s0.node_threaded(i, cur, e));
        let node = s0.nodes@[i];
        let l = s0.labels@[i];
        if l.pos + 1 < s0.count() {
            assert(s0.position_taken(l.pos + 1));
            let t = s0.order@[l.pos + 1];
            assert(s1.live(t, next, e) == (t == c || s0.live(t, cur, e)));
            if t == c && i != m {
                lemma_same_position(s0, cur, e, i, m);
            }
        }
        if node.left.index is Some {
            let k = node.left.index.unwrap() as int;
            assert(s1.nodes@[k].parent == s0.nodes@[k].parent);
        }
        if node.right.index is Some {
            let k = node.right.index.unwrap() as int;
            assert(s1.nodes@[k].parent == s0.nodes@[k].parent);
        }
        if node.parent.index is Some {
            let k = node.parent.index.unwrap() as int;
            assert(s0.node_threaded(k, cur, e));
            assert(s1.nodes@[k].left == s0.nodes@[k].left);
        }
    }
    assert forall|a: int| 0 <= a < s1.count() implies #[trigger] s1.position_taken(a) by {
        assert(s0.position_taken(a));
    }
    assert forall|i: int| 0 <= i < s1.count() implies #[trigger] s1.node_balanced_unthreaded(i) by {
        assert(s0.node_balanced_unthreaded(i));
    }
    assert forall|i: int| 0 <= i < s1.count() implies #[trigger] s1.no_red_parent(i) by {
        assert(s0.no_red_parent(i));
        if s0.nodes@[i].parent.index is Some {
            assert(s0.node_threaded(i, cur, e));
        }
    }
    assert forall|a: int| 0 <= a < s0.count() implies s1.keys()[a] == s0.keys()[a] by {
        assert(s0.position_taken(a));
    }
    assert(s1.keys() =~= s0.keys());
}

/// Two slots at the same position are one slot.
pub proof fn lemma_same_position<K: TotalOrder, V>(
    tree: RedBlackTree<K, V>,
    cur: NodePtr,
    e: int,
    i: int,
    j: int,
)
    requires
        tree.threaded(cur, e),
        0 <= i < tree.count(),
        0 <= j < tree.count(),
        tree.labels@[i].pos == tree.labels@[j].pos,
    ensures
        i == j,
{
    assert(tree.node_threaded(i, cur, e));
    assert(tree.node_threaded(j, cur, e));
}

/// Giving out a node on the second visit, with its thread taken away, and
/// going on along its right link ends that one thread and leaves every
/// other thread as it was.
pub proof fn lemma_live_after_unthread<K: TotalOrder, V>(
    tree: RedBlackTree<K, V>,
    c: usize,
    e: int,
    t: int,
)
    requires
        tree.threaded(NodePtr { index: Some(c) }, e),
        tree.nodes@[c as int].left.index is Some,
        e == tree.labels@[c as int].pos,
        0 <= t < tree.count(),
    ensures
        tree.live(t, tree.nodes@[c as int].right, e + 1) == (t != c && tree.live(
            t,
            NodePtr { index: Some(c) },
            e,
        )),
        tree.live(c as int, NodePtr { index: Some(c) }, e),
{
    let cur = NodePtr { index: Some(c) };
    let next = tree.nodes@[c as int].right;
    assert(tree.node_threaded(c as int, cur, e));
    assert(tree.node_threaded(t, cur, e));
    assert(tree.node_threaded(tree.nodes@[c as int].left.index.unwrap() as int, cur, e));
    let lt = tree.labels@[t];
    if t != c && lt.lo < lt.pos {
        if lt.lo <= e < lt.pos {
            lemma_enclosed(tree, cur, e, c as int, t);
        }
        if lt.pos == e {
            lemma_same_position(tree, cur, e, t, c as int);
        }
        if e + 1 == lt.lo && tree.inside_left(t, next) {
            let r = next.index.unwrap() as int;
            if tree.ends_here(c as int) {
                assert(tree.position_taken(e + 1));
                assert(tree.node_threaded(r, cur, e));
            } else {
                assert(tree.node_threaded(r, cur, e));
                lemma_enclosed(tree, cur, e, r, t);
            }
        }
    }
}

/// The second visit to a node with a left subtree: once its thread is
/// taken away, the node is given out and the traversal stands at the node
/// that its right link names.
pub proof fn lemma_step_unthread<K: TotalOrder, V>(
    s0: RedBlackTree<K, V>,
    s1: RedBlackTree<K, V>,
    c: usize,
    m: int,
    e: int,
)
    requires
        s0.threaded(NodePtr { index: Some(c) }, e),
        s0.nodes@[c as int].left.index is Some,
        0 <= m < s0.count(),
        s0.labels@[m].hi == s0.labels@[c as int].pos,
        s0.nodes@[m].right.is(c as int),
        s1.relinked_right(&s0, m, NodePtr { index: None }),
    ensures
        e == s0.labels@[c as int].pos,
        s0.order@[e] == c,
        s1.threaded(s1.nodes@[c as int].right, e + 1),
        s1.same_entries(&s0),
        s1.same_but_right_links(&s0),
{
    let cur = NodePtr { index: Some(c) };
    assert(s0.node_threaded(c as int, cur, e));
    assert(s0.node_threaded(m, cur, e));
    assert(s0.position_taken(s0.labels@[c as int].pos));
    assert(s0.ends_here(m));
    assert(s0.live(c as int, cur, e));
    assert(e == s0.labels@[c as int].pos);
    assert(s1.nodes@[c as int] == s0.nodes@[c as int]);
    let next = s0.nodes@[c as int].right;
    assert forall|t: int| 0 <= t < s0.count() implies s1.live(t, next, e + 1) == (t != c && s0.live(
        t,
        cur,
        e,
    )) by {
        lemma_live_after_unthread(s0, c, e, t);
    }
    assert forall|i: int| 0 <= i < s1.count() implies #[trigger] s1.node_threaded(i, next, e + 1) by {
        assert(s0.node_threaded(i, cur, e));
        let node = s0.nodes@[i];
        let l = s0.labels@[i];
        if l.pos + 1 < s0.count() {
            assert(s0.position_taken(l.pos + 1));
            let t = s0.order@[l.pos + 1];
            assert(s1.live(t, next, e + 1) == (t != c && s0.live(t, cur, e)));
            if t == c && i != m {
                lemma_same_position(s0, cur, e, i, m);
            }
        }
        if node.left.index is Some {
            let k = node.left.index.unwrap() as int;
            assert(s1.nodes@[k].parent == s0.nodes@[k].parent);
        }
        if node.right.index is Some && i != m {
            let k = node.right.index.unwrap() as int;
            assert(s1.nodes@[k].parent == s0.nodes@[k].parent);
        }
        if node.parent.index is Some {
            let k = node.parent.index.unwrap() as int;
            assert(s0.node_threaded(k, cur, e));
            assert(s1.nodes@[k].left == s0.nodes@[k].left);
        }
    }
    assert forall|a: int| 0 <= a < s1.count() implies #[trigger] s1.position_taken(a) by {
        assert(s0.position_taken(a));
    }
    assert forall|i: int| 0 <= i < s1.count() implies #[trigger] s1.node_balanced_unthreaded(i) by {
        assert(s0.node_balanced_unthreaded(i));
    }
    assert forall|i: int| 0 <= i < s1.count() implies #[trigger] s1.no_red_parent(i) by {
        assert(s0.no_red_parent(i));
        if s0.nodes@[i].parent.index is Some {
            assert(s0.node_threaded(i, cur, e));
        }
    }
    assert forall|a: int| 0 <= a < s0.count() implies s1.keys()[a] == s0.keys()[a] by {
        assert(s0.position_taken(a));
    }
    assert(s1.keys() =~= s0.keys());
    if s0.ends_here(c as int) {
        if e + 1 < s0.count() {
            assert(s0.position_taken(e + 1));
            let s = s0.order@[e + 1];
            lemma_successor(s0, cur, e, c as int);
            assert(s0.node_threaded(s, cur, e));
            lemma_enclosed(s0, cur, e, c as int, s);
        }
    } else {
        assert(s0.node_threaded(next.index.unwrap() as int, cur, e));
    }
}

/// A tree with the entries and the listing of a threaded tree lists the
/// same keys and entries.
pub proof fn lemma_threaded_listing<K: TotalOrder, V>(
    new: RedBlackTree<K, V>,
    old: RedBlackTree<K, V>,
    cur: NodePtr,
    e: int,
)
    requires
        old.threaded(cur, e),
        new.same_entries(&old),
    ensures
        new.keys() == old.keys(),
        new.entries() == old.entries(),
{
    assert forall|a: int| 0 <= a < old.count() implies new.keys()[a] == old.keys()[a]
        && new.entries()[a] == old.entries()[a] by {
        assert(old.position_taken(a));
    }
    assert(new.keys() =~= old.keys());
    assert(new.entries() =~= old.entries());
}

/// The right links of a tree are determined by the rest of it: a tree that
/// differs from a linked tree in right links at most, and is linked, is
/// that tree.
pub proof fn lemma_traversal_restores<K: TotalOrder, V>(new: RedBlackTree<K, V>, old: RedBlackTree<K, V>)
    requires
        old.linked(),
        new.linked(),
        new.same_but_right_links(&old),
    ensures
        new.nodes@ == old.nodes@,
{
    assert forall|i: int| 0 <= i < old.count() implies new.nodes@[i] == old.nodes@[i] by {
        assert(new.node_linked(i));
        assert(old.node_linked(i));
        let theirs = old.nodes@[i].right;
        let ours = new.nodes@[i].right;
        if theirs.index is Some {
            assert(old.node_linked(theirs.index.unwrap() as int));
        }
        if ours.index is Some {
            let c = ours.index.unwrap() as int;
            assert(new.node_linked(c));
            assert(new.nodes@[c].parent == old.nodes@[c].parent);
            assert(old.node_linked(c));
        }
    }
    assert(new.nodes@ =~= old.nodes@);
}

} // verus!
