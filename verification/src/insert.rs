//! Insertion: attaching a red leaf where the search for its key ended, and
//! the overwrite and tombstone operations built on it.

use vstd::prelude::*;
use crate::node::{Color, Entry, Label, Node, NodePtr, Side, Status};
use crate::order::{order_laws, Relation, TotalOrder};
use crate::tree::{lemma_index_of, lemma_ordered_nodes, RedBlackTree};

verus! {

/// A position or bound after a new position is opened right behind `a`.
pub open spec fn shifted(v: int, a: int) -> int {
    if v > a {
        v + 1
    } else {
        v
    }
}

impl<K: TotalOrder, V> RedBlackTree<K, V> {
    /// The in-order position that a new leaf below slot `q` takes.
    pub open spec fn leaf_position(&self, q: usize, left: bool) -> int {
        if left {
            self.labels@[q as int].pos
        } else {
            self.labels@[q as int].pos + 1
        }
    }

    /// The label of slot `i` after a leaf was attached below slot `q` in a
    /// new slot at the end of the arena.
    pub open spec fn attached_label(&self, q: usize, left: bool, i: int) -> Label {
        let a = self.labels@[q as int].pos;
        let at = self.leaf_position(q, left);
        if i == self.count() {
            Label { lo: at, pos: at, hi: at + 1, bh: 0 }
        } else {
            let l = self.labels@[i];
            Label {
                lo: shifted(l.lo, a),
                hi: shifted(l.hi, a),
                pos: if l.pos >= at {
                    l.pos + 1
                } else {
                    l.pos
                },
                bh: l.bh,
            }
        }
    }

    /// The node in slot `i` after the red leaf `fresh` was attached below
    /// slot `q` in the new slot that `leaf` names.
    pub open spec fn attached_node(
        &self,
        q: usize,
        left: bool,
        fresh: Node<K, V>,
        leaf: NodePtr,
        i: int,
    ) -> Node<K, V> {
        if i == self.count() {
            Node {
                left: NodePtr { index: None },
                right: NodePtr { index: None },
                parent: NodePtr { index: Some(q) },
                side: if left {
                    Side::Left
                } else {
                    Side::Right
                },
                color: Color::Red,
                ..fresh
            }
        } else if i == q {
            if left {
                Node { left: leaf, ..self.nodes@[i] }
            } else {
                Node { right: leaf, ..self.nodes@[i] }
            }
        } else {
            self.nodes@[i]
        }
    }

    /// `self` is `old` with the red leaf `fresh` attached below slot `q`.
    pub open spec fn attached(
        &self,
        old: &Self,
        q: usize,
        left: bool,
        fresh: Node<K, V>,
        leaf: NodePtr,
    ) -> bool {
        &&& self.nodes@.len() == old.nodes@.len() + 1
        &&& self.labels@.len() == old.labels@.len() + 1
        &&& forall|i: int|
            0 <= i <= old.count() ==> #[trigger] self.nodes@[i] == old.attached_node(
                q,
                left,
                fresh,
                leaf,
                i,
            )
        &&& forall|i: int|
            0 <= i <= old.count() ==> #[trigger] self.labels@[i] == old.attached_label(q, left, i)
        &&& self.order@ == old.order@.insert(old.leaf_position(q, left), old.count())
        &&& self.root == old.root
    }

    /// The key `k` belongs at position `at`: it lies after every key before
    /// that position and before every key from there on.
    pub open spec fn key_fits(&self, k: K::V, at: int) -> bool {
        forall|j: int|
            0 <= j < self.count() ==> {
                &&& (#[trigger] self.labels@[j]).pos < at ==> K::precedes(self.nodes@[j].key@, k)
                &&& self.labels@[j].pos >= at ==> K::precedes(k, self.nodes@[j].key@)
            }
    }

    /// `self` is `old` with a red leaf that binds `key` to `entry` hung on
    /// the free link of slot `q` where the search for `key` ends.
    pub open spec fn hung(&self, old: &Self, q: usize, left: bool, key: K::V, entry: Entry<V>) -> bool {
        &&& q < old.nodes@.len()
        &&& if left {
            old.nodes@[q as int].left.index is None
        } else {
            old.nodes@[q as int].right.index is None
        }
        &&& old.key_fits(key, old.leaf_position(q, left))
        &&& exists|fresh: Node<K, V>, leaf: NodePtr| #[trigger]
            self.attached(old, q, left, fresh, leaf) && leaf.is(old.count()) && fresh.key@ == key
                && fresh.entry() == entry
    }

    /// `self` is the one black node that binds `key` to `entry`.
    pub open spec fn sprouted(&self, key: K::V, entry: Entry<V>) -> bool {
        &&& self.nodes@.len() == 1
        &&& self.root.is(0)
        &&& self.nodes@[0].key@ == key
        &&& self.nodes@[0].entry() == entry
        &&& self.nodes@[0].left.index is None
        &&& self.nodes@[0].right.index is None
        &&& self.nodes@[0].parent.index is None
        &&& self.nodes@[0].side == Side::Root
        &&& self.nodes@[0].color == Color::Black
        &&& self.labels@ == seq![Label { lo: 0, pos: 0, hi: 1, bh: 1 }]
        &&& self.order@ == seq![0int]
    }

    /// `self` is what the insertion of `key`, which `old` does not hold,
    /// makes of `old`: a black root in an empty tree; otherwise a red leaf
    /// where the search for `key` ends, and the fixup that starts at it.
    pub open spec fn grown(&self, old: &Self, key: K::V, entry: Entry<V>) -> bool {
        if old.root.index is None {
            self.sprouted(key, entry)
        } else {
            exists|mid: Self, q: usize, left: bool, x: usize| #[trigger]
                mid.hung(old, q, left, key, entry) && x == old.count() && #[trigger] self.fixed_up(
                    &mid,
                    x,
                )
        }
    }

    /// The slots of `old` keep their entries in `self`, which has one more
    /// slot, where `key` is bound to `entry`.
    pub open spec fn extends(&self, old: &Self, key: K::V, entry: Entry<V>) -> bool {
        &&& self.nodes@.len() == old.nodes@.len() + 1
        &&& forall|i: int|
            0 <= i < old.count() ==> (#[trigger] self.nodes@[i]).same_entry(old.nodes@[i])
        &&& self.nodes@[old.count()].key@ == key
        &&& self.nodes@[old.count()].entry() == entry
    }

    /// The slots of `old` keep their entries in `self` but for slot `i`,
    /// whose key is now bound to `entry`.
    pub open spec fn overwrites(&self, old: &Self, i: int, entry: Entry<V>) -> bool {
        &&& self.nodes@.len() == old.nodes@.len()
        &&& forall|j: int|
            0 <= j < old.count() && j != i ==> (#[trigger] self.nodes@[j]).same_entry(old.nodes@[j])
        &&& self.nodes@[i].key == old.nodes@[i].key
        &&& self.nodes@[i].entry() == entry
    }

    /// The arena of `self` is that of `old` with `key` bound to `entry`: in
    /// the slot that carried `key`, or in a new slot at the end.
    pub open spec fn rebinds(&self, old: &Self, key: K::V, entry: Entry<V>) -> bool {
        if old.has_key(key) {
            self.overwrites(old, old.index_of(key), entry)
        } else {
            self.extends(old, key, entry)
        }
    }
}

/// Attaching a leaf below a free link keeps the arena one tree.
pub proof fn lemma_attached_linked<K: TotalOrder, V>(
    s0: RedBlackTree<K, V>,
    s1: RedBlackTree<K, V>,
    q: usize,
    left: bool,
    fresh: Node<K, V>,
    leaf: NodePtr,
)
    requires
        s0.linked(),
        q < s0.nodes@.len(),
        leaf.is(s0.count()),
        if left {
            s0.nodes@[q as int].left.index is None
        } else {
            s0.nodes@[q as int].right.index is None
        },
        s1.attached(&s0, q, left, fresh, leaf),
    ensures
        s1.linked(),
{
    let n = s0.count();
    let a = s0.labels@[q as int].pos;
    let at = s0.leaf_position(q, left);
    assert(s0.node_linked(q as int));
    assert(s1.nodes@[q as int] == s0.attached_node(q, left, fresh, leaf, q as int));
    assert(s1.labels@[q as int] == s0.attached_label(q, left, q as int));
    assert(s1.nodes@[n] == s0.attached_node(q, left, fresh, leaf, n));
    assert(s1.labels@[n] == s0.attached_label(q, left, n));
    assert forall|i: int| 0 <= i < s1.count() implies #[trigger] s1.node_linked(i) by {
        assert(s1.nodes@[i] == s0.attached_node(q, left, fresh, leaf, i));
        assert(s1.labels@[i] == s0.attached_label(q, left, i));
        if i < n {
            assert(s0.node_linked(i));
            let node = s0.nodes@[i];
            if node.left.index is Some {
                let c = node.left.index.unwrap() as int;
                assert(s1.nodes@[c] == s0.attached_node(q, left, fresh, leaf, c));
                assert(s1.labels@[c] == s0.attached_label(q, left, c));
            }
            if node.right.index is Some {
                let c = node.right.index.unwrap() as int;
                assert(s1.nodes@[c] == s0.attached_node(q, left, fresh, leaf, c));
                assert(s1.labels@[c] == s0.attached_label(q, left, c));
            }
            if node.parent.index is Some {
                let c = node.parent.index.unwrap() as int;
                assert(s1.nodes@[c] == s0.attached_node(q, left, fresh, leaf, c));
            }
            if s0.labels@[i].pos == a && i != q {
                crate::search::lemma_position_unique(s0, i, q as int);
            }
        }
    }
    assert forall|b: int| 0 <= b < s1.count() implies #[trigger] s1.position_taken(b) by {
        if b < at {
            assert(s0.position_taken(b));
            assert(s1.labels@[s0.order@[b]] == s0.attached_label(q, left, s0.order@[b]));
        } else if b > at {
            assert(s0.position_taken(b - 1));
            assert(s1.labels@[s0.order@[b - 1]] == s0.attached_label(q, left, s0.order@[b - 1]));
        }
    }
    match s1.root.index {
        None => {},
        Some(r) => {
            assert(s0.node_linked(r as int));
            assert(s1.nodes@[r as int] == s0.attached_node(q, left, fresh, leaf, r as int));
            assert(s1.labels@[r as int] == s0.attached_label(q, left, r as int));
        },
    }
}

/// Attaching a leaf at the position where its key fits keeps the keys in order.
pub proof fn lemma_attached_ordered<K: TotalOrder, V>(
    s0: RedBlackTree<K, V>,
    s1: RedBlackTree<K, V>,
    q: usize,
    left: bool,
    fresh: Node<K, V>,
    leaf: NodePtr,
)
    requires
        s0.linked(),
        s0.ordered(),
        q < s0.nodes@.len(),
        s0.key_fits(fresh.key@, s0.leaf_position(q, left)),
        s1.attached(&s0, q, left, fresh, leaf),
    ensures
        s1.ordered(),
{
    let n = s0.count();
    let at = s0.leaf_position(q, left);
    assert(s0.node_linked(q as int));
    assert forall|a: int, b: int| 0 <= a < b < s1.count() implies K::precedes(
        #[trigger] s1.keys()[a],
        #[trigger] s1.keys()[b],
    ) by {
        let ia = s1.order@[a];
        let ib = s1.order@[b];
        if a != at {
            let a0 = if a < at {
                a
            } else {
                a - 1
            };
            assert(s0.position_taken(a0));
            assert(s1.nodes@[ia] == s0.attached_node(q, left, fresh, leaf, ia));
            assert(s0.keys()[a0] == s0.nodes@[ia].key@);
            assert(s0.labels@[ia].pos == a0);
        } else {
            assert(s1.nodes@[n] == s0.attached_node(q, left, fresh, leaf, n));
        }
        if b != at {
            let b0 = if b < at {
                b
            } else {
                b - 1
            };
            assert(s0.position_taken(b0));
            assert(s1.nodes@[ib] == s0.attached_node(q, left, fresh, leaf, ib));
            assert(s0.keys()[b0] == s0.nodes@[ib].key@);
            assert(s0.labels@[ib].pos == b0);
        } else {
            assert(s1.nodes@[n] == s0.attached_node(q, left, fresh, leaf, n));
        }
    }
}

/// Attaching a red leaf keeps the black heights and leaves the leaf as the
/// only node that may stand red below a red parent.
pub proof fn lemma_attached_colors<K: TotalOrder, V>(
    s0: RedBlackTree<K, V>,
    s1: RedBlackTree<K, V>,
    q: usize,
    left: bool,
    fresh: Node<K, V>,
    leaf: NodePtr,
)
    requires
        s0.red_black(),
        q < s0.nodes@.len(),
        leaf.is(s0.count()),
        if left {
            s0.nodes@[q as int].left.index is None
        } else {
            s0.nodes@[q as int].right.index is None
        },
        s1.attached(&s0, q, left, fresh, leaf),
    ensures
        s1.root_is_black(),
        s1.no_red_red_but(s0.count()),
        s1.black_height_uniform(),
{
    let n = s0.count();
    assert(s0.node_linked(q as int));
    assert(s1.nodes@[q as int] == s0.attached_node(q, left, fresh, leaf, q as int));
    assert(s1.nodes@[n] == s0.attached_node(q, left, fresh, leaf, n));
    assert(s1.labels@[n] == s0.attached_label(q, left, n));
    assert forall|i: int|
        #![trigger s1.node_balanced(i)]
        #![trigger s1.no_red_parent(i)]
        0 <= i < s1.count() implies s1.node_balanced(i) && (i != n ==> s1.no_red_parent(i)) by {
        assert(s1.nodes@[i] == s0.attached_node(q, left, fresh, leaf, i));
        assert(s1.labels@[i] == s0.attached_label(q, left, i));
        if i < n {
            assert(s0.node_linked(i));
            assert(s0.node_balanced(i));
            assert(s0.no_red_parent(i));
            let node = s0.nodes@[i];
            if node.left.index is Some {
                let c = node.left.index.unwrap() as int;
                assert(s1.labels@[c] == s0.attached_label(q, left, c));
            }
            if node.right.index is Some {
                let c = node.right.index.unwrap() as int;
                assert(s1.labels@[c] == s0.attached_label(q, left, c));
            }
            if node.parent.index is Some {
                let c = node.parent.index.unwrap() as int;
                assert(s1.nodes@[c] == s0.attached_node(q, left, fresh, leaf, c));
            }
        }
    }
    match s1.root.index {
        None => {},
        Some(r) => {
            assert(s1.nodes@[r as int] == s0.attached_node(q, left, fresh, leaf, r as int));
        },
    }
}

/// A tree that extends an ordered tree by one slot with a new key is that
/// tree's map with the new binding added.
pub proof fn lemma_extended_view<K: TotalOrder, V>(
    s0: RedBlackTree<K, V>,
    s1: RedBlackTree<K, V>,
    k0: K::V,
    entry: Entry<V>,
)
    requires
        s0.linked(),
        s0.ordered(),
        s1.linked(),
        s1.ordered(),
        s1.extends(&s0, k0, entry),
    ensures
        s1@ == s0@.insert(k0, entry),
        !s0.has_key(k0),
{
    let n = s0.count();
    lemma_index_of(s1, n);
    if s0.has_key(k0) {
        let i = choose|i: int| s0.key_at(i, k0);
        assert(s1.nodes@[i].same_entry(s0.nodes@[i]));
        crate::tree::lemma_key_unique(s1, i, n);
    }
    assert forall|k: K::V| s1.has_key(k) == (s0.has_key(k) || k == k0) by {
        if s1.has_key(k) {
            let i = choose|i: int| s1.key_at(i, k);
            if i < n {
                assert(s1.nodes@[i].same_entry(s0.nodes@[i]));
                assert(s0.key_at(i, k));
            }
        }
        if s0.has_key(k) {
            let i = choose|i: int| s0.key_at(i, k);
            assert(s1.nodes@[i].same_entry(s0.nodes@[i]));
            assert(s1.key_at(i, k));
        }
    }
    assert forall|k: K::V| s0.has_key(k) implies s1@[k] == s0@[k] by {
        let i = s0.index_of(k);
        assert(s0.key_at(i, k));
        assert(s1.nodes@[i].same_entry(s0.nodes@[i]));
        lemma_index_of(s1, i);
    }
    assert(s1@ =~= s0@.insert(k0, entry));
}


impl<K: TotalOrder, V> RedBlackTree<K, V> {
    /// Binds `key`, which no node carries yet, in a new node: a red leaf at
    /// the place where the search for `key` ends, or a black root in an
    /// empty tree. Then restores the invariants. The size counter is left
    /// to the caller.
    pub fn insert(&mut self, key: K, value: V, timestamp: u128, status: Status)
        requires
            old(self).red_black(),
            !old(self).has_key(key@),
        ensures
            final(self).red_black(),
            final(self).count() == old(self).count() + 1,
            final(self).size == old(self).size,
            final(self)@ == old(self)@.insert(key@, Entry { value, timestamp, status }),
            final(self).extends(old(self), key@, Entry { value, timestamp, status }),
            final(self).grown(old(self), key@, Entry { value, timestamp, status }),
    {
        let ghost s0 = *self;
        let ghost key_view = key@;
        let mut current: NodePtr = self.root;
        let mut parent: NodePtr = NodePtr::null();
        let ghost mut lo: int = 0;
        let ghost mut hi: int = self.count();
        let ghost mut went_left: bool = false;
        proof {
            order_laws::<K>();
            assert forall|j: int| 0 <= j < self.count() implies 0 <= (#[trigger] self.labels@[j]).pos
                < self.count() by {
                assert(self.node_linked(j));
            }
        }
        while !current.is_null()
            invariant
                *self == s0,
                self.red_black(),
                !self.has_key(key_view),
                key_view == key@,
                forall|j: int|
                    0 <= j < self.count() ==> {
                        &&& (#[trigger] self.labels@[j]).pos < lo ==> K::precedes(self.nodes@[j].key@, key_view)
                        &&& self.labels@[j].pos >= hi ==> K::precedes(key_view, self.nodes@[j].key@)
                    },
                match current.index {
                    Some(c) => c < self.nodes@.len() && self.labels@[c as int].lo == lo
                        && self.labels@[c as int].hi == hi,
                    None => lo == hi,
                },
                match parent.index {
                    None => current == self.root,
                    Some(q) => {
                        &&& q < self.nodes@.len()
                        &&& went_left ==> {
                            &&& K::precedes(key_view, self.nodes@[q as int].key@)
                            &&& current == self.nodes@[q as int].left
                            &&& hi == self.labels@[q as int].pos
                        }
                        &&& !went_left ==> {
                            &&& K::precedes(self.nodes@[q as int].key@, key_view)
                            &&& current == self.nodes@[q as int].right
                            &&& lo == self.labels@[q as int].pos + 1
                        }
                    },
                },
            decreases hi - lo,
        {
            let c = current.index.unwrap();
            proof {
                assert(self.node_linked(c as int));
                order_laws::<K>();
                assert(!self.key_at(c as int, key_view));
            }
            let next = match key.compare(&self.nodes[c].key) {
                Relation::Less => {
                    proof {
                        assert forall|j: int| 0 <= j < self.count() && (#[trigger] self.labels@[j]).pos
                            >= self.labels@[c as int].pos implies K::precedes(key_view, self.nodes@[j].key@) by {
                            if self.labels@[j].pos > self.labels@[c as int].pos {
                                lemma_ordered_nodes(*self, c as int, j);
                            } else {
                                crate::search::lemma_position_unique(*self, c as int, j);
                            }
                        }
                        hi = self.labels@[c as int].pos;
                        went_left = true;
                    }
                    self.nodes[c].left
                },
                _ => {
                    proof {
                        assert forall|j: int| 0 <= j < self.count() && (#[trigger] self.labels@[j]).pos
                            < self.labels@[c as int].pos + 1 implies K::precedes(self.nodes@[j].key@, key_view) by {
                            if self.labels@[j].pos < self.labels@[c as int].pos {
                                lemma_ordered_nodes(*self, j, c as int);
                            } else {
                                crate::search::lemma_position_unique(*self, c as int, j);
                            }
                        }
                        lo = self.labels@[c as int].pos + 1;
                        went_left = false;
                    }
                    self.nodes[c].right
                },
            };
            parent = current;
            current = next;
        }
        let node = NodePtr::new(self, key, value, timestamp, status);
        let ghost fresh = self.nodes@[s0.count()];
        if parent.is_null() {
            self.root = node;
            node.set_color_black(self);
            node.set_side_root(self);
            proof {
                self.labels@ = seq![Label { lo: 0, pos: 0, hi: 1, bh: 1 }];
                self.order@ = seq![0int];
                assert(self.node_linked(0));
                assert(self.position_taken(0));
                assert(self.node_balanced(0));
                assert(self.no_red_parent(0));
                lemma_extended_view(s0, *self, key_view, fresh.entry());
                assert(self.sprouted(key_view, fresh.entry()));
            }
        } else {
            let ghost q = parent.index.unwrap();
            node.set_parent(self, parent);
            node.set_color_red(self);
            let n = node.index.unwrap();
            let p = parent.index.unwrap();
            match self.nodes[n].key.compare(&self.nodes[p].key) {
                Relation::Less => {
                    parent.set_left_child(self, node);
                    node.set_side_left(self);
                },
                _ => {
                    parent.set_right_child(self, node);
                    node.set_side_right(self);
                },
            }
            proof {
                order_laws::<K>();
                assert(s0.node_linked(q as int));
                self.labels@ = Seq::new(
                    s0.labels@.len() + 1,
                    |i: int| s0.attached_label(q, went_left, i),
                );
                self.order@ = s0.order@.insert(s0.leaf_position(q, went_left), s0.count());
                assert forall|i: int| 0 <= i <= s0.count() implies #[trigger] self.nodes@[i]
                    == s0.attached_node(q, went_left, fresh, node, i) by {}
                assert(s0.key_fits(key_view, s0.leaf_position(q, went_left)));
                lemma_attached_linked(s0, *self, q, went_left, fresh, node);
                lemma_attached_ordered(s0, *self, q, went_left, fresh, node);
                lemma_attached_colors(s0, *self, q, went_left, fresh, node);
            }
            let ghost s1 = *self;
            self.check_color(node);
            proof {
                assert forall|i: int| 0 <= i < s0.count() implies (#[trigger] self.nodes@[i]).same_entry(
                    s0.nodes@[i],
                ) by {
                    assert(self.nodes@[i].same_entry(s1.nodes@[i]));
                    assert(s1.nodes@[i] == s0.attached_node(q, went_left, fresh, node, i));
                }
                assert(self.nodes@[s0.count()].same_entry(s1.nodes@[s0.count()]));
                lemma_extended_view(s0, *self, key_view, fresh.entry());
                assert(s1.attached(&s0, q, went_left, fresh, node) && node.is(s0.count()) && fresh.key@
                    == key_view);
                assert(s1.hung(&s0, q, went_left, key_view, fresh.entry()) && n == s0.count()
                    && self.fixed_up(&s1, n));
            }
        }
    }

    /// Binds `key` to the given value, timestamp and status. An existing
    /// node is overwritten whatever its timestamp is; otherwise a new node
    /// is inserted and the size counter grows by one.
    pub fn insert_or_replace(&mut self, key: K, value: V, timestamp: u128, status: Status)
        requires
            old(self).wf(),
        ensures
            final(self).wf(),
            final(self)@ == old(self)@.insert(key@, Entry { value, timestamp, status }),
            final(self).count() == if old(self)@.dom().contains(key@) {
                old(self).count()
            } else {
                old(self).count() + 1
            },
            old(self)@.dom().contains(key@) ==> final(self).same_links(old(self)) && final(self).labels@
                == old(self).labels@,
            final(self).rebinds(old(self), key@, Entry { value, timestamp, status }),
            !old(self)@.dom().contains(key@) ==> exists|after: Self| #[trigger]
                after.grown(old(self), key@, Entry { value, timestamp, status }) && final(self).same_tree(
                    &after,
                ),
    {
        let ghost s0 = *self;
        let node = self.find_node(&key);
        if node.is_null() {
            self.insert(key, value, timestamp, status);
            let ghost s1 = *self;
            assert(self.nodes@.len() == self.nodes.len() <= usize::MAX);
            self.size = self.size + 1;
            proof {
                crate::tree::lemma_frame(*self, s1);
                assert(s1.grown(&s0, key@, Entry { value, timestamp, status }) && self.same_tree(&s1));
            }
        } else {
            let ghost i = node.index.unwrap() as int;
            node.set_value(self, value);
            node.set_timestamp(self, timestamp);
            node.set_status(self, status);
            proof {
                lemma_overwritten(s0, *self, i);
            }
        }
    }
}

impl<K: TotalOrder, V: Default> RedBlackTree<K, V> {
    /// Tombstones `key` at `timestamp`. The node of an existing key keeps
    /// its value; an absent key gets a new node with the default value as a
    /// placeholder, so that the deletion is on record.
    pub fn delete_key(&mut self, key: &K, timestamp: u128)
        requires
            old(self).wf(),
        ensures
            final(self).wf(),
            final(self)@.dom() == old(self)@.dom().insert(key@),
            final(self)@[key@].status == Status::Deleted,
            final(self)@[key@].timestamp == timestamp,
            old(self)@.dom().contains(key@) ==> final(self)@[key@].value == old(self)@[key@].value,
            !old(self)@.dom().contains(key@) ==> call_ensures(V::default, (), final(self)@[key@].value),
            forall|k: K::V|
                k != key@ && old(self)@.dom().contains(k) ==> #[trigger] final(self)@[k] == old(self)@[k],
            final(self).count() == if old(self)@.dom().contains(key@) {
                old(self).count()
            } else {
                old(self).count() + 1
            },
            final(self).rebinds(old(self), key@, final(self)@[key@]),
            old(self)@.dom().contains(key@) ==> final(self).same_links(old(self)) && final(self).labels@
                == old(self).labels@,
            !old(self)@.dom().contains(key@) ==> exists|after: Self| #[trigger]
                after.grown(old(self), key@, final(self)@[key@]) && final(self).same_tree(&after),
    {
        let ghost s0 = *self;
        let node = self.find_node(key);
        if node.is_null() {
            let placeholder = V::default();
            self.insert(key.duplicate(), placeholder, timestamp, Status::Deleted);
            let ghost s1 = *self;
            assert(self.nodes@.len() == self.nodes.len() <= usize::MAX);
            self.size = self.size + 1;
            proof {
                crate::tree::lemma_frame(*self, s1);
                assert(self@.dom() =~= s0@.dom().insert(key@));
                assert(s1.grown(&s0, key@, self@[key@]) && self.same_tree(&s1));
            }
        } else {
            let ghost i = node.index.unwrap() as int;
            node.set_deleted(self, timestamp);
            proof {
                lemma_overwritten(s0, *self, i);
                lemma_index_of(s0, i);
                assert(self@.dom() =~= s0@.dom().insert(key@));
            }
        }
    }
}

/// Replacing the value, timestamp or status of one node changes the
/// binding of its key and nothing else.
pub proof fn lemma_overwritten<K: TotalOrder, V>(s0: RedBlackTree<K, V>, s1: RedBlackTree<K, V>, i: int)
    requires
        s0.wf(),
        0 <= i < s0.count(),
        s1.nodes@.len() == s0.nodes@.len(),
        s1.root == s0.root,
        s1.size == s0.size,
        s1.labels@ == s0.labels@,
        s1.order@ == s0.order@,
        forall|j: int| 0 <= j < s0.count() && j != i ==> #[trigger] s1.nodes@[j] == s0.nodes@[j],
        s1.nodes@[i] == (Node {
            value: s1.nodes@[i].value,
            timestamp: s1.nodes@[i].timestamp,
            status: s1.nodes@[i].status,
            ..s0.nodes@[i]
        }),
    ensures
        s1.wf(),
        s1.same_links(&s0),
        s1@ == s0@.insert(s0.nodes@[i].key@, s1.nodes@[i].entry()),
        s1.overwrites(&s0, i, s1.nodes@[i].entry()),
        s0.index_of(s0.nodes@[i].key@) == i,
{
    crate::tree::lemma_same_links(s1, s0);
    assert forall|a: int| 0 <= a < s0.count() implies s1.keys()[a] == s0.keys()[a] by {
        assert(s0.position_taken(a));
    }
    assert(s1.keys() =~= s0.keys());
    assert forall|j: int|
        #![trigger s1.node_balanced(j)]
        #![trigger s1.no_red_parent(j)]
        0 <= j < s1.count() implies s1.node_balanced(j) && s1.no_red_parent(j) by {
        assert(s0.node_balanced(j));
        assert(s0.no_red_parent(j));
        assert(s0.node_linked(j));
    }
    if s0.root.index is Some {
        assert(s0.node_linked(s0.root.index.unwrap() as int));
    }
    let k0 = s0.nodes@[i].key@;
    lemma_index_of(s1, i);
    assert forall|k: K::V| s1.has_key(k) == s0.has_key(k) by {
        if s1.has_key(k) {
            let j = choose|j: int| s1.key_at(j, k);
            assert(s0.key_at(j, k));
        }
        if s0.has_key(k) {
            let j = choose|j: int| s0.key_at(j, k);
            assert(s1.key_at(j, k));
        }
    }
    assert forall|k: K::V| s0.has_key(k) && k != k0 implies s1@[k] == s0@[k] by {
        let j = s0.index_of(k);
        assert(s0.key_at(j, k));
        lemma_index_of(s1, j);
    }
    lemma_index_of(s0, i);
    assert(s1@ =~= s0@.insert(k0, s1.nodes@[i].entry()));
}

} // verus!
