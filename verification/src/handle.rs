//! Reading and writing single nodes through their handles.
//!
//! A handle that is null, or that names no slot of the tree at hand, reads as
//! an absent black node, and writes through it change nothing.

use vstd::prelude::*;
use crate::node::{Color, Node, NodePtr, Side, Status};
use crate::order::TotalOrder;
use crate::tree::RedBlackTree;

verus! {

impl<K: TotalOrder, V> RedBlackTree<K, V> {
    /// The node that `p` names, if it names one.
    pub open spec fn node(&self, p: NodePtr) -> Option<Node<K, V>> {
        if self.holds(p) {
            Some(self.nodes@[p.index.unwrap() as int])
        } else {
            None
        }
    }

    /// `self` is `old` with the node that `p` names replaced by `node`;
    /// nothing else differs, and nothing at all where `p` names no node.
    pub open spec fn rewritten(&self, old: &Self, p: NodePtr, node: Node<K, V>) -> bool {
        &&& self.root == old.root
        &&& self.size == old.size
        &&& self.labels@ == old.labels@
        &&& self.order@ == old.order@
        &&& if old.holds(p) {
            self.nodes@ == old.nodes@.update(p.index.unwrap() as int, node)
        } else {
            self.nodes@ == old.nodes@
        }
    }
}

impl NodePtr {
    /// Stores a detached black node in the arena of `tree` and returns its handle.
    pub fn new<K: TotalOrder, V>(
        tree: &mut RedBlackTree<K, V>,
        key: K,
        value: V,
        timestamp: u128,
        status: Status,
    ) -> (r: NodePtr)
        ensures
            r.is(old(tree).count()),
            final(tree).nodes@.len() == old(tree).nodes@.len() + 1,
            final(tree).nodes@ == old(tree).nodes@.push(
                Node {
                    key,
                    value,
                    timestamp,
                    status,
                    left: NodePtr { index: None },
                    right: NodePtr { index: None },
                    parent: NodePtr { index: None },
                    side: Side::Root,
                    color: Color::Black,
                },
            ),
            final(tree).root == old(tree).root,
            final(tree).size == old(tree).size,
            final(tree).labels@ == old(tree).labels@,
            final(tree).order@ == old(tree).order@,
    {
        let i = tree.nodes.len();
        tree.nodes.push(Node::new(key, value, timestamp, status));
        NodePtr::at(i)
    }

    /// Sets the right child link of the node.
    pub fn set_right_child<K: TotalOrder, V>(&self, tree: &mut RedBlackTree<K, V>, node: NodePtr)
        ensures
            final(tree).rewritten(
                old(tree),
                *self,
                (Node { right: node, ..old(tree).nodes@[self.index.unwrap() as int] }),
            ),
    {
        if let Some(i) = self.index {
            if i < tree.nodes.len() {
                tree.nodes[i].right = node;
            }
        }
    }

    /// Sets the left child link of the node.
    pub fn set_left_child<K: TotalOrder, V>(&self, tree: &mut RedBlackTree<K, V>, node: NodePtr)
        ensures
            final(tree).rewritten(
                old(tree),
                *self,
                (Node { left: node, ..old(tree).nodes@[self.index.unwrap() as int] }),
            ),
    {
        if let Some(i) = self.index {
            if i < tree.nodes.len() {
                tree.nodes[i].left = node;
            }
        }
    }

    /// Sets the parent link of the node.
    pub fn set_parent<K: TotalOrder, V>(&self, tree: &mut RedBlackTree<K, V>, parent: NodePtr)
        ensures
            final(tree).rewritten(
                old(tree),
                *self,
                (Node { parent, ..old(tree).nodes@[self.index.unwrap() as int] }),
            ),
    {
        if let Some(i) = self.index {
            if i < tree.nodes.len() {
                tree.nodes[i].parent = parent;
            }
        }
    }

    /// Marks the node as hanging on `side` of its parent.
    pub fn set_side<K: TotalOrder, V>(&self, tree: &mut RedBlackTree<K, V>, side: Side)
        ensures
            final(tree).rewritten(
                old(tree),
                *self,
                (Node { side, ..old(tree).nodes@[self.index.unwrap() as int] }),
            ),
    {
        if let Some(i) = self.index {
            if i < tree.nodes.len() {
                tree.nodes[i].side = side;
            }
        }
    }

    /// Marks the node as a right child.
    pub fn set_side_right<K: TotalOrder, V>(&self, tree: &mut RedBlackTree<K, V>)
        ensures
            final(tree).rewritten(
                old(tree),
                *self,
                (Node { side: Side::Right, ..old(tree).nodes@[self.index.unwrap() as int] }),
            ),
    {
        self.set_side(tree, Side::Right)
    }

    /// Marks the node as a left child.
    pub fn set_side_left<K: TotalOrder, V>(&self, tree: &mut RedBlackTree<K, V>)
        ensures
            final(tree).rewritten(
                old(tree),
                *self,
                (Node { side: Side::Left, ..old(tree).nodes@[self.index.unwrap() as int] }),
            ),
    {
        self.set_side(tree, Side::Left)
    }

    /// Marks the node as the root.
    pub fn set_side_root<K: TotalOrder, V>(&self, tree: &mut RedBlackTree<K, V>)
        ensures
            final(tree).rewritten(
                old(tree),
                *self,
                (Node { side: Side::Root, ..old(tree).nodes@[self.index.unwrap() as int] }),
            ),
    {
        self.set_side(tree, Side::Root)
    }

    /// Colors the node.
    pub fn set_color<K: TotalOrder, V>(&self, tree: &mut RedBlackTree<K, V>, color: Color)
        ensures
            final(tree).rewritten(
                old(tree),
                *self,
                (Node { color, ..old(tree).nodes@[self.index.unwrap() as int] }),
            ),
    {
        if let Some(i) = self.index {
            if i < tree.nodes.len() {
                tree.nodes[i].color = color;
            }
        }
    }

    /// Colors the node red.
    pub fn set_color_red<K: TotalOrder, V>(&self, tree: &mut RedBlackTree<K, V>)
        ensures
            final(tree).rewritten(
                old(tree),
                *self,
                (Node { color: Color::Red, ..old(tree).nodes@[self.index.unwrap() as int] }),
            ),
    {
        self.set_color(tree, Color::Red)
    }

    /// Colors the node black.
    pub fn set_color_black<K: TotalOrder, V>(&self, tree: &mut RedBlackTree<K, V>)
        ensures
            final(tree).rewritten(
                old(tree),
                *self,
                (Node { color: Color::Black, ..old(tree).nodes@[self.index.unwrap() as int] }),
            ),
    {
        self.set_color(tree, Color::Black)
    }

    /// Replaces the value of the node.
    pub fn set_value<K: TotalOrder, V>(&self, tree: &mut RedBlackTree<K, V>, v: V)
        ensures
            final(tree).rewritten(
                old(tree),
                *self,
                (Node { value: v, ..old(tree).nodes@[self.index.unwrap() as int] }),
            ),
    {
        if let Some(i) = self.index {
            if i < tree.nodes.len() {
                tree.nodes[i].value = v;
            }
        }
    }

    /// Replaces the timestamp of the node.
    pub fn set_timestamp<K: TotalOrder, V>(&self, tree: &mut RedBlackTree<K, V>, timestamp: u128)
        ensures
            final(tree).rewritten(
                old(tree),
                *self,
                (Node { timestamp, ..old(tree).nodes@[self.index.unwrap() as int] }),
            ),
    {
        if let Some(i) = self.index {
            if i < tree.nodes.len() {
                tree.nodes[i].timestamp = timestamp;
            }
        }
    }

    /// Replaces the status of the node.
    pub fn set_status<K: TotalOrder, V>(&self, tree: &mut RedBlackTree<K, V>, status: Status)
        ensures
            final(tree).rewritten(
                old(tree),
                *self,
                (Node { status, ..old(tree).nodes@[self.index.unwrap() as int] }),
            ),
    {
        if let Some(i) = self.index {
            if i < tree.nodes.len() {
                tree.nodes[i].status = status;
            }
        }
    }

    /// Marks the node as deleted at `timestamp`; its value stays.
    pub fn set_deleted<K: TotalOrder, V>(&self, tree: &mut RedBlackTree<K, V>, timestamp: u128)
        ensures
            final(tree).rewritten(
                old(tree),
                *self,
                (Node {
                    status: Status::Deleted,
                    timestamp,
                    ..old(tree).nodes@[self.index.unwrap() as int]
                }),
            ),
    {
        if let Some(i) = self.index {
            if i < tree.nodes.len() {
                tree.nodes[i].status = Status::Deleted;
                tree.nodes[i].timestamp = timestamp;
                assert(tree.nodes@ =~= old(tree).nodes@.update(
                    i as int,
                    Node { status: Status::Deleted, timestamp, ..old(tree).nodes@[i as int] },
                ));
            }
        }
    }

    /// The parent link of the node; null for an absent node.
    pub fn get_parent<K: TotalOrder, V>(&self, tree: &RedBlackTree<K, V>) -> (r: NodePtr)
        ensures
            r.index == match tree.node(*self) {
                Some(n) => n.parent.index,
                None => None,
            },
    {
        match self.index {
            Some(i) => if i < tree.nodes.len() {
                tree.nodes[i].parent
            } else {
                NodePtr::null()
            },
            None => NodePtr::null(),
        }
    }

    /// The left child link of the node; null for an absent node.
    pub fn left<K: TotalOrder, V>(&self, tree: &RedBlackTree<K, V>) -> (r: NodePtr)
        ensures
            r.index == match tree.node(*self) {
                Some(n) => n.left.index,
                None => None,
            },
    {
        match self.index {
            Some(i) => if i < tree.nodes.len() {
                tree.nodes[i].left
            } else {
                NodePtr::null()
            },
            None => NodePtr::null(),
        }
    }

    /// The right child link of the node; null for an absent node.
    pub fn right<K: TotalOrder, V>(&self, tree: &RedBlackTree<K, V>) -> (r: NodePtr)
        ensures
            r.index == match tree.node(*self) {
                Some(n) => n.right.index,
                None => None,
            },
    {
        match self.index {
            Some(i) => if i < tree.nodes.len() {
                tree.nodes[i].right
            } else {
                NodePtr::null()
            },
            None => NodePtr::null(),
        }
    }

    /// A copy of the value of the node.
    pub fn value<K: TotalOrder, V: Clone>(&self, tree: &RedBlackTree<K, V>) -> (r: Option<V>)
        ensures
            match tree.node(*self) {
                Some(n) => r matches Some(v) && cloned(n.value, v),
                None => r is None,
            },
    {
        match self.index {
            Some(i) => if i < tree.nodes.len() {
                Some(tree.nodes[i].value.clone())
            } else {
                None
            },
            None => None,
        }
    }

    /// A copy of the key of the node.
    pub fn key<K: TotalOrder, V>(&self, tree: &RedBlackTree<K, V>) -> (r: Option<K>)
        ensures
            match tree.node(*self) {
                Some(n) => r matches Some(k) && k@ == n.key@,
                None => r is None,
            },
    {
        match self.index {
            Some(i) => if i < tree.nodes.len() {
                Some(tree.nodes[i].key.duplicate())
            } else {
                None
            },
            None => None,
        }
    }

    /// The timestamp of the node.
    pub fn timestamp<K: TotalOrder, V>(&self, tree: &RedBlackTree<K, V>) -> (r: Option<u128>)
        ensures
            r == match tree.node(*self) {
                Some(n) => Some(n.timestamp),
                None => None,
            },
    {
        match self.index {
            Some(i) => if i < tree.nodes.len() {
                Some(tree.nodes[i].timestamp)
            } else {
                None
            },
            None => None,
        }
    }

    /// Whether the node is red. An absent node is not.
    pub fn is_red<K: TotalOrder, V>(&self, tree: &RedBlackTree<K, V>) -> (r: bool)
        ensures
            r == (tree.node(*self) matches Some(n) && n.color == Color::Red),
    {
        match self.index {
            Some(i) => i < tree.nodes.len() && tree.nodes[i].color == Color::Red,
            None => false,
        }
    }

    /// Whether the node is black. An absent node is.
    pub fn is_black<K: TotalOrder, V>(&self, tree: &RedBlackTree<K, V>) -> (r: bool)
        ensures
            r == !(tree.node(*self) matches Some(n) && n.color == Color::Red),
    {
        match self.index {
            Some(i) => !(i < tree.nodes.len() && tree.nodes[i].color == Color::Red),
            None => true,
        }
    }

    /// Whether the node is a left child.
    pub fn is_left<K: TotalOrder, V>(&self, tree: &RedBlackTree<K, V>) -> (r: bool)
        ensures
            r == (tree.node(*self) matches Some(n) && n.side == Side::Left),
    {
        match self.index {
            Some(i) => i < tree.nodes.len() && tree.nodes[i].side == Side::Left,
            None => false,
        }
    }

    /// Whether the node is a right child.
    pub fn is_right<K: TotalOrder, V>(&self, tree: &RedBlackTree<K, V>) -> (r: bool)
        ensures
            r == (tree.node(*self) matches Some(n) && n.side == Side::Right),
    {
        match self.index {
            Some(i) => i < tree.nodes.len() && tree.nodes[i].side == Side::Right,
            None => false,
        }
    }

    /// Whether the node is the root.
    pub fn is_root<K: TotalOrder, V>(&self, tree: &RedBlackTree<K, V>) -> (r: bool)
        ensures
            r == (tree.node(*self) matches Some(n) && n.side == Side::Root),
    {
        match self.index {
            Some(i) => i < tree.nodes.len() && tree.nodes[i].side == Side::Root,
            None => false,
        }
    }

    /// Whether the node carries a tombstone.
    pub fn is_deleted<K: TotalOrder, V>(&self, tree: &RedBlackTree<K, V>) -> (r: bool)
        ensures
            r == (tree.node(*self) matches Some(n) && n.status == Status::Deleted),
    {
        match self.index {
            Some(i) => i < tree.nodes.len() && tree.nodes[i].status == Status::Deleted,
            None => false,
        }
    }
}

} // verus!
