//! The node store: nodes, the handles that name them, and the ghost labels
//! that place each node in the tree.

use vstd::prelude::*;

verus! {

/// Where a node hangs below its parent.
#[derive(Clone, Copy, PartialEq, Eq, Structural, Debug)]
pub enum Side {
    Left,
    Right,
    Root,
}

#[derive(Clone, Copy, PartialEq, Eq, Structural, Debug)]
pub enum Color {
    Black,
    Red,
}

/// Tombstone marker: a deleted key keeps its node.
#[derive(Clone, Copy, PartialEq, Eq, Structural, Debug)]
pub enum Status {
    Available,
    Deleted,
}

/// A handle to a node of the arena, or null.
#[derive(Clone, Copy, PartialEq, Eq, Debug)]
pub struct NodePtr {
    pub index: Option<usize>,
}

/// One entry with its red-black metadata and its three links.
pub struct Node<K, V> {
    pub key: K,
    pub value: V,
    pub timestamp: u128,
    pub status: Status,
    pub left: NodePtr,
    pub right: NodePtr,
    pub parent: NodePtr,
    pub side: Side,
    pub color: Color,
}

/// What a key is bound to: the payload of a node without its links.
pub struct Entry<V> {
    pub value: V,
    pub timestamp: u128,
    pub status: Status,
}

/// Ghost placement of a node. The subtree below the node fills the in-order
/// positions `lo..hi`, the node itself stands at `pos`, and every path from
/// the node down to a null link crosses `bh` black nodes.
pub struct Label {
    pub lo: int,
    pub pos: int,
    pub hi: int,
    pub bh: int,
}

impl<K, V> Node<K, V> {
    /// The payload of this node.
    pub open spec fn entry(self) -> Entry<V> {
        Entry { value: self.value, timestamp: self.timestamp, status: self.status }
    }

    /// A node that differs from `self` in its links, side and color only.
    pub open spec fn same_entry(self, other: Self) -> bool {
        &&& self.key == other.key
        &&& self.value == other.value
        &&& self.timestamp == other.timestamp
        &&& self.status == other.status
    }

    /// A detached black node: no links, marked as a root.
    pub fn new(key: K, value: V, timestamp: u128, status: Status) -> (node: Self)
        ensures
            node.key == key,
            node.value == value,
            node.timestamp == timestamp,
            node.status == status,
            node.left.index is None,
            node.right.index is None,
            node.parent.index is None,
            node.side == Side::Root,
            node.color == Color::Black,
    {
        Node {
            key,
            value,
            timestamp,
            status,
            left: NodePtr::null(),
            right: NodePtr::null(),
            parent: NodePtr::null(),
            side: Side::Root,
            color: Color::Black,
        }
    }
}

impl NodePtr {
    /// The handle names arena slot `i`.
    pub open spec fn is(self, i: int) -> bool {
        self.index matches Some(j) && j == i
    }

    /// The handle that names no node.
    pub fn null() -> (r: NodePtr)
        ensures
            r.index is None,
    {
        NodePtr { index: None }
    }

    /// The handle of arena slot `i`.
    pub fn at(i: usize) -> (r: NodePtr)
        ensures
            r.index == Some(i),
    {
        NodePtr { index: Some(i) }
    }

    pub fn is_null(&self) -> (r: bool)
        ensures
            r == (self.index is None),
    {
        self.index.is_none()
    }

    /// Whether two handles name the same node or are both null.
    pub fn same(&self, other: NodePtr) -> (r: bool)
        ensures
            r == (self.index == other.index),
    {
        match (self.index, other.index) {
            (None, None) => true,
            (Some(a), Some(b)) => a == b,
            _ => false,
        }
    }
}

} // verus!
