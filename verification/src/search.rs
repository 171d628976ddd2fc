//! Point lookups: the descent from the root by key.

use vstd::prelude::*;
use crate::node::{NodePtr, Status};
use crate::order::{order_laws, Relation, TotalOrder};
use crate::tree::{lemma_ordered_nodes, RedBlackTree};

verus! {

/// In a linked tree, the slot at an in-order position is determined by it.
pub proof fn lemma_position_unique<K: TotalOrder, V>(tree: RedBlackTree<K, V>, i: int, j: int)
    requires
        tree.linked(),
        0 <= i < tree.count(),
        0 <= j < tree.count(),
        tree.labels@[i].pos == tree.labels@[j].pos,
    ensures
        i == j,
{
    assert(tree.node_linked(i));
    assert(tree.node_linked(j));
}

impl<K: TotalOrder, V> RedBlackTree<K, V> {
    /// Every slot that carries `k` stands at a position in `lo..hi`.
    pub open spec fn key_within(&self, k: K::V, lo: int, hi: int) -> bool {
        forall|j: int| #[trigger] self.key_at(j, k) ==> lo <= self.labels@[j].pos < hi
    }

    /// The node that carries `key`, or null where no node does.
    pub fn find_node(&self, key: &K) -> (r: NodePtr)
        requires
            self.linked(),
            self.ordered(),
        ensures
            match r.index {
                Some(i) => self.key_at(i as int, key@) && self@.dom().contains(key@) && i
                    == self.index_of(key@),
                None => !self.has_key(key@) && !self@.dom().contains(key@),
            },
    {
        if self.root.is_null() {
            proof {
                if self.has_key(key@) {
                    let j = choose|j: int| self.key_at(j, key@);
                    assert(self.key_at(j, key@));
                }
            }
            return NodePtr::null();
        }
        let mut current = self.root;
        let ghost mut lo: int = 0;
        let ghost mut hi: int = self.count();
        proof {
            assert forall|j: int| #[trigger] self.key_at(j, key@) implies 0 <= self.labels@[j].pos
                < self.count() by {
                assert(self.node_linked(j));
            }
        }
        while !current.is_null()
            invariant
                self.linked(),
                self.ordered(),
                self.key_within(key@, lo, hi),
                match current.index {
                    Some(c) => c < self.nodes@.len() && self.labels@[c as int].lo == lo
                        && self.labels@[c as int].hi == hi,
                    None => lo == hi,
                },
            decreases hi - lo,
        {
            let c = current.index.unwrap();
            proof {
                assert(self.node_linked(c as int));
                order_laws::<K>();
            }
            match key.compare(&self.nodes[c].key) {
                Relation::Less => {
                    proof {
                        assert forall|j: int| #[trigger] self.key_at(j, key@) implies lo
                            <= self.labels@[j].pos < self.labels@[c as int].pos by {
                            if self.labels@[j].pos > self.labels@[c as int].pos {
                                lemma_ordered_nodes(*self, c as int, j);
                            } else if self.labels@[j].pos == self.labels@[c as int].pos {
                                lemma_position_unique(*self, c as int, j);
                            }
                        }
                        hi = self.labels@[c as int].pos;
                    }
                    current = self.nodes[c].left;
                },
                Relation::Greater => {
                    proof {
                        assert forall|j: int| #[trigger] self.key_at(j, key@) implies self.labels@[c as int].pos
                            + 1 <= self.labels@[j].pos < hi by {
                            if self.labels@[j].pos < self.labels@[c as int].pos {
                                lemma_ordered_nodes(*self, j, c as int);
                            } else if self.labels@[j].pos == self.labels@[c as int].pos {
                                lemma_position_unique(*self, c as int, j);
                            }
                        }
                        lo = self.labels@[c as int].pos + 1;
                    }
                    current = self.nodes[c].right;
                },
                Relation::Equal => {
                    proof {
                        crate::tree::lemma_index_of(*self, c as int);
                    }
                    return current;
                },
            }
        }
        proof {
            if self.has_key(key@) {
                let j = choose|j: int| self.key_at(j, key@);
                assert(self.key_at(j, key@));
            }
        }
        NodePtr::null()
    }

    /// Whether some node carries `k`, tombstoned or not.
    pub fn has_node(&self, k: &K) -> (r: bool)
        requires
            self.linked(),
            self.ordered(),
        ensures
            r == self@.dom().contains(k@),
    {
        let node = self.find_node(k);
        if node.is_null() {
            return false;
        }
        true
    }

    /// Whether the node that carries `key` is tombstoned. An absent key is not.
    pub fn check_key_deleted(&self, key: &K) -> (r: bool)
        requires
            self.linked(),
            self.ordered(),
        ensures
            r == (self@.dom().contains(key@) && self@[key@].status == Status::Deleted),
    {
        let node = self.find_node(key);
        proof {
            if node.index is Some {
                crate::tree::lemma_index_of(*self, node.index.unwrap() as int);
            }
        }
        if node.is_deleted(self) {
            return true;
        }
        return false;
    }
}

impl<K: TotalOrder, V: Clone> RedBlackTree<K, V> {
    /// A copy of the value bound to `key`, tombstoned or not.
    pub fn value(&self, key: &K) -> (r: Option<V>)
        requires
            self.linked(),
            self.ordered(),
        ensures
            match r {
                Some(v) => self@.dom().contains(key@) && cloned(self@[key@].value, v),
                None => !self@.dom().contains(key@),
            },
    {
        let node = self.find_node(key);
        proof {
            if node.index is Some {
                crate::tree::lemma_index_of(*self, node.index.unwrap() as int);
            }
        }
        return node.value(self);
    }
}

} // verus!
