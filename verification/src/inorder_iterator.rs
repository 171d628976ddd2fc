//! In-order traversal in constant space.
//!
//! The iterator holds the node it stands at and nothing else. In place of a
//! stack it threads the tree: see the module on threads. A traversal must be
//! run to its end, or the threads stay in the tree.

use vstd::prelude::*;
use crate::node::NodePtr;
use crate::order::TotalOrder;
use crate::threads::{
    lemma_step_leaf, lemma_step_thread, lemma_step_unthread, lemma_threaded_listing,
    lemma_traversal_ends,
};
use crate::tree::RedBlackTree;

verus! {

/// A traversal of a tree in key order.
pub struct InOrderIterator {
    /// The node that the traversal stands at.
    pub current: NodePtr,
    /// How many nodes the traversal has given out.
    pub given: Ghost<int>,
}

impl InOrderIterator {
    /// A traversal that starts at `root` and has not given out any node.
    pub fn new(root: NodePtr) -> (it: Self)
        ensures
            it.current == root,
            it.given@ == 0,
    {
        InOrderIterator { current: root, given: Ghost(0) }
    }

    /// The traversal is in step with `tree`: the tree holds exactly the
    /// threads that the traversal has laid and not yet taken away.
    pub open spec fn in_step<K: TotalOrder, V>(&self, tree: &RedBlackTree<K, V>) -> bool {
        tree.threaded(self.current, self.given@)
    }

    /// The next node in key order, or `None` when every node was given out.
    ///
    /// The call may lay or take away threads in `tree`: right links may
    /// change, nothing else does. When it returns `None`, no thread is left
    /// and the tree is a red-black tree again.
    pub fn next<K: TotalOrder, V>(&mut self, tree: &mut RedBlackTree<K, V>) -> (r: Option<NodePtr>)
        requires
            old(self).in_step(old(tree)),
        ensures
            final(self).in_step(final(tree)),
            final(tree).same_but_right_links(old(tree)),
            final(tree).same_entries(old(tree)),
            final(tree).keys() == old(tree).keys(),
            final(tree).entries() == old(tree).entries(),
            match r {
                Some(p) => {
                    &&& old(self).given@ < old(tree).count()
                    &&& p.is(old(tree).order@[old(self).given@])
                    &&& final(tree).holds(p)
                    &&& final(tree).nodes@[p.index.unwrap() as int].key@ == old(tree).keys()[old(
                        self,
                    ).given@]
                    &&& final(tree).nodes@[p.index.unwrap() as int].entry() == old(tree).entries()[old(
                        self,
                    ).given@]
                    &&& final(self).given@ == old(self).given@ + 1
                },
                None => {
                    &&& old(self).given@ == old(tree).count()
                    &&& final(self).given@ == old(self).given@
                    &&& final(self).current.index is None
                    &&& final(tree).red_black()
                },
            },
        decreases
                match old(self).current.index {
                    Some(c) => old(tree).labels@[c as int].hi - old(tree).labels@[c as int].lo,
                    None => 0,
                },
    {
        let ghost s0 = *tree;
        let ghost e = self.given@;
        if self.current.is_null() {
            proof {
                lemma_traversal_ends(*tree);
            }
            return None;
        }
        let current = self.current;
        let ghost c = current.index.unwrap();
        proof {
            assert(tree.node_threaded(c as int, current, e));
            assert(tree.position_taken(e));
        }
        if current.left(tree).is_null() {
            let temp = current;
            self.current = current.right(tree);
            proof {
                self.given@ = e + 1;
                lemma_step_leaf(*tree, c, e);
            }
            return Some(temp);
        } else {
            let mut right_most = current.left(tree);
            proof {
                assert(tree.node_threaded(right_most.index.unwrap() as int, current, e));
            }
            while !right_most.right(tree).is_null() && !right_most.right(tree).same(current)
                invariant
                    *tree == s0,
                    tree.threaded(current, e),
                    current.index == Some(c),
                    c < tree.nodes@.len(),
                    tree.holds(right_most),
                    tree.labels@[right_most.index.unwrap() as int].hi == tree.labels@[c as int].pos,
                decreases
                        tree.labels@[right_most.index.unwrap() as int].hi
                            - tree.labels@[right_most.index.unwrap() as int].lo,
            {
                proof {
                    let m = right_most.index.unwrap() as int;
                    assert(tree.node_threaded(m, current, e));
                    assert(tree.node_threaded(c as int, current, e));
                    assert(tree.position_taken(tree.labels@[c as int].pos));
                    assert(!tree.ends_here(m));
                    assert(tree.node_threaded(tree.nodes@[m].right.index.unwrap() as int, current, e));
                }
                right_most = right_most.right(tree);
            }
            let ghost m = right_most.index.unwrap() as int;
            if right_most.right(tree).is_null() {
                right_most.set_right_child(tree, current);
                self.current = current.left(tree);
                proof {
                    lemma_step_thread(s0, *tree, c, m, e);
                    assert(s0.node_threaded(self.current.index.unwrap() as int, current, e));
                }
                let ghost s1 = *tree;
                let r = self.next(tree);
                proof {
                    assert forall|i: int| 0 <= i < tree.count() implies (#[trigger] tree.nodes@[i]).same_entry(
                        s0.nodes@[i],
                    ) by {
                        assert(tree.nodes@[i].same_entry(s1.nodes@[i]));
                        assert(s1.nodes@[i].same_entry(s0.nodes@[i]));
                    }
                    lemma_threaded_listing(s1, s0, current, e);
                }
                return r;
            } else {
                right_most.set_right_child(tree, NodePtr::null());
                let temp = current;
                self.current = current.right(tree);
                proof {
                    self.given@ = e + 1;
                    lemma_step_unthread(s0, *tree, c, m, e);
                    lemma_threaded_listing(*tree, s0, current, e);
                }
                return Some(temp);
            }
        }
    }
}

impl NodePtr {
    /// A traversal in key order of the tree below this node.
    pub fn into_iter(self) -> (it: InOrderIterator)
        ensures
            it.current == self,
            it.given@ == 0,
    {
        InOrderIterator::new(self)
    }
}

} // verus!
