//! The ordered index: a red-black tree whose nodes live in an arena, and the
//! predicates that say when the arena is such a tree.

use vstd::prelude::*;
use crate::node::{Color, Entry, Label, Node, NodePtr, Side};
use crate::order::TotalOrder;

verus! {

/// A red-black tree over an arena of nodes.
///
/// `labels` and `order` are ghost: `order` lists the arena slots in key
/// order, and `labels[i]` places slot `i` in that listing.
pub struct RedBlackTree<K, V> {
    pub nodes: Vec<Node<K, V>>,
    pub root: NodePtr,
    pub size: u64,
    pub labels: Ghost<Seq<Label>>,
    pub order: Ghost<Seq<int>>,
}

impl<K: TotalOrder, V> View for RedBlackTree<K, V> {
    type V = Map<K::V, Entry<V>>;

    /// The tree as a map from keys to what they are bound to.
    open spec fn view(&self) -> Map<K::V, Entry<V>> {
        Map::new(|k: K::V| self.has_key(k), |k: K::V| self.nodes@[self.index_of(k)].entry())
    }
}

impl<K: TotalOrder, V> RedBlackTree<K, V> {
    /// The number of nodes in the arena.
    pub open spec fn count(&self) -> int {
        self.nodes@.len() as int
    }

    /// `p` names a node of this tree.
    pub open spec fn holds(&self, p: NodePtr) -> bool {
        p.index matches Some(i) && i < self.nodes@.len()
    }

    /// Some node carries the key `k`.
    pub open spec fn has_key(&self, k: K::V) -> bool {
        exists|i: int| self.key_at(i, k)
    }

    /// Slot `i` carries the key `k`.
    pub open spec fn key_at(&self, i: int, k: K::V) -> bool {
        0 <= i < self.count() && self.nodes@[i].key@ == k
    }

    /// A slot that carries the key `k`.
    pub open spec fn index_of(&self, k: K::V) -> int {
        choose|i: int| self.key_at(i, k)
    }

    /// The keys in traversal order.
    pub open spec fn keys(&self) -> Seq<K::V> {
        Seq::new(self.nodes@.len(), |a: int| self.nodes@[self.order@[a]].key@)
    }

    /// The entries in traversal order.
    pub open spec fn entries(&self) -> Seq<Entry<V>> {
        Seq::new(self.nodes@.len(), |a: int| self.nodes@[self.order@[a]].entry())
    }

    /// The child link `c` of slot `parent` on `side` is null and the range
    /// `lo..hi` is empty, or it names a node that fills `lo..hi` and points back.
    pub open spec fn child_fits(&self, c: NodePtr, parent: int, side: Side, lo: int, hi: int) -> bool {
        match c.index {
            None => lo == hi,
            Some(c) => {
                &&& c < self.nodes@.len()
                &&& self.labels@[c as int].lo == lo
                &&& self.labels@[c as int].hi == hi
                &&& self.nodes@[c as int].parent.is(parent)
                &&& self.nodes@[c as int].side == side
            },
        }
    }

    /// The links of slot `i` agree with its label and with its neighbours.
    pub open spec fn node_linked(&self, i: int) -> bool {
        let node = self.nodes@[i];
        let l = self.labels@[i];
        &&& 0 <= l.lo <= l.pos < l.hi <= self.count()
        &&& self.order@[l.pos] == i
        &&& self.child_fits(node.left, i, Side::Left, l.lo, l.pos)
        &&& self.child_fits(node.right, i, Side::Right, l.pos + 1, l.hi)
        &&& match node.parent.index {
            None => node.side == Side::Root && self.root.is(i),
            Some(p) => {
                &&& p < self.nodes@.len()
                &&& match node.side {
                    Side::Left => self.nodes@[p as int].left.is(i),
                    Side::Right => self.nodes@[p as int].right.is(i),
                    Side::Root => false,
                }
            },
        }
    }

    /// In-order position `a` is taken by a slot that knows it.
    pub open spec fn position_taken(&self, a: int) -> bool {
        &&& 0 <= self.order@[a] < self.count()
        &&& self.labels@[self.order@[a]].pos == a
    }

    /// The arena is one binary tree: every slot hangs below the root, and
    /// `order` is its in-order listing.
    pub open spec fn linked(&self) -> bool {
        &&& self.labels@.len() == self.nodes@.len()
        &&& self.order@.len() == self.nodes@.len()
        &&& forall|i: int| 0 <= i < self.count() ==> #[trigger] self.node_linked(i)
        &&& forall|a: int| 0 <= a < self.count() ==> #[trigger] self.position_taken(a)
        &&& match self.root.index {
            None => self.count() == 0,
            Some(r) => {
                &&& r < self.nodes@.len()
                &&& self.nodes@[r as int].parent.index is None
                &&& self.labels@[r as int].lo == 0
                &&& self.labels@[r as int].hi == self.count()
            },
        }
    }

    /// Binary-search-tree order: the traversal meets the keys in strictly ascending order.
    pub open spec fn ordered(&self) -> bool {
        forall|a: int, b: int|
            0 <= a < b < self.count() ==> K::precedes(#[trigger] self.keys()[a], #[trigger] self.keys()[b])
    }

    /// The root, if there is one, is black.
    pub open spec fn root_is_black(&self) -> bool {
        match self.root.index {
            None => true,
            Some(r) => self.nodes@[r as int].color == Color::Black,
        }
    }

    /// Slot `i` is not a red node below a red parent.
    pub open spec fn no_red_parent(&self, i: int) -> bool {
        self.nodes@[i].color == Color::Red ==> match self.nodes@[i].parent.index {
            None => true,
            Some(p) => self.nodes@[p as int].color == Color::Black,
        }
    }

    /// No red node has a red parent.
    pub open spec fn no_red_red(&self) -> bool {
        forall|i: int| 0 <= i < self.count() ==> #[trigger] self.no_red_parent(i)
    }

    /// No red node has a red parent, except possibly slot `x`.
    pub open spec fn no_red_red_but(&self, x: int) -> bool {
        forall|i: int| 0 <= i < self.count() && i != x ==> #[trigger] self.no_red_parent(i)
    }

    /// The black height below a link: 0 below null.
    pub open spec fn black_height(&self, c: NodePtr) -> int {
        match c.index {
            None => 0,
            Some(c) => self.labels@[c as int].bh,
        }
    }

    /// Both subtrees of slot `i` have the same black height, and the label
    /// of `i` counts `i` itself on top of it.
    pub open spec fn node_balanced(&self, i: int) -> bool {
        let node = self.nodes@[i];
        &&& self.black_height(node.left) == self.black_height(node.right)
        &&& self.labels@[i].bh == self.black_height(node.left) + if node.color == Color::Black {
            1int
        } else {
            0int
        }
    }

    /// Every path from a node down to a null link crosses the same number of black nodes.
    pub open spec fn black_height_uniform(&self) -> bool {
        forall|i: int| 0 <= i < self.count() ==> #[trigger] self.node_balanced(i)
    }

    /// The size counter equals the number of nodes.
    pub open spec fn counted(&self) -> bool {
        self.size == self.count()
    }

    /// The red-black invariants on the links, the key order and the colors.
    pub open spec fn red_black(&self) -> bool {
        &&& self.linked()
        &&& self.ordered()
        &&& self.root_is_black()
        &&& self.no_red_red()
        &&& self.black_height_uniform()
    }

    /// The red-black invariants with one exception: slot `x` may be a red
    /// node below a red parent.
    pub open spec fn red_black_but(&self, x: int) -> bool {
        &&& self.linked()
        &&& self.ordered()
        &&& self.root_is_black()
        &&& self.no_red_red_but(x)
        &&& self.black_height_uniform()
    }

    /// The invariant of the tree: it is a red-black tree, and its size
    /// counter is the number of its nodes.
    pub open spec fn wf(&self) -> bool {
        &&& self.red_black()
        &&& self.counted()
    }

    /// Two trees whose arenas hold the same entries in the same slots and
    /// which list them in the same order: they differ in links, colors and
    /// labels at most.
    pub open spec fn same_entries(&self, other: &Self) -> bool {
        &&& self.nodes@.len() == other.nodes@.len()
        &&& self.order@ == other.order@
        &&& forall|i: int| 0 <= i < self.count() ==> (#[trigger] self.nodes@[i]).same_entry(other.nodes@[i])
    }

    /// Two trees with the same links and the same placement of every node:
    /// they differ in entries, colors and black heights at most.
    pub open spec fn same_links(&self, other: &Self) -> bool {
        &&& self.nodes@.len() == other.nodes@.len()
        &&& self.labels@.len() == other.labels@.len()
        &&& self.order@ == other.order@
        &&& self.root == other.root
        &&& forall|i: int|
            0 <= i < self.count() ==> {
                &&& (#[trigger] self.nodes@[i]).left == other.nodes@[i].left
                &&& self.nodes@[i].right == other.nodes@[i].right
                &&& self.nodes@[i].parent == other.nodes@[i].parent
                &&& self.nodes@[i].side == other.nodes@[i].side
            }
        &&& forall|i: int|
            0 <= i < self.count() ==> {
                &&& (#[trigger] self.labels@[i]).lo == other.labels@[i].lo
                &&& self.labels@[i].pos == other.labels@[i].pos
                &&& self.labels@[i].hi == other.labels@[i].hi
            }
    }

    /// An empty tree.
    pub fn new() -> (tree: Self)
        ensures
            tree.wf(),
            tree.count() == 0,
            tree.size == 0,
            tree.root.index is None,
            tree@ == Map::<K::V, Entry<V>>::empty(),
    {
        let tree = RedBlackTree {
            nodes: Vec::new(),
            root: NodePtr::null(),
            size: 0,
            labels: Ghost(Seq::empty()),
            order: Ghost(Seq::empty()),
        };
        assert(tree@ =~= Map::<K::V, Entry<V>>::empty());
        tree
    }
}

/// A tree with the links and placement of a linked tree is linked.
pub proof fn lemma_same_links<K: TotalOrder, V>(new: RedBlackTree<K, V>, old: RedBlackTree<K, V>)
    requires
        old.linked(),
        new.same_links(&old),
    ensures
        new.linked(),
{
    assert forall|i: int| 0 <= i < new.count() implies #[trigger] new.node_linked(i) by {
        assert(old.node_linked(i));
    }
    assert forall|a: int| 0 <= a < new.count() implies #[trigger] new.position_taken(a) by {
        assert(old.position_taken(a));
    }
}

/// In an ordered tree, the node at the earlier position has the smaller key.
pub proof fn lemma_ordered_nodes<K: TotalOrder, V>(tree: RedBlackTree<K, V>, i: int, j: int)
    requires
        tree.linked(),
        tree.ordered(),
        0 <= i < tree.count(),
        0 <= j < tree.count(),
        tree.labels@[i].pos < tree.labels@[j].pos,
    ensures
        K::precedes(tree.nodes@[i].key@, tree.nodes@[j].key@),
{
    assert(tree.node_linked(i));
    assert(tree.node_linked(j));
    assert(tree.keys()[tree.labels@[i].pos] == tree.nodes@[i].key@);
    assert(tree.keys()[tree.labels@[j].pos] == tree.nodes@[j].key@);
}

/// In an ordered tree no two nodes carry the same key.
pub proof fn lemma_key_unique<K: TotalOrder, V>(tree: RedBlackTree<K, V>, i: int, j: int)
    requires
        tree.linked(),
        tree.ordered(),
        0 <= i < tree.count(),
        0 <= j < tree.count(),
        tree.nodes@[i].key@ == tree.nodes@[j].key@,
    ensures
        i == j,
{
    assert(tree.node_linked(i));
    assert(tree.node_linked(j));
    K::precedes_irreflexive(tree.nodes@[i].key@);
    if tree.labels@[i].pos < tree.labels@[j].pos {
        lemma_ordered_nodes(tree, i, j);
    } else if tree.labels@[j].pos < tree.labels@[i].pos {
        lemma_ordered_nodes(tree, j, i);
    }
}

/// In an ordered tree, the slot that carries a key is the one `index_of` names.
pub proof fn lemma_index_of<K: TotalOrder, V>(tree: RedBlackTree<K, V>, i: int)
    requires
        tree.linked(),
        tree.ordered(),
        0 <= i < tree.count(),
    ensures
        tree.has_key(tree.nodes@[i].key@),
        tree.index_of(tree.nodes@[i].key@) == i,
        tree@.dom().contains(tree.nodes@[i].key@),
        tree@[tree.nodes@[i].key@] == tree.nodes@[i].entry(),
{
    let k = tree.nodes@[i].key@;
    assert(tree.key_at(i, k));
    lemma_key_unique(tree, i, tree.index_of(k));
}

/// A tree with the entries and the listing of a linked tree has the same
/// keys and entries in order; if that tree is ordered, it is the same map.
pub proof fn lemma_same_entries<K: TotalOrder, V>(new: RedBlackTree<K, V>, old: RedBlackTree<K, V>)
    requires
        old.linked(),
        new.same_entries(&old),
    ensures
        new.keys() == old.keys(),
        new.entries() == old.entries(),
        old.ordered() ==> new.ordered(),
        old.ordered() && new.linked() ==> new@ == old@,
{
    assert forall|a: int| 0 <= a < old.count() implies new.keys()[a] == old.keys()[a]
        && new.entries()[a] == old.entries()[a] by {
        assert(old.position_taken(a));
    }
    assert(new.keys() =~= old.keys());
    assert(new.entries() =~= old.entries());
    if old.ordered() && new.linked() {
        assert forall|k: K::V| new.has_key(k) == old.has_key(k) by {
            if new.has_key(k) {
                let i = choose|i: int| new.key_at(i, k);
                assert(old.key_at(i, k));
            }
            if old.has_key(k) {
                let i = choose|i: int| old.key_at(i, k);
                assert(new.key_at(i, k));
            }
        }
        assert forall|k: K::V| new.has_key(k) implies new@[k] == old@[k] by {
            let i = new.index_of(k);
            assert(new.key_at(i, k));
            lemma_index_of(old, i);
        }
        assert(new@ =~= old@);
    }
}

/// The invariants and the map of a tree do not depend on its size counter.
pub proof fn lemma_frame<K: TotalOrder, V>(new: RedBlackTree<K, V>, old: RedBlackTree<K, V>)
    requires
        old.red_black(),
        new.nodes@ == old.nodes@,
        new.root == old.root,
        new.labels@ == old.labels@,
        new.order@ == old.order@,
    ensures
        new.red_black(),
        new@ == old@,
        new.keys() == old.keys(),
        new.entries() == old.entries(),
{
    lemma_same_links(new, old);
    lemma_same_entries(new, old);
    assert forall|i: int|
        #![trigger new.node_balanced(i)]
        #![trigger new.no_red_parent(i)]
        0 <= i < new.count() implies new.node_balanced(i) && new.no_red_parent(i) by {
        assert(old.node_balanced(i));
        assert(old.no_red_parent(i));
    }
}

} // verus!
