//! What holds of the tree and the memtable across calls.

use vstd::prelude::*;
use crate::mem_table::MemTable;
use crate::node::{Color, Entry, Status};
use crate::order::TotalOrder;
use crate::tree::{lemma_index_of, lemma_key_unique, RedBlackTree};

verus! {

impl<K: TotalOrder, V> RedBlackTree<K, V> {
    /// `path` runs down the tree: it starts at a node, goes from each node
    /// to one of its children, and ends at a node with a null child link.
    pub open spec fn runs_down(&self, path: Seq<int>) -> bool {
        &&& path.len() > 0
        &&& forall|k: int| 0 <= k < path.len() ==> 0 <= #[trigger] path[k] < self.count()
        &&& forall|k: int|
            0 <= k < path.len() - 1 ==> {
                ||| self.nodes@[#[trigger] path[k]].left.is(path[k + 1])
                ||| self.nodes@[path[k]].right.is(path[k + 1])
            }
        &&& {
            ||| self.nodes@[path.last()].left.index is None
            ||| self.nodes@[path.last()].right.index is None
        }
    }

    /// The number of black nodes on `path`.
    pub open spec fn blacks_on(&self, path: Seq<int>) -> int
        decreases path.len(),
    {
        if path.len() == 0 {
            0
        } else {
            self.blacks_on(path.drop_first()) + if self.nodes@[path[0]].color == Color::Black {
                1int
            } else {
                0int
            }
        }
    }
}

/// In a red-black tree, every path from a node down to a null link crosses
/// as many black nodes as the label of the node says.
pub proof fn law_black_height_of_path<K: TotalOrder, V>(tree: RedBlackTree<K, V>, path: Seq<int>)
    requires
        tree.linked(),
        tree.black_height_uniform(),
        tree.runs_down(path),
    ensures
        tree.blacks_on(path) == tree.labels@[path[0]].bh,
    decreases path.len(),
{
    let top = path[0];
    assert(tree.node_balanced(top));
    assert(tree.node_linked(top));
    let rest = path.drop_first();
    if path.len() == 1 {
        assert(path.last() == top);
        assert(rest.len() == 0);
        assert(tree.blacks_on(rest) == 0);
    } else {
        assert(rest[0] == path[1]);
        assert(rest.last() == path.last());
        assert forall|k: int| 0 <= k < rest.len() implies 0 <= #[trigger] rest[k] < tree.count() by {
            assert(rest[k] == path[k + 1]);
        }
        assert forall|k: int| 0 <= k < rest.len() - 1 implies (tree.nodes@[#[trigger] rest[k]].left.is(
            rest[k + 1],
        ) || tree.nodes@[rest[k]].right.is(rest[k + 1])) by {
            assert(rest[k] == path[k + 1]);
            assert(rest[k + 1] == path[k + 2]);
        }
        law_black_height_of_path(tree, rest);
    }
}

/// Black-height uniformity: in a red-black tree, any two paths from the
/// root down to a null link cross the same number of black nodes.
pub proof fn law_black_height_uniform<K: TotalOrder, V>(
    tree: RedBlackTree<K, V>,
    first: Seq<int>,
    second: Seq<int>,
)
    requires
        tree.red_black(),
        tree.runs_down(first),
        tree.runs_down(second),
        tree.root.is(first[0]),
        tree.root.is(second[0]),
    ensures
        tree.blacks_on(first) == tree.blacks_on(second),
{
    law_black_height_of_path(tree, first);
    law_black_height_of_path(tree, second);
}

/// The traversal order is the key order: the keys listed in traversal order
/// ascend strictly, no key stands in the listing twice, every listed key is
/// bound, and the entry listed with it is the one it is bound to.
pub proof fn law_listing_is_the_map<K: TotalOrder, V>(tree: RedBlackTree<K, V>, a: int, b: int)
    requires
        tree.linked(),
        tree.ordered(),
        0 <= a < tree.count(),
        0 <= b < tree.count(),
    ensures
        a < b ==> K::precedes(tree.keys()[a], tree.keys()[b]),
        tree.keys()[a] == tree.keys()[b] ==> a == b,
        tree@.dom().contains(tree.keys()[a]),
        tree@[tree.keys()[a]] == tree.entries()[a],
{
    assert(tree.position_taken(a));
    assert(tree.position_taken(b));
    lemma_index_of(tree, tree.order@[a]);
    if tree.keys()[a] == tree.keys()[b] {
        lemma_key_unique(tree, tree.order@[a], tree.order@[b]);
    }
}

/// Every bound key stands in the listing, at the position of the node that
/// carries it.
pub proof fn law_every_key_is_listed<K: TotalOrder, V>(tree: RedBlackTree<K, V>, key: K::V)
    requires
        tree.linked(),
        tree.ordered(),
        tree@.dom().contains(key),
    ensures
        exists|a: int| 0 <= a < tree.count() && tree.keys()[a] == key && tree.entries()[a] == tree@[key],
{
    let i = tree.index_of(key);
    assert(tree.key_at(i, key));
    assert(tree.node_linked(i));
    let a = tree.labels@[i].pos;
    assert(tree.keys()[a] == key && tree.entries()[a] == tree@[key]);
}

impl<K: TotalOrder, V> RedBlackTree<K, V> {
    /// The keys that the first `m` slots of the arena carry.
    pub open spec fn keys_of_first(&self, m: int) -> Set<K::V> {
        Set::new(|k: K::V| exists|i: int| 0 <= i < m && self.key_at(i, k))
    }
}

/// The first `m` slots of the arena carry `m` different keys.
pub proof fn lemma_keys_of_first<K: TotalOrder, V>(tree: RedBlackTree<K, V>, m: int)
    requires
        tree.linked(),
        tree.ordered(),
        0 <= m <= tree.count(),
    ensures
        tree.keys_of_first(m).finite(),
        tree.keys_of_first(m).len() == m,
    decreases m,
{
    if m == 0 {
        assert(tree.keys_of_first(0) =~= Set::<K::V>::empty());
    } else {
        lemma_keys_of_first(tree, m - 1);
        let k = tree.nodes@[m - 1].key@;
        assert(tree.key_at(m - 1, k));
        assert forall|j: int| 0 <= j < m - 1 && tree.key_at(j, k) implies false by {
            lemma_key_unique(tree, j, m - 1);
        }
        assert(!tree.keys_of_first(m - 1).contains(k));
        assert(tree.keys_of_first(m) =~= tree.keys_of_first(m - 1).insert(k));
    }
}

/// The tree has one node for each key that it binds.
pub proof fn law_one_node_for_each_key<K: TotalOrder, V>(tree: RedBlackTree<K, V>)
    requires
        tree.wf(),
    ensures
        tree@.dom().finite(),
        tree@.dom().len() == tree.count(),
        tree@.dom().len() == tree.size,
{
    lemma_keys_of_first(tree, tree.count());
    assert(tree@.dom() =~= tree.keys_of_first(tree.count()));
}

/// Two trees that are the same map agree on the key at position `at`,
/// given that they agree before it.
proof fn lemma_same_key_at<K: TotalOrder, V>(first: RedBlackTree<K, V>, second: RedBlackTree<K, V>, at: int)
    requires
        first.wf(),
        second.wf(),
        first@ == second@,
        0 <= at < first.count(),
        first.count() == second.count(),
        forall|j: int| 0 <= j < at ==> first.keys()[j] == second.keys()[j],
    ensures
        first.keys()[at] == second.keys()[at],
{
    crate::order::order_laws::<K>();
    law_listing_is_the_map(first, at, at);
    law_listing_is_the_map(second, at, at);
    law_every_key_is_listed(second, first.keys()[at]);
    law_every_key_is_listed(first, second.keys()[at]);
    let m = choose|m: int| 0 <= m < second.count() && second.keys()[m] == first.keys()[at];
    let n = choose|n: int| 0 <= n < first.count() && first.keys()[n] == second.keys()[at];
    if m < at {
        law_listing_is_the_map(first, m, at);
    }
    if n < at {
        law_listing_is_the_map(second, n, at);
    }
    if m > at {
        law_listing_is_the_map(second, at, m);
        if n > at {
            law_listing_is_the_map(first, at, n);
        }
    }
}

/// Two trees that are the same map agree on the keys at all positions up to `upto`.
proof fn lemma_same_keys_upto<K: TotalOrder, V>(first: RedBlackTree<K, V>, second: RedBlackTree<K, V>, upto: int)
    requires
        first.wf(),
        second.wf(),
        first@ == second@,
        0 <= upto <= first.count(),
        first.count() == second.count(),
    ensures
        forall|j: int| 0 <= j < upto ==> first.keys()[j] == second.keys()[j],
    decreases upto,
{
    if upto > 0 {
        lemma_same_keys_upto(first, second, upto - 1);
        lemma_same_key_at(first, second, upto - 1);
    }
}

/// The listing depends on the bindings alone: two trees that are the same
/// map list the same keys and entries in the same order, however they came
/// to hold them.
pub proof fn law_listing_is_determined<K: TotalOrder, V>(first: RedBlackTree<K, V>, second: RedBlackTree<K, V>)
    requires
        first.wf(),
        second.wf(),
        first@ == second@,
    ensures
        first.count() == second.count(),
        first.keys() == second.keys(),
        first.entries() == second.entries(),
{
    law_one_node_for_each_key(first);
    law_one_node_for_each_key(second);
    lemma_same_keys_upto(first, second, first.count());
    assert(first.keys() =~= second.keys());
    assert forall|a: int| 0 <= a < first.count() implies first.entries()[a] == second.entries()[a] by {
        law_listing_is_the_map(first, a, a);
        law_listing_is_the_map(second, a, a);
    }
    assert(first.entries() =~= second.entries());
}

/// Flush determinism: two memtables with the same bindings have the same
/// rows, and so a flush of either gives the same bytes.
pub proof fn law_flush_is_determined(first: MemTable, second: MemTable)
    requires
        first.wf(),
        second.wf(),
        first@ == second@,
    ensures
        first.rows() == second.rows(),
        crate::sstable::encoded_rows(first.rows()) == crate::sstable::encoded_rows(second.rows()),
{
    law_listing_is_determined(first.db_store, second.db_store);
    assert(first.rows() =~= second.rows());
}

/// The rows of a memtable are its bindings in ascending key order: each
/// row holds a bound key with the value and the timestamp that it is bound
/// to, and the keys ascend strictly.
pub proof fn law_rows_are_the_bindings(table: MemTable, a: int, b: int)
    requires
        table.wf(),
        0 <= a < b < table.len(),
    ensures
        table.rows().len() == table.len(),
        table@.dom().contains(table.rows()[a].0),
        table.rows()[a].1 == table@[table.rows()[a].0].value@,
        table.rows()[a].2 == table@[table.rows()[a].0].timestamp,
        crate::order::bytes_precede(table.rows()[a].0, table.rows()[b].0),
{
    law_listing_is_the_map(table.db_store, a, b);
}

/// Overwrite semantics: binding a key a second time leaves the number of
/// nodes as it was after the first time, with one node for the key, and
/// that node holds the second entry.
pub proof fn law_overwrite<K: TotalOrder, V>(
    start: RedBlackTree<K, V>,
    once: RedBlackTree<K, V>,
    twice: RedBlackTree<K, V>,
    key: K::V,
    first: Entry<V>,
    second: Entry<V>,
)
    requires
        once.wf(),
        twice.wf(),
        once@ == start@.insert(key, first),
        twice@ == once@.insert(key, second),
        twice.count() == if once.has_key(key) {
            once.count()
        } else {
            once.count() + 1
        },
    ensures
        twice.count() == once.count(),
        twice.size == once.size,
        twice@.dom() == once@.dom(),
        twice@[key] == second,
        exists|i: int| twice.key_at(i, key) && twice.nodes@[i].entry() == second,
        forall|i: int, j: int| twice.key_at(i, key) && twice.key_at(j, key) ==> i == j,
        exists|a: int| 0 <= a < twice.count() && twice.keys()[a] == key && twice.entries()[a] == second,
{
    assert(once@.dom().contains(key));
    assert(twice@.dom().contains(key));
    assert(twice@.dom() =~= once@.dom());
    let i = twice.index_of(key);
    assert(twice.key_at(i, key));
    lemma_index_of(twice, i);
    assert forall|i: int, j: int| twice.key_at(i, key) && twice.key_at(j, key) implies i == j by {
        lemma_key_unique(twice, i, j);
    }
    assert(twice.node_linked(i));
    let a = twice.labels@[i].pos;
    assert(twice.keys()[a] == key && twice.entries()[a] == second);
}

/// Tombstone semantics: after the deletion of a key that was not bound, the
/// key is bound to a tombstone: a node carries it, and a read finds nothing.
pub proof fn law_tombstone(before: MemTable, after: MemTable, key: Seq<u8>)
    requires
        !before@.dom().contains(key),
        after@.dom() == before@.dom().insert(key),
        after@[key].status == Status::Deleted,
    ensures
        after.db_store.has_key(key),
        after.visible(key) is None,
        after@.dom().contains(key),
{
    assert(after@.dom().contains(key));
}

/// Size accounting: a second write of a key moves the size estimate by the
/// change in value length, and not at all where the length is the same.
pub proof fn law_size_accounting(
    start: MemTable,
    once: MemTable,
    twice: MemTable,
    key: Seq<u8>,
    first: Entry<Vec<u8>>,
    second: Entry<Vec<u8>>,
)
    requires
        once@ == start@.insert(key, first),
        twice.size == once.size_with(key, second.value@.len()),
    ensures
        twice.size == once.size + second.value@.len() - first.value@.len(),
        second.value@.len() == first.value@.len() ==> twice.size == once.size,
{
    assert(once@.dom().contains(key));
}

} // verus!
