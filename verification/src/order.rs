//! Total orders on keys.
//!
//! The index compares keys through [`TotalOrder`]: a strict total order on
//! the key's view, together with an executable three-way comparison and a
//! way to copy a key that keeps its view.

use vstd::prelude::*;

verus! {

/// How one key stands to another.
#[derive(Clone, Copy, PartialEq, Eq, Structural, Debug)]
pub enum Relation {
    Less,
    Equal,
    Greater,
}

/// A key type whose views are strictly and totally ordered by `precedes`.
pub trait TotalOrder: View + Sized {
    /// The strict order on views.
    spec fn precedes(a: Self::V, b: Self::V) -> bool;

    /// No view precedes itself.
    proof fn precedes_irreflexive(a: Self::V)
        ensures
            !Self::precedes(a, a),
    ;

    /// The order is transitive.
    proof fn precedes_transitive(a: Self::V, b: Self::V, c: Self::V)
        requires
            Self::precedes(a, b),
            Self::precedes(b, c),
        ensures
            Self::precedes(a, c),
    ;

    /// Two different views are ordered one way or the other.
    proof fn precedes_total(a: Self::V, b: Self::V)
        ensures
            Self::precedes(a, b) || a == b || Self::precedes(b, a),
    ;

    /// Three-way comparison of two keys.
    fn compare(&self, other: &Self) -> (r: Relation)
        ensures
            r == Relation::Less <==> Self::precedes(self@, other@),
            r == Relation::Equal <==> self@ == other@,
            r == Relation::Greater <==> Self::precedes(other@, self@),
    ;

    /// A second key with the same view.
    fn duplicate(&self) -> (r: Self)
        ensures
            r@ == self@,
    ;
}

/// The order laws of `K` as quantified facts, for proofs that compare many keys.
pub proof fn order_laws<K: TotalOrder>()
    ensures
        forall|a: K::V| !#[trigger] K::precedes(a, a),
        forall|a: K::V, b: K::V, c: K::V|
            #[trigger] K::precedes(a, b) && #[trigger] K::precedes(b, c) ==> K::precedes(a, c),
        forall|a: K::V, b: K::V| #[trigger] K::precedes(a, b) || a == b || K::precedes(b, a),
        forall|a: K::V, b: K::V| #[trigger] K::precedes(a, b) ==> !K::precedes(b, a),
{
    assert forall|a: K::V| !#[trigger] K::precedes(a, a) by {
        K::precedes_irreflexive(a);
    }
    assert forall|a: K::V, b: K::V, c: K::V|
        #[trigger] K::precedes(a, b) && #[trigger] K::precedes(b, c) implies K::precedes(a, c) by {
        K::precedes_transitive(a, b, c);
    }
    assert forall|a: K::V, b: K::V| #[trigger] K::precedes(a, b) || a == b || K::precedes(b, a) by {
        K::precedes_total(a, b);
    }
    assert forall|a: K::V, b: K::V| #[trigger] K::precedes(a, b) implies !K::precedes(b, a) by {
        if K::precedes(b, a) {
            K::precedes_transitive(a, b, a);
            K::precedes_irreflexive(a);
        }
    }
}

impl TotalOrder for u8 {
    open spec fn precedes(a: u8, b: u8) -> bool {
        a < b
    }

    proof fn precedes_irreflexive(a: u8) {
    }

    proof fn precedes_transitive(a: u8, b: u8, c: u8) {
    }

    proof fn precedes_total(a: u8, b: u8) {
    }

    fn compare(&self, other: &Self) -> (r: Relation) {
        if *self < *other {
            Relation::Less
        } else if *self == *other {
            Relation::Equal
        } else {
            Relation::Greater
        }
    }

    fn duplicate(&self) -> (r: Self) {
        *self
    }
}

impl TotalOrder for u64 {
    open spec fn precedes(a: u64, b: u64) -> bool {
        a < b
    }

    proof fn precedes_irreflexive(a: u64) {
    }

    proof fn precedes_transitive(a: u64, b: u64, c: u64) {
    }

    proof fn precedes_total(a: u64, b: u64) {
    }

    fn compare(&self, other: &Self) -> (r: Relation) {
        if *self < *other {
            Relation::Less
        } else if *self == *other {
            Relation::Equal
        } else {
            Relation::Greater
        }
    }

    fn duplicate(&self) -> (r: Self) {
        *self
    }
}

/// Lexicographic order on byte strings: `a` comes before `b` when, at the
/// first place `k` where they differ, `a` has ended or holds the smaller byte.
pub open spec fn bytes_precede(a: Seq<u8>, b: Seq<u8>) -> bool {
    exists|k: int| bytes_precede_at(a, b, k)
}

/// `a` and `b` agree below `k`, and at `k` the string `a` ends first or is smaller.
pub open spec fn bytes_precede_at(a: Seq<u8>, b: Seq<u8>, k: int) -> bool {
    &&& 0 <= k <= a.len()
    &&& k <= b.len()
    &&& a.subrange(0, k) == b.subrange(0, k)
    &&& k < b.len()
    &&& k < a.len() ==> a[k] < b[k]
}

proof fn lemma_prefix_index(a: Seq<u8>, b: Seq<u8>, k: int, j: int)
    requires
        0 <= j < k <= a.len(),
        k <= b.len(),
        a.subrange(0, k) == b.subrange(0, k),
    ensures
        a[j] == b[j],
{
    assert(a.subrange(0, k)[j] == a[j]);
    assert(b.subrange(0, k)[j] == b[j]);
}

proof fn lemma_prefix_shorter(a: Seq<u8>, b: Seq<u8>, k: int, j: int)
    requires
        0 <= j <= k <= a.len(),
        k <= b.len(),
        a.subrange(0, k) == b.subrange(0, k),
    ensures
        a.subrange(0, j) == b.subrange(0, j),
{
    assert forall|i: int| 0 <= i < j implies a.subrange(0, j)[i] == b.subrange(0, j)[i] by {
        lemma_prefix_index(a, b, k, i);
    }
    assert(a.subrange(0, j) =~= b.subrange(0, j));
}

proof fn lemma_prefix_longer(a: Seq<u8>, b: Seq<u8>, k: int)
    requires
        0 <= k < a.len(),
        k < b.len(),
        a.subrange(0, k) == b.subrange(0, k),
        a[k] == b[k],
    ensures
        a.subrange(0, k + 1) == b.subrange(0, k + 1),
{
    let m = k + 1;
    assert forall|i: int| 0 <= i < m implies a.subrange(0, m)[i] == b.subrange(0, m)[i] by {
        if i < k {
            lemma_prefix_index(a, b, k, i);
        }
    }
    assert(a.subrange(0, m) =~= b.subrange(0, m));
}

/// From a common prefix of length `k`, either the strings are equal or one precedes the other.
proof fn lemma_bytes_total_from(a: Seq<u8>, b: Seq<u8>, k: int)
    requires
        0 <= k <= a.len(),
        k <= b.len(),
        a.subrange(0, k) == b.subrange(0, k),
    ensures
        bytes_precede(a, b) || a == b || bytes_precede(b, a),
    decreases a.len() - k,
{
    if k == a.len() && k == b.len() {
        assert(a.subrange(0, k) =~= a);
        assert(b.subrange(0, k) =~= b);
    } else if k == a.len() {
        assert(bytes_precede_at(a, b, k));
    } else if k == b.len() {
        assert(bytes_precede_at(b, a, k));
    } else if a[k] < b[k] {
        assert(bytes_precede_at(a, b, k));
    } else if b[k] < a[k] {
        assert(bytes_precede_at(b, a, k));
    } else {
        lemma_prefix_longer(a, b, k);
        lemma_bytes_total_from(a, b, k + 1);
    }
}

impl TotalOrder for Vec<u8> {
    open spec fn precedes(a: Seq<u8>, b: Seq<u8>) -> bool {
        bytes_precede(a, b)
    }

    proof fn precedes_irreflexive(a: Seq<u8>) {
    }

    proof fn precedes_transitive(a: Seq<u8>, b: Seq<u8>, c: Seq<u8>) {
        let k1 = choose|k: int| bytes_precede_at(a, b, k);
        let k2 = choose|k: int| bytes_precede_at(b, c, k);
        if k1 <= k2 {
            lemma_prefix_shorter(b, c, k2, k1);
            if k1 < k2 {
                lemma_prefix_index(b, c, k2, k1);
            }
            assert(bytes_precede_at(a, c, k1));
        } else {
            lemma_prefix_shorter(a, b, k1, k2);
            lemma_prefix_index(a, b, k1, k2);
            assert(bytes_precede_at(a, c, k2));
        }
    }

    proof fn precedes_total(a: Seq<u8>, b: Seq<u8>) {
        assert(a.subrange(0, 0) =~= b.subrange(0, 0));
        lemma_bytes_total_from(a, b, 0);
    }

    fn compare(&self, other: &Self) -> (r: Relation) {
        let n = if self.len() < other.len() {
            self.len()
        } else {
            other.len()
        };
        let mut i: usize = 0;
        proof {
            assert(self@.subrange(0, 0) =~= other@.subrange(0, 0));
        }
        while i < n
            invariant
                0 <= i <= n,
                n <= self@.len(),
                n <= other@.len(),
                n == self@.len() || n == other@.len(),
                self@.subrange(0, i as int) == other@.subrange(0, i as int),
            decreases n - i,
        {
            if self[i] < other[i] {
                proof {
                    assert(bytes_precede_at(self@, other@, i as int));
                    lemma_decided(self@, other@);
                }
                return Relation::Less;
            }
            if other[i] < self[i] {
                proof {
                    assert(bytes_precede_at(other@, self@, i as int));
                    lemma_decided(other@, self@);
                }
                return Relation::Greater;
            }
            proof {
                lemma_prefix_longer(self@, other@, i as int);
            }
            i += 1;
        }
        if self.len() < other.len() {
            proof {
                assert(bytes_precede_at(self@, other@, n as int));
                lemma_decided(self@, other@);
            }
            Relation::Less
        } else if other.len() < self.len() {
            proof {
                assert(bytes_precede_at(other@, self@, n as int));
                lemma_decided(other@, self@);
            }
            Relation::Greater
        } else {
            proof {
                assert(self@.subrange(0, n as int) =~= self@);
                assert(other@.subrange(0, n as int) =~= other@);
                Self::precedes_irreflexive(self@);
            }
            Relation::Equal
        }
    }

    fn duplicate(&self) -> (r: Self) {
        self.clone()
    }
}

/// When `a` precedes `b`, they differ and `b` does not precede `a`.
proof fn lemma_decided(a: Seq<u8>, b: Seq<u8>)
    requires
        bytes_precede(a, b),
    ensures
        a != b,
        !bytes_precede(b, a),
{
    <Vec<u8> as TotalOrder>::precedes_irreflexive(a);
    if bytes_precede(b, a) {
        <Vec<u8> as TotalOrder>::precedes_transitive(a, b, a);
    }
}

} // verus!
