//! Sorting of integer keys by lexicographic order, proved equal to
//! `Seq::sort_by` under that order.

use vstd::prelude::*;
use vstd::relations::{sorted_by, total_ordering};

verus! {

broadcast use vstd::seq_lib::group_to_multiset_ensures;

/// A sort key: up to three ordering components and a position that makes
/// keys of distinct rows distinct.
pub type SortKey = (i128, i128, i128, usize);

/// Lexicographic `<=` on sort keys.
pub open spec fn key_le(a: SortKey, b: SortKey) -> bool {
    ||| a.0 < b.0
    ||| (a.0 == b.0 && a.1 < b.1)
    ||| (a.0 == b.0 && a.1 == b.1 && a.2 < b.2)
    ||| (a.0 == b.0 && a.1 == b.1 && a.2 == b.2 && a.3 <= b.3)
}

/// The order used by every sort in this crate.
pub open spec fn key_order() -> spec_fn(SortKey, SortKey) -> bool {
    |a: SortKey, b: SortKey| key_le(a, b)
}

/// A sequence of keys in ascending order.
pub open spec fn sorted_keys(s: Seq<SortKey>) -> Seq<SortKey> {
    s.sort_by(key_order())
}

pub proof fn lemma_key_order_total()
    ensures
        total_ordering(key_order()),
{
    let r = key_order();
    assert(vstd::relations::reflexive(r));
    assert forall|x: SortKey, y: SortKey| #[trigger] r(x, y) && #[trigger] r(y, x) implies x == y by {}
    assert(vstd::relations::antisymmetric(r));
    assert forall|x: SortKey, y: SortKey, z: SortKey| #[trigger] r(x, y) && #[trigger] r(y, z) implies r(x, z) by {}
    assert(vstd::relations::transitive(r));
    assert forall|x: SortKey, y: SortKey| #[trigger] r(x, y) || #[trigger] r(y, x) by {}
    assert(vstd::relations::strongly_connected(r));
}

/// Executable lexicographic comparison.
pub fn key_le_exec(a: &SortKey, b: &SortKey) -> (r: bool)
    ensures
        r == key_le(*a, *b),
{
    a.0 < b.0 || (a.0 == b.0 && a.1 < b.1) || (a.0 == b.0 && a.1 == b.1 && a.2 < b.2) || (a.0
        == b.0 && a.1 == b.1 && a.2 == b.2 && a.3 <= b.3)
}

/// Sorts keys ascending (insertion sort).
pub fn sort_keys(v: &Vec<SortKey>) -> (r: Vec<SortKey>)
    ensures
        r@ == sorted_keys(v@),
        r@.len() == v@.len(),
        forall|k: SortKey| #[trigger] r@.contains(k) ==> v@.contains(k),
{
    let mut r: Vec<SortKey> = Vec::new();
    let mut i: usize = 0;
    proof {
        lemma_key_order_total();
    }
    while i < v.len()
        invariant
            0 <= i <= v.len(),
            sorted_by(r@, key_order()),
            r@.to_multiset() == v@.take(i as int).to_multiset(),
            total_ordering(key_order()),
        decreases v.len() - i,
    {
        let x = v[i];
        let mut p: usize = 0;
        while p < r.len() && key_le_exec(&r[p], &x)
            invariant
                0 <= p <= r.len(),
                forall|j: int| 0 <= j < p ==> key_le(#[trigger] r@[j], x),
            decreases r.len() - p,
        {
            p = p + 1;
        }
        let ghost old_r = r@;
        r.insert(p, x);
        proof {
            assert forall|a: int, b: int| 0 <= a < b < r@.len() implies #[trigger] key_order()(
                r@[a],
                r@[b],
            ) by {
                if b < p {
                    assert(r@[a] == old_r[a] && r@[b] == old_r[b]);
                } else if b == p {
                    assert(r@[a] == old_r[a]);
                } else if a == p {
                    assert(r@[b] == old_r[b - 1]);
                    assert(!key_le(old_r[p as int], x));
                    assert(key_order()(x, old_r[p as int]));
                    if b - 1 > p {
                        assert(key_order()(old_r[p as int], old_r[b - 1]));
                    }
                } else if a < p {
                    assert(r@[a] == old_r[a] && r@[b] == old_r[b - 1]);
                } else {
                    assert(r@[a] == old_r[a - 1] && r@[b] == old_r[b - 1]);
                }
            }
            assert(v@.take(i + 1) == v@.take(i as int).push(x));
            vstd::seq_lib::to_multiset_insert(old_r, p as int, x);
        }
        i = i + 1;
    }
    proof {
        assert(v@.take(v.len() as int) == v@);
        v@.lemma_sort_by_ensures(key_order());
        vstd::seq_lib::lemma_sorted_unique(r@, sorted_keys(v@), key_order());
        assert forall|k: SortKey| #[trigger] r@.contains(k) implies v@.contains(k) by {
            if !v@.contains(k) {
                assert(!v@.sort_by(key_order()).contains(k));
            }
        }
        assert(r@.to_multiset().len() == v@.to_multiset().len());
    }
    r
}

} // verus!
