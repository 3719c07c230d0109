//! Sorting by text keys in `String` order (code point order), with the
//! original position breaking ties, so that the sort is stable.

use vstd::prelude::*;
use vstd::relations::{sorted_by, total_ordering};

verus! {

broadcast use vstd::seq_lib::group_to_multiset_ensures;

/// `a <= b` in the order of `String`: lexicographic by code point.
pub open spec fn text_le(a: Seq<char>, b: Seq<char>) -> bool
    decreases a.len(),
{
    if a.len() == 0 {
        true
    } else if b.len() == 0 {
        false
    } else if a[0] != b[0] {
        a[0] < b[0]
    } else {
        text_le(a.drop_first(), b.drop_first())
    }
}

/// A text key with the position it came from.
pub type TextKey = (Seq<char>, usize);

pub open spec fn tkey_le(x: TextKey, y: TextKey) -> bool {
    if x.0 == y.0 {
        x.1 <= y.1
    } else {
        text_le(x.0, y.0)
    }
}

pub open spec fn tkey_order() -> spec_fn(TextKey, TextKey) -> bool {
    |x: TextKey, y: TextKey| tkey_le(x, y)
}

proof fn lemma_text_le_refl(a: Seq<char>)
    ensures
        text_le(a, a),
    decreases a.len(),
{
    if a.len() > 0 {
        lemma_text_le_refl(a.drop_first());
    }
}

proof fn lemma_text_le_antisym(a: Seq<char>, b: Seq<char>)
    requires
        text_le(a, b),
        text_le(b, a),
    ensures
        a == b,
    decreases a.len(),
{
    if a.len() == 0 {
        assert(b.len() == 0 || !text_le(b, a));
        assert(a =~= b);
    } else {
        assert(b.len() > 0);
        if a[0] == b[0] {
            lemma_text_le_antisym(a.drop_first(), b.drop_first());
            assert(a =~= seq![a[0]] + a.drop_first());
            assert(b =~= seq![b[0]] + b.drop_first());
        }
    }
}

proof fn lemma_text_le_trans(a: Seq<char>, b: Seq<char>, c: Seq<char>)
    requires
        text_le(a, b),
        text_le(b, c),
    ensures
        text_le(a, c),
    decreases a.len(),
{
    if a.len() > 0 {
        assert(b.len() > 0);
        assert(c.len() > 0);
        if a[0] == b[0] && b[0] == c[0] {
            lemma_text_le_trans(a.drop_first(), b.drop_first(), c.drop_first());
        }
    }
}

proof fn lemma_text_le_total(a: Seq<char>, b: Seq<char>)
    ensures
        text_le(a, b) || text_le(b, a),
    decreases a.len(),
{
    if a.len() > 0 && b.len() > 0 && a[0] == b[0] {
        lemma_text_le_total(a.drop_first(), b.drop_first());
    }
    if a.len() > 0 && b.len() > 0 && a[0] != b[0] {
    }
}

pub proof fn lemma_tkey_order_total()
    ensures
        total_ordering(tkey_order()),
{
    let r = tkey_order();
    assert forall|x: TextKey| #[trigger] r(x, x) by {
        lemma_text_le_refl(x.0);
    }
    assert forall|x: TextKey, y: TextKey| #[trigger] r(x, y) && #[trigger] r(y, x) implies x == y by {
        if x.0 != y.0 {
            lemma_text_le_antisym(x.0, y.0);
        }
    }
    assert forall|x: TextKey, y: TextKey, z: TextKey| #[trigger] r(x, y) && #[trigger] r(y, z) implies r(x, z) by {
        if x.0 == y.0 && y.0 == z.0 {
        } else if x.0 == y.0 {
        } else if y.0 == z.0 {
        } else if x.0 == z.0 {
            lemma_text_le_antisym(x.0, y.0);
        } else {
            lemma_text_le_trans(x.0, y.0, z.0);
        }
    }
    assert forall|x: TextKey, y: TextKey| #[trigger] r(x, y) || #[trigger] r(y, x) by {
        lemma_text_le_total(x.0, y.0);
    }
}

/// The keys in ascending order.
pub open spec fn sorted_tkeys(s: Seq<TextKey>) -> Seq<TextKey> {
    s.sort_by(tkey_order())
}

/// The view of an executable text key.
pub open spec fn tk(e: (Vec<char>, usize)) -> TextKey {
    (e.0@, e.1)
}

fn text_le_exec(a: &Vec<char>, b: &Vec<char>) -> (r: bool)
    ensures
        r == text_le(a@, b@),
{
    let mut i: usize = 0;
    proof {
        assert(a@.skip(0) =~= a@);
        assert(b@.skip(0) =~= b@);
    }
    while i < a.len() && i < b.len() && a[i] == b[i]
        invariant
            0 <= i <= a@.len(),
            i <= b@.len(),
            forall|j: int| 0 <= j < i ==> a@[j] == b@[j],
            text_le(a@, b@) == text_le(a@.skip(i as int), b@.skip(i as int)),
        decreases a.len() - i,
    {
        proof {
            assert(a@.skip(i as int).drop_first() =~= a@.skip(i + 1));
            assert(b@.skip(i as int).drop_first() =~= b@.skip(i + 1));
        }
        i = i + 1;
    }
    if i == a.len() {
        proof {
            assert(a@.skip(i as int).len() == 0);
        }
        true
    } else if i == b.len() {
        proof {
            assert(b@.skip(i as int).len() == 0);
            assert(a@.skip(i as int).len() > 0);
        }
        false
    } else {
        proof {
            assert(a@.skip(i as int)[0] == a@[i as int]);
            assert(b@.skip(i as int)[0] == b@[i as int]);
        }
        a[i] < b[i]
    }
}

fn chars_eq(a: &Vec<char>, b: &Vec<char>) -> (r: bool)
    ensures
        r == (a@ == b@),
{
    if a.len() != b.len() {
        return false;
    }
    let mut i: usize = 0;
    while i < a.len()
        invariant
            0 <= i <= a@.len() == b@.len(),
            forall|j: int| 0 <= j < i ==> a@[j] == b@[j],
        decreases a.len() - i,
    {
        if a[i] != b[i] {
            return false;
        }
        i = i + 1;
    }
    proof {
        assert(a@ =~= b@);
    }
    true
}

fn tkey_le_exec(x: &(Vec<char>, usize), y: &(Vec<char>, usize)) -> (r: bool)
    ensures
        r == tkey_le(tk(*x), tk(*y)),
{
    let same = chars_eq(&x.0, &y.0);
    if same {
        x.1 <= y.1
    } else {
        text_le_exec(&x.0, &y.0)
    }
}

/// Sorts text keys ascending (insertion sort).
pub fn sort_tkeys(v: Vec<(Vec<char>, usize)>) -> (r: Vec<(Vec<char>, usize)>)
    ensures
        r@.map_values(|e: (Vec<char>, usize)| tk(e)) == sorted_tkeys(v@.map_values(|e: (Vec<char>, usize)| tk(e))),
{
    let ghost vs = v@.map_values(|e: (Vec<char>, usize)| tk(e));
    let mut r: Vec<(Vec<char>, usize)> = Vec::new();
    let mut src = v;
    let ghost n = vs.len();
    proof {
        lemma_tkey_order_total();
    }
    // take elements from the back of `src`; the taken ones are vs[src.len()..]
    while src.len() > 0
        invariant
            src@.len() <= n,
            vs.len() == n,
            src@.map_values(|e: (Vec<char>, usize)| tk(e)) == vs.take(src@.len() as int),
            sorted_by(r@.map_values(|e: (Vec<char>, usize)| tk(e)), tkey_order()),
            r@.map_values(|e: (Vec<char>, usize)| tk(e)).to_multiset() == vs.skip(src@.len() as int).to_multiset(),
            total_ordering(tkey_order()),
        decreases src@.len(),
    {
        let ghost before_src = src@;
        let x = src.pop().unwrap();
        proof {
            let m = before_src.len() - 1;
            assert(src@ =~= before_src.take(m));
            assert(vs[m] == tk(x)) by {
                assert(before_src.map_values(|e: (Vec<char>, usize)| tk(e))[m] == tk(before_src[m]));
            }
            assert(src@.map_values(|e: (Vec<char>, usize)| tk(e)) =~= vs.take(m));
        }
        let mut p: usize = 0;
        while p < r.len() && tkey_le_exec(&r[p], &x)
            invariant
                0 <= p <= r@.len(),
                forall|j: int| 0 <= j < p ==> tkey_le(#[trigger] tk(r@[j]), tk(x)),
            decreases r.len() - p,
        {
            p = p + 1;
        }
        let ghost old_r = r@.map_values(|e: (Vec<char>, usize)| tk(e));
        let ghost old_rr = r@;
        r.insert(p, x);
        proof {
            let nr = r@.map_values(|e: (Vec<char>, usize)| tk(e));
            assert(nr =~= old_r.insert(p as int, tk(x)));
            assert forall|a: int, b: int| 0 <= a < b < nr.len() implies #[trigger] tkey_order()(nr[a], nr[b]) by {
                if b < p {
                    assert(nr[a] == old_r[a] && nr[b] == old_r[b]);
                } else if b == p {
                    assert(nr[a] == old_r[a]);
                    assert(old_r[a] == tk(old_rr[a]));
                } else if a == p {
                    assert(nr[b] == old_r[b - 1]);
                    assert(!tkey_le(tk(old_rr[p as int]), tk(x)));
                    assert(old_r[p as int] == tk(old_rr[p as int]));
                    assert(!tkey_order()(old_r[p as int], tk(x)));
                    assert(tkey_order()(tk(x), old_r[p as int]));
                    if b - 1 > p {
                        assert(tkey_order()(old_r[p as int], old_r[b - 1]));
                    }
                } else if a < p {
                    assert(nr[a] == old_r[a] && nr[b] == old_r[b - 1]);
                    assert(old_r[a] == tk(old_rr[a]));
                    assert(tkey_order()(old_r[a], tk(x)));
                    assert(!tkey_le(tk(old_rr[p as int]), tk(x)));
                    assert(old_r[p as int] == tk(old_rr[p as int]));
                    assert(!tkey_order()(old_r[p as int], tk(x)));
                    assert(tkey_order()(tk(x), old_r[p as int]));
                    if b - 1 > p {
                        assert(tkey_order()(old_r[p as int], old_r[b - 1]));
                    }
                } else {
                    assert(nr[a] == old_r[a - 1] && nr[b] == old_r[b - 1]);
                }
            }
            let m = before_src.len() - 1;
            assert(vs.skip(m) =~= vs.skip(m + 1).insert(0, vs[m]));
            vstd::seq_lib::to_multiset_insert(old_r, p as int, tk(x));
            vstd::seq_lib::to_multiset_insert(vs.skip(m + 1), 0, vs[m]);
        }
    }
    proof {
        assert(vs.skip(0) =~= vs);
        vs.lemma_sort_by_ensures(tkey_order());
        vstd::seq_lib::lemma_sorted_unique(
            r@.map_values(|e: (Vec<char>, usize)| tk(e)),
            sorted_tkeys(vs),
            tkey_order(),
        );
    }
    r
}

} // verus!
