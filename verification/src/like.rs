//! SQLite's `LIKE` operator (no `ESCAPE` clause): `%` matches any run of
//! characters, `_` matches one character, and ASCII letters match without
//! regard to case.

use vstd::prelude::*;

verus! {

/// ASCII upper-case letters mapped to lower case; every other character kept.
pub open spec fn fold_ascii(c: char) -> char {
    if 'A' <= c && c <= 'Z' {
        ((c as int) + 32) as char
    } else {
        c
    }
}

fn fold_ascii_exec(c: char) -> (r: char)
    ensures
        r == fold_ascii(c),
{
    if 'A' <= c && c <= 'Z' {
        ((c as u8) + 32) as char
    } else {
        c
    }
}

/// Whether `s` matches the `LIKE` pattern `p`.
pub open spec fn like_match(p: Seq<char>, s: Seq<char>) -> bool
    decreases p.len(), s.len(),
{
    if p.len() == 0 {
        s.len() == 0
    } else if p[0] == '%' {
        like_match(p.drop_first(), s) || (s.len() > 0 && like_match(p, s.drop_first()))
    } else if p[0] == '_' {
        s.len() > 0 && like_match(p.drop_first(), s.drop_first())
    } else {
        s.len() > 0 && fold_ascii(p[0]) == fold_ascii(s[0]) && like_match(
            p.drop_first(),
            s.drop_first(),
        )
    }
}

proof fn lemma_skip_facts<A>(s: Seq<A>, j: int)
    requires
        0 <= j < s.len(),
    ensures
        s.skip(j).len() > 0,
        s.skip(j)[0] == s[j],
        s.skip(j).drop_first() == s.skip(j + 1),
{
    assert(s.skip(j).drop_first() =~= s.skip(j + 1));
}

/// Whether the characters `s` match the pattern characters `p`.
pub fn like_chars(p: &Vec<char>, s: &Vec<char>) -> (r: bool)
    ensures
        r == like_match(p@, s@),
{
    let m = p.len();
    let n = s.len();
    // row i + 1, for i = m: only the empty text matches the empty pattern
    let mut next: Vec<bool> = Vec::new();
    let mut k: usize = 0;
    while k < n
        invariant
            0 <= k <= n == s@.len(),
            next@.len() == k,
            forall|j: int| 0 <= j < k ==> !#[trigger] next@[j],
        decreases n - k,
    {
        next.push(false);
        k = k + 1;
    }
    let mut next_end: bool = true;
    proof {
        assert(p@.skip(m as int) =~= Seq::<char>::empty());
        assert(s@.skip(n as int) =~= Seq::<char>::empty());
        assert forall|j: int| 0 <= j < n implies #[trigger] next@[j] == like_match(
            p@.skip(m as int),
            s@.skip(j),
        ) by {
            assert(s@.skip(j).len() > 0);
        }
    }
    let mut i: usize = m;
    while i > 0
        invariant
            0 <= i <= m == p@.len(),
            n == s@.len(),
            next@.len() == n,
            forall|j: int| 0 <= j < n ==> #[trigger] next@[j] == like_match(p@.skip(i as int), s@.skip(j)),
            next_end == like_match(p@.skip(i as int), s@.skip(n as int)),
        decreases i,
    {
        let pi = p[i - 1];
        let ghost pp = p@.skip(i - 1);
        proof {
            lemma_skip_facts(p@, i - 1);
            assert(s@.skip(n as int) =~= Seq::<char>::empty());
        }
        let cur_end: bool = if pi == '%' {
            next_end
        } else {
            false
        };
        let mut cur: Vec<bool> = Vec::new();
        let mut k2: usize = 0;
        while k2 < n
            invariant
                0 <= k2 <= n,
                cur@.len() == k2,
            decreases n - k2,
        {
            cur.push(false);
            k2 = k2 + 1;
        }
        let mut j: usize = n;
        while j > 0
            invariant
                0 <= j <= n == s@.len(),
                1 <= i <= m == p@.len(),
                cur@.len() == n,
                next@.len() == n,
                pi == p@[i - 1],
                pp == p@.skip(i - 1),
                pp.len() > 0,
                pp[0] == pi,
                pp.drop_first() == p@.skip(i as int),
                forall|x: int| 0 <= x < n ==> #[trigger] next@[x] == like_match(p@.skip(i as int), s@.skip(x)),
                next_end == like_match(p@.skip(i as int), s@.skip(n as int)),
                cur_end == like_match(pp, s@.skip(n as int)),
                forall|x: int| j <= x < n ==> #[trigger] cur@[x] == like_match(pp, s@.skip(x)),
            decreases j,
        {
            let jj = j - 1;
            let c = s[jj];
            let after_cur: bool = if jj + 1 < n {
                cur[jj + 1]
            } else {
                cur_end
            };
            let after_next: bool = if jj + 1 < n {
                next[jj + 1]
            } else {
                next_end
            };
            let v: bool = if pi == '%' {
                next[jj] || after_cur
            } else if pi == '_' {
                after_next
            } else {
                fold_ascii_exec(pi) == fold_ascii_exec(c) && after_next
            };
            proof {
                lemma_skip_facts(s@, jj as int);
            }
            cur.set(jj, v);
            j = jj;
        }
        next = cur;
        next_end = cur_end;
        i = i - 1;
    }
    proof {
        assert(p@.skip(0) =~= p@);
        assert(s@.skip(0) =~= s@);
    }
    if n == 0 {
        proof {
            assert(s@.skip(n as int) =~= s@);
        }
        next_end
    } else {
        next[0]
    }
}

/// Whether `text` matches the `LIKE` pattern `%keyword%`, the test that the
/// history search applies.
pub open spec fn contains_like(keyword: Seq<char>, text: Seq<char>) -> bool {
    like_match(seq!['%'] + keyword + seq!['%'], text)
}

} // verus!
