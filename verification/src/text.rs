//! Character-level text utilities with exact specifications.

use vstd::prelude::*;

verus! {

/// The Unicode `White_Space` property, the set of characters that
/// `char::is_whitespace` accepts.
pub open spec fn is_ws(c: char) -> bool {
    let u = c as u32;
    ||| (0x09 <= u && u <= 0x0d)
    ||| u == 0x20
    ||| u == 0x85
    ||| u == 0xa0
    ||| u == 0x1680
    ||| (0x2000 <= u && u <= 0x200a)
    ||| u == 0x2028
    ||| u == 0x2029
    ||| u == 0x202f
    ||| u == 0x205f
    ||| u == 0x3000
}

/// Executable check of the `White_Space` property.
pub fn is_whitespace_char(c: char) -> (r: bool)
    ensures
        r == is_ws(c),
{
    let u = c as u32;
    (0x09 <= u && u <= 0x0d) || u == 0x20 || u == 0x85 || u == 0xa0 || u == 0x1680 || (0x2000
        <= u && u <= 0x200a) || u == 0x2028 || u == 0x2029 || u == 0x202f || u == 0x205f || u
        == 0x3000
}

/// The characters of a string slice, in order.
pub fn chars_of(s: &str) -> (r: Vec<char>)
    ensures
        r@ == s@,
{
    let mut out: Vec<char> = Vec::new();
    proof {
        broadcast use vstd::string::group_string_axioms;
    }
    for c in it: s.chars()
        invariant
            out@ == it.seq().take(it.index() as int),
    {
        out.push(c);
    }
    out
}


/// `s` with leading `White_Space` characters removed.
pub open spec fn trim_start_seq(s: Seq<char>) -> Seq<char>
    decreases s.len(),
{
    if s.len() > 0 && is_ws(s[0]) {
        trim_start_seq(s.drop_first())
    } else {
        s
    }
}

/// `s` with trailing `White_Space` characters removed.
pub open spec fn trim_end_seq(s: Seq<char>) -> Seq<char>
    decreases s.len(),
{
    if s.len() > 0 && is_ws(s.last()) {
        trim_end_seq(s.drop_last())
    } else {
        s
    }
}

/// What `str::trim` returns: `s` without leading and trailing whitespace.
pub open spec fn trim_seq(s: Seq<char>) -> Seq<char> {
    trim_end_seq(trim_start_seq(s))
}

proof fn lemma_trim_start_skip(s: Seq<char>, a: int)
    requires
        0 <= a <= s.len(),
        forall|i: int| 0 <= i < a ==> is_ws(#[trigger] s[i]),
        a == s.len() || !is_ws(s[a]),
    ensures
        trim_start_seq(s) == s.skip(a),
    decreases a,
{
    if a == 0 {
        assert(s.skip(0) =~= s);
    } else {
        let t = s.drop_first();
        assert forall|i: int| 0 <= i < a - 1 implies is_ws(#[trigger] t[i]) by {
            assert(t[i] == s[i + 1]);
        }
        lemma_trim_start_skip(t, a - 1);
        assert(t.skip(a - 1) =~= s.skip(a));
    }
}

proof fn lemma_trim_end_take(s: Seq<char>, b: int)
    requires
        0 <= b <= s.len(),
        forall|i: int| b <= i < s.len() ==> is_ws(#[trigger] s[i]),
        b == 0 || !is_ws(s[b - 1]),
    ensures
        trim_end_seq(s) == s.take(b),
    decreases s.len() - b,
{
    if b == s.len() {
        assert(s.take(b) =~= s);
    } else {
        let t = s.drop_last();
        assert(is_ws(s[s.len() - 1]));
        assert forall|i: int| b <= i < t.len() implies is_ws(#[trigger] t[i]) by {
            assert(t[i] == s[i]);
        }
        if b > 0 {
            assert(t[b - 1] == s[b - 1]);
        }
        lemma_trim_end_take(t, b);
        assert(t.take(b) =~= s.take(b));
    }
}

/// The bounds `(a, b)` such that `trim_seq(s)` is `s[a..b]`.
pub fn trim_bounds(cs: &Vec<char>) -> (r: (usize, usize))
    ensures
        r.0 <= r.1 <= cs@.len(),
        trim_seq(cs@) == cs@.subrange(r.0 as int, r.1 as int),
{
    let n = cs.len();
    let mut a: usize = 0;
    while a < n && is_whitespace_char(cs[a])
        invariant
            0 <= a <= n == cs@.len(),
            forall|i: int| 0 <= i < a ==> is_ws(#[trigger] cs@[i]),
        decreases n - a,
    {
        a = a + 1;
    }
    let mut b: usize = n;
    while b > a && is_whitespace_char(cs[b - 1])
        invariant
            a <= b <= n == cs@.len(),
            forall|i: int| b <= i < n ==> is_ws(#[trigger] cs@[i]),
        decreases b - a,
    {
        b = b - 1;
    }
    proof {
        lemma_trim_start_skip(cs@, a as int);
        let t = cs@.skip(a as int);
        assert forall|i: int| b - a <= i < t.len() implies is_ws(#[trigger] t[i]) by {
            assert(t[i] == cs@[i + a]);
        }
        if b > a {
            assert(t[b - a - 1] == cs@[b - 1]);
        }
        lemma_trim_end_take(t, b - a);
        assert(t.take(b - a) =~= cs@.subrange(a as int, b as int));
    }
    (a, b)
}

/// `str::trim`, as an owned string.
pub fn trim_str(s: &str) -> (r: String)
    ensures
        r@ == trim_seq(s@),
{
    let cs = chars_of(s);
    let (a, b) = trim_bounds(&cs);
    s.substring_char(a, b).to_owned()
}

/// Whether `s` holds a `White_Space` character.
pub open spec fn has_ws(s: Seq<char>) -> bool {
    exists|i: int| 0 <= i < s.len() && is_ws(#[trigger] s[i])
}

pub fn contains_whitespace(cs: &Vec<char>) -> (r: bool)
    ensures
        r == has_ws(cs@),
{
    let mut i: usize = 0;
    while i < cs.len()
        invariant
            0 <= i <= cs@.len(),
            forall|j: int| 0 <= j < i ==> !is_ws(#[trigger] cs@[j]),
        decreases cs.len() - i,
    {
        if is_whitespace_char(cs[i]) {
            return true;
        }
        i = i + 1;
    }
    false
}

/// Whether `s` begins with `prefix`.
pub open spec fn starts_with_seq(s: Seq<char>, prefix: Seq<char>) -> bool {
    prefix.len() <= s.len() && s.take(prefix.len() as int) == prefix
}

pub fn starts_with_chars(cs: &Vec<char>, prefix: &Vec<char>) -> (r: bool)
    ensures
        r == starts_with_seq(cs@, prefix@),
{
    if prefix.len() > cs.len() {
        return false;
    }
    let mut i: usize = 0;
    while i < prefix.len()
        invariant
            prefix@.len() <= cs@.len(),
            0 <= i <= prefix@.len(),
            forall|j: int| 0 <= j < i ==> cs@[j] == prefix@[j],
        decreases prefix.len() - i,
    {
        if cs[i] != prefix[i] {
            proof {
                assert(cs@.take(prefix@.len() as int)[i as int] != prefix@[i as int]);
            }
            return false;
        }
        i = i + 1;
    }
    proof {
        assert(cs@.take(prefix@.len() as int) =~= prefix@);
    }
    true
}

/// Equality of two strings by their characters.
pub fn same_text(a: &str, b: &str) -> (r: bool)
    ensures
        r == (a@ == b@),
{
    let x = a.to_owned();
    let y = b.to_owned();
    x == y
}

// ---------- hexadecimal ----------

/// The lower-case hexadecimal digit of a value below 16.
pub open spec fn hex_digit(v: int) -> char {
    if v < 10 {
        (('0' as int) + v) as char
    } else {
        (('a' as int) + v - 10) as char
    }
}

/// Lower-case hexadecimal text of a byte string, two digits per byte
/// (what `format!("{:x}", digest)` prints).
pub open spec fn hex_lower(data: Seq<u8>) -> Seq<char>
    decreases data.len(),
{
    if data.len() == 0 {
        Seq::empty()
    } else {
        hex_lower(data.drop_last()) + seq![
            hex_digit(data.last() as int / 16),
            hex_digit(data.last() as int % 16),
        ]
    }
}

fn hex_digit_exec(v: u8) -> (c: char)
    requires
        v < 16,
    ensures
        c == hex_digit(v as int),
{
    if v < 10 {
        ((48u8 + v) as char)
    } else {
        ((87u8 + v) as char)
    }
}

/// Lower-case hexadecimal text of bytes.
pub fn to_hex_lower(data: &[u8]) -> (r: String)
    ensures
        r@ == hex_lower(data@),
{
    let mut cs: Vec<char> = Vec::new();
    let mut i: usize = 0;
    while i < data.len()
        invariant
            0 <= i <= data@.len(),
            cs@ == hex_lower(data@.take(i as int)),
        decreases data.len() - i,
    {
        let b = data[i];
        cs.push(hex_digit_exec(b / 16));
        cs.push(hex_digit_exec(b % 16));
        proof {
            let t = data@.take(i + 1);
            assert(t.drop_last() =~= data@.take(i as int));
            assert(t.last() == b);
        }
        i = i + 1;
    }
    proof {
        assert(data@.take(data@.len() as int) =~= data@);
    }
    crate::outside::string_from_chars(cs.as_slice())
}

// ---------- decimal integers ----------

/// The value of a string of ASCII digits.
pub open spec fn digits_value(s: Seq<char>) -> int
    decreases s.len(),
{
    if s.len() == 0 {
        0
    } else {
        digits_value(s.drop_last()) * 10 + (s.last() as int - '0' as int)
    }
}

pub open spec fn is_digit(c: char) -> bool {
    '0' <= c && c <= '9'
}

pub open spec fn all_digits(s: Seq<char>) -> bool {
    forall|i: int| 0 <= i < s.len() ==> is_digit(#[trigger] s[i])
}

/// What `str::parse::<i64>` accepts: an optional `+` or `-` and one or more
/// ASCII digits, with a value in range.
pub open spec fn parse_i64_spec(s: Seq<char>) -> Option<i64> {
    let neg = s.len() > 0 && s[0] == '-';
    let signed = s.len() > 0 && (s[0] == '-' || s[0] == '+');
    let body = if signed {
        s.drop_first()
    } else {
        s
    };
    let v = if neg {
        -digits_value(body)
    } else {
        digits_value(body)
    };
    if body.len() == 0 || !all_digits(body) || v < i64::MIN || v > i64::MAX {
        None
    } else {
        Some(v as i64)
    }
}

proof fn lemma_digits_value_nonneg(s: Seq<char>)
    requires
        all_digits(s),
    ensures
        digits_value(s) >= 0,
    decreases s.len(),
{
    if s.len() > 0 {
        assert(is_digit(s[s.len() - 1]));
        lemma_digits_value_nonneg(s.drop_last());
    }
}

/// `str::parse::<i64>`, with `None` for every error.
pub fn parse_i64(s: &str) -> (r: Option<i64>)
    ensures
        r == parse_i64_spec(s@),
{
    let cs = chars_of(s);
    let n = cs.len();
    let neg = n > 0 && cs[0] == '-';
    let signed = n > 0 && (cs[0] == '-' || cs[0] == '+');
    let start: usize = if signed {
        1
    } else {
        0
    };
    let ghost body = if signed {
        cs@.drop_first()
    } else {
        cs@
    };
    proof {
        assert(body =~= cs@.skip(start as int));
    }
    if start == n {
        proof {
            assert(body.len() == 0);
        }
        return None;
    }
    let cap: i128 = 9223372036854775809;
    let mut acc: i128 = 0;
    let mut i: usize = start;
    while i < n
        invariant
            start <= i <= n == cs@.len(),
            body == cs@.skip(start as int),
            cs@ == s@,
            signed == (n > 0 && (cs@[0] == '-' || cs@[0] == '+')),
            neg == (n > 0 && cs@[0] == '-'),
            body == if signed {
                cs@.drop_first()
            } else {
                cs@
            },
            all_digits(cs@.subrange(start as int, i as int)),
            acc == if digits_value(cs@.subrange(start as int, i as int)) < cap {
                digits_value(cs@.subrange(start as int, i as int))
            } else {
                cap as int
            },
            cap == 9223372036854775809,
        decreases n - i,
    {
        let c = cs[i];
        if !('0' <= c && c <= '9') {
            proof {
                assert(body[i - start] == c);
                assert(!is_digit(body[i - start]));
                assert(!all_digits(body));
            }
            return None;
        }
        let d = (c as u32 - 48) as i128;
        proof {
            let p = cs@.subrange(start as int, i as int);
            let q = cs@.subrange(start as int, i + 1);
            assert(q.drop_last() =~= p);
            assert(q.last() == c);
            lemma_digits_value_nonneg(p);
            assert(all_digits(q)) by {
                assert forall|j: int| 0 <= j < q.len() implies is_digit(#[trigger] q[j]) by {
                    if j < p.len() {
                        assert(q[j] == p[j]);
                    }
                }
            }
        }
        if acc >= cap {
            acc = cap;
        } else {
            let next = acc * 10 + d;
            acc = if next < cap {
                next
            } else {
                cap
            };
        }
        i = i + 1;
    }
    proof {
        assert(cs@.subrange(start as int, n as int) =~= body);
        lemma_digits_value_nonneg(body);
    }
    if neg {
        if acc > 9223372036854775808 {
            None
        } else {
            Some((-acc) as i64)
        }
    } else {
        if acc > 9223372036854775807 {
            None
        } else {
            Some(acc as i64)
        }
    }
}

/// Decimal digits of a natural number, most significant first.
pub open spec fn nat_digits(n: nat) -> Seq<char>
    decreases n,
{
    if n < 10 {
        seq![(('0' as nat) + n) as char]
    } else {
        nat_digits(n / 10) + seq![(('0' as nat) + n % 10) as char]
    }
}

/// What `i64::to_string` prints.
pub open spec fn int_text(v: int) -> Seq<char> {
    if v < 0 {
        seq!['-'] + nat_digits((-v) as nat)
    } else {
        nat_digits(v as nat)
    }
}

proof fn lemma_nat_digits_props(n: nat)
    ensures
        all_digits(nat_digits(n)),
        nat_digits(n).len() > 0,
        digits_value(nat_digits(n)) == n,
    decreases n,
{
    let d = nat_digits(n);
    if n >= 10 {
        lemma_nat_digits_props(n / 10);
        assert(d.drop_last() =~= nat_digits(n / 10));
        let c = (('0' as nat) + n % 10) as char;
        assert(d.last() == c);
        assert(c as int - '0' as int == n % 10);
        assert(digits_value(d) == digits_value(nat_digits(n / 10)) * 10 + n % 10);
        assert forall|j: int| 0 <= j < d.len() implies is_digit(#[trigger] d[j]) by {
            if j < d.len() - 1 {
                assert(d[j] == nat_digits(n / 10)[j]);
            }
        }
    } else {
        assert(d.drop_last() =~= Seq::<char>::empty());
        let c = (('0' as nat) + n) as char;
        assert(d.last() == c);
        assert(c as int - '0' as int == n);
        assert(digits_value(d) == digits_value(Seq::<char>::empty()) * 10 + n);
    }
}

/// Parsing the decimal text of an integer gives the integer back.
pub proof fn lemma_parse_int_text(v: i64)
    ensures
        parse_i64_spec(int_text(v as int)) == Some(v),
{
    let t = int_text(v as int);
    if v < 0 {
        let m = (-(v as int)) as nat;
        lemma_nat_digits_props(m);
        assert(t.drop_first() =~= nat_digits(m));
        assert(t[0] == '-');
    } else {
        lemma_nat_digits_props(v as nat);
        let d = nat_digits(v as nat);
        assert(is_digit(d[0]));
    }
}

/// `i64::to_string`.
pub fn int_to_text(v: i64) -> (r: String)
    ensures
        r@ == int_text(v as int),
{
    let neg = v < 0;
    let wide: i128 = if neg {
        -(v as i128)
    } else {
        v as i128
    };
    let mut m: u64 = wide as u64;
    let ghost total: nat = m as nat;
    proof {
        assert(total == if v < 0 { -(v as int) } else { v as int });
    }
    // digits are produced least significant first, then reversed
    let mut digits: Vec<char> = Vec::new();
    loop
        invariant
            nat_digits(total) == nat_digits(m as nat) + digits@,
            neg == (v < 0),
            total == if v < 0 {
                -(v as int)
            } else {
                v as int
            },
        decreases m,
    {
        let d = (m % 10) as u32;
        let c = char_from_digit(d);
        if m < 10 {
            proof {
                assert(nat_digits(m as nat) == seq![c]);
            }
            let mut out: Vec<char> = Vec::new();
            if neg {
                out.push('-');
            }
            out.push(c);
            let mut k: usize = 0;
            while k < digits.len()
                invariant
                    0 <= k <= digits@.len(),
                    out@ == (if neg {
                        seq!['-']
                    } else {
                        Seq::<char>::empty()
                    }) + seq![c] + digits@.take(k as int),
                decreases digits.len() - k,
            {
                out.push(digits[k]);
                proof {
                    assert(digits@.take(k + 1) =~= digits@.take(k as int).push(digits@[k as int]));
                }
                k = k + 1;
            }
            proof {
                assert(digits@.take(digits@.len() as int) =~= digits@);
                assert(seq![c] + digits@ == nat_digits(total));
                if neg {
                    assert(out@ =~= seq!['-'] + (seq![c] + digits@));
                } else {
                    assert(out@ =~= seq![c] + digits@);
                }
            }
            let r = crate::outside::string_from_chars(out.as_slice());
            proof {
                if neg {
                    assert(total == (-(v as int)) as nat);
                    assert(int_text(v as int) == seq!['-'] + nat_digits(total));
                } else {
                    assert(total == v as nat);
                    assert(int_text(v as int) == nat_digits(total));
                }
            }
            return r;
        }
        proof {
            assert(nat_digits(m as nat) == nat_digits((m / 10) as nat) + seq![c]);
        }
        let ghost old_digits = digits@;
        digits.insert(0, c);
        proof {
            assert(seq![c] + old_digits =~= digits@);
            assert(nat_digits(total) =~= nat_digits((m / 10) as nat) + digits@);
        }
        m = m / 10;
    }
}

fn char_from_digit(d: u32) -> (c: char)
    requires
        d < 10,
    ensures
        c == (('0' as nat) + d) as char,
{
    ((48u8 + d as u8) as char)
}


// ---------- splitting and searching ----------

/// The pieces of `s` between occurrences of `d` (what `str::split(d)`
/// yields): one more piece than there are delimiters.
pub open spec fn split_on(s: Seq<char>, d: char) -> Seq<Seq<char>>
    decreases s.len(),
{
    if s.len() == 0 {
        seq![Seq::empty()]
    } else {
        let r = split_on(s.drop_last(), d);
        if s.last() == d {
            r.push(Seq::empty())
        } else {
            r.update(r.len() - 1, r.last().push(s.last()))
        }
    }
}

pub proof fn lemma_split_on_len(s: Seq<char>, d: char)
    ensures
        split_on(s, d).len() >= 1,
    decreases s.len(),
{
    if s.len() > 0 {
        lemma_split_on_len(s.drop_last(), d);
    }
}

/// The pieces of `s` between occurrences of `d`.
pub fn split_chars(s: &Vec<char>, d: char) -> (r: Vec<Vec<char>>)
    ensures
        r@.map_values(|p: Vec<char>| p@) == split_on(s@, d),
{
    let mut pieces: Vec<Vec<char>> = Vec::new();
    let mut cur: Vec<char> = Vec::new();
    let mut i: usize = 0;
    proof {
        assert(s@.take(0) =~= Seq::<char>::empty());
        assert(pieces@.map_values(|p: Vec<char>| p@).push(cur@) =~= split_on(s@.take(0), d));
    }
    while i < s.len()
        invariant
            0 <= i <= s@.len(),
            pieces@.map_values(|p: Vec<char>| p@).push(cur@) == split_on(s@.take(i as int), d),
        decreases s.len() - i,
    {
        let c = s[i];
        let ghost before = pieces@.map_values(|p: Vec<char>| p@).push(cur@);
        proof {
            let t = s@.take(i + 1);
            assert(t.drop_last() =~= s@.take(i as int));
            assert(t.last() == c);
            lemma_split_on_len(s@.take(i as int), d);
        }
        if c == d {
            let done = cur;
            let ghost pv = pieces@.map_values(|p: Vec<char>| p@);
            pieces.push(done);
            cur = Vec::new();
            proof {
                assert(pieces@.map_values(|p: Vec<char>| p@) =~= pv.push(done@));
                assert(pieces@.map_values(|p: Vec<char>| p@).push(cur@) =~= before.push(Seq::<char>::empty()));
            }
        } else {
            cur.push(c);
            proof {
                assert(pieces@.map_values(|p: Vec<char>| p@).push(cur@) =~= before.update(
                    before.len() - 1,
                    before.last().push(c),
                ));
            }
        }
        i = i + 1;
    }
    let ghost pv = pieces@.map_values(|p: Vec<char>| p@);
    pieces.push(cur);
    proof {
        assert(s@.take(s@.len() as int) =~= s@);
        assert(pieces@.map_values(|p: Vec<char>| p@) =~= pv.push(cur@));
    }
    pieces
}

/// Whether `sub` occurs in `s`.
pub open spec fn contains_sub(s: Seq<char>, sub: Seq<char>) -> bool {
    exists|i: int| 0 <= i && i + sub.len() <= s.len() && #[trigger] s.subrange(i, i + sub.len()) == sub
}

/// Whether `sub` occurs in `s`.
pub fn contains_chars(s: &Vec<char>, sub: &Vec<char>) -> (r: bool)
    ensures
        r == contains_sub(s@, sub@),
{
    if sub.len() == 0 {
        proof {
            assert(s@.subrange(0int, 0int + sub@.len()) =~= sub@);
        }
        return true;
    }
    let mut i: usize = 0;
    while i <= s.len() && sub.len() <= s.len() - i
        invariant
            0 <= i <= s@.len(),
            sub@.len() >= 1,
            forall|k: int| 0 <= k < i ==> #[trigger] s@.subrange(k, k + sub@.len()) != sub@,
        decreases s.len() - i,
    {
        let mut j: usize = 0;
        let mut same = true;
        while j < sub.len() && same
            invariant
                0 <= j <= sub@.len(),
                i + sub@.len() <= s.len(),
                forall|q: int| 0 <= q < j ==> s@[i + q] == sub@[q],
                !same ==> j < sub@.len() && s@[i + j] != sub@[j as int],
            decreases sub.len() - j, if same { 1int } else { 0int },
        {
            if s[i + j] == sub[j] {
                j = j + 1;
            } else {
                same = false;
            }
        }
        if same {
            proof {
                assert(s@.subrange(i as int, i + sub@.len()) =~= sub@);
            }
            return true;
        }
        proof {
            assert(s@.subrange(i as int, i + sub@.len())[j as int] != sub@[j as int]);
        }
        i = i + 1;
    }
    proof {
        assert forall|k: int| 0 <= k && k + sub@.len() <= s@.len() implies #[trigger] s@.subrange(k, k + sub@.len()) != sub@ by {
            assert(k < i);
        }
    }
    false
}

/// `s` without leading and trailing copies of `c` (`str::trim_matches(c)`).
pub open spec fn strip_char(s: Seq<char>, c: char) -> Seq<char>
    decreases s.len(),
{
    if s.len() > 0 && s[0] == c {
        strip_char(s.drop_first(), c)
    } else if s.len() > 0 && s.last() == c {
        strip_char(s.drop_last(), c)
    } else {
        s
    }
}

/// `s` without leading and trailing copies of `c`.
pub fn strip_chars(s: &Vec<char>, c: char) -> (r: Vec<char>)
    ensures
        r@ == strip_char(s@, c),
{
    let mut a: usize = 0;
    let mut b: usize = s.len();
    proof {
        assert(s@.subrange(0, s@.len() as int) =~= s@);
    }
    while a < b && (s[a] == c || s[b - 1] == c)
        invariant
            0 <= a <= b <= s@.len(),
            strip_char(s@, c) == strip_char(s@.subrange(a as int, b as int), c),
        decreases b - a,
    {
        proof {
            let t = s@.subrange(a as int, b as int);
            assert(t[0] == s@[a as int]);
            assert(t.last() == s@[b - 1]);
        }
        if s[a] == c {
            proof {
                assert(s@.subrange(a as int, b as int).drop_first() =~= s@.subrange(a + 1, b as int));
            }
            a = a + 1;
        } else {
            proof {
                assert(s@.subrange(a as int, b as int).drop_last() =~= s@.subrange(a as int, b - 1));
            }
            b = b - 1;
        }
    }
    let mut out: Vec<char> = Vec::new();
    let mut k: usize = a;
    while k < b
        invariant
            a <= k <= b <= s@.len(),
            out@ == s@.subrange(a as int, k as int),
        decreases b - k,
    {
        out.push(s[k]);
        proof {
            assert(s@.subrange(a as int, k + 1) =~= s@.subrange(a as int, k as int).push(s@[k as int]));
        }
        k = k + 1;
    }
    proof {
        let t = s@.subrange(a as int, b as int);
        if t.len() > 0 {
            assert(t[0] == s@[a as int]);
            assert(t.last() == s@[b - 1]);
        }
    }
    out
}
} // verus!