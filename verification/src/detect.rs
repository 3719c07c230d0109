//! The built-in content detectors that a tag rule names with a `builtin:`
//! pattern: JSON documents, web URLs, bank card numbers and Chinese
//! resident identity card numbers.

use vstd::prelude::*;
use crate::text::{all_digits, chars_of, contains_whitespace, has_ws, is_digit, is_whitespace_char, is_ws, same_text};
use crate::outside::{json_parses, spec_json_parses, spec_url_scheme, url_scheme};

verus! {

broadcast use vstd::seq::Seq::lemma_filter_push;

/// Whether a character is kept when a card number is cleaned: separators
/// (whitespace and `-`) are dropped.
pub open spec fn card_char_kept(c: char) -> bool {
    !is_ws(c) && c != '-'
}

/// The card number with separators removed.
pub open spec fn card_clean(s: Seq<char>) -> Seq<char> {
    s.filter(|c: char| card_char_kept(c))
}

/// The Luhn contribution of digit `c` at position `k` counted from the right
/// (the rightmost digit is position 0): digits at odd positions are doubled,
/// and 9 is taken off a doubled value above 9.
pub open spec fn luhn_term(c: char, k: int) -> int {
    let d = c as int - '0' as int;
    if k % 2 == 1 {
        if 2 * d > 9 {
            2 * d - 9
        } else {
            2 * d
        }
    } else {
        d
    }
}

/// The Luhn sum of a digit string.
pub open spec fn luhn_sum(t: Seq<char>) -> int
    decreases t.len(),
{
    if t.len() == 0 {
        0
    } else {
        luhn_term(t[0], t.len() - 1) + luhn_sum(t.drop_first())
    }
}

/// A bank card number: 12 to 19 digits after separators are removed, and a
/// Luhn sum divisible by 10.
pub open spec fn luhn_valid(s: Seq<char>) -> bool {
    let t = card_clean(s);
    12 <= t.len() <= 19 && all_digits(t) && luhn_sum(t) % 10 == 0
}

proof fn lemma_luhn_sum_bound(t: Seq<char>)
    requires
        all_digits(t),
    ensures
        0 <= luhn_sum(t) <= 9 * t.len(),
    decreases t.len(),
{
    if t.len() > 0 {
        assert(is_digit(t[0]));
        let u = t.drop_first();
        assert forall|i: int| 0 <= i < u.len() implies is_digit(#[trigger] u[i]) by {
            assert(u[i] == t[i + 1]);
        }
        lemma_luhn_sum_bound(u);
    }
}

/// Luhn check of a bank card number (12 to 19 digits, spaces and hyphens
/// allowed as separators).
pub fn luhn_check(s: &str) -> (r: bool)
    ensures
        r == luhn_valid(s@),
{
    let cs = chars_of(s);
    let mut t: Vec<char> = Vec::new();
    let mut i: usize = 0;
    while i < cs.len()
        invariant
            0 <= i <= cs@.len(),
            cs@ == s@,
            t@ == card_clean(cs@.take(i as int)),
        decreases cs.len() - i,
    {
        let c = cs[i];
        proof {
            assert(cs@.take(i + 1) =~= cs@.take(i as int).push(c));
        }
        if !is_whitespace_char(c) && c != '-' {
            t.push(c);
        }
        i = i + 1;
    }
    proof {
        assert(cs@.take(cs@.len() as int) =~= cs@);
    }
    let n = t.len();
    if n < 12 || n > 19 {
        return false;
    }
    let mut k: usize = 0;
    while k < n
        invariant
            0 <= k <= n == t@.len(),
            t@ == card_clean(s@),
            forall|x: int| 0 <= x < k ==> is_digit(#[trigger] t@[x]),
        decreases n - k,
    {
        if !('0' <= t[k] && t[k] <= '9') {
            proof {
                assert(!is_digit(t@[k as int]));
                assert(!all_digits(t@));
            }
            return false;
        }
        k = k + 1;
    }
    let mut sum: u32 = 0;
    let mut j: usize = n;
    proof {
        assert(t@.skip(n as int) =~= Seq::<char>::empty());
    }
    while j > 0
        invariant
            0 <= j <= n == t@.len(),
            t@ == card_clean(s@),
            n <= 19,
            all_digits(t@),
            sum as int == luhn_sum(t@.skip(j as int)),
            sum <= 9 * (n - j),
        decreases j,
    {
        let jj = j - 1;
        let d: u32 = t[jj] as u32 - 48;
        let pos = n - 1 - jj;
        let term: u32 = if pos % 2 == 1 {
            if 2 * d > 9 {
                2 * d - 9
            } else {
                2 * d
            }
        } else {
            d
        };
        proof {
            assert(is_digit(t@[jj as int]));
            let u = t@.skip(jj as int);
            assert(u.drop_first() =~= t@.skip(j as int));
            assert(u[0] == t@[jj as int]);
            assert(u.len() - 1 == pos);
        }
        sum = sum + term;
        j = jj;
    }
    proof {
        assert(t@.skip(0) =~= t@);
    }
    sum % 10 == 0
}

/// The weights of the first 17 digits of an identity card number.
pub open spec fn id_weights() -> Seq<int> {
    seq![7, 9, 10, 5, 8, 4, 2, 1, 6, 3, 7, 9, 10, 5, 8, 4, 2]
}

/// The check characters, indexed by the weighted sum modulo 11.
pub open spec fn id_codes() -> Seq<char> {
    seq!['1', '0', 'X', '9', '8', '7', '6', '5', '4', '3', '2']
}

/// The weighted digit sum of the first `k` characters.
pub open spec fn id_sum(t: Seq<char>, k: int) -> int
    decreases k,
{
    if k <= 0 {
        0
    } else {
        id_sum(t, k - 1) + (t[k - 1] as int - '0' as int) * id_weights()[k - 1]
    }
}

/// ASCII lower-case letters mapped to upper case (`char::to_ascii_uppercase`).
pub open spec fn upper_ascii(c: char) -> char {
    if 'a' <= c && c <= 'z' {
        ((c as int) - 32) as char
    } else {
        c
    }
}

/// A resident identity card number: 18 characters, 17 digits, and a last
/// character (either case) equal to the check code of the weighted sum.
pub open spec fn idcard_valid(s: Seq<char>) -> bool {
    &&& s.len() == 18
    &&& all_digits(s.take(17))
    &&& upper_ascii(s[17]) == id_codes()[id_sum(s, 17) % 11]
}

/// Check-digit validation of an 18-character identity card number (GB 11643).
pub fn idcard_check(s: &str) -> (r: bool)
    ensures
        r == idcard_valid(s@),
{
    let cs = chars_of(s);
    if cs.len() != 18 {
        return false;
    }
    let mut k: usize = 0;
    while k < 17
        invariant
            0 <= k <= 17,
            cs@.len() == 18,
            cs@ == s@,
            forall|x: int| 0 <= x < k ==> is_digit(#[trigger] cs@[x]),
        decreases 17 - k,
    {
        if !('0' <= cs[k] && cs[k] <= '9') {
            proof {
                assert(cs@.take(17)[k as int] == cs@[k as int]);
                assert(!is_digit(cs@.take(17)[k as int]));
                assert(!all_digits(cs@.take(17)));
            }
            return false;
        }
        k = k + 1;
    }
    proof {
        assert forall|x: int| 0 <= x < 17 implies is_digit(#[trigger] cs@.take(17)[x]) by {
            assert(cs@.take(17)[x] == cs@[x]);
        }
    }
    let weights: [u32; 17] = [7, 9, 10, 5, 8, 4, 2, 1, 6, 3, 7, 9, 10, 5, 8, 4, 2];
    let codes: [char; 11] = ['1', '0', 'X', '9', '8', '7', '6', '5', '4', '3', '2'];
    proof {
        assert(weights@.map_values(|w: u32| w as int) =~= id_weights());
        assert(codes@ =~= id_codes());
    }
    let mut sum: u32 = 0;
    let mut i: usize = 0;
    while i < 17
        invariant
            0 <= i <= 17,
            cs@.len() == 18,
            forall|x: int| 0 <= x < 17 ==> is_digit(#[trigger] cs@[x]),
            weights@.map_values(|w: u32| w as int) == id_weights(),
            sum as int == id_sum(cs@, i as int),
            sum <= 90 * i,
        decreases 17 - i,
    {
        let d: u32 = cs[i] as u32 - 48;
        proof {
            assert(is_digit(cs@[i as int]));
            assert(weights@.map_values(|w: u32| w as int)[i as int] == weights@[i as int] as int);
            assert(weights@[i as int] <= 10) by {
                assert(id_weights()[i as int] <= 10);
            }
            assert(d * weights@[i as int] <= 90) by (nonlinear_arith)
                requires
                    d <= 9,
                    weights@[i as int] <= 10,
            ;
        }
        sum = sum + d * weights[i];
        i = i + 1;
    }
    let last = cs[17];
    let up = if 'a' <= last && last <= 'z' {
        ((last as u8) - 32) as char
    } else {
        last
    };
    proof {
        assert(cs@ == s@);
    }
    up == codes[(sum % 11) as usize]
}

/// Whether `text` begins with `{` or `[` and parses as JSON.
pub open spec fn json_doc(text: Seq<char>) -> bool {
    text.len() > 0 && (text[0] == '{' || text[0] == '[') && spec_json_parses(text)
}

/// Whether `text` is one line that parses as an `http` or `https` URL.
pub open spec fn web_url(text: Seq<char>) -> bool {
    !has_ws(text) && (spec_url_scheme(text) == Some("http"@) || spec_url_scheme(text) == Some(
        "https"@,
    ))
}

/// The detector that a `builtin:` kind names; an unknown kind detects nothing.
pub open spec fn builtin_detect_spec(kind: Seq<char>, text: Seq<char>) -> bool {
    if kind == "json"@ {
        json_doc(text)
    } else if kind == "url"@ {
        web_url(text)
    } else if kind == "bankcard"@ {
        luhn_valid(text)
    } else if kind == "idcard"@ {
        idcard_valid(text)
    } else {
        false
    }
}

/// Runs the built-in detector named `kind` on `content`.
pub fn builtin_detect(kind: &str, content: &str) -> (r: bool)
    ensures
        r == builtin_detect_spec(kind@, content@),
{
    if same_text(kind, "json") {
        let cs = chars_of(content);
        (cs.len() > 0 && (cs[0] == '{' || cs[0] == '[')) && json_parses(content)
    } else if same_text(kind, "url") {
        let cs = chars_of(content);
        if contains_whitespace(&cs) {
            return false;
        }
        match url_scheme(content) {
            Some(sch) => same_text(sch.as_str(), "http") || same_text(sch.as_str(), "https"),
            None => false,
        }
    } else if same_text(kind, "bankcard") {
        luhn_check(content)
    } else if same_text(kind, "idcard") {
        idcard_check(content)
    } else {
        false
    }
}

} // verus!
