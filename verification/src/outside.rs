//! Calls into outside crates and the standard library that the library's
//! logic makes, each with the contract that the outside code's source or
//! documentation supports.

use vstd::prelude::*;
use sha2::Digest;
use base64::Engine;

verus! {

/// The SHA-256 digest of a byte string.
pub uninterp spec fn spec_sha256(data: Seq<u8>) -> Seq<u8>;

/// Whether `pattern` compiles as a `regex` crate regular expression and, if
/// so, whether it matches somewhere in `text`.
pub uninterp spec fn spec_regex_search(pattern: Seq<char>, text: Seq<char>) -> Option<bool>;

/// The message of the error that compiling `pattern` gives, if it fails.
pub uninterp spec fn spec_regex_error(pattern: Seq<char>) -> Option<Seq<char>>;

/// Whether the text parses as one JSON value.
pub uninterp spec fn spec_json_parses(text: Seq<char>) -> bool;

/// The scheme of the URL that the text parses as, if it parses.
pub uninterp spec fn spec_url_scheme(text: Seq<char>) -> Option<Seq<char>>;

/// The standard (padded) base64 encoding of a byte string.
pub uninterp spec fn spec_base64_encode(data: Seq<u8>) -> Seq<char>;

/// The bytes that a standard base64 text decodes to, if it is valid.
pub uninterp spec fn spec_base64_decode(text: Seq<char>) -> Option<Seq<u8>>;

/// The Unicode lower-case mapping of a string.
pub uninterp spec fn spec_lowercase(text: Seq<char>) -> Seq<char>;

/// What `serde_json::to_string` gives for a list of strings (a JSON array),
/// or the message of its error.
pub uninterp spec fn spec_strings_json(list: Seq<Seq<char>>) -> Result<Seq<char>, Seq<char>>;

/// The strings of a JSON text that is an array of strings, if it is one.
pub uninterp spec fn spec_json_strings(text: Seq<char>) -> Option<Seq<Seq<char>>>;

/// What updating a JSON object gives: the object that `text` holds (an
/// empty one when `text` is not a JSON object) with `key` set to the JSON
/// string `value`, written back by `serde_json::to_string`; or the message
/// of its error.
pub uninterp spec fn spec_json_object_with(text: Seq<char>, key: Seq<char>, value: Seq<char>) -> Result<
    Seq<char>,
    Seq<char>,
>;

/// What removing a key from a JSON object gives: the object that `text`
/// holds (an empty one when `text` is not a JSON object) without `key`,
/// written back by `serde_json::to_string`; or the message of its error.
pub uninterp spec fn spec_json_object_without(text: Seq<char>, key: Seq<char>) -> Result<Seq<char>, Seq<char>>;

/// The entries, in key order, of a JSON text that is an object whose values
/// are all strings, if it is one.
pub uninterp spec fn spec_json_pairs(text: Seq<char>) -> Option<Seq<(Seq<char>, Seq<char>)>>;

/// The value of a `Result` of strings.
pub open spec fn res_view(r: Result<String, String>) -> Result<Seq<char>, Seq<char>> {
    match r {
        Ok(t) => Ok(t@),
        Err(e) => Err(e@),
    }
}

/// The values of a list of strings.
pub open spec fn strings_view(v: Seq<String>) -> Seq<Seq<char>> {
    v.map_values(|s: String| s@)
}

/// The values of a list of string pairs.
pub open spec fn pairs_view(v: Seq<(String, String)>) -> Seq<(Seq<char>, Seq<char>)> {
    v.map_values(|p: (String, String)| (p.0@, p.1@))
}

/// Whether no key occurs twice among the pairs.
pub open spec fn keys_distinct(p: Seq<(Seq<char>, Seq<char>)>) -> bool {
    forall|i: int, j: int| 0 <= i < j < p.len() ==> (#[trigger] p[i]).0 != (#[trigger] p[j]).0
}

/// Calls `sha2::Sha256::digest` (through the `Digest` trait) and copies the
/// 32 bytes out. Claimed: the result is the digest named by `spec_sha256`,
/// and a SHA-256 digest has 32 bytes.
#[verifier::external_body]
pub(crate) fn sha256_digest(data: &[u8]) -> (r: Vec<u8>)
    ensures
        r@ == spec_sha256(data@),
        r@.len() == 32,
{
    sha2::Sha256::digest(data).to_vec()
}

/// Calls `std::time::UNIX_EPOCH.elapsed()` (`SystemTime::elapsed`) and
/// takes the whole seconds. Nothing is claimed of the result: it is the
/// clock, and `None` when the clock is before 1970 (`elapsed` then returns
/// an error rather than panic).
#[verifier::external_body]
pub(crate) fn unix_now() -> (r: Option<u64>)
{
    std::time::UNIX_EPOCH.elapsed().ok().map(|d| d.as_secs())
}

/// Calls `regex::Regex::new(pattern)` and, when it compiles,
/// `Regex::is_match(text)`. Claimed: the result is the value named by
/// `spec_regex_search` for these arguments.
#[verifier::external_body]
pub(crate) fn regex_search(pattern: &str, text: &str) -> (r: Option<bool>)
    ensures
        r == spec_regex_search(pattern@, text@),
{
    match regex::Regex::new(pattern) {
        Ok(re) => Some(re.is_match(text)),
        Err(_) => None,
    }
}

/// Calls `regex::Regex::new(pattern)` and renders its error with `Display`.
/// Claimed: the result is the value named by `spec_regex_error`.
#[verifier::external_body]
pub(crate) fn regex_error(pattern: &str) -> (r: Option<String>)
    ensures
        crate::model::ov(r) == spec_regex_error(pattern@),
{
    match regex::Regex::new(pattern) {
        Ok(_) => None,
        Err(e) => Some(e.to_string()),
    }
}

/// Calls `serde_json::from_str::<serde_json::Value>(text)` and reports
/// whether it succeeded. Claimed: the result is `spec_json_parses(text)`.
#[verifier::external_body]
pub(crate) fn json_parses(text: &str) -> (r: bool)
    ensures
        r == spec_json_parses(text@),
{
    serde_json::from_str::<serde_json::Value>(text).is_ok()
}

/// Calls `url::Url::parse(text)` and, when it parses, `Url::scheme`.
/// Claimed: the result is the value named by `spec_url_scheme`.
#[verifier::external_body]
pub(crate) fn url_scheme(text: &str) -> (r: Option<String>)
    ensures
        crate::model::ov(r) == spec_url_scheme(text@),
{
    match url::Url::parse(text) {
        Ok(u) => Some(u.scheme().to_string()),
        Err(_) => None,
    }
}

/// Calls `base64::engine::general_purpose::STANDARD.encode(data)`.
/// Claimed: the result is `spec_base64_encode(data)`, and the same engine
/// decodes it back to `data` (the crate documents encoding and decoding
/// with one engine as inverse; the standard engine writes and requires
/// canonical padding).
#[verifier::external_body]
pub(crate) fn base64_encode(data: &[u8]) -> (r: String)
    ensures
        r@ == spec_base64_encode(data@),
        spec_base64_decode(r@) == Some(data@),
{
    base64::engine::general_purpose::STANDARD.encode(data)
}

/// Calls `base64::engine::general_purpose::STANDARD.decode(text)`.
/// Claimed: the result is the value named by `spec_base64_decode`.
#[verifier::external_body]
pub(crate) fn base64_decode(text: &str) -> (r: Option<Vec<u8>>)
    ensures
        match r {
            Some(v) => spec_base64_decode(text@) == Some(v@),
            None => spec_base64_decode(text@) is None,
        },
{
    base64::engine::general_purpose::STANDARD.decode(text).ok()
}

/// Calls `str::to_lowercase`. Claimed: the result is `spec_lowercase(text)`.
#[verifier::external_body]
pub(crate) fn lowercase(text: &str) -> (r: String)
    ensures
        r@ == spec_lowercase(text@),
{
    text.to_lowercase()
}

/// Calls `serde_json::to_string` on a list of strings, rendering an error
/// with `Display`. Claimed: the result is the value named by
/// `spec_strings_json`.
#[verifier::external_body]
pub(crate) fn strings_json(list: &Vec<String>) -> (r: Result<String, String>)
    ensures
        res_view(r) == spec_strings_json(strings_view(list@)),
{
    serde_json::to_string(list).map_err(|e| e.to_string())
}

/// Calls `serde_json::from_str::<Vec<String>>(text)`. Claimed: the result
/// is the value named by `spec_json_strings`.
#[verifier::external_body]
pub(crate) fn json_strings(text: &str) -> (r: Option<Vec<String>>)
    ensures
        match r {
            Some(v) => spec_json_strings(text@) == Some(strings_view(v@)),
            None => spec_json_strings(text@) is None,
        },
{
    serde_json::from_str::<Vec<String>>(text).ok()
}

/// Parses `text` with `serde_json::from_str` into a
/// `serde_json::Map<String, Value>` (an empty map when that fails), sets
/// `key` with `Map::insert` to `Value::String(value)`, and writes the map
/// with `serde_json::to_string`, rendering an error with `Display`.
/// Claimed: the result is the value named by `spec_json_object_with`.
#[verifier::external_body]
pub(crate) fn json_object_with(text: &str, key: &str, value: &str) -> (r: Result<String, String>)
    ensures
        res_view(r) == spec_json_object_with(text@, key@, value@),
{
    let mut m: serde_json::Map<String, serde_json::Value> = serde_json::from_str(text).unwrap_or_default();
    m.insert(key.to_owned(), serde_json::Value::String(value.to_owned()));
    serde_json::to_string(&m).map_err(|e| e.to_string())
}

/// Parses `text` with `serde_json::from_str` into a
/// `serde_json::Map<String, Value>` (an empty map when that fails), drops
/// `key` with `Map::remove`, and writes the map with `serde_json::to_string`,
/// rendering an error with `Display`. Claimed: the result is the value
/// named by `spec_json_object_without`.
#[verifier::external_body]
pub(crate) fn json_object_without(text: &str, key: &str) -> (r: Result<String, String>)
    ensures
        res_view(r) == spec_json_object_without(text@, key@),
{
    let mut m: serde_json::Map<String, serde_json::Value> = serde_json::from_str(text).unwrap_or_default();
    m.remove(key);
    serde_json::to_string(&m).map_err(|e| e.to_string())
}

/// Calls `serde_json::from_str::<BTreeMap<String, String>>(text)` and lists
/// the entries. Claimed: the result is the value named by
/// `spec_json_pairs`, and, as the keys of a map, no key occurs twice.
#[verifier::external_body]
pub(crate) fn json_pairs(text: &str) -> (r: Option<Vec<(String, String)>>)
    ensures
        match r {
            Some(v) => spec_json_pairs(text@) == Some(pairs_view(v@)) && keys_distinct(pairs_view(v@)),
            None => spec_json_pairs(text@) is None,
        },
{
    serde_json::from_str::<std::collections::BTreeMap<String, String>>(text).ok().map(|m| m.into_iter().collect())
}

/// Collects characters into a `String` (`FromIterator<char> for String`).
/// Claimed: the string holds exactly these characters, in order.
#[verifier::external_body]
pub(crate) fn string_from_chars(chars: &[char]) -> (r: String)
    ensures
        r@ == chars@,
{
    chars.iter().collect()
}

} // verus!
