use clipboard_ultra::detect::{builtin_detect, idcard_check, luhn_check};
use clipboard_ultra::like::like_chars;
use clipboard_ultra::text::{
    chars_of, contains_chars, int_to_text, parse_i64, same_text, split_chars, strip_chars,
    to_hex_lower, trim_str,
};

#[test]
fn luhn_accepts_valid_card_with_spaces() {
    assert!(luhn_check("4111 1111 1111 1111"));
}

#[test]
fn luhn_accepts_valid_nineteen_digits() {
    assert!(luhn_check("6222021234567890128"));
}

#[test]
fn luhn_rejects_wrong_check_digit() {
    assert!(!luhn_check("4111-1111-1111-1112"));
}

#[test]
fn luhn_rejects_too_short_and_too_long() {
    assert!(!luhn_check("79927398713"));
    assert!(!luhn_check("4111111111111111111111"));
}

#[test]
fn luhn_rejects_letters() {
    assert!(!luhn_check("4111 1111 1111 111a"));
}

#[test]
fn idcard_accepts_valid_with_x_either_case() {
    assert!(idcard_check("11010519491231002X"));
    assert!(idcard_check("11010519491231002x"));
}

#[test]
fn idcard_accepts_valid_digit_code() {
    assert!(idcard_check("440308199901010012"));
}

#[test]
fn idcard_rejects_wrong_code_and_length() {
    assert!(!idcard_check("110105194912310021"));
    assert!(!idcard_check("11010519491231002"));
    assert!(!idcard_check("1101051949123100A2X"));
}

#[test]
fn builtin_detects_json_objects_and_arrays_only() {
    assert!(builtin_detect("json", "{\"a\": 1}"));
    assert!(builtin_detect("json", "[1, 2, 3]"));
    assert!(!builtin_detect("json", "42"));
    assert!(!builtin_detect("json", "{not json"));
}

#[test]
fn builtin_detects_web_urls() {
    assert!(builtin_detect("url", "https://example.com/a?b=c"));
    assert!(builtin_detect("url", "http://localhost:8080"));
    assert!(!builtin_detect("url", "ftp://example.com"));
    assert!(!builtin_detect("url", "https://example.com/a b"));
    assert!(!builtin_detect("url", "not a url"));
}

#[test]
fn builtin_detects_cards_and_idcards() {
    assert!(builtin_detect("bankcard", "4111 1111 1111 1111"));
    assert!(builtin_detect("idcard", "11010519491231002X"));
    assert!(!builtin_detect("phone", "13800138000"));
}

#[test]
fn trim_drops_surrounding_whitespace() {
    assert_eq!(trim_str("  hello world \n\t"), "hello world");
    assert_eq!(trim_str("\u{3000}全角\u{3000}"), "全角");
    assert_eq!(trim_str("   "), "");
}

#[test]
fn parse_reads_signed_integers() {
    assert_eq!(parse_i64("1000"), Some(1000));
    assert_eq!(parse_i64("-5"), Some(-5));
    assert_eq!(parse_i64("+7"), Some(7));
    assert_eq!(parse_i64("9223372036854775807"), Some(i64::MAX));
    assert_eq!(parse_i64("-9223372036854775808"), Some(i64::MIN));
    assert_eq!(parse_i64("9223372036854775808"), None);
    assert_eq!(parse_i64(""), None);
    assert_eq!(parse_i64("12a"), None);
    assert_eq!(parse_i64(" 1"), None);
}

#[test]
fn int_text_round_trips() {
    for v in [0i64, 7, -7, 1000, i64::MAX, i64::MIN] {
        let t = int_to_text(v);
        assert_eq!(t, v.to_string());
        assert_eq!(parse_i64(&t), Some(v));
    }
}

#[test]
fn hex_is_lower_case() {
    assert_eq!(to_hex_lower(&[0x00, 0xab, 0x7f, 0xff]), "00ab7fff");
}

#[test]
fn same_text_compares_exactly() {
    assert!(same_text("abc", "abc"));
    assert!(!same_text("abc", "abd"));
    assert!(!same_text("abc", "ab"));
}

#[test]
fn split_and_strip_chars() {
    let parts = split_chars(&chars_of("a.b..c"), '.');
    let texts: Vec<String> = parts.iter().map(|p| p.iter().collect()).collect();
    assert_eq!(texts, vec!["a", "b", "", "c"]);
    let s: String = strip_chars(&chars_of("\"x\"y\""), '"').iter().collect();
    assert_eq!(s, "x\"y");
    assert!(contains_chars(&chars_of("com.clipboard-ultra.app"), &chars_of("clipboard-ultra")));
    assert!(!contains_chars(&chars_of("com.apple.finder"), &chars_of("clipboard-ultra")));
}

#[test]
fn like_matches_substrings_ignoring_ascii_case() {
    assert!(like_chars(&chars_of("%HeLLo%"), &chars_of("say hello there")));
    assert!(like_chars(&chars_of("%wor_d%"), &chars_of("World")));
    assert!(!like_chars(&chars_of("%xyz%"), &chars_of("say hello")));
    assert!(!like_chars(&chars_of("%É%"), &chars_of("é")));
}
