//! Tests for the shell-token scanner.

use elcc::scanner::{encode_env, parse_env, EnvAssign, ScanError};

fn cv(s: &str) -> Vec<char> {
    s.chars().collect()
}

fn assign(key: &str, value: &str) -> EnvAssign {
    EnvAssign { key: cv(key), value: cv(value) }
}

#[test]
fn quoted_value_with_escaped_quote_round_trips() {
    // Encoding key=value with an embedded quote, then decoding, yields the
    // value back.
    let pairs = vec![assign("key", "it's here")];
    let encoded = encode_env(&pairs);
    assert_eq!(encoded, cv("key='it'\\''s here'"));
    let decoded = parse_env(&encoded).unwrap();
    assert_eq!(decoded, pairs);
}

#[test]
fn decodes_quoted_and_unquoted_values() {
    let r = parse_env(&cv("FOO=1 BAR='a b' BAZ=")).unwrap();
    assert_eq!(r, vec![assign("FOO", "1"), assign("BAR", "a b"), assign("BAZ", "")]);
}

#[test]
fn empty_value_in_the_middle_is_legal() {
    let r = parse_env(&cv("A= B=2")).unwrap();
    assert_eq!(r, vec![assign("A", ""), assign("B", "2")]);
}

#[test]
fn keys_may_hold_digits_and_underscores() {
    let r = parse_env(&cv("CARGO_PKG_VERSION_2=0")).unwrap();
    assert_eq!(r, vec![assign("CARGO_PKG_VERSION_2", "0")]);
}

#[test]
fn empty_line_decodes_to_no_assignments() {
    assert_eq!(parse_env(&cv("")).unwrap(), vec![]);
}

#[test]
fn encoding_always_quotes() {
    let encoded = encode_env(&vec![assign("A", "1"), assign("B", "x y")]);
    assert_eq!(encoded, cv("A='1' B='x y'"));
    let decoded = parse_env(&encoded).unwrap();
    assert_eq!(decoded, vec![assign("A", "1"), assign("B", "x y")]);
}

#[test]
fn missing_equals_is_an_error() {
    assert_eq!(parse_env(&cv("FOO")), Err(ScanError::MissingEq));
    // A trailing space promises one more assignment.
    assert_eq!(parse_env(&cv("FOO=1 ")), Err(ScanError::MissingEq));
}

#[test]
fn bad_key_characters_are_an_error() {
    assert_eq!(parse_env(&cv("A B=1")), Err(ScanError::BadKey));
    assert_eq!(parse_env(&cv("=1")), Err(ScanError::BadKey));
}

#[test]
fn unclosed_quote_is_an_error() {
    assert_eq!(parse_env(&cv("A='x")), Err(ScanError::UnclosedQuote));
}

#[test]
fn garbage_after_closing_quote_is_an_error() {
    assert_eq!(parse_env(&cv("A='x'y")), Err(ScanError::BadSeparator));
    assert_eq!(parse_env(&cv("A='x'\\")), Err(ScanError::BadSeparator));
}

#[test]
fn many_escaped_quotes_round_trip() {
    let pairs = vec![assign("K", "'"), assign("L", "''a''"), assign("M", "\\'")];
    let encoded = encode_env(&pairs);
    let decoded = parse_env(&encoded).unwrap();
    assert_eq!(decoded, pairs);
}
