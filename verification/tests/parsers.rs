//! The behaviour of the individual parsers on concrete inputs.

use byteparse::branch::maybe;
use byteparse::parser::Parser;
use byteparse::scan::{byte, is_byte, take, take_until_byte, take_until_byte_1};
use byteparse::sequence::prefixed;

#[test]
fn should_fail_if_prefix_parser_fails() {
    let _ = prefixed(take(0), take_until_byte(is_byte(0))).parse(b"abc").unwrap_err();
}

#[test]
fn should_fail_if_main_parser_fails() {
    let _ = prefixed(take(1), take(0)).parse(b"abc").unwrap_err();
}

#[test]
fn should_return_value_of_main_parser_when_succeeds() {
    let (s, value) = prefixed(take(1), take(1)).parse(b"abc").unwrap();
    assert_eq!(s, b"c");
    assert_eq!(value.as_slice(), b"b");
}

#[test]
fn should_return_some_value_if_wrapped_parser_succeeds() {
    let (s, value) = maybe(take(2)).parse(b"abc").unwrap();
    assert_eq!(s, b"c");
    assert_eq!(value, Some(b"ab".to_vec()));
}

#[test]
fn should_return_none_if_wrapped_parser_fails() {
    let (s, value) = maybe(take(0)).parse(b"abc").unwrap();
    assert_eq!(s, b"abc");
    assert_eq!(value, None);
}

#[test]
fn should_consume_until_predicate_matches() {
    let (s, text) = take_until_byte(is_byte(b'b')).parse(b"abc").unwrap();
    assert_eq!(s, b"bc");
    assert_eq!(text.as_slice(), b"a");
}

#[test]
fn should_consume_completely_if_predicate_never_matches() {
    let (s, text) = take_until_byte(is_byte(b'z')).parse(b"abc").unwrap();
    assert_eq!(s, b"");
    assert_eq!(text.as_slice(), b"abc");
}

#[test]
fn should_fail_if_nothing_consumed() {
    let _ = take_until_byte_1(is_byte(b'a')).parse(b"abc").unwrap_err();
}

#[test]
fn parser_should_fail_if_input_is_empty() {
    let _ = take_until_byte_1(is_byte(b'a')).parse(b"").unwrap_err();
}

#[test]
fn should_consume_cnt_bytes() {
    let (input, bytes) = take(2).parse(b"abc").unwrap();
    assert_eq!(input, b"c");
    assert_eq!(bytes.as_slice(), b"ab");
}

#[test]
fn should_fail_if_takes_nothing() {
    take(0).parse(b"abc").unwrap_err();
}

#[test]
fn should_fail_if_not_enough_bytes() {
    take(4).parse(b"abc").unwrap_err();
}

#[test]
fn should_support_taking_exactly_enough_bytes_as_input() {
    let (input, bytes) = take(3).parse(b"abc").unwrap();
    assert_eq!(input, b"");
    assert_eq!(bytes.as_slice(), b"abc");
}

#[test]
fn should_succeed_if_next_byte_matches() {
    let (s, c) = byte(b'a').parse(b"abc").unwrap();
    assert_eq!(s, b"bc");
    assert_eq!(c, b'a');
}

#[test]
fn should_fail_if_next_byte_does_not_match() {
    let _ = byte(b'b').parse(b"abc").unwrap_err();
}

#[test]
fn should_fail_if_input_is_empty() {
    let _ = byte(b'a').parse(b"").unwrap_err();
}
