//! The combinators on concrete inputs: sequencing, alternation, repetition,
//! lookahead, and the edge cases around empty input, zero-length matches and
//! partial consumption.

use byteparse::branch::{any_of, maybe, not, peek};
use byteparse::parser::{empty, not_empty, Parser};
use byteparse::repeat::{one_or_more, take_while, take_while_1, zero_or_more};
use byteparse::scan::{byte, bytes, is_byte, rtake_until_byte, rtake_until_byte_1, take};
use byteparse::sequence::{divided, fully_consumed, suffixed, LengthOf};

#[test]
fn empty_succeeds_only_on_empty_input() {
    let (s, ()) = empty(b"").unwrap();
    assert_eq!(s, b"");
    let _ = empty(b"a").unwrap_err();
}

#[test]
fn not_empty_succeeds_only_on_non_empty_input() {
    let (s, ()) = not_empty(b"abc").unwrap();
    assert_eq!(s, b"abc");
    let _ = not_empty(b"").unwrap_err();
}

#[test]
fn byte_fails_on_other_first_byte() {
    let _ = byte(b'a').parse(b"bcd").unwrap_err();
}

#[test]
fn bytes_consumes_exactly_the_literal() {
    let (s, value) = bytes(b"ab").parse(b"abc").unwrap();
    assert_eq!(s, b"c");
    assert_eq!(value.as_slice(), b"ab");
}

#[test]
fn bytes_fails_on_empty_short_or_mismatching_input() {
    let _ = bytes(b"ab").parse(b"").unwrap_err();
    let _ = bytes(b"abcd").parse(b"abc").unwrap_err();
    let _ = bytes(b"ax").parse(b"abc").unwrap_err();
}

#[test]
fn bytes_with_empty_literal_consumes_nothing() {
    let (s, value) = bytes(b"").parse(b"abc").unwrap();
    assert_eq!(s, b"abc");
    assert_eq!(value.as_slice(), b"");
    let _ = bytes(b"").parse(b"").unwrap_err();
}

#[test]
fn map_transforms_the_value_only() {
    let (s, n) = byteparse::sequence::map(take(2), LengthOf).parse(b"abc").unwrap();
    assert_eq!(s, b"c");
    assert_eq!(n, 2);
    let _ = byteparse::sequence::map(take(4), LengthOf).parse(b"abc").unwrap_err();
}

#[test]
fn suffixed_keeps_the_first_value() {
    let (s, value) = suffixed(take(1), byte(b'b')).parse(b"abc").unwrap();
    assert_eq!(s, b"c");
    assert_eq!(value.as_slice(), b"a");
    let _ = suffixed(take(1), byte(b'z')).parse(b"abc").unwrap_err();
}

#[test]
fn divided_keeps_the_outer_values() {
    let (s, (left, right)) = divided(take(1), byte(b'b'), take(1)).parse(b"abc").unwrap();
    assert_eq!(s, b"");
    assert_eq!(left.as_slice(), b"a");
    assert_eq!(right.as_slice(), b"c");
    let _ = divided(take(1), byte(b'z'), take(1)).parse(b"abc").unwrap_err();
}

#[test]
fn fully_consumed_demands_the_whole_input() {
    let (s, value) = fully_consumed(bytes(b"abc")).parse(b"abc").unwrap();
    assert_eq!(s, b"");
    assert_eq!(value.as_slice(), b"abc");
    let _ = fully_consumed(bytes(b"abc")).parse(b"abcd").unwrap_err();
}

#[test]
fn maybe_rolls_back_exactly_on_failure() {
    let (s, value) = maybe(take(2)).parse(b"abc").unwrap();
    assert_eq!(s, b"c");
    assert_eq!(value, Some(b"ab".to_vec()));
    let (s, value) = maybe(take(4)).parse(b"abc").unwrap();
    assert_eq!(s, b"abc");
    assert_eq!(value, None);
}

#[test]
fn not_fails_on_success_and_consumes_nothing_on_failure() {
    let _ = not(byte(b'a')).parse(b"abc").unwrap_err();
    let (s, ()) = not(byte(b'z')).parse(b"abc").unwrap();
    assert_eq!(s, b"abc");
}

#[test]
fn peek_produces_the_value_without_consuming() {
    let (s, value) = peek(take(2)).parse(b"abc").unwrap();
    assert_eq!(s, b"abc");
    assert_eq!(value.as_slice(), b"ab");
    let _ = peek(take(4)).parse(b"abc").unwrap_err();
}

#[test]
fn one_or_more_collects_until_failure() {
    let (s, values) = one_or_more(byte(b'a')).parse(b"aab").unwrap();
    assert_eq!(s, b"b");
    assert_eq!(values, vec![b'a', b'a']);
    let _ = one_or_more(byte(b'a')).parse(b"bbb").unwrap_err();
}

#[test]
fn one_or_more_stops_on_a_non_consuming_success() {
    let _ = one_or_more(peek(byte(b'a'))).parse(b"abc").unwrap_err();
}

#[test]
fn zero_or_more_agrees_with_one_or_more() {
    let (s, values) = zero_or_more(byte(b'a')).parse(b"aab").unwrap();
    assert_eq!(s, b"b");
    assert_eq!(values, vec![b'a', b'a']);
    let (s, values) = zero_or_more(byte(b'a')).parse(b"bbb").unwrap();
    assert_eq!(s, b"bbb");
    assert_eq!(values, Vec::<u8>::new());
}

#[test]
fn take_while_accumulates_successful_probes() {
    let (s, value) = take_while(byte(b'a')).parse(b"aab").unwrap();
    assert_eq!(s, b"b");
    assert_eq!(value.as_slice(), b"aa");
    let (s, value) = take_while(take(2)).parse(b"abcd").unwrap();
    assert_eq!(s, b"");
    assert_eq!(value.as_slice(), b"abcd");
}

#[test]
fn take_while_succeeds_empty_when_the_first_probe_fails() {
    let (s, value) = take_while(byte(b'z')).parse(b"abc").unwrap();
    assert_eq!(s, b"abc");
    assert_eq!(value.as_slice(), b"");
    let _ = take_while(byte(b'a')).parse(b"").unwrap_err();
}

#[test]
fn take_while_stops_on_a_non_consuming_probe() {
    let (s, value) = take_while(peek(byte(b'a'))).parse(b"abc").unwrap();
    assert_eq!(s, b"abc");
    assert_eq!(value.as_slice(), b"");
}

#[test]
fn take_while_1_demands_progress() {
    let (s, value) = take_while_1(byte(b'a')).parse(b"aab").unwrap();
    assert_eq!(s, b"b");
    assert_eq!(value.as_slice(), b"aa");
    let _ = take_while_1(byte(b'z')).parse(b"abc").unwrap_err();
    let _ = take_while_1(byte(b'a')).parse(b"").unwrap_err();
}

#[test]
fn rtake_until_byte_splits_at_the_last_match() {
    let (s, value) = rtake_until_byte(is_byte(b'.')).parse(b"foo.txt").unwrap();
    assert_eq!(s, b"foo.");
    assert_eq!(value.as_slice(), b"txt");
    let (s, value) = rtake_until_byte(is_byte(b'.')).parse(b"a.b.c").unwrap();
    assert_eq!(s, b"a.b.");
    assert_eq!(value.as_slice(), b"c");
}

#[test]
fn rtake_until_byte_takes_everything_without_a_match() {
    let (s, value) = rtake_until_byte(is_byte(b'.')).parse(b"abc").unwrap();
    assert_eq!(s, b"");
    assert_eq!(value.as_slice(), b"abc");
}

#[test]
fn rtake_until_byte_1_demands_a_non_empty_suffix() {
    let (s, value) = rtake_until_byte_1(is_byte(b'.')).parse(b"foo.txt").unwrap();
    assert_eq!(s, b"foo.");
    assert_eq!(value.as_slice(), b"txt");
    let _ = rtake_until_byte_1(is_byte(b'c')).parse(b"abc").unwrap_err();
    let _ = rtake_until_byte_1(is_byte(b'.')).parse(b"").unwrap_err();
}

#[test]
fn any_of_returns_the_first_success() {
    let (s, value) = any_of(vec![byte(b'x'), byte(b'a')]).parse(b"abc").unwrap();
    assert_eq!(s, b"bc");
    assert_eq!(value, b'a');
    let _ = any_of(vec![byte(b'x'), byte(b'y')]).parse(b"abc").unwrap_err();
}

#[test]
fn any_of_is_order_sensitive_not_longest_match() {
    let (s, value) = any_of(vec![take(1), take(2)]).parse(b"abc").unwrap();
    assert_eq!(s, b"bc");
    assert_eq!(value.as_slice(), b"a");
}

#[test]
fn same_outcome_on_repeated_parses() {
    let p = take(2);
    let first = p.parse(b"abc").unwrap();
    let second = p.parse(b"abc").unwrap();
    assert_eq!(first, second);
    let q = take_while(byte(b'a'));
    assert_eq!(q.parse(b"aab").unwrap(), q.parse(b"aab").unwrap());
    let r = byte(b'z');
    assert_eq!(r.parse(b"abc").unwrap_err(), r.parse(b"abc").unwrap_err());
}

#[test]
fn remaining_input_is_a_suffix_of_the_original() {
    let input: &[u8] = b"aabbc";
    let (s, _) = one_or_more(byte(b'a')).parse(input).unwrap();
    assert!(input.ends_with(s));
    let (s, _) = divided(take(2), bytes(b"bb"), take(1)).parse(input).unwrap();
    assert!(input.ends_with(s));
    assert!(s.len() <= input.len());
}

#[test]
fn take_while_1_matches_the_take_while_split() {
    let loose = take_while(byte(b'a')).parse(b"aab").unwrap();
    let strict = take_while_1(byte(b'a')).parse(b"aab").unwrap();
    assert_eq!(loose, strict);
    // Where take_while succeeds with an empty prefix, take_while_1 fails.
    let (s, value) = take_while(byte(b'z')).parse(b"abc").unwrap();
    assert_eq!(s, b"abc");
    assert_eq!(value.as_slice(), b"");
    let _ = take_while_1(byte(b'z')).parse(b"abc").unwrap_err();
}

#[test]
fn failed_sequencing_keeps_earlier_consumption() {
    // No backtracking across sequencing boundaries: the prefix's consumption
    // stands even though the main parser fails afterwards.
    let _ = suffixed(take(2), byte(b'z')).parse(b"abc").unwrap_err();
    // Wrapped in maybe, the same composition rolls the whole input back.
    let (s, value) = maybe(suffixed(take(2), byte(b'z'))).parse(b"abc").unwrap();
    assert_eq!(s, b"abc");
    assert_eq!(value, None);
}
