//! Parsing then rendering reproduces the source text.

use prompt_lang::grammar::parse_prompt;

fn assert_round_trip(input: &str) {
    let parsed = parse_prompt(input).expect(input);
    assert_eq!(input, parsed.to_text());
}

#[test]
fn round_trip_literal() {
    assert_round_trip("abc");
}

#[test]
fn round_trip_disjunction() {
    assert_round_trip("{cat|dog}");
}

#[test]
fn round_trip_range() {
    assert_round_trip("{1;2;3}");
}

#[test]
fn round_trip_full_permutation() {
    assert_round_trip("{1:<i>:cat|dog|fish}!");
}

#[test]
fn round_trip_variable_and_permutation() {
    assert_round_trip("{<i>} and {1:<i>:cat|dog|fish}!");
}

#[test]
fn round_trip_decimal_range_in_text() {
    assert_round_trip("a (red:{0.0;1.0;0.1}) cat");
}

#[test]
fn round_trip_negative_step() {
    assert_round_trip("{3;1;-1}");
}

#[test]
fn round_trip_hidden_without_variable() {
    assert_round_trip("{cat|dog}!");
}

#[test]
fn round_trip_bare_variable() {
    assert_round_trip("a {i}{1:i:cat|dog}!");
}

#[test]
fn unclosed_placeholder_fails() {
    assert!(parse_prompt("{cat|dog").is_err());
}

#[test]
fn empty_placeholder_fails() {
    assert!(parse_prompt("{}").is_err());
}

#[test]
fn zero_step_fails_at_parse_time() {
    assert!(parse_prompt("{1;5;0}").is_err());
}

#[test]
fn wrong_sign_step_fails_at_parse_time() {
    assert!(parse_prompt("{5;1;1}").is_err());
}

#[test]
fn two_part_range_fails() {
    assert!(parse_prompt("{1;5}").is_err());
}

#[test]
fn four_part_range_fails() {
    assert!(parse_prompt("{1;5;1;2}").is_err());
}

#[test]
fn malformed_decimal_fails() {
    assert!(parse_prompt("{a;b;c}").is_err());
}

#[test]
fn huge_ordering_fails() {
    assert!(parse_prompt("{99999999999999999999999999:cat|dog}").is_err());
}

#[test]
fn error_carries_position() {
    let err = match parse_prompt("ab{?") {
        Err(e) => e,
        Ok(_) => panic!("expected a parse error"),
    };
    assert_eq!(err.at, 2);
    assert!(!err.message.is_empty());
}
