use elysium::ast::validation::{validate, ValidationError, ValidationErrorKind};
use elysium::parse;
use elysium::text::TextRange;
use std::ops::Range;

fn check(input: &str, expected_errors: &[(ValidationErrorKind, Range<u32>)]) {
    let parse = parse(input);

    let expected_errors: Vec<_> = expected_errors
        .iter()
        .map(|(kind, range)| ValidationError::new(*kind, TextRange::new(range.start, range.end)))
        .collect();

    assert_eq!(validate(&parse.syntax()), expected_errors);
}

#[test]
fn validate_ok_literal() {
    check("123", &[]);
}

#[test]
fn validate_too_large_literal() {
    check(
        "99999999999999999999",
        &[(ValidationErrorKind::NumberLiteralTooLarge, (0..20))],
    );
}

#[test]
fn validate_largest_literal() {
    check("18446744073709551615", &[]);
}

#[test]
fn validate_smallest_too_large_literal() {
    check(
        "18446744073709551616",
        &[(ValidationErrorKind::NumberLiteralTooLarge, (0..20))],
    );
}

#[test]
fn validate_literals_below_the_root() {
    check(
        "let a = (1 + 99999999999999999999) * -99999999999999999990",
        &[
            (ValidationErrorKind::NumberLiteralTooLarge, (13..33)),
            (ValidationErrorKind::NumberLiteralTooLarge, (38..58)),
        ],
    );
}

#[test]
fn validate_reports_the_token_without_the_trivia_behind_it() {
    check(
        "99999999999999999999   ",
        &[(ValidationErrorKind::NumberLiteralTooLarge, (0..20))],
    );
}

#[test]
fn validation_error_message() {
    let error = ValidationError::new(
        ValidationErrorKind::NumberLiteralTooLarge,
        TextRange::new(0, 20),
    );
    assert_eq!(
        error.to_string(),
        "error at 0..20: Number literal is larger than supported integer maximum value of 18446744073709551615"
    );
    assert_eq!(
        ValidationErrorKind::NumberLiteralTooLarge.to_string(),
        format!(
            "Number literal is larger than supported integer maximum value of {}",
            u64::MAX
        )
    );
}
