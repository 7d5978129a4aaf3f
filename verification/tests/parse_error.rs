use elysium::lexer::TokenKind;
use elysium::parser::ParseError;
use elysium::text::TextRange;
use std::ops::Range;

fn check(expected: Vec<TokenKind>, found: Option<TokenKind>, range: Range<u32>, output: &str) {
    let error = ParseError::new(expected, found, TextRange::new(range.start, range.end));

    assert_eq!(error.to_string(), output)
}

#[test]
fn one_expect_did_find() {
    check(
        vec![TokenKind::Equals],
        Some(TokenKind::Ident),
        10..20,
        "error at 10..20: expected '=', but found identifier",
    );
}

#[test]
fn one_expected_did_not_find() {
    check(
        vec![TokenKind::RParen],
        None,
        5..6,
        "error at 5..6: expected ')'",
    )
}

#[test]
fn multiple_expected_did_find() {
    check(
        vec![
            TokenKind::Number,
            TokenKind::Ident,
            TokenKind::Minus,
            TokenKind::LParen,
        ],
        Some(TokenKind::LetKw),
        100..105,
        "error at 100..105: expected number-literal, identifier, '-' or '(', but found 'let'",
    );
}

#[test]
fn two_expected_did_find() {
    check(
        vec![TokenKind::Plus, TokenKind::Minus],
        Some(TokenKind::Equals),
        0..1,
        "error at 0..1: expected '+' or '-', but found '='",
    );
}
