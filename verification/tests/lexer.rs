use elysium::lexer::{Lexer, TokenKind};

fn check(input: &str, kind: TokenKind) {
    let mut lexer = Lexer::new(input);

    let token = lexer.next().unwrap();
    assert_eq!(token.kind, kind);
    assert_eq!(token.text, input);
}

#[test]
fn lex_spaces() {
    check("  ", TokenKind::Whitespace);
}

#[test]
fn lex_fn_keyword() {
    check("fn", TokenKind::FnKw);
}

#[test]
fn lex_let_keyword() {
    check("let", TokenKind::LetKw);
}

#[test]
fn lex_alphabetic_identifier() {
    check("abcd", TokenKind::Ident);
}

#[test]
fn lex_alphanumeric_identifier() {
    check("ab123cde456", TokenKind::Ident);
}

#[test]
fn lex_mixed_case_identifier() {
    check("ABCdef", TokenKind::Ident);
}

#[test]
fn lex_number() {
    check("123456", TokenKind::Number);
}

#[test]
fn lex_plus() {
    check("+", TokenKind::Plus);
}

#[test]
fn lex_minus() {
    check("-", TokenKind::Minus);
}

#[test]
fn lex_star() {
    check("*", TokenKind::Star);
}

#[test]
fn lex_slash() {
    check("/", TokenKind::Slash);
}

#[test]
fn lex_equals() {
    check("=", TokenKind::Equals);
}

#[test]
fn lex_left_brace() {
    check("{", TokenKind::LBrace);
}

#[test]
fn lex_right_brace() {
    check("}", TokenKind::RBrace);
}

#[test]
fn lex_single_char_identifier() {
    check("x", TokenKind::Ident);
}

#[test]
fn lex_left_parenthesis() {
    check("(", TokenKind::LParen);
}

#[test]
fn lex_right_parenthesis() {
    check(")", TokenKind::RParen);
}

#[test]
fn lex_comment() {
    check("# blah", TokenKind::Comment)
}

#[test]
fn lex_spaces_and_newlines() {
    check(" \n", TokenKind::Whitespace)
}
