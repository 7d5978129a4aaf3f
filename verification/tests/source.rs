use elysium::lexer::lex::tokenize;
use elysium::lexer::{Lexer, TokenKind};
use elysium::parser::Source;
use elysium::text::TextRange;

#[test]
fn source_passes_over_trivia() {
    let tokens = tokenize("  a # note\n + 1  ");
    let mut source = Source::new(&tokens);
    assert_eq!(source.peek_kind(), Some(TokenKind::Ident));
    assert_eq!(source.peek_token().unwrap().text, "a");
    assert_eq!(source.next_token().unwrap().text, "a");
    assert_eq!(source.peek_kind(), Some(TokenKind::Plus));
    assert_eq!(source.next_token().unwrap().kind, TokenKind::Plus);
    assert_eq!(source.next_token().unwrap().text, "1");
    assert_eq!(source.peek_kind(), None);
    assert!(source.peek_token().is_none());
    assert!(source.next_token().is_none());
    assert_eq!(source.last_token_range(), Some(TextRange::new(15, 17)));
}

#[test]
fn source_of_nothing_has_no_last_token() {
    let tokens = tokenize("");
    let mut source = Source::new(&tokens);
    assert_eq!(source.peek_kind(), None);
    assert_eq!(source.last_token_range(), None);
}

#[test]
fn tokens_stand_one_behind_the_other() {
    let input = "let abc=12 # x\n(fn)+-*/{}";
    let tokens = tokenize(input);
    let kinds: Vec<TokenKind> = tokens.iter().map(|token| token.kind).collect();
    assert_eq!(
        kinds,
        vec![
            TokenKind::LetKw,
            TokenKind::Whitespace,
            TokenKind::Ident,
            TokenKind::Equals,
            TokenKind::Number,
            TokenKind::Whitespace,
            TokenKind::Comment,
            TokenKind::Whitespace,
            TokenKind::LParen,
            TokenKind::FnKw,
            TokenKind::RParen,
            TokenKind::Plus,
            TokenKind::Minus,
            TokenKind::Star,
            TokenKind::Slash,
            TokenKind::LBrace,
            TokenKind::RBrace,
        ]
    );
    let mut at = 0;
    for token in &tokens {
        assert_eq!(token.range.start, at);
        assert_eq!(token.text, &input[token.range.start as usize..token.range.end as usize]);
        at = token.range.end;
    }
    assert_eq!(at as usize, input.len());
}

#[test]
fn keywords_are_whole_words() {
    let tokens = tokenize("fn fna let lets le f");
    let kinds: Vec<TokenKind> = tokens
        .iter()
        .filter(|token| !token.kind.is_trivia())
        .map(|token| token.kind)
        .collect();
    assert_eq!(
        kinds,
        vec![
            TokenKind::FnKw,
            TokenKind::Ident,
            TokenKind::LetKw,
            TokenKind::Ident,
            TokenKind::Ident,
            TokenKind::Ident,
        ]
    );
}

#[test]
fn a_comment_ends_before_the_line_break() {
    let tokens = tokenize("# é ü\n1");
    assert_eq!(tokens.len(), 3);
    assert_eq!(tokens[0].kind, TokenKind::Comment);
    assert_eq!(tokens[0].text, "# é ü");
    assert_eq!(tokens[1].text, "\n");
    assert_eq!(tokens[2].text, "1");
}

#[test]
fn a_character_that_starts_no_token_is_a_token() {
    let mut lexer = Lexer::new("1$2");
    assert_eq!(lexer.next().unwrap().text, "1");
    let token = lexer.next().unwrap();
    assert_eq!(token.kind, TokenKind::Error);
    assert_eq!(token.text, "$");
    assert_eq!(token.range, TextRange::new(1, 2));
    assert_eq!(lexer.next().unwrap().text, "2");
    assert!(lexer.next().is_none());
    assert!(lexer.next().is_none());

    let tokens = tokenize("\t");
    assert_eq!(tokens.len(), 1);
    assert_eq!(tokens[0].kind, TokenKind::Error);
    assert_eq!(tokens[0].text, "\t");

    let tokens = tokenize("é€𝄞x");
    assert_eq!(tokens.len(), 4);
    assert_eq!(tokens[0].kind, TokenKind::Error);
    assert_eq!(tokens[0].text, "é");
    assert_eq!(tokens[0].range, TextRange::new(0, 2));
    assert_eq!(tokens[1].kind, TokenKind::Error);
    assert_eq!(tokens[1].text, "€");
    assert_eq!(tokens[1].range, TextRange::new(2, 5));
    assert_eq!(tokens[2].kind, TokenKind::Error);
    assert_eq!(tokens[2].text, "𝄞");
    assert_eq!(tokens[2].range, TextRange::new(5, 9));
    assert_eq!(tokens[3].kind, TokenKind::Ident);

    let tokens = tokenize("_a");
    assert_eq!(tokens.len(), 2);
    assert_eq!(tokens[0].kind, TokenKind::Error);
    assert_eq!(tokens[1].kind, TokenKind::Ident);
}

#[test]
fn the_tokens_cover_every_text() {
    for input in ["", "1$2", "\t\r\n", "é€𝄞", "let ä = 1 # ö\n@"] {
        let tokens = tokenize(input);
        let mut text = String::new();
        for token in &tokens {
            text.push_str(token.text);
        }
        assert_eq!(text, input);
    }
}

#[test]
fn a_digit_ends_a_number_but_not_a_word() {
    let tokens = tokenize("12ab34");
    assert_eq!(tokens.len(), 2);
    assert_eq!(tokens[0].kind, TokenKind::Number);
    assert_eq!(tokens[0].text, "12");
    assert_eq!(tokens[1].kind, TokenKind::Ident);
    assert_eq!(tokens[1].text, "ab34");
}

#[test]
fn trivia_is_whitespace_and_comments() {
    assert!(TokenKind::Whitespace.is_trivia());
    assert!(TokenKind::Comment.is_trivia());
    assert!(!TokenKind::Ident.is_trivia());
    assert!(!TokenKind::Error.is_trivia());
}
