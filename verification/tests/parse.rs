use elysium::parse;

fn check(input: &str, expected_tree: &str) {
    let parse = parse(input);
    assert_eq!(parse.debug_tree(), expected_tree);
}

#[test]
fn parse_nothing() {
    check("", "Root@0..0");
}

#[test]
fn lib_parse_whitespace() {
    check(
        "   ",
        "Root@0..3
  Whitespace@0..3 \"   \"",
    );
}

#[test]
fn parser_parse_whitespace() {
    check(
        "   ",
        "Root@0..3
  Whitespace@0..3 \"   \"",
    );
}

#[test]
fn parse_comment() {
    check(
        "# hello!",
        "Root@0..8
  Comment@0..8 \"# hello!\"",
    )
}

#[test]
fn parse_number() {
    check(
        "123",
        "Root@0..3
  Literal@0..3
    Number@0..3 \"123\"",
    );
}

#[test]
fn parse_number_preceded_by_whitespace() {
    check(
        "   9876",
        "Root@0..7
  Whitespace@0..3 \"   \"
  Literal@3..7
    Number@3..7 \"9876\"",
    );
}

#[test]
fn parse_number_followed_by_whitespace() {
    check(
        "999   ",
        "Root@0..6
  Literal@0..6
    Number@0..3 \"999\"
    Whitespace@3..6 \"   \"",
    );
}

#[test]
fn parse_variable_ref() {
    check(
        "counter",
        "Root@0..7
  VariableRef@0..7
    Ident@0..7 \"counter\"",
    );
}

#[test]
fn parse_simple_infix_expression() {
    check(
        "1+2",
        "Root@0..3
  InfixExpr@0..3
    Literal@0..1
      Number@0..1 \"1\"
    Plus@1..2 \"+\"
    Literal@2..3
      Number@2..3 \"2\"",
    );
}

#[test]
fn parse_left_associative_infix_expression() {
    check(
        "1+2+3+4",
        "Root@0..7
  InfixExpr@0..7
    InfixExpr@0..5
      InfixExpr@0..3
        Literal@0..1
          Number@0..1 \"1\"
        Plus@1..2 \"+\"
        Literal@2..3
          Number@2..3 \"2\"
      Plus@3..4 \"+\"
      Literal@4..5
        Number@4..5 \"3\"
    Plus@5..6 \"+\"
    Literal@6..7
      Number@6..7 \"4\"",
    );
}

#[test]
fn parse_infix_expression_with_mixed_binding_power() {
    check(
        "1+2*3-4",
        "Root@0..7
  InfixExpr@0..7
    InfixExpr@0..5
      Literal@0..1
        Number@0..1 \"1\"
      Plus@1..2 \"+\"
      InfixExpr@2..5
        Literal@2..3
          Number@2..3 \"2\"
        Star@3..4 \"*\"
        Literal@4..5
          Number@4..5 \"3\"
    Minus@5..6 \"-\"
    Literal@6..7
      Number@6..7 \"4\"",
    );
}

#[test]
fn parse_negation() {
    check(
        "-10",
        "Root@0..3
  PrefixExpr@0..3
    Minus@0..1 \"-\"
    Literal@1..3
      Number@1..3 \"10\"",
    );
}

#[test]
fn negation_has_higher_binding_power_than_binary_operators() {
    check(
        "-20+20",
        "Root@0..6
  InfixExpr@0..6
    PrefixExpr@0..3
      Minus@0..1 \"-\"
      Literal@1..3
        Number@1..3 \"20\"
    Plus@3..4 \"+\"
    Literal@4..6
      Number@4..6 \"20\"",
    );
}

#[test]
fn parse_nested_parentheses() {
    check(
        "((((((10))))))",
        "Root@0..14
  ParenExpr@0..14
    LParen@0..1 \"(\"
    ParenExpr@1..13
      LParen@1..2 \"(\"
      ParenExpr@2..12
        LParen@2..3 \"(\"
        ParenExpr@3..11
          LParen@3..4 \"(\"
          ParenExpr@4..10
            LParen@4..5 \"(\"
            ParenExpr@5..9
              LParen@5..6 \"(\"
              Literal@6..8
                Number@6..8 \"10\"
              RParen@8..9 \")\"
            RParen@9..10 \")\"
          RParen@10..11 \")\"
        RParen@11..12 \")\"
      RParen@12..13 \")\"
    RParen@13..14 \")\"",
    );
}

#[test]
fn parentheses_affect_precedence() {
    check(
        "5*(2+1)",
        "Root@0..7
  InfixExpr@0..7
    Literal@0..1
      Number@0..1 \"5\"
    Star@1..2 \"*\"
    ParenExpr@2..7
      LParen@2..3 \"(\"
      InfixExpr@3..6
        Literal@3..4
          Number@3..4 \"2\"
        Plus@4..5 \"+\"
        Literal@5..6
          Number@5..6 \"1\"
      RParen@6..7 \")\"",
    );
}

#[test]
fn parse_infix_expression_interspersed_with_comments() {
    check(
        "
1
  + 1 # Add one
  + 10 # Add ten",
        "Root@0..35
  Whitespace@0..1 \"\\n\"
  InfixExpr@1..35
    InfixExpr@1..21
      Literal@1..5
        Number@1..2 \"1\"
        Whitespace@2..5 \"\\n  \"
      Plus@5..6 \"+\"
      Whitespace@6..7 \" \"
      Literal@7..21
        Number@7..8 \"1\"
        Whitespace@8..9 \" \"
        Comment@9..18 \"# Add one\"
        Whitespace@18..21 \"\\n  \"
    Plus@21..22 \"+\"
    Whitespace@22..23 \" \"
    Literal@23..35
      Number@23..25 \"10\"
      Whitespace@25..26 \" \"
      Comment@26..35 \"# Add ten\"",
    );
}

#[test]
fn parse_unclosed_parentheses() {
    check(
        "(foo",
        "Root@0..4
  ParenExpr@0..4
    LParen@0..1 \"(\"
    VariableRef@1..4
      Ident@1..4 \"foo\"
error at 1..4: expected '+', '-', '*', '/' or ')'",
    );
}

#[test]
fn parse_binary_expression_without_right_operand() {
    check(
        "10 -",
        "Root@0..4
  InfixExpr@0..4
    Literal@0..3
      Number@0..2 \"10\"
      Whitespace@2..3 \" \"
    Minus@3..4 \"-\"
error at 3..4: expected number-literal, identifier, '-' or '('",
    );
}

#[test]
fn parse_variable_definition() {
    check(
        "let foo = bar",
        "Root@0..13
  VariableDef@0..13
    LetKw@0..3 \"let\"
    Whitespace@3..4 \" \"
    Ident@4..7 \"foo\"
    Whitespace@7..8 \" \"
    Equals@8..9 \"=\"
    Whitespace@9..10 \" \"
    VariableRef@10..13
      Ident@10..13 \"bar\"",
    );
}

#[test]
fn recover_on_let_token() {
    check(
        "let a =\nlet b = a",
        "Root@0..17
  VariableDef@0..8
    LetKw@0..3 \"let\"
    Whitespace@3..4 \" \"
    Ident@4..5 \"a\"
    Whitespace@5..6 \" \"
    Equals@6..7 \"=\"
    Whitespace@7..8 \"\\n\"
  VariableDef@8..17
    LetKw@8..11 \"let\"
    Whitespace@11..12 \" \"
    Ident@12..13 \"b\"
    Whitespace@13..14 \" \"
    Equals@14..15 \"=\"
    Whitespace@15..16 \" \"
    VariableRef@16..17
      Ident@16..17 \"a\"
error at 8..11: expected number-literal, identifier, '-' or '(', but found 'let'",
    );
}

#[test]
fn parse_multiple_statements() {
    check(
        "let a = 1\na",
        "Root@0..11
  VariableDef@0..10
    LetKw@0..3 \"let\"
    Whitespace@3..4 \" \"
    Ident@4..5 \"a\"
    Whitespace@5..6 \" \"
    Equals@6..7 \"=\"
    Whitespace@7..8 \" \"
    Literal@8..10
      Number@8..9 \"1\"
      Whitespace@9..10 \"\\n\"
  VariableRef@10..11
    Ident@10..11 \"a\"",
    );
}

#[test]
fn parse_unexpected_token_is_wrapped_in_an_error_node() {
    check(
        ")",
        "Root@0..1
  Error@0..1
    RParen@0..1 \")\"
error at 0..1: expected 'let', number-literal, identifier, '-' or '(', but found ')'",
    );
}

#[test]
fn parse_long_token_is_cut_in_the_dump() {
    check(
        "abcdefghijklmnopqrstuvwxyz",
        "Root@0..26
  VariableRef@0..26
    Ident@0..26 \"abcdefghijklmnopqrstu ...\"",
    );
}

#[test]
fn parse_keeps_a_character_that_starts_no_token() {
    check(
        "1 ? 2",
        "Root@0..5
  Literal@0..2
    Number@0..1 \"1\"
    Whitespace@1..2 \" \"
  Error@2..4
    Error@2..3 \"?\"
    Whitespace@3..4 \" \"
  Literal@4..5
    Number@4..5 \"2\"
error at 2..3: expected '+', '-', '*', '/', 'let', number-literal, identifier, '-' or '(', but found an unrecognized token",
    );
}

#[test]
fn parse_keeps_a_tab() {
    check(
        "\t1",
        "Root@0..2
  Error@0..1
    Error@0..1 \"\\t\"
  Literal@1..2
    Number@1..2 \"1\"
error at 0..1: expected 'let', number-literal, identifier, '-' or '(', but found an unrecognized token",
    );
}

#[test]
fn parse_keeps_a_character_of_several_bytes() {
    check(
        "a + é",
        "Root@0..6
  InfixExpr@0..6
    VariableRef@0..2
      Ident@0..1 \"a\"
      Whitespace@1..2 \" \"
    Plus@2..3 \"+\"
    Whitespace@3..4 \" \"
    Error@4..6
      Error@4..6 \"é\"
error at 4..6: expected number-literal, identifier, '-' or '(', but found an unrecognized token",
    );
}
