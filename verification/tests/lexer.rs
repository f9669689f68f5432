use aioi::ast::{Ast, BinaryOperation, Expression, Statement};
use aioi::parser::{parse_program, ErrorKind};
use aioi::token::{token_stream, Token};

#[test]
fn double_equals_is_one_token() {
    let toks = token_stream("==").unwrap();
    assert_eq!(toks, vec![Token::Eq]);
}

#[test]
fn tokenizes_a_declaration() {
    let toks = token_stream("let x = 41\n").unwrap();
    assert_eq!(
        toks,
        vec![
            Token::Let,
            Token::Identifier("x".to_string()),
            Token::Assign,
            Token::Int(41),
            Token::Newline,
        ]
    );
}

#[test]
fn boolean_matches_by_prefix() {
    // `true` is tried before keyword-or-identifier, and it matches as a
    // prefix, so `truex` lexes as the literal `true` followed by `x`.
    let toks = token_stream("truex").unwrap();
    assert_eq!(
        toks,
        vec![Token::Bool(true), Token::Identifier("x".to_string())]
    );
}

#[test]
fn keyword_must_match_whole_word() {
    let toks = token_stream("lets").unwrap();
    assert_eq!(toks, vec![Token::Identifier("lets".to_string())]);
}

#[test]
fn zero_does_not_start_a_longer_number() {
    let toks = token_stream("012").unwrap();
    assert_eq!(toks, vec![Token::Int(0), Token::Int(12)]);
}

#[test]
fn int_literal_must_fit_in_32_bits() {
    assert!(token_stream("2147483648").is_err());
    let toks = token_stream("2147483647").unwrap();
    assert_eq!(toks, vec![Token::Int(2147483647)]);
}

#[test]
fn carriage_return_newline() {
    let toks = token_stream("print 1\r\n").unwrap();
    assert_eq!(toks, vec![Token::Print, Token::Int(1), Token::Newline]);
}

#[test]
fn unknown_character_is_a_lexical_error() {
    // The spaces before the offending character stay unconsumed once the
    // token match fails, but the previous token's trailing spaces are gone:
    // the reported position is right at `$`.
    let e = token_stream("let $ = 1\n").unwrap_err();
    assert_eq!(e.pos, 4);
}

#[test]
fn empty_source_lexes_to_nothing() {
    assert_eq!(token_stream("").unwrap(), vec![]);
}

#[test]
fn whitespace_only_source_is_an_error() {
    // Trailing spaces that follow no token are never consumed, so input made
    // of whitespace alone does not reach the end of input exactly.
    assert!(token_stream("  ").is_err());
}

#[test]
fn token_payload_accessors() {
    assert_eq!(Token::Int(7).int_value(), 7);
    assert_eq!(
        Token::Identifier("abc".to_string()).identifier(),
        "abc".to_string()
    );
    assert!(Token::Bool(true).bool());
    assert!(!Token::Bool(false).bool());
}

#[test]
fn parse_error_reports_position_and_kind() {
    // `let x 5` matches no statement, so the block ends at position 0 with
    // tokens remaining: an end-of-input kind of failure.
    let toks = token_stream("let x 5\n").unwrap();
    let e = parse_program(&toks).unwrap_err();
    assert_eq!(e.pos, 0);
    assert_eq!(e.kind, ErrorKind::Eof);
}

#[test]
fn statement_needs_a_line_break() {
    // `print 1` without a trailing newline does not satisfy `endl`.
    let toks = token_stream("print 1").unwrap();
    assert!(parse_program(&toks).is_err());
}

#[test]
fn missing_closing_brace_is_an_error() {
    let toks = token_stream("if true {\nprint 1\n").unwrap();
    assert!(parse_program(&toks).is_err());
}

#[test]
fn parses_manually_built_tokens() {
    let toks = vec![Token::Print, Token::Int(1), Token::Newline];
    let ast = parse_program(&toks).unwrap();
    assert_eq!(
        ast,
        Ast {
            statements: vec![Statement::Print { value: Expression::Int(1) }],
        }
    );
}

#[test]
fn binary_operation_shape() {
    let toks = token_stream("let y = 1 + 2 + 3\n").unwrap();
    let ast = parse_program(&toks).unwrap();
    assert_eq!(ast.statements.len(), 1);
    match &ast.statements[0] {
        Statement::Declaration { id, rvalue } => {
            assert_eq!(id, "y");
            // Right-associative by construction: 1 + (2 + 3).
            let expected = Expression::BinaryOperation(
                BinaryOperation::Add,
                Box::new(Expression::Int(1)),
                Box::new(Expression::BinaryOperation(
                    BinaryOperation::Add,
                    Box::new(Expression::Int(2)),
                    Box::new(Expression::Int(3)),
                )),
            );
            assert_eq!(rvalue, &expected);
        }
        other => panic!("expected a declaration, got {:?}", other),
    }
}

#[test]
fn identifier_starting_like_a_boolean() {
    // A word beginning with the characters of `true` can never survive a
    // round trip through the lexer: the boolean rule claims its prefix.
    let toks = token_stream("print truely\n").unwrap();
    assert_eq!(
        toks,
        vec![
            Token::Print,
            Token::Bool(true),
            Token::Identifier("ly".to_string()),
            Token::Newline,
        ]
    );
}
