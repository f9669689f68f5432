use aioi::interpreter::{run, EvalError};
use aioi::parser::parse_program;
use aioi::token::token_stream;

/// Runs a source text through the whole pipeline; panics if lexing or
/// parsing fails, returns the output lines and the evaluation result.
fn run_source(src: &str) -> (Vec<String>, Result<(), EvalError>) {
    let stream = token_stream(src).expect("couldn't parse token stream");
    let ast = parse_program(&stream).expect("couldn't parse abstract syntax tree");
    let mut out: Vec<String> = Vec::new();
    let r = run(&ast, &mut out);
    (out, r)
}

#[test]
fn declaration_overwrite() {
    let (out, r) = run_source("let x = 1\nlet x = 2\nprint x\n");
    assert!(r.is_ok());
    assert_eq!(out, vec!["2".to_string()]);
}

#[test]
fn self_reference_on_redeclare() {
    let (out, r) = run_source("let x = 1\nlet x = x + 1\nprint x\n");
    assert!(r.is_ok());
    assert_eq!(out, vec!["2".to_string()]);
}

#[test]
fn scope_leakage_by_design() {
    let (out, r) = run_source("let x = 1\nif true {\nlet x = 2\n}\nprint x\n");
    assert!(r.is_ok());
    assert_eq!(out, vec!["2".to_string()]);
}

#[test]
fn equality_kind_mismatch_fails() {
    let (out, r) = run_source("print (1 == true)\n");
    assert_eq!(r, Err(EvalError::NotAnInt));
    assert!(out.is_empty());
}

#[test]
fn right_associative_addition() {
    let (out, r) = run_source("print 1 + 2 + 3\n");
    assert!(r.is_ok());
    assert_eq!(out, vec!["6".to_string()]);
}

#[test]
fn mixed_operators_associate_right() {
    // `1 + 2 > 3` parses as `1 + (2 > 3)` (the right operand of a binary
    // operation is a full expression), so it is syntactically valid and
    // fails at evaluation time when `+` meets a boolean.
    let stream = token_stream("print 1 + 2 > 3\n").unwrap();
    let ast = parse_program(&stream).expect("grammar accepts a binary right operand");
    let mut out: Vec<String> = Vec::new();
    let r = run(&ast, &mut out);
    assert_eq!(r, Err(EvalError::NotAnInt));
    assert!(out.is_empty());
}

#[test]
fn undefined_variable_fails() {
    let (out, r) = run_source("print y\n");
    assert_eq!(r, Err(EvalError::UnboundVariable));
    assert!(out.is_empty());
}

#[test]
fn if_false_skips_block() {
    let (out, r) = run_source("if false {\nprint 1\n}\n");
    assert!(r.is_ok());
    assert!(out.is_empty());
}

#[test]
fn round_trip_full_pipeline() {
    // A manual trace: a = 2; b = a + 3 = 5; 5 > 4 so the block runs and
    // prints 5 and then `5 == 5` = true; finally `2 == 1` = false.
    let src = "let a = 2\nlet b = a + 3\nif b > 4 {\nprint b\nprint b == 5\n}\nprint (a == 1)\n";
    let (out, r) = run_source(src);
    assert!(r.is_ok());
    assert_eq!(
        out,
        vec!["5".to_string(), "true".to_string(), "false".to_string()]
    );
}

#[test]
fn condition_must_be_boolean() {
    let (out, r) = run_source("if 1 {\nprint 1\n}\n");
    assert_eq!(r, Err(EvalError::ConditionNotBool));
    assert!(out.is_empty());
}

#[test]
fn output_before_failure_is_kept() {
    let (out, r) = run_source("print 1\nprint y\n");
    assert_eq!(r, Err(EvalError::UnboundVariable));
    assert_eq!(out, vec!["1".to_string()]);
}

#[test]
fn addition_wraps_on_overflow() {
    let (out, r) = run_source("print 2147483647 + 1\n");
    assert!(r.is_ok());
    assert_eq!(out, vec!["-2147483648".to_string()]);
}

#[test]
fn parenthesized_expressions() {
    let (out, r) = run_source("print ((1 + 2))\n");
    assert!(r.is_ok());
    assert_eq!(out, vec!["3".to_string()]);
}

#[test]
fn greater_than_is_strict() {
    let (out, r) = run_source("print (2 > 3)\nprint (3 > 2)\nprint (2 > 2)\n");
    assert!(r.is_ok());
    assert_eq!(
        out,
        vec!["false".to_string(), "true".to_string(), "false".to_string()]
    );
}

#[test]
fn empty_program_runs() {
    let (out, r) = run_source("");
    assert!(r.is_ok());
    assert!(out.is_empty());
}

#[test]
fn nested_if_statements() {
    let (out, r) = run_source("if true {\nif true {\nprint 1\n}\n}\n");
    assert!(r.is_ok());
    assert_eq!(out, vec!["1".to_string()]);
}

#[test]
fn if_body_on_one_line() {
    // The declaration's own line break sits just before the closing brace.
    let (out, r) = run_source("let x = 1\nif true { let x = 2\n}\nprint x\n");
    assert!(r.is_ok());
    assert_eq!(out, vec!["2".to_string()]);
}

#[test]
fn statement_after_if_block() {
    let (out, r) = run_source("if false {\nprint 1\n}\nlet z = 9\nprint z\n");
    assert!(r.is_ok());
    assert_eq!(out, vec!["9".to_string()]);
}

#[test]
fn tabs_are_whitespace() {
    let (out, r) = run_source("print\t1\n");
    assert!(r.is_ok());
    assert_eq!(out, vec!["1".to_string()]);
}

#[test]
fn identifiers_may_contain_digits() {
    let (out, r) = run_source("let ab1 = 10\nprint ab1 + ab1\n");
    assert!(r.is_ok());
    assert_eq!(out, vec!["20".to_string()]);
}

#[test]
fn prints_boolean_values() {
    let (out, r) = run_source("let t = true\nprint t\nprint false\n");
    assert!(r.is_ok());
    assert_eq!(out, vec!["true".to_string(), "false".to_string()]);
}

#[test]
fn equality_of_booleans() {
    let (out, r) = run_source("print true == false\n");
    assert!(r.is_ok());
    assert_eq!(out, vec!["false".to_string()]);
}
