//! Syntactic analysis: turns a stream of tokens into an abstract syntax tree.
//!
//! The grammar (`{}` means zero or more):
//!
//! ```text
//! program     ::= block EOF
//! block       ::= {NEWLINE} {statement}
//! statement   ::= (declaration | if_statement | print) {NEWLINE}
//! declaration ::= LET IDENTIFIER ASSIGN expression endl
//! print       ::= PRINT expression endl
//! if_statement::= IF expression LCURLY block RCURLY
//! endl        ::= NEWLINE {NEWLINE}
//! expression  ::= binary_op | term
//! term        ::= LPAREN expression RPAREN | IDENTIFIER | INT | BOOL
//! binary_op   ::= term BINOP expression
//! ```
//!
//! A binary operation is tried before a bare term, and its left operand is
//! restricted to a single term while the right operand recurses into a full
//! expression, so chains associate to the right: `1 + 2 + 3` parses as
//! `1 + (2 + 3)`.

use crate::ast::{
    block_view, lemma_block_view_from, lemma_block_view_push, Ast,
    BinaryOperation, Expression, SpecExpr, SpecStmt, Statement,
};
use crate::token::{tokens_view, SpecToken, Token};
use vstd::prelude::*;

verus! {

/// What kind of syntactic failure occurred: no grammar alternative matched at
/// a required position, or the end of the token stream was expected but more
/// tokens remain.
#[derive(Clone, Copy, PartialEq, Eq, Structural, Debug)]
pub enum ErrorKind {
    Satisfies,
    Eof,
}

/// A syntactic failure, referencing the position of the offending token.
#[derive(Clone, Copy, PartialEq, Eq, Structural, Debug)]
pub struct AioiParseError {
    pub pos: usize,
    pub kind: ErrorKind,
}

// ---------------------------------------------------------------------------
// The grammar as mathematical functions. Each function takes the token
// sequence and a position and yields the parsed node and the position after
// it, or nothing where the rule does not match.
// ---------------------------------------------------------------------------
/// The operator a token stands for, if it is a binary operator.
pub open spec fn spec_binop(t: SpecToken) -> Option<BinaryOperation> {
    match t {
        SpecToken::GT => Some(BinaryOperation::GreaterThan),
        SpecToken::Eq => Some(BinaryOperation::EqualTo),
        SpecToken::Plus => Some(BinaryOperation::Add),
        _ => None,
    }
}

/// The first position at or after `i` that does not hold a line-break token.
pub open spec fn skip_newlines(ts: Seq<SpecToken>, i: int) -> int
    decreases ts.len() - i,
{
    if 0 <= i && i < ts.len() && ts[i] is Newline {
        skip_newlines(ts, i + 1)
    } else {
        i
    }
}

/// term ::= LPAREN expression RPAREN | IDENTIFIER | INT | BOOL
pub open spec fn spec_term(ts: Seq<SpecToken>, i: int) -> Option<(SpecExpr, int)>
    decreases ts.len() - i, 0int,
{
    if 0 <= i && i < ts.len() {
        match ts[i] {
            SpecToken::LParen => match spec_expression(ts, i + 1) {
                Some((e, j)) => if i + 1 < j && j < ts.len() && ts[j] is RParen {
                    Some((e, j + 1))
                } else {
                    None
                },
                None => None,
            },
            SpecToken::Identifier(name) => Some((SpecExpr::Variable(name), i + 1)),
            SpecToken::Int(v) => Some((SpecExpr::Int(v), i + 1)),
            SpecToken::Bool(b) => Some((SpecExpr::Bool(b), i + 1)),
            _ => None,
        }
    } else {
        None
    }
}

/// binary_op ::= term BINOP expression
pub open spec fn spec_binary_operation(ts: Seq<SpecToken>, i: int) -> Option<(SpecExpr, int)>
    decreases ts.len() - i, 1int,
{
    if 0 <= i && i <= ts.len() {
        match spec_term(ts, i) {
            Some((e1, j)) => if i < j && j < ts.len() {
                match spec_binop(ts[j]) {
                    Some(op) => match spec_expression(ts, j + 1) {
                        Some((e2, k)) => Some(
                            (SpecExpr::BinaryOperation(op, Box::new(e1), Box::new(e2)), k),
                        ),
                        None => None,
                    },
                    None => None,
                }
            } else {
                None
            },
            None => None,
        }
    } else {
        None
    }
}

/// expression ::= binary_op | term
pub open spec fn spec_expression(ts: Seq<SpecToken>, i: int) -> Option<(SpecExpr, int)>
    decreases ts.len() - i, 2int,
{
    if 0 <= i && i <= ts.len() {
        match spec_binary_operation(ts, i) {
            Some(r) => Some(r),
            None => spec_term(ts, i),
        }
    } else {
        None
    }
}

/// endl ::= NEWLINE {NEWLINE}
pub open spec fn spec_endl(ts: Seq<SpecToken>, i: int) -> Option<int> {
    if 0 <= i && i < ts.len() && ts[i] is Newline {
        Some(skip_newlines(ts, i + 1))
    } else {
        None
    }
}

/// declaration ::= LET IDENTIFIER ASSIGN expression endl
pub open spec fn spec_declaration(ts: Seq<SpecToken>, i: int) -> Option<(SpecStmt, int)>
    decreases ts.len() - i, 3int,
{
    if 0 <= i && i + 3 <= ts.len() && ts[i] is Let && ts[i + 1] is Identifier && ts[i
        + 2] is Assign {
        let name = ts[i + 1]->Identifier_0;
        match spec_expression(ts, i + 3) {
            Some((e, j)) => match spec_endl(ts, j) {
                Some(k) => Some((SpecStmt::Declaration { id: name, rvalue: e }, k)),
                None => None,
            },
            None => None,
        }
    } else {
        None
    }
}

/// print ::= PRINT expression endl
pub open spec fn spec_print_statement(ts: Seq<SpecToken>, i: int) -> Option<(SpecStmt, int)>
    decreases ts.len() - i, 3int,
{
    if 0 <= i && i < ts.len() && ts[i] is Print {
        match spec_expression(ts, i + 1) {
            Some((e, j)) => match spec_endl(ts, j) {
                Some(k) => Some((SpecStmt::Print { value: e }, k)),
                None => None,
            },
            None => None,
        }
    } else {
        None
    }
}

/// if_statement ::= IF expression LCURLY block RCURLY
pub open spec fn spec_if_statement(ts: Seq<SpecToken>, i: int) -> Option<(SpecStmt, int)>
    decreases ts.len() - i, 3int,
{
    if 0 <= i && i < ts.len() && ts[i] is If {
        match spec_expression(ts, i + 1) {
            Some((c, j)) => if i + 1 < j && j < ts.len() && ts[j] is LCurly {
                let b0 = skip_newlines(ts, j + 1);
                if j + 1 <= b0 && b0 <= ts.len() {
                    let (body, k) = spec_statements(ts, b0);
                    if b0 <= k && k < ts.len() && ts[k] is RCurly {
                        Some((SpecStmt::IfStatement { condition: c, block: body }, k + 1))
                    } else {
                        None
                    }
                } else {
                    None
                }
            } else {
                None
            },
            None => None,
        }
    } else {
        None
    }
}

/// statement ::= (declaration | if_statement | print) {NEWLINE}
pub open spec fn spec_statement(ts: Seq<SpecToken>, i: int) -> Option<(SpecStmt, int)>
    decreases ts.len() - i, 4int,
{
    if 0 <= i && i <= ts.len() {
        let inner = match spec_declaration(ts, i) {
            Some(r) => Some(r),
            None => match spec_if_statement(ts, i) {
                Some(r) => Some(r),
                None => spec_print_statement(ts, i),
            },
        };
        match inner {
            Some((s, j)) => Some((s, skip_newlines(ts, j))),
            None => None,
        }
    } else {
        None
    }
}

/// Zero or more statements, and the position where the first non-statement
/// begins. This never fails: where no statement matches, it yields the empty
/// sequence and the unchanged position.
pub open spec fn spec_statements(ts: Seq<SpecToken>, i: int) -> (Seq<SpecStmt>, int)
    decreases ts.len() - i, 5int,
{
    if 0 <= i && i <= ts.len() {
        match spec_statement(ts, i) {
            Some((s, j)) => if i < j && j <= ts.len() {
                let (rest, k) = spec_statements(ts, j);
                (seq![s] + rest, k)
            } else {
                (Seq::empty(), i)
            },
            None => (Seq::empty(), i),
        }
    } else {
        (Seq::empty(), i)
    }
}

/// block ::= {NEWLINE} {statement}
pub open spec fn spec_block(ts: Seq<SpecToken>, i: int) -> (Seq<SpecStmt>, int) {
    let j = skip_newlines(ts, i);
    if 0 <= j && j <= ts.len() {
        spec_statements(ts, j)
    } else {
        (Seq::empty(), j)
    }
}

/// program ::= block EOF: the whole token sequence must be consumed; the
/// position where the block stopped short of the end is the error position.
pub open spec fn spec_parse_program(ts: Seq<SpecToken>) -> Result<Seq<SpecStmt>, int> {
    let (stmts, j) = spec_block(ts, 0);
    if j == ts.len() {
        Ok(stmts)
    } else {
        Err(j)
    }
}

// ---------------------------------------------------------------------------
// Executable parser
// ---------------------------------------------------------------------------
fn err_at(i: usize) -> AioiParseError {
    AioiParseError { pos: i, kind: ErrorKind::Satisfies }
}

/// If the next token is a binary operator, returns its type.
fn binop_of(t: &Token) -> (r: Option<BinaryOperation>)
    ensures
        r == spec_binop(t@),
{
    match t {
        Token::GT => Some(BinaryOperation::GreaterThan),
        Token::Eq => Some(BinaryOperation::EqualTo),
        Token::Plus => Some(BinaryOperation::Add),
        _ => None,
    }
}

fn skip_newlines_exec(toks: &Vec<Token>, i: usize) -> (r: usize)
    requires
        i <= toks.len(),
    ensures
        r as int == skip_newlines(tokens_view(toks@), i as int),
        i <= r <= toks.len(),
{
    let ghost ts = tokens_view(toks@);
    let mut k: usize = i;
    while k < toks.len() && matches!(&toks[k], Token::Newline)
        invariant
            i <= k <= toks.len(),
            ts == tokens_view(toks@),
            skip_newlines(ts, i as int) == skip_newlines(ts, k as int),
        decreases toks.len() - k,
    {
        proof {
            assert(ts[k as int] == toks@[k as int]@);
            assert(skip_newlines(ts, k as int) == skip_newlines(ts, k + 1));
        }
        k = k + 1;
    }
    proof {
        if k < toks.len() {
            assert(ts[k as int] == toks@[k as int]@);
        }
    }
    k
}

/// term ::= LPAREN expression RPAREN | IDENTIFIER | INT | BOOL
fn term(toks: &Vec<Token>, i: usize) -> (r: Result<(Expression, usize), AioiParseError>)
    requires
        i <= toks.len(),
    ensures
        match r {
            Ok((e, j)) => spec_term(tokens_view(toks@), i as int) == Some((e@, j as int)) && i < j
                <= toks.len(),
            Err(_) => spec_term(tokens_view(toks@), i as int) is None,
        },
    decreases toks@.len() - i, 0int,
{
    let ghost ts = tokens_view(toks@);
    if i >= toks.len() {
        return Err(err_at(i));
    }
    proof {
        assert(ts[i as int] == toks@[i as int]@);
    }
    match &toks[i] {
        Token::LParen => {
            let (e, j) = match expression(toks, i + 1) {
                Ok(x) => x,
                Err(er) => {
                    return Err(er);
                },
            };
            if j < toks.len() {
                proof {
                    assert(ts[j as int] == toks@[j as int]@);
                }
                if matches!(&toks[j], Token::RParen) {
                    return Ok((e, j + 1));
                }
            }
            Err(err_at(j))
        },
        Token::Identifier(s) => Ok((Expression::Variable(s.clone()), i + 1)),
        Token::Int(v) => Ok((Expression::Int(*v), i + 1)),
        Token::Bool(b) => Ok((Expression::Bool(*b), i + 1)),
        _ => Err(err_at(i)),
    }
}

/// binary_op ::= term BINOP expression
fn binary_operation(toks: &Vec<Token>, i: usize) -> (r: Result<
    (Expression, usize),
    AioiParseError,
>)
    requires
        i <= toks.len(),
    ensures
        match r {
            Ok((e, k)) => spec_binary_operation(tokens_view(toks@), i as int) == Some(
                (e@, k as int),
            ) && i < k <= toks.len(),
            Err(_) => spec_binary_operation(tokens_view(toks@), i as int) is None,
        },
    decreases toks@.len() - i, 1int,
{
    let ghost ts = tokens_view(toks@);
    let (e1, j) = match term(toks, i) {
        Ok(x) => x,
        Err(er) => {
            return Err(er);
        },
    };
    if j >= toks.len() {
        return Err(err_at(j));
    }
    proof {
        assert(ts[j as int] == toks@[j as int]@);
    }
    let op = match binop_of(&toks[j]) {
        Some(op) => op,
        None => {
            return Err(err_at(j));
        },
    };
    let (e2, k) = match expression(toks, j + 1) {
        Ok(x) => x,
        Err(er) => {
            return Err(er);
        },
    };
    Ok((Expression::BinaryOperation(op, Box::new(e1), Box::new(e2)), k))
}

/// expression ::= binary_op | term
fn expression(toks: &Vec<Token>, i: usize) -> (r: Result<(Expression, usize), AioiParseError>)
    requires
        i <= toks.len(),
    ensures
        match r {
            Ok((e, j)) => spec_expression(tokens_view(toks@), i as int) == Some((e@, j as int))
                && i < j <= toks.len(),
            Err(_) => spec_expression(tokens_view(toks@), i as int) is None,
        },
    decreases toks@.len() - i, 2int,
{
    match binary_operation(toks, i) {
        Ok(x) => Ok(x),
        Err(_) => term(toks, i),
    }
}

/// endl ::= NEWLINE {NEWLINE}
fn endl(toks: &Vec<Token>, i: usize) -> (r: Option<usize>)
    requires
        i <= toks.len(),
    ensures
        match r {
            Some(k) => spec_endl(tokens_view(toks@), i as int) == Some(k as int) && i < k
                <= toks.len(),
            None => spec_endl(tokens_view(toks@), i as int) is None,
        },
{
    let ghost ts = tokens_view(toks@);
    if i < toks.len() {
        proof {
            assert(ts[i as int] == toks@[i as int]@);
        }
        if matches!(&toks[i], Token::Newline) {
            return Some(skip_newlines_exec(toks, i + 1));
        }
    }
    None
}

/// declaration ::= LET IDENTIFIER ASSIGN expression endl
fn declaration(toks: &Vec<Token>, i: usize) -> (r: Result<(Statement, usize), AioiParseError>)
    requires
        i <= toks.len(),
    ensures
        match r {
            Ok((s, k)) => spec_declaration(tokens_view(toks@), i as int) == Some((s@, k as int))
                && i < k <= toks.len(),
            Err(_) => spec_declaration(tokens_view(toks@), i as int) is None,
        },
    decreases toks@.len() - i, 3int,
{
    let ghost ts = tokens_view(toks@);
    if toks.len() - i < 3 {
        return Err(err_at(i));
    }
    proof {
        assert(ts[i as int] == toks@[i as int]@);
        assert(ts[i + 1] == toks@[i + 1]@);
        assert(ts[i + 2] == toks@[i + 2]@);
    }
    if !matches!(&toks[i], Token::Let) {
        return Err(err_at(i));
    }
    let name = match &toks[i + 1] {
        Token::Identifier(s) => s.clone(),
        _ => {
            return Err(err_at(i));
        },
    };
    if !matches!(&toks[i + 2], Token::Assign) {
        return Err(err_at(i));
    }
    let (e, j) = match expression(toks, i + 3) {
        Ok(x) => x,
        Err(er) => {
            return Err(er);
        },
    };
    let k = match endl(toks, j) {
        Some(k) => k,
        None => {
            return Err(err_at(j));
        },
    };
    Ok((Statement::Declaration { id: name, rvalue: e }, k))
}

/// print ::= PRINT expression endl
fn print_statement(toks: &Vec<Token>, i: usize) -> (r: Result<(Statement, usize), AioiParseError>)
    requires
        i <= toks.len(),
    ensures
        match r {
            Ok((s, k)) => spec_print_statement(tokens_view(toks@), i as int) == Some(
                (s@, k as int),
            ) && i < k <= toks.len(),
            Err(_) => spec_print_statement(tokens_view(toks@), i as int) is None,
        },
    decreases toks@.len() - i, 3int,
{
    let ghost ts = tokens_view(toks@);
    if i >= toks.len() {
        return Err(err_at(i));
    }
    proof {
        assert(ts[i as int] == toks@[i as int]@);
    }
    if !matches!(&toks[i], Token::Print) {
        return Err(err_at(i));
    }
    let (e, j) = match expression(toks, i + 1) {
        Ok(x) => x,
        Err(er) => {
            return Err(er);
        },
    };
    let k = match endl(toks, j) {
        Some(k) => k,
        None => {
            return Err(err_at(j));
        },
    };
    Ok((Statement::Print { value: e }, k))
}

/// if_statement ::= IF expression LCURLY block RCURLY
fn if_statement(toks: &Vec<Token>, i: usize) -> (r: Result<(Statement, usize), AioiParseError>)
    requires
        i <= toks.len(),
    ensures
        match r {
            Ok((s, k)) => spec_if_statement(tokens_view(toks@), i as int) == Some((s@, k as int))
                && i < k <= toks.len(),
            Err(_) => spec_if_statement(tokens_view(toks@), i as int) is None,
        },
    decreases toks@.len() - i, 3int,
{
    let ghost ts = tokens_view(toks@);
    if i >= toks.len() {
        return Err(err_at(i));
    }
    proof {
        assert(ts[i as int] == toks@[i as int]@);
    }
    if !matches!(&toks[i], Token::If) {
        return Err(err_at(i));
    }
    let (cond, j) = match expression(toks, i + 1) {
        Ok(x) => x,
        Err(er) => {
            return Err(er);
        },
    };
    if j >= toks.len() {
        return Err(err_at(j));
    }
    proof {
        assert(ts[j as int] == toks@[j as int]@);
    }
    if !matches!(&toks[j], Token::LCurly) {
        return Err(err_at(j));
    }
    let b0 = skip_newlines_exec(toks, j + 1);
    let (body, k) = parse_statements(toks, b0);
    if k < toks.len() {
        proof {
            assert(ts[k as int] == toks@[k as int]@);
        }
        if matches!(&toks[k], Token::RCurly) {
            return Ok((Statement::IfStatement { condition: cond, block: body }, k + 1));
        }
    }
    Err(err_at(k))
}

/// statement ::= (declaration | if_statement | print) {NEWLINE}
fn statement(toks: &Vec<Token>, i: usize) -> (r: Result<(Statement, usize), AioiParseError>)
    requires
        i <= toks.len(),
    ensures
        match r {
            Ok((s, k)) => spec_statement(tokens_view(toks@), i as int) == Some((s@, k as int))
                && i < k <= toks.len(),
            Err(_) => spec_statement(tokens_view(toks@), i as int) is None,
        },
    decreases toks@.len() - i, 4int,
{
    match declaration(toks, i) {
        Ok((s, j)) => {
            let k = skip_newlines_exec(toks, j);
            return Ok((s, k));
        },
        Err(_) => {},
    }
    match if_statement(toks, i) {
        Ok((s, j)) => {
            let k = skip_newlines_exec(toks, j);
            return Ok((s, k));
        },
        Err(_) => {},
    }
    match print_statement(toks, i) {
        Ok((s, j)) => {
            let k = skip_newlines_exec(toks, j);
            Ok((s, k))
        },
        Err(er) => Err(er),
    }
}

/// Zero or more statements; never fails.
fn parse_statements(toks: &Vec<Token>, i: usize) -> (r: (Vec<Statement>, usize))
    requires
        i <= toks.len(),
    ensures
        block_view(r.0) == spec_statements(tokens_view(toks@), i as int).0,
        r.1 as int == spec_statements(tokens_view(toks@), i as int).1,
        i <= r.1 <= toks.len(),
    decreases toks@.len() - i, 5int,
{
    let ghost ts = tokens_view(toks@);
    let mut acc: Vec<Statement> = Vec::new();
    let mut cur: usize = i;
    proof {
        lemma_block_view_from(acc, 0);
    }
    loop
        invariant
            i <= cur <= toks.len(),
            ts == tokens_view(toks@),
            spec_statements(ts, i as int).0 == block_view(acc) + spec_statements(
                ts,
                cur as int,
            ).0,
            spec_statements(ts, i as int).1 == spec_statements(ts, cur as int).1,
        decreases toks@.len() - cur,
    {
        match statement(toks, cur) {
            Ok((s, k)) => {
                let ghost acc0 = acc;
                acc.push(s);
                proof {
                    lemma_block_view_push(acc0, acc, s);
                    assert(block_view(acc) =~= block_view(acc0) + seq![s@]);
                    assert((block_view(acc0) + seq![s@]) + spec_statements(ts, k as int).0
                        =~= block_view(acc0) + (seq![s@] + spec_statements(ts, k as int).0));
                }
                cur = k;
            },
            Err(_) => {
                proof {
                    assert(block_view(acc) + Seq::<SpecStmt>::empty() =~= block_view(acc));
                }
                return (acc, cur);
            },
        }
    }
}

/// block ::= {NEWLINE} {statement}; never fails.
fn block(toks: &Vec<Token>, i: usize) -> (r: (Vec<Statement>, usize))
    requires
        i <= toks.len(),
    ensures
        block_view(r.0) == spec_block(tokens_view(toks@), i as int).0,
        r.1 as int == spec_block(tokens_view(toks@), i as int).1,
        i <= r.1 <= toks.len(),
{
    let j = skip_newlines_exec(toks, i);
    parse_statements(toks, j)
}

/// program ::= block EOF
///
/// Produces the abstract syntax tree of the whole token sequence, or a
/// syntactic failure. A failure carries the position where the statements
/// stopped short of the end of the stream, with the end-of-input kind, as the
/// grammar requires the entire stream to be consumed.
pub fn parse_program(input: &Vec<Token>) -> (r: Result<Ast, AioiParseError>)
    ensures
        match r {
            Ok(ast) => spec_parse_program(tokens_view(input@)) == Ok::<Seq<SpecStmt>, int>(ast@),
            Err(e) => spec_parse_program(tokens_view(input@)) == Err::<Seq<SpecStmt>, int>(
                e.pos as int,
            ) && e.kind == ErrorKind::Eof,
        },
{
    let (stmts, j) = block(input, 0);
    if j == input.len() {
        Ok(Ast { statements: stmts })
    } else {
        Err(AioiParseError { pos: j, kind: ErrorKind::Eof })
    }
}

// ---------------------------------------------------------------------------
// Round trip: a concrete-syntax renderer consistent with the grammar, and
// the proof that parsing inverts it.
// ---------------------------------------------------------------------------
/// The token a binary operator renders to.
pub open spec fn binop_token(op: BinaryOperation) -> SpecToken {
    match op {
        BinaryOperation::GreaterThan => SpecToken::GT,
        BinaryOperation::EqualTo => SpecToken::Eq,
        BinaryOperation::Add => SpecToken::Plus,
    }
}

/// The concrete token sequence of an expression. The left operand of a
/// binary operation is always parenthesized, since the grammar restricts it
/// to a single term.
pub open spec fn render_expr(e: SpecExpr) -> Seq<SpecToken>
    decreases e,
{
    match e {
        SpecExpr::Variable(name) => seq![SpecToken::Identifier(name)],
        SpecExpr::Int(v) => seq![SpecToken::Int(v)],
        SpecExpr::Bool(b) => seq![SpecToken::Bool(b)],
        SpecExpr::BinaryOperation(op, l, r) => seq![SpecToken::LParen] + render_expr(*l) + seq![
            SpecToken::RParen,
            binop_token(op),
        ] + render_expr(*r),
    }
}

/// The concrete token sequence of a statement: declarations and prints end
/// with one line break, an if-statement wraps its block in curly braces.
pub open spec fn render_stmt(s: SpecStmt) -> Seq<SpecToken>
    decreases s,
{
    match s {
        SpecStmt::Declaration { id, rvalue } => seq![
            SpecToken::Let,
            SpecToken::Identifier(id),
            SpecToken::Assign,
        ] + render_expr(rvalue) + seq![SpecToken::Newline],
        SpecStmt::IfStatement { condition, block } => seq![SpecToken::If] + render_expr(condition)
            + seq![SpecToken::LCurly] + render_stmts(block) + seq![SpecToken::RCurly],
        SpecStmt::Print { value } => seq![SpecToken::Print] + render_expr(value) + seq![
            SpecToken::Newline,
        ],
    }
}

/// The concrete token sequence of a sequence of statements, in order.
pub open spec fn render_stmts(ss: Seq<SpecStmt>) -> Seq<SpecToken>
    decreases ss,
{
    if ss.len() == 0 {
        Seq::empty()
    } else {
        render_stmt(ss[0]) + render_stmts(ss.subrange(1, ss.len() as int))
    }
}

/// `ts` holds the tokens `w` starting at position `i`.
pub open spec fn tokens_at(ts: Seq<SpecToken>, i: int, w: Seq<SpecToken>) -> bool {
    &&& 0 <= i
    &&& i + w.len() <= ts.len()
    &&& forall|m: int| 0 <= m < w.len() ==> ts[i + m] == w[m]
}

/// A match of a concatenation splits into matches of its parts.
proof fn lemma_tokens_at_split(ts: Seq<SpecToken>, i: int, a: Seq<SpecToken>, b: Seq<SpecToken>)
    requires
        tokens_at(ts, i, a + b),
    ensures
        tokens_at(ts, i, a),
        tokens_at(ts, i + a.len(), b),
{
    assert forall|m: int| 0 <= m < a.len() implies ts[i + m] == a[m] by {
        assert(ts[i + m] == (a + b)[m]);
    }
    assert forall|m: int| 0 <= m < b.len() implies ts[i + a.len() + m] == b[m] by {
        assert(ts[i + (a.len() + m)] == (a + b)[a.len() + m]);
    }
}

/// One token of a match, by index.
proof fn lemma_tokens_at_index(ts: Seq<SpecToken>, i: int, w: Seq<SpecToken>, m: int)
    requires
        tokens_at(ts, i, w),
        0 <= m < w.len(),
    ensures
        ts[i + m] == w[m],
{
}

/// Every rendered expression is at least one token long.
proof fn lemma_render_expr_nonempty(e: SpecExpr)
    ensures
        render_expr(e).len() >= 1,
{
}

/// Every rendered statement starts with the keyword of its kind.
proof fn lemma_render_stmt_head(s: SpecStmt)
    ensures
        render_stmt(s).len() >= 1,
        render_stmt(s)[0] is Let || render_stmt(s)[0] is If || render_stmt(s)[0] is Print,
{
    match s {
        SpecStmt::Declaration { id, rvalue } => {
            assert(render_stmt(s)[0] == SpecToken::Let);
        },
        SpecStmt::IfStatement { condition, block } => {
            assert(render_stmt(s)[0] == SpecToken::If);
        },
        SpecStmt::Print { value } => {
            assert(render_stmt(s)[0] == SpecToken::Print);
        },
    }
}

/// At a position that holds the end of the input, a closing curly brace, or
/// any token no statement starts with, no statement matches.
proof fn lemma_no_statement_at(ts: Seq<SpecToken>, i: int)
    requires
        0 <= i <= ts.len(),
        i == ts.len() || !(ts[i] is Let || ts[i] is If || ts[i] is Print),
    ensures
        spec_statement(ts, i) is None,
{
}

/// Parsing inverts rendering for expressions: at a position holding the
/// rendering of `e`, not followed directly by a binary-operator token, the
/// expression rule yields exactly `e` and stops exactly after the rendering.
proof fn lemma_parse_render_expr(ts: Seq<SpecToken>, i: int, e: SpecExpr)
    requires
        tokens_at(ts, i, render_expr(e)),
        i + render_expr(e).len() == ts.len() || spec_binop(ts[i + render_expr(e).len()]) is None,
    ensures
        spec_expression(ts, i) == Some((e, i + render_expr(e).len())),
    decreases e,
{
    let re = render_expr(e);
    let n = re.len();
    let end = i + n;
    match e {
        SpecExpr::Variable(_) | SpecExpr::Int(_) | SpecExpr::Bool(_) => {
            assert(ts[i + 0] == re[0]);
            assert(spec_term(ts, i) == Some((e, i + 1)));
            assert(spec_binary_operation(ts, i) is None);
        },
        SpecExpr::BinaryOperation(op, l, r) => {
            let rl = render_expr(*l);
            let rr = render_expr(*r);
            let mid = seq![SpecToken::RParen, binop_token(op)];
            lemma_render_expr_nonempty(*l);
            lemma_render_expr_nonempty(*r);
            assert(re == seq![SpecToken::LParen] + rl + mid + rr);
            lemma_tokens_at_split(ts, i, seq![SpecToken::LParen] + rl + mid, rr);
            lemma_tokens_at_split(ts, i, seq![SpecToken::LParen] + rl, mid);
            lemma_tokens_at_split(ts, i, seq![SpecToken::LParen], rl);
            lemma_tokens_at_index(ts, i, seq![SpecToken::LParen], 0);
            assert(ts[i + 0] == SpecToken::LParen);
            let jr = i + 1 + rl.len();
            lemma_tokens_at_index(ts, jr, mid, 0);
            lemma_tokens_at_index(ts, jr, mid, 1);
            assert(ts[jr + 0] == SpecToken::RParen);
            assert(ts[jr + 1] == binop_token(op));
            // The inner expression is followed by the closing parenthesis,
            // which is not a binary operator.
            lemma_parse_render_expr(ts, i + 1, *l);
            assert(spec_term(ts, i) == Some((*l, jr + 1)));
            // The right operand is followed by whatever follows the whole
            // rendering.
            lemma_parse_render_expr(ts, jr + 2, *r);
            assert(spec_binop(binop_token(op)) == Some(op));
            assert(spec_binary_operation(ts, i) == Some((e, end)));
        },
    }
}

/// Parsing inverts rendering for one statement, provided no further line
/// break follows directly (the next token, if any, starts a statement or
/// closes a block).
proof fn lemma_parse_render_stmt(ts: Seq<SpecToken>, i: int, s: SpecStmt)
    requires
        tokens_at(ts, i, render_stmt(s)),
        i + render_stmt(s).len() == ts.len() || !(ts[i + render_stmt(s).len()] is Newline),
    ensures
        spec_statement(ts, i) == Some((s, i + render_stmt(s).len())),
    decreases s,
{
    let rs = render_stmt(s);
    let end = i + rs.len();
    match s {
        SpecStmt::Declaration { id, rvalue } => {
            let re = render_expr(rvalue);
            let head = seq![SpecToken::Let, SpecToken::Identifier(id), SpecToken::Assign];
            assert(rs == head + re + seq![SpecToken::Newline]);
            lemma_tokens_at_split(ts, i, head + re, seq![SpecToken::Newline]);
            lemma_tokens_at_split(ts, i, head, re);
            lemma_tokens_at_index(ts, i, head, 0);
            lemma_tokens_at_index(ts, i, head, 1);
            lemma_tokens_at_index(ts, i, head, 2);
            assert(ts[i + 0] == SpecToken::Let);
            assert(ts[i + 1] == SpecToken::Identifier(id));
            assert(ts[i + 2] == SpecToken::Assign);
            let j = i + 3 + re.len();
            lemma_tokens_at_index(ts, j, seq![SpecToken::Newline], 0);
            assert(ts[j + 0] == SpecToken::Newline);
            lemma_parse_render_expr(ts, i + 3, rvalue);
            assert(skip_newlines(ts, end) == end);
            assert(spec_endl(ts, j) == Some(end));
            assert(spec_declaration(ts, i) == Some((s, end)));
        },
        SpecStmt::Print { value } => {
            let re = render_expr(value);
            assert(rs == seq![SpecToken::Print] + re + seq![SpecToken::Newline]);
            lemma_tokens_at_split(ts, i, seq![SpecToken::Print] + re, seq![SpecToken::Newline]);
            lemma_tokens_at_split(ts, i, seq![SpecToken::Print], re);
            lemma_tokens_at_index(ts, i, seq![SpecToken::Print], 0);
            assert(ts[i + 0] == SpecToken::Print);
            let j = i + 1 + re.len();
            lemma_tokens_at_index(ts, j, seq![SpecToken::Newline], 0);
            assert(ts[j + 0] == SpecToken::Newline);
            lemma_parse_render_expr(ts, i + 1, value);
            assert(skip_newlines(ts, end) == end);
            assert(spec_endl(ts, j) == Some(end));
            assert(spec_declaration(ts, i) is None);
            assert(spec_if_statement(ts, i) is None);
            assert(spec_print_statement(ts, i) == Some((s, end)));
        },
        SpecStmt::IfStatement { condition, block } => {
            let re = render_expr(condition);
            let rb = render_stmts(block);
            lemma_render_expr_nonempty(condition);
            assert(rs == seq![SpecToken::If] + re + seq![SpecToken::LCurly] + rb + seq![
                SpecToken::RCurly,
            ]);
            lemma_tokens_at_split(
                ts,
                i,
                seq![SpecToken::If] + re + seq![SpecToken::LCurly] + rb,
                seq![SpecToken::RCurly],
            );
            lemma_tokens_at_split(ts, i, seq![SpecToken::If] + re + seq![SpecToken::LCurly], rb);
            lemma_tokens_at_split(ts, i, seq![SpecToken::If] + re, seq![SpecToken::LCurly]);
            lemma_tokens_at_split(ts, i, seq![SpecToken::If], re);
            lemma_tokens_at_index(ts, i, seq![SpecToken::If], 0);
            assert(ts[i + 0] == SpecToken::If);
            let j = i + 1 + re.len();
            lemma_tokens_at_index(ts, j, seq![SpecToken::LCurly], 0);
            assert(ts[j + 0] == SpecToken::LCurly);
            let k = j + 1 + rb.len();
            lemma_tokens_at_index(ts, k, seq![SpecToken::RCurly], 0);
            assert(ts[k + 0] == SpecToken::RCurly);
            lemma_parse_render_expr(ts, i + 1, condition);
            // The block's statements begin right after the brace: the first
            // token there is a statement keyword or the closing brace, never
            // a line break.
            if rb.len() > 0 {
                lemma_render_stmts_head(block);
                lemma_tokens_at_index(ts, j + 1, rb, 0);
                assert(ts[j + 1] == rb[0]);
            }
            assert(skip_newlines(ts, j + 1) == j + 1);
            lemma_parse_render_stmts(ts, j + 1, block);
            assert(spec_declaration(ts, i) is None);
            assert(spec_if_statement(ts, i) == Some((s, end)));
            assert(skip_newlines(ts, end) == end);
        },
    }
}

/// A nonempty rendered statement list starts with a statement keyword.
proof fn lemma_render_stmts_head(ss: Seq<SpecStmt>)
    requires
        ss.len() > 0,
    ensures
        render_stmts(ss).len() >= 1,
        render_stmts(ss)[0] is Let || render_stmts(ss)[0] is If || render_stmts(ss)[0] is Print,
{
    lemma_render_stmt_head(ss[0]);
    assert(render_stmts(ss)[0] == render_stmt(ss[0])[0]);
}

/// Parsing inverts rendering for statement lists: at a position holding the
/// rendering of `ss`, followed by the end of the input or a closing curly
/// brace, the statement-list rule yields exactly `ss` and stops exactly
/// after the rendering.
proof fn lemma_parse_render_stmts(ts: Seq<SpecToken>, i: int, ss: Seq<SpecStmt>)
    requires
        tokens_at(ts, i, render_stmts(ss)),
        i + render_stmts(ss).len() == ts.len() || ts[i + render_stmts(ss).len()] is RCurly,
    ensures
        spec_statements(ts, i) == (ss, i + render_stmts(ss).len()),
    decreases ss,
{
    let rss = render_stmts(ss);
    let end = i + rss.len();
    if ss.len() == 0 {
        lemma_no_statement_at(ts, i);
    } else {
        let s0 = ss[0];
        let rest = ss.subrange(1, ss.len() as int);
        lemma_tokens_at_split(ts, i, render_stmt(s0), render_stmts(rest));
        let j = i + render_stmt(s0).len();
        // What follows the first statement is the next statement's keyword,
        // or the very end of the list: never a line break.
        if render_stmts(rest).len() > 0 {
            assert(rest.len() > 0) by {
                if rest.len() == 0 {
                    assert(render_stmts(rest).len() == 0);
                }
            }
            lemma_render_stmts_head(rest);
            lemma_tokens_at_index(ts, j, render_stmts(rest), 0);
            assert(ts[j + 0] == render_stmts(rest)[0]);
        }
        lemma_parse_render_stmt(ts, i, s0);
        lemma_render_stmt_head(s0);
        lemma_parse_render_stmts(ts, j, rest);
        assert(seq![s0] + rest =~= ss);
    }
}

/// Round trip: every program, rendered to a concrete token sequence by a
/// printer consistent with the grammar, parses back to exactly itself. With
/// [`parse_program`]'s and [`crate::interpreter::run`]'s contracts, running
/// the parse of the rendering therefore produces exactly the trace of the
/// program's own statements.
pub proof fn lemma_parse_render_program(p: Seq<SpecStmt>)
    ensures
        spec_parse_program(render_stmts(p)) == Ok::<Seq<SpecStmt>, int>(p),
{
    let ts = render_stmts(p);
    assert(tokens_at(ts, 0, ts));
    if p.len() > 0 {
        lemma_render_stmts_head(p);
    }
    assert(skip_newlines(ts, 0) == 0);
    lemma_parse_render_stmts(ts, 0, p);
}

} // verus!
