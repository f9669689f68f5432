//! A concrete-syntax printer consistent with the grammar, and the proof that
//! the whole front end inverts it: rendering any well-formed program to
//! source text, tokenizing that text, and parsing the tokens yields exactly
//! the program again. Together with the evaluator's contract, running the
//! parsed program then produces exactly the trace of the program itself.
//!
//! Well-formedness asks only what the concrete syntax can express at all: a
//! variable name must be a word the tokenizer would read back as the same
//! identifier (so not a keyword, not starting like a boolean literal), and an
//! integer literal must be nonnegative, since the grammar has no minus sign.

use crate::ast::{SpecExpr, SpecStmt};
use crate::interpreter::{digit_char, spec_nat_str};
use crate::parser::{
    binop_token, lemma_parse_render_program, render_expr, render_stmt, render_stmts,
    spec_parse_program,
};
use crate::token::{
    alnum_end, digit_val, digits_end, digits_val, is_alnum_char, is_alpha_char, is_digit_char,
    is_onenine_char, is_space_char, lemma_not_bool, skip_spaces, spec_next_token, spec_tokenize,
    spec_tokenize_from, starts_with_at, try_bool, try_int, try_punct, try_word, word_false,
    word_if, word_let, word_print, word_token, word_true, SpecToken,
};
use vstd::prelude::*;

verus! {

/// A variable name the tokenizer reads back as the same identifier: a
/// letter followed by letters and digits, not a keyword, and not beginning
/// with the characters of a boolean literal.
pub open spec fn wf_name(n: Seq<char>) -> bool {
    &&& n.len() >= 1
    &&& is_alpha_char(n[0])
    &&& (forall|m: int| 0 <= m < n.len() ==> is_alnum_char(#[trigger] n[m]))
    &&& n != word_let()
    &&& n != word_if()
    &&& n != word_print()
    &&& !(n.len() >= 4 && n[0] == 't' && n[1] == 'r' && n[2] == 'u' && n[3] == 'e')
    &&& !(n.len() >= 5 && n[0] == 'f' && n[1] == 'a' && n[2] == 'l' && n[3] == 's' && n[4] == 'e')
}

/// A token the concrete syntax can express.
pub open spec fn wf_token(t: SpecToken) -> bool {
    match t {
        SpecToken::Identifier(n) => wf_name(n),
        SpecToken::Int(v) => v >= 0,
        _ => true,
    }
}

pub open spec fn wf_tokens(ts: Seq<SpecToken>) -> bool {
    forall|m: int| 0 <= m < ts.len() ==> wf_token(#[trigger] ts[m])
}

/// An expression the concrete syntax can express: every variable name is
/// well formed and every integer literal is nonnegative.
pub open spec fn wf_expr(e: SpecExpr) -> bool
    decreases e,
{
    match e {
        SpecExpr::Variable(n) => wf_name(n),
        SpecExpr::Int(v) => v >= 0,
        SpecExpr::Bool(_) => true,
        SpecExpr::BinaryOperation(_, l, r) => wf_expr(*l) && wf_expr(*r),
    }
}

/// A statement the concrete syntax can express.
pub open spec fn wf_stmt(s: SpecStmt) -> bool
    decreases s,
{
    match s {
        SpecStmt::Declaration { id, rvalue } => wf_name(id) && wf_expr(rvalue),
        SpecStmt::IfStatement { condition, block } => wf_expr(condition) && wf_stmts(block),
        SpecStmt::Print { value } => wf_expr(value),
    }
}

/// A program the concrete syntax can express.
pub open spec fn wf_stmts(ss: Seq<SpecStmt>) -> bool
    decreases ss,
{
    if ss.len() == 0 {
        true
    } else {
        wf_stmt(ss[0]) && wf_stmts(ss.subrange(1, ss.len() as int))
    }
}

/// The characters of one token.
pub open spec fn token_text(t: SpecToken) -> Seq<char> {
    match t {
        SpecToken::Identifier(n) => n,
        SpecToken::Int(v) => spec_nat_str(v as int),
        SpecToken::Bool(b) => if b {
            word_true()
        } else {
            word_false()
        },
        SpecToken::Let => word_let(),
        SpecToken::If => word_if(),
        SpecToken::Print => word_print(),
        SpecToken::Assign => seq!['='],
        SpecToken::LParen => seq!['('],
        SpecToken::RParen => seq![')'],
        SpecToken::LCurly => seq!['{'],
        SpecToken::RCurly => seq!['}'],
        SpecToken::GT => seq!['>'],
        SpecToken::Eq => seq!['=', '='],
        SpecToken::Plus => seq!['+'],
        SpecToken::Newline => seq!['\n'],
    }
}

/// The source text of a token sequence: each token followed by one space.
pub open spec fn render_text(ts: Seq<SpecToken>) -> Seq<char>
    decreases ts,
{
    if ts.len() == 0 {
        Seq::empty()
    } else {
        token_text(ts[0]) + seq![' '] + render_text(ts.subrange(1, ts.len() as int))
    }
}

/// One character of a word match, by index.
proof fn lemma_chars_at_index(s: Seq<char>, i: int, w: Seq<char>, m: int)
    requires
        starts_with_at(s, i, w),
        0 <= m < w.len(),
    ensures
        s[i + m] == w[m],
{
}

/// A match of a concatenation splits into matches of its parts.
proof fn lemma_chars_at_split(s: Seq<char>, i: int, a: Seq<char>, b: Seq<char>)
    requires
        starts_with_at(s, i, a + b),
    ensures
        starts_with_at(s, i, a),
        starts_with_at(s, i + a.len(), b),
{
    assert forall|m: int| 0 <= m < a.len() implies s[i + m] == a[m] by {
        assert(s[i + m] == (a + b)[m]);
    }
    assert forall|m: int| 0 <= m < b.len() implies s[i + a.len() + m] == b[m] by {
        assert(s[i + (a.len() + m)] == (a + b)[a.len() + m]);
    }
}

/// The decimal rendering of a nonnegative number is a nonempty digit run
/// with a nonzero leading digit unless the number is zero itself.
proof fn lemma_nat_str_shape(n: int)
    requires
        n >= 0,
    ensures
        spec_nat_str(n).len() >= 1,
        forall|m: int| 0 <= m < spec_nat_str(n).len() ==> is_digit_char(#[trigger] spec_nat_str(n)[m]),
        n >= 1 ==> is_onenine_char(spec_nat_str(n)[0]),
    decreases n,
{
    if n < 10 {
    } else {
        lemma_nat_str_shape(n / 10);
        let pre = spec_nat_str(n / 10);
        assert forall|m: int| 0 <= m < spec_nat_str(n).len() implies is_digit_char(
            #[trigger] spec_nat_str(n)[m],
        ) by {
            if m < pre.len() {
                assert(spec_nat_str(n)[m] == pre[m]);
            } else {
                assert(spec_nat_str(n)[m] == digit_char(n % 10));
            }
        }
        assert(spec_nat_str(n)[0] == pre[0]);
    }
}

/// Reading back the decimal rendering of a number recovers the number.
proof fn lemma_digits_val_of_nat_str(s: Seq<char>, i: int, n: int)
    requires
        n >= 0,
        starts_with_at(s, i, spec_nat_str(n)),
    ensures
        digits_val(s, i, i + spec_nat_str(n).len()) == n,
    decreases n,
{
    if n < 10 {
        lemma_chars_at_index(s, i, spec_nat_str(n), 0);
        assert(spec_nat_str(n) == seq![digit_char(n)]);
        assert(spec_nat_str(n)[0] == digit_char(n));
        assert(digits_val(s, i, i) == 0);
        assert(digits_val(s, i, i + 1) == digit_val(digit_char(n)));
    } else {
        let pre = spec_nat_str(n / 10);
        assert(spec_nat_str(n) == pre + seq![digit_char(n % 10)]);
        lemma_chars_at_split(s, i, pre, seq![digit_char(n % 10)]);
        lemma_digits_val_of_nat_str(s, i, n / 10);
        lemma_chars_at_index(s, i + pre.len(), seq![digit_char(n % 10)], 0);
        assert(digits_val(s, i, i + pre.len() + 1) == digits_val(s, i, i + pre.len()) * 10
            + digit_val(s[i + pre.len()]));
    }
}

/// Where the characters of `[i, j)` are digits and `j` holds none, the digit
/// run starting at `i` ends exactly at `j`.
proof fn lemma_digits_end_at(s: Seq<char>, i: int, j: int)
    requires
        0 <= i <= j <= s.len(),
        forall|m: int| i <= m < j ==> is_digit_char(#[trigger] s[m]),
        j == s.len() || !is_digit_char(s[j]),
    ensures
        digits_end(s, i) == j,
    decreases j - i,
{
    if i < j {
        assert(is_digit_char(s[i]));
        lemma_digits_end_at(s, i + 1, j);
    }
}

/// Where the characters of `[i, j)` are letters or digits and `j` holds
/// neither, the word starting at `i` ends exactly at `j`.
proof fn lemma_alnum_end_at(s: Seq<char>, i: int, j: int)
    requires
        0 <= i <= j <= s.len(),
        forall|m: int| i <= m < j ==> is_alnum_char(#[trigger] s[m]),
        j == s.len() || !is_alnum_char(s[j]),
    ensures
        alnum_end(s, i) == j,
    decreases j - i,
{
    if i < j {
        assert(is_alnum_char(s[i]));
        lemma_alnum_end_at(s, i + 1, j);
    }
}

/// No token's text begins with a space or tab.
proof fn lemma_token_text_head(t: SpecToken)
    requires
        wf_token(t),
    ensures
        token_text(t).len() >= 1,
        !is_space_char(token_text(t)[0]),
{
    match t {
        SpecToken::Int(v) => {
            lemma_nat_str_shape(v as int);
        },
        _ => {},
    }
}

/// At the text of a well-formed token followed by a space, the tokenizer
/// reads back exactly that token.
proof fn lemma_next_token_of_text(s: Seq<char>, i: int, t: SpecToken)
    requires
        wf_token(t),
        starts_with_at(s, i, token_text(t)),
        i + token_text(t).len() < s.len(),
        s[i + token_text(t).len()] == ' ',
    ensures
        spec_next_token(s, i) == Some((t, i + token_text(t).len())),
{
    let w = token_text(t);
    let n = w.len();
    let end = i + n;
    lemma_token_text_head(t);
    lemma_chars_at_index(s, i, w, 0);
    match t {
        SpecToken::Identifier(name) => {
            assert(s[i] == name[0]);
            // Not an integer: the first character is a letter.
            assert(try_int(s, i) is None);
            // Not a boolean literal: the name neither begins with the whole
            // word `true`/`false` nor is cut short before one ends, since a
            // space follows it.
            assert(!starts_with_at(s, i, word_true())) by {
                if starts_with_at(s, i, word_true()) {
                    lemma_chars_at_index(s, i, word_true(), 0);
                    lemma_chars_at_index(s, i, word_true(), 1);
                    lemma_chars_at_index(s, i, word_true(), 2);
                    lemma_chars_at_index(s, i, word_true(), 3);
                    if n >= 4 {
                        lemma_chars_at_index(s, i, name, 1);
                        lemma_chars_at_index(s, i, name, 2);
                        lemma_chars_at_index(s, i, name, 3);
                    } else {
                        lemma_chars_at_index(s, i, name, n - 1);
                    }
                }
            }
            assert(!starts_with_at(s, i, word_false())) by {
                if starts_with_at(s, i, word_false()) {
                    lemma_chars_at_index(s, i, word_false(), 0);
                    lemma_chars_at_index(s, i, word_false(), 1);
                    lemma_chars_at_index(s, i, word_false(), 2);
                    lemma_chars_at_index(s, i, word_false(), 3);
                    lemma_chars_at_index(s, i, word_false(), 4);
                    if n >= 5 {
                        lemma_chars_at_index(s, i, name, 1);
                        lemma_chars_at_index(s, i, name, 2);
                        lemma_chars_at_index(s, i, name, 3);
                        lemma_chars_at_index(s, i, name, 4);
                    } else {
                        lemma_chars_at_index(s, i, name, n - 1);
                    }
                }
            }
            assert(try_bool(s, i) is None);
            // The word rule reads the name back whole.
            assert forall|m: int| i <= m < end implies is_alnum_char(#[trigger] s[m]) by {
                lemma_chars_at_index(s, i, name, m - i);
            }
            lemma_alnum_end_at(s, i, end);
            assert(s.subrange(i, end) =~= name);
            assert(word_token(name) == SpecToken::Identifier(name));
            assert(try_word(s, i) == Some((t, end)));
        },
        SpecToken::Int(v) => {
            if v == 0 {
                assert(s[i] == digit_char(0));
                assert(try_int(s, i) == Some((t, i + 1)));
            } else {
                lemma_nat_str_shape(v as int);
                assert(s[i] != '0');
                assert forall|m: int| i <= m < end implies is_digit_char(#[trigger] s[m]) by {
                    lemma_chars_at_index(s, i, w, m - i);
                }
                lemma_digits_end_at(s, i, end);
                lemma_digits_val_of_nat_str(s, i, v as int);
                assert(try_int(s, i) == Some((t, end)));
            }
        },
        SpecToken::Bool(b) => {
            assert(try_int(s, i) is None);
            if b {
                assert(try_bool(s, i) == Some((t, i + 4)));
            } else {
                assert(!starts_with_at(s, i, word_true())) by {
                    if starts_with_at(s, i, word_true()) {
                        lemma_chars_at_index(s, i, word_true(), 0);
                    }
                }
                assert(try_bool(s, i) == Some((t, i + 5)));
            }
        },
        SpecToken::Let | SpecToken::If | SpecToken::Print => {
            assert(try_int(s, i) is None);
            lemma_not_bool(s, i);
            assert forall|m: int| i <= m < end implies is_alnum_char(#[trigger] s[m]) by {
                lemma_chars_at_index(s, i, w, m - i);
            }
            lemma_alnum_end_at(s, i, end);
            assert(s.subrange(i, end) =~= w);
            assert(try_word(s, i) == Some((t, end)));
        },
        SpecToken::Eq => {
            assert(s[i] == '=');
            lemma_chars_at_index(s, i, w, 1);
            assert(try_int(s, i) is None);
            lemma_not_bool(s, i);
            assert(try_word(s, i) is None);
            assert(starts_with_at(s, i, seq!['=', '=']));
            assert(try_punct(s, i) == Some((t, i + 2)));
        },
        SpecToken::Assign => {
            assert(s[i] == '=');
            assert(try_int(s, i) is None);
            lemma_not_bool(s, i);
            assert(try_word(s, i) is None);
            // The following space keeps `=` from reading as `==`.
            assert(!starts_with_at(s, i, seq!['=', '='])) by {
                if starts_with_at(s, i, seq!['=', '=']) {
                    lemma_chars_at_index(s, i, seq!['=', '='], 1);
                }
            }
            assert(try_punct(s, i) == Some((t, i + 1)));
        },
        SpecToken::LParen | SpecToken::RParen | SpecToken::LCurly | SpecToken::RCurly
            | SpecToken::GT | SpecToken::Plus | SpecToken::Newline => {
            assert(try_int(s, i) is None);
            lemma_not_bool(s, i);
            assert(try_word(s, i) is None);
            assert(!starts_with_at(s, i, seq!['=', '='])) by {
                if starts_with_at(s, i, seq!['=', '=']) {
                    lemma_chars_at_index(s, i, seq!['=', '='], 0);
                }
            }
            assert(try_punct(s, i) == Some((t, i + 1)));
        },
    }
}

/// Tokenizing the rendered text of well-formed tokens, with nothing after
/// it, yields exactly those tokens.
proof fn lemma_tokenize_render_text(s: Seq<char>, i: int, ts: Seq<SpecToken>)
    requires
        wf_tokens(ts),
        starts_with_at(s, i, render_text(ts)),
        i + render_text(ts).len() == s.len(),
    ensures
        spec_tokenize_from(s, i) == Ok::<Seq<SpecToken>, int>(ts),
    decreases ts,
{
    if ts.len() == 0 {
        assert(i == s.len());
        assert(ts =~= Seq::<SpecToken>::empty());
    } else {
        let t0 = ts[0];
        let w = token_text(t0);
        let rest = ts.subrange(1, ts.len() as int);
        assert(render_text(ts) == w + seq![' '] + render_text(rest));
        lemma_chars_at_split(s, i, w + seq![' '], render_text(rest));
        lemma_chars_at_split(s, i, w, seq![' ']);
        lemma_token_text_head(t0);
        lemma_chars_at_index(s, i, w, 0);
        assert(skip_spaces(s, i) == i);
        let k = i + w.len();
        lemma_chars_at_index(s, k, seq![' '], 0);
        assert(s[k] == ' ');
        lemma_next_token_of_text(s, i, t0);
        // One space separates this token from the next token or the end.
        if rest.len() > 0 {
            lemma_token_text_head(rest[0]);
            assert(render_text(rest) == token_text(rest[0]) + seq![' '] + render_text(
                rest.subrange(1, rest.len() as int),
            ));
            lemma_chars_at_split(s, k + 1, token_text(rest[0]) + seq![' '], render_text(
                rest.subrange(1, rest.len() as int),
            ));
            lemma_chars_at_split(s, k + 1, token_text(rest[0]), seq![' ']);
            lemma_chars_at_index(s, k + 1, token_text(rest[0]), 0);
            assert(!is_space_char(s[k + 1]));
        }
        assert(skip_spaces(s, k + 1) == k + 1);
        assert(skip_spaces(s, k) == k + 1);
        lemma_tokenize_render_text(s, k + 1, rest);
        assert(seq![t0] + rest =~= ts);
    }
}

/// Concatenation keeps token sequences well formed.
proof fn lemma_wf_tokens_add(a: Seq<SpecToken>, b: Seq<SpecToken>)
    requires
        wf_tokens(a),
        wf_tokens(b),
    ensures
        wf_tokens(a + b),
{
    assert forall|m: int| 0 <= m < (a + b).len() implies wf_token(#[trigger] (a + b)[m]) by {
        if m < a.len() {
            assert((a + b)[m] == a[m]);
        } else {
            assert((a + b)[m] == b[m - a.len()]);
        }
    }
}

/// A well-formed expression renders to well-formed tokens.
proof fn lemma_render_expr_wf(e: SpecExpr)
    requires
        wf_expr(e),
    ensures
        wf_tokens(render_expr(e)),
    decreases e,
{
    match e {
        SpecExpr::Variable(_) | SpecExpr::Int(_) | SpecExpr::Bool(_) => {
            assert(render_expr(e)[0] == render_expr(e)[0]);
        },
        SpecExpr::BinaryOperation(op, l, r) => {
            lemma_render_expr_wf(*l);
            lemma_render_expr_wf(*r);
            lemma_wf_tokens_add(seq![SpecToken::LParen], render_expr(*l));
            lemma_wf_tokens_add(
                seq![SpecToken::LParen] + render_expr(*l),
                seq![SpecToken::RParen, binop_token(op)],
            );
            lemma_wf_tokens_add(
                seq![SpecToken::LParen] + render_expr(*l) + seq![
                    SpecToken::RParen,
                    binop_token(op),
                ],
                render_expr(*r),
            );
        },
    }
}

/// A well-formed statement renders to well-formed tokens.
proof fn lemma_render_stmt_wf(s: SpecStmt)
    requires
        wf_stmt(s),
    ensures
        wf_tokens(render_stmt(s)),
    decreases s,
{
    match s {
        SpecStmt::Declaration { id, rvalue } => {
            lemma_render_expr_wf(rvalue);
            let head = seq![SpecToken::Let, SpecToken::Identifier(id), SpecToken::Assign];
            lemma_wf_tokens_add(head, render_expr(rvalue));
            lemma_wf_tokens_add(head + render_expr(rvalue), seq![SpecToken::Newline]);
        },
        SpecStmt::IfStatement { condition, block } => {
            lemma_render_expr_wf(condition);
            lemma_render_stmts_wf(block);
            lemma_wf_tokens_add(seq![SpecToken::If], render_expr(condition));
            lemma_wf_tokens_add(
                seq![SpecToken::If] + render_expr(condition),
                seq![SpecToken::LCurly],
            );
            lemma_wf_tokens_add(
                seq![SpecToken::If] + render_expr(condition) + seq![SpecToken::LCurly],
                render_stmts(block),
            );
            lemma_wf_tokens_add(
                seq![SpecToken::If] + render_expr(condition) + seq![SpecToken::LCurly]
                    + render_stmts(block),
                seq![SpecToken::RCurly],
            );
        },
        SpecStmt::Print { value } => {
            lemma_render_expr_wf(value);
            lemma_wf_tokens_add(seq![SpecToken::Print], render_expr(value));
            lemma_wf_tokens_add(
                seq![SpecToken::Print] + render_expr(value),
                seq![SpecToken::Newline],
            );
        },
    }
}

/// A well-formed program renders to well-formed tokens.
proof fn lemma_render_stmts_wf(ss: Seq<SpecStmt>)
    requires
        wf_stmts(ss),
    ensures
        wf_tokens(render_stmts(ss)),
    decreases ss,
{
    if ss.len() > 0 {
        lemma_render_stmt_wf(ss[0]);
        lemma_render_stmts_wf(ss.subrange(1, ss.len() as int));
        lemma_wf_tokens_add(render_stmt(ss[0]), render_stmts(ss.subrange(1, ss.len() as int)));
    }
}

/// Round trip: for every well-formed program, rendering it to source text,
/// tokenizing that text, and parsing the tokens yields exactly the program
/// again. With [`crate::interpreter::run`]'s contract, evaluating the result
/// therefore produces exactly the trace of the program's own statements.
pub proof fn lemma_pipeline_round_trip(p: Seq<SpecStmt>)
    requires
        wf_stmts(p),
    ensures
        spec_tokenize(render_text(render_stmts(p))) == Ok::<Seq<SpecToken>, int>(render_stmts(p)),
        spec_parse_program(render_stmts(p)) == Ok::<Seq<SpecStmt>, int>(p),
{
    let ts = render_stmts(p);
    let src = render_text(ts);
    lemma_render_stmts_wf(p);
    assert(starts_with_at(src, 0, render_text(ts)));
    lemma_tokenize_render_text(src, 0, ts);
    lemma_parse_render_program(p);
}

} // verus!
