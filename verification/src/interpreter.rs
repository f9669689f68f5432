//! Tree-walking evaluation: runs an abstract syntax tree against a mutable
//! variable environment, collecting the values the program prints.
//!
//! The environment is a single flat namespace shared by all nested blocks: an
//! if-statement's body does not open a new scope, so bindings made inside it
//! persist after the if-statement exits, and a later declaration of an
//! existing name simply overwrites the earlier binding.
//!
//! The language has no static type check: a syntactically valid program can
//! still fail here, when a referenced variable is unbound, an operand has the
//! wrong runtime kind for its operator, or an if-condition is not a boolean.
//! Every such failure is reported as a recoverable result, never a crash.
//! The add operation uses two's complement 32-bit arithmetic, wrapping on
//! overflow.

use crate::ast::{block_view, lemma_block_view_from, Ast, BinaryOperation, Expression, SpecExpr,
    SpecStmt, Statement};
use crate::token::string_from_chars;
use vstd::prelude::*;

verus! {

broadcast use vstd::std_specs::vec::axiom_vec_index_decreases;

/// The result of evaluating an expression: a signed 32-bit integer or a
/// boolean. Produced only during evaluation, never stored in the tree.
#[derive(Clone, Copy, PartialEq, Eq, Structural, Debug)]
pub enum Value {
    Int(i32),
    Bool(bool),
}

/// A runtime failure: the only kind of error that can surface after a
/// program was confirmed syntactically valid.
#[derive(Clone, Copy, PartialEq, Eq, Structural, Debug)]
pub enum EvalError {
    /// A referenced variable has no binding.
    UnboundVariable,
    /// An operand of `>`, `+`, or of `==` after an integer left side, is not
    /// an integer.
    NotAnInt,
    /// The right operand of `==` is not a boolean though the left one is.
    NotABool,
    /// An if-condition did not evaluate to a boolean.
    ConditionNotBool,
}

/// Two's complement wrapping of the exact sum into the signed 32-bit range.
pub open spec fn wrap_add_i32(a: int, b: int) -> int {
    if a + b > 0x7fff_ffff {
        a + b - 0x1_0000_0000
    } else if a + b < -0x8000_0000 {
        a + b + 0x1_0000_0000
    } else {
        a + b
    }
}

/// What evaluating an expression under an environment yields: a value, or
/// the first runtime failure. The left operand is always evaluated first,
/// and for `==` its kind dictates the kind the right operand must have.
pub open spec fn spec_eval(e: SpecExpr, env: Map<Seq<char>, Value>) -> Result<Value, EvalError>
    decreases e,
{
    match e {
        SpecExpr::Variable(name) => if env.contains_key(name) {
            Ok(env[name])
        } else {
            Err(EvalError::UnboundVariable)
        },
        SpecExpr::Int(i) => Ok(Value::Int(i)),
        SpecExpr::Bool(b) => Ok(Value::Bool(b)),
        SpecExpr::BinaryOperation(op, e1, e2) => match op {
            BinaryOperation::GreaterThan => match spec_eval(*e1, env) {
                Ok(Value::Int(i1)) => match spec_eval(*e2, env) {
                    Ok(Value::Int(i2)) => Ok(Value::Bool(i1 > i2)),
                    Ok(_) => Err(EvalError::NotAnInt),
                    Err(er) => Err(er),
                },
                Ok(_) => Err(EvalError::NotAnInt),
                Err(er) => Err(er),
            },
            BinaryOperation::EqualTo => match spec_eval(*e1, env) {
                Ok(Value::Int(i1)) => match spec_eval(*e2, env) {
                    Ok(Value::Int(i2)) => Ok(Value::Bool(i1 == i2)),
                    Ok(_) => Err(EvalError::NotAnInt),
                    Err(er) => Err(er),
                },
                Ok(Value::Bool(b1)) => match spec_eval(*e2, env) {
                    Ok(Value::Bool(b2)) => Ok(Value::Bool(b1 == b2)),
                    Ok(_) => Err(EvalError::NotABool),
                    Err(er) => Err(er),
                },
                Err(er) => Err(er),
            },
            BinaryOperation::Add => match spec_eval(*e1, env) {
                Ok(Value::Int(i1)) => match spec_eval(*e2, env) {
                    Ok(Value::Int(i2)) => Ok(
                        Value::Int(wrap_add_i32(i1 as int, i2 as int) as i32),
                    ),
                    Ok(_) => Err(EvalError::NotAnInt),
                    Err(er) => Err(er),
                },
                Ok(_) => Err(EvalError::NotAnInt),
                Err(er) => Err(er),
            },
        },
    }
}

/// The outcome of executing statements: the environment they leave behind,
/// the values they print (in order, including those printed before a
/// failure), and the first runtime failure if one occurred.
pub struct RunResult {
    pub env: Map<Seq<char>, Value>,
    pub output: Seq<Value>,
    pub error: Option<EvalError>,
}

/// What executing one statement under an environment does.
pub open spec fn spec_run_stmt(s: SpecStmt, env: Map<Seq<char>, Value>) -> RunResult
    decreases s,
{
    match s {
        SpecStmt::Declaration { id, rvalue } => match spec_eval(rvalue, env) {
            Ok(v) => RunResult { env: env.insert(id, v), output: Seq::empty(), error: None },
            Err(e) => RunResult { env: env, output: Seq::empty(), error: Some(e) },
        },
        SpecStmt::IfStatement { condition, block } => match spec_eval(condition, env) {
            Ok(Value::Bool(true)) => spec_run_stmts(block, env),
            Ok(Value::Bool(false)) => RunResult { env: env, output: Seq::empty(), error: None },
            Ok(Value::Int(_)) => RunResult {
                env: env,
                output: Seq::empty(),
                error: Some(EvalError::ConditionNotBool),
            },
            Err(e) => RunResult { env: env, output: Seq::empty(), error: Some(e) },
        },
        SpecStmt::Print { value } => match spec_eval(value, env) {
            Ok(v) => RunResult { env: env, output: seq![v], error: None },
            Err(e) => RunResult { env: env, output: Seq::empty(), error: Some(e) },
        },
    }
}

/// What executing a sequence of statements does: each statement runs under
/// the environment the previous one left, stopping at the first failure.
pub open spec fn spec_run_stmts(stmts: Seq<SpecStmt>, env: Map<Seq<char>, Value>) -> RunResult
    decreases stmts,
{
    if stmts.len() == 0 {
        RunResult { env: env, output: Seq::empty(), error: None }
    } else {
        let r1 = spec_run_stmt(stmts[0], env);
        match r1.error {
            Some(_) => r1,
            None => {
                let r2 = spec_run_stmts(stmts.subrange(1, stmts.len() as int), r1.env);
                RunResult { env: r2.env, output: r1.output + r2.output, error: r2.error }
            },
        }
    }
}

// ---------------------------------------------------------------------------
// The environment as an association list
// ---------------------------------------------------------------------------
/// The mapping an association list stands for: a later pair overwrites an
/// earlier one with the same name.
pub open spec fn env_view(pairs: Seq<(String, Value)>) -> Map<Seq<char>, Value>
    decreases pairs.len(),
{
    if pairs.len() == 0 {
        Map::empty()
    } else {
        env_view(pairs.drop_last()).insert(pairs.last().0@, pairs.last().1)
    }
}

/// Pairs beyond `idx` whose names differ from `key` do not affect what the
/// environment holds at `key`.
proof fn lemma_env_view_skip(pairs: Seq<(String, Value)>, key: Seq<char>, idx: int)
    requires
        0 <= idx <= pairs.len(),
        forall|j: int| idx <= j < pairs.len() ==> #[trigger] pairs[j].0@ != key,
    ensures
        env_view(pairs).contains_key(key) == env_view(pairs.subrange(0, idx)).contains_key(key),
        env_view(pairs).contains_key(key) ==> env_view(pairs)[key] == env_view(
            pairs.subrange(0, idx),
        )[key],
    decreases pairs.len() - idx,
{
    if idx < pairs.len() {
        let shorter = pairs.drop_last();
        assert(pairs[pairs.len() - 1].0@ != key);
        assert(shorter.subrange(0, idx) =~= pairs.subrange(0, idx));
        assert(forall|j: int| idx <= j < shorter.len() ==> #[trigger] shorter[j].0@ != key);
        lemma_env_view_skip(shorter, key, idx);
    } else {
        assert(pairs.subrange(0, idx) =~= pairs);
    }
}

/// Looks a name up in the environment; the latest binding wins.
fn env_lookup(vars: &Vec<(String, Value)>, name: &String) -> (r: Option<Value>)
    ensures
        r == if env_view(vars@).contains_key(name@) {
            Some(env_view(vars@)[name@])
        } else {
            None::<Value>
        },
{
    let mut idx: usize = vars.len();
    loop
        invariant
            idx <= vars.len(),
            forall|j: int| idx <= j < vars@.len() ==> #[trigger] vars@[j].0@ != name@,
        decreases idx,
    {
        if idx == 0 {
            proof {
                lemma_env_view_skip(vars@, name@, 0);
                assert(vars@.subrange(0, 0) =~= Seq::empty());
            }
            return None;
        }
        idx = idx - 1;
        if vars[idx].0 == *name {
            proof {
                lemma_env_view_skip(vars@, name@, idx + 1);
                let prefix = vars@.subrange(0, idx + 1);
                assert(prefix.drop_last() =~= vars@.subrange(0, idx as int));
                assert(prefix.last() == vars@[idx as int]);
            }
            return Some(vars[idx].1);
        }
    }
}

/// Two's complement 32-bit addition.
fn wrap_add(a: i32, b: i32) -> (r: i32)
    ensures
        r as int == wrap_add_i32(a as int, b as int),
{
    let s: i64 = a as i64 + b as i64;
    if s > 0x7fff_ffff {
        (s - 0x1_0000_0000i64) as i32
    } else if s < -0x8000_0000 {
        (s + 0x1_0000_0000i64) as i32
    } else {
        s as i32
    }
}

/// Evaluates an expression under the current environment: a pure function of
/// the two, performed fresh at each reference.
fn eval(expr: &Expression, vars: &Vec<(String, Value)>) -> (r: Result<Value, EvalError>)
    ensures
        r == spec_eval(expr@, env_view(vars@)),
    decreases expr,
{
    match expr {
        Expression::Variable(name) => match env_lookup(vars, name) {
            Some(v) => Ok(v),
            None => Err(EvalError::UnboundVariable),
        },
        Expression::Int(i) => Ok(Value::Int(*i)),
        Expression::Bool(b) => Ok(Value::Bool(*b)),
        Expression::BinaryOperation(op, e1, e2) => match op {
            BinaryOperation::GreaterThan => {
                let i1 = match eval(e1, vars) {
                    Ok(Value::Int(i1)) => i1,
                    Ok(_) => {
                        return Err(EvalError::NotAnInt);
                    },
                    Err(er) => {
                        return Err(er);
                    },
                };
                match eval(e2, vars) {
                    Ok(Value::Int(i2)) => Ok(Value::Bool(i1 > i2)),
                    Ok(_) => Err(EvalError::NotAnInt),
                    Err(er) => Err(er),
                }
            },
            BinaryOperation::EqualTo => match eval(e1, vars) {
                Ok(Value::Int(i1)) => match eval(e2, vars) {
                    Ok(Value::Int(i2)) => Ok(Value::Bool(i1 == i2)),
                    Ok(_) => Err(EvalError::NotAnInt),
                    Err(er) => Err(er),
                },
                Ok(Value::Bool(b1)) => match eval(e2, vars) {
                    Ok(Value::Bool(b2)) => Ok(Value::Bool(b1 == b2)),
                    Ok(_) => Err(EvalError::NotABool),
                    Err(er) => Err(er),
                },
                Err(er) => Err(er),
            },
            BinaryOperation::Add => {
                let i1 = match eval(e1, vars) {
                    Ok(Value::Int(i1)) => i1,
                    Ok(_) => {
                        return Err(EvalError::NotAnInt);
                    },
                    Err(er) => {
                        return Err(er);
                    },
                };
                match eval(e2, vars) {
                    Ok(Value::Int(i2)) => Ok(Value::Int(wrap_add(i1, i2))),
                    Ok(_) => Err(EvalError::NotAnInt),
                    Err(er) => Err(er),
                }
            },
        },
    }
}

/// Executes one statement: binds a name, runs or skips an if-body against
/// the same shared environment, or records a printed value.
fn run_stmt(s: &Statement, vars: &mut Vec<(String, Value)>, out: &mut Vec<Value>) -> (r: Result<
    (),
    EvalError,
>)
    ensures
        ({
            let rr = spec_run_stmt(s@, env_view(old(vars)@));
            &&& env_view(final(vars)@) == rr.env
            &&& final(out)@ == old(out)@ + rr.output
            &&& match rr.error {
                Some(e) => r == Err::<(), EvalError>(e),
                None => r == Ok::<(), EvalError>(()),
            }
        }),
    decreases s,
{
    match s {
        Statement::Declaration { id, rvalue } => match eval(rvalue, vars) {
            Ok(v) => {
                let ghost vars0 = vars@;
                let key = id.clone();
                vars.push((key, v));
                proof {
                    assert(vars@.drop_last() =~= vars0);
                    assert(env_view(vars@) == env_view(vars0).insert(id@, v));
                    assert(old(out)@ + Seq::<Value>::empty() =~= old(out)@);
                }
                Ok(())
            },
            Err(er) => {
                proof {
                    assert(old(out)@ + Seq::<Value>::empty() =~= old(out)@);
                }
                Err(er)
            },
        },
        Statement::IfStatement { condition, block } => match eval(condition, vars) {
            Ok(Value::Bool(c)) => {
                if c {
                    run_block(block, vars, out)
                } else {
                    proof {
                        assert(old(out)@ + Seq::<Value>::empty() =~= old(out)@);
                    }
                    Ok(())
                }
            },
            Ok(Value::Int(_)) => {
                proof {
                    assert(old(out)@ + Seq::<Value>::empty() =~= old(out)@);
                }
                Err(EvalError::ConditionNotBool)
            },
            Err(er) => {
                proof {
                    assert(old(out)@ + Seq::<Value>::empty() =~= old(out)@);
                }
                Err(er)
            },
        },
        Statement::Print { value } => match eval(value, vars) {
            Ok(v) => {
                out.push(v);
                proof {
                    assert(old(out)@.push(v) =~= old(out)@ + seq![v]);
                }
                Ok(())
            },
            Err(er) => {
                proof {
                    assert(old(out)@ + Seq::<Value>::empty() =~= old(out)@);
                }
                Err(er)
            },
        },
    }
}

/// Executes the statements of a block in order against the shared
/// environment, stopping at the first failure.
fn run_block(block: &Vec<Statement>, vars: &mut Vec<(String, Value)>, out: &mut Vec<Value>) -> (r:
    Result<(), EvalError>)
    ensures
        ({
            let rr = spec_run_stmts(block_view(*block), env_view(old(vars)@));
            &&& env_view(final(vars)@) == rr.env
            &&& final(out)@ == old(out)@ + rr.output
            &&& match rr.error {
                Some(e) => r == Err::<(), EvalError>(e),
                None => r == Ok::<(), EvalError>(()),
            }
        }),
    decreases block,
{
    let ghost bv = block_view(*block);
    let ghost env0 = env_view(vars@);
    let ghost out0 = out@;
    let ghost full = spec_run_stmts(bv, env0);
    proof {
        lemma_block_view_from(*block, 0);
        assert(bv.skip(0) =~= bv);
    }
    let mut i: usize = 0;
    while i < block.len()
        invariant
            i <= block.len(),
            env0 == env_view(old(vars)@),
            out0 == old(out)@,
            full == spec_run_stmts(block_view(*block), env_view(old(vars)@)),
            bv == block_view(*block),
            bv.len() == block.len(),
            full == spec_run_stmts(bv, env0),
            forall|k: int| 0 <= k < block@.len() ==> #[trigger] bv[k] == block@[k]@,
            ({
                let rest = spec_run_stmts(bv.skip(i as int), env_view(vars@));
                &&& full.env == rest.env
                &&& full.error == rest.error
                &&& out0 + full.output == out@ + rest.output
            }),
        decreases block.len() - i,
    {
        let ghost envc = env_view(vars@);
        let ghost rest = spec_run_stmts(bv.skip(i as int), envc);
        proof {
            assert(bv.skip(i as int)[0] == bv[i as int]);
            assert(bv.skip(i as int).subrange(1, bv.skip(i as int).len() as int) =~= bv.skip(
                i + 1,
            ));
        }
        match run_stmt(&block[i], vars, out) {
            Ok(()) => {},
            Err(er) => {
                proof {
                    assert(bv[i as int] == block@[i as int]@);
                    assert(spec_run_stmt(bv[i as int], envc).error == Some(er));
                    assert(rest == spec_run_stmt(bv[i as int], envc));
                }
                return Err(er);
            },
        }
        i = i + 1;
    }
    proof {
        assert(bv.skip(block@.len() as int) =~= Seq::<SpecStmt>::empty());
        assert(out0 + full.output =~= out@);
    }
    Ok(())
}

// ---------------------------------------------------------------------------
// Rendering printed values as text
// ---------------------------------------------------------------------------
/// The decimal digit character for `d`.
pub open spec fn digit_char(d: int) -> char {
    if d == 0 {
        '0'
    } else if d == 1 {
        '1'
    } else if d == 2 {
        '2'
    } else if d == 3 {
        '3'
    } else if d == 4 {
        '4'
    } else if d == 5 {
        '5'
    } else if d == 6 {
        '6'
    } else if d == 7 {
        '7'
    } else if d == 8 {
        '8'
    } else {
        '9'
    }
}

/// The decimal digits of a nonnegative number, most significant first.
pub open spec fn spec_nat_str(n: int) -> Seq<char>
    decreases n,
{
    if n < 10 {
        seq![digit_char(n)]
    } else {
        spec_nat_str(n / 10) + seq![digit_char(n % 10)]
    }
}

/// The decimal rendering of an integer, with a leading minus sign when it is
/// negative.
pub open spec fn spec_int_str(i: int) -> Seq<char> {
    if i < 0 {
        seq!['-'] + spec_nat_str(-i)
    } else {
        spec_nat_str(i)
    }
}

/// The human-readable textual form of a printed value: integers in decimal,
/// booleans as `true`/`false`.
pub open spec fn spec_value_line(v: Value) -> Seq<char> {
    match v {
        Value::Int(i) => spec_int_str(i as int),
        Value::Bool(b) => if b {
            seq!['t', 'r', 'u', 'e']
        } else {
            seq!['f', 'a', 'l', 's', 'e']
        },
    }
}

fn digit_char_exec(d: u64) -> (c: char)
    requires
        d < 10,
    ensures
        c == digit_char(d as int),
{
    if d == 0 {
        '0'
    } else if d == 1 {
        '1'
    } else if d == 2 {
        '2'
    } else if d == 3 {
        '3'
    } else if d == 4 {
        '4'
    } else if d == 5 {
        '5'
    } else if d == 6 {
        '6'
    } else if d == 7 {
        '7'
    } else if d == 8 {
        '8'
    } else {
        '9'
    }
}

fn nat_chars(n: u64) -> (v: Vec<char>)
    ensures
        v@ == spec_nat_str(n as int),
{
    let mut m: u64 = n;
    let mut fwd: Vec<char> = Vec::new();
    while m >= 10
        invariant
            spec_nat_str(n as int) == spec_nat_str(m as int) + fwd@,
        decreases m,
    {
        let d = digit_char_exec(m % 10);
        let ghost fwd0 = fwd@;
        fwd.insert(0, d);
        proof {
            assert(fwd@ =~= seq![d] + fwd0);
            assert(spec_nat_str(m as int) == spec_nat_str(m as int / 10) + seq![
                digit_char(m as int % 10),
            ]);
            assert(spec_nat_str(m as int / 10) + (seq![d] + fwd0) =~= (spec_nat_str(m as int / 10)
                + seq![d]) + fwd0);
        }
        m = m / 10;
    }
    let d = digit_char_exec(m);
    let ghost fwd0 = fwd@;
    fwd.insert(0, d);
    proof {
        assert(fwd@ =~= seq![d] + fwd0);
        assert(spec_nat_str(m as int) == seq![digit_char(m as int)]);
        assert(seq![d] + fwd0 =~= spec_nat_str(m as int) + fwd0);
    }
    fwd
}

/// Renders a value in its human-readable textual form.
fn format_value(v: &Value) -> (s: String)
    ensures
        s@ == spec_value_line(*v),
{
    match v {
        Value::Int(i) => {
            if *i < 0 {
                let n: u64 = (-(*i as i64)) as u64;
                let mut chars = nat_chars(n);
                let ghost c0 = chars@;
                chars.insert(0, '-');
                proof {
                    assert(chars@ =~= seq!['-'] + c0);
                }
                string_from_chars(&chars)
            } else {
                let chars = nat_chars(*i as u64);
                string_from_chars(&chars)
            }
        },
        Value::Bool(b) => {
            let mut chars: Vec<char> = Vec::new();
            if *b {
                chars.push('t');
                chars.push('r');
                chars.push('u');
                chars.push('e');
                proof {
                    assert(chars@ =~= seq!['t', 'r', 'u', 'e']);
                }
            } else {
                chars.push('f');
                chars.push('a');
                chars.push('l');
                chars.push('s');
                chars.push('e');
                proof {
                    assert(chars@ =~= seq!['f', 'a', 'l', 's', 'e']);
                }
            }
            string_from_chars(&chars)
        },
    }
}

/// The textual lines a sequence of printed values stands for.
pub open spec fn lines_view(vals: Seq<Value>) -> Seq<Seq<char>> {
    vals.map_values(|v: Value| spec_value_line(v))
}

/// The views of rendered output lines.
pub open spec fn strings_view(lines: Seq<String>) -> Seq<Seq<char>> {
    lines.map_values(|s: String| s@)
}

/// Runs a whole program against a fresh, initially empty environment,
/// appending the textual form of each printed value to `out` as one line.
/// Output produced before a failure is kept; the first runtime failure is
/// returned and stops the run.
pub fn run(ast: &Ast, out: &mut Vec<String>) -> (r: Result<(), EvalError>)
    ensures
        ({
            let rr = spec_run_stmts(ast@, Map::empty());
            &&& strings_view(final(out)@) == strings_view(old(out)@) + lines_view(rr.output)
            &&& match rr.error {
                Some(e) => r == Err::<(), EvalError>(e),
                None => r == Ok::<(), EvalError>(()),
            }
        }),
{
    let mut vars: Vec<(String, Value)> = Vec::new();
    let mut vals: Vec<Value> = Vec::new();
    proof {
        assert(env_view(vars@) =~= Map::<Seq<char>, Value>::empty());
    }
    let res = run_block(&ast.statements, &mut vars, &mut vals);
    let ghost rr = spec_run_stmts(ast@, Map::empty());
    proof {
        assert(Seq::<Value>::empty() + rr.output =~= rr.output);
    }
    let ghost out0 = out@;
    let mut k: usize = 0;
    while k < vals.len()
        invariant
            k <= vals.len(),
            vals@ == rr.output,
            out0 == old(out)@,
            strings_view(out@) == strings_view(out0) + lines_view(vals@.subrange(0, k as int)),
        decreases vals.len() - k,
    {
        let line = format_value(&vals[k]);
        let ghost outp = out@;
        out.push(line);
        proof {
            assert(strings_view(out@) =~= strings_view(outp).push(line@));
            assert(lines_view(vals@.subrange(0, k + 1)) =~= lines_view(
                vals@.subrange(0, k as int),
            ).push(spec_value_line(vals@[k as int])));
            assert(strings_view(out0) + lines_view(vals@.subrange(0, k + 1)) =~= (strings_view(
                out0,
            ) + lines_view(vals@.subrange(0, k as int))).push(spec_value_line(vals@[k as int])));
        }
        k = k + 1;
    }
    proof {
        assert(vals@.subrange(0, vals@.len() as int) =~= vals@);
    }
    res
}

} // verus!
