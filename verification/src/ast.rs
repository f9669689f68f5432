//! Abstract syntax tree: the data types produced by parsing and consumed by
//! evaluation, together with their mathematical views.
//!
//! Each executable node type has a spec-level counterpart whose string
//! payloads are `Seq<char>` and whose statement lists are `Seq`, so that
//! contracts can speak about programs as pure mathematical values.

use vstd::prelude::*;

verus! {

broadcast use vstd::std_specs::vec::axiom_vec_index_decreases;

/// The binary operators of the language.
#[derive(Clone, Copy, PartialEq, Eq, Structural, Debug)]
pub enum BinaryOperation {
    GreaterThan,
    EqualTo,
    Add,
}

/// An expression: a variable reference, a literal, or a binary operation.
/// Each node exclusively owns its children, so the tree has no sharing and
/// no cycles.
#[derive(PartialEq, Eq, Debug)]
pub enum Expression {
    Variable(String),
    Int(i32),
    Bool(bool),
    BinaryOperation(BinaryOperation, Box<Expression>, Box<Expression>),
}

/// The mathematical value of an [`Expression`]: variable names are character
/// sequences.
pub enum SpecExpr {
    Variable(Seq<char>),
    Int(i32),
    Bool(bool),
    BinaryOperation(BinaryOperation, Box<SpecExpr>, Box<SpecExpr>),
}

impl View for Expression {
    type V = SpecExpr;

    open spec fn view(&self) -> SpecExpr
        decreases self,
    {
        match self {
            Expression::Variable(s) => SpecExpr::Variable(s@),
            Expression::Int(i) => SpecExpr::Int(*i),
            Expression::Bool(b) => SpecExpr::Bool(*b),
            Expression::BinaryOperation(op, lhs, rhs) => SpecExpr::BinaryOperation(
                *op,
                Box::new((**lhs)@),
                Box::new((**rhs)@),
            ),
        }
    }
}

/// A statement: a declaration, an if-statement with a nested block, or a
/// print statement.
#[derive(PartialEq, Eq, Debug)]
pub enum Statement {
    Declaration { id: String, rvalue: Expression },
    IfStatement { condition: Expression, block: Vec<Statement> },
    Print { value: Expression },
}

/// The mathematical value of a [`Statement`].
pub enum SpecStmt {
    Declaration { id: Seq<char>, rvalue: SpecExpr },
    IfStatement { condition: SpecExpr, block: Seq<SpecStmt> },
    Print { value: SpecExpr },
}

impl View for Statement {
    type V = SpecStmt;

    open spec fn view(&self) -> SpecStmt
        decreases self,
    {
        match self {
            Statement::Declaration { id, rvalue } => SpecStmt::Declaration {
                id: id@,
                rvalue: rvalue@,
            },
            Statement::IfStatement { condition, block } => SpecStmt::IfStatement {
                condition: condition@,
                block: block_view_from(*block, 0),
            },
            Statement::Print { value } => SpecStmt::Print { value: value@ },
        }
    }
}

/// The views of the statements of `b` from index `i` on, in order.
pub open spec fn block_view_from(b: Vec<Statement>, i: int) -> Seq<SpecStmt>
    decreases b, b@.len() - i,
{
    if i < 0 || i >= b@.len() {
        Seq::empty()
    } else {
        seq![b[i]@] + block_view_from(b, i + 1)
    }
}

/// The views of all statements of `b`, in order.
pub open spec fn block_view(b: Vec<Statement>) -> Seq<SpecStmt> {
    block_view_from(b, 0)
}

/// `block_view_from(b, i)` lists exactly the views of `b[i..]`.
pub proof fn lemma_block_view_from(b: Vec<Statement>, i: int)
    requires
        0 <= i <= b@.len(),
    ensures
        block_view_from(b, i).len() == b@.len() - i,
        forall|k: int|
            0 <= k < b@.len() - i ==> #[trigger] block_view_from(b, i)[k] == b@[i + k]@,
    decreases b@.len() - i,
{
    if i < b@.len() {
        lemma_block_view_from(b, i + 1);
        assert(block_view_from(b, i) == seq![b[i]@] + block_view_from(b, i + 1));
        assert forall|k: int| 0 <= k < b@.len() - i implies #[trigger] block_view_from(b, i)[k]
            == b@[i + k]@ by {
            assert(block_view_from(b, i) == seq![b[i]@] + block_view_from(b, i + 1));
            if k > 0 {
                assert(block_view_from(b, i)[k] == block_view_from(b, i + 1)[k - 1]);
            }
        }
    }
}

/// Appending a statement to a block appends its view to the block's view.
pub proof fn lemma_block_view_push(b1: Vec<Statement>, b2: Vec<Statement>, s: Statement)
    requires
        b2@ == b1@.push(s),
    ensures
        block_view(b2) == block_view(b1).push(s@),
{
    lemma_block_view_from(b1, 0);
    lemma_block_view_from(b2, 0);
    assert(block_view(b2) =~= block_view(b1).push(s@));
}

/// A whole program: an ordered sequence of top-level statements, the root
/// owner of the tree.
#[derive(PartialEq, Eq, Debug)]
pub struct Ast {
    pub statements: Vec<Statement>,
}

impl View for Ast {
    type V = Seq<SpecStmt>;

    open spec fn view(&self) -> Seq<SpecStmt> {
        block_view(self.statements)
    }
}

} // verus!
