//! The abstract syntax tree.
//!
//! Every node carries an absolute `Span`. Each node type has a mathematical view
//! (names as character sequences, children as sequences) that the contracts of
//! the parser, resolver and evaluator speak of.

use vstd::prelude::*;
use crate::span::Span;

verus! {

/// A declared name (a function name, a parameter, or a `let` binding target).
#[derive(Clone, Debug, PartialEq, Eq)]
pub struct Ident {
    pub name: String,
    pub span: Span,
}

/// A top level or block level statement.
#[derive(Debug, PartialEq, Eq)]
pub struct Stmt {
    pub kind: StmtKind,
    pub span: Span,
}

#[derive(Debug, PartialEq, Eq)]
pub enum StmtKind {
    Let(LetStmt),
    Fn(FnDecl),
    /// An expression used as a statement (it was followed by `;`).
    Expr(Expr),
}

#[derive(Debug, PartialEq, Eq)]
pub struct LetStmt {
    pub name: Ident,
    pub value: Expr,
}

#[derive(Debug, PartialEq, Eq)]
pub struct FnDecl {
    pub name: Ident,
    pub params: Vec<Ident>,
    pub body: Block,
}

/// A brace delimited scope. `tail` is the optional final expression that gives
/// the block its value.
#[derive(Debug, PartialEq, Eq)]
pub struct Block {
    pub stmts: Vec<Stmt>,
    pub tail: Option<Box<Expr>>,
    pub span: Span,
}

#[derive(Debug, PartialEq, Eq)]
pub struct Expr {
    pub kind: ExprKind,
    pub span: Span,
}

#[derive(Clone, Copy, Debug, PartialEq, Eq, Structural)]
pub enum BinOp {
    Add,
    Sub,
    Mul,
    Div,
    Eq,
    Ne,
    Lt,
    Le,
    Gt,
    Ge,
}

#[derive(Clone, Copy, Debug, PartialEq, Eq, Structural)]
pub enum UnOp {
    Neg,
    Not,
}

#[derive(Debug, PartialEq, Eq)]
pub enum ExprKind {
    Int(i64),
    Bool(bool),
    /// A use of a name. Resolution maps this to a binding.
    Name(String),
    Unary { op: UnOp, expr: Box<Expr> },
    Binary { op: BinOp, lhs: Box<Expr>, rhs: Box<Expr> },
    Call { callee: Box<Expr>, args: Vec<Expr> },
    If { cond: Box<Expr>, then_block: Block, else_block: Option<Block> },
    Block(Block),
    Paren(Box<Expr>),
    /// A placeholder inserted during error recovery so spans stay well formed.
    Error,
}

/// A parsed program is simply a sequence of top level statements.
pub type Program = Vec<Stmt>;

// ---------------------------------------------------------------------------
// Views

pub struct IdentV {
    pub name: Seq<char>,
    pub span: Span,
}

pub struct StmtV {
    pub kind: StmtKindV,
    pub span: Span,
}

pub enum StmtKindV {
    Let { name: IdentV, value: ExprV },
    Fn { name: IdentV, params: Seq<IdentV>, body: BlockV },
    Expr { expr: ExprV },
}

pub struct BlockV {
    pub stmts: Seq<StmtV>,
    pub tail: Option<Box<ExprV>>,
    pub span: Span,
}

pub struct ExprV {
    pub kind: ExprKindV,
    pub span: Span,
}

#[allow(inconsistent_fields)]
pub enum ExprKindV {
    Int { value: i64 },
    Bool { value: bool },
    Name { name: Seq<char> },
    Unary { op: UnOp, expr: Box<ExprV> },
    Binary { op: BinOp, lhs: Box<ExprV>, rhs: Box<ExprV> },
    Call { callee: Box<ExprV>, args: Seq<ExprV> },
    If { cond: Box<ExprV>, then_block: BlockV, else_block: Option<BlockV> },
    Block { block: BlockV },
    Paren { inner: Box<ExprV> },
    Error,
}

pub open spec fn ident_v(i: Ident) -> IdentV {
    IdentV { name: i.name@, span: i.span }
}

pub open spec fn idents_v(s: Seq<Ident>) -> Seq<IdentV> {
    s.map_values(|i: Ident| ident_v(i))
}

pub open spec fn expr_v(e: Expr) -> ExprV
    decreases e,
{
    ExprV {
        kind: match e.kind {
            ExprKind::Int(v) => ExprKindV::Int { value: v },
            ExprKind::Bool(v) => ExprKindV::Bool { value: v },
            ExprKind::Name(n) => ExprKindV::Name { name: n@ },
            ExprKind::Unary { op, expr } => ExprKindV::Unary { op, expr: Box::new(expr_v(*expr)) },
            ExprKind::Binary { op, lhs, rhs } => ExprKindV::Binary {
                op,
                lhs: Box::new(expr_v(*lhs)),
                rhs: Box::new(expr_v(*rhs)),
            },
            ExprKind::Call { callee, args } => ExprKindV::Call {
                callee: Box::new(expr_v(*callee)),
                args: exprs_v(args@),
            },
            ExprKind::If { cond, then_block, else_block } => ExprKindV::If {
                cond: Box::new(expr_v(*cond)),
                then_block: block_v(then_block),
                else_block: match else_block {
                    Some(b) => Some(block_v(b)),
                    None => None,
                },
            },
            ExprKind::Block(b) => ExprKindV::Block { block: block_v(b) },
            ExprKind::Paren(inner) => ExprKindV::Paren { inner: Box::new(expr_v(*inner)) },
            ExprKind::Error => ExprKindV::Error,
        },
        span: e.span,
    }
}

pub open spec fn exprs_v(es: Seq<Expr>) -> Seq<ExprV>
    decreases es,
{
    if es.len() == 0 {
        seq![]
    } else {
        seq![expr_v(es[0])] + exprs_v(es.subrange(1, es.len() as int))
    }
}

pub open spec fn block_v(b: Block) -> BlockV
    decreases b,
{
    BlockV {
        stmts: stmts_v(b.stmts@),
        tail: match b.tail {
            Some(t) => Some(Box::new(expr_v(*t))),
            None => None,
        },
        span: b.span,
    }
}

pub open spec fn stmt_v(s: Stmt) -> StmtV
    decreases s,
{
    StmtV {
        kind: match s.kind {
            StmtKind::Let(l) => StmtKindV::Let { name: ident_v(l.name), value: expr_v(l.value) },
            StmtKind::Fn(f) => StmtKindV::Fn {
                name: ident_v(f.name),
                params: idents_v(f.params@),
                body: block_v(f.body),
            },
            StmtKind::Expr(e) => StmtKindV::Expr { expr: expr_v(e) },
        },
        span: s.span,
    }
}

pub open spec fn stmts_v(ss: Seq<Stmt>) -> Seq<StmtV>
    decreases ss,
{
    if ss.len() == 0 {
        seq![]
    } else {
        seq![stmt_v(ss[0])] + stmts_v(ss.subrange(1, ss.len() as int))
    }
}

} // verus!

verus! {

pub proof fn lemma_exprs_v(es: Seq<Expr>)
    ensures
        exprs_v(es).len() == es.len(),
        forall|i: int| 0 <= i < es.len() ==> #[trigger] exprs_v(es)[i] == expr_v(es[i]),
    decreases es.len(),
{
    if es.len() > 0 {
        lemma_exprs_v(es.subrange(1, es.len() as int));
    }
}

pub proof fn lemma_exprs_v_push(es: Seq<Expr>, e: Expr)
    ensures
        exprs_v(es.push(e)) == exprs_v(es).push(expr_v(e)),
{
    lemma_exprs_v(es);
    lemma_exprs_v(es.push(e));
    assert(exprs_v(es.push(e)) =~= exprs_v(es).push(expr_v(e)));
}

pub proof fn lemma_stmts_v(ss: Seq<Stmt>)
    ensures
        stmts_v(ss).len() == ss.len(),
        forall|i: int| 0 <= i < ss.len() ==> #[trigger] stmts_v(ss)[i] == stmt_v(ss[i]),
    decreases ss.len(),
{
    if ss.len() > 0 {
        lemma_stmts_v(ss.subrange(1, ss.len() as int));
    }
}

pub proof fn lemma_stmts_v_push(ss: Seq<Stmt>, s: Stmt)
    ensures
        stmts_v(ss.push(s)) == stmts_v(ss).push(stmt_v(s)),
{
    lemma_stmts_v(ss);
    lemma_stmts_v(ss.push(s));
    assert(stmts_v(ss.push(s)) =~= stmts_v(ss).push(stmt_v(s)));
}

} // verus!
