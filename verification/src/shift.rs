//! Moving a syntax tree by a byte delta: every span of the tree is shifted,
//! nothing else changes. The incremental analysis reuses the statements after
//! an edit this way.

use vstd::prelude::*;
use crate::ast::{Ident, Stmt, StmtKind, LetStmt, FnDecl, Block, Expr, ExprKind, IdentV, StmtV, StmtKindV, BlockV, ExprV, ExprKindV, ident_v, idents_v, expr_v, exprs_v, block_v, stmt_v, stmts_v, lemma_stmts_v};

verus! {

pub open spec fn shift_ident_v(i: IdentV, d: i64) -> IdentV {
    IdentV { name: i.name, span: i.span.spec_shifted(d) }
}

pub open spec fn shift_idents_v(s: Seq<IdentV>, d: i64) -> Seq<IdentV> {
    s.map_values(|i: IdentV| shift_ident_v(i, d))
}

pub open spec fn shift_expr_v(e: ExprV, d: i64) -> ExprV
    decreases e,
{
    ExprV {
        kind: match e.kind {
            ExprKindV::Unary { op, expr } => ExprKindV::Unary {
                op,
                expr: Box::new(shift_expr_v(*expr, d)),
            },
            ExprKindV::Binary { op, lhs, rhs } => ExprKindV::Binary {
                op,
                lhs: Box::new(shift_expr_v(*lhs, d)),
                rhs: Box::new(shift_expr_v(*rhs, d)),
            },
            ExprKindV::Call { callee, args } => ExprKindV::Call {
                callee: Box::new(shift_expr_v(*callee, d)),
                args: shift_exprs_v(args, d),
            },
            ExprKindV::If { cond, then_block, else_block } => ExprKindV::If {
                cond: Box::new(shift_expr_v(*cond, d)),
                then_block: shift_block_v(then_block, d),
                else_block: match else_block {
                    Some(b) => Some(shift_block_v(b, d)),
                    None => None,
                },
            },
            ExprKindV::Block { block } => ExprKindV::Block { block: shift_block_v(block, d) },
            ExprKindV::Paren { inner } => ExprKindV::Paren { inner: Box::new(shift_expr_v(*inner, d)) },
            other => other,
        },
        span: e.span.spec_shifted(d),
    }
}

pub open spec fn shift_exprs_v(es: Seq<ExprV>, d: i64) -> Seq<ExprV>
    decreases es,
{
    if es.len() == 0 {
        seq![]
    } else {
        seq![shift_expr_v(es[0], d)] + shift_exprs_v(es.subrange(1, es.len() as int), d)
    }
}

pub open spec fn shift_block_v(b: BlockV, d: i64) -> BlockV
    decreases b,
{
    BlockV {
        stmts: shift_stmts_v(b.stmts, d),
        tail: match b.tail {
            Some(t) => Some(Box::new(shift_expr_v(*t, d))),
            None => None,
        },
        span: b.span.spec_shifted(d),
    }
}

pub open spec fn shift_stmt_v(s: StmtV, d: i64) -> StmtV
    decreases s,
{
    StmtV {
        kind: match s.kind {
            StmtKindV::Let { name, value } => StmtKindV::Let {
                name: shift_ident_v(name, d),
                value: shift_expr_v(value, d),
            },
            StmtKindV::Fn { name, params, body } => StmtKindV::Fn {
                name: shift_ident_v(name, d),
                params: shift_idents_v(params, d),
                body: shift_block_v(body, d),
            },
            StmtKindV::Expr { expr } => StmtKindV::Expr { expr: shift_expr_v(expr, d) },
        },
        span: s.span.spec_shifted(d),
    }
}

pub open spec fn shift_stmts_v(ss: Seq<StmtV>, d: i64) -> Seq<StmtV>
    decreases ss,
{
    if ss.len() == 0 {
        seq![]
    } else {
        seq![shift_stmt_v(ss[0], d)] + shift_stmts_v(ss.subrange(1, ss.len() as int), d)
    }
}

pub proof fn lemma_shift_exprs_index(es: Seq<ExprV>, d: i64)
    ensures
        shift_exprs_v(es, d).len() == es.len(),
        forall|i: int| 0 <= i < es.len() ==> #[trigger] shift_exprs_v(es, d)[i] == shift_expr_v(es[i], d),
    decreases es.len(),
{
    if es.len() > 0 {
        lemma_shift_exprs_index(es.subrange(1, es.len() as int), d);
    }
}

pub proof fn lemma_shift_stmts_index(ss: Seq<StmtV>, d: i64)
    ensures
        shift_stmts_v(ss, d).len() == ss.len(),
        forall|i: int| 0 <= i < ss.len() ==> #[trigger] shift_stmts_v(ss, d)[i] == shift_stmt_v(ss[i], d),
    decreases ss.len(),
{
    if ss.len() > 0 {
        lemma_shift_stmts_index(ss.subrange(1, ss.len() as int), d);
    }
}

pub proof fn lemma_shift_exprs_push(es: Seq<ExprV>, e: ExprV, d: i64)
    ensures
        shift_exprs_v(es.push(e), d) == shift_exprs_v(es, d).push(shift_expr_v(e, d)),
{
    lemma_shift_exprs_index(es, d);
    lemma_shift_exprs_index(es.push(e), d);
    assert(shift_exprs_v(es.push(e), d) =~= shift_exprs_v(es, d).push(shift_expr_v(e, d)));
}

pub proof fn lemma_shift_stmts_push(ss: Seq<StmtV>, s: StmtV, d: i64)
    ensures
        shift_stmts_v(ss.push(s), d) == shift_stmts_v(ss, d).push(shift_stmt_v(s, d)),
{
    lemma_shift_stmts_index(ss, d);
    lemma_shift_stmts_index(ss.push(s), d);
    assert(shift_stmts_v(ss.push(s), d) =~= shift_stmts_v(ss, d).push(shift_stmt_v(s, d)));
}

} // verus!

verus! {

pub fn shift_ident(id: &Ident, delta: i64) -> (r: Ident)
    ensures
        ident_v(r) == shift_ident_v(ident_v(*id), delta),
{
    Ident { name: id.name.clone(), span: id.span.shifted(delta) }
}

fn shift_idents(ps: &Vec<Ident>, delta: i64) -> (r: Vec<Ident>)
    ensures
        idents_v(r@) == shift_idents_v(idents_v(ps@), delta),
{
    let mut out: Vec<Ident> = Vec::new();
    let mut i: usize = 0;
    while i < ps.len()
        invariant
            i <= ps@.len(),
            out@.len() == i,
            forall|j: int| 0 <= j < i ==> #[trigger] ident_v(out@[j]) == shift_ident_v(ident_v(ps@[j]), delta),
        decreases ps@.len() - i,
    {
        out.push(shift_ident(&ps[i], delta));
        i = i + 1;
    }
    assert(idents_v(out@) =~= shift_idents_v(idents_v(ps@), delta));
    out
}

/// The statement moved by `delta` bytes.
pub fn shift_stmt(stmt: &Stmt, delta: i64) -> (r: Stmt)
    ensures
        stmt_v(r) == shift_stmt_v(stmt_v(*stmt), delta),
    decreases stmt,
{
    let kind = match &stmt.kind {
        StmtKind::Let(l) => StmtKind::Let(
            LetStmt { name: shift_ident(&l.name, delta), value: shift_expr(&l.value, delta) },
        ),
        StmtKind::Fn(f) => StmtKind::Fn(
            FnDecl {
                name: shift_ident(&f.name, delta),
                params: shift_idents(&f.params, delta),
                body: shift_block(&f.body, delta),
            },
        ),
        StmtKind::Expr(e) => StmtKind::Expr(shift_expr(e, delta)),
    };
    Stmt { kind, span: stmt.span.shifted(delta) }
}

fn shift_stmts(ss: &Vec<Stmt>, delta: i64) -> (r: Vec<Stmt>)
    ensures
        stmts_v(r@) == shift_stmts_v(stmts_v(ss@), delta),
    decreases ss,
{
    let mut out: Vec<Stmt> = Vec::new();
    let mut i: usize = 0;
    proof {
        lemma_stmts_v(ss@);
        assert(stmts_v(out@) =~= shift_stmts_v(stmts_v(ss@.subrange(0, 0)), delta));
    }
    while i < ss.len()
        invariant
            i <= ss@.len(),
            stmts_v(out@) == shift_stmts_v(stmts_v(ss@.subrange(0, i as int)), delta),
        decreases ss@.len() - i,
    {
        let s = shift_stmt(&ss[i], delta);
        proof {
            lemma_stmts_v_push_local(out@, s);
            assert(ss@.subrange(0, i + 1) =~= ss@.subrange(0, i as int).push(ss@[i as int]));
            lemma_stmts_v_push_local(ss@.subrange(0, i as int), ss@[i as int]);
            lemma_shift_stmts_push(stmts_v(ss@.subrange(0, i as int)), stmt_v(ss@[i as int]), delta);
        }
        out.push(s);
        i = i + 1;
    }
    assert(ss@.subrange(0, ss@.len() as int) =~= ss@);
    out
}

fn shift_exprs(es: &Vec<Expr>, delta: i64) -> (r: Vec<Expr>)
    ensures
        exprs_v(r@) == shift_exprs_v(exprs_v(es@), delta),
    decreases es,
{
    let mut out: Vec<Expr> = Vec::new();
    let mut i: usize = 0;
    proof {
        assert(exprs_v(out@) =~= shift_exprs_v(exprs_v(es@.subrange(0, 0)), delta));
    }
    while i < es.len()
        invariant
            i <= es@.len(),
            exprs_v(out@) == shift_exprs_v(exprs_v(es@.subrange(0, i as int)), delta),
        decreases es@.len() - i,
    {
        let e = shift_expr(&es[i], delta);
        proof {
            crate::ast::lemma_exprs_v_push(out@, e);
            assert(es@.subrange(0, i + 1) =~= es@.subrange(0, i as int).push(es@[i as int]));
            crate::ast::lemma_exprs_v_push(es@.subrange(0, i as int), es@[i as int]);
            lemma_shift_exprs_push(exprs_v(es@.subrange(0, i as int)), expr_v(es@[i as int]), delta);
        }
        out.push(e);
        i = i + 1;
    }
    assert(es@.subrange(0, es@.len() as int) =~= es@);
    out
}

proof fn lemma_stmts_v_push_local(ss: Seq<Stmt>, s: Stmt)
    ensures
        stmts_v(ss.push(s)) == stmts_v(ss).push(stmt_v(s)),
{
    crate::ast::lemma_stmts_v_push(ss, s);
}

/// The block moved by `delta` bytes.
pub fn shift_block(block: &Block, delta: i64) -> (r: Block)
    ensures
        block_v(r) == shift_block_v(block_v(*block), delta),
    decreases block,
{
    let stmts = shift_stmts(&block.stmts, delta);
    let tail = match &block.tail {
        Some(e) => Some(Box::new(shift_expr(e, delta))),
        None => None,
    };
    Block { stmts, tail, span: block.span.shifted(delta) }
}

/// The expression moved by `delta` bytes.
pub fn shift_expr(expr: &Expr, delta: i64) -> (r: Expr)
    ensures
        expr_v(r) == shift_expr_v(expr_v(*expr), delta),
    decreases expr,
{
    let kind = match &expr.kind {
        ExprKind::Int(v) => ExprKind::Int(*v),
        ExprKind::Bool(v) => ExprKind::Bool(*v),
        ExprKind::Name(n) => ExprKind::Name(n.clone()),
        ExprKind::Error => ExprKind::Error,
        ExprKind::Unary { op, expr } => ExprKind::Unary {
            op: *op,
            expr: Box::new(shift_expr(expr, delta)),
        },
        ExprKind::Binary { op, lhs, rhs } => ExprKind::Binary {
            op: *op,
            lhs: Box::new(shift_expr(lhs, delta)),
            rhs: Box::new(shift_expr(rhs, delta)),
        },
        ExprKind::Call { callee, args } => ExprKind::Call {
            callee: Box::new(shift_expr(callee, delta)),
            args: shift_exprs(args, delta),
        },
        ExprKind::If { cond, then_block, else_block } => ExprKind::If {
            cond: Box::new(shift_expr(cond, delta)),
            then_block: shift_block(then_block, delta),
            else_block: match else_block {
                Some(b) => Some(shift_block(b, delta)),
                None => None,
            },
        },
        ExprKind::Block(b) => ExprKind::Block(shift_block(b, delta)),
        ExprKind::Paren(e) => ExprKind::Paren(Box::new(shift_expr(e, delta))),
    };
    Expr { kind, span: expr.span.shifted(delta) }
}

} // verus!

verus! {

pub proof fn lemma_shift_zero_expr(e: ExprV)
    ensures
        shift_expr_v(e, 0) == e,
    decreases e,
{
    match e.kind {
        ExprKindV::Unary { op, expr } => {
            lemma_shift_zero_expr(*expr);
        },
        ExprKindV::Binary { op, lhs, rhs } => {
            lemma_shift_zero_expr(*lhs);
            lemma_shift_zero_expr(*rhs);
        },
        ExprKindV::Call { callee, args } => {
            lemma_shift_zero_expr(*callee);
            lemma_shift_zero_exprs(args);
        },
        ExprKindV::If { cond, then_block, else_block } => {
            lemma_shift_zero_expr(*cond);
            lemma_shift_zero_block(then_block);
            match else_block {
                Some(b) => {
                    lemma_shift_zero_block(b);
                },
                None => {},
            }
        },
        ExprKindV::Block { block } => {
            lemma_shift_zero_block(block);
        },
        ExprKindV::Paren { inner } => {
            lemma_shift_zero_expr(*inner);
        },
        _ => {},
    }
    assert(shift_expr_v(e, 0).kind == e.kind);
}

pub proof fn lemma_shift_zero_exprs(es: Seq<ExprV>)
    ensures
        shift_exprs_v(es, 0) == es,
    decreases es,
{
    if es.len() > 0 {
        lemma_shift_zero_expr(es[0]);
        lemma_shift_zero_exprs(es.subrange(1, es.len() as int));
        assert(shift_exprs_v(es, 0) =~= es);
    } else {
        assert(shift_exprs_v(es, 0) =~= es);
    }
}

pub proof fn lemma_shift_zero_block(b: BlockV)
    ensures
        shift_block_v(b, 0) == b,
    decreases b,
{
    lemma_shift_zero_stmts(b.stmts);
    match b.tail {
        Some(t) => {
            lemma_shift_zero_expr(*t);
        },
        None => {},
    }
}

pub proof fn lemma_shift_zero_stmt(s: StmtV)
    ensures
        shift_stmt_v(s, 0) == s,
    decreases s,
{
    match s.kind {
        StmtKindV::Let { name, value } => {
            lemma_shift_zero_expr(value);
        },
        StmtKindV::Fn { name, params, body } => {
            assert(shift_idents_v(params, 0) =~= params);
            lemma_shift_zero_block(body);
        },
        StmtKindV::Expr { expr } => {
            lemma_shift_zero_expr(expr);
        },
    }
    assert(shift_stmt_v(s, 0).kind == s.kind);
}

pub proof fn lemma_shift_zero_stmts(ss: Seq<StmtV>)
    ensures
        shift_stmts_v(ss, 0) == ss,
    decreases ss,
{
    if ss.len() > 0 {
        lemma_shift_zero_stmt(ss[0]);
        lemma_shift_zero_stmts(ss.subrange(1, ss.len() as int));
        assert(shift_stmts_v(ss, 0) =~= ss);
    } else {
        assert(shift_stmts_v(ss, 0) =~= ss);
    }
}

/// A deep copy of a statement.
pub fn copy_stmt(s: &Stmt) -> (r: Stmt)
    ensures
        stmt_v(r) == stmt_v(*s),
{
    proof {
        lemma_shift_zero_stmt(stmt_v(*s));
    }
    shift_stmt(s, 0)
}

impl Clone for Expr {
    /// A deep copy.
    fn clone(&self) -> (r: Self)
        ensures
            expr_v(r) == expr_v(*self),
    {
        proof {
            lemma_shift_zero_expr(expr_v(*self));
        }
        shift_expr(self, 0)
    }
}

impl Clone for Block {
    /// A deep copy.
    fn clone(&self) -> (r: Self)
        ensures
            block_v(r) == block_v(*self),
    {
        proof {
            lemma_shift_zero_block(block_v(*self));
        }
        shift_block(self, 0)
    }
}

impl Clone for Stmt {
    /// A deep copy.
    fn clone(&self) -> (r: Self)
        ensures
            stmt_v(r) == stmt_v(*self),
    {
        copy_stmt(self)
    }
}

impl Clone for LetStmt {
    /// A deep copy.
    fn clone(&self) -> (r: Self)
        ensures
            ident_v(r.name) == ident_v(self.name),
            expr_v(r.value) == expr_v(self.value),
    {
        LetStmt { name: shift_ident(&self.name, 0), value: self.value.clone() }
    }
}

impl Clone for FnDecl {
    /// A deep copy.
    fn clone(&self) -> (r: Self)
        ensures
            ident_v(r.name) == ident_v(self.name),
            block_v(r.body) == block_v(self.body),
    {
        FnDecl { name: shift_ident(&self.name, 0), params: shift_idents(&self.params, 0), body: self.body.clone() }
    }
}

impl Clone for StmtKind {
    /// A deep copy.
    fn clone(&self) -> (r: Self) {
        match self {
            StmtKind::Let(l) => StmtKind::Let(l.clone()),
            StmtKind::Fn(f) => StmtKind::Fn(f.clone()),
            StmtKind::Expr(e) => StmtKind::Expr(e.clone()),
        }
    }
}

impl Clone for ExprKind {
    /// A deep copy.
    fn clone(&self) -> (r: Self) {
        match self {
            ExprKind::Int(v) => ExprKind::Int(*v),
            ExprKind::Bool(v) => ExprKind::Bool(*v),
            ExprKind::Name(n) => ExprKind::Name(n.clone()),
            ExprKind::Error => ExprKind::Error,
            ExprKind::Unary { op, expr } => ExprKind::Unary { op: *op, expr: Box::new(shift_expr(expr, 0)) },
            ExprKind::Binary { op, lhs, rhs } => ExprKind::Binary {
                op: *op,
                lhs: Box::new(shift_expr(lhs, 0)),
                rhs: Box::new(shift_expr(rhs, 0)),
            },
            ExprKind::Call { callee, args } => ExprKind::Call {
                callee: Box::new(shift_expr(callee, 0)),
                args: shift_exprs(args, 0),
            },
            ExprKind::If { cond, then_block, else_block } => ExprKind::If {
                cond: Box::new(shift_expr(cond, 0)),
                then_block: shift_block(then_block, 0),
                else_block: match else_block {
                    Some(b) => Some(shift_block(b, 0)),
                    None => None,
                },
            },
            ExprKind::Block(b) => ExprKind::Block(shift_block(b, 0)),
            ExprKind::Paren(e) => ExprKind::Paren(Box::new(shift_expr(e, 0))),
        }
    }
}

} // verus!
