//! Declaring one name twice in one scope is reported; shadowing is not.
//!
//! The walk of `resolve_spec` only ever adds to the diagnostics, leaves the
//! outer scopes as they were and only adds bindings to the innermost one. From
//! that, a second declaration of a name in one scope (the top level of a
//! program, or a block with its parameters) always leaves a `Redefinition`
//! diagnostic at the second declaration; and since only the innermost scope is
//! consulted, reusing a name of an enclosing scope (shadowing) never does.

use vstd::prelude::*;
use crate::ast::{IdentV, StmtV, StmtKindV, BlockV, ExprV, ExprKindV};
use crate::diagnostics::{DiagKind, DiagV, error_v};
use crate::resolve_spec::{
    RS, FrameV, empty_rs, push_frame, pop_frame, frame_has, top_has, msg_redefined, msg_unresolved,
    declare_seq, declare_fn, r_params, r_hoist, r_block, r_stmts, r_stmt, r_exprs, r_expr, r_name,
    r_program,
};
use crate::resolver::BindingKind;
use crate::span::Span;

verus! {

/// `b` begins with all of `a`.
pub open spec fn starts_with<A>(b: Seq<A>, a: Seq<A>) -> bool {
    a.len() <= b.len() && forall|i: int| 0 <= i < a.len() ==> #[trigger] b[i] == a[i]
}

/// From scopes `a` to scopes `b`: the same number of scopes, the outer ones
/// unchanged, and the innermost one only added to.
pub open spec fn scopes_grow(a: Seq<FrameV>, b: Seq<FrameV>) -> bool {
    &&& a.len() > 0
    &&& b.len() == a.len()
    &&& forall|k: int| 0 <= k < a.len() - 1 ==> #[trigger] b[k] == a[k]
    &&& starts_with(b.last().fns, a.last().fns)
    &&& starts_with(b.last().seq, a.last().seq)
}

/// The diagnostics `ds` report that `name`, declared at `span`, is already
/// defined in its scope.
pub open spec fn has_redefinition(ds: Seq<DiagV>, name: Seq<char>, span: Span) -> bool {
    exists|k: int|
        0 <= k < ds.len() && #[trigger] ds[k] == error_v(
            span,
            DiagKind::Redefinition,
            msg_redefined(name),
        )
}

/// The name a function declaration declares.
pub open spec fn fn_ident(s: StmtV) -> Option<IdentV> {
    match s.kind {
        StmtKindV::Fn { name, .. } => Some(name),
        _ => None,
    }
}

/// The name a `let` statement declares.
pub open spec fn let_ident(s: StmtV) -> Option<IdentV> {
    match s.kind {
        StmtKindV::Let { name, .. } => Some(name),
        _ => None,
    }
}

proof fn lemma_grow_trans(a: Seq<FrameV>, b: Seq<FrameV>, c: Seq<FrameV>)
    requires
        scopes_grow(a, b),
        scopes_grow(b, c),
    ensures
        scopes_grow(a, c),
{
    assert forall|k: int| 0 <= k < a.len() - 1 implies #[trigger] c[k] == a[k] by {
        assert(b[k] == a[k]);
    }
}

proof fn lemma_grow_has(a: Seq<FrameV>, b: Seq<FrameV>, name: Seq<char>)
    requires
        scopes_grow(a, b),
        frame_has(a.last(), name),
    ensures
        frame_has(b.last(), name),
{
    let fa = a.last();
    let fb = b.last();
    if exists|i: int| 0 <= i < fa.fns.len() && (#[trigger] fa.fns[i]).0 == name {
        let i = choose|i: int| 0 <= i < fa.fns.len() && (#[trigger] fa.fns[i]).0 == name;
        assert(fb.fns[i] == fa.fns[i]);
    } else {
        let i = choose|i: int| 0 <= i < fa.seq.len() && (#[trigger] fa.seq[i]).0 == name;
        assert(fb.seq[i] == fa.seq[i]);
    }
}

proof fn lemma_redef_kept(ds: Seq<DiagV>, ds2: Seq<DiagV>, name: Seq<char>, span: Span)
    requires
        starts_with(ds2, ds),
        has_redefinition(ds, name, span),
    ensures
        has_redefinition(ds2, name, span),
{
    let k = choose|k: int|
        0 <= k < ds.len() && #[trigger] ds[k] == error_v(
            span,
            DiagKind::Redefinition,
            msg_redefined(name),
        );
    assert(ds2[k] == ds[k]);
}

proof fn lemma_keep_declare(r: RS, name: Seq<char>, kind: BindingKind, span: Span, arity: usize)
    requires
        r.stack.len() > 0,
    ensures
        scopes_grow(r.stack, declare_seq(r, name, kind, span).stack),
        scopes_grow(r.stack, declare_fn(r, name, span, arity).stack),
        starts_with(declare_seq(r, name, kind, span).diags, r.diags),
        starts_with(declare_fn(r, name, span, arity).diags, r.diags),
        frame_has(declare_seq(r, name, kind, span).stack.last(), name),
        frame_has(declare_fn(r, name, span, arity).stack.last(), name),
        top_has(r, name) ==> has_redefinition(declare_seq(r, name, kind, span).diags, name, span),
        top_has(r, name) ==> has_redefinition(declare_fn(r, name, span, arity).diags, name, span),
{
    let a = declare_seq(r, name, kind, span);
    let b = declare_fn(r, name, span, arity);
    let f = r.stack.last();
    assert(a.stack.last().seq[f.seq.len() as int].0 == name);
    assert(b.stack.last().fns[f.fns.len() as int].0 == name);
    if top_has(r, name) {
        assert(a.diags[r.diags.len() as int] == error_v(
            span,
            DiagKind::Redefinition,
            msg_redefined(name),
        ));
        assert(b.diags[r.diags.len() as int] == error_v(
            span,
            DiagKind::Redefinition,
            msg_redefined(name),
        ));
    }
}

proof fn lemma_keep_params(r: RS, ps: Seq<IdentV>)
    requires
        r.stack.len() > 0,
    ensures
        scopes_grow(r.stack, r_params(r, ps).stack),
        starts_with(r_params(r, ps).diags, r.diags),
    decreases ps.len(),
{
    if ps.len() > 0 {
        let r1 = declare_seq(r, ps[0].name, BindingKind::Param, ps[0].span);
        lemma_keep_declare(r, ps[0].name, BindingKind::Param, ps[0].span, 0);
        lemma_keep_params(r1, ps.drop_first());
        lemma_grow_trans(r.stack, r1.stack, r_params(r, ps).stack);
    }
}

proof fn lemma_keep_hoist(r: RS, ss: Seq<StmtV>)
    requires
        r.stack.len() > 0,
    ensures
        scopes_grow(r.stack, r_hoist(r, ss).stack),
        starts_with(r_hoist(r, ss).diags, r.diags),
    decreases ss.len(),
{
    if ss.len() > 0 {
        match ss[0].kind {
            StmtKindV::Fn { name, params, body: _ } => {
                let ar = params.len() as usize;
                let r1 = declare_fn(r, name.name, name.span, ar);
                lemma_keep_declare(r, name.name, BindingKind::Fn, name.span, ar);
                lemma_keep_hoist(r1, ss.drop_first());
                lemma_grow_trans(r.stack, r1.stack, r_hoist(r, ss).stack);
            },
            _ => {
                lemma_keep_hoist(r, ss.drop_first());
            },
        }
    }
}

proof fn lemma_keep_block(r: RS, b: BlockV, params: Seq<IdentV>)
    ensures
        r_block(r, b, params).stack == r.stack,
        starts_with(r_block(r, b, params).diags, r.diags),
    decreases b,
{
    let r0 = push_frame(r);
    let r1 = r_params(r0, params);
    let r2 = r_hoist(r1, b.stmts);
    let r3 = r_stmts(r2, b.stmts);
    lemma_keep_params(r0, params);
    lemma_keep_hoist(r1, b.stmts);
    lemma_keep_stmts(r2, b.stmts);
    lemma_grow_trans(r0.stack, r1.stack, r2.stack);
    lemma_grow_trans(r0.stack, r2.stack, r3.stack);
    let r4 = match b.tail {
        Some(e) => r_expr(r3, *e),
        None => r3,
    };
    match b.tail {
        Some(e) => {
            lemma_keep_expr(r3, *e);
        },
        None => {},
    }
    assert(scopes_grow(r0.stack, r4.stack));
    assert forall|k: int| 0 <= k < r.stack.len() implies #[trigger] r4.stack[k] == r.stack[k] by {
        assert(r0.stack[k] == r.stack[k]);
    }
    assert(pop_frame(r4).stack =~= r.stack);
}

proof fn lemma_keep_stmts(r: RS, ss: Seq<StmtV>)
    requires
        r.stack.len() > 0,
    ensures
        scopes_grow(r.stack, r_stmts(r, ss).stack),
        starts_with(r_stmts(r, ss).diags, r.diags),
    decreases ss,
{
    if ss.len() > 0 {
        let r1 = r_stmt(r, ss[0]);
        lemma_keep_stmt(r, ss[0]);
        lemma_keep_stmts(r1, ss.subrange(1, ss.len() as int));
        lemma_grow_trans(r.stack, r1.stack, r_stmts(r, ss).stack);
    }
}

proof fn lemma_keep_stmt(r: RS, s: StmtV)
    requires
        r.stack.len() > 0,
    ensures
        scopes_grow(r.stack, r_stmt(r, s).stack),
        starts_with(r_stmt(r, s).diags, r.diags),
    decreases s,
{
    match s.kind {
        StmtKindV::Let { name, value } => {
            lemma_keep_expr(r, value);
            lemma_keep_declare(r_expr(r, value), name.name, BindingKind::Let, name.span, 0);
        },
        StmtKindV::Fn { name: _, params, body } => {
            lemma_keep_block(r, body, params);
        },
        StmtKindV::Expr { expr } => {
            lemma_keep_expr(r, expr);
        },
    }
}

proof fn lemma_keep_exprs(r: RS, es: Seq<ExprV>)
    ensures
        r_exprs(r, es).stack == r.stack,
        starts_with(r_exprs(r, es).diags, r.diags),
    decreases es,
{
    if es.len() > 0 {
        lemma_keep_expr(r, es[0]);
        lemma_keep_exprs(r_expr(r, es[0]), es.subrange(1, es.len() as int));
    }
}

proof fn lemma_keep_expr(r: RS, e: ExprV)
    ensures
        r_expr(r, e).stack == r.stack,
        starts_with(r_expr(r, e).diags, r.diags),
    decreases e,
{
    match e.kind {
        ExprKindV::Unary { op: _, expr } => {
            lemma_keep_expr(r, *expr);
        },
        ExprKindV::Binary { op: _, lhs, rhs } => {
            lemma_keep_expr(r, *lhs);
            lemma_keep_expr(r_expr(r, *lhs), *rhs);
        },
        ExprKindV::Call { callee, args } => {
            lemma_keep_expr(r, *callee);
            lemma_keep_exprs(r_expr(r, *callee), args);
        },
        ExprKindV::If { cond, then_block, else_block } => {
            lemma_keep_expr(r, *cond);
            let r1 = r_expr(r, *cond);
            lemma_keep_block(r1, then_block, seq![]);
            match else_block {
                Some(b) => {
                    lemma_keep_block(r_block(r1, then_block, seq![]), b, seq![]);
                },
                None => {},
            }
        },
        ExprKindV::Block { block } => {
            lemma_keep_block(r, block, seq![]);
        },
        ExprKindV::Paren { inner } => {
            lemma_keep_expr(r, *inner);
        },
        _ => {},
    }
}


/// After hoisting, the innermost scope holds every function the statements
/// declare.
proof fn lemma_hoist_holds(r: RS, ss: Seq<StmtV>, i: int)
    requires
        r.stack.len() > 0,
        0 <= i < ss.len(),
        fn_ident(ss[i]) is Some,
    ensures
        top_has(r_hoist(r, ss), fn_ident(ss[i]).unwrap().name),
    decreases ss.len(),
{
    let name = fn_ident(ss[i]).unwrap().name;
    match ss[0].kind {
        StmtKindV::Fn { name: nm, params, body: _ } => {
            let ar = params.len() as usize;
            let r1 = declare_fn(r, nm.name, nm.span, ar);
            lemma_keep_declare(r, nm.name, BindingKind::Fn, nm.span, ar);
            lemma_keep_hoist(r1, ss.drop_first());
            if i == 0 {
                lemma_grow_has(r1.stack, r_hoist(r1, ss.drop_first()).stack, name);
            } else {
                assert(ss.drop_first()[i - 1] == ss[i]);
                lemma_hoist_holds(r1, ss.drop_first(), i - 1);
            }
        },
        _ => {
            assert(i > 0);
            assert(ss.drop_first()[i - 1] == ss[i]);
            lemma_hoist_holds(r, ss.drop_first(), i - 1);
        },
    }
}

/// Hoisting a function whose name the scope already holds, or that an earlier
/// function of the same statements declares, reports a redefinition at it.
proof fn lemma_hoist_redef(r: RS, ss: Seq<StmtV>, j: int, name: Seq<char>, span: Span)
    requires
        r.stack.len() > 0,
        0 <= j < ss.len(),
        fn_ident(ss[j]) == Some(IdentV { name, span }),
        top_has(r, name) || exists|i: int|
            0 <= i < j && (#[trigger] fn_ident(ss[i])) is Some && fn_ident(ss[i]).unwrap().name
                == name,
    ensures
        has_redefinition(r_hoist(r, ss).diags, name, span),
    decreases ss.len(),
{
    let rest = ss.drop_first();
    match ss[0].kind {
        StmtKindV::Fn { name: nm, params, body: _ } => {
            let ar = params.len() as usize;
            let r1 = declare_fn(r, nm.name, nm.span, ar);
            lemma_keep_declare(r, nm.name, BindingKind::Fn, nm.span, ar);
            if j == 0 {
                lemma_keep_hoist(r1, rest);
                lemma_redef_kept(r1.diags, r_hoist(r1, rest).diags, name, span);
            } else {
                assert(rest[j - 1] == ss[j]);
                if nm.name == name {
                    assert(top_has(r1, name));
                } else if top_has(r, name) {
                    lemma_grow_has(r.stack, r1.stack, name);
                } else {
                    let i = choose|i: int|
                        0 <= i < j && (#[trigger] fn_ident(ss[i])) is Some && fn_ident(
                            ss[i],
                        ).unwrap().name == name;
                    assert(i > 0);
                    assert(rest[i - 1] == ss[i]);
                    assert(fn_ident(rest[i - 1]) is Some);
                }
                lemma_hoist_redef(r1, rest, j - 1, name, span);
            }
        },
        _ => {
            assert(j > 0);
            assert(rest[j - 1] == ss[j]);
            if !top_has(r, name) {
                let i = choose|i: int|
                    0 <= i < j && (#[trigger] fn_ident(ss[i])) is Some && fn_ident(
                        ss[i],
                    ).unwrap().name == name;
                assert(i > 0);
                assert(rest[i - 1] == ss[i]);
                assert(fn_ident(rest[i - 1]) is Some);
            }
            lemma_hoist_redef(r, rest, j - 1, name, span);
        },
    }
}

/// A `let` of a name the scope already holds, or that an earlier `let` of the
/// same statements declares, is reported as a redefinition at it.
proof fn lemma_stmts_redef(r: RS, ss: Seq<StmtV>, j: int, name: Seq<char>, span: Span)
    requires
        r.stack.len() > 0,
        0 <= j < ss.len(),
        let_ident(ss[j]) == Some(IdentV { name, span }),
        top_has(r, name) || exists|i: int|
            0 <= i < j && (#[trigger] let_ident(ss[i])) is Some && let_ident(ss[i]).unwrap().name
                == name,
    ensures
        has_redefinition(r_stmts(r, ss).diags, name, span),
    decreases ss.len(),
{
    let rest = ss.subrange(1, ss.len() as int);
    let r1 = r_stmt(r, ss[0]);
    lemma_keep_stmt(r, ss[0]);
    lemma_keep_stmts(r1, rest);
    if j == 0 {
        match ss[0].kind {
            StmtKindV::Let { name: nm, value } => {
                lemma_keep_expr(r, value);
                lemma_keep_declare(r_expr(r, value), nm.name, BindingKind::Let, nm.span, 0);
            },
            _ => {},
        }
        lemma_redef_kept(r1.diags, r_stmts(r1, rest).diags, name, span);
    } else {
        assert(rest[j - 1] == ss[j]);
        match ss[0].kind {
            StmtKindV::Let { name: nm, value } => {
                lemma_keep_expr(r, value);
                lemma_keep_declare(r_expr(r, value), nm.name, BindingKind::Let, nm.span, 0);
            },
            _ => {},
        }
        if let_ident(ss[0]) is Some && let_ident(ss[0]).unwrap().name == name {
            assert(top_has(r1, name));
        } else if top_has(r, name) {
            lemma_grow_has(r.stack, r1.stack, name);
        } else {
            let i = choose|i: int|
                0 <= i < j && (#[trigger] let_ident(ss[i])) is Some && let_ident(
                    ss[i],
                ).unwrap().name == name;
            assert(i > 0);
            assert(rest[i - 1] == ss[i]);
            assert(let_ident(rest[i - 1]) is Some);
        }
        lemma_stmts_redef(r1, rest, j - 1, name, span);
    }
}

/// Declaring a name twice in a program's top level scope is reported as a
/// `Redefinition` diagnostic, "`name` is already defined in this scope", at
/// the second declaration: of two functions with one name, at the later
/// function's name; of two `let`s, at the later `let`'s name; and of a
/// function and a `let`, at the `let`'s name wherever the function stands,
/// since functions are declared (hoisted) before any `let` of their scope.
pub proof fn law_redefinition_reported(p: Seq<StmtV>, i: int, j: int)
    requires
        0 <= i < p.len(),
        0 <= j < p.len(),
    ensures
        i < j && fn_ident(p[i]) is Some && fn_ident(p[j]) is Some && fn_ident(p[i]).unwrap().name
            == fn_ident(p[j]).unwrap().name ==> has_redefinition(
            r_program(p).diags,
            fn_ident(p[j]).unwrap().name,
            fn_ident(p[j]).unwrap().span,
        ),
        i < j && let_ident(p[i]) is Some && let_ident(p[j]) is Some && let_ident(p[i]).unwrap().name
            == let_ident(p[j]).unwrap().name ==> has_redefinition(
            r_program(p).diags,
            let_ident(p[j]).unwrap().name,
            let_ident(p[j]).unwrap().span,
        ),
        fn_ident(p[i]) is Some && let_ident(p[j]) is Some && fn_ident(p[i]).unwrap().name
            == let_ident(p[j]).unwrap().name ==> has_redefinition(
            r_program(p).diags,
            let_ident(p[j]).unwrap().name,
            let_ident(p[j]).unwrap().span,
        ),
{
    let r0 = push_frame(empty_rs());
    let r1 = r_hoist(r0, p);
    let r2 = r_stmts(r1, p);
    lemma_keep_hoist(r0, p);
    lemma_keep_stmts(r1, p);
    assert(r_program(p).diags == r2.diags);
    if i < j && fn_ident(p[i]) is Some && fn_ident(p[j]) is Some && fn_ident(p[i]).unwrap().name
        == fn_ident(p[j]).unwrap().name {
        let id = fn_ident(p[j]).unwrap();
        assert(fn_ident(p[i]) is Some);
        lemma_hoist_redef(r0, p, j, id.name, id.span);
        lemma_redef_kept(r1.diags, r2.diags, id.name, id.span);
    }
    if i < j && let_ident(p[i]) is Some && let_ident(p[j]) is Some && let_ident(p[i]).unwrap().name
        == let_ident(p[j]).unwrap().name {
        let id = let_ident(p[j]).unwrap();
        assert(let_ident(p[i]) is Some);
        lemma_stmts_redef(r1, p, j, id.name, id.span);
    }
    if fn_ident(p[i]) is Some && let_ident(p[j]) is Some && fn_ident(p[i]).unwrap().name
        == let_ident(p[j]).unwrap().name {
        let id = let_ident(p[j]).unwrap();
        lemma_hoist_holds(r0, p, i);
        lemma_stmts_redef(r1, p, j, id.name, id.span);
    }
}

/// After declaring parameters, the innermost scope holds each of them.
proof fn lemma_params_hold(r: RS, ps: Seq<IdentV>, i: int)
    requires
        r.stack.len() > 0,
        0 <= i < ps.len(),
    ensures
        top_has(r_params(r, ps), ps[i].name),
    decreases ps.len(),
{
    let r1 = declare_seq(r, ps[0].name, BindingKind::Param, ps[0].span);
    lemma_keep_declare(r, ps[0].name, BindingKind::Param, ps[0].span, 0);
    lemma_keep_params(r1, ps.drop_first());
    if i == 0 {
        lemma_grow_has(r1.stack, r_params(r1, ps.drop_first()).stack, ps[i].name);
    } else {
        assert(ps.drop_first()[i - 1] == ps[i]);
        lemma_params_hold(r1, ps.drop_first(), i - 1);
    }
}

/// A parameter whose name an earlier parameter has is reported as a
/// redefinition at it.
proof fn lemma_params_redef(r: RS, ps: Seq<IdentV>, i: int, j: int)
    requires
        r.stack.len() > 0,
        0 <= i < j < ps.len(),
        ps[i].name == ps[j].name,
    ensures
        has_redefinition(r_params(r, ps).diags, ps[j].name, ps[j].span),
    decreases ps.len(),
{
    let r1 = declare_seq(r, ps[0].name, BindingKind::Param, ps[0].span);
    let rest = ps.drop_first();
    lemma_keep_declare(r, ps[0].name, BindingKind::Param, ps[0].span, 0);
    if i == 0 {
        assert(rest[j - 1] == ps[j]);
        lemma_params_found(r1, rest, j - 1);
    } else {
        assert(rest[i - 1] == ps[i]);
        assert(rest[j - 1] == ps[j]);
        lemma_params_redef(r1, rest, i - 1, j - 1);
    }
}

/// A parameter whose name the scope already holds is reported as a
/// redefinition at it.
proof fn lemma_params_found(r: RS, ps: Seq<IdentV>, j: int)
    requires
        r.stack.len() > 0,
        0 <= j < ps.len(),
        top_has(r, ps[j].name),
    ensures
        has_redefinition(r_params(r, ps).diags, ps[j].name, ps[j].span),
    decreases ps.len(),
{
    let r1 = declare_seq(r, ps[0].name, BindingKind::Param, ps[0].span);
    let rest = ps.drop_first();
    lemma_keep_declare(r, ps[0].name, BindingKind::Param, ps[0].span, 0);
    lemma_keep_params(r1, rest);
    if j == 0 {
        lemma_redef_kept(r1.diags, r_params(r1, rest).diags, ps[j].name, ps[j].span);
    } else {
        assert(rest[j - 1] == ps[j]);
        lemma_grow_has(r.stack, r1.stack, ps[j].name);
        lemma_params_found(r1, rest, j - 1);
    }
}

/// What a block's walk reports in its statements is what the whole block
/// reports.
proof fn lemma_block_keeps(r: RS, b: BlockV, params: Seq<IdentV>, name: Seq<char>, span: Span)
    requires
        has_redefinition(
            r_stmts(r_hoist(r_params(push_frame(r), params), b.stmts), b.stmts).diags,
            name,
            span,
        ),
    ensures
        has_redefinition(r_block(r, b, params).diags, name, span),
{
    let r3 = r_stmts(r_hoist(r_params(push_frame(r), params), b.stmts), b.stmts);
    match b.tail {
        Some(e) => {
            lemma_keep_expr(r3, *e);
            lemma_redef_kept(r3.diags, r_expr(r3, *e).diags, name, span);
        },
        None => {},
    }
}

/// Declaring a name twice in one block's scope is reported as a
/// `Redefinition` diagnostic at the second declaration, as at the top level:
/// of two functions, at the later one; of two `let`s, at the later one; of a
/// function and a `let`, at the `let`.
pub proof fn law_block_redefinition_reported(r: RS, b: BlockV, params: Seq<IdentV>, i: int, j: int)
    requires
        0 <= i < b.stmts.len(),
        0 <= j < b.stmts.len(),
    ensures
        i < j && fn_ident(b.stmts[i]) is Some && fn_ident(b.stmts[j]) is Some && fn_ident(
            b.stmts[i],
        ).unwrap().name == fn_ident(b.stmts[j]).unwrap().name ==> has_redefinition(
            r_block(r, b, params).diags,
            fn_ident(b.stmts[j]).unwrap().name,
            fn_ident(b.stmts[j]).unwrap().span,
        ),
        i < j && let_ident(b.stmts[i]) is Some && let_ident(b.stmts[j]) is Some && let_ident(
            b.stmts[i],
        ).unwrap().name == let_ident(b.stmts[j]).unwrap().name ==> has_redefinition(
            r_block(r, b, params).diags,
            let_ident(b.stmts[j]).unwrap().name,
            let_ident(b.stmts[j]).unwrap().span,
        ),
        fn_ident(b.stmts[i]) is Some && let_ident(b.stmts[j]) is Some && fn_ident(
            b.stmts[i],
        ).unwrap().name == let_ident(b.stmts[j]).unwrap().name ==> has_redefinition(
            r_block(r, b, params).diags,
            let_ident(b.stmts[j]).unwrap().name,
            let_ident(b.stmts[j]).unwrap().span,
        ),
{
    let ss = b.stmts;
    let r0 = push_frame(r);
    let r1 = r_params(r0, params);
    let r2 = r_hoist(r1, ss);
    let r3 = r_stmts(r2, ss);
    lemma_keep_params(r0, params);
    lemma_keep_hoist(r1, ss);
    lemma_keep_stmts(r2, ss);
    if i < j && fn_ident(ss[i]) is Some && fn_ident(ss[j]) is Some && fn_ident(ss[i]).unwrap().name
        == fn_ident(ss[j]).unwrap().name {
        let id = fn_ident(ss[j]).unwrap();
        assert(fn_ident(ss[i]) is Some);
        lemma_hoist_redef(r1, ss, j, id.name, id.span);
        lemma_redef_kept(r2.diags, r3.diags, id.name, id.span);
        lemma_block_keeps(r, b, params, id.name, id.span);
    }
    if i < j && let_ident(ss[i]) is Some && let_ident(ss[j]) is Some && let_ident(ss[i]).unwrap().name
        == let_ident(ss[j]).unwrap().name {
        let id = let_ident(ss[j]).unwrap();
        assert(let_ident(ss[i]) is Some);
        lemma_stmts_redef(r2, ss, j, id.name, id.span);
        lemma_block_keeps(r, b, params, id.name, id.span);
    }
    if fn_ident(ss[i]) is Some && let_ident(ss[j]) is Some && fn_ident(ss[i]).unwrap().name
        == let_ident(ss[j]).unwrap().name {
        let id = let_ident(ss[j]).unwrap();
        lemma_hoist_holds(r1, ss, i);
        lemma_stmts_redef(r2, ss, j, id.name, id.span);
        lemma_block_keeps(r, b, params, id.name, id.span);
    }
}

/// A parameter's name is declared in its function's body scope first: a
/// later parameter of the same name is reported as a redefinition at that
/// parameter, and so is a `let` or a function of that name in the body, at
/// the `let` or the function.
pub proof fn law_params_redefinition_reported(
    r: RS,
    b: BlockV,
    params: Seq<IdentV>,
    i: int,
    j: int,
)
    requires
        0 <= i < params.len(),
        0 <= j,
    ensures
        i < j < params.len() && params[i].name == params[j].name ==> has_redefinition(
            r_block(r, b, params).diags,
            params[j].name,
            params[j].span,
        ),
        j < b.stmts.len() && let_ident(b.stmts[j]) is Some && let_ident(b.stmts[j]).unwrap().name
            == params[i].name ==> has_redefinition(
            r_block(r, b, params).diags,
            let_ident(b.stmts[j]).unwrap().name,
            let_ident(b.stmts[j]).unwrap().span,
        ),
        j < b.stmts.len() && fn_ident(b.stmts[j]) is Some && fn_ident(b.stmts[j]).unwrap().name
            == params[i].name ==> has_redefinition(
            r_block(r, b, params).diags,
            fn_ident(b.stmts[j]).unwrap().name,
            fn_ident(b.stmts[j]).unwrap().span,
        ),
{
    let ss = b.stmts;
    let r0 = push_frame(r);
    let r1 = r_params(r0, params);
    let r2 = r_hoist(r1, ss);
    let r3 = r_stmts(r2, ss);
    lemma_keep_params(r0, params);
    lemma_keep_hoist(r1, ss);
    lemma_keep_stmts(r2, ss);
    if i < j < params.len() && params[i].name == params[j].name {
        lemma_params_redef(r0, params, i, j);
        lemma_redef_kept(r1.diags, r2.diags, params[j].name, params[j].span);
        lemma_redef_kept(r2.diags, r3.diags, params[j].name, params[j].span);
        lemma_block_keeps(r, b, params, params[j].name, params[j].span);
    }
    if j < ss.len() && let_ident(ss[j]) is Some && let_ident(ss[j]).unwrap().name
        == params[i].name {
        let id = let_ident(ss[j]).unwrap();
        lemma_params_hold(r0, params, i);
        lemma_grow_has(r1.stack, r2.stack, id.name);
        lemma_stmts_redef(r2, ss, j, id.name, id.span);
        lemma_block_keeps(r, b, params, id.name, id.span);
    }
    if j < ss.len() && fn_ident(ss[j]) is Some && fn_ident(ss[j]).unwrap().name == params[i].name {
        let id = fn_ident(ss[j]).unwrap();
        lemma_params_hold(r0, params, i);
        lemma_hoist_redef(r1, ss, j, id.name, id.span);
        lemma_redef_kept(r2.diags, r3.diags, id.name, id.span);
        lemma_block_keeps(r, b, params, id.name, id.span);
    }
}

/// The redefinition diagnostics among `ds`, in order.
pub open spec fn redefinitions(ds: Seq<DiagV>) -> Seq<DiagV>
    decreases ds.len(),
{
    if ds.len() == 0 {
        seq![]
    } else if ds.last().kind == DiagKind::Redefinition {
        redefinitions(ds.drop_last()).push(ds.last())
    } else {
        redefinitions(ds.drop_last())
    }
}

/// The redefinition diagnostics a walk step added: those among the
/// diagnostics after the step that were not there before it.
pub open spec fn redefinitions_added(after: Seq<DiagV>, before: Seq<DiagV>) -> Seq<DiagV> {
    redefinitions(after.subrange(before.len() as int, after.len() as int))
}

/// Two scopes hold the same names, in the same order.
pub open spec fn same_names(f: FrameV, g: FrameV) -> bool {
    &&& f.fns.len() == g.fns.len()
    &&& f.seq.len() == g.seq.len()
    &&& forall|i: int| 0 <= i < f.fns.len() ==> (#[trigger] f.fns[i]).0 == g.fns[i].0
    &&& forall|i: int| 0 <= i < f.seq.len() ==> (#[trigger] f.seq[i]).0 == g.seq[i].0
}

/// The innermost `n` scopes of `a` and `b` hold the same names.
pub open spec fn inner_names_match(a: Seq<FrameV>, b: Seq<FrameV>, n: int) -> bool {
    &&& 0 <= n <= a.len()
    &&& n <= b.len()
    &&& forall|k: int|
        0 <= k < n ==> same_names(
            #[trigger] a[a.len() - n + k],
            b[b.len() - n + k],
        )
}

proof fn lemma_redefinitions_add(a: Seq<DiagV>, b: Seq<DiagV>)
    ensures
        redefinitions(a + b) == redefinitions(a) + redefinitions(b),
    decreases b.len(),
{
    if b.len() == 0 {
        assert(a + b =~= a);
        assert(redefinitions(a) + redefinitions(b) =~= redefinitions(a));
    } else {
        assert((a + b).drop_last() =~= a + b.drop_last());
        assert((a + b).last() == b.last());
        lemma_redefinitions_add(a, b.drop_last());
        assert(redefinitions(a + b) =~= redefinitions(a) + redefinitions(b));
    }
}

proof fn lemma_added_compose(a: Seq<DiagV>, b: Seq<DiagV>, c: Seq<DiagV>)
    requires
        starts_with(b, a),
        starts_with(c, b),
    ensures
        redefinitions_added(c, a) == redefinitions_added(b, a) + redefinitions_added(c, b),
{
    let x = c.subrange(a.len() as int, c.len() as int);
    let y = b.subrange(a.len() as int, b.len() as int);
    let z = c.subrange(b.len() as int, c.len() as int);
    assert(x =~= y + z);
    lemma_redefinitions_add(y, z);
}

proof fn lemma_added_none(a: Seq<DiagV>)
    ensures
        redefinitions_added(a, a) == Seq::<DiagV>::empty(),
{
    assert(a.subrange(a.len() as int, a.len() as int) =~= Seq::<DiagV>::empty());
}

proof fn lemma_added_one(a: Seq<DiagV>, d: DiagV)
    ensures
        redefinitions_added(a.push(d), a) == (if d.kind == DiagKind::Redefinition {
            seq![d]
        } else {
            Seq::<DiagV>::empty()
        }),
{
    let x = a.push(d).subrange(a.len() as int, a.len() as int + 1);
    assert(x =~= seq![d]);
    assert(x.drop_last() =~= Seq::<DiagV>::empty());
    assert(x.last() == d);
    assert(redefinitions(x.drop_last()) == Seq::<DiagV>::empty());
    if d.kind == DiagKind::Redefinition {
        assert(redefinitions(x) =~= seq![d]);
    } else {
        assert(redefinitions(x) =~= Seq::<DiagV>::empty());
    }
}

proof fn lemma_match_top(a: Seq<FrameV>, b: Seq<FrameV>, n: int, name: Seq<char>)
    requires
        inner_names_match(a, b, n),
        n >= 1,
    ensures
        frame_has(a.last(), name) == frame_has(b.last(), name),
{
    let k = n - 1;
    assert(same_names(a[a.len() - n + k], b[b.len() - n + k]));
    let f = a.last();
    let g = b.last();
    if exists|i: int| 0 <= i < f.fns.len() && (#[trigger] f.fns[i]).0 == name {
        let i = choose|i: int| 0 <= i < f.fns.len() && (#[trigger] f.fns[i]).0 == name;
        assert(g.fns[i].0 == name);
    }
    if exists|i: int| 0 <= i < f.seq.len() && (#[trigger] f.seq[i]).0 == name {
        let i = choose|i: int| 0 <= i < f.seq.len() && (#[trigger] f.seq[i]).0 == name;
        assert(g.seq[i].0 == name);
    }
    if exists|i: int| 0 <= i < g.fns.len() && (#[trigger] g.fns[i]).0 == name {
        let i = choose|i: int| 0 <= i < g.fns.len() && (#[trigger] g.fns[i]).0 == name;
        assert(f.fns[i].0 == name);
    }
    if exists|i: int| 0 <= i < g.seq.len() && (#[trigger] g.seq[i]).0 == name {
        let i = choose|i: int| 0 <= i < g.seq.len() && (#[trigger] g.seq[i]).0 == name;
        assert(f.seq[i].0 == name);
    }
}

proof fn lemma_match_declare(
    r: RS,
    r2: RS,
    n: int,
    name: Seq<char>,
    kind: BindingKind,
    span: Span,
    arity: usize,
)
    requires
        inner_names_match(r.stack, r2.stack, n),
        n >= 1,
    ensures
        inner_names_match(
            declare_seq(r, name, kind, span).stack,
            declare_seq(r2, name, kind, span).stack,
            n,
        ),
        inner_names_match(
            declare_fn(r, name, span, arity).stack,
            declare_fn(r2, name, span, arity).stack,
            n,
        ),
        redefinitions_added(declare_seq(r, name, kind, span).diags, r.diags)
            == redefinitions_added(declare_seq(r2, name, kind, span).diags, r2.diags),
        redefinitions_added(declare_fn(r, name, span, arity).diags, r.diags)
            == redefinitions_added(declare_fn(r2, name, span, arity).diags, r2.diags),
{
    lemma_match_top(r.stack, r2.stack, n, name);
    let d = error_v(span, DiagKind::Redefinition, msg_redefined(name));
    if top_has(r, name) {
        lemma_added_one(r.diags, d);
        lemma_added_one(r2.diags, d);
    } else {
        lemma_added_none(r.diags);
        lemma_added_none(r2.diags);
    }
    let a = declare_seq(r, name, kind, span).stack;
    let a2 = declare_seq(r2, name, kind, span).stack;
    let c = declare_fn(r, name, span, arity).stack;
    let c2 = declare_fn(r2, name, span, arity).stack;
    assert forall|k: int| 0 <= k < n implies same_names(
        #[trigger] a[a.len() - n + k],
        a2[a2.len() - n + k],
    ) by {
        assert(same_names(r.stack[r.stack.len() - n + k], r2.stack[r2.stack.len() - n + k]));
        if k == n - 1 {
            let f = r.stack.last();
            let g = r2.stack.last();
            assert(a[a.len() - n + k].seq =~= f.seq.push(a[a.len() - n + k].seq.last()));
            assert(a2[a2.len() - n + k].seq =~= g.seq.push(a2[a2.len() - n + k].seq.last()));
        }
    }
    assert forall|k: int| 0 <= k < n implies same_names(
        #[trigger] c[c.len() - n + k],
        c2[c2.len() - n + k],
    ) by {
        assert(same_names(r.stack[r.stack.len() - n + k], r2.stack[r2.stack.len() - n + k]));
        if k == n - 1 {
            let f = r.stack.last();
            let g = r2.stack.last();
            assert(c[c.len() - n + k].fns =~= f.fns.push(c[c.len() - n + k].fns.last()));
            assert(c2[c2.len() - n + k].fns =~= g.fns.push(c2[c2.len() - n + k].fns.last()));
        }
    }
}

proof fn lemma_added_chain(
    a: Seq<DiagV>,
    b: Seq<DiagV>,
    c: Seq<DiagV>,
    a2: Seq<DiagV>,
    b2: Seq<DiagV>,
    c2: Seq<DiagV>,
)
    requires
        starts_with(b, a),
        starts_with(c, b),
        starts_with(b2, a2),
        starts_with(c2, b2),
        redefinitions_added(b, a) == redefinitions_added(b2, a2),
        redefinitions_added(c, b) == redefinitions_added(c2, b2),
    ensures
        redefinitions_added(c, a) == redefinitions_added(c2, a2),
{
    lemma_added_compose(a, b, c);
    lemma_added_compose(a2, b2, c2);
}

proof fn lemma_same_name(r: RS, r2: RS, name: Seq<char>, span: Span)
    ensures
        redefinitions_added(r_name(r, name, span).diags, r.diags) == Seq::<DiagV>::empty(),
        redefinitions_added(r_name(r2, name, span).diags, r2.diags) == Seq::<DiagV>::empty(),
{
    let d = error_v(span, DiagKind::UnresolvedName, msg_unresolved(name));
    lemma_added_one(r.diags, d);
    lemma_added_one(r2.diags, d);
    lemma_added_none(r.diags);
    lemma_added_none(r2.diags);
}

proof fn lemma_same_params(r: RS, r2: RS, ps: Seq<IdentV>, n: int)
    requires
        inner_names_match(r.stack, r2.stack, n),
        n >= 1,
    ensures
        inner_names_match(r_params(r, ps).stack, r_params(r2, ps).stack, n),
        redefinitions_added(r_params(r, ps).diags, r.diags) == redefinitions_added(
            r_params(r2, ps).diags,
            r2.diags,
        ),
    decreases ps.len(),
{
    if ps.len() == 0 {
        lemma_added_none(r.diags);
        lemma_added_none(r2.diags);
    } else {
        let r1 = declare_seq(r, ps[0].name, BindingKind::Param, ps[0].span);
        let q1 = declare_seq(r2, ps[0].name, BindingKind::Param, ps[0].span);
        lemma_keep_declare(r, ps[0].name, BindingKind::Param, ps[0].span, 0);
        lemma_keep_declare(r2, ps[0].name, BindingKind::Param, ps[0].span, 0);
        lemma_match_declare(r, r2, n, ps[0].name, BindingKind::Param, ps[0].span, 0);
        lemma_same_params(r1, q1, ps.drop_first(), n);
        lemma_keep_params(r1, ps.drop_first());
        lemma_keep_params(q1, ps.drop_first());
        lemma_added_chain(
            r.diags,
            r1.diags,
            r_params(r, ps).diags,
            r2.diags,
            q1.diags,
            r_params(r2, ps).diags,
        );
    }
}

proof fn lemma_same_hoist(r: RS, r2: RS, ss: Seq<StmtV>, n: int)
    requires
        inner_names_match(r.stack, r2.stack, n),
        n >= 1,
    ensures
        inner_names_match(r_hoist(r, ss).stack, r_hoist(r2, ss).stack, n),
        redefinitions_added(r_hoist(r, ss).diags, r.diags) == redefinitions_added(
            r_hoist(r2, ss).diags,
            r2.diags,
        ),
    decreases ss.len(),
{
    if ss.len() == 0 {
        lemma_added_none(r.diags);
        lemma_added_none(r2.diags);
    } else {
        match ss[0].kind {
            StmtKindV::Fn { name, params, body: _ } => {
                let ar = params.len() as usize;
                let r1 = declare_fn(r, name.name, name.span, ar);
                let q1 = declare_fn(r2, name.name, name.span, ar);
                lemma_keep_declare(r, name.name, BindingKind::Fn, name.span, ar);
                lemma_keep_declare(r2, name.name, BindingKind::Fn, name.span, ar);
                lemma_match_declare(r, r2, n, name.name, BindingKind::Fn, name.span, ar);
                lemma_same_hoist(r1, q1, ss.drop_first(), n);
                lemma_keep_hoist(r1, ss.drop_first());
                lemma_keep_hoist(q1, ss.drop_first());
                lemma_added_chain(
                    r.diags,
                    r1.diags,
                    r_hoist(r, ss).diags,
                    r2.diags,
                    q1.diags,
                    r_hoist(r2, ss).diags,
                );
            },
            _ => {
                lemma_same_hoist(r, r2, ss.drop_first(), n);
            },
        }
    }
}

proof fn lemma_same_block(r: RS, r2: RS, b: BlockV, params: Seq<IdentV>, n: int)
    requires
        inner_names_match(r.stack, r2.stack, n),
    ensures
        redefinitions_added(r_block(r, b, params).diags, r.diags) == redefinitions_added(
            r_block(r2, b, params).diags,
            r2.diags,
        ),
    decreases b,
{
    let r0 = push_frame(r);
    let q0 = push_frame(r2);
    assert(inner_names_match(r0.stack, q0.stack, n + 1)) by {
        assert forall|k: int| 0 <= k < n + 1 implies same_names(
            #[trigger] r0.stack[r0.stack.len() - (n + 1) + k],
            q0.stack[q0.stack.len() - (n + 1) + k],
        ) by {
            if k < n {
                assert(r0.stack[r0.stack.len() - (n + 1) + k] == r.stack[r.stack.len() - n + k]);
                assert(q0.stack[q0.stack.len() - (n + 1) + k] == r2.stack[r2.stack.len() - n + k]);
            }
        }
    }
    let r1 = r_params(r0, params);
    let q1 = r_params(q0, params);
    let r2s = r_hoist(r1, b.stmts);
    let q2 = r_hoist(q1, b.stmts);
    let r3 = r_stmts(r2s, b.stmts);
    let q3 = r_stmts(q2, b.stmts);
    lemma_keep_params(r0, params);
    lemma_keep_params(q0, params);
    lemma_keep_hoist(r1, b.stmts);
    lemma_keep_hoist(q1, b.stmts);
    lemma_keep_stmts(r2s, b.stmts);
    lemma_keep_stmts(q2, b.stmts);
    lemma_same_params(r0, q0, params, n + 1);
    lemma_same_hoist(r1, q1, b.stmts, n + 1);
    lemma_same_stmts(r2s, q2, b.stmts, n + 1);
    lemma_added_chain(r0.diags, r1.diags, r2s.diags, q0.diags, q1.diags, q2.diags);
    lemma_added_chain(r0.diags, r2s.diags, r3.diags, q0.diags, q2.diags, q3.diags);
    match b.tail {
        Some(e) => {
            lemma_keep_expr(r3, *e);
            lemma_keep_expr(q3, *e);
            lemma_same_expr(r3, q3, *e, n + 1);
            lemma_added_chain(
                r0.diags,
                r3.diags,
                r_expr(r3, *e).diags,
                q0.diags,
                q3.diags,
                r_expr(q3, *e).diags,
            );
        },
        None => {},
    }
}

proof fn lemma_same_stmts(r: RS, r2: RS, ss: Seq<StmtV>, n: int)
    requires
        inner_names_match(r.stack, r2.stack, n),
        n >= 1,
    ensures
        inner_names_match(r_stmts(r, ss).stack, r_stmts(r2, ss).stack, n),
        redefinitions_added(r_stmts(r, ss).diags, r.diags) == redefinitions_added(
            r_stmts(r2, ss).diags,
            r2.diags,
        ),
    decreases ss,
{
    if ss.len() == 0 {
        lemma_added_none(r.diags);
        lemma_added_none(r2.diags);
    } else {
        let rest = ss.subrange(1, ss.len() as int);
        let r1 = r_stmt(r, ss[0]);
        let q1 = r_stmt(r2, ss[0]);
        lemma_keep_stmt(r, ss[0]);
        lemma_keep_stmt(r2, ss[0]);
        lemma_same_stmt(r, r2, ss[0], n);
        lemma_same_stmts(r1, q1, rest, n);
        lemma_keep_stmts(r1, rest);
        lemma_keep_stmts(q1, rest);
        lemma_added_chain(
            r.diags,
            r1.diags,
            r_stmts(r, ss).diags,
            r2.diags,
            q1.diags,
            r_stmts(r2, ss).diags,
        );
    }
}

proof fn lemma_same_stmt(r: RS, r2: RS, s: StmtV, n: int)
    requires
        inner_names_match(r.stack, r2.stack, n),
        n >= 1,
    ensures
        inner_names_match(r_stmt(r, s).stack, r_stmt(r2, s).stack, n),
        redefinitions_added(r_stmt(r, s).diags, r.diags) == redefinitions_added(
            r_stmt(r2, s).diags,
            r2.diags,
        ),
    decreases s,
{
    match s.kind {
        StmtKindV::Let { name, value } => {
            let r1 = r_expr(r, value);
            let q1 = r_expr(r2, value);
            lemma_keep_expr(r, value);
            lemma_keep_expr(r2, value);
            lemma_same_expr(r, r2, value, n);
            lemma_keep_declare(r1, name.name, BindingKind::Let, name.span, 0);
            lemma_keep_declare(q1, name.name, BindingKind::Let, name.span, 0);
            lemma_match_declare(r1, q1, n, name.name, BindingKind::Let, name.span, 0);
            lemma_added_chain(
                r.diags,
                r1.diags,
                r_stmt(r, s).diags,
                r2.diags,
                q1.diags,
                r_stmt(r2, s).diags,
            );
        },
        StmtKindV::Fn { name: _, params, body } => {
            lemma_keep_block(r, body, params);
            lemma_keep_block(r2, body, params);
            lemma_same_block(r, r2, body, params, n);
        },
        StmtKindV::Expr { expr } => {
            lemma_keep_expr(r, expr);
            lemma_keep_expr(r2, expr);
            lemma_same_expr(r, r2, expr, n);
        },
    }
}

proof fn lemma_same_exprs(r: RS, r2: RS, es: Seq<ExprV>, n: int)
    requires
        inner_names_match(r.stack, r2.stack, n),
    ensures
        redefinitions_added(r_exprs(r, es).diags, r.diags) == redefinitions_added(
            r_exprs(r2, es).diags,
            r2.diags,
        ),
    decreases es,
{
    if es.len() == 0 {
        lemma_added_none(r.diags);
        lemma_added_none(r2.diags);
    } else {
        let rest = es.subrange(1, es.len() as int);
        let r1 = r_expr(r, es[0]);
        let q1 = r_expr(r2, es[0]);
        lemma_keep_expr(r, es[0]);
        lemma_keep_expr(r2, es[0]);
        lemma_same_expr(r, r2, es[0], n);
        lemma_same_exprs(r1, q1, rest, n);
        lemma_keep_exprs(r1, rest);
        lemma_keep_exprs(q1, rest);
        lemma_added_chain(
            r.diags,
            r1.diags,
            r_exprs(r, es).diags,
            r2.diags,
            q1.diags,
            r_exprs(r2, es).diags,
        );
    }
}

proof fn lemma_same_expr(r: RS, r2: RS, e: ExprV, n: int)
    requires
        inner_names_match(r.stack, r2.stack, n),
    ensures
        redefinitions_added(r_expr(r, e).diags, r.diags) == redefinitions_added(
            r_expr(r2, e).diags,
            r2.diags,
        ),
    decreases e,
{
    match e.kind {
        ExprKindV::Name { name } => {
            lemma_same_name(r, r2, name, e.span);
        },
        ExprKindV::Unary { op: _, expr } => {
            lemma_same_expr(r, r2, *expr, n);
        },
        ExprKindV::Binary { op: _, lhs, rhs } => {
            let r1 = r_expr(r, *lhs);
            let q1 = r_expr(r2, *lhs);
            lemma_keep_expr(r, *lhs);
            lemma_keep_expr(r2, *lhs);
            lemma_same_expr(r, r2, *lhs, n);
            lemma_keep_expr(r1, *rhs);
            lemma_keep_expr(q1, *rhs);
            lemma_same_expr(r1, q1, *rhs, n);
            lemma_added_chain(
                r.diags,
                r1.diags,
                r_expr(r1, *rhs).diags,
                r2.diags,
                q1.diags,
                r_expr(q1, *rhs).diags,
            );
        },
        ExprKindV::Call { callee, args } => {
            let r1 = r_expr(r, *callee);
            let q1 = r_expr(r2, *callee);
            lemma_keep_expr(r, *callee);
            lemma_keep_expr(r2, *callee);
            lemma_same_expr(r, r2, *callee, n);
            lemma_keep_exprs(r1, args);
            lemma_keep_exprs(q1, args);
            lemma_same_exprs(r1, q1, args, n);
            lemma_added_chain(
                r.diags,
                r1.diags,
                r_exprs(r1, args).diags,
                r2.diags,
                q1.diags,
                r_exprs(q1, args).diags,
            );
        },
        ExprKindV::If { cond, then_block, else_block } => {
            let r1 = r_expr(r, *cond);
            let q1 = r_expr(r2, *cond);
            lemma_keep_expr(r, *cond);
            lemma_keep_expr(r2, *cond);
            lemma_same_expr(r, r2, *cond, n);
            let r2b = r_block(r1, then_block, seq![]);
            let q2 = r_block(q1, then_block, seq![]);
            lemma_keep_block(r1, then_block, seq![]);
            lemma_keep_block(q1, then_block, seq![]);
            lemma_same_block(r1, q1, then_block, seq![], n);
            lemma_added_chain(r.diags, r1.diags, r2b.diags, r2.diags, q1.diags, q2.diags);
            match else_block {
                Some(b) => {
                    lemma_keep_block(r2b, b, seq![]);
                    lemma_keep_block(q2, b, seq![]);
                    lemma_same_block(r2b, q2, b, seq![], n);
                    lemma_added_chain(
                        r.diags,
                        r2b.diags,
                        r_block(r2b, b, seq![]).diags,
                        r2.diags,
                        q2.diags,
                        r_block(q2, b, seq![]).diags,
                    );
                },
                None => {},
            }
        },
        ExprKindV::Block { block } => {
            lemma_same_block(r, r2, block, seq![], n);
        },
        ExprKindV::Paren { inner } => {
            lemma_same_expr(r, r2, *inner, n);
        },
        _ => {
            lemma_added_none(r.diags);
            lemma_added_none(r2.diags);
        },
    }
}

/// Shadowing is not redefinition: the redefinitions a block reports depend on
/// the block and its parameters alone, never on what the scopes around it
/// declare. A `let` or a function in a block that reuses a name of an
/// enclosing scope is reported exactly when it would be with no enclosing
/// scope at all.
pub proof fn law_redefinitions_are_local(r: RS, r2: RS, b: BlockV, params: Seq<IdentV>)
    ensures
        redefinitions_added(r_block(r, b, params).diags, r.diags) == redefinitions_added(
            r_block(r2, b, params).diags,
            r2.diags,
        ),
{
    lemma_same_block(r, r2, b, params, 0);
}
} // verus!
