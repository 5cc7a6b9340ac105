//! Name resolution as mathematical functions over syntax tree views.
//!
//! Rules: functions are hoisted within their scope; parameters seed a function
//! body's scope; `let` bindings become visible after their declaration; blocks,
//! function bodies and `if` branches each open a scope; a name resolves to the
//! nearest enclosing scope that binds it, looking first at the sequential
//! bindings seen so far (latest first) and then at the hoisted functions.
//! Declaring a name twice in one scope is a redefinition.

use vstd::prelude::*;
use crate::ast::{IdentV, StmtV, StmtKindV, BlockV, ExprV, ExprKindV};
use crate::diagnostics::{DiagKind, DiagV, error_v};
use crate::span::Span;
use crate::resolver::BindingKind;

verus! {

pub struct BindingV {
    pub name: Seq<char>,
    pub kind: BindingKind,
    pub decl_span: Span,
    pub arity: Option<usize>,
}

pub struct OccV {
    pub span: Span,
    pub name: Seq<char>,
    pub binding: Option<usize>,
    pub is_decl: bool,
}

/// One scope: the hoisted functions and the sequential bindings seen so far,
/// each a name with its binding number.
pub struct FrameV {
    pub fns: Seq<(Seq<char>, usize)>,
    pub seq: Seq<(Seq<char>, usize)>,
}

pub struct RS {
    pub bindings: Seq<BindingV>,
    pub occs: Seq<OccV>,
    pub diags: Seq<DiagV>,
    pub stack: Seq<FrameV>,
}

pub open spec fn empty_rs() -> RS {
    RS { bindings: seq![], occs: seq![], diags: seq![], stack: seq![] }
}

pub open spec fn push_frame(r: RS) -> RS {
    RS { stack: r.stack.push(FrameV { fns: seq![], seq: seq![] }), ..r }
}

pub open spec fn pop_frame(r: RS) -> RS {
    RS { stack: r.stack.drop_last(), ..r }
}

pub open spec fn frame_has(f: FrameV, name: Seq<char>) -> bool {
    (exists|i: int| 0 <= i < f.fns.len() && (#[trigger] f.fns[i]).0 == name) || (exists|i: int|
        0 <= i < f.seq.len() && (#[trigger] f.seq[i]).0 == name)
}

pub open spec fn top_has(r: RS, name: Seq<char>) -> bool {
    r.stack.len() > 0 && frame_has(r.stack.last(), name)
}

pub open spec fn msg_redefined(name: Seq<char>) -> Seq<char> {
    "`"@ + name + "` is already defined in this scope"@
}

pub open spec fn msg_unresolved(name: Seq<char>) -> Seq<char> {
    "cannot find `"@ + name + "` in this scope"@
}

/// Record a redefinition diagnostic when `name` is already bound in the
/// innermost scope.
pub open spec fn check_redef(r: RS, name: Seq<char>, span: Span) -> RS {
    if top_has(r, name) {
        RS { diags: r.diags.push(error_v(span, DiagKind::Redefinition, msg_redefined(name))), ..r }
    } else {
        r
    }
}

pub open spec fn add_binding(r: RS, name: Seq<char>, kind: BindingKind, span: Span, arity: Option<usize>) -> RS {
    RS {
        bindings: r.bindings.push(BindingV { name, kind, decl_span: span, arity }),
        occs: r.occs.push(
            OccV { span, name, binding: Some(r.bindings.len() as usize), is_decl: true },
        ),
        ..r
    }
}

pub open spec fn update_top(r: RS, f: FrameV) -> RS {
    RS { stack: r.stack.update(r.stack.len() - 1, f), ..r }
}

/// Declare a sequential binding (parameter or `let`) in the innermost scope.
pub open spec fn declare_seq(r: RS, name: Seq<char>, kind: BindingKind, span: Span) -> RS {
    let r1 = check_redef(r, name, span);
    let id = r1.bindings.len() as usize;
    let r2 = add_binding(r1, name, kind, span, None);
    let f = r2.stack.last();
    update_top(r2, FrameV { fns: f.fns, seq: f.seq.push((name, id)) })
}

/// Declare a hoisted function in the innermost scope.
pub open spec fn declare_fn(r: RS, name: Seq<char>, span: Span, arity: usize) -> RS {
    let r1 = check_redef(r, name, span);
    let id = r1.bindings.len() as usize;
    let r2 = add_binding(r1, name, BindingKind::Fn, span, Some(arity));
    let f = r2.stack.last();
    update_top(r2, FrameV { fns: f.fns.push((name, id)), seq: f.seq })
}

pub open spec fn find_last(s: Seq<(Seq<char>, usize)>, name: Seq<char>) -> Option<usize>
    decreases s.len(),
{
    if s.len() == 0 {
        None
    } else if s.last().0 == name {
        Some(s.last().1)
    } else {
        find_last(s.drop_last(), name)
    }
}

pub open spec fn find_first(s: Seq<(Seq<char>, usize)>, name: Seq<char>) -> Option<usize>
    decreases s.len(),
{
    if s.len() == 0 {
        None
    } else if s[0].0 == name {
        Some(s[0].1)
    } else {
        find_first(s.drop_first(), name)
    }
}

/// The binding `name` resolves to: innermost scope first; within a scope the
/// latest sequential binding, then the first hoisted function.
pub open spec fn lookup(stack: Seq<FrameV>, name: Seq<char>) -> Option<usize>
    decreases stack.len(),
{
    if stack.len() == 0 {
        None
    } else {
        match find_last(stack.last().seq, name) {
            Some(id) => Some(id),
            None => match find_first(stack.last().fns, name) {
                Some(id) => Some(id),
                None => lookup(stack.drop_last(), name),
            },
        }
    }
}

pub open spec fn r_params(r: RS, ps: Seq<IdentV>) -> RS
    decreases ps.len(),
{
    if ps.len() == 0 {
        r
    } else {
        r_params(declare_seq(r, ps[0].name, BindingKind::Param, ps[0].span), ps.drop_first())
    }
}

pub open spec fn r_hoist(r: RS, ss: Seq<StmtV>) -> RS
    decreases ss.len(),
{
    if ss.len() == 0 {
        r
    } else {
        let r1 = match ss[0].kind {
            StmtKindV::Fn { name, params, body: _ } => declare_fn(
                r,
                name.name,
                name.span,
                params.len() as usize,
            ),
            _ => r,
        };
        r_hoist(r1, ss.drop_first())
    }
}

/// Resolve a block scope seeded with `params`.
pub open spec fn r_block(r: RS, b: BlockV, params: Seq<IdentV>) -> RS
    decreases b,
{
    let r1 = r_hoist(r_params(push_frame(r), params), b.stmts);
    let r2 = r_stmts(r1, b.stmts);
    let r3 = match b.tail {
        Some(e) => r_expr(r2, *e),
        None => r2,
    };
    pop_frame(r3)
}

pub open spec fn r_stmts(r: RS, ss: Seq<StmtV>) -> RS
    decreases ss,
{
    if ss.len() == 0 {
        r
    } else {
        r_stmts(r_stmt(r, ss[0]), ss.subrange(1, ss.len() as int))
    }
}

pub open spec fn r_stmt(r: RS, s: StmtV) -> RS
    decreases s,
{
    match s.kind {
        StmtKindV::Let { name, value } => declare_seq(
            r_expr(r, value),
            name.name,
            BindingKind::Let,
            name.span,
        ),
        StmtKindV::Fn { name: _, params, body } => r_block(r, body, params),
        StmtKindV::Expr { expr } => r_expr(r, expr),
    }
}

pub open spec fn r_exprs(r: RS, es: Seq<ExprV>) -> RS
    decreases es,
{
    if es.len() == 0 {
        r
    } else {
        r_exprs(r_expr(r, es[0]), es.subrange(1, es.len() as int))
    }
}

pub open spec fn r_name(r: RS, name: Seq<char>, span: Span) -> RS {
    let b = lookup(r.stack, name);
    let r1 = if b is None {
        RS { diags: r.diags.push(error_v(span, DiagKind::UnresolvedName, msg_unresolved(name))), ..r }
    } else {
        r
    };
    RS { occs: r1.occs.push(OccV { span, name, binding: b, is_decl: false }), ..r1 }
}

pub open spec fn r_expr(r: RS, e: ExprV) -> RS
    decreases e,
{
    match e.kind {
        ExprKindV::Int { .. } | ExprKindV::Bool { .. } | ExprKindV::Error => r,
        ExprKindV::Name { name } => r_name(r, name, e.span),
        ExprKindV::Unary { op: _, expr } => r_expr(r, *expr),
        ExprKindV::Binary { op: _, lhs, rhs } => r_expr(r_expr(r, *lhs), *rhs),
        ExprKindV::Call { callee, args } => r_exprs(r_expr(r, *callee), args),
        ExprKindV::If { cond, then_block, else_block } => {
            let r1 = r_block(r_expr(r, *cond), then_block, seq![]);
            match else_block {
                Some(b) => r_block(r1, b, seq![]),
                None => r1,
            }
        },
        ExprKindV::Block { block } => r_block(r, block, seq![]),
        ExprKindV::Paren { inner } => r_expr(r, *inner),
    }
}

/// The whole program walk, before the occurrences and diagnostics are sorted.
pub open spec fn r_program(program: Seq<StmtV>) -> RS {
    let r1 = r_hoist(push_frame(empty_rs()), program);
    pop_frame(r_stmts(r1, program))
}

pub open spec fn occ_key_le(a: OccV, b: OccV) -> bool {
    if a.span.start != b.span.start {
        a.span.start < b.span.start
    } else if a.span.end != b.span.end {
        a.span.end < b.span.end
    } else {
        !a.is_decl || b.is_decl
    }
}

} // verus!

verus! {

/// Every binding number in the walk state names a recorded binding.
pub open spec fn ids_ok(r: RS) -> bool {
    &&& forall|i: int|
        0 <= i < r.occs.len() ==> ((#[trigger] r.occs[i]).binding matches Some(id) ==> id < r.bindings.len())
    &&& forall|f: int, j: int|
        0 <= f < r.stack.len() && 0 <= j < r.stack[f].fns.len() ==> (#[trigger] r.stack[f].fns[j]).1
            < r.bindings.len()
    &&& forall|f: int, j: int|
        0 <= f < r.stack.len() && 0 <= j < r.stack[f].seq.len() ==> (#[trigger] r.stack[f].seq[j]).1
            < r.bindings.len()
}

proof fn lemma_find_last_bound(s: Seq<(Seq<char>, usize)>, name: Seq<char>, n: int)
    requires
        forall|j: int| 0 <= j < s.len() ==> (#[trigger] s[j]).1 < n,
    ensures
        find_last(s, name) matches Some(id) ==> id < n,
    decreases s.len(),
{
    if s.len() > 0 {
        lemma_find_last_bound(s.drop_last(), name, n);
    }
}

proof fn lemma_find_first_bound(s: Seq<(Seq<char>, usize)>, name: Seq<char>, n: int)
    requires
        forall|j: int| 0 <= j < s.len() ==> (#[trigger] s[j]).1 < n,
    ensures
        find_first(s, name) matches Some(id) ==> id < n,
    decreases s.len(),
{
    if s.len() > 0 {
        lemma_find_first_bound(s.drop_first(), name, n);
    }
}

pub proof fn lemma_lookup_bound(r: RS, stack: Seq<FrameV>, name: Seq<char>)
    requires
        ids_ok(r),
        stack.len() <= r.stack.len(),
        stack == r.stack.subrange(0, stack.len() as int),
    ensures
        lookup(stack, name) matches Some(id) ==> id < r.bindings.len(),
    decreases stack.len(),
{
    if stack.len() > 0 {
        let f = stack.len() - 1;
        assert(stack.last() == r.stack[f]);
        lemma_find_last_bound(stack.last().seq, name, r.bindings.len() as int);
        lemma_find_first_bound(stack.last().fns, name, r.bindings.len() as int);
        assert(stack.drop_last() == r.stack.subrange(0, f));
        lemma_lookup_bound(r, stack.drop_last(), name);
    }
}

pub proof fn lemma_check_redef_ids(r: RS, name: Seq<char>, span: Span)
    requires
        ids_ok(r),
    ensures
        ids_ok(check_redef(r, name, span)),
        check_redef(r, name, span).bindings == r.bindings,
        check_redef(r, name, span).stack == r.stack,
{
}

pub proof fn lemma_declare_ids(r: RS, name: Seq<char>, kind: BindingKind, span: Span, arity: usize)
    requires
        ids_ok(r),
        r.stack.len() > 0,
    ensures
        ids_ok(declare_seq(r, name, kind, span)),
        ids_ok(declare_fn(r, name, span, arity)),
        declare_seq(r, name, kind, span).stack.len() == r.stack.len(),
        declare_fn(r, name, span, arity).stack.len() == r.stack.len(),
        declare_seq(r, name, kind, span).bindings.len() == r.bindings.len() + 1,
        declare_fn(r, name, span, arity).bindings.len() == r.bindings.len() + 1,
{
    let r1 = check_redef(r, name, span);
    lemma_check_redef_ids(r, name, span);
    let id = r1.bindings.len() as usize;
    let r2 = add_binding(r1, name, kind, span, None);
    let r2f = add_binding(r1, name, BindingKind::Fn, span, Some(arity));
    let f = r2.stack.last();
    let a = update_top(r2, FrameV { fns: f.fns, seq: f.seq.push((name, id)) });
    let b = update_top(r2f, FrameV { fns: f.fns.push((name, id)), seq: f.seq });
    assert(ids_ok(a)) by {
        assert forall|i: int| 0 <= i < a.occs.len() implies ((#[trigger] a.occs[i]).binding matches Some(
            x,
        ) ==> x < a.bindings.len()) by {
            if i < r1.occs.len() {
                assert(a.occs[i] == r1.occs[i]);
            }
        }
        assert forall|g: int, j: int|
            0 <= g < a.stack.len() && 0 <= j < a.stack[g].seq.len() implies (#[trigger] a.stack[g].seq[j]).1
            < a.bindings.len() by {
            if g < a.stack.len() - 1 {
                assert(a.stack[g] == r1.stack[g]);
            } else if j < f.seq.len() {
                assert(a.stack[g].seq[j] == r1.stack[g].seq[j]);
            }
        }
        assert forall|g: int, j: int|
            0 <= g < a.stack.len() && 0 <= j < a.stack[g].fns.len() implies (#[trigger] a.stack[g].fns[j]).1
            < a.bindings.len() by {
            if g < a.stack.len() - 1 {
                assert(a.stack[g] == r1.stack[g]);
            } else {
                assert(a.stack[g].fns[j] == r1.stack[g].fns[j]);
            }
        }
    }
    assert(ids_ok(b)) by {
        assert forall|i: int| 0 <= i < b.occs.len() implies ((#[trigger] b.occs[i]).binding matches Some(
            x,
        ) ==> x < b.bindings.len()) by {
            if i < r1.occs.len() {
                assert(b.occs[i] == r1.occs[i]);
            }
        }
        assert forall|g: int, j: int|
            0 <= g < b.stack.len() && 0 <= j < b.stack[g].fns.len() implies (#[trigger] b.stack[g].fns[j]).1
            < b.bindings.len() by {
            if g < b.stack.len() - 1 {
                assert(b.stack[g] == r1.stack[g]);
            } else if j < f.fns.len() {
                assert(b.stack[g].fns[j] == r1.stack[g].fns[j]);
            }
        }
        assert forall|g: int, j: int|
            0 <= g < b.stack.len() && 0 <= j < b.stack[g].seq.len() implies (#[trigger] b.stack[g].seq[j]).1
            < b.bindings.len() by {
            if g < b.stack.len() - 1 {
                assert(b.stack[g] == r1.stack[g]);
            } else {
                assert(b.stack[g].seq[j] == r1.stack[g].seq[j]);
            }
        }
    }
}

pub proof fn lemma_frame_ids(r: RS)
    requires
        ids_ok(r),
    ensures
        ids_ok(push_frame(r)),
        r.stack.len() > 0 ==> ids_ok(pop_frame(r)),
{
    let p = push_frame(r);
    assert forall|g: int, j: int| 0 <= g < p.stack.len() && 0 <= j < p.stack[g].fns.len() implies (
    #[trigger] p.stack[g].fns[j]).1 < p.bindings.len() by {
        assert(p.stack[g] == r.stack[g]);
    }
    assert forall|g: int, j: int| 0 <= g < p.stack.len() && 0 <= j < p.stack[g].seq.len() implies (
    #[trigger] p.stack[g].seq[j]).1 < p.bindings.len() by {
        assert(p.stack[g] == r.stack[g]);
    }
    if r.stack.len() > 0 {
        let q = pop_frame(r);
        assert forall|g: int, j: int| 0 <= g < q.stack.len() && 0 <= j < q.stack[g].fns.len() implies (
        #[trigger] q.stack[g].fns[j]).1 < q.bindings.len() by {
            assert(q.stack[g] == r.stack[g]);
        }
        assert forall|g: int, j: int| 0 <= g < q.stack.len() && 0 <= j < q.stack[g].seq.len() implies (
        #[trigger] q.stack[g].seq[j]).1 < q.bindings.len() by {
            assert(q.stack[g] == r.stack[g]);
        }
    }
}

pub proof fn lemma_params_ids(r: RS, ps: Seq<IdentV>)
    requires
        ids_ok(r),
        r.stack.len() > 0,
    ensures
        r.bindings.len() <= r_params(r, ps).bindings.len(),
        ids_ok(r_params(r, ps)),
        r_params(r, ps).stack.len() == r.stack.len(),
    decreases ps.len(),
{
    if ps.len() > 0 {
        lemma_declare_ids(r, ps[0].name, BindingKind::Param, ps[0].span, 0);
        lemma_params_ids(declare_seq(r, ps[0].name, BindingKind::Param, ps[0].span), ps.drop_first());
    }
}

pub proof fn lemma_hoist_ids(r: RS, ss: Seq<StmtV>)
    requires
        ids_ok(r),
        r.stack.len() > 0,
    ensures
        r.bindings.len() <= r_hoist(r, ss).bindings.len(),
        ids_ok(r_hoist(r, ss)),
        r_hoist(r, ss).stack.len() == r.stack.len(),
    decreases ss.len(),
{
    if ss.len() > 0 {
        match ss[0].kind {
            StmtKindV::Fn { name, params, body: _ } => {
                lemma_declare_ids(r, name.name, BindingKind::Fn, name.span, params.len() as usize);
                lemma_hoist_ids(declare_fn(r, name.name, name.span, params.len() as usize), ss.drop_first());
            },
            _ => {
                lemma_hoist_ids(r, ss.drop_first());
            },
        }
    }
}

pub proof fn lemma_block_ids(r: RS, b: BlockV, params: Seq<IdentV>)
    requires
        ids_ok(r),
    ensures
        r.bindings.len() <= r_block(r, b, params).bindings.len(),
        ids_ok(r_block(r, b, params)),
        r_block(r, b, params).stack.len() == r.stack.len(),
    decreases b,
{
    lemma_frame_ids(r);
    let r0 = push_frame(r);
    lemma_params_ids(r0, params);
    lemma_hoist_ids(r_params(r0, params), b.stmts);
    let r1 = r_hoist(r_params(r0, params), b.stmts);
    lemma_stmts_ids(r1, b.stmts);
    let r2 = r_stmts(r1, b.stmts);
    match b.tail {
        Some(e) => {
            lemma_expr_ids(r2, *e);
            lemma_frame_ids(r_expr(r2, *e));
        },
        None => {
            lemma_frame_ids(r2);
        },
    }
}

pub proof fn lemma_stmts_ids(r: RS, ss: Seq<StmtV>)
    requires
        ids_ok(r),
        r.stack.len() > 0,
    ensures
        r.bindings.len() <= r_stmts(r, ss).bindings.len(),
        ids_ok(r_stmts(r, ss)),
        r_stmts(r, ss).stack.len() == r.stack.len(),
    decreases ss,
{
    if ss.len() > 0 {
        lemma_stmt_ids(r, ss[0]);
        lemma_stmts_ids(r_stmt(r, ss[0]), ss.subrange(1, ss.len() as int));
    }
}

pub proof fn lemma_stmt_ids(r: RS, s: StmtV)
    requires
        ids_ok(r),
        r.stack.len() > 0,
    ensures
        r.bindings.len() <= r_stmt(r, s).bindings.len(),
        ids_ok(r_stmt(r, s)),
        r_stmt(r, s).stack.len() == r.stack.len(),
    decreases s,
{
    match s.kind {
        StmtKindV::Let { name, value } => {
            lemma_expr_ids(r, value);
            lemma_declare_ids(r_expr(r, value), name.name, BindingKind::Let, name.span, 0);
        },
        StmtKindV::Fn { name: _, params, body } => {
            lemma_block_ids(r, body, params);
        },
        StmtKindV::Expr { expr } => {
            lemma_expr_ids(r, expr);
        },
    }
}

pub proof fn lemma_exprs_ids(r: RS, es: Seq<ExprV>)
    requires
        ids_ok(r),
    ensures
        r.bindings.len() <= r_exprs(r, es).bindings.len(),
        ids_ok(r_exprs(r, es)),
        r_exprs(r, es).stack.len() == r.stack.len(),
    decreases es,
{
    if es.len() > 0 {
        lemma_expr_ids(r, es[0]);
        lemma_exprs_ids(r_expr(r, es[0]), es.subrange(1, es.len() as int));
    }
}

pub proof fn lemma_expr_ids(r: RS, e: ExprV)
    requires
        ids_ok(r),
    ensures
        r.bindings.len() <= r_expr(r, e).bindings.len(),
        ids_ok(r_expr(r, e)),
        r_expr(r, e).stack.len() == r.stack.len(),
    decreases e,
{
    match e.kind {
        ExprKindV::Name { name } => {
            assert(r.stack.subrange(0, r.stack.len() as int) =~= r.stack);
            lemma_lookup_bound(r, r.stack, name);
            let x = r_name(r, name, e.span);
            assert forall|i: int| 0 <= i < x.occs.len() implies ((#[trigger] x.occs[i]).binding matches Some(
                id,
            ) ==> id < x.bindings.len()) by {
                if i < r.occs.len() {
                    assert(x.occs[i] == r.occs[i]);
                }
            }
        },
        ExprKindV::Unary { op: _, expr } => {
            lemma_expr_ids(r, *expr);
        },
        ExprKindV::Binary { op: _, lhs, rhs } => {
            lemma_expr_ids(r, *lhs);
            lemma_expr_ids(r_expr(r, *lhs), *rhs);
        },
        ExprKindV::Call { callee, args } => {
            lemma_expr_ids(r, *callee);
            lemma_exprs_ids(r_expr(r, *callee), args);
        },
        ExprKindV::If { cond, then_block, else_block } => {
            lemma_expr_ids(r, *cond);
            lemma_block_ids(r_expr(r, *cond), then_block, seq![]);
            match else_block {
                Some(b) => {
                    lemma_block_ids(r_block(r_expr(r, *cond), then_block, seq![]), b, seq![]);
                },
                None => {},
            }
        },
        ExprKindV::Block { block } => {
            lemma_block_ids(r, block, seq![]);
        },
        ExprKindV::Paren { inner } => {
            lemma_expr_ids(r, *inner);
        },
        _ => {},
    }
}

/// Every occurrence of the whole program walk names a recorded binding.
pub proof fn lemma_program_ids(p: Seq<StmtV>)
    ensures
        forall|i: int|
            0 <= i < r_program(p).occs.len() ==> ((#[trigger] r_program(p).occs[i]).binding matches Some(id)
                ==> id < r_program(p).bindings.len()),
{
    let r0 = empty_rs();
    lemma_frame_ids(r0);
    lemma_hoist_ids(push_frame(r0), p);
    let r1 = r_hoist(push_frame(r0), p);
    lemma_stmts_ids(r1, p);
    lemma_frame_ids(r_stmts(r1, p));
}

} // verus!

verus! {

/// Unresolved-name diagnostics and unresolved uses correspond: each such
/// diagnostic sits at the span of a use that resolved to nothing, and each
/// occurrence that resolved to nothing is a use with such a diagnostic at its
/// span.
pub open spec fn flags_ok(r: RS) -> bool {
    &&& forall|i: int|
        0 <= i < r.diags.len() && (#[trigger] r.diags[i]).kind == DiagKind::UnresolvedName ==> exists|j: int|
            0 <= j < r.occs.len() && (#[trigger] r.occs[j]).span == r.diags[i].span && r.occs[j].binding
                is None && !r.occs[j].is_decl
    &&& forall|j: int|
        0 <= j < r.occs.len() && (#[trigger] r.occs[j]).binding is None ==> !r.occs[j].is_decl && exists|i: int|
            0 <= i < r.diags.len() && (#[trigger] r.diags[i]).kind == DiagKind::UnresolvedName
                && r.diags[i].span == r.occs[j].span
}

/// Appending to the occurrences and diagnostics keeps every earlier witness.
proof fn lemma_flags_grow(r: RS, r2: RS)
    requires
        flags_ok(r),
        r.occs.len() <= r2.occs.len(),
        r.diags.len() <= r2.diags.len(),
        forall|j: int| 0 <= j < r.occs.len() ==> #[trigger] r2.occs[j] == r.occs[j],
        forall|i: int| 0 <= i < r.diags.len() ==> #[trigger] r2.diags[i] == r.diags[i],
        forall|j: int|
            r.occs.len() <= j < r2.occs.len() && (#[trigger] r2.occs[j]).binding is None ==> !r2.occs[j].is_decl
                && exists|i: int|
                0 <= i < r2.diags.len() && (#[trigger] r2.diags[i]).kind == DiagKind::UnresolvedName
                    && r2.diags[i].span == r2.occs[j].span,
        forall|i: int|
            r.diags.len() <= i < r2.diags.len() && (#[trigger] r2.diags[i]).kind == DiagKind::UnresolvedName
                ==> exists|j: int|
                0 <= j < r2.occs.len() && (#[trigger] r2.occs[j]).span == r2.diags[i].span
                    && r2.occs[j].binding is None && !r2.occs[j].is_decl,
    ensures
        flags_ok(r2),
{
    assert forall|i: int|
        0 <= i < r2.diags.len() && (#[trigger] r2.diags[i]).kind == DiagKind::UnresolvedName implies exists|j: int|
        0 <= j < r2.occs.len() && (#[trigger] r2.occs[j]).span == r2.diags[i].span && r2.occs[j].binding
            is None && !r2.occs[j].is_decl by {
        if i < r.diags.len() {
            assert(r2.diags[i] == r.diags[i]);
            let j = choose|j: int|
                0 <= j < r.occs.len() && (#[trigger] r.occs[j]).span == r.diags[i].span
                    && r.occs[j].binding is None && !r.occs[j].is_decl;
            assert(r2.occs[j] == r.occs[j]);
        }
    }
    assert forall|j: int|
        0 <= j < r2.occs.len() && (#[trigger] r2.occs[j]).binding is None implies !r2.occs[j].is_decl
        && exists|i: int|
        0 <= i < r2.diags.len() && (#[trigger] r2.diags[i]).kind == DiagKind::UnresolvedName
            && r2.diags[i].span == r2.occs[j].span by {
        if j < r.occs.len() {
            assert(r2.occs[j] == r.occs[j]);
            let i = choose|i: int|
                0 <= i < r.diags.len() && (#[trigger] r.diags[i]).kind == DiagKind::UnresolvedName
                    && r.diags[i].span == r.occs[j].span;
            assert(r2.diags[i] == r.diags[i]);
        }
    }
}

proof fn lemma_flags_declare(r: RS, name: Seq<char>, kind: BindingKind, span: Span, arity: usize)
    requires
        flags_ok(r),
        r.stack.len() > 0,
        r.bindings.len() < usize::MAX,
    ensures
        flags_ok(declare_seq(r, name, kind, span)),
        flags_ok(declare_fn(r, name, span, arity)),
{
    let r1 = check_redef(r, name, span);
    lemma_flags_grow(r, r1);
    let a = declare_seq(r, name, kind, span);
    let b = declare_fn(r, name, span, arity);
    assert(a.occs.last().binding is Some);
    assert(b.occs.last().binding is Some);
    lemma_flags_grow(r1, a);
    lemma_flags_grow(r1, b);
}

proof fn lemma_flags_name(r: RS, name: Seq<char>, span: Span)
    requires
        flags_ok(r),
    ensures
        flags_ok(r_name(r, name, span)),
{
    let x = r_name(r, name, span);
    if lookup(r.stack, name) is None {
        let k = x.diags.len() - 1;
        let m = x.occs.len() - 1;
        assert(x.diags[k].kind == DiagKind::UnresolvedName && x.diags[k].span == span);
        assert(x.occs[m].span == span && x.occs[m].binding is None && !x.occs[m].is_decl);
    }
    lemma_flags_grow(r, x);
}

pub proof fn lemma_flags_block(r: RS, b: BlockV, params: Seq<IdentV>)
    requires
        flags_ok(r),
        r_block(r, b, params).bindings.len() <= usize::MAX,
        ids_ok(r),
    ensures
        flags_ok(r_block(r, b, params)),
    decreases b,
{
    lemma_frame_ids(r);
    let r0 = push_frame(r);
    lemma_params_ids(r0, params);
    let r1 = r_params(r0, params);
    lemma_hoist_ids(r1, b.stmts);
    let r2 = r_hoist(r1, b.stmts);
    lemma_stmts_ids(r2, b.stmts);
    let r3 = r_stmts(r2, b.stmts);
    match b.tail {
        Some(e) => {
            lemma_expr_ids(r3, *e);
        },
        None => {},
    }
    lemma_flags_params(r0, params);
    lemma_flags_hoist(r1, b.stmts);
    lemma_flags_stmts(r2, b.stmts);
    match b.tail {
        Some(e) => {
            lemma_flags_expr(r3, *e);
        },
        None => {},
    }
}

proof fn lemma_flags_params(r: RS, ps: Seq<IdentV>)
    requires
        flags_ok(r),
        ids_ok(r),
        r.stack.len() > 0,
        r_params(r, ps).bindings.len() <= usize::MAX,
    ensures
        flags_ok(r_params(r, ps)),
    decreases ps.len(),
{
    if ps.len() > 0 {
        let r1 = declare_seq(r, ps[0].name, BindingKind::Param, ps[0].span);
        lemma_declare_ids(r, ps[0].name, BindingKind::Param, ps[0].span, 0);
        lemma_params_ids(r1, ps.drop_first());
        lemma_flags_declare(r, ps[0].name, BindingKind::Param, ps[0].span, 0);
        lemma_flags_params(r1, ps.drop_first());
    }
}

proof fn lemma_flags_hoist(r: RS, ss: Seq<StmtV>)
    requires
        flags_ok(r),
        ids_ok(r),
        r.stack.len() > 0,
        r_hoist(r, ss).bindings.len() <= usize::MAX,
    ensures
        flags_ok(r_hoist(r, ss)),
    decreases ss.len(),
{
    if ss.len() > 0 {
        match ss[0].kind {
            StmtKindV::Fn { name, params, body: _ } => {
                let ar = params.len() as usize;
                let r1 = declare_fn(r, name.name, name.span, ar);
                lemma_declare_ids(r, name.name, BindingKind::Fn, name.span, ar);
                lemma_hoist_ids(r1, ss.drop_first());
                lemma_flags_declare(r, name.name, BindingKind::Fn, name.span, ar);
                lemma_flags_hoist(r1, ss.drop_first());
            },
            _ => {
                lemma_flags_hoist(r, ss.drop_first());
            },
        }
    }
}

proof fn lemma_flags_stmts(r: RS, ss: Seq<StmtV>)
    requires
        flags_ok(r),
        ids_ok(r),
        r.stack.len() > 0,
        r_stmts(r, ss).bindings.len() <= usize::MAX,
    ensures
        flags_ok(r_stmts(r, ss)),
    decreases ss,
{
    if ss.len() > 0 {
        lemma_stmt_ids(r, ss[0]);
        lemma_stmts_ids(r_stmt(r, ss[0]), ss.subrange(1, ss.len() as int));
        lemma_flags_stmt(r, ss[0]);
        lemma_flags_stmts(r_stmt(r, ss[0]), ss.subrange(1, ss.len() as int));
    }
}

proof fn lemma_flags_stmt(r: RS, s: StmtV)
    requires
        flags_ok(r),
        ids_ok(r),
        r.stack.len() > 0,
        r_stmt(r, s).bindings.len() <= usize::MAX,
    ensures
        flags_ok(r_stmt(r, s)),
    decreases s,
{
    match s.kind {
        StmtKindV::Let { name, value } => {
            lemma_expr_ids(r, value);
            let r1 = r_expr(r, value);
            lemma_declare_ids(r1, name.name, BindingKind::Let, name.span, 0);
            lemma_flags_expr(r, value);
            lemma_flags_declare(r1, name.name, BindingKind::Let, name.span, 0);
        },
        StmtKindV::Fn { name: _, params, body } => {
            lemma_flags_block(r, body, params);
        },
        StmtKindV::Expr { expr } => {
            lemma_flags_expr(r, expr);
        },
    }
}

proof fn lemma_flags_exprs(r: RS, es: Seq<ExprV>)
    requires
        flags_ok(r),
        ids_ok(r),
        r_exprs(r, es).bindings.len() <= usize::MAX,
    ensures
        flags_ok(r_exprs(r, es)),
    decreases es,
{
    if es.len() > 0 {
        lemma_expr_ids(r, es[0]);
        lemma_exprs_ids(r_expr(r, es[0]), es.subrange(1, es.len() as int));
        lemma_flags_expr(r, es[0]);
        lemma_flags_exprs(r_expr(r, es[0]), es.subrange(1, es.len() as int));
    }
}

proof fn lemma_flags_expr(r: RS, e: ExprV)
    requires
        flags_ok(r),
        ids_ok(r),
        r_expr(r, e).bindings.len() <= usize::MAX,
    ensures
        flags_ok(r_expr(r, e)),
    decreases e,
{
    match e.kind {
        ExprKindV::Name { name } => {
            lemma_flags_name(r, name, e.span);
        },
        ExprKindV::Unary { op: _, expr } => {
            lemma_flags_expr(r, *expr);
        },
        ExprKindV::Binary { op: _, lhs, rhs } => {
            lemma_expr_ids(r, *lhs);
            lemma_expr_ids(r_expr(r, *lhs), *rhs);
            lemma_flags_expr(r, *lhs);
            lemma_flags_expr(r_expr(r, *lhs), *rhs);
        },
        ExprKindV::Call { callee, args } => {
            lemma_expr_ids(r, *callee);
            lemma_exprs_ids(r_expr(r, *callee), args);
            lemma_flags_expr(r, *callee);
            lemma_flags_exprs(r_expr(r, *callee), args);
        },
        ExprKindV::If { cond, then_block, else_block } => {
            lemma_expr_ids(r, *cond);
            let r1 = r_expr(r, *cond);
            lemma_block_ids(r1, then_block, seq![]);
            let r2 = r_block(r1, then_block, seq![]);
            match else_block {
                Some(b) => {
                    lemma_block_ids(r2, b, seq![]);
                },
                None => {},
            }
            lemma_flags_expr(r, *cond);
            lemma_flags_block(r1, then_block, seq![]);
            match else_block {
                Some(b) => {
                    lemma_flags_block(r2, b, seq![]);
                },
                None => {},
            }
        },
        ExprKindV::Block { block } => {
            lemma_flags_block(r, block, seq![]);
        },
        ExprKindV::Paren { inner } => {
            lemma_flags_expr(r, *inner);
        },
        _ => {},
    }
}

/// Diagnostics are correct: every unresolved-name diagnostic of a program sits
/// at a name use that resolves to no binding, and every use that resolves to
/// no binding carries such a diagnostic (a name in scope is never flagged and
/// one out of scope always is).
pub proof fn law_unresolved_flagged_exactly(p: Seq<StmtV>)
    requires
        r_program(p).bindings.len() <= usize::MAX,
    ensures
        flags_ok(r_program(p)),
{
    let r = empty_rs();
    lemma_frame_ids(r);
    let r0 = push_frame(r);
    lemma_hoist_ids(r0, p);
    let r1 = r_hoist(r0, p);
    lemma_stmts_ids(r1, p);
    lemma_flags_hoist(r0, p);
    lemma_flags_stmts(r1, p);
}

/// The declaring occurrences, in order.
pub open spec fn decls(os: Seq<OccV>) -> Seq<OccV>
    decreases os.len(),
{
    if os.len() == 0 {
        seq![]
    } else if os.last().is_decl {
        decls(os.drop_last()).push(os.last())
    } else {
        decls(os.drop_last())
    }
}

/// The `k`-th declaring occurrence declares the `k`-th binding, at its span,
/// and exactly the functions carry an arity.
pub open spec fn bind_ok(r: RS) -> bool {
    let ds = decls(r.occs);
    &&& ds.len() == r.bindings.len()
    &&& forall|k: int|
        0 <= k < ds.len() ==> (#[trigger] ds[k]).binding == Some(k as usize) && ds[k].span
            == r.bindings[k].decl_span
    &&& forall|k: int|
        0 <= k < r.bindings.len() ==> ((#[trigger] r.bindings[k]).arity is Some <==> r.bindings[k].kind
            == BindingKind::Fn)
}

proof fn lemma_bind_declare(r: RS, name: Seq<char>, kind: BindingKind, span: Span, arity: usize)
    requires
        bind_ok(r),
    ensures
        kind != BindingKind::Fn ==> bind_ok(declare_seq(r, name, kind, span)),
        bind_ok(declare_fn(r, name, span, arity)),
{
    let r1 = check_redef(r, name, span);
    let o = OccV { span, name, binding: Some(r1.bindings.len() as usize), is_decl: true };
    assert(r1.occs.push(o).drop_last() =~= r1.occs);
    assert(decls(r1.occs.push(o)) == decls(r1.occs).push(o));
}

proof fn lemma_bind_name(r: RS, name: Seq<char>, span: Span)
    requires
        bind_ok(r),
    ensures
        bind_ok(r_name(r, name, span)),
{
    let x = r_name(r, name, span);
    assert(x.occs.drop_last() =~= r.occs);
}

proof fn lemma_bind_params(r: RS, ps: Seq<IdentV>)
    requires
        bind_ok(r),
    ensures
        bind_ok(r_params(r, ps)),
    decreases ps.len(),
{
    if ps.len() > 0 {
        lemma_bind_declare(r, ps[0].name, BindingKind::Param, ps[0].span, 0);
        lemma_bind_params(declare_seq(r, ps[0].name, BindingKind::Param, ps[0].span), ps.drop_first());
    }
}

proof fn lemma_bind_hoist(r: RS, ss: Seq<StmtV>)
    requires
        bind_ok(r),
    ensures
        bind_ok(r_hoist(r, ss)),
    decreases ss.len(),
{
    if ss.len() > 0 {
        match ss[0].kind {
            StmtKindV::Fn { name, params, body: _ } => {
                lemma_bind_declare(r, name.name, BindingKind::Fn, name.span, params.len() as usize);
                lemma_bind_hoist(declare_fn(r, name.name, name.span, params.len() as usize), ss.drop_first());
            },
            _ => {
                lemma_bind_hoist(r, ss.drop_first());
            },
        }
    }
}

proof fn lemma_bind_block(r: RS, b: BlockV, params: Seq<IdentV>)
    requires
        bind_ok(r),
    ensures
        bind_ok(r_block(r, b, params)),
    decreases b,
{
    let r0 = push_frame(r);
    lemma_bind_params(r0, params);
    lemma_bind_hoist(r_params(r0, params), b.stmts);
    let r1 = r_hoist(r_params(r0, params), b.stmts);
    lemma_bind_stmts(r1, b.stmts);
    let r2 = r_stmts(r1, b.stmts);
    match b.tail {
        Some(e) => {
            lemma_bind_expr(r2, *e);
        },
        None => {},
    }
}

proof fn lemma_bind_stmts(r: RS, ss: Seq<StmtV>)
    requires
        bind_ok(r),
    ensures
        bind_ok(r_stmts(r, ss)),
    decreases ss,
{
    if ss.len() > 0 {
        lemma_bind_stmt(r, ss[0]);
        lemma_bind_stmts(r_stmt(r, ss[0]), ss.subrange(1, ss.len() as int));
    }
}

proof fn lemma_bind_stmt(r: RS, s: StmtV)
    requires
        bind_ok(r),
    ensures
        bind_ok(r_stmt(r, s)),
    decreases s,
{
    match s.kind {
        StmtKindV::Let { name, value } => {
            lemma_bind_expr(r, value);
            lemma_bind_declare(r_expr(r, value), name.name, BindingKind::Let, name.span, 0);
        },
        StmtKindV::Fn { name: _, params, body } => {
            lemma_bind_block(r, body, params);
        },
        StmtKindV::Expr { expr } => {
            lemma_bind_expr(r, expr);
        },
    }
}

proof fn lemma_bind_exprs(r: RS, es: Seq<ExprV>)
    requires
        bind_ok(r),
    ensures
        bind_ok(r_exprs(r, es)),
    decreases es,
{
    if es.len() > 0 {
        lemma_bind_expr(r, es[0]);
        lemma_bind_exprs(r_expr(r, es[0]), es.subrange(1, es.len() as int));
    }
}

proof fn lemma_bind_expr(r: RS, e: ExprV)
    requires
        bind_ok(r),
    ensures
        bind_ok(r_expr(r, e)),
    decreases e,
{
    match e.kind {
        ExprKindV::Name { name } => {
            lemma_bind_name(r, name, e.span);
        },
        ExprKindV::Unary { op: _, expr } => {
            lemma_bind_expr(r, *expr);
        },
        ExprKindV::Binary { op: _, lhs, rhs } => {
            lemma_bind_expr(r, *lhs);
            lemma_bind_expr(r_expr(r, *lhs), *rhs);
        },
        ExprKindV::Call { callee, args } => {
            lemma_bind_expr(r, *callee);
            lemma_bind_exprs(r_expr(r, *callee), args);
        },
        ExprKindV::If { cond, then_block, else_block } => {
            lemma_bind_expr(r, *cond);
            lemma_bind_block(r_expr(r, *cond), then_block, seq![]);
            match else_block {
                Some(b) => {
                    lemma_bind_block(r_block(r_expr(r, *cond), then_block, seq![]), b, seq![]);
                },
                None => {},
            }
        },
        ExprKindV::Block { block } => {
            lemma_bind_block(r, block, seq![]);
        },
        ExprKindV::Paren { inner } => {
            lemma_bind_expr(r, *inner);
        },
        _ => {},
    }
}

/// Resolving a program declares each binding by exactly one occurrence, in
/// order: the `k`-th declaring occurrence declares binding `k` at its
/// declared span; and a binding has an arity exactly when it is a function.
pub proof fn lemma_program_bindings(p: Seq<StmtV>)
    ensures
        bind_ok(r_program(p)),
{
    let r0 = empty_rs();
    assert(decls(r0.occs) =~= Seq::<OccV>::empty());
    lemma_bind_hoist(push_frame(r0), p);
    let r1 = r_hoist(push_frame(r0), p);
    lemma_bind_stmts(r1, p);
}

/// While binding numbers fit `usize`, no two declaring occurrences share a
/// binding, each names a binding declared so far, and each declaring
/// occurrence in order is found among the occurrences.
proof fn lemma_decls_unique(os: Seq<OccV>)
    requires
        decls(os).len() <= usize::MAX + 1,
        forall|j: int| 0 <= j < decls(os).len() ==> (#[trigger] decls(os)[j]).binding == Some(j as usize),
    ensures
        forall|k: int|
            0 <= k < os.len() && (#[trigger] os[k]).is_decl ==> (os[k].binding matches Some(b) && b < decls(os).len()),
        forall|k1: int, k2: int|
            0 <= k1 < os.len() && 0 <= k2 < os.len() && k1 != k2 && (#[trigger] os[k1]).is_decl
                && (#[trigger] os[k2]).is_decl ==> os[k1].binding != os[k2].binding,
        forall|j: int| 0 <= j < decls(os).len() ==> exists|k: int| 0 <= k < os.len() && os[k] == #[trigger] decls(os)[j],
    decreases os.len(),
{
    if os.len() > 0 {
        let d = os.drop_last();
        let n = decls(d).len() as int;
        assert forall|j: int| 0 <= j < decls(d).len() implies (#[trigger] decls(d)[j]).binding == Some(j as usize) by {
            assert(decls(os)[j] == decls(d)[j]);
        }
        lemma_decls_unique(d);
        let l = os.len() - 1;
        assert forall|k: int| 0 <= k < os.len() && (#[trigger] os[k]).is_decl implies (os[k].binding matches Some(b) && b
            < decls(os).len()) by {
            if k < l {
                assert(os[k] == d[k]);
            } else {
                assert(decls(os)[n] == os[l]);
            }
        }
        assert forall|k1: int, k2: int|
            0 <= k1 < os.len() && 0 <= k2 < os.len() && k1 != k2 && (#[trigger] os[k1]).is_decl
                && (#[trigger] os[k2]).is_decl implies os[k1].binding != os[k2].binding by {
            if k1 < l && k2 < l {
                assert(os[k1] == d[k1] && os[k2] == d[k2]);
            } else if k1 == l {
                assert(os[k2] == d[k2]);
                assert(decls(os)[n] == os[l]);
            } else {
                assert(os[k1] == d[k1]);
                assert(decls(os)[n] == os[l]);
            }
        }
        assert forall|j: int| 0 <= j < decls(os).len() implies exists|k: int| 0 <= k < os.len() && os[k] == #[trigger] decls(os)[j] by {
            if j < n {
                assert(decls(os)[j] == decls(d)[j]);
                let k = choose|k: int| 0 <= k < d.len() && d[k] == decls(d)[j];
                assert(os[k] == d[k]);
            } else {
                assert(os[l] == decls(os)[j]);
            }
        }
    }
}

/// In the resolution of a program whose bindings are numbered within `usize`,
/// each binding is declared by exactly one occurrence, at its declared span.
pub proof fn law_program_declares_once(p: Seq<StmtV>)
    requires
        r_program(p).bindings.len() <= usize::MAX,
    ensures
        forall|i: int|
            #![trigger r_program(p).bindings[i]]
            0 <= i < r_program(p).bindings.len() ==> exists|k: int|
                0 <= k < r_program(p).occs.len() && (#[trigger] r_program(p).occs[k]).is_decl
                    && r_program(p).occs[k].binding == Some(i as usize) && r_program(p).occs[k].span
                    == r_program(p).bindings[i].decl_span,
        forall|k1: int, k2: int|
            0 <= k1 < r_program(p).occs.len() && 0 <= k2 < r_program(p).occs.len() && k1 != k2
                && (#[trigger] r_program(p).occs[k1]).is_decl && (#[trigger] r_program(p).occs[k2]).is_decl
                ==> r_program(p).occs[k1].binding != r_program(p).occs[k2].binding,
        forall|i: int|
            0 <= i < r_program(p).bindings.len() ==> ((#[trigger] r_program(p).bindings[i]).arity is Some
                <==> r_program(p).bindings[i].kind == BindingKind::Fn),
{
    let r = r_program(p);
    lemma_program_bindings(p);
    lemma_decls_unique(r.occs);
    lemma_decls_decl(r.occs);
    let ds = decls(r.occs);
    assert forall|i: int| #![trigger r.bindings[i]] 0 <= i < r.bindings.len() implies exists|k: int|
        0 <= k < r.occs.len() && (#[trigger] r.occs[k]).is_decl && r.occs[k].binding == Some(i as usize)
            && r.occs[k].span == r.bindings[i].decl_span by {
        assert(ds[i].binding == Some(i as usize));
        let k = choose|k: int| 0 <= k < r.occs.len() && r.occs[k] == ds[i];
        assert(ds[i].is_decl);
    }
}

/// Every declaring occurrence in order is a declaring occurrence.
proof fn lemma_decls_decl(os: Seq<OccV>)
    ensures
        forall|j: int| 0 <= j < decls(os).len() ==> (#[trigger] decls(os)[j]).is_decl,
    decreases os.len(),
{
    if os.len() > 0 {
        lemma_decls_decl(os.drop_last());
        assert forall|j: int| 0 <= j < decls(os).len() implies (#[trigger] decls(os)[j]).is_decl by {
            if j < decls(os.drop_last()).len() {
                assert(decls(os)[j] == decls(os.drop_last())[j]);
            }
        }
    }
}

} // verus!
