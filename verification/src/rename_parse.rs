//! The parser does not look at how identifiers are spelled or where tokens
//! lie: it decides on token kinds and positions in the token sequence alone.
//!
//! `mtoks` respells the identifier tokens at a set of spans and moves every
//! token boundary through a position map; `pm_*` do the same to a syntax tree.
//! Parsing the mapped tokens gives the mapped tree.

use vstd::prelude::*;
use crate::ast::{BinOp, IdentV, StmtV, StmtKindV, BlockV, ExprV, ExprKindV};
use crate::diagnostics::{DiagKind, DiagV, error_v};
use crate::lexer::{TokenKind, TokenV};
use crate::parse_spec::{PS, GroupV, init_ps, at_end, is_kind, bump, set_trunc, with_err, eof_span, cur_span, prev_end, p_expect, p_recover, p_ident_or_missing, p_ident, p_params, ensure_progress, error_expr, junk_stmt, junk_block, binary_v, bin_op_at, block_end, p_block_from, p_block, p_block_items, p_fn, p_let, p_args, p_expr, p_bin, p_bin_loop, p_unary, p_postfix, p_postfix_loop, p_primary, p_if, p_expr_stmt_top, p_top_stmt, p_grouped, spec_parse_items, group_stmts, msg_found_eof, msg_expected, lvl_rank};
use crate::rename_tree::{rn_expr, rn_exprs, rn_block, rn_stmt, rn_stmts, rn_idents};
use crate::span::Span;

verus! {

pub open spec fn fsp(f: spec_fn(u32) -> u32, sp: Span) -> Span {
    Span { start: f(sp.start), end: f(sp.end) }
}

/// A token respelled (an identifier at a span in `s` becomes `n`) and moved.
pub open spec fn mtok(t: TokenV, f: spec_fn(u32) -> u32, s: Set<Span>, n: Seq<char>) -> TokenV {
    TokenV {
        kind: t.kind,
        span: fsp(f, t.span),
        text: if t.kind == TokenKind::Ident && s.contains(t.span) {
            n
        } else {
            t.text
        },
    }
}

pub open spec fn mtoks(ts: Seq<TokenV>, f: spec_fn(u32) -> u32, s: Set<Span>, n: Seq<char>) -> Seq<TokenV> {
    ts.map_values(|t: TokenV| mtok(t, f, s, n))
}

pub open spec fn mdiag(d: DiagV, f: spec_fn(u32) -> u32) -> DiagV {
    DiagV { span: fsp(f, d.span), ..d }
}

pub open spec fn mdiags(ds: Seq<DiagV>, f: spec_fn(u32) -> u32) -> Seq<DiagV> {
    ds.map_values(|d: DiagV| mdiag(d, f))
}

pub open spec fn mps(p: PS, f: spec_fn(u32) -> u32) -> PS {
    PS { pos: p.pos, diags: mdiags(p.diags, f), trunc: p.trunc }
}

pub open spec fn pm_ident(i: IdentV, f: spec_fn(u32) -> u32, s: Set<Span>, n: Seq<char>) -> IdentV {
    IdentV {
        name: if s.contains(i.span) {
            n
        } else {
            i.name
        },
        span: fsp(f, i.span),
    }
}

pub open spec fn pm_idents(ps: Seq<IdentV>, f: spec_fn(u32) -> u32, s: Set<Span>, n: Seq<char>) -> Seq<IdentV> {
    ps.map_values(|i: IdentV| pm_ident(i, f, s, n))
}

pub open spec fn pm_expr(e: ExprV, f: spec_fn(u32) -> u32, s: Set<Span>, n: Seq<char>) -> ExprV
    decreases e,
{
    ExprV {
        kind: match e.kind {
            ExprKindV::Name { name } => ExprKindV::Name {
                name: if s.contains(e.span) {
                    n
                } else {
                    name
                },
            },
            ExprKindV::Unary { op, expr } => ExprKindV::Unary {
                op,
                expr: Box::new(pm_expr(*expr, f, s, n)),
            },
            ExprKindV::Binary { op, lhs, rhs } => ExprKindV::Binary {
                op,
                lhs: Box::new(pm_expr(*lhs, f, s, n)),
                rhs: Box::new(pm_expr(*rhs, f, s, n)),
            },
            ExprKindV::Call { callee, args } => ExprKindV::Call {
                callee: Box::new(pm_expr(*callee, f, s, n)),
                args: pm_exprs(args, f, s, n),
            },
            ExprKindV::If { cond, then_block, else_block } => ExprKindV::If {
                cond: Box::new(pm_expr(*cond, f, s, n)),
                then_block: pm_block(then_block, f, s, n),
                else_block: match else_block {
                    Some(b) => Some(pm_block(b, f, s, n)),
                    None => None,
                },
            },
            ExprKindV::Block { block } => ExprKindV::Block { block: pm_block(block, f, s, n) },
            ExprKindV::Paren { inner } => ExprKindV::Paren { inner: Box::new(pm_expr(*inner, f, s, n)) },
            other => other,
        },
        span: fsp(f, e.span),
    }
}

pub open spec fn pm_exprs(es: Seq<ExprV>, f: spec_fn(u32) -> u32, s: Set<Span>, n: Seq<char>) -> Seq<ExprV>
    decreases es,
{
    if es.len() == 0 {
        seq![]
    } else {
        seq![pm_expr(es[0], f, s, n)] + pm_exprs(es.subrange(1, es.len() as int), f, s, n)
    }
}

pub open spec fn pm_opt(e: Option<ExprV>, f: spec_fn(u32) -> u32, s: Set<Span>, n: Seq<char>) -> Option<ExprV> {
    match e {
        Some(x) => Some(pm_expr(x, f, s, n)),
        None => None,
    }
}

pub open spec fn pm_block(b: BlockV, f: spec_fn(u32) -> u32, s: Set<Span>, n: Seq<char>) -> BlockV
    decreases b,
{
    BlockV {
        stmts: pm_stmts(b.stmts, f, s, n),
        tail: match b.tail {
            Some(e) => Some(Box::new(pm_expr(*e, f, s, n))),
            None => None,
        },
        span: fsp(f, b.span),
    }
}

pub open spec fn pm_stmt(st: StmtV, f: spec_fn(u32) -> u32, s: Set<Span>, n: Seq<char>) -> StmtV
    decreases st,
{
    StmtV {
        kind: match st.kind {
            StmtKindV::Let { name, value } => StmtKindV::Let {
                name: pm_ident(name, f, s, n),
                value: pm_expr(value, f, s, n),
            },
            StmtKindV::Fn { name, params, body } => StmtKindV::Fn {
                name: pm_ident(name, f, s, n),
                params: pm_idents(params, f, s, n),
                body: pm_block(body, f, s, n),
            },
            StmtKindV::Expr { expr } => StmtKindV::Expr { expr: pm_expr(expr, f, s, n) },
        },
        span: fsp(f, st.span),
    }
}

pub open spec fn pm_stmts(ss: Seq<StmtV>, f: spec_fn(u32) -> u32, s: Set<Span>, n: Seq<char>) -> Seq<StmtV>
    decreases ss,
{
    if ss.len() == 0 {
        seq![]
    } else {
        seq![pm_stmt(ss[0], f, s, n)] + pm_stmts(ss.subrange(1, ss.len() as int), f, s, n)
    }
}

pub open spec fn pm_group(g: GroupV, f: spec_fn(u32) -> u32, s: Set<Span>, n: Seq<char>) -> GroupV {
    GroupV { stmt: pm_stmt(g.stmt, f, s, n), tokens: mtoks(g.tokens, f, s, n), diags: mdiags(g.diags, f) }
}

pub open spec fn pm_groups(gs: Seq<GroupV>, f: spec_fn(u32) -> u32, s: Set<Span>, n: Seq<char>) -> Seq<GroupV> {
    gs.map_values(|g: GroupV| pm_group(g, f, s, n))
}

/// What the maps need: position 0 stays put, and no span in `s` is empty.
pub open spec fn map_ok(f: spec_fn(u32) -> u32, s: Set<Span>) -> bool {
    &&& f(0) == 0
    &&& forall|sp: Span| #[trigger] s.contains(sp) ==> sp.start != sp.end
}

pub proof fn lemma_pm_exprs_index(es: Seq<ExprV>, f: spec_fn(u32) -> u32, s: Set<Span>, n: Seq<char>)
    ensures
        pm_exprs(es, f, s, n).len() == es.len(),
        forall|i: int| 0 <= i < es.len() ==> #[trigger] pm_exprs(es, f, s, n)[i] == pm_expr(es[i], f, s, n),
    decreases es.len(),
{
    if es.len() > 0 {
        lemma_pm_exprs_index(es.subrange(1, es.len() as int), f, s, n);
    }
}

pub proof fn lemma_pm_stmts_index(ss: Seq<StmtV>, f: spec_fn(u32) -> u32, s: Set<Span>, n: Seq<char>)
    ensures
        pm_stmts(ss, f, s, n).len() == ss.len(),
        forall|i: int| 0 <= i < ss.len() ==> #[trigger] pm_stmts(ss, f, s, n)[i] == pm_stmt(ss[i], f, s, n),
    decreases ss.len(),
{
    if ss.len() > 0 {
        lemma_pm_stmts_index(ss.subrange(1, ss.len() as int), f, s, n);
    }
}

proof fn lemma_pm_exprs_push(es: Seq<ExprV>, e: ExprV, f: spec_fn(u32) -> u32, s: Set<Span>, n: Seq<char>)
    ensures
        pm_exprs(es.push(e), f, s, n) == pm_exprs(es, f, s, n).push(pm_expr(e, f, s, n)),
{
    lemma_pm_exprs_index(es, f, s, n);
    lemma_pm_exprs_index(es.push(e), f, s, n);
    assert(pm_exprs(es.push(e), f, s, n) =~= pm_exprs(es, f, s, n).push(pm_expr(e, f, s, n)));
}

proof fn lemma_pm_stmts_push(ss: Seq<StmtV>, st: StmtV, f: spec_fn(u32) -> u32, s: Set<Span>, n: Seq<char>)
    ensures
        pm_stmts(ss.push(st), f, s, n) == pm_stmts(ss, f, s, n).push(pm_stmt(st, f, s, n)),
{
    lemma_pm_stmts_index(ss, f, s, n);
    lemma_pm_stmts_index(ss.push(st), f, s, n);
    assert(pm_stmts(ss.push(st), f, s, n) =~= pm_stmts(ss, f, s, n).push(pm_stmt(st, f, s, n)));
}

proof fn lemma_pm_empty(f: spec_fn(u32) -> u32, s: Set<Span>, n: Seq<char>)
    ensures
        pm_exprs(seq![], f, s, n) == Seq::<ExprV>::empty(),
        pm_stmts(seq![], f, s, n) == Seq::<StmtV>::empty(),
        pm_idents(seq![], f, s, n) == Seq::<IdentV>::empty(),
{
    assert(pm_idents(seq![], f, s, n) =~= Seq::<IdentV>::empty());
}

proof fn lemma_with_err(p: PS, sp: Span, kind: DiagKind, msg: Seq<char>, f: spec_fn(u32) -> u32)
    ensures
        with_err(mps(p, f), fsp(f, sp), kind, msg) == mps(with_err(p, sp, kind, msg), f),
{
    assert(mdiags(p.diags.push(error_v(sp, kind, msg)), f) =~= mdiags(p.diags, f).push(
        error_v(fsp(f, sp), kind, msg),
    ));
}

/// The small steps: looking at, consuming and reporting at the current token.
proof fn lemma_steps(t: Seq<TokenV>, p: PS, f: spec_fn(u32) -> u32, s: Set<Span>, n: Seq<char>)
    requires
        map_ok(f, s),
    ensures
        mtoks(t, f, s, n).len() == t.len(),
        at_end(mtoks(t, f, s, n), mps(p, f)) == at_end(t, p),
        forall|k: TokenKind| #[trigger] is_kind(mtoks(t, f, s, n), mps(p, f), k) == is_kind(t, p, k),
        bump(mtoks(t, f, s, n), mps(p, f)) == mps(bump(t, p), f),
        set_trunc(mps(p, f)) == mps(set_trunc(p), f),
        eof_span(mtoks(t, f, s, n)) == fsp(f, eof_span(t)),
        cur_span(mtoks(t, f, s, n), mps(p, f)) == fsp(f, cur_span(t, p)),
        prev_end(mtoks(t, f, s, n), mps(p, f)) == f(prev_end(t, p)),
        forall|lvl: int| #[trigger] bin_op_at(mtoks(t, f, s, n), mps(p, f), lvl) == bin_op_at(t, p, lvl),
        0 <= p.pos < t.len() ==> mtoks(t, f, s, n)[p.pos] == mtok(t[p.pos], f, s, n),
{
    let mt = mtoks(t, f, s, n);
    if t.len() > 0 {
        assert(mt.last() == mtok(t.last(), f, s, n));
    }
    if 0 < p.pos <= t.len() {
        assert(mt[p.pos - 1] == mtok(t[p.pos - 1], f, s, n));
    }
    if 0 <= p.pos < t.len() {
        assert(mt[p.pos] == mtok(t[p.pos], f, s, n));
    }
}

pub open spec fn fopt(f: spec_fn(u32) -> u32, o: Option<Span>) -> Option<Span> {
    match o {
        Some(sp) => Some(fsp(f, sp)),
        None => None,
    }
}

proof fn lemma_expect(t: Seq<TokenV>, p: PS, k: TokenKind, what: Seq<char>, f: spec_fn(u32) -> u32, s: Set<Span>, n: Seq<char>)
    requires
        map_ok(f, s),
    ensures
        p_expect(mtoks(t, f, s, n), mps(p, f), k, what) == (mps(p_expect(t, p, k, what).0, f), fopt(f, p_expect(t, p, k, what).1)),
{
    lemma_steps(t, p, f, s, n);
    lemma_with_err(set_trunc(p), eof_span(t), DiagKind::UnexpectedEof, msg_found_eof(what), f);
    lemma_with_err(p, Span { start: prev_end(t, p), end: prev_end(t, p) }, DiagKind::ParseError, msg_expected(what), f);
}


proof fn lemma_recover(t: Seq<TokenV>, p: PS, f: spec_fn(u32) -> u32, s: Set<Span>, n: Seq<char>)
    requires
        map_ok(f, s),
    ensures
        p_recover(mtoks(t, f, s, n), mps(p, f)) == mps(p_recover(t, p), f),
    decreases t.len() - p.pos,
{
    lemma_steps(t, p, f, s, n);
    if !(p.pos < 0 || at_end(t, p)) && t[p.pos].kind != TokenKind::Semi && !(t[p.pos].kind == TokenKind::Fn
        || t[p.pos].kind == TokenKind::Let || t[p.pos].kind == TokenKind::RBrace) {
        lemma_recover(t, bump(t, p), f, s, n);
    }
}

proof fn lemma_ident_or_missing(t: Seq<TokenV>, p: PS, what: Seq<char>, f: spec_fn(u32) -> u32, s: Set<Span>, n: Seq<char>)
    requires
        map_ok(f, s),
    ensures
        p_ident_or_missing(mtoks(t, f, s, n), mps(p, f), what) == (
            mps(p_ident_or_missing(t, p, what).0, f),
            pm_ident(p_ident_or_missing(t, p, what).1, f, s, n),
        ),
{
    lemma_steps(t, p, f, s, n);
    lemma_expect(t, p, TokenKind::Ident, what, f, s, n);
    let s1 = p_expect(t, p, TokenKind::Ident, what).0;
    lemma_steps(t, s1, f, s, n);
    let at = cur_span(t, s1).start;
    assert(!s.contains(Span { start: at, end: at }));
}

proof fn lemma_ident(t: Seq<TokenV>, p: PS, what: Seq<char>, f: spec_fn(u32) -> u32, s: Set<Span>, n: Seq<char>)
    requires
        map_ok(f, s),
    ensures
        p_ident(mtoks(t, f, s, n), mps(p, f), what).0 == mps(p_ident(t, p, what).0, f),
        p_ident(mtoks(t, f, s, n), mps(p, f), what).1 == match p_ident(t, p, what).1 {
            Some(i) => Some(pm_ident(i, f, s, n)),
            None => None,
        },
{
    lemma_steps(t, p, f, s, n);
    lemma_expect(t, p, TokenKind::Ident, what, f, s, n);
}

proof fn lemma_params(t: Seq<TokenV>, p: PS, acc: Seq<IdentV>, f: spec_fn(u32) -> u32, s: Set<Span>, n: Seq<char>)
    requires
        map_ok(f, s),
    ensures
        p_params(mtoks(t, f, s, n), mps(p, f), pm_idents(acc, f, s, n)) == (
            mps(p_params(t, p, acc).0, f),
            pm_idents(p_params(t, p, acc).1, f, s, n),
        ),
    decreases t.len() - p.pos,
{
    let what = "a parameter name"@;
    lemma_ident(t, p, what, f, s, n);
    let (s1, id) = p_ident(t, p, what);
    lemma_steps(t, s1, f, s, n);
    if let Some(i) = id {
        assert(pm_idents(acc.push(i), f, s, n) =~= pm_idents(acc, f, s, n).push(pm_ident(i, f, s, n)));
        if is_kind(t, s1, TokenKind::Comma) {
            let s2 = bump(t, s1);
            if p.pos < s2.pos <= t.len() {
                lemma_params(t, s2, acc.push(i), f, s, n);
            }
        }
    }
}

proof fn lemma_progress(t: Seq<TokenV>, before: int, p: PS, f: spec_fn(u32) -> u32, s: Set<Span>, n: Seq<char>)
    requires
        map_ok(f, s),
    ensures
        ensure_progress(mtoks(t, f, s, n), before, mps(p, f)) == mps(ensure_progress(t, before, p), f),
{
    lemma_steps(t, p, f, s, n);
    lemma_with_err(p, cur_span(t, p), DiagKind::ParseError, "unexpected token"@, f);
    lemma_steps(t, with_err(p, cur_span(t, p), DiagKind::ParseError, "unexpected token"@), f, s, n);
}

proof fn lemma_junk(f: spec_fn(u32) -> u32, s: Set<Span>, n: Seq<char>)
    requires
        map_ok(f, s),
    ensures
        pm_stmt(junk_stmt(), f, s, n) == junk_stmt(),
        pm_block(junk_block(), f, s, n) == junk_block(),
        pm_expr(error_expr(Span { start: 0, end: 0 }), f, s, n) == error_expr(Span { start: 0, end: 0 }),
        forall|sp: Span| #[trigger] pm_expr(error_expr(sp), f, s, n) == error_expr(fsp(f, sp)),
{
    lemma_pm_empty(f, s, n);
}

proof fn lemma_binary(l: ExprV, op: BinOp, r: ExprV, f: spec_fn(u32) -> u32, s: Set<Span>, n: Seq<char>)
    ensures
        pm_expr(binary_v(l, op, r), f, s, n) == binary_v(pm_expr(l, f, s, n), op, pm_expr(r, f, s, n)),
{
}

proof fn lemma_block_from(t: Seq<TokenV>, p: PS, start: u32, f: spec_fn(u32) -> u32, s: Set<Span>, n: Seq<char>)
    requires
        map_ok(f, s),
    ensures
        p_block_from(mtoks(t, f, s, n), mps(p, f), f(start)) == (
            mps(p_block_from(t, p, start).0, f),
            pm_block(p_block_from(t, p, start).1, f, s, n),
        ),
    decreases t.len() - p.pos, 26int,
{
    lemma_pm_empty(f, s, n);
    lemma_block_items(t, p, seq![], f, s, n);
    let (s2, stmts, tail) = p_block_items(t, p, seq![]);
    lemma_expect(t, s2, TokenKind::RBrace, "`}`"@, f, s, n);
    let close = p_expect(t, s2, TokenKind::RBrace, "`}`"@).1;
    lemma_pm_stmts_index(stmts, f, s, n);
    if stmts.len() > 0 {
        assert(pm_stmts(stmts, f, s, n).last() == pm_stmt(stmts.last(), f, s, n));
    }
    assert(f(block_end(close, tail, stmts, start)) == block_end(fopt(f, close), pm_opt(tail, f, s, n), pm_stmts(stmts, f, s, n), f(start)));
}

proof fn lemma_block(t: Seq<TokenV>, p: PS, f: spec_fn(u32) -> u32, s: Set<Span>, n: Seq<char>)
    requires
        map_ok(f, s),
    ensures
        p_block(mtoks(t, f, s, n), mps(p, f)) == (mps(p_block(t, p).0, f), pm_block(p_block(t, p).1, f, s, n)),
    decreases t.len() - p.pos, 27int,
{
    lemma_junk(f, s, n);
    lemma_expect(t, p, TokenKind::LBrace, "`{`"@, f, s, n);
    let (s1, open) = p_expect(t, p, TokenKind::LBrace, "`{`"@);
    lemma_steps(t, s1, f, s, n);
    let start = match open {
        Some(sp) => sp.start,
        None => cur_span(t, s1).start,
    };
    if p.pos <= s1.pos <= t.len() {
        lemma_block_from(t, s1, start, f, s, n);
    }
}

proof fn lemma_block_items(t: Seq<TokenV>, p: PS, stmts: Seq<StmtV>, f: spec_fn(u32) -> u32, s: Set<Span>, n: Seq<char>)
    requires
        map_ok(f, s),
    ensures
        p_block_items(mtoks(t, f, s, n), mps(p, f), pm_stmts(stmts, f, s, n)) == (
            mps(p_block_items(t, p, stmts).0, f),
            pm_stmts(p_block_items(t, p, stmts).1, f, s, n),
            pm_opt(p_block_items(t, p, stmts).2, f, s, n),
        ),
    decreases t.len() - p.pos, 25int,
{
    lemma_steps(t, p, f, s, n);
    if p.pos < 0 || at_end(t, p) {
    } else if t[p.pos].kind == TokenKind::RBrace {
    } else if t[p.pos].kind == TokenKind::Fn || t[p.pos].kind == TokenKind::Let {
        let (s1, st) = if t[p.pos].kind == TokenKind::Fn {
            p_fn(t, p)
        } else {
            p_let(t, p)
        };
        if t[p.pos].kind == TokenKind::Fn {
            lemma_fn(t, p, f, s, n);
        } else {
            lemma_let(t, p, f, s, n);
        }
        if p.pos < s1.pos <= t.len() {
            lemma_pm_stmts_push(stmts, st, f, s, n);
            lemma_block_items(t, s1, stmts.push(st), f, s, n);
        }
    } else {
        lemma_expr(t, p, f, s, n);
        let (s1, e) = p_expr(t, p);
        lemma_steps(t, s1, f, s, n);
        if is_kind(t, s1, TokenKind::Semi) {
            let semi = t[s1.pos].span;
            lemma_steps(t, bump(t, s1), f, s, n);
            lemma_progress(t, p.pos, bump(t, s1), f, s, n);
            let s2 = ensure_progress(t, p.pos, bump(t, s1));
            let st = StmtV { kind: StmtKindV::Expr { expr: e }, span: Span { start: e.span.start, end: semi.end } };
            if p.pos < s2.pos <= t.len() {
                lemma_pm_stmts_push(stmts, st, f, s, n);
                lemma_block_items(t, s2, stmts.push(st), f, s, n);
            }
        } else if is_kind(t, s1, TokenKind::RBrace) || at_end(t, s1) {
        } else {
            let m = with_err(s1, cur_span(t, s1), DiagKind::ParseError, "expected `;` or `}`"@);
            lemma_with_err(s1, cur_span(t, s1), DiagKind::ParseError, "expected `;` or `}`"@, f);
            lemma_recover(t, m, f, s, n);
            lemma_progress(t, p.pos, p_recover(t, m), f, s, n);
            let s2 = ensure_progress(t, p.pos, p_recover(t, m));
            let st = StmtV { kind: StmtKindV::Expr { expr: e }, span: e.span };
            if p.pos < s2.pos <= t.len() {
                lemma_pm_stmts_push(stmts, st, f, s, n);
                lemma_block_items(t, s2, stmts.push(st), f, s, n);
            }
        }
    }
}

proof fn lemma_fn(t: Seq<TokenV>, p: PS, f: spec_fn(u32) -> u32, s: Set<Span>, n: Seq<char>)
    requires
        map_ok(f, s),
    ensures
        p_fn(mtoks(t, f, s, n), mps(p, f)) == (mps(p_fn(t, p).0, f), pm_stmt(p_fn(t, p).1, f, s, n)),
    decreases t.len() - p.pos, 24int,
{
    lemma_junk(f, s, n);
    lemma_pm_empty(f, s, n);
    lemma_steps(t, p, f, s, n);
    let s1 = bump(t, p);
    lemma_ident_or_missing(t, s1, "a function name"@, f, s, n);
    let (s2, name) = p_ident_or_missing(t, s1, "a function name"@);
    lemma_expect(t, s2, TokenKind::LParen, "`(`"@, f, s, n);
    let s3 = p_expect(t, s2, TokenKind::LParen, "`(`"@).0;
    lemma_steps(t, s3, f, s, n);
    if !is_kind(t, s3, TokenKind::RParen) {
        lemma_params(t, s3, seq![], f, s, n);
    }
    let (s4, params) = if !is_kind(t, s3, TokenKind::RParen) {
        p_params(t, s3, seq![])
    } else {
        (s3, seq![])
    };
    lemma_expect(t, s4, TokenKind::RParen, "`)`"@, f, s, n);
    let s5 = p_expect(t, s4, TokenKind::RParen, "`)`"@).0;
    if p.pos < s5.pos <= t.len() {
        lemma_block(t, s5, f, s, n);
    }
}

proof fn lemma_let(t: Seq<TokenV>, p: PS, f: spec_fn(u32) -> u32, s: Set<Span>, n: Seq<char>)
    requires
        map_ok(f, s),
    ensures
        p_let(mtoks(t, f, s, n), mps(p, f)) == (mps(p_let(t, p).0, f), pm_stmt(p_let(t, p).1, f, s, n)),
    decreases t.len() - p.pos, 24int,
{
    lemma_junk(f, s, n);
    lemma_steps(t, p, f, s, n);
    let s1 = bump(t, p);
    lemma_ident_or_missing(t, s1, "a variable name"@, f, s, n);
    let (s2, name) = p_ident_or_missing(t, s1, "a variable name"@);
    lemma_expect(t, s2, TokenKind::Eq, "`=`"@, f, s, n);
    let s3 = p_expect(t, s2, TokenKind::Eq, "`=`"@).0;
    if p.pos < s3.pos <= t.len() {
        lemma_expr(t, s3, f, s, n);
        let (s4, value) = p_expr(t, s3);
        lemma_expect(t, s4, TokenKind::Semi, "`;`"@, f, s, n);
    }
}

proof fn lemma_args(t: Seq<TokenV>, p: PS, acc: Seq<ExprV>, f: spec_fn(u32) -> u32, s: Set<Span>, n: Seq<char>)
    requires
        map_ok(f, s),
    ensures
        p_args(mtoks(t, f, s, n), mps(p, f), pm_exprs(acc, f, s, n)) == (
            mps(p_args(t, p, acc).0, f),
            pm_exprs(p_args(t, p, acc).1, f, s, n),
        ),
    decreases t.len() - p.pos, 24int,
{
    lemma_expr(t, p, f, s, n);
    let (s1, e) = p_expr(t, p);
    lemma_steps(t, s1, f, s, n);
    lemma_pm_exprs_push(acc, e, f, s, n);
    if is_kind(t, s1, TokenKind::Comma) {
        let s2 = bump(t, s1);
        if p.pos < s2.pos <= t.len() {
            lemma_args(t, s2, acc.push(e), f, s, n);
        }
    }
}

proof fn lemma_expr(t: Seq<TokenV>, p: PS, f: spec_fn(u32) -> u32, s: Set<Span>, n: Seq<char>)
    requires
        map_ok(f, s),
    ensures
        p_expr(mtoks(t, f, s, n), mps(p, f)) == (mps(p_expr(t, p).0, f), pm_expr(p_expr(t, p).1, f, s, n)),
    decreases t.len() - p.pos, 23int,
{
    lemma_bin(t, p, 0, f, s, n);
}

proof fn lemma_bin(t: Seq<TokenV>, p: PS, lvl: int, f: spec_fn(u32) -> u32, s: Set<Span>, n: Seq<char>)
    requires
        map_ok(f, s),
    ensures
        p_bin(mtoks(t, f, s, n), mps(p, f), lvl) == (mps(p_bin(t, p, lvl).0, f), pm_expr(p_bin(t, p, lvl).1, f, s, n)),
    decreases t.len() - p.pos, lvl_rank(lvl),
{
    lemma_junk(f, s, n);
    if 0 <= lvl <= 3 {
        if lvl == 3 {
            lemma_unary(t, p, f, s, n);
        } else {
            lemma_bin(t, p, lvl + 1, f, s, n);
        }
        let (s1, lhs) = if lvl == 3 {
            p_unary(t, p)
        } else {
            p_bin(t, p, lvl + 1)
        };
        if p.pos <= s1.pos <= t.len() {
            lemma_bin_loop(t, s1, lvl, lhs, f, s, n);
        }
    }
}


proof fn lemma_bin_loop(t: Seq<TokenV>, p: PS, lvl: int, lhs: ExprV, f: spec_fn(u32) -> u32, s: Set<Span>, n: Seq<char>)
    requires
        map_ok(f, s),
    ensures
        p_bin_loop(mtoks(t, f, s, n), mps(p, f), lvl, pm_expr(lhs, f, s, n)) == (
            mps(p_bin_loop(t, p, lvl, lhs).0, f),
            pm_expr(p_bin_loop(t, p, lvl, lhs).1, f, s, n),
        ),
    decreases t.len() - p.pos, lvl_rank(lvl) - 1,
{
    lemma_steps(t, p, f, s, n);
    if 0 <= lvl <= 3 {
        if let Some(op) = bin_op_at(t, p, lvl) {
            let s1 = bump(t, p);
            if lvl == 3 {
                lemma_unary(t, s1, f, s, n);
            } else {
                lemma_bin(t, s1, lvl + 1, f, s, n);
            }
            let (s2, rhs) = if lvl == 3 {
                p_unary(t, s1)
            } else {
                p_bin(t, s1, lvl + 1)
            };
            lemma_binary(lhs, op, rhs, f, s, n);
            if p.pos < s2.pos <= t.len() {
                lemma_bin_loop(t, s2, lvl, binary_v(lhs, op, rhs), f, s, n);
            }
        }
    }
}

proof fn lemma_unary(t: Seq<TokenV>, p: PS, f: spec_fn(u32) -> u32, s: Set<Span>, n: Seq<char>)
    requires
        map_ok(f, s),
    ensures
        p_unary(mtoks(t, f, s, n), mps(p, f)) == (mps(p_unary(t, p).0, f), pm_expr(p_unary(t, p).1, f, s, n)),
    decreases t.len() - p.pos, 14int,
{
    lemma_steps(t, p, f, s, n);
    if is_kind(t, p, TokenKind::Minus) || is_kind(t, p, TokenKind::Bang) {
        lemma_unary(t, bump(t, p), f, s, n);
    } else {
        lemma_postfix(t, p, f, s, n);
    }
}

proof fn lemma_postfix(t: Seq<TokenV>, p: PS, f: spec_fn(u32) -> u32, s: Set<Span>, n: Seq<char>)
    requires
        map_ok(f, s),
    ensures
        p_postfix(mtoks(t, f, s, n), mps(p, f)) == (mps(p_postfix(t, p).0, f), pm_expr(p_postfix(t, p).1, f, s, n)),
    decreases t.len() - p.pos, 13int,
{
    lemma_primary(t, p, f, s, n);
    let (s1, e) = p_primary(t, p);
    if p.pos <= s1.pos <= t.len() {
        lemma_postfix_loop(t, s1, e, f, s, n);
    }
}

proof fn lemma_postfix_loop(t: Seq<TokenV>, p: PS, e: ExprV, f: spec_fn(u32) -> u32, s: Set<Span>, n: Seq<char>)
    requires
        map_ok(f, s),
    ensures
        p_postfix_loop(mtoks(t, f, s, n), mps(p, f), pm_expr(e, f, s, n)) == (
            mps(p_postfix_loop(t, p, e).0, f),
            pm_expr(p_postfix_loop(t, p, e).1, f, s, n),
        ),
    decreases t.len() - p.pos, 12int,
{
    lemma_pm_empty(f, s, n);
    lemma_steps(t, p, f, s, n);
    if is_kind(t, p, TokenKind::LParen) {
        let s1 = bump(t, p);
        lemma_steps(t, s1, f, s, n);
        if !is_kind(t, s1, TokenKind::RParen) {
            lemma_args(t, s1, seq![], f, s, n);
        }
        let (s2, args) = if !is_kind(t, s1, TokenKind::RParen) {
            p_args(t, s1, seq![])
        } else {
            (s1, seq![])
        };
        lemma_expect(t, s2, TokenKind::RParen, "`)`"@, f, s, n);
        let (s3, close) = p_expect(t, s2, TokenKind::RParen, "`)`"@);
        lemma_steps(t, s3, f, s, n);
        let end = match close {
            Some(sp) => sp.end,
            None => prev_end(t, s3),
        };
        let call = ExprV { kind: ExprKindV::Call { callee: Box::new(e), args }, span: Span { start: e.span.start, end } };
        if p.pos < s3.pos <= t.len() {
            lemma_postfix_loop(t, s3, call, f, s, n);
        }
    }
}

proof fn lemma_primary(t: Seq<TokenV>, p: PS, f: spec_fn(u32) -> u32, s: Set<Span>, n: Seq<char>)
    requires
        map_ok(f, s),
    ensures
        p_primary(mtoks(t, f, s, n), mps(p, f)) == (mps(p_primary(t, p).0, f), pm_expr(p_primary(t, p).1, f, s, n)),
    decreases t.len() - p.pos, 11int,
{
    lemma_junk(f, s, n);
    lemma_steps(t, p, f, s, n);
    if p.pos < 0 || at_end(t, p) {
        lemma_with_err(set_trunc(p), eof_span(t), DiagKind::UnexpectedEof, "expected an expression"@, f);
    } else {
        let tok = t[p.pos];
        let k = tok.kind;
        if k == TokenKind::LParen {
            lemma_expr(t, bump(t, p), f, s, n);
            let (s2, inner) = p_expr(t, bump(t, p));
            lemma_expect(t, s2, TokenKind::RParen, "`)`"@, f, s, n);
        } else if k == TokenKind::LBrace {
            lemma_block_from(t, bump(t, p), tok.span.start, f, s, n);
        } else if k == TokenKind::If {
            lemma_if(t, p, f, s, n);
        } else if k != TokenKind::Int && k != TokenKind::True && k != TokenKind::False && k != TokenKind::Ident {
            lemma_with_err(p, tok.span, DiagKind::ParseError, "expected an expression"@, f);
            lemma_steps(t, with_err(p, tok.span, DiagKind::ParseError, "expected an expression"@), f, s, n);
        }
    }
}

proof fn lemma_if(t: Seq<TokenV>, p: PS, f: spec_fn(u32) -> u32, s: Set<Span>, n: Seq<char>)
    requires
        map_ok(f, s),
    ensures
        p_if(mtoks(t, f, s, n), mps(p, f)) == (mps(p_if(t, p).0, f), pm_expr(p_if(t, p).1, f, s, n)),
    decreases t.len() - p.pos, 10int,
{
    lemma_junk(f, s, n);
    lemma_steps(t, p, f, s, n);
    if 0 <= p.pos < t.len() {
        lemma_expr(t, bump(t, p), f, s, n);
        let (s2, cond) = p_expr(t, bump(t, p));
        if p.pos < s2.pos <= t.len() {
            lemma_block(t, s2, f, s, n);
            let (s3, then_block) = p_block(t, s2);
            lemma_steps(t, s3, f, s, n);
            if p.pos < s3.pos <= t.len() && is_kind(t, s3, TokenKind::Else) {
                lemma_block(t, bump(t, s3), f, s, n);
            }
        }
    }
}

proof fn lemma_expr_stmt_top(t: Seq<TokenV>, p: PS, f: spec_fn(u32) -> u32, s: Set<Span>, n: Seq<char>)
    requires
        map_ok(f, s),
    ensures
        p_expr_stmt_top(mtoks(t, f, s, n), mps(p, f)) == (
            mps(p_expr_stmt_top(t, p).0, f),
            pm_stmt(p_expr_stmt_top(t, p).1, f, s, n),
        ),
{
    lemma_expr(t, p, f, s, n);
    let (s1, e) = p_expr(t, p);
    lemma_expect(t, s1, TokenKind::Semi, "`;`"@, f, s, n);
    let (s2, semi) = p_expect(t, s1, TokenKind::Semi, "`;`"@);
    lemma_recover(t, s2, f, s, n);
}

proof fn lemma_top_stmt(t: Seq<TokenV>, p: PS, f: spec_fn(u32) -> u32, s: Set<Span>, n: Seq<char>)
    requires
        map_ok(f, s),
    ensures
        p_top_stmt(mtoks(t, f, s, n), mps(p, f)) == (mps(p_top_stmt(t, p).0, f), pm_stmt(p_top_stmt(t, p).1, f, s, n)),
{
    lemma_steps(t, p, f, s, n);
    if is_kind(t, p, TokenKind::Fn) {
        lemma_fn(t, p, f, s, n);
    } else if is_kind(t, p, TokenKind::Let) {
        lemma_let(t, p, f, s, n);
    } else {
        lemma_expr_stmt_top(t, p, f, s, n);
    }
}

proof fn lemma_grouped(t: Seq<TokenV>, p: PS, groups: Seq<GroupV>, f: spec_fn(u32) -> u32, s: Set<Span>, n: Seq<char>)
    requires
        map_ok(f, s),
    ensures
        p_grouped(mtoks(t, f, s, n), mps(p, f), pm_groups(groups, f, s, n)) == (
            mps(p_grouped(t, p, groups).0, f),
            pm_groups(p_grouped(t, p, groups).1, f, s, n),
        ),
    decreases t.len() - p.pos,
{
    lemma_steps(t, p, f, s, n);
    if !(p.pos < 0 || at_end(t, p)) {
        lemma_top_stmt(t, p, f, s, n);
        let (s1, stmt) = p_top_stmt(t, p);
        lemma_progress(t, p.pos, s1, f, s, n);
        let s2 = ensure_progress(t, p.pos, s1);
        if p.pos < s2.pos <= t.len() && p.diags.len() <= s2.diags.len() {
            let g = GroupV {
                stmt,
                tokens: t.subrange(p.pos, s2.pos),
                diags: s2.diags.subrange(p.diags.len() as int, s2.diags.len() as int),
            };
            assert(mtoks(t, f, s, n).subrange(p.pos, s2.pos) =~= mtoks(t.subrange(p.pos, s2.pos), f, s, n));
            assert(mdiags(s2.diags, f).subrange(p.diags.len() as int, s2.diags.len() as int) =~= mdiags(
                s2.diags.subrange(p.diags.len() as int, s2.diags.len() as int),
                f,
            ));
            assert(pm_groups(groups.push(g), f, s, n) =~= pm_groups(groups, f, s, n).push(pm_group(g, f, s, n)));
            lemma_grouped(t, s2, groups.push(g), f, s, n);
        }
    }
}

/// Parsing respelled and moved tokens gives the respelled and moved statement
/// groups, and runs out mid construct exactly when the original does.
pub proof fn lemma_parse_mapped(t: Seq<TokenV>, f: spec_fn(u32) -> u32, s: Set<Span>, n: Seq<char>)
    requires
        map_ok(f, s),
    ensures
        spec_parse_items(mtoks(t, f, s, n)).0 == pm_groups(spec_parse_items(t).0, f, s, n),
        spec_parse_items(mtoks(t, f, s, n)).1 == spec_parse_items(t).1,
        group_stmts(spec_parse_items(mtoks(t, f, s, n)).0) == pm_stmts(group_stmts(spec_parse_items(t).0), f, s, n),
{
    assert(mdiags(seq![], f) =~= Seq::<DiagV>::empty());
    assert(mps(init_ps(), f) == init_ps());
    assert(pm_groups(seq![], f, s, n) =~= Seq::<GroupV>::empty());
    lemma_grouped(t, init_ps(), seq![], f, s, n);
    let gs = spec_parse_items(t).0;
    lemma_pm_stmts_index(group_stmts(gs), f, s, n);
    assert(group_stmts(pm_groups(gs, f, s, n)) =~= pm_stmts(group_stmts(gs), f, s, n));
}

// ---------------------------------------------------------------------------
// Respelling and moving is respelling, then moving

pub proof fn lemma_pm_split_expr(e: ExprV, f: spec_fn(u32) -> u32, s: Set<Span>, n: Seq<char>)
    ensures
        pm_expr(e, f, s, n) == pm_expr(rn_expr(e, s, n), f, Set::empty(), n),
    decreases e,
{
    match e.kind {
        ExprKindV::Unary { op: _, expr } => {
            lemma_pm_split_expr(*expr, f, s, n);
        },
        ExprKindV::Binary { op: _, lhs, rhs } => {
            lemma_pm_split_expr(*lhs, f, s, n);
            lemma_pm_split_expr(*rhs, f, s, n);
        },
        ExprKindV::Call { callee, args } => {
            lemma_pm_split_expr(*callee, f, s, n);
            lemma_pm_split_exprs(args, f, s, n);
        },
        ExprKindV::If { cond, then_block, else_block } => {
            lemma_pm_split_expr(*cond, f, s, n);
            lemma_pm_split_block(then_block, f, s, n);
            match else_block {
                Some(b) => {
                    lemma_pm_split_block(b, f, s, n);
                },
                None => {},
            }
        },
        ExprKindV::Block { block } => {
            lemma_pm_split_block(block, f, s, n);
        },
        ExprKindV::Paren { inner } => {
            lemma_pm_split_expr(*inner, f, s, n);
        },
        _ => {},
    }
}

pub proof fn lemma_pm_split_exprs(es: Seq<ExprV>, f: spec_fn(u32) -> u32, s: Set<Span>, n: Seq<char>)
    ensures
        pm_exprs(es, f, s, n) == pm_exprs(rn_exprs(es, s, n), f, Set::empty(), n),
    decreases es,
{
    if es.len() > 0 {
        let rest = es.subrange(1, es.len() as int);
        lemma_pm_split_expr(es[0], f, s, n);
        lemma_pm_split_exprs(rest, f, s, n);
        let r = rn_exprs(es, s, n);
        assert(r[0] == rn_expr(es[0], s, n));
        assert(r.subrange(1, r.len() as int) =~= rn_exprs(rest, s, n));
    }
}

pub proof fn lemma_pm_split_block(b: BlockV, f: spec_fn(u32) -> u32, s: Set<Span>, n: Seq<char>)
    ensures
        pm_block(b, f, s, n) == pm_block(rn_block(b, s, n), f, Set::empty(), n),
    decreases b,
{
    lemma_pm_split_stmts(b.stmts, f, s, n);
    match b.tail {
        Some(e) => {
            lemma_pm_split_expr(*e, f, s, n);
        },
        None => {},
    }
}

pub proof fn lemma_pm_split_stmt(st: StmtV, f: spec_fn(u32) -> u32, s: Set<Span>, n: Seq<char>)
    ensures
        pm_stmt(st, f, s, n) == pm_stmt(rn_stmt(st, s, n), f, Set::empty(), n),
    decreases st,
{
    match st.kind {
        StmtKindV::Let { name: _, value } => {
            lemma_pm_split_expr(value, f, s, n);
        },
        StmtKindV::Fn { name: _, params, body } => {
            lemma_pm_split_block(body, f, s, n);
            assert(pm_idents(params, f, s, n) =~= pm_idents(rn_idents(params, s, n), f, Set::empty(), n));
        },
        StmtKindV::Expr { expr } => {
            lemma_pm_split_expr(expr, f, s, n);
        },
    }
}

pub proof fn lemma_pm_split_stmts(ss: Seq<StmtV>, f: spec_fn(u32) -> u32, s: Set<Span>, n: Seq<char>)
    ensures
        pm_stmts(ss, f, s, n) == pm_stmts(rn_stmts(ss, s, n), f, Set::empty(), n),
    decreases ss,
{
    if ss.len() > 0 {
        let rest = ss.subrange(1, ss.len() as int);
        lemma_pm_split_stmt(ss[0], f, s, n);
        lemma_pm_split_stmts(rest, f, s, n);
        let r = rn_stmts(ss, s, n);
        assert(r[0] == rn_stmt(ss[0], s, n));
        assert(r.subrange(1, r.len() as int) =~= rn_stmts(rest, s, n));
    }
}

// ---------------------------------------------------------------------------
// Every identifier of a parse comes from an identifier token

/// `p` is 0 or an end of one of the tokens.
pub open spec fn tok_pos(t: Seq<TokenV>, p: u32) -> bool {
    p == 0 || exists|i: int| 0 <= i < t.len() && ((#[trigger] t[i]).span.start == p || t[i].span.end == p)
}

/// An identifier spelled `name` at `sp` is an identifier token of `t`, or a
/// nameless placeholder of no width at a token end.
pub open spec fn from_tok(t: Seq<TokenV>, sp: Span, name: Seq<char>) -> bool {
    ||| exists|i: int| 0 <= i < t.len() && (#[trigger] t[i]).kind == TokenKind::Ident && t[i].span == sp && t[i].text == name
    ||| sp.start == sp.end && name == Seq::<char>::empty() && tok_pos(t, sp.start)
}

pub open spec fn src_idents(ps: Seq<IdentV>, t: Seq<TokenV>) -> bool {
    forall|i: int| 0 <= i < ps.len() ==> from_tok(t, (#[trigger] ps[i]).span, ps[i].name)
}

pub open spec fn src_expr(e: ExprV, t: Seq<TokenV>) -> bool
    decreases e,
{
    match e.kind {
        ExprKindV::Name { name } => from_tok(t, e.span, name),
        ExprKindV::Unary { op: _, expr } => src_expr(*expr, t),
        ExprKindV::Binary { op: _, lhs, rhs } => src_expr(*lhs, t) && src_expr(*rhs, t),
        ExprKindV::Call { callee, args } => src_expr(*callee, t) && src_exprs(args, t),
        ExprKindV::If { cond, then_block, else_block } => src_expr(*cond, t) && src_block(then_block, t) && match else_block {
            Some(b) => src_block(b, t),
            None => true,
        },
        ExprKindV::Block { block } => src_block(block, t),
        ExprKindV::Paren { inner } => src_expr(*inner, t),
        _ => true,
    }
}

pub open spec fn src_exprs(es: Seq<ExprV>, t: Seq<TokenV>) -> bool
    decreases es,
{
    if es.len() == 0 {
        true
    } else {
        src_expr(es[0], t) && src_exprs(es.subrange(1, es.len() as int), t)
    }
}

pub open spec fn src_block(b: BlockV, t: Seq<TokenV>) -> bool
    decreases b,
{
    src_stmts(b.stmts, t) && match b.tail {
        Some(e) => src_expr(*e, t),
        None => true,
    }
}

pub open spec fn src_stmt(st: StmtV, t: Seq<TokenV>) -> bool
    decreases st,
{
    match st.kind {
        StmtKindV::Let { name, value } => from_tok(t, name.span, name.name) && src_expr(value, t),
        StmtKindV::Fn { name, params, body } => from_tok(t, name.span, name.name) && src_idents(params, t) && src_block(body, t),
        StmtKindV::Expr { expr } => src_expr(expr, t),
    }
}

pub open spec fn src_stmts(ss: Seq<StmtV>, t: Seq<TokenV>) -> bool
    decreases ss,
{
    if ss.len() == 0 {
        true
    } else {
        src_stmt(ss[0], t) && src_stmts(ss.subrange(1, ss.len() as int), t)
    }
}

pub proof fn lemma_src_stmts_index(ss: Seq<StmtV>, t: Seq<TokenV>)
    ensures
        src_stmts(ss, t) == forall|i: int| 0 <= i < ss.len() ==> src_stmt(#[trigger] ss[i], t),
    decreases ss.len(),
{
    if ss.len() > 0 {
        lemma_src_stmts_index(ss.subrange(1, ss.len() as int), t);
        if forall|i: int| 0 <= i < ss.len() ==> src_stmt(#[trigger] ss[i], t) {
            assert forall|i: int| 0 <= i < ss.len() - 1 implies src_stmt(#[trigger] ss.subrange(1, ss.len() as int)[i], t) by {
                assert(ss.subrange(1, ss.len() as int)[i] == ss[i + 1]);
            }
        }
        if src_stmts(ss, t) {
            assert forall|i: int| 0 <= i < ss.len() implies src_stmt(#[trigger] ss[i], t) by {
                if i > 0 {
                    assert(ss.subrange(1, ss.len() as int)[i - 1] == ss[i]);
                }
            }
        }
    }
}

pub proof fn lemma_src_exprs_index(es: Seq<ExprV>, t: Seq<TokenV>)
    ensures
        src_exprs(es, t) == forall|i: int| 0 <= i < es.len() ==> src_expr(#[trigger] es[i], t),
    decreases es.len(),
{
    if es.len() > 0 {
        lemma_src_exprs_index(es.subrange(1, es.len() as int), t);
        if forall|i: int| 0 <= i < es.len() ==> src_expr(#[trigger] es[i], t) {
            assert forall|i: int| 0 <= i < es.len() - 1 implies src_expr(#[trigger] es.subrange(1, es.len() as int)[i], t) by {
                assert(es.subrange(1, es.len() as int)[i] == es[i + 1]);
            }
        }
        if src_exprs(es, t) {
            assert forall|i: int| 0 <= i < es.len() implies src_expr(#[trigger] es[i], t) by {
                if i > 0 {
                    assert(es.subrange(1, es.len() as int)[i - 1] == es[i]);
                }
            }
        }
    }
}

proof fn lemma_tok_pos_cur(t: Seq<TokenV>, p: PS)
    ensures
        tok_pos(t, cur_span(t, p).start),
{
    if 0 <= p.pos < t.len() {
        assert(t[p.pos].span.start == cur_span(t, p).start);
    } else if t.len() > 0 {
        assert(t[t.len() - 1].span.end == cur_span(t, p).start);
    }
}

proof fn lemma_src_ident_or_missing(t: Seq<TokenV>, p: PS, what: Seq<char>)
    ensures
        from_tok(t, p_ident_or_missing(t, p, what).1.span, p_ident_or_missing(t, p, what).1.name),
{
    if !is_kind(t, p, TokenKind::Ident) {
        lemma_tok_pos_cur(t, p_expect(t, p, TokenKind::Ident, what).0);
    }
}

proof fn lemma_src_params(t: Seq<TokenV>, p: PS, acc: Seq<IdentV>)
    requires
        src_idents(acc, t),
    ensures
        src_idents(p_params(t, p, acc).1, t),
    decreases t.len() - p.pos,
{
    let (s1, id) = p_ident(t, p, "a parameter name"@);
    if let Some(i) = id {
        assert(src_idents(acc.push(i), t)) by {
            assert forall|k: int| 0 <= k < acc.push(i).len() implies from_tok(t, (#[trigger] acc.push(i)[k]).span, acc.push(i)[k].name) by {
                if k < acc.len() {
                    assert(acc.push(i)[k] == acc[k]);
                }
            }
        }
        if is_kind(t, s1, TokenKind::Comma) {
            let s2 = bump(t, s1);
            if p.pos < s2.pos <= t.len() {
                lemma_src_params(t, s2, acc.push(i));
            }
        }
    }
}

proof fn lemma_src_block_from(t: Seq<TokenV>, p: PS, start: u32)
    ensures
        src_block(p_block_from(t, p, start).1, t),
    decreases t.len() - p.pos, 26int,
{
    lemma_src_block_items(t, p, seq![]);
}

proof fn lemma_src_block(t: Seq<TokenV>, p: PS)
    ensures
        src_block(p_block(t, p).1, t),
    decreases t.len() - p.pos, 27int,
{
    let (s1, open) = p_expect(t, p, TokenKind::LBrace, "`{`"@);
    let start = match open {
        Some(sp) => sp.start,
        None => cur_span(t, s1).start,
    };
    if p.pos <= s1.pos <= t.len() {
        lemma_src_block_from(t, s1, start);
    }
}

proof fn lemma_src_block_items(t: Seq<TokenV>, p: PS, stmts: Seq<StmtV>)
    requires
        src_stmts(stmts, t),
    ensures
        src_stmts(p_block_items(t, p, stmts).1, t),
        match p_block_items(t, p, stmts).2 {
            Some(e) => src_expr(e, t),
            None => true,
        },
    decreases t.len() - p.pos, 25int,
{
    lemma_src_stmts_index(stmts, t);
    if p.pos < 0 || at_end(t, p) {
    } else if t[p.pos].kind == TokenKind::RBrace {
    } else if t[p.pos].kind == TokenKind::Fn || t[p.pos].kind == TokenKind::Let {
        let (s1, st) = if t[p.pos].kind == TokenKind::Fn {
            p_fn(t, p)
        } else {
            p_let(t, p)
        };
        if t[p.pos].kind == TokenKind::Fn {
            lemma_src_fn(t, p);
        } else {
            lemma_src_let(t, p);
        }
        if p.pos < s1.pos <= t.len() {
            lemma_src_stmts_index(stmts.push(st), t);
            assert(forall|i: int| 0 <= i < stmts.len() ==> stmts.push(st)[i] == stmts[i]);
            lemma_src_block_items(t, s1, stmts.push(st));
        }
    } else {
        lemma_src_expr(t, p);
        let (s1, e) = p_expr(t, p);
        let st = StmtV { kind: StmtKindV::Expr { expr: e }, span: e.span };
        let st2 = StmtV { kind: StmtKindV::Expr { expr: e }, span: Span { start: e.span.start, end: 0 } };
        lemma_src_stmts_index(stmts.push(st), t);
        assert(forall|i: int| 0 <= i < stmts.len() ==> stmts.push(st)[i] == stmts[i]);
        if is_kind(t, s1, TokenKind::Semi) {
            let semi = t[s1.pos].span;
            let s2 = ensure_progress(t, p.pos, bump(t, s1));
            let st3 = StmtV { kind: StmtKindV::Expr { expr: e }, span: Span { start: e.span.start, end: semi.end } };
            if p.pos < s2.pos <= t.len() {
                lemma_src_stmts_index(stmts.push(st3), t);
                assert(forall|i: int| 0 <= i < stmts.len() ==> stmts.push(st3)[i] == stmts[i]);
                lemma_src_block_items(t, s2, stmts.push(st3));
            }
        } else if is_kind(t, s1, TokenKind::RBrace) || at_end(t, s1) {
        } else {
            let m = with_err(s1, cur_span(t, s1), DiagKind::ParseError, "expected `;` or `}`"@);
            let s2 = ensure_progress(t, p.pos, p_recover(t, m));
            if p.pos < s2.pos <= t.len() {
                lemma_src_block_items(t, s2, stmts.push(st));
            }
        }
    }
}

proof fn lemma_src_fn(t: Seq<TokenV>, p: PS)
    ensures
        src_stmt(p_fn(t, p).1, t),
    decreases t.len() - p.pos, 24int,
{
    let s1 = bump(t, p);
    lemma_src_ident_or_missing(t, s1, "a function name"@);
    let (s2, name) = p_ident_or_missing(t, s1, "a function name"@);
    let s3 = p_expect(t, s2, TokenKind::LParen, "`(`"@).0;
    if !is_kind(t, s3, TokenKind::RParen) {
        lemma_src_params(t, s3, seq![]);
    }
    let (s4, params) = if !is_kind(t, s3, TokenKind::RParen) {
        p_params(t, s3, seq![])
    } else {
        (s3, seq![])
    };
    let s5 = p_expect(t, s4, TokenKind::RParen, "`)`"@).0;
    if p.pos < s5.pos <= t.len() {
        lemma_src_block(t, s5);
    } else {
        assert(src_expr(error_expr(Span { start: 0, end: 0 }), t));
    }
}

proof fn lemma_src_let(t: Seq<TokenV>, p: PS)
    ensures
        src_stmt(p_let(t, p).1, t),
    decreases t.len() - p.pos, 24int,
{
    let s1 = bump(t, p);
    lemma_src_ident_or_missing(t, s1, "a variable name"@);
    let (s2, name) = p_ident_or_missing(t, s1, "a variable name"@);
    let s3 = p_expect(t, s2, TokenKind::Eq, "`=`"@).0;
    if p.pos < s3.pos <= t.len() {
        lemma_src_expr(t, s3);
    }
}

proof fn lemma_src_args(t: Seq<TokenV>, p: PS, acc: Seq<ExprV>)
    requires
        src_exprs(acc, t),
    ensures
        src_exprs(p_args(t, p, acc).1, t),
    decreases t.len() - p.pos, 24int,
{
    lemma_src_expr(t, p);
    let (s1, e) = p_expr(t, p);
    lemma_src_exprs_index(acc, t);
    lemma_src_exprs_index(acc.push(e), t);
    assert(forall|i: int| 0 <= i < acc.len() ==> acc.push(e)[i] == acc[i]);
    if is_kind(t, s1, TokenKind::Comma) {
        let s2 = bump(t, s1);
        if p.pos < s2.pos <= t.len() {
            lemma_src_args(t, s2, acc.push(e));
        }
    }
}

proof fn lemma_src_expr(t: Seq<TokenV>, p: PS)
    ensures
        src_expr(p_expr(t, p).1, t),
    decreases t.len() - p.pos, 23int,
{
    lemma_src_bin(t, p, 0);
}

proof fn lemma_src_bin(t: Seq<TokenV>, p: PS, lvl: int)
    ensures
        src_expr(p_bin(t, p, lvl).1, t),
    decreases t.len() - p.pos, lvl_rank(lvl),
{
    if 0 <= lvl <= 3 {
        if lvl == 3 {
            lemma_src_unary(t, p);
        } else {
            lemma_src_bin(t, p, lvl + 1);
        }
        let (s1, lhs) = if lvl == 3 {
            p_unary(t, p)
        } else {
            p_bin(t, p, lvl + 1)
        };
        if p.pos <= s1.pos <= t.len() {
            lemma_src_bin_loop(t, s1, lvl, lhs);
        }
    }
}

proof fn lemma_src_bin_loop(t: Seq<TokenV>, p: PS, lvl: int, lhs: ExprV)
    requires
        src_expr(lhs, t),
    ensures
        src_expr(p_bin_loop(t, p, lvl, lhs).1, t),
    decreases t.len() - p.pos, lvl_rank(lvl) - 1,
{
    if 0 <= lvl <= 3 {
        if let Some(op) = bin_op_at(t, p, lvl) {
            let s1 = bump(t, p);
            if lvl == 3 {
                lemma_src_unary(t, s1);
            } else {
                lemma_src_bin(t, s1, lvl + 1);
            }
            let (s2, rhs) = if lvl == 3 {
                p_unary(t, s1)
            } else {
                p_bin(t, s1, lvl + 1)
            };
            if p.pos < s2.pos <= t.len() {
                lemma_src_bin_loop(t, s2, lvl, binary_v(lhs, op, rhs));
            }
        }
    }
}

proof fn lemma_src_unary(t: Seq<TokenV>, p: PS)
    ensures
        src_expr(p_unary(t, p).1, t),
    decreases t.len() - p.pos, 14int,
{
    if is_kind(t, p, TokenKind::Minus) || is_kind(t, p, TokenKind::Bang) {
        lemma_src_unary(t, bump(t, p));
    } else {
        lemma_src_postfix(t, p);
    }
}

proof fn lemma_src_postfix(t: Seq<TokenV>, p: PS)
    ensures
        src_expr(p_postfix(t, p).1, t),
    decreases t.len() - p.pos, 13int,
{
    lemma_src_primary(t, p);
    let (s1, e) = p_primary(t, p);
    if p.pos <= s1.pos <= t.len() {
        lemma_src_postfix_loop(t, s1, e);
    }
}

proof fn lemma_src_postfix_loop(t: Seq<TokenV>, p: PS, e: ExprV)
    requires
        src_expr(e, t),
    ensures
        src_expr(p_postfix_loop(t, p, e).1, t),
    decreases t.len() - p.pos, 12int,
{
    if is_kind(t, p, TokenKind::LParen) {
        let s1 = bump(t, p);
        if !is_kind(t, s1, TokenKind::RParen) {
            lemma_src_args(t, s1, seq![]);
        }
        let (s2, args) = if !is_kind(t, s1, TokenKind::RParen) {
            p_args(t, s1, seq![])
        } else {
            (s1, seq![])
        };
        let (s3, close) = p_expect(t, s2, TokenKind::RParen, "`)`"@);
        let end = match close {
            Some(sp) => sp.end,
            None => prev_end(t, s3),
        };
        let call = ExprV { kind: ExprKindV::Call { callee: Box::new(e), args }, span: Span { start: e.span.start, end } };
        assert(src_exprs(args, t));
        assert(src_expr(call, t));
        if p.pos < s3.pos <= t.len() {
            lemma_src_postfix_loop(t, s3, call);
        }
    }
}

proof fn lemma_src_primary(t: Seq<TokenV>, p: PS)
    ensures
        src_expr(p_primary(t, p).1, t),
    decreases t.len() - p.pos, 11int,
{
    if !(p.pos < 0 || at_end(t, p)) {
        let tok = t[p.pos];
        let k = tok.kind;
        if k == TokenKind::LParen {
            lemma_src_expr(t, bump(t, p));
        } else if k == TokenKind::LBrace {
            lemma_src_block_from(t, bump(t, p), tok.span.start);
        } else if k == TokenKind::If {
            lemma_src_if(t, p);
        } else if k == TokenKind::Ident {
            assert(t[p.pos].kind == TokenKind::Ident);
        }
    }
}

proof fn lemma_src_if(t: Seq<TokenV>, p: PS)
    ensures
        src_expr(p_if(t, p).1, t),
    decreases t.len() - p.pos, 10int,
{
    if 0 <= p.pos < t.len() {
        lemma_src_expr(t, bump(t, p));
        let (s2, cond) = p_expr(t, bump(t, p));
        if p.pos < s2.pos <= t.len() {
            lemma_src_block(t, s2);
            let (s3, then_block) = p_block(t, s2);
            if p.pos < s3.pos <= t.len() && is_kind(t, s3, TokenKind::Else) {
                lemma_src_block(t, bump(t, s3));
            }
        }
    }
}

proof fn lemma_src_grouped(t: Seq<TokenV>, p: PS, groups: Seq<GroupV>)
    requires
        forall|i: int| 0 <= i < groups.len() ==> src_stmt(#[trigger] groups[i].stmt, t),
    ensures
        forall|i: int| 0 <= i < p_grouped(t, p, groups).1.len() ==> src_stmt(#[trigger] p_grouped(t, p, groups).1[i].stmt, t),
    decreases t.len() - p.pos,
{
    if !(p.pos < 0 || at_end(t, p)) {
        let (s1, stmt) = p_top_stmt(t, p);
        if is_kind(t, p, TokenKind::Fn) {
            lemma_src_fn(t, p);
        } else if is_kind(t, p, TokenKind::Let) {
            lemma_src_let(t, p);
        } else {
            lemma_src_expr(t, p);
        }
        let s2 = ensure_progress(t, p.pos, s1);
        if p.pos < s2.pos <= t.len() && p.diags.len() <= s2.diags.len() {
            let g = GroupV {
                stmt,
                tokens: t.subrange(p.pos, s2.pos),
                diags: s2.diags.subrange(p.diags.len() as int, s2.diags.len() as int),
            };
            assert forall|i: int| 0 <= i < groups.push(g).len() implies src_stmt(#[trigger] groups.push(g)[i].stmt, t) by {
                if i < groups.len() {
                    assert(groups.push(g)[i] == groups[i]);
                }
            }
            lemma_src_grouped(t, s2, groups.push(g));
        }
    }
}

/// Every identifier of the statements parsed from `t` comes from `t`.
pub proof fn lemma_parse_src(t: Seq<TokenV>)
    ensures
        src_stmts(group_stmts(spec_parse_items(t).0), t),
{
    lemma_src_grouped(t, init_ps(), seq![]);
    let gs = spec_parse_items(t).0;
    lemma_src_stmts_index(group_stmts(gs), t);
}

} // verus!
