//! No two identifiers of a parse share a token, so no two occurrences of its
//! symbol table share a non-empty span.
//!
//! `isp_*` list the spans of the real (non-empty) identifiers of a tree in
//! source order. The parser takes each from its own token, in order, so the
//! list strictly increases; the resolution walk records each identifier once,
//! so its occurrences' non-empty spans are the same list, reordered.

use vstd::prelude::*;
use crate::ast::{IdentV, StmtV, StmtKindV, BlockV, ExprV, ExprKindV};
use crate::diagnostics::DiagKind;
use crate::lexer::{TokenKind, TokenV};
use crate::parse_spec::{
    PS, GroupV, init_ps, at_end, is_kind, bump, with_err, cur_span, p_expect, p_recover,
    p_ident_or_missing, p_ident, p_params, ensure_progress, binary_v, bin_op_at, p_block_from,
    p_block, p_block_items, p_fn, p_let, p_args, p_expr, p_bin, p_bin_loop, p_unary, p_postfix,
    p_postfix_loop, p_primary, p_if, p_top_stmt, p_grouped, spec_parse_items, group_stmts,
    lvl_rank, prev_end,
};
use crate::reparse::{lemma_mono_expect, lemma_mono_recover, lemma_mono_ident_or_missing, lemma_mono_ident, lemma_mono_params, lemma_mono_progress, lemma_mono_block_from, lemma_mono_block, lemma_mono_block_items, lemma_mono_fn, lemma_mono_let, lemma_mono_args, lemma_mono_expr, lemma_mono_bin, lemma_mono_bin_loop, lemma_mono_unary, lemma_mono_postfix, lemma_mono_postfix_loop, lemma_mono_primary, lemma_mono_if, lemma_mono_top_stmt};
use crate::diagnostics::error_v;
use crate::resolve_spec::{
    OccV, RS, lookup, empty_rs, push_frame, pop_frame, check_redef, declare_seq, declare_fn,
    r_params, r_hoist, r_block, r_stmts, r_stmt, r_exprs, r_expr, r_program, msg_unresolved,
};
use crate::resolver::BindingKind;
use crate::span::Span;
use vstd::multiset::Multiset;

verus! {

pub open spec fn isp_ident(i: IdentV) -> Seq<Span> {
    if i.span.start < i.span.end {
        seq![i.span]
    } else {
        seq![]
    }
}

pub open spec fn isp_idents(ps: Seq<IdentV>) -> Seq<Span>
    decreases ps.len(),
{
    if ps.len() == 0 {
        seq![]
    } else {
        isp_idents(ps.drop_last()) + isp_ident(ps.last())
    }
}

pub open spec fn isp_expr(e: ExprV) -> Seq<Span>
    decreases e,
{
    match e.kind {
        ExprKindV::Name { name: _ } => if e.span.start < e.span.end {
            seq![e.span]
        } else {
            seq![]
        },
        ExprKindV::Unary { op: _, expr } => isp_expr(*expr),
        ExprKindV::Binary { op: _, lhs, rhs } => isp_expr(*lhs) + isp_expr(*rhs),
        ExprKindV::Call { callee, args } => isp_expr(*callee) + isp_exprs(args),
        ExprKindV::If { cond, then_block, else_block } => isp_expr(*cond) + isp_block(then_block) + match else_block {
            Some(b) => isp_block(b),
            None => seq![],
        },
        ExprKindV::Block { block } => isp_block(block),
        ExprKindV::Paren { inner } => isp_expr(*inner),
        _ => seq![],
    }
}

pub open spec fn isp_exprs(es: Seq<ExprV>) -> Seq<Span>
    decreases es,
{
    if es.len() == 0 {
        seq![]
    } else {
        isp_expr(es[0]) + isp_exprs(es.subrange(1, es.len() as int))
    }
}

pub open spec fn isp_opt(e: Option<ExprV>) -> Seq<Span> {
    match e {
        Some(x) => isp_expr(x),
        None => seq![],
    }
}

pub open spec fn isp_block(b: BlockV) -> Seq<Span>
    decreases b,
{
    isp_stmts(b.stmts) + match b.tail {
        Some(e) => isp_expr(*e),
        None => seq![],
    }
}

pub open spec fn isp_stmt(st: StmtV) -> Seq<Span>
    decreases st,
{
    match st.kind {
        StmtKindV::Let { name, value } => isp_ident(name) + isp_expr(value),
        StmtKindV::Fn { name, params, body } => isp_ident(name) + isp_idents(params) + isp_block(body),
        StmtKindV::Expr { expr } => isp_expr(expr),
    }
}

pub open spec fn isp_stmts(ss: Seq<StmtV>) -> Seq<Span>
    decreases ss,
{
    if ss.len() == 0 {
        seq![]
    } else {
        isp_stmt(ss[0]) + isp_stmts(ss.subrange(1, ss.len() as int))
    }
}

proof fn lemma_isp_stmts_push(a: Seq<StmtV>, x: StmtV)
    ensures
        isp_stmts(a.push(x)) == isp_stmts(a) + isp_stmt(x),
    decreases a.len(),
{
    if a.len() == 0 {
        assert(a.push(x).subrange(1, 1) =~= Seq::<StmtV>::empty());
        assert(a.push(x)[0] == x);
        assert(isp_stmts(Seq::<StmtV>::empty()) == Seq::<Span>::empty());
        assert(isp_stmts(a.push(x)) =~= isp_stmt(x) + Seq::<Span>::empty());
        assert(isp_stmts(a.push(x)) =~= isp_stmts(a) + isp_stmt(x));
    } else {
        let rest = a.subrange(1, a.len() as int);
        lemma_isp_stmts_push(rest, x);
        assert(a.push(x).subrange(1, a.len() as int + 1) =~= rest.push(x));
        assert(a.push(x)[0] == a[0]);
        assert(isp_stmts(a.push(x)) =~= isp_stmts(a) + isp_stmt(x));
    }
}

proof fn lemma_isp_exprs_push(a: Seq<ExprV>, x: ExprV)
    ensures
        isp_exprs(a.push(x)) == isp_exprs(a) + isp_expr(x),
    decreases a.len(),
{
    if a.len() == 0 {
        assert(a.push(x).subrange(1, 1) =~= Seq::<ExprV>::empty());
        assert(a.push(x)[0] == x);
        assert(isp_exprs(Seq::<ExprV>::empty()) == Seq::<Span>::empty());
        assert(isp_exprs(a.push(x)) =~= isp_expr(x) + Seq::<Span>::empty());
        assert(isp_exprs(a.push(x)) =~= isp_exprs(a) + isp_expr(x));
    } else {
        let rest = a.subrange(1, a.len() as int);
        lemma_isp_exprs_push(rest, x);
        assert(a.push(x).subrange(1, a.len() as int + 1) =~= rest.push(x));
        assert(a.push(x)[0] == a[0]);
        assert(isp_exprs(a.push(x)) =~= isp_exprs(a) + isp_expr(x));
    }
}

// ---------------------------------------------------------------------------
// Spans taken from the tokens in a range, in order

/// The tokens start further on, one after the other.
pub open spec fn tok_incr(t: Seq<TokenV>) -> bool {
    forall|j1: int, j2: int| 0 <= j1 < j2 < t.len() ==> (#[trigger] t[j1]).span.start < (#[trigger] t[j2]).span.start
}

/// `sp` is the span of a token in `[lo, hi)`.
pub open spec fn tok_in(t: Seq<TokenV>, sp: Span, lo: int, hi: int) -> bool {
    exists|j: int| lo <= j < hi && 0 <= j < t.len() && (#[trigger] t[j]).span == sp
}

/// Each span of `q` is that of a token in `[lo, hi)`, and `q` strictly
/// increases.
pub open spec fn from_range(q: Seq<Span>, t: Seq<TokenV>, lo: int, hi: int) -> bool {
    &&& forall|i: int| 0 <= i < q.len() ==> tok_in(t, #[trigger] q[i], lo, hi)
    &&& forall|i: int, i2: int| 0 <= i < i2 < q.len() ==> (#[trigger] q[i]).start < (#[trigger] q[i2]).start
}

proof fn lemma_range_concat(a: Seq<Span>, b: Seq<Span>, t: Seq<TokenV>, lo: int, mid: int, hi: int)
    requires
        tok_incr(t),
        lo <= mid <= hi,
        from_range(a, t, lo, mid),
        from_range(b, t, mid, hi),
    ensures
        from_range(a + b, t, lo, hi),
{
    let c = a + b;
    assert forall|i: int| 0 <= i < c.len() implies tok_in(t, #[trigger] c[i], lo, hi) by {
        if i < a.len() {
            assert(c[i] == a[i]);
            assert(tok_in(t, a[i], lo, mid));
            let j = choose|j: int| lo <= j < mid && 0 <= j < t.len() && (#[trigger] t[j]).span == a[i];
            assert(lo <= j < hi && t[j].span == c[i]);
        } else {
            assert(c[i] == b[i - a.len()]);
            assert(tok_in(t, b[i - a.len()], mid, hi));
            let j = choose|j: int| mid <= j < hi && 0 <= j < t.len() && (#[trigger] t[j]).span == b[i - a.len()];
            assert(lo <= j < hi && t[j].span == c[i]);
        }
    }
    assert forall|i: int, i2: int| 0 <= i < i2 < c.len() implies (#[trigger] c[i]).start < (#[trigger] c[i2]).start by {
        if i2 < a.len() {
            assert(c[i] == a[i] && c[i2] == a[i2]);
        } else if i >= a.len() {
            assert(c[i] == b[i - a.len()] && c[i2] == b[i2 - a.len()]);
        } else {
            assert(c[i] == a[i] && c[i2] == b[i2 - a.len()]);
            assert(tok_in(t, a[i], lo, mid));
            assert(tok_in(t, b[i2 - a.len()], mid, hi));
            let j = choose|j: int| lo <= j < mid && 0 <= j < t.len() && (#[trigger] t[j]).span == a[i];
            let j2 = choose|j2: int| mid <= j2 < hi && 0 <= j2 < t.len() && (#[trigger] t[j2]).span == b[i2 - a.len()];
            assert(t[j].span.start < t[j2].span.start);
        }
    }
}

proof fn lemma_range_widen(q: Seq<Span>, t: Seq<TokenV>, lo: int, hi: int, lo2: int, hi2: int)
    requires
        from_range(q, t, lo, hi),
        lo2 <= lo,
        hi <= hi2,
    ensures
        from_range(q, t, lo2, hi2),
{
    assert forall|i: int| 0 <= i < q.len() implies tok_in(t, #[trigger] q[i], lo2, hi2) by {
        assert(tok_in(t, q[i], lo, hi));
        let j = choose|j: int| lo <= j < hi && 0 <= j < t.len() && (#[trigger] t[j]).span == q[i];
    }
}

proof fn lemma_range_empty(t: Seq<TokenV>, lo: int, hi: int)
    ensures
        from_range(Seq::<Span>::empty(), t, lo, hi),
{
}

proof fn lemma_range_one(t: Seq<TokenV>, j: int)
    requires
        0 <= j < t.len(),
    ensures
        from_range(seq![t[j].span], t, j, j + 1),
{
    assert(seq![t[j].span][0] == t[j].span);
    assert(tok_in(t, t[j].span, j, j + 1));
}

// ---------------------------------------------------------------------------
// The parser takes each identifier from its own token, in order

proof fn lemma_isp_ident_or_missing(t: Seq<TokenV>, p: PS, what: Seq<char>)
    requires
        0 <= p.pos <= t.len(),
    ensures
        from_range(isp_ident(p_ident_or_missing(t, p, what).1), t, p.pos, p_ident_or_missing(t, p, what).0.pos),
{
    lemma_mono_ident_or_missing(t, p, what);
    if is_kind(t, p, TokenKind::Ident) {
        lemma_range_one(t, p.pos);
    }
}

proof fn lemma_isp_params(t: Seq<TokenV>, p: PS, acc: Seq<IdentV>, lo: int)
    requires
        tok_incr(t),
        0 <= lo <= p.pos <= t.len(),
        from_range(isp_idents(acc), t, lo, p.pos),
    ensures
        from_range(isp_idents(p_params(t, p, acc).1), t, lo, p_params(t, p, acc).0.pos),
    decreases t.len() - p.pos,
{
    lemma_mono_params(t, p, acc);
    lemma_mono_ident(t, p, "a parameter name"@);
    let (s1, id) = p_ident(t, p, "a parameter name"@);
    if let Some(i) = id {
        assert(isp_idents(acc.push(i)) == isp_idents(acc) + isp_ident(i)) by {
            assert(acc.push(i).drop_last() =~= acc);
        }
        if is_kind(t, p, TokenKind::Ident) {
            lemma_range_one(t, p.pos);
        }
        lemma_range_concat(isp_idents(acc), isp_ident(i), t, lo, p.pos, s1.pos);
        if is_kind(t, s1, TokenKind::Comma) {
            let s2 = bump(t, s1);
            if p.pos < s2.pos <= t.len() {
                lemma_range_widen(isp_idents(acc.push(i)), t, lo, s1.pos, lo, s2.pos);
                lemma_isp_params(t, s2, acc.push(i), lo);
            }
        }
    } else {
        lemma_range_widen(isp_idents(acc), t, lo, p.pos, lo, s1.pos);
    }
}

proof fn lemma_isp_block_from(t: Seq<TokenV>, p: PS, start: u32)
    requires
        tok_incr(t),
        0 <= p.pos <= t.len(),
    ensures
        from_range(isp_block(p_block_from(t, p, start).1), t, p.pos, p_block_from(t, p, start).0.pos),
    decreases t.len() - p.pos, 26int,
{
    lemma_range_empty(t, p.pos, p.pos);
    assert(isp_stmts(Seq::<StmtV>::empty()) == Seq::<Span>::empty());
    lemma_isp_block_items(t, p, seq![], p.pos);
    lemma_mono_block_items(t, p, seq![]);
    let (s2, stmts, tail) = p_block_items(t, p, seq![]);
    lemma_mono_expect(t, s2, TokenKind::RBrace, "`}`"@);
    let s3 = p_expect(t, s2, TokenKind::RBrace, "`}`"@).0;
    lemma_range_widen(isp_stmts(stmts) + isp_opt(tail), t, p.pos, s2.pos, p.pos, s3.pos);
    let b = p_block_from(t, p, start).1;
    assert(isp_block(b) == isp_stmts(stmts) + isp_opt(tail));
}

proof fn lemma_isp_block(t: Seq<TokenV>, p: PS)
    requires
        tok_incr(t),
        0 <= p.pos <= t.len(),
    ensures
        from_range(isp_block(p_block(t, p).1), t, p.pos, p_block(t, p).0.pos),
    decreases t.len() - p.pos, 27int,
{
    lemma_mono_expect(t, p, TokenKind::LBrace, "`{`"@);
    let (s1, open) = p_expect(t, p, TokenKind::LBrace, "`{`"@);
    let start = match open {
        Some(sp) => sp.start,
        None => cur_span(t, s1).start,
    };
    if p.pos <= s1.pos <= t.len() {
        lemma_isp_block_from(t, s1, start);
        lemma_mono_block_from(t, s1, start);
        lemma_range_widen(isp_block(p_block_from(t, s1, start).1), t, s1.pos, p_block_from(t, s1, start).0.pos, p.pos, p_block_from(t, s1, start).0.pos);
    } else {
        assert(isp_stmts(Seq::<StmtV>::empty()) == Seq::<Span>::empty());
        assert(isp_block(p_block(t, p).1) =~= Seq::<Span>::empty());
    }
}

proof fn lemma_isp_block_items(t: Seq<TokenV>, p: PS, stmts: Seq<StmtV>, lo: int)
    requires
        tok_incr(t),
        0 <= lo <= p.pos <= t.len(),
        from_range(isp_stmts(stmts), t, lo, p.pos),
    ensures
        from_range(
            isp_stmts(p_block_items(t, p, stmts).1) + isp_opt(p_block_items(t, p, stmts).2),
            t,
            lo,
            p_block_items(t, p, stmts).0.pos,
        ),
    decreases t.len() - p.pos, 25int,
{
    lemma_mono_block_items(t, p, stmts);
    let res = p_block_items(t, p, stmts);
    if p.pos < 0 || at_end(t, p) || t[p.pos].kind == TokenKind::RBrace {
        assert(isp_stmts(stmts) + isp_opt(res.2) =~= isp_stmts(stmts));
        lemma_range_widen(isp_stmts(stmts), t, lo, p.pos, lo, res.0.pos);
    } else if t[p.pos].kind == TokenKind::Fn || t[p.pos].kind == TokenKind::Let {
        let (s1, st) = if t[p.pos].kind == TokenKind::Fn {
            p_fn(t, p)
        } else {
            p_let(t, p)
        };
        if t[p.pos].kind == TokenKind::Fn {
            lemma_isp_fn(t, p);
            lemma_mono_fn(t, p);
        } else {
            lemma_isp_let(t, p);
            lemma_mono_let(t, p);
        }
        if p.pos < s1.pos <= t.len() {
            lemma_isp_stmts_push(stmts, st);
            lemma_range_concat(isp_stmts(stmts), isp_stmt(st), t, lo, p.pos, s1.pos);
            lemma_isp_block_items(t, s1, stmts.push(st), lo);
        } else {
            assert(isp_stmts(stmts) + isp_opt(res.2) =~= isp_stmts(stmts));
            lemma_range_widen(isp_stmts(stmts), t, lo, p.pos, lo, res.0.pos);
        }
    } else {
        lemma_isp_expr(t, p);
        lemma_mono_expr(t, p);
        let (s1, e) = p_expr(t, p);
        let st = StmtV { kind: StmtKindV::Expr { expr: e }, span: e.span };
        lemma_range_concat(isp_stmts(stmts), isp_expr(e), t, lo, p.pos, s1.pos);
        if is_kind(t, s1, TokenKind::Semi) {
            let semi = t[s1.pos].span;
            lemma_mono_progress(t, p.pos, bump(t, s1));
            let s2 = ensure_progress(t, p.pos, bump(t, s1));
            let st3 = StmtV { kind: StmtKindV::Expr { expr: e }, span: Span { start: e.span.start, end: semi.end } };
            if p.pos < s2.pos <= t.len() {
                lemma_isp_stmts_push(stmts, st3);
                lemma_range_widen(isp_stmts(stmts) + isp_expr(e), t, lo, s1.pos, lo, s2.pos);
                lemma_isp_block_items(t, s2, stmts.push(st3), lo);
            } else {
                assert(isp_stmts(stmts) + isp_opt(res.2) =~= isp_stmts(stmts));
                lemma_range_widen(isp_stmts(stmts), t, lo, p.pos, lo, res.0.pos);
            }
        } else if is_kind(t, s1, TokenKind::RBrace) || at_end(t, s1) {
        } else {
            let m = with_err(s1, cur_span(t, s1), DiagKind::ParseError, "expected `;` or `}`"@);
            lemma_mono_recover(t, m);
            lemma_mono_progress(t, p.pos, p_recover(t, m));
            let s2 = ensure_progress(t, p.pos, p_recover(t, m));
            if p.pos < s2.pos <= t.len() {
                lemma_isp_stmts_push(stmts, st);
                lemma_range_widen(isp_stmts(stmts) + isp_expr(e), t, lo, s1.pos, lo, s2.pos);
                lemma_isp_block_items(t, s2, stmts.push(st), lo);
            } else {
                assert(isp_stmts(stmts) + isp_opt(res.2) =~= isp_stmts(stmts));
                lemma_range_widen(isp_stmts(stmts), t, lo, p.pos, lo, res.0.pos);
            }
        }
    }
}

proof fn lemma_isp_fn(t: Seq<TokenV>, p: PS)
    requires
        tok_incr(t),
        0 <= p.pos < t.len(),
    ensures
        from_range(isp_stmt(p_fn(t, p).1), t, p.pos, p_fn(t, p).0.pos),
    decreases t.len() - p.pos, 24int,
{
    lemma_mono_fn(t, p);
    let s1 = bump(t, p);
    lemma_isp_ident_or_missing(t, s1, "a function name"@);
    lemma_mono_ident_or_missing(t, s1, "a function name"@);
    let (s2, name) = p_ident_or_missing(t, s1, "a function name"@);
    lemma_mono_expect(t, s2, TokenKind::LParen, "`(`"@);
    let s3 = p_expect(t, s2, TokenKind::LParen, "`(`"@).0;
    assert(isp_idents(Seq::<IdentV>::empty()) == Seq::<Span>::empty());
    lemma_range_empty(t, s3.pos, s3.pos);
    if !is_kind(t, s3, TokenKind::RParen) {
        lemma_isp_params(t, s3, seq![], s3.pos);
        lemma_mono_params(t, s3, seq![]);
    }
    let (s4, params) = if !is_kind(t, s3, TokenKind::RParen) {
        p_params(t, s3, seq![])
    } else {
        (s3, seq![])
    };
    lemma_mono_expect(t, s4, TokenKind::RParen, "`)`"@);
    let s5 = p_expect(t, s4, TokenKind::RParen, "`)`"@).0;
    if p.pos < s5.pos <= t.len() {
        lemma_isp_block(t, s5);
        lemma_mono_block(t, s5);
        let (s6, body) = p_block(t, s5);
        lemma_range_widen(isp_ident(name), t, s1.pos, s2.pos, p.pos, s3.pos);
        lemma_range_widen(isp_idents(params), t, s3.pos, s4.pos, s3.pos, s5.pos);
        lemma_range_concat(isp_ident(name), isp_idents(params), t, p.pos, s3.pos, s5.pos);
        lemma_range_concat(isp_ident(name) + isp_idents(params), isp_block(body), t, p.pos, s5.pos, s6.pos);
    } else {
        assert(isp_stmt(p_fn(t, p).1) =~= Seq::<Span>::empty());
    }
}

proof fn lemma_isp_let(t: Seq<TokenV>, p: PS)
    requires
        tok_incr(t),
        0 <= p.pos < t.len(),
    ensures
        from_range(isp_stmt(p_let(t, p).1), t, p.pos, p_let(t, p).0.pos),
    decreases t.len() - p.pos, 24int,
{
    lemma_mono_let(t, p);
    let s1 = bump(t, p);
    lemma_isp_ident_or_missing(t, s1, "a variable name"@);
    lemma_mono_ident_or_missing(t, s1, "a variable name"@);
    let (s2, name) = p_ident_or_missing(t, s1, "a variable name"@);
    lemma_mono_expect(t, s2, TokenKind::Eq, "`=`"@);
    let s3 = p_expect(t, s2, TokenKind::Eq, "`=`"@).0;
    if p.pos < s3.pos <= t.len() {
        lemma_isp_expr(t, s3);
        lemma_mono_expr(t, s3);
        let (s4, value) = p_expr(t, s3);
        lemma_mono_expect(t, s4, TokenKind::Semi, "`;`"@);
        let s5 = p_expect(t, s4, TokenKind::Semi, "`;`"@).0;
        lemma_range_widen(isp_ident(name), t, s1.pos, s2.pos, p.pos, s3.pos);
        lemma_range_widen(isp_expr(value), t, s3.pos, s4.pos, s3.pos, s5.pos);
        lemma_range_concat(isp_ident(name), isp_expr(value), t, p.pos, s3.pos, s5.pos);
    } else {
        assert(isp_stmt(p_let(t, p).1) =~= Seq::<Span>::empty());
    }
}

proof fn lemma_isp_args(t: Seq<TokenV>, p: PS, acc: Seq<ExprV>, lo: int)
    requires
        tok_incr(t),
        0 <= lo <= p.pos <= t.len(),
        from_range(isp_exprs(acc), t, lo, p.pos),
    ensures
        from_range(isp_exprs(p_args(t, p, acc).1), t, lo, p_args(t, p, acc).0.pos),
    decreases t.len() - p.pos, 24int,
{
    lemma_isp_expr(t, p);
    lemma_mono_expr(t, p);
    let (s1, e) = p_expr(t, p);
    lemma_isp_exprs_push(acc, e);
    lemma_range_concat(isp_exprs(acc), isp_expr(e), t, lo, p.pos, s1.pos);
    if is_kind(t, s1, TokenKind::Comma) {
        let s2 = bump(t, s1);
        if p.pos < s2.pos <= t.len() {
            lemma_range_widen(isp_exprs(acc.push(e)), t, lo, s1.pos, lo, s2.pos);
            lemma_isp_args(t, s2, acc.push(e), lo);
        }
    }
}

proof fn lemma_isp_expr(t: Seq<TokenV>, p: PS)
    requires
        tok_incr(t),
        0 <= p.pos <= t.len(),
    ensures
        from_range(isp_expr(p_expr(t, p).1), t, p.pos, p_expr(t, p).0.pos),
    decreases t.len() - p.pos, 23int,
{
    lemma_isp_bin(t, p, 0);
}

proof fn lemma_isp_bin(t: Seq<TokenV>, p: PS, lvl: int)
    requires
        tok_incr(t),
        0 <= p.pos <= t.len(),
    ensures
        from_range(isp_expr(p_bin(t, p, lvl).1), t, p.pos, p_bin(t, p, lvl).0.pos),
    decreases t.len() - p.pos, lvl_rank(lvl),
{
    if 0 <= lvl <= 3 {
        lemma_mono_bin(t, p, lvl);
        if lvl == 3 {
            lemma_isp_unary(t, p);
            lemma_mono_unary(t, p);
        } else {
            lemma_isp_bin(t, p, lvl + 1);
            lemma_mono_bin(t, p, lvl + 1);
        }
        let (s1, lhs) = if lvl == 3 {
            p_unary(t, p)
        } else {
            p_bin(t, p, lvl + 1)
        };
        if p.pos <= s1.pos <= t.len() {
            lemma_isp_bin_loop(t, s1, lvl, lhs, p.pos);
        }
    } else {
        assert(isp_expr(p_bin(t, p, lvl).1) =~= Seq::<Span>::empty());
    }
}

proof fn lemma_isp_bin_loop(t: Seq<TokenV>, p: PS, lvl: int, lhs: ExprV, lo: int)
    requires
        tok_incr(t),
        0 <= lo <= p.pos <= t.len(),
        from_range(isp_expr(lhs), t, lo, p.pos),
    ensures
        from_range(isp_expr(p_bin_loop(t, p, lvl, lhs).1), t, lo, p_bin_loop(t, p, lvl, lhs).0.pos),
    decreases t.len() - p.pos, lvl_rank(lvl) - 1,
{
    if 0 <= lvl <= 3 {
        lemma_mono_bin_loop(t, p, lvl, lhs);
        if let Some(op) = bin_op_at(t, p, lvl) {
            let s1 = bump(t, p);
            if lvl == 3 {
                lemma_isp_unary(t, s1);
                lemma_mono_unary(t, s1);
            } else {
                lemma_isp_bin(t, s1, lvl + 1);
                lemma_mono_bin(t, s1, lvl + 1);
            }
            let (s2, rhs) = if lvl == 3 {
                p_unary(t, s1)
            } else {
                p_bin(t, s1, lvl + 1)
            };
            lemma_range_widen(isp_expr(lhs), t, lo, p.pos, lo, s1.pos);
            lemma_range_concat(isp_expr(lhs), isp_expr(rhs), t, lo, s1.pos, s2.pos);
            assert(isp_expr(binary_v(lhs, op, rhs)) == isp_expr(lhs) + isp_expr(rhs));
            if p.pos < s2.pos <= t.len() {
                lemma_isp_bin_loop(t, s2, lvl, binary_v(lhs, op, rhs), lo);
            }
        } else {
            lemma_range_widen(isp_expr(lhs), t, lo, p.pos, lo, p.pos);
        }
    } else {
        lemma_range_widen(isp_expr(lhs), t, lo, p.pos, lo, p.pos);
    }
}

proof fn lemma_isp_unary(t: Seq<TokenV>, p: PS)
    requires
        tok_incr(t),
        0 <= p.pos <= t.len(),
    ensures
        from_range(isp_expr(p_unary(t, p).1), t, p.pos, p_unary(t, p).0.pos),
    decreases t.len() - p.pos, 14int,
{
    lemma_mono_unary(t, p);
    if is_kind(t, p, TokenKind::Minus) || is_kind(t, p, TokenKind::Bang) {
        lemma_isp_unary(t, bump(t, p));
        lemma_mono_unary(t, bump(t, p));
        let (s2, e) = p_unary(t, bump(t, p));
        lemma_range_widen(isp_expr(e), t, p.pos + 1, s2.pos, p.pos, s2.pos);
    } else {
        lemma_isp_postfix(t, p);
    }
}

proof fn lemma_isp_postfix(t: Seq<TokenV>, p: PS)
    requires
        tok_incr(t),
        0 <= p.pos <= t.len(),
    ensures
        from_range(isp_expr(p_postfix(t, p).1), t, p.pos, p_postfix(t, p).0.pos),
    decreases t.len() - p.pos, 13int,
{
    lemma_mono_postfix(t, p);
    lemma_isp_primary(t, p);
    lemma_mono_primary(t, p);
    let (s1, e) = p_primary(t, p);
    if p.pos <= s1.pos <= t.len() {
        lemma_isp_postfix_loop(t, s1, e, p.pos);
    }
}

proof fn lemma_isp_postfix_loop(t: Seq<TokenV>, p: PS, e: ExprV, lo: int)
    requires
        tok_incr(t),
        0 <= lo <= p.pos <= t.len(),
        from_range(isp_expr(e), t, lo, p.pos),
    ensures
        from_range(isp_expr(p_postfix_loop(t, p, e).1), t, lo, p_postfix_loop(t, p, e).0.pos),
    decreases t.len() - p.pos, 12int,
{
    lemma_mono_postfix_loop(t, p, e);
    if is_kind(t, p, TokenKind::LParen) {
        let s1 = bump(t, p);
        assert(isp_exprs(Seq::<ExprV>::empty()) == Seq::<Span>::empty());
        lemma_range_empty(t, s1.pos, s1.pos);
        if !is_kind(t, s1, TokenKind::RParen) {
            lemma_isp_args(t, s1, seq![], s1.pos);
            lemma_mono_args(t, s1, seq![]);
        }
        let (s2, args) = if !is_kind(t, s1, TokenKind::RParen) {
            p_args(t, s1, seq![])
        } else {
            (s1, seq![])
        };
        lemma_mono_expect(t, s2, TokenKind::RParen, "`)`"@);
        let (s3, close) = p_expect(t, s2, TokenKind::RParen, "`)`"@);
        let end = match close {
            Some(sp) => sp.end,
            None => prev_end(t, s3),
        };
        let call = ExprV { kind: ExprKindV::Call { callee: Box::new(e), args }, span: Span { start: e.span.start, end } };
        lemma_range_widen(isp_expr(e), t, lo, p.pos, lo, s1.pos);
        lemma_range_widen(isp_exprs(args), t, s1.pos, s2.pos, s1.pos, s3.pos);
        lemma_range_concat(isp_expr(e), isp_exprs(args), t, lo, s1.pos, s3.pos);
        assert(isp_expr(call) == isp_expr(e) + isp_exprs(args));
        if p.pos < s3.pos <= t.len() {
            lemma_isp_postfix_loop(t, s3, call, lo);
        }
    }
}

#[verifier::rlimit(40)]
proof fn lemma_isp_primary(t: Seq<TokenV>, p: PS)
    requires
        tok_incr(t),
        0 <= p.pos <= t.len(),
    ensures
        from_range(isp_expr(p_primary(t, p).1), t, p.pos, p_primary(t, p).0.pos),
    decreases t.len() - p.pos, 11int,
{
    lemma_mono_primary(t, p);
    if !(p.pos < 0 || at_end(t, p)) {
        let tok = t[p.pos];
        let k = tok.kind;
        if k == TokenKind::Ident {
            lemma_range_one(t, p.pos);
        } else if k == TokenKind::LParen {
            lemma_isp_expr(t, bump(t, p));
            lemma_mono_expr(t, bump(t, p));
            let (s2, inner) = p_expr(t, bump(t, p));
            lemma_mono_expect(t, s2, TokenKind::RParen, "`)`"@);
            let s3 = p_expect(t, s2, TokenKind::RParen, "`)`"@).0;
            lemma_range_widen(isp_expr(inner), t, p.pos + 1, s2.pos, p.pos, s3.pos);
        } else if k == TokenKind::LBrace {
            lemma_isp_block_from(t, bump(t, p), tok.span.start);
            lemma_mono_block_from(t, bump(t, p), tok.span.start);
            let (s2, b) = p_block_from(t, bump(t, p), tok.span.start);
            lemma_range_widen(isp_block(b), t, p.pos + 1, s2.pos, p.pos, s2.pos);
        } else if k == TokenKind::If {
            lemma_isp_if(t, p);
        }
    }
}

#[verifier::rlimit(40)]
proof fn lemma_isp_if(t: Seq<TokenV>, p: PS)
    requires
        tok_incr(t),
        0 <= p.pos <= t.len(),
    ensures
        from_range(isp_expr(p_if(t, p).1), t, p.pos, p_if(t, p).0.pos),
    decreases t.len() - p.pos, 10int,
{
    lemma_mono_if(t, p);
    if 0 <= p.pos < t.len() {
        let s1 = bump(t, p);
        lemma_isp_expr(t, s1);
        lemma_mono_expr(t, s1);
        let (s2, cond) = p_expr(t, s1);
        if p.pos < s2.pos <= t.len() {
            lemma_isp_block(t, s2);
            lemma_mono_block(t, s2);
            let (s3, then_block) = p_block(t, s2);
            lemma_range_widen(isp_expr(cond), t, s1.pos, s2.pos, p.pos, s2.pos);
            lemma_range_concat(isp_expr(cond), isp_block(then_block), t, p.pos, s2.pos, s3.pos);
            if p.pos < s3.pos <= t.len() && is_kind(t, s3, TokenKind::Else) {
                let s4 = bump(t, s3);
                lemma_isp_block(t, s4);
                lemma_mono_block(t, s4);
                let (s5, b) = p_block(t, s4);
                lemma_range_widen(isp_expr(cond) + isp_block(then_block), t, p.pos, s3.pos, p.pos, s4.pos);
                lemma_range_concat(isp_expr(cond) + isp_block(then_block), isp_block(b), t, p.pos, s4.pos, s5.pos);
            } else {
                assert(isp_expr(p_if(t, p).1) =~= isp_expr(cond) + isp_block(then_block));
            }
        } else {
            lemma_range_widen(isp_expr(cond), t, s1.pos, s2.pos, p.pos, s2.pos);
        }
    }
}

proof fn lemma_isp_grouped(t: Seq<TokenV>, p: PS, groups: Seq<GroupV>, lo: int)
    requires
        tok_incr(t),
        0 <= lo <= p.pos <= t.len(),
        from_range(isp_stmts(group_stmts(groups)), t, lo, p.pos),
    ensures
        from_range(isp_stmts(group_stmts(p_grouped(t, p, groups).1)), t, lo, p_grouped(t, p, groups).0.pos),
        p_grouped(t, p, groups).0.pos <= t.len(),
    decreases t.len() - p.pos,
{
    if !(p.pos < 0 || at_end(t, p)) {
        lemma_mono_top_stmt(t, p);
        let (s1, stmt) = p_top_stmt(t, p);
        if is_kind(t, p, TokenKind::Fn) {
            lemma_isp_fn(t, p);
        } else if is_kind(t, p, TokenKind::Let) {
            lemma_isp_let(t, p);
        } else {
            lemma_isp_expr(t, p);
            lemma_mono_expr(t, p);
            let (se, e) = p_expr(t, p);
            lemma_mono_expect(t, se, TokenKind::Semi, "`;`"@);
            let (s2, semi) = p_expect(t, se, TokenKind::Semi, "`;`"@);
            lemma_mono_recover(t, s2);
            lemma_range_widen(isp_expr(e), t, p.pos, se.pos, p.pos, s1.pos);
        }
        lemma_mono_progress(t, p.pos, s1);
        let s2 = ensure_progress(t, p.pos, s1);
        if p.pos < s2.pos <= t.len() && p.diags.len() <= s2.diags.len() {
            let g = GroupV {
                stmt,
                tokens: t.subrange(p.pos, s2.pos),
                diags: s2.diags.subrange(p.diags.len() as int, s2.diags.len() as int),
            };
            assert(group_stmts(groups.push(g)) =~= group_stmts(groups).push(stmt));
            lemma_isp_stmts_push(group_stmts(groups), stmt);
            lemma_range_widen(isp_stmt(stmt), t, p.pos, s1.pos, p.pos, s2.pos);
            lemma_range_concat(isp_stmts(group_stmts(groups)), isp_stmt(stmt), t, lo, p.pos, s2.pos);
            lemma_isp_grouped(t, s2, groups.push(g), lo);
        } else {
            lemma_range_widen(isp_stmts(group_stmts(groups)), t, lo, p.pos, lo, s2.pos);
        }
    }
}

/// The real identifiers of the statements parsed from `t` are distinct tokens
/// of `t`, listed in order.
pub proof fn lemma_parse_isp(t: Seq<TokenV>)
    requires
        tok_incr(t),
    ensures
        from_range(isp_stmts(group_stmts(spec_parse_items(t).0)), t, 0, t.len() as int),
{
    assert(group_stmts(Seq::<GroupV>::empty()) =~= Seq::<StmtV>::empty());
    assert(isp_stmts(Seq::<StmtV>::empty()) == Seq::<Span>::empty());
    lemma_range_empty(t, 0, 0);
    lemma_isp_grouped(t, init_ps(), seq![], 0);
    let (s, gs) = p_grouped(t, init_ps(), seq![]);
    lemma_range_widen(isp_stmts(group_stmts(gs)), t, 0, s.pos, 0, t.len() as int);
}

// ---------------------------------------------------------------------------
// The walk records each identifier once

/// The non-empty spans of the occurrences, in order.
pub open spec fn osp(os: Seq<OccV>) -> Seq<Span>
    decreases os.len(),
{
    if os.len() == 0 {
        seq![]
    } else {
        osp(os.drop_last()) + if os.last().span.start < os.last().span.end {
            seq![os.last().span]
        } else {
            seq![]
        }
    }
}

/// The real identifiers of the function names of `ss`.
pub open spec fn fnames(ss: Seq<StmtV>) -> Seq<Span>
    decreases ss.len(),
{
    if ss.len() == 0 {
        seq![]
    } else {
        (match ss[0].kind {
            StmtKindV::Fn { name, params: _, body: _ } => isp_ident(name),
            _ => seq![],
        }) + fnames(ss.drop_first())
    }
}

/// The real identifiers of a statement but its function name.
pub open spec fn nofn(st: StmtV) -> Seq<Span> {
    match st.kind {
        StmtKindV::Let { name, value } => isp_ident(name) + isp_expr(value),
        StmtKindV::Fn { name: _, params, body } => isp_idents(params) + isp_block(body),
        StmtKindV::Expr { expr } => isp_expr(expr),
    }
}

pub open spec fn nofns(ss: Seq<StmtV>) -> Seq<Span>
    decreases ss.len(),
{
    if ss.len() == 0 {
        seq![]
    } else {
        nofn(ss[0]) + nofns(ss.drop_first())
    }
}

/// The walk from `r` to `x` recorded exactly the spans `q`, in some order.
pub open spec fn adds(r: RS, x: RS, q: Seq<Span>) -> bool {
    osp(x.occs).to_multiset() == osp(r.occs).to_multiset().add(q.to_multiset())
}

proof fn lemma_adds_push(r: RS, o: OccV)
    ensures
        osp(r.occs.push(o)) == osp(r.occs) + (if o.span.start < o.span.end { seq![o.span] } else { seq![] }),
{
    assert(r.occs.push(o).drop_last() =~= r.occs);
}

proof fn lemma_adds_trans(r: RS, m: RS, x: RS, q1: Seq<Span>, q2: Seq<Span>)
    requires
        adds(r, m, q1),
        adds(m, x, q2),
    ensures
        adds(r, x, q1 + q2),
{
    broadcast use vstd::seq_lib::lemma_multiset_commutative;
    broadcast use vstd::multiset::group_multiset_axioms;
    assert(osp(x.occs).to_multiset() =~= osp(r.occs).to_multiset().add((q1 + q2).to_multiset()));
}

proof fn lemma_adds_same(r: RS, x: RS)
    requires
        x.occs == r.occs,
    ensures
        adds(r, x, seq![]),
{
    broadcast use vstd::multiset::group_multiset_axioms;
    let e = Seq::<Span>::empty();
    e.to_multiset_ensures();
    vstd::multiset::lemma_multiset_empty_len(e.to_multiset());
    assert(e.to_multiset() =~= Multiset::empty());
    assert(seq![] =~= e);
    assert(osp(x.occs).to_multiset() =~= osp(r.occs).to_multiset().add(e.to_multiset()));
}

proof fn lemma_adds_declare(r: RS, name: Seq<char>, kind: BindingKind, span: Span, arity: usize)
    ensures
        adds(r, declare_seq(r, name, kind, span), isp_ident(IdentV { name, span })),
        adds(r, declare_fn(r, name, span, arity), isp_ident(IdentV { name, span })),
{
    broadcast use vstd::seq_lib::lemma_multiset_commutative;
    let a = declare_seq(r, name, kind, span);
    let b = declare_fn(r, name, span, arity);
    let r1 = check_redef(r, name, span);
    lemma_adds_push(r1, OccV { span, name, binding: Some(r1.bindings.len() as usize), is_decl: true });
}

proof fn lemma_adds_params(r: RS, ps: Seq<IdentV>)
    ensures
        adds(r, r_params(r, ps), isp_idents(ps)),
    decreases ps.len(),
{
    if ps.len() == 0 {
        lemma_adds_same(r, r_params(r, ps));
    } else {
        let r1 = declare_seq(r, ps[0].name, BindingKind::Param, ps[0].span);
        lemma_adds_declare(r, ps[0].name, BindingKind::Param, ps[0].span, 0);
        assert(IdentV { name: ps[0].name, span: ps[0].span } == ps[0]);
        lemma_adds_params(r1, ps.drop_first());
        lemma_adds_trans(r, r1, r_params(r1, ps.drop_first()), isp_ident(ps[0]), isp_idents(ps.drop_first()));
        lemma_isp_idents_front(ps);
    }
}

proof fn lemma_isp_idents_front(ps: Seq<IdentV>)
    requires
        ps.len() > 0,
    ensures
        isp_idents(ps) == isp_ident(ps[0]) + isp_idents(ps.drop_first()),
    decreases ps.len(),
{
    if ps.len() == 1 {
        assert(ps.drop_last() =~= Seq::<IdentV>::empty());
        assert(ps.drop_first() =~= Seq::<IdentV>::empty());
        assert(isp_idents(Seq::<IdentV>::empty()) == Seq::<Span>::empty());
        assert(isp_idents(ps) =~= isp_ident(ps[0]) + isp_idents(ps.drop_first()));
    } else {
        let init = ps.drop_last();
        lemma_isp_idents_front(init);
        assert(init.drop_first() =~= ps.drop_first().drop_last());
        assert(ps.drop_first().last() == ps.last());
        assert(init[0] == ps[0]);
        assert(isp_idents(ps) =~= isp_ident(ps[0]) + isp_idents(ps.drop_first()));
    }
}

proof fn lemma_adds_hoist(r: RS, ss: Seq<StmtV>)
    ensures
        adds(r, r_hoist(r, ss), fnames(ss)),
    decreases ss.len(),
{
    if ss.len() == 0 {
        lemma_adds_same(r, r_hoist(r, ss));
    } else {
        match ss[0].kind {
            StmtKindV::Fn { name, params, body: _ } => {
                let r1 = declare_fn(r, name.name, name.span, params.len() as usize);
                lemma_adds_declare(r, name.name, BindingKind::Fn, name.span, params.len() as usize);
                assert(IdentV { name: name.name, span: name.span } == name);
                lemma_adds_hoist(r1, ss.drop_first());
                lemma_adds_trans(r, r1, r_hoist(r1, ss.drop_first()), isp_ident(name), fnames(ss.drop_first()));
            },
            _ => {
                lemma_adds_hoist(r, ss.drop_first());
                assert(fnames(ss) =~= fnames(ss.drop_first()));
            },
        }
    }
}

proof fn lemma_split_fnames(ss: Seq<StmtV>)
    ensures
        (fnames(ss) + nofns(ss)).to_multiset() == isp_stmts(ss).to_multiset(),
    decreases ss.len(),
{
    broadcast use vstd::seq_lib::lemma_multiset_commutative;
    broadcast use vstd::multiset::group_multiset_axioms;
    if ss.len() == 0 {
        assert(fnames(ss) + nofns(ss) =~= Seq::<Span>::empty());
    } else {
        let rest = ss.drop_first();
        assert(rest == ss.subrange(1, ss.len() as int));
        lemma_split_fnames(rest);
        let fa = match ss[0].kind {
            StmtKindV::Fn { name, params: _, body: _ } => isp_ident(name),
            _ => seq![],
        };
        assert(isp_stmt(ss[0]).to_multiset() =~= (fa + nofn(ss[0])).to_multiset()) by {
            match ss[0].kind {
                StmtKindV::Fn { name, params, body } => {
                    assert(isp_stmt(ss[0]) =~= fa + nofn(ss[0]));
                },
                _ => {
                    assert(isp_stmt(ss[0]) =~= fa + nofn(ss[0]));
                },
            }
        }
        assert((fnames(ss) + nofns(ss)).to_multiset() =~= isp_stmts(ss).to_multiset());
    }
}

proof fn lemma_adds_block(r: RS, b: BlockV, params: Seq<IdentV>)
    ensures
        adds(r, r_block(r, b, params), isp_idents(params) + isp_block(b)),
    decreases b,
{
    broadcast use vstd::seq_lib::lemma_multiset_commutative;
    broadcast use vstd::multiset::group_multiset_axioms;
    let r0 = push_frame(r);
    lemma_adds_same(r, r0);
    lemma_adds_params(r0, params);
    let r1 = r_params(r0, params);
    lemma_adds_hoist(r1, b.stmts);
    let rh = r_hoist(r1, b.stmts);
    lemma_adds_stmts(rh, b.stmts);
    let rs = r_stmts(rh, b.stmts);
    let tail = match b.tail {
        Some(e) => isp_expr(*e),
        None => seq![],
    };
    match b.tail {
        Some(e) => {
            lemma_adds_expr(rs, *e);
        },
        None => {
            lemma_adds_same(rs, rs);
        },
    }
    let r3 = match b.tail {
        Some(e) => r_expr(rs, *e),
        None => rs,
    };
    lemma_adds_same(r3, pop_frame(r3));
    lemma_adds_trans(r, r0, r1, seq![], isp_idents(params));
    lemma_adds_trans(r, r1, rh, seq![] + isp_idents(params), fnames(b.stmts));
    lemma_adds_trans(r, rh, rs, seq![] + isp_idents(params) + fnames(b.stmts), nofns(b.stmts));
    lemma_adds_trans(r, rs, r3, seq![] + isp_idents(params) + fnames(b.stmts) + nofns(b.stmts), tail);
    lemma_adds_trans(r, r3, pop_frame(r3), seq![] + isp_idents(params) + fnames(b.stmts) + nofns(b.stmts) + tail, seq![]);
    lemma_split_fnames(b.stmts);
    assert((seq![] + isp_idents(params) + fnames(b.stmts) + nofns(b.stmts) + tail + seq![]).to_multiset() =~= (isp_idents(params) + isp_block(b)).to_multiset());
}

proof fn lemma_adds_stmts(r: RS, ss: Seq<StmtV>)
    ensures
        adds(r, r_stmts(r, ss), nofns(ss)),
    decreases ss,
{
    if ss.len() == 0 {
        lemma_adds_same(r, r_stmts(r, ss));
    } else {
        let rest = ss.subrange(1, ss.len() as int);
        assert(rest == ss.drop_first());
        lemma_adds_stmt(r, ss[0]);
        lemma_adds_stmts(r_stmt(r, ss[0]), rest);
        lemma_adds_trans(r, r_stmt(r, ss[0]), r_stmts(r_stmt(r, ss[0]), rest), nofn(ss[0]), nofns(rest));
    }
}

proof fn lemma_adds_stmt(r: RS, st: StmtV)
    ensures
        adds(r, r_stmt(r, st), nofn(st)),
    decreases st,
{
    match st.kind {
        StmtKindV::Let { name, value } => {
            lemma_adds_expr(r, value);
            let r1 = r_expr(r, value);
            lemma_adds_declare(r1, name.name, BindingKind::Let, name.span, 0);
            assert(IdentV { name: name.name, span: name.span } == name);
            lemma_adds_trans(r, r1, r_stmt(r, st), isp_expr(value), isp_ident(name));
            broadcast use vstd::seq_lib::lemma_multiset_commutative;
            assert((isp_expr(value) + isp_ident(name)).to_multiset() =~= (isp_ident(name) + isp_expr(value)).to_multiset());
        },
        StmtKindV::Fn { name: _, params, body } => {
            lemma_adds_block(r, body, params);
        },
        StmtKindV::Expr { expr } => {
            lemma_adds_expr(r, expr);
        },
    }
}

proof fn lemma_adds_exprs(r: RS, es: Seq<ExprV>)
    ensures
        adds(r, r_exprs(r, es), isp_exprs(es)),
    decreases es,
{
    if es.len() == 0 {
        lemma_adds_same(r, r_exprs(r, es));
    } else {
        let rest = es.subrange(1, es.len() as int);
        lemma_adds_expr(r, es[0]);
        lemma_adds_exprs(r_expr(r, es[0]), rest);
        lemma_adds_trans(r, r_expr(r, es[0]), r_exprs(r_expr(r, es[0]), rest), isp_expr(es[0]), isp_exprs(rest));
    }
}

proof fn lemma_adds_expr(r: RS, e: ExprV)
    ensures
        adds(r, r_expr(r, e), isp_expr(e)),
    decreases e,
{
    broadcast use vstd::seq_lib::lemma_multiset_commutative;
    broadcast use vstd::multiset::group_multiset_axioms;
    match e.kind {
        ExprKindV::Name { name } => {
            let b = lookup(r.stack, name);
            let r1 = if b is None {
                RS { diags: r.diags.push(error_v(e.span, DiagKind::UnresolvedName, msg_unresolved(name))), ..r }
            } else {
                r
            };
            lemma_adds_push(r1, OccV { span: e.span, name, binding: b, is_decl: false });
        },
        ExprKindV::Unary { op: _, expr } => {
            lemma_adds_expr(r, *expr);
        },
        ExprKindV::Binary { op: _, lhs, rhs } => {
            lemma_adds_expr(r, *lhs);
            lemma_adds_expr(r_expr(r, *lhs), *rhs);
            lemma_adds_trans(r, r_expr(r, *lhs), r_expr(r_expr(r, *lhs), *rhs), isp_expr(*lhs), isp_expr(*rhs));
        },
        ExprKindV::Call { callee, args } => {
            lemma_adds_expr(r, *callee);
            lemma_adds_exprs(r_expr(r, *callee), args);
            lemma_adds_trans(r, r_expr(r, *callee), r_exprs(r_expr(r, *callee), args), isp_expr(*callee), isp_exprs(args));
        },
        ExprKindV::If { cond, then_block, else_block } => {
            assert(isp_idents(Seq::<IdentV>::empty()) == Seq::<Span>::empty());
            let r1 = r_expr(r, *cond);
            lemma_adds_expr(r, *cond);
            lemma_adds_block(r1, then_block, seq![]);
            let r2 = r_block(r1, then_block, seq![]);
            lemma_adds_trans(r, r1, r2, isp_expr(*cond), seq![] + isp_block(then_block));
            match else_block {
                Some(b) => {
                    lemma_adds_block(r2, b, seq![]);
                    lemma_adds_trans(r, r2, r_block(r2, b, seq![]), isp_expr(*cond) + (seq![] + isp_block(then_block)), seq![] + isp_block(b));
                    assert((isp_expr(*cond) + (seq![] + isp_block(then_block)) + (seq![] + isp_block(b))).to_multiset() =~= isp_expr(e).to_multiset());
                },
                None => {
                    assert((isp_expr(*cond) + (seq![] + isp_block(then_block))).to_multiset() =~= isp_expr(e).to_multiset());
                },
            }
        },
        ExprKindV::Block { block } => {
            assert(isp_idents(Seq::<IdentV>::empty()) == Seq::<Span>::empty());
            lemma_adds_block(r, block, seq![]);
            assert((seq![] + isp_block(block)).to_multiset() =~= isp_expr(e).to_multiset());
        },
        ExprKindV::Paren { inner } => {
            lemma_adds_expr(r, *inner);
        },
        _ => {
            lemma_adds_same(r, r_expr(r, e));
        },
    }
}

/// The walk of a program records the real identifiers of its statements, each
/// once.
pub proof fn lemma_program_adds(p: Seq<StmtV>)
    ensures
        osp(r_program(p).occs).to_multiset() == isp_stmts(p).to_multiset(),
{
    broadcast use vstd::seq_lib::lemma_multiset_commutative;
    broadcast use vstd::multiset::group_multiset_axioms;
    let e = empty_rs();
    let r0 = push_frame(e);
    lemma_adds_hoist(r0, p);
    let r1 = r_hoist(r0, p);
    lemma_adds_stmts(r1, p);
    let r2 = r_stmts(r1, p);
    lemma_adds_trans(r0, r1, r2, fnames(p), nofns(p));
    lemma_split_fnames(p);
    assert(r0.occs =~= Seq::<OccV>::empty());
    assert(osp(r0.occs) =~= Seq::<Span>::empty());
    let e = Seq::<Span>::empty();
    e.to_multiset_ensures();
    vstd::multiset::lemma_multiset_empty_len(e.to_multiset());
    assert(e.to_multiset() =~= Multiset::empty());
    assert(r_program(p).occs == r2.occs);
    assert(osp(r2.occs).to_multiset() =~= (fnames(p) + nofns(p)).to_multiset());
    assert(osp(r_program(p).occs).to_multiset() =~= isp_stmts(p).to_multiset());
}


// ---------------------------------------------------------------------------
// From the multiset to the occurrences

/// No two entries share a non-empty span.
pub open spec fn spans_unique(s: Seq<OccV>) -> bool {
    forall|k1: int, k2: int|
        0 <= k1 < s.len() && 0 <= k2 < s.len() && (#[trigger] s[k1]).span == (#[trigger] s[k2]).span
            && s[k1].span.start < s[k1].span.end ==> k1 == k2
}

proof fn lemma_osp_concat(a: Seq<OccV>, b: Seq<OccV>)
    ensures
        osp(a + b) == osp(a) + osp(b),
    decreases b.len(),
{
    if b.len() == 0 {
        assert(a + b =~= a);
        assert(osp(a) + osp(b) =~= osp(a));
    } else {
        lemma_osp_concat(a, b.drop_last());
        assert((a + b).drop_last() =~= a + b.drop_last());
        assert((a + b).last() == b.last());
        assert(osp(a + b) =~= osp(a) + osp(b));
    }
}

proof fn lemma_osp_contains(s: Seq<OccV>, k: int)
    requires
        0 <= k < s.len(),
        s[k].span.start < s[k].span.end,
    ensures
        osp(s).contains(s[k].span),
    decreases s.len(),
{
    if k == s.len() - 1 {
        let q = osp(s.drop_last());
        assert(osp(s)[q.len() as int] == s[k].span);
    } else {
        lemma_osp_contains(s.drop_last(), k);
        let q = osp(s.drop_last());
        let j = choose|j: int| 0 <= j < q.len() && q[j] == s[k].span;
        assert(osp(s)[j] == q[j]);
    }
}

/// Selection sort keeps the non-empty spans, as a multiset.
proof fn lemma_osp_sel_sort(s: Seq<OccV>, le: spec_fn(OccV, OccV) -> bool)
    ensures
        osp(crate::sort::sel_sort(s, le)).to_multiset() == osp(s).to_multiset(),
    decreases s.len(),
{
    broadcast use vstd::seq_lib::lemma_multiset_commutative;
    broadcast use vstd::multiset::group_multiset_axioms;
    if s.len() == 0 {
    } else {
        let m = crate::sort::min_idx(s, le, 1, 0);
        crate::sort::lemma_min_idx_range(s, le, 1, 0);
        let r = s.remove(m);
        lemma_osp_sel_sort(r, le);
        let x = s[m];
        let one = seq![x];
        assert(one.drop_last() =~= Seq::<OccV>::empty());
        assert(crate::sort::sel_sort(s, le) == one + crate::sort::sel_sort(r, le));
        lemma_osp_concat(one, crate::sort::sel_sort(r, le));
        let pre = s.subrange(0, m);
        let post = s.subrange(m + 1, s.len() as int);
        assert(r =~= pre + post);
        assert(s =~= pre + one + post);
        lemma_osp_concat(pre, post);
        lemma_osp_concat(pre + one, post);
        lemma_osp_concat(pre, one);
        assert(osp(crate::sort::sel_sort(s, le)).to_multiset() =~= osp(s).to_multiset());
    }
}

/// Entries whose non-empty spans are all different.
proof fn lemma_unique_from_osp(s: Seq<OccV>)
    requires
        osp(s).no_duplicates(),
    ensures
        spans_unique(s),
    decreases s.len(),
{
    if s.len() > 0 {
        let d = s.drop_last();
        let q = osp(d);
        assert(osp(s).subrange(0, q.len() as int) =~= q);
        assert(q.no_duplicates()) by {
            assert forall|i: int, j: int| 0 <= i < q.len() && 0 <= j < q.len() && i != j implies q[i] != q[j] by {
                assert(osp(s)[i] == q[i]);
                assert(osp(s)[j] == q[j]);
            }
        }
        lemma_unique_from_osp(d);
        assert forall|k1: int, k2: int|
            0 <= k1 < s.len() && 0 <= k2 < s.len() && (#[trigger] s[k1]).span == (#[trigger] s[k2]).span
                && s[k1].span.start < s[k1].span.end implies k1 == k2 by {
            let l = s.len() - 1;
            if k1 != k2 {
                if k1 < l && k2 < l {
                    assert(d[k1] == s[k1] && d[k2] == s[k2]);
                } else {
                    let k = if k1 < l { k1 } else { k2 };
                    assert(d[k] == s[k]);
                    lemma_osp_contains(d, k);
                    let j = choose|j: int| 0 <= j < q.len() && q[j] == s[k].span;
                    assert(osp(s)[j] == q[j]);
                    assert(osp(s)[q.len() as int] == s[l].span);
                }
            }
        }
    }
}

/// The tokens lexed from a text start further on, one after the other.
pub proof fn lemma_lex_incr(text: Seq<u8>)
    requires
        text.len() <= u32::MAX,
    ensures
        tok_incr(crate::lexer::lex_from(text, 0, 0)),
{
    let t = crate::lexer::lex_from(text, 0, 0);
    crate::lexer::lemma_lex_spans(text, 0, 0);
    assert forall|j1: int, j2: int| 0 <= j1 < j2 < t.len() implies (#[trigger] t[j1]).span.start < (#[trigger] t[j2]).span.start by {
        assert(t[j1].span.start < t[j1].span.end);
    }
}

/// The symbol table of a program parsed from tokens in order, sorted in any
/// way, has no two occurrences with the same non-empty span.
pub proof fn lemma_sorted_occs_unique(t: Seq<TokenV>, le: spec_fn(OccV, OccV) -> bool)
    requires
        tok_incr(t),
    ensures
        spans_unique(crate::sort::sel_sort(r_program(group_stmts(spec_parse_items(t).0)).occs, le)),
{
    let p = group_stmts(spec_parse_items(t).0);
    let ro = r_program(p).occs;
    let q = isp_stmts(p);
    lemma_parse_isp(t);
    lemma_program_adds(p);
    lemma_osp_sel_sort(ro, le);
    assert(q.no_duplicates()) by {
        assert forall|i: int, j: int| 0 <= i < q.len() && 0 <= j < q.len() && i != j implies q[i] != q[j] by {
            if i < j {
                assert(q[i].start < q[j].start);
            } else {
                assert(q[j].start < q[i].start);
            }
        }
    }
    q.lemma_multiset_has_no_duplicates();
    let o = osp(crate::sort::sel_sort(ro, le));
    assert(o.to_multiset() == q.to_multiset());
    o.lemma_multiset_has_no_duplicates_conv();
    lemma_unique_from_osp(crate::sort::sel_sort(ro, le));
}

} // verus!
