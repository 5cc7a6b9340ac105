//! What parsing part of a token sequence gives. Each grammar function moves the
//! parser forward, never back; it reads only the tokens between where it
//! starts and where it stops; and moving every token by the same byte delta
//! moves the syntax tree and diagnostics by it too. So a statement reparsed
//! among other tokens that agree with the ones it read gives the same group.

use vstd::prelude::*;
use crate::ast::{StmtV, StmtKindV, ExprV, ExprKindV, IdentV};
use crate::diagnostics::{DiagKind, DiagV};
use crate::lexer::{TokenKind, TokenV};
use crate::parse_spec::{msg_expected, msg_found_eof, PS, GroupV, at_end, is_kind, bump, set_trunc, with_err, eof_span, cur_span, prev_end, p_expect, p_recover, p_ident_or_missing, p_ident, p_params, ensure_progress, binary_v, bin_op_at, lvl_rank, block_end, p_block_from, p_block, p_block_items, p_fn, p_let, p_args, p_expr, p_bin, p_bin_loop, p_unary, p_postfix, p_postfix_loop, p_primary, p_if, p_expr_stmt_top, p_top_stmt, p_grouped, shift_diagv, shift_diagvs, shift_group, shift_groups, group_tokens};
use crate::relex::{shift_tokv, shift_tokvs};
use crate::shift::{shift_ident_v, shift_idents_v, shift_expr_v, shift_exprs_v, shift_block_v, shift_stmt_v, shift_stmts_v};
use crate::span::Span;

verus! {

/// The parser state moved forward within `t`: position, diagnostics and the
/// truncation flag only grow, and the flag is raised only at the end.
pub open spec fn grows(t: Seq<TokenV>, s: PS, o: PS) -> bool {
    &&& s.pos <= o.pos <= t.len()
    &&& s.diags.len() <= o.diags.len()
    &&& (s.trunc ==> o.trunc)
    &&& (o.trunc ==> s.trunc || o.pos == t.len())
}

pub proof fn lemma_mono_expect(t: Seq<TokenV>, s: PS, k: TokenKind, what: Seq<char>)
    requires
        0 <= s.pos <= t.len(),
    ensures
        grows(t, s, p_expect(t, s, k, what).0),
        p_expect(t, s, k, what).1 is Some ==> p_expect(t, s, k, what).0.pos == s.pos + 1,
{
}

pub proof fn lemma_mono_recover(t: Seq<TokenV>, s: PS)
    requires
        0 <= s.pos <= t.len(),
    ensures
        grows(t, s, p_recover(t, s)),
    decreases t.len() - s.pos,
{
    if !(s.pos < 0 || at_end(t, s)) && t[s.pos].kind != TokenKind::Semi && !(t[s.pos].kind
        == TokenKind::Fn || t[s.pos].kind == TokenKind::Let || t[s.pos].kind == TokenKind::RBrace) {
        lemma_mono_recover(t, bump(t, s));
    }
}

pub proof fn lemma_mono_ident_or_missing(t: Seq<TokenV>, s: PS, what: Seq<char>)
    requires
        0 <= s.pos <= t.len(),
    ensures
        grows(t, p_ident_or_missing(t, s, what).0, p_ident_or_missing(t, s, what).0),
        grows(t, s, p_ident_or_missing(t, s, what).0),
{
    lemma_mono_expect(t, s, TokenKind::Ident, what);
}

pub proof fn lemma_mono_ident(t: Seq<TokenV>, s: PS, what: Seq<char>)
    requires
        0 <= s.pos <= t.len(),
    ensures
        grows(t, s, p_ident(t, s, what).0),
        p_ident(t, s, what).1 is Some ==> p_ident(t, s, what).0.pos == s.pos + 1,
{
    lemma_mono_expect(t, s, TokenKind::Ident, what);
}

pub proof fn lemma_mono_params(t: Seq<TokenV>, s: PS, acc: Seq<IdentV>)
    requires
        0 <= s.pos <= t.len(),
    ensures
        grows(t, s, p_params(t, s, acc).0),
    decreases t.len() - s.pos,
{
    lemma_mono_ident(t, s, "a parameter name"@);
    let (s1, id) = p_ident(t, s, "a parameter name"@);
    if id is Some && is_kind(t, s1, TokenKind::Comma) {
        let s2 = bump(t, s1);
        if s.pos < s2.pos <= t.len() {
            lemma_mono_params(t, s2, acc.push(id->0));
        }
    }
}

pub proof fn lemma_mono_progress(t: Seq<TokenV>, before: int, s: PS)
    requires
        0 <= before <= s.pos <= t.len(),
    ensures
        grows(t, s, ensure_progress(t, before, s)),
        s.pos == before && before < t.len() ==> ensure_progress(t, before, s).pos == before + 1,
{
}

pub proof fn lemma_mono_block_from(t: Seq<TokenV>, s: PS, start: u32)
    requires
        0 <= s.pos <= t.len(),
    ensures
        grows(t, s, p_block_from(t, s, start).0),
    decreases t.len() - s.pos, 26int,
{
    lemma_mono_block_items(t, s, seq![]);
    let (s2, stmts, tail) = p_block_items(t, s, seq![]);
    lemma_mono_expect(t, s2, TokenKind::RBrace, "`}`"@);
}

pub proof fn lemma_mono_block(t: Seq<TokenV>, s: PS)
    requires
        0 <= s.pos <= t.len(),
    ensures
        grows(t, s, p_block(t, s).0),
    decreases t.len() - s.pos, 27int,
{
    lemma_mono_expect(t, s, TokenKind::LBrace, "`{`"@);
    let (s1, open) = p_expect(t, s, TokenKind::LBrace, "`{`"@);
    let start = match open {
        Some(sp) => sp.start,
        None => cur_span(t, s1).start,
    };
    if s.pos <= s1.pos <= t.len() {
        lemma_mono_block_from(t, s1, start);
    }
}

pub proof fn lemma_mono_block_items(t: Seq<TokenV>, s: PS, stmts: Seq<StmtV>)
    requires
        0 <= s.pos <= t.len(),
    ensures
        grows(t, s, p_block_items(t, s, stmts).0),
    decreases t.len() - s.pos, 25int,
{
    if s.pos < 0 || at_end(t, s) {
    } else if t[s.pos].kind == TokenKind::RBrace {
    } else if t[s.pos].kind == TokenKind::Fn || t[s.pos].kind == TokenKind::Let {
        let (s1, st) = if t[s.pos].kind == TokenKind::Fn {
            lemma_mono_fn(t, s);
            p_fn(t, s)
        } else {
            lemma_mono_let(t, s);
            p_let(t, s)
        };
        if s.pos < s1.pos <= t.len() {
            lemma_mono_block_items(t, s1, stmts.push(st));
        }
    } else {
        lemma_mono_expr(t, s);
        let (s1, e) = p_expr(t, s);
        if is_kind(t, s1, TokenKind::Semi) {
            let semi = t[s1.pos].span;
            let s2 = ensure_progress(t, s.pos, bump(t, s1));
            lemma_mono_progress(t, s.pos, bump(t, s1));
            let st = StmtV {
                kind: StmtKindV::Expr { expr: e },
                span: Span { start: e.span.start, end: semi.end },
            };
            if s.pos < s2.pos <= t.len() {
                lemma_mono_block_items(t, s2, stmts.push(st));
            }
        } else if is_kind(t, s1, TokenKind::RBrace) || at_end(t, s1) {
        } else {
            let s1e = with_err(s1, cur_span(t, s1), DiagKind::ParseError, "expected `;` or `}`"@);
            lemma_mono_recover(t, s1e);
            let s2 = ensure_progress(t, s.pos, p_recover(t, s1e));
            lemma_mono_progress(t, s.pos, p_recover(t, s1e));
            let st = StmtV { kind: StmtKindV::Expr { expr: e }, span: e.span };
            if s.pos < s2.pos <= t.len() {
                lemma_mono_block_items(t, s2, stmts.push(st));
            }
        }
    }
}

pub proof fn lemma_mono_fn(t: Seq<TokenV>, s: PS)
    requires
        0 <= s.pos < t.len(),
    ensures
        grows(t, s, p_fn(t, s).0),
        p_fn(t, s).0.pos > s.pos,
    decreases t.len() - s.pos, 24int,
{
    let s1 = bump(t, s);
    lemma_mono_ident_or_missing(t, s1, "a function name"@);
    let (s2, name) = p_ident_or_missing(t, s1, "a function name"@);
    lemma_mono_expect(t, s2, TokenKind::LParen, "`(`"@);
    let s3 = p_expect(t, s2, TokenKind::LParen, "`(`"@).0;
    let (s4, params) = if !is_kind(t, s3, TokenKind::RParen) {
        lemma_mono_params(t, s3, seq![]);
        p_params(t, s3, seq![])
    } else {
        (s3, seq![])
    };
    lemma_mono_expect(t, s4, TokenKind::RParen, "`)`"@);
    let s5 = p_expect(t, s4, TokenKind::RParen, "`)`"@).0;
    lemma_mono_block(t, s5);
}

pub proof fn lemma_mono_let(t: Seq<TokenV>, s: PS)
    requires
        0 <= s.pos < t.len(),
    ensures
        grows(t, s, p_let(t, s).0),
        p_let(t, s).0.pos > s.pos,
    decreases t.len() - s.pos, 24int,
{
    let s1 = bump(t, s);
    lemma_mono_ident_or_missing(t, s1, "a variable name"@);
    let (s2, name) = p_ident_or_missing(t, s1, "a variable name"@);
    lemma_mono_expect(t, s2, TokenKind::Eq, "`=`"@);
    let s3 = p_expect(t, s2, TokenKind::Eq, "`=`"@).0;
    lemma_mono_expr(t, s3);
    let (s4, value) = p_expr(t, s3);
    lemma_mono_expect(t, s4, TokenKind::Semi, "`;`"@);
}

pub proof fn lemma_mono_args(t: Seq<TokenV>, s: PS, acc: Seq<ExprV>)
    requires
        0 <= s.pos <= t.len(),
    ensures
        grows(t, s, p_args(t, s, acc).0),
    decreases t.len() - s.pos, 24int,
{
    lemma_mono_expr(t, s);
    let (s1, e) = p_expr(t, s);
    if is_kind(t, s1, TokenKind::Comma) {
        let s2 = bump(t, s1);
        if s.pos < s2.pos <= t.len() {
            lemma_mono_args(t, s2, acc.push(e));
        }
    }
}

pub proof fn lemma_mono_expr(t: Seq<TokenV>, s: PS)
    requires
        0 <= s.pos <= t.len(),
    ensures
        grows(t, s, p_expr(t, s).0),
        s.pos < t.len() ==> p_expr(t, s).0.pos > s.pos,
    decreases t.len() - s.pos, 23int,
{
    lemma_mono_bin(t, s, 0);
}

pub proof fn lemma_mono_bin(t: Seq<TokenV>, s: PS, lvl: int)
    requires
        0 <= s.pos <= t.len(),
        0 <= lvl <= 3,
    ensures
        grows(t, s, p_bin(t, s, lvl).0),
        s.pos < t.len() ==> p_bin(t, s, lvl).0.pos > s.pos,
    decreases t.len() - s.pos, lvl_rank(lvl),
{
    let (s1, lhs) = if lvl == 3 {
        lemma_mono_unary(t, s);
        p_unary(t, s)
    } else {
        lemma_mono_bin(t, s, lvl + 1);
        p_bin(t, s, lvl + 1)
    };
    lemma_mono_bin_loop(t, s1, lvl, lhs);
}

pub proof fn lemma_mono_bin_loop(t: Seq<TokenV>, s: PS, lvl: int, lhs: ExprV)
    requires
        0 <= s.pos <= t.len(),
        0 <= lvl <= 3,
    ensures
        grows(t, s, p_bin_loop(t, s, lvl, lhs).0),
    decreases t.len() - s.pos, lvl_rank(lvl) - 1,
{
    match bin_op_at(t, s, lvl) {
        Some(op) => {
            let s1 = bump(t, s);
            let (s2, rhs) = if lvl == 3 {
                lemma_mono_unary(t, s1);
                p_unary(t, s1)
            } else {
                lemma_mono_bin(t, s1, lvl + 1);
                p_bin(t, s1, lvl + 1)
            };
            if s.pos < s2.pos <= t.len() {
                lemma_mono_bin_loop(t, s2, lvl, binary_v(lhs, op, rhs));
            }
        },
        None => {},
    }
}

pub proof fn lemma_mono_unary(t: Seq<TokenV>, s: PS)
    requires
        0 <= s.pos <= t.len(),
    ensures
        grows(t, s, p_unary(t, s).0),
        s.pos < t.len() ==> p_unary(t, s).0.pos > s.pos,
    decreases t.len() - s.pos, 14int,
{
    if is_kind(t, s, TokenKind::Minus) || is_kind(t, s, TokenKind::Bang) {
        lemma_mono_unary(t, bump(t, s));
    } else {
        lemma_mono_postfix(t, s);
    }
}

pub proof fn lemma_mono_postfix(t: Seq<TokenV>, s: PS)
    requires
        0 <= s.pos <= t.len(),
    ensures
        grows(t, s, p_postfix(t, s).0),
        s.pos < t.len() ==> p_postfix(t, s).0.pos > s.pos,
    decreases t.len() - s.pos, 13int,
{
    lemma_mono_primary(t, s);
    let (s1, e) = p_primary(t, s);
    lemma_mono_postfix_loop(t, s1, e);
}

pub proof fn lemma_mono_postfix_loop(t: Seq<TokenV>, s: PS, e: ExprV)
    requires
        0 <= s.pos <= t.len(),
    ensures
        grows(t, s, p_postfix_loop(t, s, e).0),
    decreases t.len() - s.pos, 12int,
{
    if is_kind(t, s, TokenKind::LParen) {
        let s1 = bump(t, s);
        let (s2, args) = if !is_kind(t, s1, TokenKind::RParen) {
            lemma_mono_args(t, s1, seq![]);
            p_args(t, s1, seq![])
        } else {
            (s1, seq![])
        };
        lemma_mono_expect(t, s2, TokenKind::RParen, "`)`"@);
        let (s3, close) = p_expect(t, s2, TokenKind::RParen, "`)`"@);
        let end = match close {
            Some(sp) => sp.end,
            None => prev_end(t, s3),
        };
        let call = ExprV {
            kind: ExprKindV::Call { callee: Box::new(e), args },
            span: Span { start: e.span.start, end },
        };
        if s.pos < s3.pos <= t.len() {
            lemma_mono_postfix_loop(t, s3, call);
        }
    }
}

pub proof fn lemma_mono_primary(t: Seq<TokenV>, s: PS)
    requires
        0 <= s.pos <= t.len(),
    ensures
        grows(t, s, p_primary(t, s).0),
        s.pos < t.len() ==> p_primary(t, s).0.pos > s.pos,
    decreases t.len() - s.pos, 11int,
{
    if s.pos < 0 || at_end(t, s) {
    } else {
        let tok = t[s.pos];
        let k = tok.kind;
        if k == TokenKind::LParen {
            lemma_mono_expr(t, bump(t, s));
            let (s2, inner) = p_expr(t, bump(t, s));
            lemma_mono_expect(t, s2, TokenKind::RParen, "`)`"@);
        } else if k == TokenKind::LBrace {
            lemma_mono_block_from(t, bump(t, s), tok.span.start);
        } else if k == TokenKind::If {
            lemma_mono_if(t, s);
        }
    }
}

pub proof fn lemma_mono_if(t: Seq<TokenV>, s: PS)
    requires
        0 <= s.pos <= t.len(),
    ensures
        grows(t, s, p_if(t, s).0),
        s.pos < t.len() ==> p_if(t, s).0.pos > s.pos,
    decreases t.len() - s.pos, 10int,
{
    if 0 <= s.pos < t.len() {
        lemma_mono_expr(t, bump(t, s));
        let (s2, cond) = p_expr(t, bump(t, s));
        if s.pos < s2.pos <= t.len() {
            lemma_mono_block(t, s2);
            let (s3, then_block) = p_block(t, s2);
            if s.pos < s3.pos <= t.len() && is_kind(t, s3, TokenKind::Else) {
                lemma_mono_block(t, bump(t, s3));
            }
        }
    }
}

pub proof fn lemma_mono_expr_stmt_top(t: Seq<TokenV>, s: PS)
    requires
        0 <= s.pos <= t.len(),
    ensures
        grows(t, s, p_expr_stmt_top(t, s).0),
        s.pos < t.len() ==> p_expr_stmt_top(t, s).0.pos > s.pos,
{
    lemma_mono_expr(t, s);
    let (s1, e) = p_expr(t, s);
    lemma_mono_expect(t, s1, TokenKind::Semi, "`;`"@);
    let (s2, semi) = p_expect(t, s1, TokenKind::Semi, "`;`"@);
    if semi is None {
        lemma_mono_recover(t, s2);
    }
}

pub proof fn lemma_mono_top_stmt(t: Seq<TokenV>, s: PS)
    requires
        0 <= s.pos < t.len(),
    ensures
        grows(t, s, p_top_stmt(t, s).0),
        p_top_stmt(t, s).0.pos > s.pos,
{
    if is_kind(t, s, TokenKind::Fn) {
        lemma_mono_fn(t, s);
    } else if is_kind(t, s, TokenKind::Let) {
        lemma_mono_let(t, s);
    } else {
        lemma_mono_expr_stmt_top(t, s);
    }
}

/// `t2` holds, `d` places further on, the tokens `t1` holds from `p0` to `l`,
/// each moved by `delta` bytes.
pub open spec fn window(t1: Seq<TokenV>, t2: Seq<TokenV>, p0: int, l: int, d: int, delta: i64) -> bool {
    &&& 0 <= p0 < l <= t1.len()
    &&& 0 <= p0 + d
    &&& l + d <= t2.len()
    &&& forall|i: int| p0 <= i < l ==> t2[i + d] == shift_tokv(#[trigger] t1[i], delta)
}

/// The window reaches the end of both sequences.
pub open spec fn tails(t1: Seq<TokenV>, t2: Seq<TokenV>, l: int, d: int) -> bool {
    l == t1.len() && l + d == t2.len()
}

/// Two parser states at corresponding places: positions `d` apart, the same
/// truncation flag, and the diagnostics after the first `n1` and `n2` the same
/// but moved.
pub open spec fn moved(s1: PS, s2: PS, d: int, delta: i64, n1: int, n2: int) -> bool {
    &&& s2.pos == s1.pos + d
    &&& s2.trunc == s1.trunc
    &&& 0 <= n1 <= s1.diags.len()
    &&& 0 <= n2 <= s2.diags.len()
    &&& s2.diags.skip(n2) == shift_diagvs(s1.diags.skip(n1), delta)
}

pub open spec fn shift_opt_span(o: Option<Span>, delta: i64) -> Option<Span> {
    match o {
        Some(sp) => Some(sp.spec_shifted(delta)),
        None => None,
    }
}

pub open spec fn shift_opt_ident(o: Option<IdentV>, delta: i64) -> Option<IdentV> {
    match o {
        Some(i) => Some(shift_ident_v(i, delta)),
        None => None,
    }
}

pub open spec fn shift_opt_expr(o: Option<ExprV>, delta: i64) -> Option<ExprV> {
    match o {
        Some(e) => Some(shift_expr_v(e, delta)),
        None => None,
    }
}

/// At a position inside the window, or anywhere once the window reaches both
/// ends, the two sequences look the same to the parser.
proof fn lemma_here(
    t1: Seq<TokenV>,
    t2: Seq<TokenV>,
    p0: int,
    l: int,
    d: int,
    delta: i64,
    n1: int,
    n2: int,
    s1: PS,
    s2: PS,
)
    requires
        window(t1, t2, p0, l, d, delta),
        moved(s1, s2, d, delta, n1, n2),
        p0 <= s1.pos <= t1.len(),
        s1.pos < l || tails(t1, t2, l, d),
    ensures
        at_end(t2, s2) == at_end(t1, s1),
        s1.pos < t1.len() ==> t2[s2.pos] == shift_tokv(t1[s1.pos], delta),
        forall|k: TokenKind| #[trigger] is_kind(t2, s2, k) == is_kind(t1, s1, k),
        moved(bump(t1, s1), bump(t2, s2), d, delta, n1, n2),
        moved(set_trunc(s1), set_trunc(s2), d, delta, n1, n2),
        cur_span(t2, s2) == cur_span(t1, s1).spec_shifted(delta),
        forall|lvl: int| #[trigger] bin_op_at(t2, s2, lvl) == bin_op_at(t1, s1, lvl),
        eof_span(t2) == eof_span(t1).spec_shifted(delta) || s1.pos < l,
{
    if s1.pos < t1.len() {
        assert(s1.pos < l);
        assert(t2[s1.pos + d] == shift_tokv(t1[s1.pos], delta));
    }
    if tails(t1, t2, l, d) {
        assert(t2[(l - 1) + d] == shift_tokv(t1[l - 1], delta));
        assert(t2.last() == t2[(l - 1) + d]);
    }
}

proof fn lemma_moved_err(s1: PS, s2: PS, d: int, delta: i64, n1: int, n2: int, sp: Span, k: DiagKind, m: Seq<char>)
    requires
        moved(s1, s2, d, delta, n1, n2),
    ensures
        moved(with_err(s1, sp, k, m), with_err(s2, sp.spec_shifted(delta), k, m), d, delta, n1, n2),
{
    let a = with_err(s1, sp, k, m);
    let b = with_err(s2, sp.spec_shifted(delta), k, m);
    assert(a.diags.skip(n1) =~= s1.diags.skip(n1).push(crate::diagnostics::error_v(sp, k, m)));
    assert(b.diags.skip(n2) =~= s2.diags.skip(n2).push(crate::diagnostics::error_v(sp.spec_shifted(delta), k, m)));
    assert(shift_diagvs(a.diags.skip(n1), delta) =~= shift_diagvs(s1.diags.skip(n1), delta).push(
        shift_diagv(crate::diagnostics::error_v(sp, k, m), delta),
    ));
}

pub proof fn lemma_agree_expect(
    t1: Seq<TokenV>,
    t2: Seq<TokenV>,
    p0: int,
    l: int,
    d: int,
    delta: i64,
    n1: int,
    n2: int,
    s1: PS,
    s2: PS,
    k: TokenKind,
    what: Seq<char>,
)
    requires
        window(t1, t2, p0, l, d, delta),
        moved(s1, s2, d, delta, n1, n2),
        p0 < s1.pos <= t1.len(),
        tails(t1, t2, l, d) || p_expect(t1, s1, k, what).0.pos < l,
    ensures
        moved(p_expect(t1, s1, k, what).0, p_expect(t2, s2, k, what).0, d, delta, n1, n2),
        p_expect(t2, s2, k, what).1 == shift_opt_span(p_expect(t1, s1, k, what).1, delta),
{
    lemma_mono_expect(t1, s1, k, what);
    lemma_here(t1, t2, p0, l, d, delta, n1, n2, s1, s2);
    if is_kind(t1, s1, k) {
    } else if at_end(t1, s1) {
        lemma_moved_err(set_trunc(s1), set_trunc(s2), d, delta, n1, n2, eof_span(t1), DiagKind::UnexpectedEof, msg_found_eof(what));
    } else {
        assert(t2[(s1.pos - 1) + d] == shift_tokv(t1[s1.pos - 1], delta));
        let pe = prev_end(t1, s1);
        assert(prev_end(t2, s2) == (pe + delta) as u32);
        assert(Span { start: prev_end(t2, s2), end: prev_end(t2, s2) } == Span { start: pe, end: pe }.spec_shifted(delta));
        lemma_moved_err(s1, s2, d, delta, n1, n2, Span { start: pe, end: pe }, DiagKind::ParseError, msg_expected(what));
    }
}

pub proof fn lemma_agree_recover(
    t1: Seq<TokenV>,
    t2: Seq<TokenV>,
    p0: int,
    l: int,
    d: int,
    delta: i64,
    n1: int,
    n2: int,
    s1: PS,
    s2: PS,
)
    requires
        window(t1, t2, p0, l, d, delta),
        moved(s1, s2, d, delta, n1, n2),
        p0 <= s1.pos <= t1.len(),
        tails(t1, t2, l, d) || p_recover(t1, s1).pos < l,
    ensures
        moved(p_recover(t1, s1), p_recover(t2, s2), d, delta, n1, n2),
    decreases t1.len() - s1.pos,
{
    lemma_mono_recover(t1, s1);
    lemma_here(t1, t2, p0, l, d, delta, n1, n2, s1, s2);
    if !(s1.pos < 0 || at_end(t1, s1)) && t1[s1.pos].kind != TokenKind::Semi && !(t1[s1.pos].kind
        == TokenKind::Fn || t1[s1.pos].kind == TokenKind::Let || t1[s1.pos].kind == TokenKind::RBrace) {
        lemma_agree_recover(t1, t2, p0, l, d, delta, n1, n2, bump(t1, s1), bump(t2, s2));
    }
}

pub proof fn lemma_agree_ident_or_missing(
    t1: Seq<TokenV>,
    t2: Seq<TokenV>,
    p0: int,
    l: int,
    d: int,
    delta: i64,
    n1: int,
    n2: int,
    s1: PS,
    s2: PS,
    what: Seq<char>,
)
    requires
        window(t1, t2, p0, l, d, delta),
        moved(s1, s2, d, delta, n1, n2),
        p0 < s1.pos <= t1.len(),
        tails(t1, t2, l, d) || p_ident_or_missing(t1, s1, what).0.pos < l,
    ensures
        moved(p_ident_or_missing(t1, s1, what).0, p_ident_or_missing(t2, s2, what).0, d, delta, n1, n2),
        p_ident_or_missing(t2, s2, what).1 == shift_ident_v(p_ident_or_missing(t1, s1, what).1, delta),
{
    lemma_mono_expect(t1, s1, TokenKind::Ident, what);
    lemma_here(t1, t2, p0, l, d, delta, n1, n2, s1, s2);
    if is_kind(t1, s1, TokenKind::Ident) {
    } else {
        lemma_agree_expect(t1, t2, p0, l, d, delta, n1, n2, s1, s2, TokenKind::Ident, what);
        let a1 = p_expect(t1, s1, TokenKind::Ident, what).0;
        let a2 = p_expect(t2, s2, TokenKind::Ident, what).0;
        lemma_here(t1, t2, p0, l, d, delta, n1, n2, a1, a2);
    }
}

pub proof fn lemma_agree_ident(
    t1: Seq<TokenV>,
    t2: Seq<TokenV>,
    p0: int,
    l: int,
    d: int,
    delta: i64,
    n1: int,
    n2: int,
    s1: PS,
    s2: PS,
    what: Seq<char>,
)
    requires
        window(t1, t2, p0, l, d, delta),
        moved(s1, s2, d, delta, n1, n2),
        p0 < s1.pos <= t1.len(),
        tails(t1, t2, l, d) || p_ident(t1, s1, what).0.pos < l,
    ensures
        moved(p_ident(t1, s1, what).0, p_ident(t2, s2, what).0, d, delta, n1, n2),
        p_ident(t2, s2, what).1 == shift_opt_ident(p_ident(t1, s1, what).1, delta),
{
    lemma_mono_expect(t1, s1, TokenKind::Ident, what);
    lemma_here(t1, t2, p0, l, d, delta, n1, n2, s1, s2);
    if !is_kind(t1, s1, TokenKind::Ident) {
        lemma_agree_expect(t1, t2, p0, l, d, delta, n1, n2, s1, s2, TokenKind::Ident, what);
    }
}

pub proof fn lemma_agree_params(
    t1: Seq<TokenV>,
    t2: Seq<TokenV>,
    p0: int,
    l: int,
    d: int,
    delta: i64,
    n1: int,
    n2: int,
    s1: PS,
    s2: PS,
    acc1: Seq<IdentV>,
    acc2: Seq<IdentV>,
)
    requires
        window(t1, t2, p0, l, d, delta),
        moved(s1, s2, d, delta, n1, n2),
        p0 < s1.pos <= t1.len(),
        acc2 == shift_idents_v(acc1, delta),
        tails(t1, t2, l, d) || p_params(t1, s1, acc1).0.pos < l,
    ensures
        moved(p_params(t1, s1, acc1).0, p_params(t2, s2, acc2).0, d, delta, n1, n2),
        p_params(t2, s2, acc2).1 == shift_idents_v(p_params(t1, s1, acc1).1, delta),
    decreases t1.len() - s1.pos,
{
    lemma_mono_params(t1, s1, acc1);
    lemma_mono_ident(t1, s1, "a parameter name"@);
    let (a1, id1) = p_ident(t1, s1, "a parameter name"@);
    let (a2, id2) = p_ident(t2, s2, "a parameter name"@);
    if id1 is Some && is_kind(t1, a1, TokenKind::Comma) {
        let b1 = bump(t1, a1);
        if s1.pos < b1.pos <= t1.len() {
            lemma_mono_params(t1, b1, acc1.push(id1->0));
        }
    }
    lemma_agree_ident(t1, t2, p0, l, d, delta, n1, n2, s1, s2, "a parameter name"@);
    match id1 {
        Some(i1) => {
            lemma_here(t1, t2, p0, l, d, delta, n1, n2, a1, a2);
            assert(acc2.push(shift_ident_v(i1, delta)) =~= shift_idents_v(acc1.push(i1), delta));
            if is_kind(t1, a1, TokenKind::Comma) {
                let b1 = bump(t1, a1);
                let b2 = bump(t2, a2);
                if s1.pos < b1.pos <= t1.len() {
                    lemma_mono_params(t1, b1, acc1.push(i1));
                    lemma_agree_params(t1, t2, p0, l, d, delta, n1, n2, b1, b2, acc1.push(i1), acc2.push(shift_ident_v(i1, delta)));
                }
            }
        },
        None => {},
    }
}


proof fn lemma_block_end_shift(c: Option<Span>, tl: Option<ExprV>, st: Seq<StmtV>, start: u32, delta: i64)
    ensures
        block_end(shift_opt_span(c, delta), shift_opt_expr(tl, delta), shift_stmts_v(st, delta), (start + delta) as u32)
            == (block_end(c, tl, st, start) + delta) as u32,
{
    crate::shift::lemma_shift_stmts_index(st, delta);
    if st.len() > 0 {
        assert(shift_stmts_v(st, delta).last() == shift_stmt_v(st.last(), delta));
    }
}

pub proof fn lemma_agree_block_from(
    t1: Seq<TokenV>,
    t2: Seq<TokenV>,
    p0: int,
    l: int,
    d: int,
    delta: i64,
    n1: int,
    n2: int,
    s1: PS,
    s2: PS,
    start: u32,
)
    requires
        window(t1, t2, p0, l, d, delta),
        moved(s1, s2, d, delta, n1, n2),
        p0 < s1.pos <= t1.len(),
        tails(t1, t2, l, d) || p_block_from(t1, s1, start).0.pos < l,
    ensures
        moved(p_block_from(t1, s1, start).0, p_block_from(t2, s2, (start + delta) as u32).0, d, delta, n1, n2),
        p_block_from(t2, s2, (start + delta) as u32).1 == shift_block_v(p_block_from(t1, s1, start).1, delta),
    decreases t1.len() - s1.pos, 26int,
{
    lemma_mono_block_items(t1, s1, seq![]);
    let (a1, st1, tl1) = p_block_items(t1, s1, seq![]);
    lemma_mono_expect(t1, a1, TokenKind::RBrace, "`}`"@);
    assert(shift_stmts_v(Seq::<StmtV>::empty(), delta) =~= Seq::<StmtV>::empty());
    lemma_agree_block_items(t1, t2, p0, l, d, delta, n1, n2, s1, s2, seq![], seq![]);
    let (a2, st2, tl2) = p_block_items(t2, s2, seq![]);
    lemma_agree_expect(t1, t2, p0, l, d, delta, n1, n2, a1, a2, TokenKind::RBrace, "`}`"@);
    let c1 = p_expect(t1, a1, TokenKind::RBrace, "`}`"@).1;
    lemma_block_end_shift(c1, tl1, st1, start, delta);
}

pub proof fn lemma_agree_block(
    t1: Seq<TokenV>,
    t2: Seq<TokenV>,
    p0: int,
    l: int,
    d: int,
    delta: i64,
    n1: int,
    n2: int,
    s1: PS,
    s2: PS,
)
    requires
        window(t1, t2, p0, l, d, delta),
        moved(s1, s2, d, delta, n1, n2),
        p0 < s1.pos <= t1.len(),
        tails(t1, t2, l, d) || p_block(t1, s1).0.pos < l,
    ensures
        moved(p_block(t1, s1).0, p_block(t2, s2).0, d, delta, n1, n2),
        p_block(t2, s2).1 == shift_block_v(p_block(t1, s1).1, delta),
    decreases t1.len() - s1.pos, 27int,
{
    lemma_mono_expect(t1, s1, TokenKind::LBrace, "`{`"@);
    let (a1, open1) = p_expect(t1, s1, TokenKind::LBrace, "`{`"@);
    let start1 = match open1 {
        Some(sp) => sp.start,
        None => cur_span(t1, a1).start,
    };
    lemma_mono_block_from(t1, a1, start1);
    lemma_agree_expect(t1, t2, p0, l, d, delta, n1, n2, s1, s2, TokenKind::LBrace, "`{`"@);
    let a2 = p_expect(t2, s2, TokenKind::LBrace, "`{`"@).0;
    lemma_here(t1, t2, p0, l, d, delta, n1, n2, a1, a2);
    lemma_agree_block_from(t1, t2, p0, l, d, delta, n1, n2, a1, a2, start1);
}

pub proof fn lemma_agree_block_items(
    t1: Seq<TokenV>,
    t2: Seq<TokenV>,
    p0: int,
    l: int,
    d: int,
    delta: i64,
    n1: int,
    n2: int,
    s1: PS,
    s2: PS,
    stmts1: Seq<StmtV>,
    stmts2: Seq<StmtV>,
)
    requires
        window(t1, t2, p0, l, d, delta),
        moved(s1, s2, d, delta, n1, n2),
        p0 < s1.pos <= t1.len(),
        stmts2 == shift_stmts_v(stmts1, delta),
        tails(t1, t2, l, d) || p_block_items(t1, s1, stmts1).0.pos < l,
    ensures
        moved(p_block_items(t1, s1, stmts1).0, p_block_items(t2, s2, stmts2).0, d, delta, n1, n2),
        p_block_items(t2, s2, stmts2).1 == shift_stmts_v(p_block_items(t1, s1, stmts1).1, delta),
        p_block_items(t2, s2, stmts2).2 == shift_opt_expr(p_block_items(t1, s1, stmts1).2, delta),
    decreases t1.len() - s1.pos, 25int,
{
    lemma_mono_block_items(t1, s1, stmts1);
    lemma_here(t1, t2, p0, l, d, delta, n1, n2, s1, s2);
    if s1.pos < 0 || at_end(t1, s1) {
    } else if t1[s1.pos].kind == TokenKind::RBrace {
    } else if t1[s1.pos].kind == TokenKind::Fn || t1[s1.pos].kind == TokenKind::Let {
        let (a1, st1) = if t1[s1.pos].kind == TokenKind::Fn {
            lemma_mono_fn(t1, s1);
            p_fn(t1, s1)
        } else {
            lemma_mono_let(t1, s1);
            p_let(t1, s1)
        };
        lemma_mono_block_items(t1, a1, stmts1.push(st1));
        let (a2, st2) = if t1[s1.pos].kind == TokenKind::Fn {
            lemma_agree_fn(t1, t2, p0, l, d, delta, n1, n2, s1, s2);
            p_fn(t2, s2)
        } else {
            lemma_agree_let(t1, t2, p0, l, d, delta, n1, n2, s1, s2);
            p_let(t2, s2)
        };
        crate::shift::lemma_shift_stmts_push(stmts1, st1, delta);
        lemma_agree_block_items(t1, t2, p0, l, d, delta, n1, n2, a1, a2, stmts1.push(st1), stmts2.push(st2));
    } else {
        lemma_mono_expr(t1, s1);
        let (a1, e1) = p_expr(t1, s1);
        if is_kind(t1, a1, TokenKind::Semi) {
            let semi = t1[a1.pos].span;
            let b1 = bump(t1, a1);
            let st1 = StmtV {
                kind: StmtKindV::Expr { expr: e1 },
                span: Span { start: e1.span.start, end: semi.end },
            };
            lemma_mono_block_items(t1, b1, stmts1.push(st1));
            lemma_agree_expr(t1, t2, p0, l, d, delta, n1, n2, s1, s2);
            let a2 = p_expr(t2, s2).0;
            lemma_here(t1, t2, p0, l, d, delta, n1, n2, a1, a2);
            let b2 = bump(t2, a2);
            crate::shift::lemma_shift_stmts_push(stmts1, st1, delta);
            lemma_agree_block_items(t1, t2, p0, l, d, delta, n1, n2, b1, b2, stmts1.push(st1), stmts2.push(shift_stmt_v(st1, delta)));
        } else if is_kind(t1, a1, TokenKind::RBrace) || at_end(t1, a1) {
            lemma_agree_expr(t1, t2, p0, l, d, delta, n1, n2, s1, s2);
            let a2 = p_expr(t2, s2).0;
            lemma_here(t1, t2, p0, l, d, delta, n1, n2, a1, a2);
        } else {
            let e1s = with_err(a1, cur_span(t1, a1), DiagKind::ParseError, "expected `;` or `}`"@);
            lemma_mono_recover(t1, e1s);
            let r1 = p_recover(t1, e1s);
            let st1 = StmtV { kind: StmtKindV::Expr { expr: e1 }, span: e1.span };
            lemma_mono_block_items(t1, r1, stmts1.push(st1));
            lemma_agree_expr(t1, t2, p0, l, d, delta, n1, n2, s1, s2);
            let a2 = p_expr(t2, s2).0;
            lemma_here(t1, t2, p0, l, d, delta, n1, n2, a1, a2);
            let e2s = with_err(a2, cur_span(t2, a2), DiagKind::ParseError, "expected `;` or `}`"@);
            lemma_moved_err(a1, a2, d, delta, n1, n2, cur_span(t1, a1), DiagKind::ParseError, "expected `;` or `}`"@);
            lemma_agree_recover(t1, t2, p0, l, d, delta, n1, n2, e1s, e2s);
            let r2 = p_recover(t2, e2s);
            crate::shift::lemma_shift_stmts_push(stmts1, st1, delta);
            lemma_agree_block_items(t1, t2, p0, l, d, delta, n1, n2, r1, r2, stmts1.push(st1), stmts2.push(shift_stmt_v(st1, delta)));
        }
    }
}

pub proof fn lemma_agree_fn(
    t1: Seq<TokenV>,
    t2: Seq<TokenV>,
    p0: int,
    l: int,
    d: int,
    delta: i64,
    n1: int,
    n2: int,
    s1: PS,
    s2: PS,
)
    requires
        window(t1, t2, p0, l, d, delta),
        moved(s1, s2, d, delta, n1, n2),
        p0 <= s1.pos < t1.len(),
        tails(t1, t2, l, d) || p_fn(t1, s1).0.pos < l,
    ensures
        moved(p_fn(t1, s1).0, p_fn(t2, s2).0, d, delta, n1, n2),
        p_fn(t2, s2).1 == shift_stmt_v(p_fn(t1, s1).1, delta),
    decreases t1.len() - s1.pos, 24int,
{
    lemma_mono_fn(t1, s1);
    lemma_here(t1, t2, p0, l, d, delta, n1, n2, s1, s2);
    let a1 = bump(t1, s1);
    let a2 = bump(t2, s2);
    lemma_mono_ident_or_missing(t1, a1, "a function name"@);
    let (b1, name1) = p_ident_or_missing(t1, a1, "a function name"@);
    lemma_mono_expect(t1, b1, TokenKind::LParen, "`(`"@);
    let c1 = p_expect(t1, b1, TokenKind::LParen, "`(`"@).0;
    let (e1, params1) = if !is_kind(t1, c1, TokenKind::RParen) {
        lemma_mono_params(t1, c1, seq![]);
        p_params(t1, c1, seq![])
    } else {
        (c1, seq![])
    };
    lemma_mono_expect(t1, e1, TokenKind::RParen, "`)`"@);
    let f1 = p_expect(t1, e1, TokenKind::RParen, "`)`"@).0;
    lemma_mono_block(t1, f1);
    // The same steps on the other side.
    lemma_agree_ident_or_missing(t1, t2, p0, l, d, delta, n1, n2, a1, a2, "a function name"@);
    let b2 = p_ident_or_missing(t2, a2, "a function name"@).0;
    lemma_agree_expect(t1, t2, p0, l, d, delta, n1, n2, b1, b2, TokenKind::LParen, "`(`"@);
    let c2 = p_expect(t2, b2, TokenKind::LParen, "`(`"@).0;
    lemma_here(t1, t2, p0, l, d, delta, n1, n2, c1, c2);
    let e2 = if !is_kind(t1, c1, TokenKind::RParen) {
        assert(shift_idents_v(Seq::<IdentV>::empty(), delta) =~= Seq::<IdentV>::empty());
        lemma_agree_params(t1, t2, p0, l, d, delta, n1, n2, c1, c2, seq![], seq![]);
        p_params(t2, c2, seq![]).0
    } else {
        assert(shift_idents_v(Seq::<IdentV>::empty(), delta) =~= Seq::<IdentV>::empty());
        c2
    };
    lemma_agree_expect(t1, t2, p0, l, d, delta, n1, n2, e1, e2, TokenKind::RParen, "`)`"@);
    let f2 = p_expect(t2, e2, TokenKind::RParen, "`)`"@).0;
    lemma_agree_block(t1, t2, p0, l, d, delta, n1, n2, f1, f2);
}

pub proof fn lemma_agree_let(
    t1: Seq<TokenV>,
    t2: Seq<TokenV>,
    p0: int,
    l: int,
    d: int,
    delta: i64,
    n1: int,
    n2: int,
    s1: PS,
    s2: PS,
)
    requires
        window(t1, t2, p0, l, d, delta),
        moved(s1, s2, d, delta, n1, n2),
        p0 <= s1.pos < t1.len(),
        tails(t1, t2, l, d) || p_let(t1, s1).0.pos < l,
    ensures
        moved(p_let(t1, s1).0, p_let(t2, s2).0, d, delta, n1, n2),
        p_let(t2, s2).1 == shift_stmt_v(p_let(t1, s1).1, delta),
    decreases t1.len() - s1.pos, 24int,
{
    lemma_mono_let(t1, s1);
    lemma_here(t1, t2, p0, l, d, delta, n1, n2, s1, s2);
    let a1 = bump(t1, s1);
    let a2 = bump(t2, s2);
    lemma_mono_ident_or_missing(t1, a1, "a variable name"@);
    let (b1, name1) = p_ident_or_missing(t1, a1, "a variable name"@);
    lemma_mono_expect(t1, b1, TokenKind::Eq, "`=`"@);
    let c1 = p_expect(t1, b1, TokenKind::Eq, "`=`"@).0;
    lemma_mono_expr(t1, c1);
    let (e1, value1) = p_expr(t1, c1);
    lemma_mono_expect(t1, e1, TokenKind::Semi, "`;`"@);
    lemma_agree_ident_or_missing(t1, t2, p0, l, d, delta, n1, n2, a1, a2, "a variable name"@);
    let b2 = p_ident_or_missing(t2, a2, "a variable name"@).0;
    lemma_agree_expect(t1, t2, p0, l, d, delta, n1, n2, b1, b2, TokenKind::Eq, "`=`"@);
    let c2 = p_expect(t2, b2, TokenKind::Eq, "`=`"@).0;
    lemma_agree_expr(t1, t2, p0, l, d, delta, n1, n2, c1, c2);
    let e2 = p_expr(t2, c2).0;
    lemma_agree_expect(t1, t2, p0, l, d, delta, n1, n2, e1, e2, TokenKind::Semi, "`;`"@);
}

pub proof fn lemma_agree_args(
    t1: Seq<TokenV>,
    t2: Seq<TokenV>,
    p0: int,
    l: int,
    d: int,
    delta: i64,
    n1: int,
    n2: int,
    s1: PS,
    s2: PS,
    acc1: Seq<ExprV>,
    acc2: Seq<ExprV>,
)
    requires
        window(t1, t2, p0, l, d, delta),
        moved(s1, s2, d, delta, n1, n2),
        p0 < s1.pos <= t1.len(),
        acc2 == shift_exprs_v(acc1, delta),
        tails(t1, t2, l, d) || p_args(t1, s1, acc1).0.pos < l,
    ensures
        moved(p_args(t1, s1, acc1).0, p_args(t2, s2, acc2).0, d, delta, n1, n2),
        p_args(t2, s2, acc2).1 == shift_exprs_v(p_args(t1, s1, acc1).1, delta),
    decreases t1.len() - s1.pos, 24int,
{
    lemma_mono_args(t1, s1, acc1);
    lemma_mono_expr(t1, s1);
    let (a1, e1) = p_expr(t1, s1);
    crate::shift::lemma_shift_exprs_push(acc1, e1, delta);
    if is_kind(t1, a1, TokenKind::Comma) {
        let b1 = bump(t1, a1);
        if s1.pos < b1.pos <= t1.len() {
            lemma_mono_args(t1, b1, acc1.push(e1));
        }
    }
    lemma_agree_expr(t1, t2, p0, l, d, delta, n1, n2, s1, s2);
    let a2 = p_expr(t2, s2).0;
    lemma_here(t1, t2, p0, l, d, delta, n1, n2, a1, a2);
    if is_kind(t1, a1, TokenKind::Comma) {
        let b1 = bump(t1, a1);
        let b2 = bump(t2, a2);
        if s1.pos < b1.pos <= t1.len() {
            lemma_agree_args(t1, t2, p0, l, d, delta, n1, n2, b1, b2, acc1.push(e1), acc2.push(shift_expr_v(e1, delta)));
        }
    }
}

pub proof fn lemma_agree_expr(
    t1: Seq<TokenV>,
    t2: Seq<TokenV>,
    p0: int,
    l: int,
    d: int,
    delta: i64,
    n1: int,
    n2: int,
    s1: PS,
    s2: PS,
)
    requires
        window(t1, t2, p0, l, d, delta),
        moved(s1, s2, d, delta, n1, n2),
        p0 <= s1.pos <= t1.len(),
        tails(t1, t2, l, d) || p_expr(t1, s1).0.pos < l,
    ensures
        moved(p_expr(t1, s1).0, p_expr(t2, s2).0, d, delta, n1, n2),
        p_expr(t2, s2).1 == shift_expr_v(p_expr(t1, s1).1, delta),
    decreases t1.len() - s1.pos, 23int,
{
    lemma_agree_bin(t1, t2, p0, l, d, delta, n1, n2, s1, s2, 0);
}

pub proof fn lemma_agree_bin(
    t1: Seq<TokenV>,
    t2: Seq<TokenV>,
    p0: int,
    l: int,
    d: int,
    delta: i64,
    n1: int,
    n2: int,
    s1: PS,
    s2: PS,
    lvl: int,
)
    requires
        window(t1, t2, p0, l, d, delta),
        moved(s1, s2, d, delta, n1, n2),
        p0 <= s1.pos <= t1.len(),
        0 <= lvl <= 3,
        tails(t1, t2, l, d) || p_bin(t1, s1, lvl).0.pos < l,
    ensures
        moved(p_bin(t1, s1, lvl).0, p_bin(t2, s2, lvl).0, d, delta, n1, n2),
        p_bin(t2, s2, lvl).1 == shift_expr_v(p_bin(t1, s1, lvl).1, delta),
    decreases t1.len() - s1.pos, lvl_rank(lvl),
{
    let (a1, lhs1) = if lvl == 3 {
        lemma_mono_unary(t1, s1);
        p_unary(t1, s1)
    } else {
        lemma_mono_bin(t1, s1, lvl + 1);
        p_bin(t1, s1, lvl + 1)
    };
    lemma_mono_bin_loop(t1, a1, lvl, lhs1);
    let (a2, lhs2) = if lvl == 3 {
        lemma_agree_unary(t1, t2, p0, l, d, delta, n1, n2, s1, s2);
        p_unary(t2, s2)
    } else {
        lemma_agree_bin(t1, t2, p0, l, d, delta, n1, n2, s1, s2, lvl + 1);
        p_bin(t2, s2, lvl + 1)
    };
    lemma_agree_bin_loop(t1, t2, p0, l, d, delta, n1, n2, a1, a2, lvl, lhs1, lhs2);
}

pub proof fn lemma_agree_bin_loop(
    t1: Seq<TokenV>,
    t2: Seq<TokenV>,
    p0: int,
    l: int,
    d: int,
    delta: i64,
    n1: int,
    n2: int,
    s1: PS,
    s2: PS,
    lvl: int,
    lhs1: ExprV,
    lhs2: ExprV,
)
    requires
        window(t1, t2, p0, l, d, delta),
        moved(s1, s2, d, delta, n1, n2),
        p0 <= s1.pos <= t1.len(),
        0 <= lvl <= 3,
        lhs2 == shift_expr_v(lhs1, delta),
        tails(t1, t2, l, d) || p_bin_loop(t1, s1, lvl, lhs1).0.pos < l,
    ensures
        moved(p_bin_loop(t1, s1, lvl, lhs1).0, p_bin_loop(t2, s2, lvl, lhs2).0, d, delta, n1, n2),
        p_bin_loop(t2, s2, lvl, lhs2).1 == shift_expr_v(p_bin_loop(t1, s1, lvl, lhs1).1, delta),
    decreases t1.len() - s1.pos, lvl_rank(lvl) - 1,
{
    lemma_mono_bin_loop(t1, s1, lvl, lhs1);
    lemma_here(t1, t2, p0, l, d, delta, n1, n2, s1, s2);
    match bin_op_at(t1, s1, lvl) {
        Some(op) => {
            let b1 = bump(t1, s1);
            let b2 = bump(t2, s2);
            let (c1, rhs1) = if lvl == 3 {
                lemma_mono_unary(t1, b1);
                p_unary(t1, b1)
            } else {
                lemma_mono_bin(t1, b1, lvl + 1);
                p_bin(t1, b1, lvl + 1)
            };
            if s1.pos < c1.pos <= t1.len() {
                lemma_mono_bin_loop(t1, c1, lvl, binary_v(lhs1, op, rhs1));
            }
            let (c2, rhs2) = if lvl == 3 {
                lemma_agree_unary(t1, t2, p0, l, d, delta, n1, n2, b1, b2);
                p_unary(t2, b2)
            } else {
                lemma_agree_bin(t1, t2, p0, l, d, delta, n1, n2, b1, b2, lvl + 1);
                p_bin(t2, b2, lvl + 1)
            };
            assert(binary_v(lhs2, op, rhs2) == shift_expr_v(binary_v(lhs1, op, rhs1), delta));
            if s1.pos < c1.pos <= t1.len() {
                lemma_agree_bin_loop(t1, t2, p0, l, d, delta, n1, n2, c1, c2, lvl, binary_v(lhs1, op, rhs1), binary_v(lhs2, op, rhs2));
            }
        },
        None => {},
    }
}

pub proof fn lemma_agree_unary(
    t1: Seq<TokenV>,
    t2: Seq<TokenV>,
    p0: int,
    l: int,
    d: int,
    delta: i64,
    n1: int,
    n2: int,
    s1: PS,
    s2: PS,
)
    requires
        window(t1, t2, p0, l, d, delta),
        moved(s1, s2, d, delta, n1, n2),
        p0 <= s1.pos <= t1.len(),
        tails(t1, t2, l, d) || p_unary(t1, s1).0.pos < l,
    ensures
        moved(p_unary(t1, s1).0, p_unary(t2, s2).0, d, delta, n1, n2),
        p_unary(t2, s2).1 == shift_expr_v(p_unary(t1, s1).1, delta),
    decreases t1.len() - s1.pos, 14int,
{
    lemma_mono_unary(t1, s1);
    lemma_here(t1, t2, p0, l, d, delta, n1, n2, s1, s2);
    if is_kind(t1, s1, TokenKind::Minus) || is_kind(t1, s1, TokenKind::Bang) {
        lemma_mono_unary(t1, bump(t1, s1));
        lemma_agree_unary(t1, t2, p0, l, d, delta, n1, n2, bump(t1, s1), bump(t2, s2));
    } else {
        lemma_agree_postfix(t1, t2, p0, l, d, delta, n1, n2, s1, s2);
    }
}

pub proof fn lemma_agree_postfix(
    t1: Seq<TokenV>,
    t2: Seq<TokenV>,
    p0: int,
    l: int,
    d: int,
    delta: i64,
    n1: int,
    n2: int,
    s1: PS,
    s2: PS,
)
    requires
        window(t1, t2, p0, l, d, delta),
        moved(s1, s2, d, delta, n1, n2),
        p0 <= s1.pos <= t1.len(),
        tails(t1, t2, l, d) || p_postfix(t1, s1).0.pos < l,
    ensures
        moved(p_postfix(t1, s1).0, p_postfix(t2, s2).0, d, delta, n1, n2),
        p_postfix(t2, s2).1 == shift_expr_v(p_postfix(t1, s1).1, delta),
    decreases t1.len() - s1.pos, 13int,
{
    lemma_mono_primary(t1, s1);
    let (a1, e1) = p_primary(t1, s1);
    lemma_mono_postfix_loop(t1, a1, e1);
    lemma_agree_primary(t1, t2, p0, l, d, delta, n1, n2, s1, s2);
    let (a2, e2) = p_primary(t2, s2);
    lemma_agree_postfix_loop(t1, t2, p0, l, d, delta, n1, n2, a1, a2, e1, e2);
}

pub proof fn lemma_agree_postfix_loop(
    t1: Seq<TokenV>,
    t2: Seq<TokenV>,
    p0: int,
    l: int,
    d: int,
    delta: i64,
    n1: int,
    n2: int,
    s1: PS,
    s2: PS,
    e1: ExprV,
    e2: ExprV,
)
    requires
        window(t1, t2, p0, l, d, delta),
        moved(s1, s2, d, delta, n1, n2),
        p0 <= s1.pos <= t1.len(),
        e2 == shift_expr_v(e1, delta),
        tails(t1, t2, l, d) || p_postfix_loop(t1, s1, e1).0.pos < l,
    ensures
        moved(p_postfix_loop(t1, s1, e1).0, p_postfix_loop(t2, s2, e2).0, d, delta, n1, n2),
        p_postfix_loop(t2, s2, e2).1 == shift_expr_v(p_postfix_loop(t1, s1, e1).1, delta),
    decreases t1.len() - s1.pos, 12int,
{
    lemma_mono_postfix_loop(t1, s1, e1);
    lemma_here(t1, t2, p0, l, d, delta, n1, n2, s1, s2);
    if is_kind(t1, s1, TokenKind::LParen) {
        let b1 = bump(t1, s1);
        let b2 = bump(t2, s2);
        let (c1, args1) = if !is_kind(t1, b1, TokenKind::RParen) {
            lemma_mono_args(t1, b1, seq![]);
            p_args(t1, b1, seq![])
        } else {
            (b1, seq![])
        };
        lemma_mono_expect(t1, c1, TokenKind::RParen, "`)`"@);
        let (f1, close1) = p_expect(t1, c1, TokenKind::RParen, "`)`"@);
        let end1 = match close1 {
            Some(sp) => sp.end,
            None => prev_end(t1, f1),
        };
        let call1 = ExprV {
            kind: ExprKindV::Call { callee: Box::new(e1), args: args1 },
            span: Span { start: e1.span.start, end: end1 },
        };
        if s1.pos < f1.pos <= t1.len() {
            lemma_mono_postfix_loop(t1, f1, call1);
        }
        lemma_here(t1, t2, p0, l, d, delta, n1, n2, b1, b2);
        let c2 = if !is_kind(t1, b1, TokenKind::RParen) {
            assert(shift_exprs_v(Seq::<ExprV>::empty(), delta) =~= Seq::<ExprV>::empty());
            lemma_agree_args(t1, t2, p0, l, d, delta, n1, n2, b1, b2, seq![], seq![]);
            p_args(t2, b2, seq![]).0
        } else {
            assert(shift_exprs_v(Seq::<ExprV>::empty(), delta) =~= Seq::<ExprV>::empty());
            b2
        };
        lemma_agree_expect(t1, t2, p0, l, d, delta, n1, n2, c1, c2, TokenKind::RParen, "`)`"@);
        let f2 = p_expect(t2, c2, TokenKind::RParen, "`)`"@).0;
        if close1 is None {
            assert(t2[(f1.pos - 1) + d] == shift_tokv(t1[f1.pos - 1], delta));
        }
        let (c2b, args2) = if !is_kind(t2, b2, TokenKind::RParen) {
            p_args(t2, b2, seq![])
        } else {
            (b2, seq![])
        };
        let close2 = p_expect(t2, c2, TokenKind::RParen, "`)`"@).1;
        let end2 = match close2 {
            Some(sp) => sp.end,
            None => prev_end(t2, f2),
        };
        let call2 = ExprV {
            kind: ExprKindV::Call { callee: Box::new(e2), args: args2 },
            span: Span { start: e2.span.start, end: end2 },
        };
        assert(call2 == shift_expr_v(call1, delta));
        if s1.pos < f1.pos <= t1.len() {
            lemma_agree_postfix_loop(t1, t2, p0, l, d, delta, n1, n2, f1, f2, call1, call2);
        }
    }
}

pub proof fn lemma_agree_primary(
    t1: Seq<TokenV>,
    t2: Seq<TokenV>,
    p0: int,
    l: int,
    d: int,
    delta: i64,
    n1: int,
    n2: int,
    s1: PS,
    s2: PS,
)
    requires
        window(t1, t2, p0, l, d, delta),
        moved(s1, s2, d, delta, n1, n2),
        p0 <= s1.pos <= t1.len(),
        tails(t1, t2, l, d) || p_primary(t1, s1).0.pos < l,
    ensures
        moved(p_primary(t1, s1).0, p_primary(t2, s2).0, d, delta, n1, n2),
        p_primary(t2, s2).1 == shift_expr_v(p_primary(t1, s1).1, delta),
    decreases t1.len() - s1.pos, 11int,
{
    lemma_mono_primary(t1, s1);
    lemma_here(t1, t2, p0, l, d, delta, n1, n2, s1, s2);
    if s1.pos < 0 || at_end(t1, s1) {
        lemma_moved_err(set_trunc(s1), set_trunc(s2), d, delta, n1, n2, eof_span(t1), DiagKind::UnexpectedEof, "expected an expression"@);
    } else {
        let tok = t1[s1.pos];
        let k = tok.kind;
        if k == TokenKind::LParen {
            let b1 = bump(t1, s1);
            let b2 = bump(t2, s2);
            lemma_mono_expr(t1, b1);
            let (c1, inner1) = p_expr(t1, b1);
            lemma_mono_expect(t1, c1, TokenKind::RParen, "`)`"@);
            lemma_agree_expr(t1, t2, p0, l, d, delta, n1, n2, b1, b2);
            let c2 = p_expr(t2, b2).0;
            lemma_agree_expect(t1, t2, p0, l, d, delta, n1, n2, c1, c2, TokenKind::RParen, "`)`"@);
        } else if k == TokenKind::LBrace {
            lemma_mono_block_from(t1, bump(t1, s1), tok.span.start);
            lemma_agree_block_from(t1, t2, p0, l, d, delta, n1, n2, bump(t1, s1), bump(t2, s2), tok.span.start);
        } else if k == TokenKind::If {
            lemma_agree_if(t1, t2, p0, l, d, delta, n1, n2, s1, s2);
        } else if k == TokenKind::Int || k == TokenKind::True || k == TokenKind::False || k == TokenKind::Ident {
        } else {
            lemma_moved_err(s1, s2, d, delta, n1, n2, tok.span, DiagKind::ParseError, "expected an expression"@);
            let w1 = with_err(s1, tok.span, DiagKind::ParseError, "expected an expression"@);
            let w2 = with_err(s2, tok.span.spec_shifted(delta), DiagKind::ParseError, "expected an expression"@);
            lemma_here(t1, t2, p0, l, d, delta, n1, n2, w1, w2);
        }
    }
}

#[verifier::spinoff_prover]
#[verifier::rlimit(60)]
pub proof fn lemma_agree_if(
    t1: Seq<TokenV>,
    t2: Seq<TokenV>,
    p0: int,
    l: int,
    d: int,
    delta: i64,
    n1: int,
    n2: int,
    s1: PS,
    s2: PS,
)
    requires
        window(t1, t2, p0, l, d, delta),
        moved(s1, s2, d, delta, n1, n2),
        p0 <= s1.pos < t1.len(),
        tails(t1, t2, l, d) || p_if(t1, s1).0.pos < l,
    ensures
        moved(p_if(t1, s1).0, p_if(t2, s2).0, d, delta, n1, n2),
        p_if(t2, s2).1 == shift_expr_v(p_if(t1, s1).1, delta),
    decreases t1.len() - s1.pos, 10int,
{
    lemma_mono_if(t1, s1);
    lemma_here(t1, t2, p0, l, d, delta, n1, n2, s1, s2);
    if 0 <= s1.pos < t1.len() {
        let b1 = bump(t1, s1);
        let b2 = bump(t2, s2);
        lemma_mono_expr(t1, b1);
        let (c1, cond1) = p_expr(t1, b1);
        lemma_mono_block(t1, c1);
        let (e1, then1) = p_block(t1, c1);
        if s1.pos < e1.pos <= t1.len() && is_kind(t1, e1, TokenKind::Else) {
            lemma_mono_block(t1, bump(t1, e1));
        }
        lemma_agree_expr(t1, t2, p0, l, d, delta, n1, n2, b1, b2);
        let c2 = p_expr(t2, b2).0;
        lemma_agree_block(t1, t2, p0, l, d, delta, n1, n2, c1, c2);
        let e2 = p_block(t2, c2).0;
        lemma_here(t1, t2, p0, l, d, delta, n1, n2, e1, e2);
        let start1 = cur_span(t1, s1).start;
        let (c2x, cond2) = p_expr(t2, b2);
        let (e2x, then2) = p_block(t2, c2);
        assert(cond2 == shift_expr_v(cond1, delta));
        assert(then2 == shift_block_v(then1, delta));
        if s1.pos < e1.pos <= t1.len() && is_kind(t1, e1, TokenKind::Else) {
            lemma_agree_block(t1, t2, p0, l, d, delta, n1, n2, bump(t1, e1), bump(t2, e2));
            let (g1, eb1) = p_block(t1, bump(t1, e1));
            let (g2, eb2) = p_block(t2, bump(t2, e2));
            let r1 = ExprV {
                kind: ExprKindV::If { cond: Box::new(cond1), then_block: then1, else_block: Some(eb1) },
                span: Span { start: start1, end: eb1.span.end },
            };
            assert(p_if(t1, s1).1 == r1);
            assert(p_if(t2, s2).1 == shift_expr_v(r1, delta));
        } else {
            let r1 = ExprV {
                kind: ExprKindV::If { cond: Box::new(cond1), then_block: then1, else_block: None },
                span: Span { start: start1, end: then1.span.end },
            };
            assert(p_if(t1, s1).1 == r1);
            assert(p_if(t2, s2).1 == shift_expr_v(r1, delta));
        }
    }
}


/// A construct that must read one more token and finds the end raises the
/// truncation flag.
pub proof fn lemma_expect_at_end(t: Seq<TokenV>, s: PS, k: TokenKind, what: Seq<char>)
    requires
        s.pos >= t.len(),
    ensures
        p_expect(t, s, k, what).0.trunc,
        p_expect(t, s, k, what).0.pos == s.pos,
{
}

/// Consuming or rejecting the token where the parser stands reads only that
/// token (and the one before it).
pub proof fn lemma_agree_expect_at(
    t1: Seq<TokenV>,
    t2: Seq<TokenV>,
    p0: int,
    l: int,
    d: int,
    delta: i64,
    n1: int,
    n2: int,
    s1: PS,
    s2: PS,
    k: TokenKind,
    what: Seq<char>,
)
    requires
        window(t1, t2, p0, l, d, delta),
        moved(s1, s2, d, delta, n1, n2),
        p0 < s1.pos <= t1.len(),
        s1.pos < l || tails(t1, t2, l, d),
    ensures
        moved(p_expect(t1, s1, k, what).0, p_expect(t2, s2, k, what).0, d, delta, n1, n2),
        p_expect(t2, s2, k, what).1 == shift_opt_span(p_expect(t1, s1, k, what).1, delta),
{
    lemma_here(t1, t2, p0, l, d, delta, n1, n2, s1, s2);
    if is_kind(t1, s1, k) {
    } else if at_end(t1, s1) {
        lemma_moved_err(set_trunc(s1), set_trunc(s2), d, delta, n1, n2, eof_span(t1), DiagKind::UnexpectedEof, msg_found_eof(what));
    } else {
        assert(t2[(s1.pos - 1) + d] == shift_tokv(t1[s1.pos - 1], delta));
        let pe = prev_end(t1, s1);
        assert(Span { start: prev_end(t2, s2), end: prev_end(t2, s2) } == Span { start: pe, end: pe }.spec_shifted(delta));
        lemma_moved_err(s1, s2, d, delta, n1, n2, Span { start: pe, end: pe }, DiagKind::ParseError, msg_expected(what));
    }
}

/// The parse runs to the end of `t1`, where the window ends, without raising
/// the truncation flag.
pub open spec fn clean(t1: Seq<TokenV>, l: int, s1: PS, o1: PS) -> bool {
    l == t1.len() && !s1.trunc && !o1.trunc
}

pub proof fn lemma_clean_recover(
    t1: Seq<TokenV>,
    t2: Seq<TokenV>,
    p0: int,
    l: int,
    d: int,
    delta: i64,
    n1: int,
    n2: int,
    s1: PS,
    s2: PS,
)
    requires
        window(t1, t2, p0, l, d, delta),
        moved(s1, s2, d, delta, n1, n2),
        p0 <= s1.pos <= t1.len(),
        clean(t1, l, s1, p_recover(t1, s1)),
    ensures
        moved(p_recover(t1, s1), p_recover(t2, s2), d, delta, n1, n2),
    decreases t1.len() - s1.pos,
{
    lemma_mono_recover(t1, s1);
    if s1.pos < 0 || at_end(t1, s1) {
    } else {
        lemma_here(t1, t2, p0, l, d, delta, n1, n2, s1, s2);
        if t1[s1.pos].kind != TokenKind::Semi && !(t1[s1.pos].kind == TokenKind::Fn || t1[s1.pos].kind
            == TokenKind::Let || t1[s1.pos].kind == TokenKind::RBrace) {
            lemma_clean_recover(t1, t2, p0, l, d, delta, n1, n2, bump(t1, s1), bump(t2, s2));
        }
    }
}

pub proof fn lemma_clean_block_from(
    t1: Seq<TokenV>,
    t2: Seq<TokenV>,
    p0: int,
    l: int,
    d: int,
    delta: i64,
    n1: int,
    n2: int,
    s1: PS,
    s2: PS,
    start: u32,
)
    requires
        window(t1, t2, p0, l, d, delta),
        moved(s1, s2, d, delta, n1, n2),
        p0 < s1.pos <= t1.len(),
        clean(t1, l, s1, p_block_from(t1, s1, start).0),
    ensures
        moved(p_block_from(t1, s1, start).0, p_block_from(t2, s2, (start + delta) as u32).0, d, delta, n1, n2),
        p_block_from(t2, s2, (start + delta) as u32).1 == shift_block_v(p_block_from(t1, s1, start).1, delta),
{
    lemma_mono_block_items(t1, s1, seq![]);
    let (a1, st1, tl1) = p_block_items(t1, s1, seq![]);
    lemma_mono_expect(t1, a1, TokenKind::RBrace, "`}`"@);
    if a1.pos >= t1.len() {
        lemma_expect_at_end(t1, a1, TokenKind::RBrace, "`}`"@);
    }
    assert(shift_stmts_v(Seq::<StmtV>::empty(), delta) =~= Seq::<StmtV>::empty());
    lemma_agree_block_items(t1, t2, p0, l, d, delta, n1, n2, s1, s2, seq![], seq![]);
    let (a2, st2, tl2) = p_block_items(t2, s2, seq![]);
    lemma_agree_expect_at(t1, t2, p0, l, d, delta, n1, n2, a1, a2, TokenKind::RBrace, "`}`"@);
    let c1 = p_expect(t1, a1, TokenKind::RBrace, "`}`"@).1;
    lemma_block_end_shift(c1, tl1, st1, start, delta);
}

pub proof fn lemma_clean_block(
    t1: Seq<TokenV>,
    t2: Seq<TokenV>,
    p0: int,
    l: int,
    d: int,
    delta: i64,
    n1: int,
    n2: int,
    s1: PS,
    s2: PS,
)
    requires
        window(t1, t2, p0, l, d, delta),
        moved(s1, s2, d, delta, n1, n2),
        p0 < s1.pos <= t1.len(),
        clean(t1, l, s1, p_block(t1, s1).0),
    ensures
        moved(p_block(t1, s1).0, p_block(t2, s2).0, d, delta, n1, n2),
        p_block(t2, s2).1 == shift_block_v(p_block(t1, s1).1, delta),
{
    lemma_mono_expect(t1, s1, TokenKind::LBrace, "`{`"@);
    let (a1, open1) = p_expect(t1, s1, TokenKind::LBrace, "`{`"@);
    let start1 = match open1 {
        Some(sp) => sp.start,
        None => cur_span(t1, a1).start,
    };
    lemma_mono_block_from(t1, a1, start1);
    if s1.pos >= t1.len() {
        lemma_expect_at_end(t1, s1, TokenKind::LBrace, "`{`"@);
    }
    lemma_agree_expect_at(t1, t2, p0, l, d, delta, n1, n2, s1, s2, TokenKind::LBrace, "`{`"@);
    let a2 = p_expect(t2, s2, TokenKind::LBrace, "`{`"@).0;
    if a1.pos < l {
        lemma_here(t1, t2, p0, l, d, delta, n1, n2, a1, a2);
    } else {
        assert(open1 is Some);
    }
    lemma_clean_block_from(t1, t2, p0, l, d, delta, n1, n2, a1, a2, start1);
}

pub proof fn lemma_clean_fn(
    t1: Seq<TokenV>,
    t2: Seq<TokenV>,
    p0: int,
    l: int,
    d: int,
    delta: i64,
    n1: int,
    n2: int,
    s1: PS,
    s2: PS,
)
    requires
        window(t1, t2, p0, l, d, delta),
        moved(s1, s2, d, delta, n1, n2),
        p0 <= s1.pos < t1.len(),
        clean(t1, l, s1, p_fn(t1, s1).0),
    ensures
        moved(p_fn(t1, s1).0, p_fn(t2, s2).0, d, delta, n1, n2),
        p_fn(t2, s2).1 == shift_stmt_v(p_fn(t1, s1).1, delta),
{
    lemma_mono_fn(t1, s1);
    lemma_here(t1, t2, p0, l, d, delta, n1, n2, s1, s2);
    let a1 = bump(t1, s1);
    let a2 = bump(t2, s2);
    lemma_mono_ident_or_missing(t1, a1, "a function name"@);
    let (b1, name1) = p_ident_or_missing(t1, a1, "a function name"@);
    lemma_mono_expect(t1, b1, TokenKind::LParen, "`(`"@);
    let c1 = p_expect(t1, b1, TokenKind::LParen, "`(`"@).0;
    let (e1, params1) = if !is_kind(t1, c1, TokenKind::RParen) {
        lemma_mono_params(t1, c1, seq![]);
        p_params(t1, c1, seq![])
    } else {
        (c1, seq![])
    };
    lemma_mono_expect(t1, e1, TokenKind::RParen, "`)`"@);
    let f1 = p_expect(t1, e1, TokenKind::RParen, "`)`"@).0;
    lemma_mono_block(t1, f1);
    if f1.pos >= t1.len() {
        lemma_expect_at_end(t1, f1, TokenKind::LBrace, "`{`"@);
        let (x1, o1) = p_expect(t1, f1, TokenKind::LBrace, "`{`"@);
        let st = match o1 {
            Some(sp) => sp.start,
            None => cur_span(t1, x1).start,
        };
        lemma_mono_block_from(t1, x1, st);
        assert(p_block(t1, f1).0.trunc);
    }
    lemma_agree_ident_or_missing(t1, t2, p0, l, d, delta, n1, n2, a1, a2, "a function name"@);
    let b2 = p_ident_or_missing(t2, a2, "a function name"@).0;
    lemma_agree_expect(t1, t2, p0, l, d, delta, n1, n2, b1, b2, TokenKind::LParen, "`(`"@);
    let c2 = p_expect(t2, b2, TokenKind::LParen, "`(`"@).0;
    lemma_here(t1, t2, p0, l, d, delta, n1, n2, c1, c2);
    let e2 = if !is_kind(t1, c1, TokenKind::RParen) {
        assert(shift_idents_v(Seq::<IdentV>::empty(), delta) =~= Seq::<IdentV>::empty());
        lemma_agree_params(t1, t2, p0, l, d, delta, n1, n2, c1, c2, seq![], seq![]);
        p_params(t2, c2, seq![]).0
    } else {
        assert(shift_idents_v(Seq::<IdentV>::empty(), delta) =~= Seq::<IdentV>::empty());
        c2
    };
    lemma_agree_expect(t1, t2, p0, l, d, delta, n1, n2, e1, e2, TokenKind::RParen, "`)`"@);
    let f2 = p_expect(t2, e2, TokenKind::RParen, "`)`"@).0;
    lemma_clean_block(t1, t2, p0, l, d, delta, n1, n2, f1, f2);
}

pub proof fn lemma_clean_let(
    t1: Seq<TokenV>,
    t2: Seq<TokenV>,
    p0: int,
    l: int,
    d: int,
    delta: i64,
    n1: int,
    n2: int,
    s1: PS,
    s2: PS,
)
    requires
        window(t1, t2, p0, l, d, delta),
        moved(s1, s2, d, delta, n1, n2),
        p0 <= s1.pos < t1.len(),
        clean(t1, l, s1, p_let(t1, s1).0),
    ensures
        moved(p_let(t1, s1).0, p_let(t2, s2).0, d, delta, n1, n2),
        p_let(t2, s2).1 == shift_stmt_v(p_let(t1, s1).1, delta),
{
    lemma_mono_let(t1, s1);
    lemma_here(t1, t2, p0, l, d, delta, n1, n2, s1, s2);
    let a1 = bump(t1, s1);
    let a2 = bump(t2, s2);
    lemma_mono_ident_or_missing(t1, a1, "a variable name"@);
    let (b1, name1) = p_ident_or_missing(t1, a1, "a variable name"@);
    lemma_mono_expect(t1, b1, TokenKind::Eq, "`=`"@);
    let c1 = p_expect(t1, b1, TokenKind::Eq, "`=`"@).0;
    lemma_mono_expr(t1, c1);
    let (e1, value1) = p_expr(t1, c1);
    lemma_mono_expect(t1, e1, TokenKind::Semi, "`;`"@);
    if e1.pos >= t1.len() {
        lemma_expect_at_end(t1, e1, TokenKind::Semi, "`;`"@);
    }
    lemma_agree_ident_or_missing(t1, t2, p0, l, d, delta, n1, n2, a1, a2, "a variable name"@);
    let b2 = p_ident_or_missing(t2, a2, "a variable name"@).0;
    lemma_agree_expect(t1, t2, p0, l, d, delta, n1, n2, b1, b2, TokenKind::Eq, "`=`"@);
    let c2 = p_expect(t2, b2, TokenKind::Eq, "`=`"@).0;
    lemma_agree_expr(t1, t2, p0, l, d, delta, n1, n2, c1, c2);
    let e2 = p_expr(t2, c2).0;
    lemma_agree_expect_at(t1, t2, p0, l, d, delta, n1, n2, e1, e2, TokenKind::Semi, "`;`"@);
}

pub proof fn lemma_clean_expr_stmt_top(
    t1: Seq<TokenV>,
    t2: Seq<TokenV>,
    p0: int,
    l: int,
    d: int,
    delta: i64,
    n1: int,
    n2: int,
    s1: PS,
    s2: PS,
)
    requires
        window(t1, t2, p0, l, d, delta),
        moved(s1, s2, d, delta, n1, n2),
        p0 <= s1.pos < t1.len(),
        clean(t1, l, s1, p_expr_stmt_top(t1, s1).0),
    ensures
        moved(p_expr_stmt_top(t1, s1).0, p_expr_stmt_top(t2, s2).0, d, delta, n1, n2),
        p_expr_stmt_top(t2, s2).1 == shift_stmt_v(p_expr_stmt_top(t1, s1).1, delta),
{
    lemma_mono_expr(t1, s1);
    let (a1, e1) = p_expr(t1, s1);
    lemma_mono_expect(t1, a1, TokenKind::Semi, "`;`"@);
    let (b1, semi1) = p_expect(t1, a1, TokenKind::Semi, "`;`"@);
    if semi1 is None {
        lemma_mono_recover(t1, b1);
    }
    if a1.pos >= t1.len() {
        lemma_expect_at_end(t1, a1, TokenKind::Semi, "`;`"@);
    }
    lemma_agree_expr(t1, t2, p0, l, d, delta, n1, n2, s1, s2);
    let a2 = p_expr(t2, s2).0;
    lemma_agree_expect_at(t1, t2, p0, l, d, delta, n1, n2, a1, a2, TokenKind::Semi, "`;`"@);
    let b2 = p_expect(t2, a2, TokenKind::Semi, "`;`"@).0;
    if semi1 is None {
        lemma_clean_recover(t1, t2, p0, l, d, delta, n1, n2, b1, b2);
    }
}

pub proof fn lemma_agree_expr_stmt_top(
    t1: Seq<TokenV>,
    t2: Seq<TokenV>,
    p0: int,
    l: int,
    d: int,
    delta: i64,
    n1: int,
    n2: int,
    s1: PS,
    s2: PS,
)
    requires
        window(t1, t2, p0, l, d, delta),
        moved(s1, s2, d, delta, n1, n2),
        p0 <= s1.pos < t1.len(),
        tails(t1, t2, l, d) || p_expr_stmt_top(t1, s1).0.pos < l,
    ensures
        moved(p_expr_stmt_top(t1, s1).0, p_expr_stmt_top(t2, s2).0, d, delta, n1, n2),
        p_expr_stmt_top(t2, s2).1 == shift_stmt_v(p_expr_stmt_top(t1, s1).1, delta),
{
    lemma_mono_expr(t1, s1);
    let (a1, e1) = p_expr(t1, s1);
    lemma_mono_expect(t1, a1, TokenKind::Semi, "`;`"@);
    let (b1, semi1) = p_expect(t1, a1, TokenKind::Semi, "`;`"@);
    if semi1 is None {
        lemma_mono_recover(t1, b1);
    }
    lemma_agree_expr(t1, t2, p0, l, d, delta, n1, n2, s1, s2);
    let a2 = p_expr(t2, s2).0;
    lemma_agree_expect(t1, t2, p0, l, d, delta, n1, n2, a1, a2, TokenKind::Semi, "`;`"@);
    let b2 = p_expect(t2, a2, TokenKind::Semi, "`;`"@).0;
    if semi1 is None {
        lemma_agree_recover(t1, t2, p0, l, d, delta, n1, n2, b1, b2);
    }
}

/// A top level statement parses the same, moved, wherever the tokens it reads
/// recur: inside the window, up to both ends, or up to the end of `t1` when
/// that parse does not run off it.
pub proof fn lemma_agree_top_stmt(
    t1: Seq<TokenV>,
    t2: Seq<TokenV>,
    p0: int,
    l: int,
    d: int,
    delta: i64,
    n1: int,
    n2: int,
    s1: PS,
    s2: PS,
)
    requires
        window(t1, t2, p0, l, d, delta),
        moved(s1, s2, d, delta, n1, n2),
        p0 <= s1.pos < t1.len(),
        tails(t1, t2, l, d) || p_top_stmt(t1, s1).0.pos < l || clean(t1, l, s1, p_top_stmt(t1, s1).0),
    ensures
        moved(p_top_stmt(t1, s1).0, p_top_stmt(t2, s2).0, d, delta, n1, n2),
        p_top_stmt(t2, s2).1 == shift_stmt_v(p_top_stmt(t1, s1).1, delta),
{
    lemma_mono_top_stmt(t1, s1);
    lemma_here(t1, t2, p0, l, d, delta, n1, n2, s1, s2);
    if is_kind(t1, s1, TokenKind::Fn) {
        if tails(t1, t2, l, d) || p_fn(t1, s1).0.pos < l {
            lemma_agree_fn(t1, t2, p0, l, d, delta, n1, n2, s1, s2);
        } else {
            lemma_clean_fn(t1, t2, p0, l, d, delta, n1, n2, s1, s2);
        }
    } else if is_kind(t1, s1, TokenKind::Let) {
        if tails(t1, t2, l, d) || p_let(t1, s1).0.pos < l {
            lemma_agree_let(t1, t2, p0, l, d, delta, n1, n2, s1, s2);
        } else {
            lemma_clean_let(t1, t2, p0, l, d, delta, n1, n2, s1, s2);
        }
    } else {
        if tails(t1, t2, l, d) || p_expr_stmt_top(t1, s1).0.pos < l {
            lemma_agree_expr_stmt_top(t1, t2, p0, l, d, delta, n1, n2, s1, s2);
        } else {
            lemma_clean_expr_stmt_top(t1, t2, p0, l, d, delta, n1, n2, s1, s2);
        }
    }
}


/// A parser state at token `x` with nothing reported yet.
pub open spec fn fresh(x: int) -> PS {
    PS { pos: x, diags: seq![], trunc: false }
}

/// The state after the statement that starts at token `x`.
pub open spec fn stmt_end(t: Seq<TokenV>, x: int) -> PS {
    ensure_progress(t, x, p_top_stmt(t, fresh(x)).0)
}

/// Where the statement that starts at token `x` ends.
pub open spec fn next_at(t: Seq<TokenV>, x: int) -> int {
    stmt_end(t, x).pos
}

/// The statement group that starts at token `x`.
pub open spec fn group_at(t: Seq<TokenV>, x: int) -> GroupV {
    GroupV {
        stmt: p_top_stmt(t, fresh(x)).1,
        tokens: t.subrange(x, next_at(t, x)),
        diags: stmt_end(t, x).diags,
    }
}

/// The statement groups from token `x` on.
pub open spec fn groups_from(t: Seq<TokenV>, x: int) -> Seq<GroupV> {
    p_grouped(t, fresh(x), seq![]).1
}

/// Whether parsing from token `x` on runs off the end.
pub open spec fn groups_trunc(t: Seq<TokenV>, x: int) -> bool {
    p_grouped(t, fresh(x), seq![]).0.trunc
}

/// Where the `m` statements from token `x` on end.
pub open spec fn ends(t: Seq<TokenV>, x: int, m: nat) -> int
    decreases m,
{
    if m == 0 || x < 0 || x >= t.len() {
        x
    } else {
        ends(t, next_at(t, x), (m - 1) as nat)
    }
}

pub proof fn lemma_shift_tokvs_zero_all(t: Seq<TokenV>)
    ensures
        forall|i: int| 0 <= i < t.len() ==> #[trigger] shift_tokv(t[i], 0) == t[i],
        shift_tokvs(t, 0) == t,
{
    assert forall|i: int| 0 <= i < t.len() implies #[trigger] shift_tokv(t[i], 0) == t[i] by {
    }
    assert(shift_tokvs(t, 0) =~= t);
}

pub proof fn lemma_shift_diagvs_zero(ds: Seq<DiagV>)
    ensures
        shift_diagvs(ds, 0) == ds,
{
    assert(shift_diagvs(ds, 0) =~= ds);
}

pub proof fn lemma_shift_groups_zero(gs: Seq<GroupV>)
    ensures
        shift_groups(gs, 0) == gs,
{
    assert forall|i: int| 0 <= i < gs.len() implies #[trigger] shift_group(gs[i], 0) == gs[i] by {
        crate::shift::lemma_shift_zero_stmt(gs[i].stmt);
        lemma_shift_tokvs_zero_all(gs[i].tokens);
        lemma_shift_diagvs_zero(gs[i].diags);
    }
    assert(shift_groups(gs, 0) =~= gs);
}

pub proof fn lemma_stmt_end_facts(t: Seq<TokenV>, x: int)
    requires
        0 <= x < t.len(),
    ensures
        x < next_at(t, x) <= t.len(),
        stmt_end(t, x) == p_top_stmt(t, fresh(x)).0,
        stmt_end(t, x).trunc ==> next_at(t, x) == t.len(),
{
    lemma_mono_top_stmt(t, fresh(x));
}

/// A statement group parses the same, moved, wherever the tokens it reads
/// recur.
pub proof fn lemma_group_agree(t1: Seq<TokenV>, t2: Seq<TokenV>, x: int, l: int, d: int, delta: i64)
    requires
        window(t1, t2, x, l, d, delta),
        tails(t1, t2, l, d) || next_at(t1, x) < l || (l == t1.len() && !stmt_end(t1, x).trunc),
    ensures
        group_at(t2, x + d) == shift_group(group_at(t1, x), delta),
        next_at(t2, x + d) == next_at(t1, x) + d,
        stmt_end(t2, x + d).trunc == stmt_end(t1, x).trunc,
{
    lemma_stmt_end_facts(t1, x);
    let f1 = fresh(x);
    let f2 = fresh(x + d);
    assert(f1.diags.skip(0) =~= Seq::<DiagV>::empty());
    assert(f2.diags.skip(0) =~= Seq::<DiagV>::empty());
    assert(shift_diagvs(Seq::<DiagV>::empty(), delta) =~= Seq::<DiagV>::empty());
    lemma_agree_top_stmt(t1, t2, x, l, d, delta, 0, 0, f1, f2);
    lemma_mono_top_stmt(t2, f2);
    let o1 = p_top_stmt(t1, f1).0;
    let o2 = p_top_stmt(t2, f2).0;
    assert(o1.diags.skip(0) =~= o1.diags);
    assert(o2.diags.skip(0) =~= o2.diags);
    let y = next_at(t1, x);
    assert(t2.subrange(x + d, y + d) =~= shift_tokvs(t1.subrange(x, y), delta)) by {
        assert forall|i: int| 0 <= i < y - x implies #[trigger] t2.subrange(x + d, y + d)[i] == shift_tokvs(
            t1.subrange(x, y),
            delta,
        )[i] by {
            assert(t2[(x + i) + d] == shift_tokv(t1[x + i], delta));
        }
    }
}

/// Parsing statement groups goes on from a state the same way as from a fresh
/// state at its position: the groups already found come first.
#[verifier::spinoff_prover]
#[verifier::rlimit(80)]
pub proof fn lemma_grouped_frame(t: Seq<TokenV>, s: PS, gs: Seq<GroupV>)
    requires
        0 <= s.pos <= t.len(),
        s.pos < t.len() ==> !s.trunc,
    ensures
        p_grouped(t, s, gs).1 == gs + groups_from(t, s.pos),
        s.pos < t.len() ==> p_grouped(t, s, gs).0.trunc == groups_trunc(t, s.pos),
    decreases t.len() - s.pos,
{
    let x = s.pos;
    if x == t.len() {
        assert(gs + Seq::<GroupV>::empty() =~= gs);
    } else {
        let f = fresh(x);
        let n = s.diags.len() as int;
        lemma_shift_tokvs_zero_all(t);
        assert(window(t, t, x, t.len() as int, 0, 0));
        assert(f.diags.skip(0) =~= Seq::<DiagV>::empty());
        assert(s.diags.skip(n) =~= Seq::<DiagV>::empty());
        assert(shift_diagvs(Seq::<DiagV>::empty(), 0) =~= Seq::<DiagV>::empty());
        lemma_agree_top_stmt(t, t, x, t.len() as int, 0, 0, 0, n, f, s);
        lemma_mono_top_stmt(t, s);
        lemma_mono_top_stmt(t, f);
        let (a1, st1) = p_top_stmt(t, f);
        let (a2, st2) = p_top_stmt(t, s);
        crate::shift::lemma_shift_zero_stmt(st1);
        lemma_shift_diagvs_zero(a1.diags.skip(0));
        assert(a1.diags.skip(0) =~= a1.diags);
        let gf = GroupV {
            stmt: st1,
            tokens: t.subrange(x, a1.pos),
            diags: a1.diags.subrange(0, a1.diags.len() as int),
        };
        let gsx = GroupV {
            stmt: st2,
            tokens: t.subrange(x, a2.pos),
            diags: a2.diags.subrange(n, a2.diags.len() as int),
        };
        assert(a2.diags.subrange(n, a2.diags.len() as int) =~= a2.diags.skip(n));
        assert(a1.diags.subrange(0, a1.diags.len() as int) =~= a1.diags);
        assert(gf == gsx);
        lemma_grouped_frame(t, a2, gs.push(gsx));
        lemma_grouped_frame(t, a1, seq![gf]);
        assert(gs.push(gsx) + groups_from(t, a2.pos) =~= gs + (seq![gf] + groups_from(t, a2.pos)));
    }
}

/// The groups from token `x` on: the one that starts there, then those after.
pub proof fn lemma_groups_from_unfold(t: Seq<TokenV>, x: int)
    requires
        0 <= x < t.len(),
    ensures
        groups_from(t, x) == seq![group_at(t, x)] + groups_from(t, next_at(t, x)),
        next_at(t, x) < t.len() ==> groups_trunc(t, x) == groups_trunc(t, next_at(t, x)),
        next_at(t, x) == t.len() ==> groups_trunc(t, x) == stmt_end(t, x).trunc,
{
    lemma_stmt_end_facts(t, x);
    let f = fresh(x);
    let a = stmt_end(t, x);
    lemma_mono_top_stmt(t, f);
    assert(a.diags.subrange(0, a.diags.len() as int) =~= a.diags);
    lemma_grouped_frame(t, a, seq![group_at(t, x)]);
}

pub proof fn lemma_groups_from_end(t: Seq<TokenV>)
    ensures
        groups_from(t, t.len() as int) == Seq::<GroupV>::empty(),
{
}

/// Within a window, the groups that end before its far end parse the same,
/// moved.
pub proof fn lemma_groups_prefix(t1: Seq<TokenV>, t2: Seq<TokenV>, x: int, l: int, d: int, delta: i64, m: nat)
    requires
        window(t1, t2, x, l, d, delta),
        ends(t1, x, m) < l,
    ensures
        groups_from(t1, x).len() >= m,
        groups_from(t2, x + d) == shift_groups(groups_from(t1, x).take(m as int), delta) + groups_from(
            t2,
            ends(t1, x, m) + d,
        ),
    decreases m,
{
    if m == 0 {
        assert(shift_groups(groups_from(t1, x).take(0), delta) =~= Seq::<GroupV>::empty());
        assert(Seq::<GroupV>::empty() + groups_from(t2, x + d) =~= groups_from(t2, x + d));
    } else {
        lemma_stmt_end_facts(t1, x);
        let y = next_at(t1, x);
        lemma_ends_ge(t1, y, (m - 1) as nat);
        lemma_group_agree(t1, t2, x, l, d, delta);
        lemma_groups_from_unfold(t1, x);
        lemma_stmt_end_facts(t2, x + d);
        lemma_groups_from_unfold(t2, x + d);
        lemma_groups_prefix(t1, t2, y, l, d, delta, (m - 1) as nat);
        let g1 = groups_from(t1, x);
        assert(g1.take(m as int) =~= seq![group_at(t1, x)] + groups_from(t1, y).take(m - 1));
        assert(shift_groups(g1.take(m as int), delta) =~= seq![shift_group(group_at(t1, x), delta)]
            + shift_groups(groups_from(t1, y).take(m - 1), delta));
    }
}

pub proof fn lemma_ends_ge(t: Seq<TokenV>, x: int, m: nat)
    ensures
        ends(t, x, m) >= x,
        0 <= x <= t.len() ==> ends(t, x, m) <= t.len(),
    decreases m,
{
    if !(m == 0 || x < 0 || x >= t.len()) {
        lemma_stmt_end_facts(t, x);
        lemma_ends_ge(t, next_at(t, x), (m - 1) as nat);
    }
}

/// When the window reaches both ends, all groups parse the same, moved.
pub proof fn lemma_groups_tail(t1: Seq<TokenV>, t2: Seq<TokenV>, x: int, d: int, delta: i64)
    requires
        0 <= x <= t1.len(),
        0 <= x + d,
        t2.len() == t1.len() + d,
        forall|i: int| x <= i < t1.len() ==> t2[i + d] == shift_tokv(#[trigger] t1[i], delta),
    ensures
        groups_from(t2, x + d) == shift_groups(groups_from(t1, x), delta),
    decreases t1.len() - x,
{
    if x == t1.len() {
        assert(shift_groups(Seq::<GroupV>::empty(), delta) =~= Seq::<GroupV>::empty());
    } else {
        lemma_stmt_end_facts(t1, x);
        let y = next_at(t1, x);
        lemma_group_agree(t1, t2, x, t1.len() as int, d, delta);
        lemma_groups_from_unfold(t1, x);
        lemma_groups_from_unfold(t2, x + d);
        lemma_groups_tail(t1, t2, y, d, delta);
        assert(shift_groups(seq![group_at(t1, x)] + groups_from(t1, y), delta) =~= seq![shift_group(
            group_at(t1, x),
            delta,
        )] + shift_groups(groups_from(t1, y), delta));
    }
}

/// When `t1` parses to its end without running off it, its groups recur,
/// moved, wherever its tokens recur, and parsing goes on from where they stop.
pub proof fn lemma_groups_clean(t1: Seq<TokenV>, t2: Seq<TokenV>, x: int, d: int, delta: i64)
    requires
        0 <= x <= t1.len(),
        0 <= x + d,
        t1.len() + d <= t2.len(),
        forall|i: int| x <= i < t1.len() ==> t2[i + d] == shift_tokv(#[trigger] t1[i], delta),
        x < t1.len() ==> !groups_trunc(t1, x),
    ensures
        groups_from(t2, x + d) == shift_groups(groups_from(t1, x), delta) + groups_from(
            t2,
            t1.len() + d,
        ),
    decreases t1.len() - x,
{
    if x == t1.len() {
        assert(shift_groups(Seq::<GroupV>::empty(), delta) =~= Seq::<GroupV>::empty());
        assert(Seq::<GroupV>::empty() + groups_from(t2, x + d) =~= groups_from(t2, x + d));
    } else {
        lemma_stmt_end_facts(t1, x);
        let y = next_at(t1, x);
        lemma_groups_from_unfold(t1, x);
        lemma_group_agree(t1, t2, x, t1.len() as int, d, delta);
        lemma_stmt_end_facts(t2, x + d);
        lemma_groups_from_unfold(t2, x + d);
        lemma_groups_clean(t1, t2, y, d, delta);
        assert(shift_groups(seq![group_at(t1, x)] + groups_from(t1, y), delta) =~= seq![shift_group(
            group_at(t1, x),
            delta,
        )] + shift_groups(groups_from(t1, y), delta));
    }
}

/// The `m` statements from token `x` on are the first `m` groups, their tokens
/// run from `x` to where they end, and the groups after them start there.
pub proof fn lemma_groups_positions(t: Seq<TokenV>, x: int, m: nat)
    requires
        0 <= x <= t.len(),
        m <= groups_from(t, x).len(),
    ensures
        ends(t, x, m) == x + group_tokens(groups_from(t, x).take(m as int)).len(),
        groups_from(t, x).skip(m as int) == groups_from(t, ends(t, x, m)),
    decreases m,
{
    let g = groups_from(t, x);
    if m == 0 {
        assert(g.take(0) =~= Seq::<GroupV>::empty());
        assert(g.skip(0) =~= g);
    } else {
        if x == t.len() {
            lemma_groups_from_end(t);
        }
        lemma_groups_from_unfold(t, x);
        lemma_stmt_end_facts(t, x);
        let y = next_at(t, x);
        lemma_groups_positions(t, y, (m - 1) as nat);
        let h = groups_from(t, y);
        assert(g.take(m as int) =~= seq![group_at(t, x)] + h.take(m - 1));
        crate::parse_spec::lemma_group_tokens_append(seq![group_at(t, x)], h.take(m - 1));
        let one = seq![group_at(t, x)];
        assert(group_tokens(one) =~= group_at(t, x).tokens) by {
            assert(one.drop_last() =~= Seq::<GroupV>::empty());
            assert(group_tokens(one) == group_tokens(one.drop_last()) + one.last().tokens);
        }
        assert(g.skip(m as int) =~= h.skip(m - 1));
    }
}

/// A parse that does not run off the end of its tokens reads none after
/// them: with more tokens after, its groups come first, unchanged.
pub proof fn law_clean_parse_ignores_later_tokens(t: Seq<TokenV>, u: Seq<TokenV>)
    requires
        !crate::parse_spec::spec_parse_items(t).1,
    ensures
        crate::parse_spec::spec_parse_items(t + u).0.len() >= crate::parse_spec::spec_parse_items(t).0.len(),
        crate::parse_spec::spec_parse_items(t + u).0.take(crate::parse_spec::spec_parse_items(t).0.len() as int)
            == crate::parse_spec::spec_parse_items(t).0,
{
    let v = t + u;
    let g = groups_from(t, 0);
    assert(fresh(0) == crate::parse_spec::init_ps());
    lemma_shift_tokvs_zero_all(t);
    assert forall|i: int| 0 <= i < t.len() implies v[i + 0] == shift_tokv(#[trigger] t[i], 0) by {
        assert(v[i] == t[i]);
    }
    lemma_groups_clean(t, v, 0, 0, 0);
    lemma_shift_groups_zero(g);
    let w = g + groups_from(v, t.len() as int);
    assert(w.take(g.len() as int) =~= g);
}

} // verus!
