//! The grammar of the language as mathematical functions over token views.
//!
//! Each function takes the token sequence and a parser state (position,
//! diagnostics so far, truncation flag) and gives the state after the construct
//! and the construct's syntax tree view. Calls that continue from a state a
//! sub-parse produced are guarded by that state having moved forward; the
//! executable parser never takes the other branch.

use vstd::prelude::*;
use crate::ast::{BinOp, UnOp, IdentV, StmtV, StmtKindV, BlockV, ExprV, ExprKindV};
use crate::diagnostics::{DiagKind, DiagV, error_v};
use crate::lexer::{TokenKind, TokenV, tokens_ordered, fixed_spelling};
use crate::relex::shift_tokvs;
use crate::shift::shift_stmt_v;
use crate::span::Span;

verus! {

/// Parser state: position in the token sequence, diagnostics so far, and
/// whether the input ran out inside a construct.
pub struct PS {
    pub pos: int,
    pub diags: Seq<DiagV>,
    pub trunc: bool,
}

/// One top level statement with the tokens it consumed and the diagnostics it
/// produced.
pub struct GroupV {
    pub stmt: StmtV,
    pub tokens: Seq<TokenV>,
    pub diags: Seq<DiagV>,
}

pub open spec fn init_ps() -> PS {
    PS { pos: 0, diags: seq![], trunc: false }
}

pub open spec fn at_end(t: Seq<TokenV>, s: PS) -> bool {
    s.pos >= t.len()
}

pub open spec fn is_kind(t: Seq<TokenV>, s: PS, k: TokenKind) -> bool {
    0 <= s.pos < t.len() && t[s.pos].kind == k
}

pub open spec fn bump(t: Seq<TokenV>, s: PS) -> PS {
    if 0 <= s.pos < t.len() {
        PS { pos: s.pos + 1, diags: s.diags, trunc: s.trunc }
    } else {
        s
    }
}

pub open spec fn set_trunc(s: PS) -> PS {
    PS { pos: s.pos, diags: s.diags, trunc: true }
}

pub open spec fn with_err(s: PS, span: Span, kind: DiagKind, msg: Seq<char>) -> PS {
    PS { pos: s.pos, diags: s.diags.push(error_v(span, kind, msg)), trunc: s.trunc }
}

/// A zero width span at the end of the last token.
pub open spec fn eof_span(t: Seq<TokenV>) -> Span {
    if t.len() > 0 {
        Span { start: t.last().span.end, end: t.last().span.end }
    } else {
        Span { start: 0, end: 0 }
    }
}

pub open spec fn cur_span(t: Seq<TokenV>, s: PS) -> Span {
    if 0 <= s.pos < t.len() {
        t[s.pos].span
    } else {
        eof_span(t)
    }
}

/// End of the last consumed token.
pub open spec fn prev_end(t: Seq<TokenV>, s: PS) -> u32 {
    if 0 < s.pos <= t.len() {
        t[s.pos - 1].span.end
    } else {
        0
    }
}

pub open spec fn msg_expected(what: Seq<char>) -> Seq<char> {
    "expected "@ + what
}

pub open spec fn msg_found_eof(what: Seq<char>) -> Seq<char> {
    "expected "@ + what + ", found end of input"@
}

/// Consume a token of kind `k` or record why not.
pub open spec fn p_expect(t: Seq<TokenV>, s: PS, k: TokenKind, what: Seq<char>) -> (PS, Option<Span>) {
    if is_kind(t, s, k) {
        (bump(t, s), Some(t[s.pos].span))
    } else if at_end(t, s) {
        (with_err(set_trunc(s), eof_span(t), DiagKind::UnexpectedEof, msg_found_eof(what)), None)
    } else {
        (
            with_err(
                s,
                Span { start: prev_end(t, s), end: prev_end(t, s) },
                DiagKind::ParseError,
                msg_expected(what),
            ),
            None,
        )
    }
}

/// Skip to the next statement boundary after a malformed statement.
pub open spec fn p_recover(t: Seq<TokenV>, s: PS) -> PS
    decreases t.len() - s.pos,
{
    if s.pos < 0 || at_end(t, s) {
        set_trunc(s)
    } else if t[s.pos].kind == TokenKind::Semi {
        bump(t, s)
    } else if t[s.pos].kind == TokenKind::Fn || t[s.pos].kind == TokenKind::Let || t[s.pos].kind
        == TokenKind::RBrace {
        s
    } else {
        p_recover(t, bump(t, s))
    }
}

pub open spec fn p_ident_or_missing(t: Seq<TokenV>, s: PS, what: Seq<char>) -> (PS, IdentV) {
    if is_kind(t, s, TokenKind::Ident) {
        (bump(t, s), IdentV { name: t[s.pos].text, span: t[s.pos].span })
    } else {
        let s1 = p_expect(t, s, TokenKind::Ident, what).0;
        let at = cur_span(t, s1).start;
        (s1, IdentV { name: seq![], span: Span { start: at, end: at } })
    }
}

pub open spec fn p_ident(t: Seq<TokenV>, s: PS, what: Seq<char>) -> (PS, Option<IdentV>) {
    if is_kind(t, s, TokenKind::Ident) {
        (bump(t, s), Some(IdentV { name: t[s.pos].text, span: t[s.pos].span }))
    } else {
        (p_expect(t, s, TokenKind::Ident, what).0, None)
    }
}

/// Parameters of a function, after the first has been found missing or present.
pub open spec fn p_params(t: Seq<TokenV>, s: PS, acc: Seq<IdentV>) -> (PS, Seq<IdentV>)
    decreases t.len() - s.pos,
{
    let (s1, id) = p_ident(t, s, "a parameter name"@);
    match id {
        Some(id) => if is_kind(t, s1, TokenKind::Comma) {
            let s2 = bump(t, s1);
            if s.pos < s2.pos <= t.len() {
                p_params(t, s2, acc.push(id))
            } else {
                (s2, acc.push(id))
            }
        } else {
            (s1, acc.push(id))
        },
        None => (s1, acc),
    }
}

/// Move on by one token, with a diagnostic, when a step consumed nothing.
pub open spec fn ensure_progress(t: Seq<TokenV>, before: int, s: PS) -> PS {
    if s.pos == before {
        bump(t, with_err(s, cur_span(t, s), DiagKind::ParseError, "unexpected token"@))
    } else {
        s
    }
}

pub open spec fn error_expr(span: Span) -> ExprV {
    ExprV { kind: ExprKindV::Error, span }
}

pub open spec fn junk_stmt() -> StmtV {
    StmtV { kind: StmtKindV::Expr { expr: error_expr(Span { start: 0, end: 0 }) }, span: Span { start: 0, end: 0 } }
}

pub open spec fn junk_block() -> BlockV {
    BlockV { stmts: seq![], tail: None, span: Span { start: 0, end: 0 } }
}

pub open spec fn binary_v(lhs: ExprV, op: BinOp, rhs: ExprV) -> ExprV {
    ExprV {
        kind: ExprKindV::Binary { op, lhs: Box::new(lhs), rhs: Box::new(rhs) },
        span: Span { start: lhs.span.start, end: rhs.span.end },
    }
}

/// The binary operator of precedence level `lvl` (0 equality, 1 comparison,
/// 2 additive, 3 multiplicative) spelled by the current token.
pub open spec fn bin_op_at(t: Seq<TokenV>, s: PS, lvl: int) -> Option<BinOp> {
    if !(0 <= s.pos < t.len()) {
        None
    } else {
        let k = t[s.pos].kind;
        if lvl == 0 {
            if k == TokenKind::EqEq {
                Some(BinOp::Eq)
            } else if k == TokenKind::Ne {
                Some(BinOp::Ne)
            } else {
                None
            }
        } else if lvl == 1 {
            if k == TokenKind::Lt {
                Some(BinOp::Lt)
            } else if k == TokenKind::Le {
                Some(BinOp::Le)
            } else if k == TokenKind::Gt {
                Some(BinOp::Gt)
            } else if k == TokenKind::Ge {
                Some(BinOp::Ge)
            } else {
                None
            }
        } else if lvl == 2 {
            if k == TokenKind::Plus {
                Some(BinOp::Add)
            } else if k == TokenKind::Minus {
                Some(BinOp::Sub)
            } else {
                None
            }
        } else if lvl == 3 {
            if k == TokenKind::Star {
                Some(BinOp::Mul)
            } else if k == TokenKind::Slash {
                Some(BinOp::Div)
            } else {
                None
            }
        } else {
            None
        }
    }
}

pub open spec fn lvl_rank(lvl: int) -> int {
    if 0 <= lvl <= 3 {
        22 - 2 * lvl
    } else {
        0
    }
}

/// The integer an `Int` token's text denotes: `str::parse::<i64>` on it, or 0
/// when that fails.
pub open spec fn int_value(text: Seq<char>) -> i64 {
    match crate::numbers::parse_i64_spec(text) {
        Some(v) => v,
        None => 0,
    }
}

pub open spec fn block_end(close: Option<Span>, tail: Option<ExprV>, stmts: Seq<StmtV>, start: u32) -> u32 {
    match close {
        Some(c) => c.end,
        None => match tail {
            Some(e) => e.span.end,
            None => if stmts.len() > 0 {
                stmts.last().span.end
            } else {
                start
            },
        },
    }
}

/// A block whose opening brace has been dealt with: its items and the closing
/// brace.
pub open spec fn p_block_from(t: Seq<TokenV>, s: PS, start: u32) -> (PS, BlockV)
    decreases t.len() - s.pos, 26int,
{
    let (s2, stmts, tail) = p_block_items(t, s, seq![]);
    let (s3, close) = p_expect(t, s2, TokenKind::RBrace, "`}`"@);
    (
        s3,
        BlockV {
            stmts,
            tail: match tail {
                Some(e) => Some(Box::new(e)),
                None => None,
            },
            span: Span { start, end: block_end(close, tail, stmts, start) },
        },
    )
}

pub open spec fn p_block(t: Seq<TokenV>, s: PS) -> (PS, BlockV)
    decreases t.len() - s.pos, 27int,
{
    let (s1, open) = p_expect(t, s, TokenKind::LBrace, "`{`"@);
    let start = match open {
        Some(sp) => sp.start,
        None => cur_span(t, s1).start,
    };
    if s.pos <= s1.pos <= t.len() {
        p_block_from(t, s1, start)
    } else {
        (s1, junk_block())
    }
}

/// The statements and optional tail expression of a block.
pub open spec fn p_block_items(t: Seq<TokenV>, s: PS, stmts: Seq<StmtV>) -> (
    PS,
    Seq<StmtV>,
    Option<ExprV>,
)
    decreases t.len() - s.pos, 25int,
{
    if s.pos < 0 || at_end(t, s) {
        (set_trunc(s), stmts, None)
    } else if t[s.pos].kind == TokenKind::RBrace {
        (s, stmts, None)
    } else if t[s.pos].kind == TokenKind::Fn || t[s.pos].kind == TokenKind::Let {
        let (s1, st) = if t[s.pos].kind == TokenKind::Fn {
            p_fn(t, s)
        } else {
            p_let(t, s)
        };
        if s.pos < s1.pos <= t.len() {
            p_block_items(t, s1, stmts.push(st))
        } else {
            (s1, stmts, None)
        }
    } else {
        let (s1, e) = p_expr(t, s);
        if is_kind(t, s1, TokenKind::Semi) {
            let semi = t[s1.pos].span;
            let s2 = ensure_progress(t, s.pos, bump(t, s1));
            let st = StmtV {
                kind: StmtKindV::Expr { expr: e },
                span: Span { start: e.span.start, end: semi.end },
            };
            if s.pos < s2.pos <= t.len() {
                p_block_items(t, s2, stmts.push(st))
            } else {
                (s2, stmts, None)
            }
        } else if is_kind(t, s1, TokenKind::RBrace) || at_end(t, s1) {
            (s1, stmts, Some(e))
        } else {
            let s2 = ensure_progress(
                t,
                s.pos,
                p_recover(
                    t,
                    with_err(s1, cur_span(t, s1), DiagKind::ParseError, "expected `;` or `}`"@),
                ),
            );
            let st = StmtV { kind: StmtKindV::Expr { expr: e }, span: e.span };
            if s.pos < s2.pos <= t.len() {
                p_block_items(t, s2, stmts.push(st))
            } else {
                (s2, stmts, None)
            }
        }
    }
}

pub open spec fn p_fn(t: Seq<TokenV>, s: PS) -> (PS, StmtV)
    decreases t.len() - s.pos, 24int,
{
    let start = cur_span(t, s).start;
    let s1 = bump(t, s);
    let (s2, name) = p_ident_or_missing(t, s1, "a function name"@);
    let s3 = p_expect(t, s2, TokenKind::LParen, "`(`"@).0;
    let (s4, params) = if !is_kind(t, s3, TokenKind::RParen) {
        p_params(t, s3, seq![])
    } else {
        (s3, seq![])
    };
    let s5 = p_expect(t, s4, TokenKind::RParen, "`)`"@).0;
    if s.pos < s5.pos <= t.len() {
        let (s6, body) = p_block(t, s5);
        (
            s6,
            StmtV {
                kind: StmtKindV::Fn { name, params, body },
                span: Span { start, end: body.span.end },
            },
        )
    } else {
        (s5, junk_stmt())
    }
}

pub open spec fn p_let(t: Seq<TokenV>, s: PS) -> (PS, StmtV)
    decreases t.len() - s.pos, 24int,
{
    let start = cur_span(t, s).start;
    let s1 = bump(t, s);
    let (s2, name) = p_ident_or_missing(t, s1, "a variable name"@);
    let s3 = p_expect(t, s2, TokenKind::Eq, "`=`"@).0;
    if s.pos < s3.pos <= t.len() {
        let (s4, value) = p_expr(t, s3);
        let (s5, semi) = p_expect(t, s4, TokenKind::Semi, "`;`"@);
        let end = match semi {
            Some(sp) => sp.end,
            None => value.span.end,
        };
        (s5, StmtV { kind: StmtKindV::Let { name, value }, span: Span { start, end } })
    } else {
        (s3, junk_stmt())
    }
}

/// Call arguments, from the first one on.
pub open spec fn p_args(t: Seq<TokenV>, s: PS, acc: Seq<ExprV>) -> (PS, Seq<ExprV>)
    decreases t.len() - s.pos, 24int,
{
    let (s1, e) = p_expr(t, s);
    if is_kind(t, s1, TokenKind::Comma) {
        let s2 = bump(t, s1);
        if s.pos < s2.pos <= t.len() {
            p_args(t, s2, acc.push(e))
        } else {
            (s2, acc.push(e))
        }
    } else {
        (s1, acc.push(e))
    }
}

pub open spec fn p_expr(t: Seq<TokenV>, s: PS) -> (PS, ExprV)
    decreases t.len() - s.pos, 23int,
{
    p_bin(t, s, 0)
}

/// The operand of a binary operator of level `lvl`.
pub open spec fn p_bin(t: Seq<TokenV>, s: PS, lvl: int) -> (PS, ExprV)
    decreases t.len() - s.pos, lvl_rank(lvl),
{
    if !(0 <= lvl <= 3) {
        (s, error_expr(Span { start: 0, end: 0 }))
    } else {
        let (s1, lhs) = if lvl == 3 {
            p_unary(t, s)
        } else {
            p_bin(t, s, lvl + 1)
        };
        if s.pos <= s1.pos <= t.len() {
            p_bin_loop(t, s1, lvl, lhs)
        } else {
            (s1, lhs)
        }
    }
}

pub open spec fn p_bin_loop(t: Seq<TokenV>, s: PS, lvl: int, lhs: ExprV) -> (PS, ExprV)
    decreases t.len() - s.pos, lvl_rank(lvl) - 1,
{
    if !(0 <= lvl <= 3) {
        (s, lhs)
    } else {
        match bin_op_at(t, s, lvl) {
            Some(op) => {
                let s1 = bump(t, s);
                let (s2, rhs) = if lvl == 3 {
                    p_unary(t, s1)
                } else {
                    p_bin(t, s1, lvl + 1)
                };
                if s.pos < s2.pos <= t.len() {
                    p_bin_loop(t, s2, lvl, binary_v(lhs, op, rhs))
                } else {
                    (s2, binary_v(lhs, op, rhs))
                }
            },
            None => (s, lhs),
        }
    }
}

pub open spec fn p_unary(t: Seq<TokenV>, s: PS) -> (PS, ExprV)
    decreases t.len() - s.pos, 14int,
{
    if is_kind(t, s, TokenKind::Minus) || is_kind(t, s, TokenKind::Bang) {
        let op = if is_kind(t, s, TokenKind::Minus) {
            UnOp::Neg
        } else {
            UnOp::Not
        };
        let start = t[s.pos].span.start;
        let (s2, e) = p_unary(t, bump(t, s));
        (
            s2,
            ExprV {
                kind: ExprKindV::Unary { op, expr: Box::new(e) },
                span: Span { start, end: e.span.end },
            },
        )
    } else {
        p_postfix(t, s)
    }
}

pub open spec fn p_postfix(t: Seq<TokenV>, s: PS) -> (PS, ExprV)
    decreases t.len() - s.pos, 13int,
{
    let (s1, e) = p_primary(t, s);
    if s.pos <= s1.pos <= t.len() {
        p_postfix_loop(t, s1, e)
    } else {
        (s1, e)
    }
}

pub open spec fn p_postfix_loop(t: Seq<TokenV>, s: PS, e: ExprV) -> (PS, ExprV)
    decreases t.len() - s.pos, 12int,
{
    if is_kind(t, s, TokenKind::LParen) {
        let s1 = bump(t, s);
        let (s2, args) = if !is_kind(t, s1, TokenKind::RParen) {
            p_args(t, s1, seq![])
        } else {
            (s1, seq![])
        };
        let (s3, close) = p_expect(t, s2, TokenKind::RParen, "`)`"@);
        let end = match close {
            Some(sp) => sp.end,
            None => prev_end(t, s3),
        };
        let call = ExprV {
            kind: ExprKindV::Call { callee: Box::new(e), args },
            span: Span { start: e.span.start, end },
        };
        if s.pos < s3.pos <= t.len() {
            p_postfix_loop(t, s3, call)
        } else {
            (s3, call)
        }
    } else {
        (s, e)
    }
}

pub open spec fn p_primary(t: Seq<TokenV>, s: PS) -> (PS, ExprV)
    decreases t.len() - s.pos, 11int,
{
    if s.pos < 0 || at_end(t, s) {
        (
            with_err(set_trunc(s), eof_span(t), DiagKind::UnexpectedEof, "expected an expression"@),
            error_expr(eof_span(t)),
        )
    } else {
        let tok = t[s.pos];
        let k = tok.kind;
        if k == TokenKind::Int {
            (bump(t, s), ExprV { kind: ExprKindV::Int { value: int_value(tok.text) }, span: tok.span })
        } else if k == TokenKind::True {
            (bump(t, s), ExprV { kind: ExprKindV::Bool { value: true }, span: tok.span })
        } else if k == TokenKind::False {
            (bump(t, s), ExprV { kind: ExprKindV::Bool { value: false }, span: tok.span })
        } else if k == TokenKind::Ident {
            (bump(t, s), ExprV { kind: ExprKindV::Name { name: tok.text }, span: tok.span })
        } else if k == TokenKind::LParen {
            let (s2, inner) = p_expr(t, bump(t, s));
            let (s3, close) = p_expect(t, s2, TokenKind::RParen, "`)`"@);
            let end = match close {
                Some(sp) => sp.end,
                None => inner.span.end,
            };
            (
                s3,
                ExprV {
                    kind: ExprKindV::Paren { inner: Box::new(inner) },
                    span: Span { start: tok.span.start, end },
                },
            )
        } else if k == TokenKind::LBrace {
            let (s2, block) = p_block_from(t, bump(t, s), tok.span.start);
            (s2, ExprV { kind: ExprKindV::Block { block }, span: block.span })
        } else if k == TokenKind::If {
            p_if(t, s)
        } else {
            (
                bump(t, with_err(s, tok.span, DiagKind::ParseError, "expected an expression"@)),
                error_expr(tok.span),
            )
        }
    }
}

pub open spec fn p_if(t: Seq<TokenV>, s: PS) -> (PS, ExprV)
    decreases t.len() - s.pos, 10int,
{
    if !(0 <= s.pos < t.len()) {
        (s, error_expr(Span { start: 0, end: 0 }))
    } else {
    let start = cur_span(t, s).start;
    let (s2, cond) = p_expr(t, bump(t, s));
    if s.pos < s2.pos <= t.len() {
        let (s3, then_block) = p_block(t, s2);
        if s.pos < s3.pos <= t.len() && is_kind(t, s3, TokenKind::Else) {
            let (s5, b) = p_block(t, bump(t, s3));
            (
                s5,
                ExprV {
                    kind: ExprKindV::If {
                        cond: Box::new(cond),
                        then_block,
                        else_block: Some(b),
                    },
                    span: Span { start, end: b.span.end },
                },
            )
        } else {
            (
                s3,
                ExprV {
                    kind: ExprKindV::If { cond: Box::new(cond), then_block, else_block: None },
                    span: Span { start, end: then_block.span.end },
                },
            )
        }
    } else {
        (s2, cond)
    }
    }
}

pub open spec fn p_expr_stmt_top(t: Seq<TokenV>, s: PS) -> (PS, StmtV) {
    let (s1, e) = p_expr(t, s);
    let (s2, semi) = p_expect(t, s1, TokenKind::Semi, "`;`"@);
    let end = match semi {
        Some(sp) => sp.end,
        None => e.span.end,
    };
    let s3 = if semi is None {
        p_recover(t, s2)
    } else {
        s2
    };
    (s3, StmtV { kind: StmtKindV::Expr { expr: e }, span: Span { start: e.span.start, end } })
}

pub open spec fn p_top_stmt(t: Seq<TokenV>, s: PS) -> (PS, StmtV) {
    if is_kind(t, s, TokenKind::Fn) {
        p_fn(t, s)
    } else if is_kind(t, s, TokenKind::Let) {
        p_let(t, s)
    } else {
        p_expr_stmt_top(t, s)
    }
}

/// The statement groups of the tokens from the current position on.
pub open spec fn p_grouped(t: Seq<TokenV>, s: PS, groups: Seq<GroupV>) -> (PS, Seq<GroupV>)
    decreases t.len() - s.pos,
{
    if s.pos < 0 || at_end(t, s) {
        (s, groups)
    } else {
        let (s1, stmt) = p_top_stmt(t, s);
        let s2 = ensure_progress(t, s.pos, s1);
        if s.pos < s2.pos <= t.len() && s.diags.len() <= s2.diags.len() {
            let g = GroupV {
                stmt,
                tokens: t.subrange(s.pos, s2.pos),
                diags: s2.diags.subrange(s.diags.len() as int, s2.diags.len() as int),
            };
            p_grouped(t, s2, groups.push(g))
        } else {
            (s2, groups)
        }
    }
}

/// Statement groups of a token sequence and whether it ran out mid construct.
pub open spec fn spec_parse_items(t: Seq<TokenV>) -> (Seq<GroupV>, bool) {
    let (s, groups) = p_grouped(t, init_ps(), seq![]);
    (groups, s.trunc)
}

pub open spec fn group_stmts(gs: Seq<GroupV>) -> Seq<StmtV> {
    gs.map_values(|g: GroupV| g.stmt)
}

/// All diagnostics of the groups, in order.
pub open spec fn group_diags(gs: Seq<GroupV>) -> Seq<DiagV>
    decreases gs.len(),
{
    if gs.len() == 0 {
        seq![]
    } else {
        group_diags(gs.drop_last()) + gs.last().diags
    }
}

pub open spec fn shift_diagv(d: DiagV, delta: i64) -> DiagV {
    DiagV { span: d.span.spec_shifted(delta), ..d }
}

pub open spec fn shift_diagvs(ds: Seq<DiagV>, delta: i64) -> Seq<DiagV> {
    ds.map_values(|d: DiagV| shift_diagv(d, delta))
}

/// A statement group moved by `delta` bytes.
pub open spec fn shift_group(g: GroupV, delta: i64) -> GroupV {
    GroupV {
        stmt: shift_stmt_v(g.stmt, delta),
        tokens: shift_tokvs(g.tokens, delta),
        diags: shift_diagvs(g.diags, delta),
    }
}

pub open spec fn shift_groups(gs: Seq<GroupV>, delta: i64) -> Seq<GroupV> {
    gs.map_values(|g: GroupV| shift_group(g, delta))
}

/// All tokens of the groups, in order.
pub open spec fn group_tokens(gs: Seq<GroupV>) -> Seq<TokenV>
    decreases gs.len(),
{
    if gs.len() == 0 {
        seq![]
    } else {
        group_tokens(gs.drop_last()) + gs.last().tokens
    }
}

} // verus!

verus! {

/// Every token of `ts` lies within `[lo, hi]` and is not empty.
pub open spec fn tokens_within(ts: Seq<TokenV>, lo: int, hi: int) -> bool {
    forall|j: int|
        0 <= j < ts.len() ==> lo <= (#[trigger] ts[j]).span.start < ts[j].span.end <= hi
}

pub open spec fn groups_within(gs: Seq<GroupV>, lo: int, hi: int) -> bool {
    forall|i: int| 0 <= i < gs.len() ==> tokens_within(#[trigger] gs[i].tokens, lo, hi)
}

/// Every group has tokens in order, and each token of an earlier group ends
/// before the first token of a later group starts.
pub open spec fn groups_ordered(gs: Seq<GroupV>) -> bool {
    &&& forall|i: int| 0 <= i < gs.len() ==> (#[trigger] gs[i]).tokens.len() > 0
    &&& forall|i: int| 0 <= i < gs.len() ==> tokens_ordered(#[trigger] gs[i].tokens)
    &&& forall|i: int, j: int, a: int|
        0 <= i < j < gs.len() && 0 <= a < gs[i].tokens.len() ==> (#[trigger] gs[i].tokens[a]).span.end
            <= (#[trigger] gs[j]).tokens[0].span.start
}

/// Every token of the groups ends no later than `x`.
pub open spec fn groups_end_by(gs: Seq<GroupV>, x: int) -> bool {
    forall|i: int, a: int|
        0 <= i < gs.len() && 0 <= a < gs[i].tokens.len() ==> (#[trigger] gs[i].tokens[a]).span.end <= x
}

/// The statement groups take their tokens from the input in order, so they lie
/// where the input's tokens lie and come one after another.
pub proof fn lemma_grouped_within(t: Seq<TokenV>, s: PS, groups: Seq<GroupV>, lo: int, hi: int)
    requires
        tokens_within(t, lo, hi),
        tokens_ordered(t),
        groups_within(groups, lo, hi),
        groups_ordered(groups),
        0 <= s.pos < t.len() ==> groups_end_by(groups, t[s.pos].span.start as int),
    ensures
        groups_within(p_grouped(t, s, groups).1, lo, hi),
        groups_ordered(p_grouped(t, s, groups).1),
    decreases t.len() - s.pos,
{
    if s.pos < 0 || at_end(t, s) {
    } else {
        let (s1, stmt) = p_top_stmt(t, s);
        let s2 = ensure_progress(t, s.pos, s1);
        if s.pos < s2.pos <= t.len() && s.diags.len() <= s2.diags.len() {
            let g = GroupV {
                stmt,
                tokens: t.subrange(s.pos, s2.pos),
                diags: s2.diags.subrange(s.diags.len() as int, s2.diags.len() as int),
            };
            let gs = groups.push(g);
            assert(tokens_within(g.tokens, lo, hi)) by {
                assert forall|j: int| 0 <= j < g.tokens.len() implies lo <= (#[trigger] g.tokens[j]).span.start
                    < g.tokens[j].span.end <= hi by {
                    assert(g.tokens[j] == t[s.pos + j]);
                }
            }
            assert(tokens_ordered(g.tokens)) by {
                assert forall|x: int, y: int| 0 <= x < y < g.tokens.len() implies (#[trigger] g.tokens[x]).span.end
                    <= (#[trigger] g.tokens[y]).span.start by {
                    assert(g.tokens[x] == t[s.pos + x]);
                    assert(g.tokens[y] == t[s.pos + y]);
                }
            }
            assert forall|i: int| 0 <= i < gs.len() implies tokens_ordered(#[trigger] gs[i].tokens) by {
                if i < groups.len() {
                    assert(gs[i] == groups[i]);
                }
            }
            assert(groups_within(gs, lo, hi)) by {
                assert forall|i: int| 0 <= i < gs.len() implies tokens_within(#[trigger] gs[i].tokens, lo, hi) by {
                    if i < groups.len() {
                        assert(gs[i] == groups[i]);
                    }
                }
            }
            assert(g.tokens[0] == t[s.pos]);
            assert forall|i: int| 0 <= i < gs.len() implies (#[trigger] gs[i]).tokens.len() > 0 by {
                if i < groups.len() {
                    assert(gs[i] == groups[i]);
                }
            }
            assert forall|i: int, j: int, a: int|
                0 <= i < j < gs.len() && 0 <= a < gs[i].tokens.len() implies (#[trigger] gs[i].tokens[a]).span.end
                <= (#[trigger] gs[j]).tokens[0].span.start by {
                assert(gs[i] == groups[i]);
                if j < groups.len() {
                    assert(gs[j] == groups[j]);
                }
            }
            if s2.pos < t.len() {
                assert forall|i: int, a: int|
                    0 <= i < gs.len() && 0 <= a < gs[i].tokens.len() implies (#[trigger] gs[i].tokens[a]).span.end
                    <= t[s2.pos].span.start by {
                    if i < groups.len() {
                        assert(gs[i] == groups[i]);
                        assert(t[s.pos].span.end <= t[s2.pos].span.start);
                    } else {
                        assert(gs[i].tokens[a] == t[s.pos + a]);
                    }
                }
            }
            lemma_grouped_within(t, s2, gs, lo, hi);
        }
    }
}

pub proof fn lemma_group_tokens_append(g1: Seq<GroupV>, g2: Seq<GroupV>)
    ensures
        group_tokens(g1 + g2) == group_tokens(g1) + group_tokens(g2),
    decreases g2.len(),
{
    if g2.len() == 0 {
        assert(g1 + g2 =~= g1);
        assert(group_tokens(g1) + group_tokens(g2) =~= group_tokens(g1));
    } else {
        lemma_group_tokens_append(g1, g2.drop_last());
        assert((g1 + g2).drop_last() =~= g1 + g2.drop_last());
        assert((g1 + g2).last() == g2.last());
        assert(group_tokens(g1) + group_tokens(g2) =~= group_tokens(g1) + group_tokens(g2.drop_last())
            + g2.last().tokens);
    }
}

/// What holds of every token of every group holds of every token of their
/// concatenation.
pub proof fn lemma_group_tokens_all(gs: Seq<GroupV>, p: spec_fn(TokenV) -> bool)
    requires
        forall|i: int, a: int|
            0 <= i < gs.len() && 0 <= a < gs[i].tokens.len() ==> p(#[trigger] gs[i].tokens[a]),
    ensures
        forall|x: int| 0 <= x < group_tokens(gs).len() ==> p(#[trigger] group_tokens(gs)[x]),
    decreases gs.len(),
{
    if gs.len() > 0 {
        let init = gs.drop_last();
        assert forall|i: int, a: int|
            0 <= i < init.len() && 0 <= a < init[i].tokens.len() implies p(#[trigger] init[i].tokens[a]) by {
            assert(init[i] == gs[i]);
        }
        lemma_group_tokens_all(init, p);
        let gt = group_tokens(gs);
        let n = group_tokens(init).len();
        assert forall|x: int| 0 <= x < gt.len() implies p(#[trigger] gt[x]) by {
            if x < n {
                assert(gt[x] == group_tokens(init)[x]);
            } else {
                assert(gt[x] == gs[gs.len() - 1].tokens[x - n]);
            }
        }
    }
}

pub proof fn lemma_group_tokens_shift(gs: Seq<GroupV>, delta: i64)
    ensures
        group_tokens(shift_groups(gs, delta)) == shift_tokvs(group_tokens(gs), delta),
    decreases gs.len(),
{
    if gs.len() == 0 {
        assert(shift_groups(gs, delta) =~= Seq::<GroupV>::empty());
        assert(shift_tokvs(Seq::<TokenV>::empty(), delta) =~= Seq::<TokenV>::empty());
    } else {
        lemma_group_tokens_shift(gs.drop_last(), delta);
        assert(shift_groups(gs, delta).drop_last() =~= shift_groups(gs.drop_last(), delta));
        assert(shift_tokvs(group_tokens(gs), delta) =~= shift_tokvs(group_tokens(gs.drop_last()), delta)
            + shift_tokvs(gs.last().tokens, delta));
    }
}

proof fn lemma_grouped_sizes(t: Seq<TokenV>, s: PS, groups: Seq<GroupV>)
    requires
        0 <= s.pos <= t.len(),
        groups.len() <= s.pos,
        forall|i: int| 0 <= i < groups.len() ==> (#[trigger] groups[i]).tokens.len() > 0,
    ensures
        p_grouped(t, s, groups).1.len() <= t.len(),
        forall|i: int|
            0 <= i < p_grouped(t, s, groups).1.len() ==> (#[trigger] p_grouped(t, s, groups).1[i]).tokens.len() > 0,
    decreases t.len() - s.pos,
{
    if !(s.pos < 0 || at_end(t, s)) {
        let (s1, stmt) = p_top_stmt(t, s);
        let s2 = ensure_progress(t, s.pos, s1);
        if s.pos < s2.pos <= t.len() && s.diags.len() <= s2.diags.len() {
            let g = GroupV {
                stmt,
                tokens: t.subrange(s.pos, s2.pos),
                diags: s2.diags.subrange(s.diags.len() as int, s2.diags.len() as int),
            };
            let gs = groups.push(g);
            assert forall|i: int| 0 <= i < gs.len() implies (#[trigger] gs[i]).tokens.len() > 0 by {
                if i < groups.len() {
                    assert(gs[i] == groups[i]);
                }
            }
            lemma_grouped_sizes(t, s2, gs);
        }
    }
}

/// Grouping a token sequence gives groups that each hold at least one token,
/// so no more groups than tokens, and no group and no truncation for no
/// tokens.
pub proof fn law_groups_nonempty(t: Seq<TokenV>)
    ensures
        forall|i: int|
            0 <= i < spec_parse_items(t).0.len() ==> (#[trigger] spec_parse_items(t).0[i]).tokens.len() > 0,
        spec_parse_items(t).0.len() <= t.len(),
        t.len() == 0 ==> spec_parse_items(t).0.len() == 0 && !spec_parse_items(t).1,
{
    lemma_grouped_sizes(t, init_ps(), seq![]);
}


/// How a binary operator is spelled in source text: `+ - * / == != < <= > >=`.
pub open spec fn op_spelling(op: BinOp) -> Seq<u8> {
    match op {
        BinOp::Add => seq![43u8],
        BinOp::Sub => seq![45u8],
        BinOp::Mul => seq![42u8],
        BinOp::Div => seq![47u8],
        BinOp::Eq => seq![61u8, 61u8],
        BinOp::Ne => seq![33u8, 61u8],
        BinOp::Lt => seq![60u8],
        BinOp::Le => seq![60u8, 61u8],
        BinOp::Gt => seq![62u8],
        BinOp::Ge => seq![62u8, 61u8],
    }
}

/// The precedence level of a binary operator: equality binds loosest, then
/// comparison, then `+ -`, then `* /`.
pub open spec fn op_level(op: BinOp) -> int {
    match op {
        BinOp::Eq | BinOp::Ne => 0,
        BinOp::Lt | BinOp::Le | BinOp::Gt | BinOp::Ge => 1,
        BinOp::Add | BinOp::Sub => 2,
        BinOp::Mul | BinOp::Div => 3,
    }
}

/// Each operator token stands for the operator of the same spelling: where the
/// parser reads a binary operator, the token there is spelled as that operator,
/// and a token spelled as an operator is read as that operator at the
/// operator's own precedence level.
pub proof fn law_operator_tokens_keep_their_spelling(t: Seq<TokenV>, s: PS, lvl: int, op: BinOp)
    ensures
        bin_op_at(t, s, lvl) == Some(op) ==> fixed_spelling(t[s.pos].kind) == Some(op_spelling(op))
            && lvl == op_level(op),
        0 <= s.pos < t.len() && fixed_spelling(t[s.pos].kind) == Some(op_spelling(op)) && lvl
            == op_level(op) ==> bin_op_at(t, s, lvl) == Some(op),
{
    if 0 <= s.pos < t.len() && fixed_spelling(t[s.pos].kind) == Some(op_spelling(op)) {
        let k = t[s.pos].kind;
        let w = op_spelling(op);
        let f = fixed_spelling(k).unwrap();
        assert(f.len() == w.len());
        assert(f[0] == w[0]);
        if w.len() == 2 {
            assert(f[1] == w[1]);
        }
        match k {
            TokenKind::Let | TokenKind::Else | TokenKind::True | TokenKind::False => {
                assert(f.len() >= 3);
            },
            TokenKind::Fn | TokenKind::If => {
                assert(f[0] >= 100);
            },
            _ => {},
        }
    }
}

proof fn lemma_op_spelling_distinct(a: BinOp, b: BinOp)
    ensures
        op_spelling(a) == op_spelling(b) ==> a == b,
{
    if op_spelling(a) == op_spelling(b) {
        let w = op_spelling(a);
        let v = op_spelling(b);
        assert(w.len() == v.len());
        assert(w[0] == v[0]);
        if w.len() == 2 {
            assert(w[1] == v[1]);
        }
    }
}

spec fn state_at(k: int) -> PS {
    PS { pos: k, diags: seq![], trunc: false }
}

spec fn literal_expr(tk: TokenV) -> ExprV {
    ExprV { kind: ExprKindV::Int { value: int_value(tk.text) }, span: tk.span }
}

/// The shape `Int op Int ;` with `op` spelled as an operator.
spec fn binary_shape(t: Seq<TokenV>, op: BinOp) -> bool {
    &&& t.len() == 4
    &&& t[0].kind == TokenKind::Int
    &&& t[2].kind == TokenKind::Int
    &&& t[3].kind == TokenKind::Semi
    &&& fixed_spelling(t[1].kind) == Some(op_spelling(op))
}

proof fn lemma_shape_ops(t: Seq<TokenV>, op: BinOp, lvl: int)
    requires
        binary_shape(t, op),
    ensures
        bin_op_at(t, state_at(1), lvl) == (if lvl == op_level(op) {
            Some(op)
        } else {
            None::<BinOp>
        }),
        bin_op_at(t, state_at(3), lvl) is None,
        t[1].kind != TokenKind::LParen,
{
    lemma_chain_op(t, 1, op, lvl);
}

proof fn lemma_shape_literal(t: Seq<TokenV>, op: BinOp, k: int)
    requires
        binary_shape(t, op),
        k == 0 || k == 2,
    ensures
        p_unary(t, state_at(k)) == (state_at(k + 1), literal_expr(t[k])),
{
    lemma_shape_ops(t, op, 0);
    let (s1, e) = p_primary(t, state_at(k));
    assert(s1 == state_at(k + 1));
    assert(e == literal_expr(t[k]));
    assert(p_postfix_loop(t, s1, e) == (s1, e));
    assert(p_postfix(t, state_at(k)) == (state_at(k + 1), literal_expr(t[k])));
}

proof fn lemma_shape_rhs(t: Seq<TokenV>, op: BinOp, lvl: int)
    requires
        binary_shape(t, op),
        0 <= lvl <= 3,
    ensures
        p_bin(t, state_at(2), lvl) == (state_at(3), literal_expr(t[2])),
    decreases 3 - lvl,
{
    lemma_shape_ops(t, op, lvl);
    if lvl == 3 {
        lemma_shape_literal(t, op, 2);
    } else {
        lemma_shape_rhs(t, op, lvl + 1);
    }
    assert(p_bin_loop(t, state_at(3), lvl, literal_expr(t[2])) == (
        state_at(3),
        literal_expr(t[2]),
    ));
}

proof fn lemma_shape_lhs(t: Seq<TokenV>, op: BinOp, lvl: int)
    requires
        binary_shape(t, op),
        0 <= lvl <= 3,
    ensures
        lvl > op_level(op) ==> p_bin(t, state_at(0), lvl) == (state_at(1), literal_expr(t[0])),
        lvl <= op_level(op) ==> p_bin(t, state_at(0), lvl) == (
            state_at(3),
            binary_v(literal_expr(t[0]), op, literal_expr(t[2])),
        ),
    decreases 3 - lvl,
{
    lemma_shape_ops(t, op, lvl);
    let a = literal_expr(t[0]);
    let e = binary_v(a, op, literal_expr(t[2]));
    if lvl == 3 {
        lemma_shape_literal(t, op, 0);
    } else {
        lemma_shape_lhs(t, op, lvl + 1);
    }
    if lvl > op_level(op) {
        assert(p_bin_loop(t, state_at(1), lvl, a) == (state_at(1), a));
    } else if lvl == op_level(op) {
        if lvl == 3 {
            lemma_shape_literal(t, op, 2);
        } else {
            lemma_shape_rhs(t, op, lvl + 1);
        }
        assert(bump(t, state_at(1)) == state_at(2));
        assert(p_bin_loop(t, state_at(3), lvl, e) == (state_at(3), e));
        assert(p_bin_loop(t, state_at(1), lvl, a) == (state_at(3), e));
    } else {
        assert(p_bin_loop(t, state_at(3), lvl, e) == (state_at(3), e));
    }
}

/// An operator token between two integer literals, closed by `;`, parses to
/// one expression statement with no diagnostics: the operator spelled as that
/// token (`>=` gives `Ge`, `<=` gives `Le`, and so on) applied to the two
/// literals.
pub proof fn law_binary_statement_parses(t: Seq<TokenV>, op: BinOp)
    requires
        t.len() == 4,
        t[0].kind == TokenKind::Int,
        t[2].kind == TokenKind::Int,
        t[3].kind == TokenKind::Semi,
        fixed_spelling(t[1].kind) == Some(op_spelling(op)),
    ensures
        spec_parse_items(t) == (
            seq![
                GroupV {
                    stmt: StmtV {
                        kind: StmtKindV::Expr {
                            expr: ExprV {
                                kind: ExprKindV::Binary {
                                    op,
                                    lhs: Box::new(
                                        ExprV {
                                            kind: ExprKindV::Int { value: int_value(t[0].text) },
                                            span: t[0].span,
                                        },
                                    ),
                                    rhs: Box::new(
                                        ExprV {
                                            kind: ExprKindV::Int { value: int_value(t[2].text) },
                                            span: t[2].span,
                                        },
                                    ),
                                },
                                span: Span { start: t[0].span.start, end: t[2].span.end },
                            },
                        },
                        span: Span { start: t[0].span.start, end: t[3].span.end },
                    },
                    tokens: t,
                    diags: seq![],
                },
            ],
            false,
        ),
{
    let e = binary_v(literal_expr(t[0]), op, literal_expr(t[2]));
    lemma_shape_lhs(t, op, 0);
    assert(p_expr(t, state_at(0)) == (state_at(3), e));
    assert(p_expect(t, state_at(3), TokenKind::Semi, "`;`"@) == (state_at(4), Some(t[3].span)));
    let stmt = StmtV {
        kind: StmtKindV::Expr { expr: e },
        span: Span { start: t[0].span.start, end: t[3].span.end },
    };
    assert(p_expr_stmt_top(t, state_at(0)) == (state_at(4), stmt));
    assert(p_top_stmt(t, state_at(0)) == (state_at(4), stmt));
    assert(ensure_progress(t, 0, state_at(4)) == state_at(4));
    let g = GroupV { stmt, tokens: t.subrange(0, 4), diags: seq![] };
    assert(t.subrange(0, 4) =~= t);
    assert(state_at(4).diags.subrange(0, 0) =~= Seq::<DiagV>::empty());
    assert(p_grouped(t, state_at(4), seq![g]) == (state_at(4), seq![g]));
    assert(init_ps() == state_at(0));
    assert(p_grouped(t, state_at(0), seq![]) == (state_at(4), seq![g]));
}

/// The shape `Int op1 Int op2 Int ;` with `op1` and `op2` spelled as operators.
spec fn chain_shape(t: Seq<TokenV>, op1: BinOp, op2: BinOp) -> bool {
    &&& t.len() == 6
    &&& t[0].kind == TokenKind::Int
    &&& t[2].kind == TokenKind::Int
    &&& t[4].kind == TokenKind::Int
    &&& t[5].kind == TokenKind::Semi
    &&& fixed_spelling(t[1].kind) == Some(op_spelling(op1))
    &&& fixed_spelling(t[3].kind) == Some(op_spelling(op2))
}

proof fn lemma_chain_op(t: Seq<TokenV>, k: int, op: BinOp, lvl: int)
    requires
        0 <= k < t.len(),
        fixed_spelling(t[k].kind) == Some(op_spelling(op)),
    ensures
        bin_op_at(t, state_at(k), lvl) == (if lvl == op_level(op) {
            Some(op)
        } else {
            None::<BinOp>
        }),
        t[k].kind != TokenKind::LParen,
{
    law_operator_tokens_keep_their_spelling(t, state_at(k), lvl, op);
    match bin_op_at(t, state_at(k), lvl) {
        Some(op2) => {
            law_operator_tokens_keep_their_spelling(t, state_at(k), lvl, op2);
            lemma_op_spelling_distinct(op, op2);
        },
        None => {},
    }
    if t[k].kind == TokenKind::LParen {
        assert(op_spelling(op) == seq![40u8]);
        assert(op_spelling(op)[0] == 40u8);
    }
}

proof fn lemma_chain_facts(t: Seq<TokenV>, op1: BinOp, op2: BinOp, lvl: int)
    requires
        chain_shape(t, op1, op2),
    ensures
        bin_op_at(t, state_at(1), lvl) == (if lvl == op_level(op1) {
            Some(op1)
        } else {
            None::<BinOp>
        }),
        bin_op_at(t, state_at(3), lvl) == (if lvl == op_level(op2) {
            Some(op2)
        } else {
            None::<BinOp>
        }),
        bin_op_at(t, state_at(5), lvl) is None,
        p_unary(t, state_at(0)) == (state_at(1), literal_expr(t[0])),
        p_unary(t, state_at(2)) == (state_at(3), literal_expr(t[2])),
        p_unary(t, state_at(4)) == (state_at(5), literal_expr(t[4])),
{
    lemma_chain_op(t, 1, op1, lvl);
    lemma_chain_op(t, 3, op2, lvl);
    assert forall|k: int| k == 0 || k == 2 || k == 4 implies p_unary(t, state_at(k)) == (
        state_at(k + 1),
        literal_expr(t[k]),
    ) by {
        let (s1, e) = p_primary(t, state_at(k));
        assert(s1 == state_at(k + 1));
        assert(e == literal_expr(t[k]));
        assert(p_postfix_loop(t, s1, e) == (s1, e));
        assert(p_postfix(t, state_at(k)) == (state_at(k + 1), literal_expr(t[k])));
    }
}

proof fn lemma_chain_last(t: Seq<TokenV>, op1: BinOp, op2: BinOp, lvl: int)
    requires
        chain_shape(t, op1, op2),
        0 <= lvl <= 3,
    ensures
        p_bin(t, state_at(4), lvl) == (state_at(5), literal_expr(t[4])),
    decreases 3 - lvl,
{
    lemma_chain_facts(t, op1, op2, lvl);
    if lvl < 3 {
        lemma_chain_last(t, op1, op2, lvl + 1);
    }
    assert(p_bin_loop(t, state_at(5), lvl, literal_expr(t[4])) == (
        state_at(5),
        literal_expr(t[4]),
    ));
}

proof fn lemma_chain_middle(t: Seq<TokenV>, op1: BinOp, op2: BinOp, lvl: int)
    requires
        chain_shape(t, op1, op2),
        0 <= lvl <= 3,
    ensures
        lvl > op_level(op2) ==> p_bin(t, state_at(2), lvl) == (state_at(3), literal_expr(t[2])),
        lvl <= op_level(op2) ==> p_bin(t, state_at(2), lvl) == (
            state_at(5),
            binary_v(literal_expr(t[2]), op2, literal_expr(t[4])),
        ),
    decreases 3 - lvl,
{
    lemma_chain_facts(t, op1, op2, lvl);
    let b = literal_expr(t[2]);
    let e = binary_v(b, op2, literal_expr(t[4]));
    if lvl < 3 {
        lemma_chain_middle(t, op1, op2, lvl + 1);
    }
    if lvl > op_level(op2) {
        assert(p_bin_loop(t, state_at(3), lvl, b) == (state_at(3), b));
    } else if lvl == op_level(op2) {
        if lvl < 3 {
            lemma_chain_last(t, op1, op2, lvl + 1);
        }
        assert(bump(t, state_at(3)) == state_at(4));
        assert(p_bin_loop(t, state_at(5), lvl, e) == (state_at(5), e));
        assert(p_bin_loop(t, state_at(3), lvl, b) == (state_at(5), e));
    } else {
        assert(p_bin_loop(t, state_at(5), lvl, e) == (state_at(5), e));
    }
}

/// The expression `a op1 b op2 c` groups as the precedence levels say: the
/// tighter operator first, and to the left between equal levels.
spec fn chain_expr(t: Seq<TokenV>, op1: BinOp, op2: BinOp) -> ExprV {
    let a = literal_expr(t[0]);
    let b = literal_expr(t[2]);
    let c = literal_expr(t[4]);
    if op_level(op1) >= op_level(op2) {
        binary_v(binary_v(a, op1, b), op2, c)
    } else {
        binary_v(a, op1, binary_v(b, op2, c))
    }
}

proof fn lemma_chain_first(t: Seq<TokenV>, op1: BinOp, op2: BinOp, lvl: int)
    requires
        chain_shape(t, op1, op2),
        0 <= lvl <= 3,
    ensures
        lvl > op_level(op1) ==> p_bin(t, state_at(0), lvl) == (state_at(1), literal_expr(t[0])),
        op_level(op2) < lvl <= op_level(op1) ==> p_bin(t, state_at(0), lvl) == (
            state_at(3),
            binary_v(literal_expr(t[0]), op1, literal_expr(t[2])),
        ),
        lvl <= op_level(op1) && lvl <= op_level(op2) ==> p_bin(t, state_at(0), lvl) == (
            state_at(5),
            chain_expr(t, op1, op2),
        ),
    decreases 3 - lvl,
{
    lemma_chain_facts(t, op1, op2, lvl);
    let a = literal_expr(t[0]);
    let b = literal_expr(t[2]);
    let c = literal_expr(t[4]);
    let e1 = binary_v(a, op1, b);
    let l1 = op_level(op1);
    let l2 = op_level(op2);
    let x = chain_expr(t, op1, op2);
    if lvl < 3 {
        lemma_chain_first(t, op1, op2, lvl + 1);
        lemma_chain_middle(t, op1, op2, lvl + 1);
        lemma_chain_last(t, op1, op2, lvl + 1);
    }
    assert(bump(t, state_at(1)) == state_at(2));
    assert(bump(t, state_at(3)) == state_at(4));
    assert(p_bin_loop(t, state_at(5), lvl, x) == (state_at(5), x));
    if lvl > l1 {
        assert(p_bin_loop(t, state_at(1), lvl, a) == (state_at(1), a));
    } else if lvl == l1 {
        if l1 >= l2 {
            if lvl == l2 {
                assert(p_bin_loop(t, state_at(3), lvl, e1) == (state_at(5), x));
            } else {
                assert(p_bin_loop(t, state_at(3), lvl, e1) == (state_at(3), e1));
            }
        }
        if l1 >= l2 {
            assert(p_bin_loop(t, state_at(1), lvl, a) == p_bin_loop(t, state_at(3), lvl, e1));
        } else {
            assert(p_bin_loop(t, state_at(1), lvl, a) == (state_at(5), x));
        }
    } else if lvl > l2 {
        assert(p_bin_loop(t, state_at(3), lvl, e1) == (state_at(3), e1));
    } else if lvl == l2 {
        assert(p_bin_loop(t, state_at(3), lvl, e1) == (state_at(5), x));
    }
}

/// Precedence and grouping: `a op1 b op2 c ;` over integer literals parses to
/// one expression statement with no diagnostics, in which the operator of the
/// tighter level (`* /` over `+ -` over comparisons over `== !=`) applies
/// first, and between operators of one level the left one applies first.
pub proof fn law_precedence_and_grouping(t: Seq<TokenV>, op1: BinOp, op2: BinOp)
    requires
        t.len() == 6,
        t[0].kind == TokenKind::Int,
        t[2].kind == TokenKind::Int,
        t[4].kind == TokenKind::Int,
        t[5].kind == TokenKind::Semi,
        fixed_spelling(t[1].kind) == Some(op_spelling(op1)),
        fixed_spelling(t[3].kind) == Some(op_spelling(op2)),
    ensures
        ({
            let a = ExprV { kind: ExprKindV::Int { value: int_value(t[0].text) }, span: t[0].span };
            let b = ExprV { kind: ExprKindV::Int { value: int_value(t[2].text) }, span: t[2].span };
            let c = ExprV { kind: ExprKindV::Int { value: int_value(t[4].text) }, span: t[4].span };
            let e = if op_level(op1) >= op_level(op2) {
                binary_v(binary_v(a, op1, b), op2, c)
            } else {
                binary_v(a, op1, binary_v(b, op2, c))
            };
            spec_parse_items(t) == (
                seq![
                    GroupV {
                        stmt: StmtV {
                            kind: StmtKindV::Expr { expr: e },
                            span: Span { start: t[0].span.start, end: t[5].span.end },
                        },
                        tokens: t,
                        diags: seq![],
                    },
                ],
                false,
            )
        }),
{
    let x = chain_expr(t, op1, op2);
    lemma_chain_first(t, op1, op2, 0);
    assert(p_expr(t, state_at(0)) == (state_at(5), x));
    assert(p_expect(t, state_at(5), TokenKind::Semi, "`;`"@) == (state_at(6), Some(t[5].span)));
    assert(x.span.start == t[0].span.start);
    let stmt = StmtV {
        kind: StmtKindV::Expr { expr: x },
        span: Span { start: t[0].span.start, end: t[5].span.end },
    };
    assert(p_expr_stmt_top(t, state_at(0)) == (state_at(6), stmt));
    assert(p_top_stmt(t, state_at(0)) == (state_at(6), stmt));
    assert(ensure_progress(t, 0, state_at(6)) == state_at(6));
    let g = GroupV { stmt, tokens: t.subrange(0, 6), diags: seq![] };
    assert(t.subrange(0, 6) =~= t);
    assert(state_at(6).diags.subrange(0, 0) =~= Seq::<DiagV>::empty());
    assert(p_grouped(t, state_at(6), seq![g]) == (state_at(6), seq![g]));
    assert(init_ps() == state_at(0));
    assert(p_grouped(t, state_at(0), seq![]) == (state_at(6), seq![g]));
}
} // verus!
