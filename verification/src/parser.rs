//! A recursive descent parser with error recovery.
//!
//! The parser works on a slice of already lexed tokens so the incremental layer
//! can hand it just the tokens around an edit. It always makes progress, and it
//! records whether it ran out of tokens mid construct (`truncated`). Every
//! parsing function computes exactly the corresponding function of
//! `parse_spec`.

use vstd::prelude::*;
use vstd::string::StringExecFns;
use vstd::string::StringSliceAdditionalSpecFns;
use crate::ast::{
    Ident, Stmt, StmtKind, LetStmt, FnDecl, Block, Expr, ExprKind, BinOp, UnOp, Program,
    ident_v, idents_v, expr_v, exprs_v, block_v, stmt_v, stmts_v, lemma_exprs_v_push,
    lemma_stmts_v_push, StmtV, ExprV,
};
use crate::diagnostics::{DiagKind, Diagnostic, diags_view, error_v};
use crate::lexer::{Token, TokenKind, TokenV, tokens_view, lex_at, spec_lex};
use crate::numbers::parse_i64;
use crate::parse_spec::{PS, GroupV, at_end, is_kind, bump, with_err, eof_span, cur_span, prev_end, p_expect, p_recover, p_ident_or_missing, p_ident, p_params, binary_v, bin_op_at, lvl_rank, p_block_from, p_block, p_block_items, p_fn, p_let, p_args, p_expr, p_bin, p_bin_loop, p_unary, p_postfix, p_postfix_loop, p_primary, p_if, p_expr_stmt_top, p_top_stmt, p_grouped, spec_parse_items, group_stmts, group_diags, group_tokens, init_ps};
use crate::span::Span;

verus! {

pub struct ParseOutput {
    pub program: Program,
    pub diagnostics: Vec<Diagnostic>,
    /// True when parsing stopped because the token stream ended inside a
    /// construct that expected more input.
    pub truncated: bool,
}

/// One top level statement together with exactly the tokens it consumed and the
/// diagnostics its parse produced.
#[derive(Clone)]
pub struct ItemParse {
    pub stmt: Stmt,
    pub tokens: Vec<Token>,
    pub diagnostics: Vec<Diagnostic>,
}

pub open spec fn item_v(g: ItemParse) -> GroupV {
    GroupV { stmt: stmt_v(g.stmt), tokens: tokens_view(g.tokens@), diags: diags_view(g.diagnostics@) }
}

pub open spec fn items_v(gs: Seq<ItemParse>) -> Seq<GroupV> {
    gs.map_values(|g: ItemParse| item_v(g))
}

struct PState {
    pos: usize,
    diagnostics: Vec<Diagnostic>,
    truncated: bool,
}

spec fn sv(st: PState) -> PS {
    PS { pos: st.pos as int, diags: diags_view(st.diagnostics@), trunc: st.truncated }
}

spec fn tv(toks: &[Token]) -> Seq<TokenV> {
    tokens_view(toks@)
}

fn concat2(a: &str, b: &str) -> (s: String)
    ensures
        s@ == a@ + b@,
{
    let mut s = String::from_str(a);
    s.append(b);
    s
}

fn push_error(st: &mut PState, span: Span, kind: DiagKind, msg: String)
    ensures
        final(st).pos == old(st).pos,
        final(st).diagnostics@.len() == old(st).diagnostics@.len() + 1,
        sv(*final(st)) == with_err(sv(*old(st)), span, kind, msg@),
{
    let d = Diagnostic::error(span, kind, msg);
    let ghost before = st.diagnostics@;
    st.diagnostics.push(d);
    assert(diags_view(st.diagnostics@) =~= diags_view(before).push(error_v(span, kind, msg@)));
}

fn is_at_end(toks: &[Token], st: &PState) -> (b: bool)
    ensures
        b == at_end(tv(toks), sv(*st)),
{
    st.pos >= toks.len()
}

fn kind_at(toks: &[Token], st: &PState) -> (k: Option<TokenKind>)
    ensures
        k == (if sv(*st).pos < tv(toks).len() {
            Some(tv(toks)[sv(*st).pos].kind)
        } else {
            None::<TokenKind>
        }),
{
    if st.pos < toks.len() {
        Some(toks[st.pos].kind)
    } else {
        None
    }
}

fn at_kind(toks: &[Token], st: &PState, k: TokenKind) -> (b: bool)
    ensures
        b == is_kind(tv(toks), sv(*st), k),
{
    st.pos < toks.len() && toks[st.pos].kind == k
}

fn advance(toks: &[Token], st: &mut PState)
    requires
        old(st).pos <= toks@.len(),
    ensures
        sv(*final(st)) == bump(tv(toks), sv(*old(st))),
        final(st).pos <= toks@.len(),
        final(st).diagnostics == old(st).diagnostics,
{
    if st.pos < toks.len() {
        st.pos = st.pos + 1;
    }
}

fn end_span(toks: &[Token]) -> (s: Span)
    ensures
        s == eof_span(tv(toks)),
{
    if toks.len() > 0 {
        let end = toks[toks.len() - 1].span.end;
        Span::new(end, end)
    } else {
        Span::new(0, 0)
    }
}

fn current_span(toks: &[Token], st: &PState) -> (s: Span)
    ensures
        s == cur_span(tv(toks), sv(*st)),
{
    if st.pos < toks.len() {
        toks[st.pos].span
    } else {
        end_span(toks)
    }
}

fn last_end(toks: &[Token], st: &PState) -> (e: u32)
    requires
        st.pos <= toks@.len(),
    ensures
        e == prev_end(tv(toks), sv(*st)),
{
    if st.pos > 0 {
        toks[st.pos - 1].span.end
    } else {
        0
    }
}

fn expect(toks: &[Token], st: &mut PState, k: TokenKind, what: &str) -> (r: Option<Span>)
    requires
        old(st).pos <= toks@.len(),
    ensures
        (sv(*final(st)), r) == p_expect(tv(toks), sv(*old(st)), k, what@),
        old(st).pos <= final(st).pos <= toks@.len(),
        old(st).diagnostics@.len() <= final(st).diagnostics@.len(),
{
    if at_kind(toks, st, k) {
        let span = current_span(toks, st);
        advance(toks, st);
        Some(span)
    } else if is_at_end(toks, st) {
        st.truncated = true;
        let msg = concat2("expected ", what);
        let mut msg2 = msg;
        msg2.append(", found end of input");
        push_error(st, end_span(toks), DiagKind::UnexpectedEof, msg2);
        None
    } else {
        let at = last_end(toks, st);
        push_error(st, Span::new(at, at), DiagKind::ParseError, concat2("expected ", what));
        None
    }
}

fn recover_to_stmt_boundary(toks: &[Token], st: &mut PState)
    requires
        old(st).pos <= toks@.len(),
    ensures
        sv(*final(st)) == p_recover(tv(toks), sv(*old(st))),
        old(st).pos <= final(st).pos <= toks@.len(),
        old(st).diagnostics@.len() <= final(st).diagnostics@.len(),
{
    let ghost s0 = sv(*st);
    let mut done = false;
    while !done
        invariant
            s0 == sv(*old(st)),
            old(st).diagnostics@.len() <= st.diagnostics@.len(),
            s0.pos <= st.pos <= toks@.len(),
            !done ==> p_recover(tv(toks), sv(*st)) == p_recover(tv(toks), s0),
            done ==> sv(*st) == p_recover(tv(toks), s0),
        decreases toks@.len() - st.pos, (if done { 0int } else { 1int }),
    {
        match kind_at(toks, st) {
            None => {
                st.truncated = true;
                done = true;
            },
            Some(TokenKind::Semi) => {
                advance(toks, st);
                done = true;
            },
            Some(TokenKind::Fn) | Some(TokenKind::Let) | Some(TokenKind::RBrace) => {
                done = true;
            },
            _ => {
                advance(toks, st);
            },
        }
    }
}

fn parse_ident_or_missing(toks: &[Token], st: &mut PState, what: &str) -> (id: Ident)
    requires
        old(st).pos <= toks@.len(),
    ensures
        (sv(*final(st)), ident_v(id)) == p_ident_or_missing(tv(toks), sv(*old(st)), what@),
        old(st).pos <= final(st).pos <= toks@.len(),
        old(st).diagnostics@.len() <= final(st).diagnostics@.len(),
{
    if at_kind(toks, st, TokenKind::Ident) {
        let t = &toks[st.pos];
        let id = Ident { name: t.text.clone(), span: t.span };
        advance(toks, st);
        id
    } else {
        expect(toks, st, TokenKind::Ident, what);
        let at = current_span(toks, st).start;
        Ident { name: String::new(), span: Span::new(at, at) }
    }
}

fn parse_ident(toks: &[Token], st: &mut PState, what: &str) -> (id: Option<Ident>)
    requires
        old(st).pos <= toks@.len(),
    ensures
        sv(*final(st)) == p_ident(tv(toks), sv(*old(st)), what@).0,
        match id {
            Some(i) => p_ident(tv(toks), sv(*old(st)), what@).1 == Some(ident_v(i)),
            None => p_ident(tv(toks), sv(*old(st)), what@).1 is None,
        },
        old(st).pos <= final(st).pos <= toks@.len(),
        old(st).diagnostics@.len() <= final(st).diagnostics@.len(),
        id is Some ==> final(st).pos == old(st).pos + 1,
{
    if at_kind(toks, st, TokenKind::Ident) {
        let t = &toks[st.pos];
        let id = Ident { name: t.text.clone(), span: t.span };
        advance(toks, st);
        Some(id)
    } else {
        expect(toks, st, TokenKind::Ident, what);
        None
    }
}

fn parse_params(toks: &[Token], st: &mut PState) -> (ps: Vec<Ident>)
    requires
        old(st).pos <= toks@.len(),
    ensures
        (sv(*final(st)), idents_v(ps@)) == p_params(tv(toks), sv(*old(st)), seq![]),
        old(st).pos <= final(st).pos <= toks@.len(),
        old(st).diagnostics@.len() <= final(st).diagnostics@.len(),
{
    let ghost s0 = sv(*st);
    let mut params: Vec<Ident> = Vec::new();
    let mut done = false;
    assert(idents_v(params@) =~= Seq::empty());
    while !done
        invariant
            s0 == sv(*old(st)),
            old(st).diagnostics@.len() <= st.diagnostics@.len(),
            s0.pos <= st.pos <= toks@.len(),
            !done ==> p_params(tv(toks), sv(*st), idents_v(params@)) == p_params(tv(toks), s0, seq![]),
            done ==> (sv(*st), idents_v(params@)) == p_params(tv(toks), s0, seq![]),
        decreases toks@.len() - st.pos, (if done { 0int } else { 1int }),
    {
        let ghost s = sv(*st);
        let ghost acc = idents_v(params@);
        match parse_ident(toks, st, "a parameter name") {
            Some(id) => {
                let ghost idv = ident_v(id);
                params.push(id);
                assert(idents_v(params@) =~= acc.push(idv));
                if at_kind(toks, st, TokenKind::Comma) {
                    advance(toks, st);
                } else {
                    done = true;
                }
            },
            None => {
                done = true;
            },
        }
    }
    params
}

fn binary(lhs: Expr, op: BinOp, rhs: Expr) -> (e: Expr)
    ensures
        expr_v(e) == binary_v(expr_v(lhs), op, expr_v(rhs)),
{
    let span = Span::new(lhs.span.start, rhs.span.end);
    Expr { kind: ExprKind::Binary { op, lhs: Box::new(lhs), rhs: Box::new(rhs) }, span }
}

fn bin_op(toks: &[Token], st: &PState, lvl: u8) -> (r: Option<BinOp>)
    ensures
        r == bin_op_at(tv(toks), sv(*st), lvl as int),
{
    match kind_at(toks, st) {
        None => None,
        Some(k) => if lvl == 0 {
            match k {
                TokenKind::EqEq => Some(BinOp::Eq),
                TokenKind::Ne => Some(BinOp::Ne),
                _ => None,
            }
        } else if lvl == 1 {
            match k {
                TokenKind::Lt => Some(BinOp::Lt),
                TokenKind::Le => Some(BinOp::Le),
                TokenKind::Gt => Some(BinOp::Gt),
                TokenKind::Ge => Some(BinOp::Ge),
                _ => None,
            }
        } else if lvl == 2 {
            match k {
                TokenKind::Plus => Some(BinOp::Add),
                TokenKind::Minus => Some(BinOp::Sub),
                _ => None,
            }
        } else if lvl == 3 {
            match k {
                TokenKind::Star => Some(BinOp::Mul),
                TokenKind::Slash => Some(BinOp::Div),
                _ => None,
            }
        } else {
            None
        },
    }
}

fn parse_expr(toks: &[Token], st: &mut PState) -> (e: Expr)
    requires
        old(st).pos <= toks@.len(),
    ensures
        (sv(*final(st)), expr_v(e)) == p_expr(tv(toks), sv(*old(st))),
        old(st).pos <= final(st).pos <= toks@.len(),
        old(st).diagnostics@.len() <= final(st).diagnostics@.len(),
    decreases toks@.len() - old(st).pos, 23int,
{
    parse_equality(toks, st)
}

/// Operand of level `lvl`: the next level down, or a unary expression.
fn parse_operand(toks: &[Token], st: &mut PState, lvl: u8) -> (e: Expr)
    requires
        old(st).pos <= toks@.len(),
        lvl <= 3,
    ensures
        (sv(*final(st)), expr_v(e)) == (if lvl == 3 {
            p_unary(tv(toks), sv(*old(st)))
        } else {
            p_bin(tv(toks), sv(*old(st)), lvl + 1)
        }),
        old(st).pos <= final(st).pos <= toks@.len(),
        old(st).diagnostics@.len() <= final(st).diagnostics@.len(),
    decreases toks@.len() - old(st).pos, lvl_rank(lvl as int) - 1,
{
    if lvl == 0 {
        parse_comparison(toks, st)
    } else if lvl == 1 {
        parse_additive(toks, st)
    } else if lvl == 2 {
        parse_multiplicative(toks, st)
    } else {
        parse_unary(toks, st)
    }
}

/// The operator loop of level `lvl`, after its first operand.
fn parse_bin_loop(toks: &[Token], st: &mut PState, lvl: u8, first: Expr) -> (e: Expr)
    requires
        old(st).pos <= toks@.len(),
        lvl <= 3,
    ensures
        (sv(*final(st)), expr_v(e)) == p_bin_loop(tv(toks), sv(*old(st)), lvl as int, expr_v(first)),
        old(st).pos <= final(st).pos <= toks@.len(),
        old(st).diagnostics@.len() <= final(st).diagnostics@.len(),
    decreases toks@.len() - old(st).pos, lvl_rank(lvl as int) - 1,
{
    let ghost s0 = sv(*st);
    let mut lhs = first;
    let mut op = bin_op(toks, st, lvl);
    while op.is_some()
        invariant
            s0 == sv(*old(st)),
            old(st).diagnostics@.len() <= st.diagnostics@.len(),
            s0.pos <= st.pos <= toks@.len(),
            lvl <= 3,
            op == bin_op_at(tv(toks), sv(*st), lvl as int),
            p_bin_loop(tv(toks), sv(*st), lvl as int, expr_v(lhs)) == p_bin_loop(
                tv(toks),
                s0,
                lvl as int,
                expr_v(first),
            ),
        decreases toks@.len() - st.pos,
    {
        let o = op.unwrap();
        advance(toks, st);
        let rhs = parse_operand(toks, st, lvl);
        lhs = binary(lhs, o, rhs);
        op = bin_op(toks, st, lvl);
    }
    lhs
}

fn parse_equality(toks: &[Token], st: &mut PState) -> (e: Expr)
    requires
        old(st).pos <= toks@.len(),
    ensures
        (sv(*final(st)), expr_v(e)) == p_bin(tv(toks), sv(*old(st)), 0),
        old(st).pos <= final(st).pos <= toks@.len(),
        old(st).diagnostics@.len() <= final(st).diagnostics@.len(),
    decreases toks@.len() - old(st).pos, 22int,
{
    let lhs = parse_comparison(toks, st);
    parse_bin_loop(toks, st, 0, lhs)
}

fn parse_comparison(toks: &[Token], st: &mut PState) -> (e: Expr)
    requires
        old(st).pos <= toks@.len(),
    ensures
        (sv(*final(st)), expr_v(e)) == p_bin(tv(toks), sv(*old(st)), 1),
        old(st).pos <= final(st).pos <= toks@.len(),
        old(st).diagnostics@.len() <= final(st).diagnostics@.len(),
    decreases toks@.len() - old(st).pos, 20int,
{
    let lhs = parse_additive(toks, st);
    parse_bin_loop(toks, st, 1, lhs)
}

fn parse_additive(toks: &[Token], st: &mut PState) -> (e: Expr)
    requires
        old(st).pos <= toks@.len(),
    ensures
        (sv(*final(st)), expr_v(e)) == p_bin(tv(toks), sv(*old(st)), 2),
        old(st).pos <= final(st).pos <= toks@.len(),
        old(st).diagnostics@.len() <= final(st).diagnostics@.len(),
    decreases toks@.len() - old(st).pos, 18int,
{
    let lhs = parse_multiplicative(toks, st);
    parse_bin_loop(toks, st, 2, lhs)
}

fn parse_multiplicative(toks: &[Token], st: &mut PState) -> (e: Expr)
    requires
        old(st).pos <= toks@.len(),
    ensures
        (sv(*final(st)), expr_v(e)) == p_bin(tv(toks), sv(*old(st)), 3),
        old(st).pos <= final(st).pos <= toks@.len(),
        old(st).diagnostics@.len() <= final(st).diagnostics@.len(),
    decreases toks@.len() - old(st).pos, 16int,
{
    let lhs = parse_unary(toks, st);
    parse_bin_loop(toks, st, 3, lhs)
}

fn parse_unary(toks: &[Token], st: &mut PState) -> (e: Expr)
    requires
        old(st).pos <= toks@.len(),
    ensures
        (sv(*final(st)), expr_v(e)) == p_unary(tv(toks), sv(*old(st))),
        old(st).pos <= final(st).pos <= toks@.len(),
        old(st).diagnostics@.len() <= final(st).diagnostics@.len(),
    decreases toks@.len() - old(st).pos, 14int,
{
    let op = match kind_at(toks, st) {
        Some(TokenKind::Minus) => Some(UnOp::Neg),
        Some(TokenKind::Bang) => Some(UnOp::Not),
        _ => None,
    };
    match op {
        Some(op) => {
            let start = current_span(toks, st).start;
            advance(toks, st);
            let expr = parse_unary(toks, st);
            let span = Span::new(start, expr.span.end);
            Expr { kind: ExprKind::Unary { op, expr: Box::new(expr) }, span }
        },
        None => parse_postfix(toks, st),
    }
}

fn parse_args(toks: &[Token], st: &mut PState) -> (args: Vec<Expr>)
    requires
        old(st).pos <= toks@.len(),
    ensures
        (sv(*final(st)), exprs_v(args@)) == p_args(tv(toks), sv(*old(st)), seq![]),
        old(st).pos <= final(st).pos <= toks@.len(),
        old(st).diagnostics@.len() <= final(st).diagnostics@.len(),
    decreases toks@.len() - old(st).pos, 24int,
{
    let ghost s0 = sv(*st);
    let mut args: Vec<Expr> = Vec::new();
    let mut done = false;
    assert(exprs_v(args@) =~= Seq::empty());
    while !done
        invariant
            s0 == sv(*old(st)),
            old(st).diagnostics@.len() <= st.diagnostics@.len(),
            s0.pos <= st.pos <= toks@.len(),
            !done ==> (st.pos > s0.pos || args@.len() == 0),
            !done ==> p_args(tv(toks), sv(*st), exprs_v(args@)) == p_args(tv(toks), s0, seq![]),
            done ==> (sv(*st), exprs_v(args@)) == p_args(tv(toks), s0, seq![]),
        decreases toks@.len() - st.pos, (if done { 0int } else { 1int }),
    {
        let ghost acc = exprs_v(args@);
        let e = parse_expr(toks, st);
        proof {
            lemma_exprs_v_push(args@, e);
        }
        args.push(e);
        if at_kind(toks, st, TokenKind::Comma) {
            advance(toks, st);
        } else {
            done = true;
        }
    }
    args
}

fn parse_postfix(toks: &[Token], st: &mut PState) -> (e: Expr)
    requires
        old(st).pos <= toks@.len(),
    ensures
        (sv(*final(st)), expr_v(e)) == p_postfix(tv(toks), sv(*old(st))),
        old(st).pos <= final(st).pos <= toks@.len(),
        old(st).diagnostics@.len() <= final(st).diagnostics@.len(),
    decreases toks@.len() - old(st).pos, 13int,
{
    let ghost s0 = sv(*st);
    let mut expr = parse_primary(toks, st);
    let ghost s1 = sv(*st);
    let ghost e1 = expr_v(expr);
    while at_kind(toks, st, TokenKind::LParen)
        invariant
            s0 == sv(*old(st)),
            old(st).diagnostics@.len() <= st.diagnostics@.len(),
            s0.pos <= s1.pos <= st.pos <= toks@.len(),
            p_postfix_loop(tv(toks), sv(*st), expr_v(expr)) == p_postfix_loop(tv(toks), s1, e1),
        decreases toks@.len() - st.pos,
    {
        advance(toks, st);
        let args = if !at_kind(toks, st, TokenKind::RParen) {
            parse_args(toks, st)
        } else {
            Vec::new()
        };
        proof {
            if args@.len() == 0 {
                assert(exprs_v(args@) =~= Seq::<ExprV>::empty());
            }
        }
        let close = expect(toks, st, TokenKind::RParen, "`)`");
        let end = match close {
            Some(s) => s.end,
            None => last_end(toks, st),
        };
        let span = Span::new(expr.span.start, end);
        expr = Expr { kind: ExprKind::Call { callee: Box::new(expr), args }, span };
    }
    expr
}

fn parse_primary(toks: &[Token], st: &mut PState) -> (e: Expr)
    requires
        old(st).pos <= toks@.len(),
    ensures
        (sv(*final(st)), expr_v(e)) == p_primary(tv(toks), sv(*old(st))),
        old(st).pos <= final(st).pos <= toks@.len(),
        old(st).diagnostics@.len() <= final(st).diagnostics@.len(),
    decreases toks@.len() - old(st).pos, 11int,
{
    match kind_at(toks, st) {
        Some(TokenKind::Int) => {
            let t = &toks[st.pos];
            let value = match parse_i64(t.text.as_str()) {
                Some(v) => v,
                None => 0,
            };
            advance(toks, st);
            Expr { kind: ExprKind::Int(value), span: t.span }
        },
        Some(TokenKind::True) => {
            let t = &toks[st.pos];
            advance(toks, st);
            Expr { kind: ExprKind::Bool(true), span: t.span }
        },
        Some(TokenKind::False) => {
            let t = &toks[st.pos];
            advance(toks, st);
            Expr { kind: ExprKind::Bool(false), span: t.span }
        },
        Some(TokenKind::Ident) => {
            let t = &toks[st.pos];
            advance(toks, st);
            Expr { kind: ExprKind::Name(t.text.clone()), span: t.span }
        },
        Some(TokenKind::LParen) => {
            let start = current_span(toks, st).start;
            advance(toks, st);
            let inner = parse_expr(toks, st);
            let close = expect(toks, st, TokenKind::RParen, "`)`");
            let end = match close {
                Some(s) => s.end,
                None => inner.span.end,
            };
            Expr { kind: ExprKind::Paren(Box::new(inner)), span: Span::new(start, end) }
        },
        Some(TokenKind::LBrace) => {
            let start = current_span(toks, st).start;
            advance(toks, st);
            let block = parse_block_from(toks, st, start);
            let span = block.span;
            Expr { kind: ExprKind::Block(block), span }
        },
        Some(TokenKind::If) => parse_if(toks, st),
        None => {
            st.truncated = true;
            push_error(
                st,
                end_span(toks),
                DiagKind::UnexpectedEof,
                String::from_str("expected an expression"),
            );
            Expr { kind: ExprKind::Error, span: end_span(toks) }
        },
        _ => {
            let span = current_span(toks, st);
            push_error(st, span, DiagKind::ParseError, String::from_str("expected an expression"));
            advance(toks, st);
            Expr { kind: ExprKind::Error, span }
        },
    }
}

fn parse_if(toks: &[Token], st: &mut PState) -> (e: Expr)
    requires
        old(st).pos < toks@.len(),
    ensures
        (sv(*final(st)), expr_v(e)) == p_if(tv(toks), sv(*old(st))),
        old(st).pos <= final(st).pos <= toks@.len(),
        old(st).diagnostics@.len() <= final(st).diagnostics@.len(),
    decreases toks@.len() - old(st).pos, 10int,
{
    let start = current_span(toks, st).start;
    advance(toks, st);
    let cond = parse_expr(toks, st);
    let then_block = parse_block(toks, st);
    let mut end = then_block.span.end;
    let else_block = if at_kind(toks, st, TokenKind::Else) {
        advance(toks, st);
        let b = parse_block(toks, st);
        end = b.span.end;
        Some(b)
    } else {
        None
    };
    Expr {
        kind: ExprKind::If { cond: Box::new(cond), then_block, else_block },
        span: Span::new(start, end),
    }
}

fn parse_block(toks: &[Token], st: &mut PState) -> (b: Block)
    requires
        old(st).pos <= toks@.len(),
    ensures
        (sv(*final(st)), block_v(b)) == p_block(tv(toks), sv(*old(st))),
        old(st).pos <= final(st).pos <= toks@.len(),
        old(st).diagnostics@.len() <= final(st).diagnostics@.len(),
    decreases toks@.len() - old(st).pos, 27int,
{
    let open = expect(toks, st, TokenKind::LBrace, "`{`");
    let start = match open {
        Some(s) => s.start,
        None => current_span(toks, st).start,
    };
    parse_block_from(toks, st, start)
}

fn parse_block_from(toks: &[Token], st: &mut PState, start: u32) -> (b: Block)
    requires
        old(st).pos <= toks@.len(),
    ensures
        (sv(*final(st)), block_v(b)) == p_block_from(tv(toks), sv(*old(st)), start),
        old(st).pos <= final(st).pos <= toks@.len(),
        old(st).diagnostics@.len() <= final(st).diagnostics@.len(),
    decreases toks@.len() - old(st).pos, 26int,
{
    let ghost s0 = sv(*st);
    let mut stmts: Vec<Stmt> = Vec::new();
    let mut tail: Option<Box<Expr>> = None;
    let mut done = false;
    proof {
        assert(stmts_v(stmts@) =~= Seq::<StmtV>::empty());
    }
    while !done
        invariant
            s0 == sv(*old(st)),
            old(st).diagnostics@.len() <= st.diagnostics@.len(),
            s0.pos <= st.pos <= toks@.len(),
            !done ==> tail is None,
            !done ==> p_block_items(tv(toks), sv(*st), stmts_v(stmts@)) == p_block_items(
                tv(toks),
                s0,
                seq![],
            ),
            done ==> (sv(*st), stmts_v(stmts@), match tail {
                Some(e) => Some(expr_v(*e)),
                None => None::<ExprV>,
            }) == p_block_items(tv(toks), s0, seq![]),
        decreases toks@.len() - st.pos, (if done { 0int } else { 1int }),
    {
        match kind_at(toks, st) {
            None => {
                st.truncated = true;
                done = true;
            },
            Some(TokenKind::RBrace) => {
                done = true;
            },
            Some(TokenKind::Fn) => {
                let s = parse_fn(toks, st);
                proof {
                    lemma_stmts_v_push(stmts@, s);
                }
                stmts.push(s);
            },
            Some(TokenKind::Let) => {
                let s = parse_let(toks, st);
                proof {
                    lemma_stmts_v_push(stmts@, s);
                }
                stmts.push(s);
            },
            _ => {
                let before = st.pos;
                let expr = parse_expr(toks, st);
                if at_kind(toks, st, TokenKind::Semi) {
                    let semi = current_span(toks, st);
                    advance(toks, st);
                    let span = Span::new(expr.span.start, semi.end);
                    let s = Stmt { kind: StmtKind::Expr(expr), span };
                    proof {
                        lemma_stmts_v_push(stmts@, s);
                    }
                    stmts.push(s);
                } else if at_kind(toks, st, TokenKind::RBrace) || is_at_end(toks, st) {
                    tail = Some(Box::new(expr));
                    done = true;
                } else {
                    let span = current_span(toks, st);
                    push_error(st, span, DiagKind::ParseError, String::from_str("expected `;` or `}`"));
                    recover_to_stmt_boundary(toks, st);
                    let espan = expr.span;
                    let s = Stmt { kind: StmtKind::Expr(expr), span: espan };
                    proof {
                        lemma_stmts_v_push(stmts@, s);
                    }
                    stmts.push(s);
                }
                if !done && st.pos == before {
                    let span = current_span(toks, st);
                    push_error(st, span, DiagKind::ParseError, String::from_str("unexpected token"));
                    advance(toks, st);
                }
            },
        }
    }
    proof {
        crate::ast::lemma_stmts_v(stmts@);
    }
    let close = expect(toks, st, TokenKind::RBrace, "`}`");
    let end = match close {
        Some(s) => s.end,
        None => match &tail {
            Some(t) => t.span.end,
            None => if stmts.len() > 0 {
                stmts[stmts.len() - 1].span.end
            } else {
                start
            },
        },
    };
    Block { stmts, tail, span: Span::new(start, end) }
}

fn parse_fn(toks: &[Token], st: &mut PState) -> (s: Stmt)
    requires
        old(st).pos < toks@.len(),
    ensures
        (sv(*final(st)), stmt_v(s)) == p_fn(tv(toks), sv(*old(st))),
        old(st).pos < final(st).pos <= toks@.len(),
        old(st).diagnostics@.len() <= final(st).diagnostics@.len(),
    decreases toks@.len() - old(st).pos, 24int,
{
    let start = current_span(toks, st).start;
    advance(toks, st);
    let name = parse_ident_or_missing(toks, st, "a function name");
    expect(toks, st, TokenKind::LParen, "`(`");
    let params = if !at_kind(toks, st, TokenKind::RParen) {
        parse_params(toks, st)
    } else {
        Vec::new()
    };
    proof {
        if params@.len() == 0 {
            assert(idents_v(params@) =~= Seq::empty());
        }
    }
    expect(toks, st, TokenKind::RParen, "`)`");
    let body = parse_block(toks, st);
    let end = body.span.end;
    Stmt { kind: StmtKind::Fn(FnDecl { name, params, body }), span: Span::new(start, end) }
}

fn parse_let(toks: &[Token], st: &mut PState) -> (s: Stmt)
    requires
        old(st).pos < toks@.len(),
    ensures
        (sv(*final(st)), stmt_v(s)) == p_let(tv(toks), sv(*old(st))),
        old(st).pos < final(st).pos <= toks@.len(),
        old(st).diagnostics@.len() <= final(st).diagnostics@.len(),
    decreases toks@.len() - old(st).pos, 24int,
{
    let start = current_span(toks, st).start;
    advance(toks, st);
    let name = parse_ident_or_missing(toks, st, "a variable name");
    expect(toks, st, TokenKind::Eq, "`=`");
    let value = parse_expr(toks, st);
    let semi = expect(toks, st, TokenKind::Semi, "`;`");
    let end = match semi {
        Some(s) => s.end,
        None => value.span.end,
    };
    Stmt { kind: StmtKind::Let(LetStmt { name, value }), span: Span::new(start, end) }
}

fn parse_expr_stmt_top(toks: &[Token], st: &mut PState) -> (s: Stmt)
    requires
        old(st).pos <= toks@.len(),
    ensures
        (sv(*final(st)), stmt_v(s)) == p_expr_stmt_top(tv(toks), sv(*old(st))),
        old(st).pos <= final(st).pos <= toks@.len(),
        old(st).diagnostics@.len() <= final(st).diagnostics@.len(),
{
    let expr = parse_expr(toks, st);
    let start = expr.span.start;
    let semi = expect(toks, st, TokenKind::Semi, "`;`");
    let end = match semi {
        Some(s) => s.end,
        None => expr.span.end,
    };
    if semi.is_none() {
        recover_to_stmt_boundary(toks, st);
    }
    Stmt { kind: StmtKind::Expr(expr), span: Span::new(start, end) }
}

fn parse_top_stmt(toks: &[Token], st: &mut PState) -> (s: Stmt)
    requires
        old(st).pos < toks@.len(),
    ensures
        (sv(*final(st)), stmt_v(s)) == p_top_stmt(tv(toks), sv(*old(st))),
        old(st).pos <= final(st).pos <= toks@.len(),
        old(st).diagnostics@.len() <= final(st).diagnostics@.len(),
{
    match kind_at(toks, st) {
        Some(TokenKind::Fn) => parse_fn(toks, st),
        Some(TokenKind::Let) => parse_let(toks, st),
        _ => parse_expr_stmt_top(toks, st),
    }
}

fn copy_tokens(v: &[Token], lo: usize, hi: usize) -> (r: Vec<Token>)
    requires
        lo <= hi <= v@.len(),
    ensures
        r@ == v@.subrange(lo as int, hi as int),
{
    let mut r: Vec<Token> = Vec::new();
    let mut i = lo;
    while i < hi
        invariant
            lo <= i <= hi <= v@.len(),
            r@ == v@.subrange(lo as int, i as int),
        decreases hi - i,
    {
        let t = v[i].copy();
        r.push(t);
        assert(r@ =~= v@.subrange(lo as int, i + 1));
        i = i + 1;
    }
    r
}

fn copy_diags(v: &Vec<Diagnostic>, lo: usize) -> (r: Vec<Diagnostic>)
    requires
        lo <= v@.len(),
    ensures
        r@ == v@.subrange(lo as int, v@.len() as int),
{
    let mut r: Vec<Diagnostic> = Vec::new();
    let mut i = lo;
    while i < v.len()
        invariant
            lo <= i <= v@.len(),
            r@ == v@.subrange(lo as int, i as int),
        decreases v@.len() - i,
    {
        let d = v[i].copy();
        r.push(d);
        assert(r@ =~= v@.subrange(lo as int, i + 1));
        i = i + 1;
    }
    r
}

fn parse_grouped(toks: &[Token], st: &mut PState) -> (groups: Vec<ItemParse>)
    requires
        old(st).pos <= toks@.len(),
    ensures
        (sv(*final(st)), items_v(groups@)) == p_grouped(tv(toks), sv(*old(st)), seq![]),
        group_tokens(items_v(groups@)) == tv(toks).subrange(old(st).pos as int, toks@.len() as int),
{
    let ghost s0 = sv(*st);
    let mut groups: Vec<ItemParse> = Vec::new();
    assert(items_v(groups@) =~= Seq::empty());
    assert(group_tokens(items_v(groups@)) =~= tv(toks).subrange(s0.pos, s0.pos));
    while !is_at_end(toks, st)
        invariant
            st.pos <= toks@.len(),
            s0.pos <= st.pos,
            s0.pos == old(st).pos,
            group_tokens(items_v(groups@)) == tv(toks).subrange(s0.pos, st.pos as int),
            p_grouped(tv(toks), sv(*st), items_v(groups@)) == p_grouped(tv(toks), s0, seq![]),
        decreases toks@.len() - st.pos,
    {
        let ghost s = sv(*st);
        let tok_start = st.pos;
        let diag_start = st.diagnostics.len();
        let stmt = parse_top_stmt(toks, st);
        if st.pos == tok_start {
            let span = current_span(toks, st);
            push_error(st, span, DiagKind::ParseError, String::from_str("unexpected token"));
            advance(toks, st);
        }
        let tokens = copy_tokens(toks, tok_start, st.pos);
        let diagnostics = copy_diags(&st.diagnostics, diag_start);
        let g = ItemParse { stmt, tokens, diagnostics };
        proof {
            let gv = GroupV {
                stmt: stmt_v(g.stmt),
                tokens: tv(toks).subrange(s.pos, sv(*st).pos),
                diags: sv(*st).diags.subrange(s.diags.len() as int, sv(*st).diags.len() as int),
            };
            assert(tokens_view(g.tokens@) =~= tv(toks).subrange(s.pos, sv(*st).pos));
            assert(diags_view(g.diagnostics@) =~= sv(*st).diags.subrange(
                s.diags.len() as int,
                sv(*st).diags.len() as int,
            ));
            assert(item_v(g) == gv);
        }
        let ghost prev = items_v(groups@);
        groups.push(g);
        assert(items_v(groups@) =~= prev.push(item_v(g)));
        assert(items_v(groups@).drop_last() =~= prev);
        assert(group_tokens(items_v(groups@)) =~= tv(toks).subrange(s0.pos, st.pos as int));
    }
    groups
}

/// Parse a token slice into per statement groups. The flag is true when the
/// stream ended inside a construct.
pub fn parse_items(tokens: &[Token]) -> (r: (Vec<ItemParse>, bool))
    ensures
        (items_v(r.0@), r.1) == spec_parse_items(tokens_view(tokens@)),
        group_tokens(items_v(r.0@)) == tokens_view(tokens@),
{
    let mut st = PState { pos: 0, diagnostics: Vec::new(), truncated: false };
    assert(diags_view(st.diagnostics@) =~= Seq::empty());
    assert(sv(st) == init_ps());
    let groups = parse_grouped(tokens, &mut st);
    assert(tv(tokens).subrange(0, tokens@.len() as int) =~= tokens_view(tokens@));
    (groups, st.truncated)
}

/// Parse a token slice whose spans are already absolute.
pub fn parse_tokens(tokens: &[Token]) -> (out: ParseOutput)
    ensures
        stmts_v(out.program@) == group_stmts(spec_parse_items(tokens_view(tokens@)).0),
        diags_view(out.diagnostics@) == group_diags(spec_parse_items(tokens_view(tokens@)).0),
        out.truncated == spec_parse_items(tokens_view(tokens@)).1,
{
    let (groups, truncated) = parse_items(tokens);
    let ghost gv = items_v(groups@);
    let ghost n = groups@.len();
    let mut program: Vec<Stmt> = Vec::new();
    let mut diagnostics: Vec<Diagnostic> = Vec::new();
    let mut rest = groups;
    assert(stmts_v(program@) =~= group_stmts(gv.subrange(0, 0)));
    assert(diags_view(diagnostics@) =~= group_diags(gv.subrange(0, 0)));
    assert(items_v(rest@) =~= gv.subrange(0, n as int));
    while rest.len() > 0
        invariant
            n == gv.len(),
            0 <= n - rest@.len() <= n,
            items_v(rest@) == gv.subrange(n - rest@.len(), n as int),
            stmts_v(program@) == group_stmts(gv.subrange(0, n - rest@.len())),
            diags_view(diagnostics@) == group_diags(gv.subrange(0, n - rest@.len())),
        decreases rest@.len(),
    {
        let ghost k = n - rest@.len();
        let ghost old_rest = rest@;
        let g = rest.remove(0);
        assert(item_v(g) == items_v(old_rest)[0]);
        assert(items_v(rest@) =~= gv.subrange(k + 1, n as int)) by {
            assert(rest@ =~= old_rest.subrange(1, old_rest.len() as int));
            assert forall|j: int| 0 <= j < rest@.len() implies items_v(rest@)[j] == gv[k + 1 + j] by {
                assert(rest@[j] == old_rest[j + 1]);
                assert(items_v(old_rest)[j + 1] == gv.subrange(k, n as int)[j + 1]);
            }
        }
        let ItemParse { stmt, tokens: _, diagnostics: mut ds } = g;
        proof {
            lemma_stmts_v_push(program@, stmt);
            assert(gv.subrange(0, k + 1).drop_last() =~= gv.subrange(0, k));
            assert(group_stmts(gv.subrange(0, k + 1)) =~= group_stmts(gv.subrange(0, k)).push(
                gv[k].stmt,
            ));
        }
        program.push(stmt);
        let ghost before = diagnostics@;
        let ghost dsv = ds@;
        diagnostics.append(&mut ds);
        assert(diags_view(diagnostics@) =~= diags_view(before) + diags_view(dsv));
    }
    assert(gv.subrange(0, n as int) =~= gv);
    ParseOutput { program, diagnostics, truncated }
}

} // verus!

verus! {

/// Statement groups of the tokens of `text`.
pub open spec fn spec_parse_text(text: &str) -> (Seq<GroupV>, bool) {
    spec_parse_items(spec_lex(text, 0))
}

/// Lex and parse a whole source string.
pub fn parse(text: &str) -> (out: ParseOutput)
    requires
        text.spec_bytes().len() <= u32::MAX,
    ensures
        stmts_v(out.program@) == group_stmts(spec_parse_text(text).0),
        diags_view(out.diagnostics@) == group_diags(spec_parse_text(text).0),
        out.truncated == spec_parse_text(text).1,
{
    let tokens = lex_at(text, 0);
    parse_tokens(tokens.as_slice())
}

} // verus!
