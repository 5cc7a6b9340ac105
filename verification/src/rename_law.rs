//! Resolution does not look at where names lie, and the resolution fingerprint
//! does not look at how they are spelled: moving every position of a program
//! through an order-preserving map leaves its fingerprint as it was.

use vstd::prelude::*;
use crate::ast::{IdentV, StmtV, StmtKindV, BlockV, ExprV, ExprKindV};
use crate::rename_parse::{from_tok, tok_pos, src_idents, src_expr, src_exprs, src_block, src_stmt, src_stmts, lemma_src_stmts_index, fsp, pm_expr, pm_exprs, pm_block, pm_stmt, pm_stmts, pm_idents, pm_ident, lemma_pm_stmts_index};
use crate::resolve_spec::{BindingV, OccV, RS, lookup, empty_rs, push_frame, declare_seq, declare_fn, r_params, r_hoist, r_block, r_stmts, r_stmt, r_exprs, r_expr, r_name, r_program};
use crate::resolver::BindingKind;
use crate::rename::{last_decl, shape_of};
use crate::resolver::occ_rel;
use crate::sort::{sel_sort, min_idx, lemma_min_idx_range};
use crate::lexer::{TokenKind, TokenV, lex_from, lemma_lex_spans};
use crate::query::{Reference, refs_of, lemma_refs_of_has, target_binding};
use crate::rename::ref_spans;
use crate::rename_lex::{ident_goes_on, spans_apart, ident_tokens, lemma_ident_token_at_pub, strictly_inside, shift_at, splice_map, lemma_shift_mono, lemma_shift_zero};
use crate::resolver::{Occurrence, occ_v, occs_v, bindings_v};
use crate::rename_tree::id_spans;
use crate::incremental::{Analysis, batch_groups, lemma_analysis_facts};
use crate::parse_spec::{spec_parse_items, group_stmts};
use crate::rename::{valid_identifier, rename_outcome, has_empty_span, replace_spans, table_shape};
use crate::rename_lex::{good_start, fits, splice, lemma_splice_all, lemma_one_ident_of};
use crate::rename_parse::{map_ok, lemma_parse_mapped, lemma_pm_split_stmts, lemma_parse_src};
use crate::rename_tree::{rn_stmts, rn_occ, rn_occs, rn_bindings, law_fresh_rename_resolves_alike};
use crate::resolve_spec::lemma_program_ids;
use vstd::utf8::{encode_utf8, encode_utf8_valid_utf8, encode_utf8_decode_utf8};
use vstd::string::StringSliceAdditionalSpecFns;
use crate::span::Span;

verus! {

pub open spec fn sm_binding(b: BindingV, f: spec_fn(u32) -> u32) -> BindingV {
    BindingV { decl_span: fsp(f, b.decl_span), ..b }
}

pub open spec fn sm_bindings(bs: Seq<BindingV>, f: spec_fn(u32) -> u32) -> Seq<BindingV> {
    bs.map_values(|b: BindingV| sm_binding(b, f))
}

pub open spec fn sm_occ(o: OccV, f: spec_fn(u32) -> u32) -> OccV {
    OccV { span: fsp(f, o.span), ..o }
}

pub open spec fn sm_occs(os: Seq<OccV>, f: spec_fn(u32) -> u32) -> Seq<OccV> {
    os.map_values(|o: OccV| sm_occ(o, f))
}

/// The walk of the moved tree: the same stack, bindings and occurrences moved.
pub open spec fn moved_rel(r: RS, r2: RS, f: spec_fn(u32) -> u32) -> bool {
    &&& r2.bindings == sm_bindings(r.bindings, f)
    &&& r2.occs == sm_occs(r.occs, f)
    &&& r2.stack == r.stack
}

proof fn lemma_moved_declare(r: RS, r2: RS, name: Seq<char>, kind: BindingKind, span: Span, arity: usize, f: spec_fn(u32) -> u32)
    requires
        moved_rel(r, r2, f),
    ensures
        moved_rel(declare_seq(r, name, kind, span), declare_seq(r2, name, kind, fsp(f, span)), f),
        moved_rel(declare_fn(r, name, span, arity), declare_fn(r2, name, fsp(f, span), arity), f),
{
    let len = r.bindings.len();
    assert(r2.bindings.len() == len);
    let bs = BindingV { name, kind, decl_span: span, arity: None };
    let bf = BindingV { name, kind: BindingKind::Fn, decl_span: span, arity: Some(arity) };
    assert(sm_bindings(r.bindings.push(bs), f) =~= r2.bindings.push(sm_binding(bs, f)));
    assert(sm_bindings(r.bindings.push(bf), f) =~= r2.bindings.push(sm_binding(bf, f)));
    let o = OccV { span, name, binding: Some(len as usize), is_decl: true };
    assert(sm_occs(r.occs.push(o), f) =~= r2.occs.push(sm_occ(o, f)));
}

proof fn lemma_moved_params(r: RS, r2: RS, ps: Seq<IdentV>, f: spec_fn(u32) -> u32, n: Seq<char>)
    requires
        moved_rel(r, r2, f),
    ensures
        moved_rel(r_params(r, ps), r_params(r2, pm_idents(ps, f, Set::empty(), n)), f),
    decreases ps.len(),
{
    if ps.len() > 0 {
        let qs = pm_idents(ps, f, Set::empty(), n);
        lemma_moved_declare(r, r2, ps[0].name, BindingKind::Param, ps[0].span, 0, f);
        assert(qs[0] == pm_ident(ps[0], f, Set::empty(), n));
        assert(qs.drop_first() =~= pm_idents(ps.drop_first(), f, Set::empty(), n));
        lemma_moved_params(
            declare_seq(r, ps[0].name, BindingKind::Param, ps[0].span),
            declare_seq(r2, qs[0].name, BindingKind::Param, qs[0].span),
            ps.drop_first(),
            f,
            n,
        );
    }
}

proof fn lemma_moved_hoist(r: RS, r2: RS, ss: Seq<StmtV>, f: spec_fn(u32) -> u32, n: Seq<char>)
    requires
        moved_rel(r, r2, f),
    ensures
        moved_rel(r_hoist(r, ss), r_hoist(r2, pm_stmts(ss, f, Set::empty(), n)), f),
    decreases ss.len(),
{
    let ts = pm_stmts(ss, f, Set::empty(), n);
    lemma_pm_stmts_index(ss, f, Set::empty(), n);
    if ss.len() > 0 {
        assert(ts.drop_first() == pm_stmts(ss.drop_first(), f, Set::empty(), n)) by {
            assert(ss.drop_first() == ss.subrange(1, ss.len() as int));
        }
        assert(ts[0] == pm_stmt(ss[0], f, Set::empty(), n));
        match ss[0].kind {
            StmtKindV::Fn { name, params, body: _ } => {
                let ar = params.len() as usize;
                assert(pm_idents(params, f, Set::empty(), n).len() == params.len());
                lemma_moved_declare(r, r2, name.name, BindingKind::Fn, name.span, ar, f);
                lemma_moved_hoist(
                    declare_fn(r, name.name, name.span, ar),
                    declare_fn(r2, name.name, fsp(f, name.span), ar),
                    ss.drop_first(),
                    f,
                    n,
                );
            },
            _ => {
                lemma_moved_hoist(r, r2, ss.drop_first(), f, n);
            },
        }
    }
}

proof fn lemma_moved_block(r: RS, r2: RS, b: BlockV, params: Seq<IdentV>, f: spec_fn(u32) -> u32, n: Seq<char>)
    requires
        moved_rel(r, r2, f),
    ensures
        moved_rel(r_block(r, b, params), r_block(r2, pm_block(b, f, Set::empty(), n), pm_idents(params, f, Set::empty(), n)), f),
    decreases b,
{
    let bb = pm_block(b, f, Set::empty(), n);
    let r0 = push_frame(r);
    let q0 = push_frame(r2);
    lemma_moved_params(r0, q0, params, f, n);
    let r1 = r_params(r0, params);
    let q1 = r_params(q0, pm_idents(params, f, Set::empty(), n));
    lemma_moved_hoist(r1, q1, b.stmts, f, n);
    let rh = r_hoist(r1, b.stmts);
    let qh = r_hoist(q1, bb.stmts);
    lemma_moved_stmts(rh, qh, b.stmts, f, n);
    let rs = r_stmts(rh, b.stmts);
    let qs = r_stmts(qh, bb.stmts);
    match b.tail {
        Some(e) => {
            lemma_moved_expr(rs, qs, *e, f, n);
        },
        None => {},
    }
}

proof fn lemma_moved_stmts(r: RS, r2: RS, ss: Seq<StmtV>, f: spec_fn(u32) -> u32, n: Seq<char>)
    requires
        moved_rel(r, r2, f),
    ensures
        moved_rel(r_stmts(r, ss), r_stmts(r2, pm_stmts(ss, f, Set::empty(), n)), f),
    decreases ss,
{
    if ss.len() > 0 {
        let rest = ss.subrange(1, ss.len() as int);
        lemma_moved_stmt(r, r2, ss[0], f, n);
        lemma_moved_stmts(r_stmt(r, ss[0]), r_stmt(r2, pm_stmt(ss[0], f, Set::empty(), n)), rest, f, n);
        let ts = pm_stmts(ss, f, Set::empty(), n);
        assert(ts[0] == pm_stmt(ss[0], f, Set::empty(), n));
        assert(ts.subrange(1, ts.len() as int) =~= pm_stmts(rest, f, Set::empty(), n));
    }
}

proof fn lemma_moved_stmt(r: RS, r2: RS, st: StmtV, f: spec_fn(u32) -> u32, n: Seq<char>)
    requires
        moved_rel(r, r2, f),
    ensures
        moved_rel(r_stmt(r, st), r_stmt(r2, pm_stmt(st, f, Set::empty(), n)), f),
    decreases st,
{
    match st.kind {
        StmtKindV::Let { name, value } => {
            lemma_moved_expr(r, r2, value, f, n);
            lemma_moved_declare(
                r_expr(r, value),
                r_expr(r2, pm_expr(value, f, Set::empty(), n)),
                name.name,
                BindingKind::Let,
                name.span,
                0,
                f,
            );
        },
        StmtKindV::Fn { name: _, params, body } => {
            lemma_moved_block(r, r2, body, params, f, n);
        },
        StmtKindV::Expr { expr } => {
            lemma_moved_expr(r, r2, expr, f, n);
        },
    }
}

proof fn lemma_moved_exprs(r: RS, r2: RS, es: Seq<ExprV>, f: spec_fn(u32) -> u32, n: Seq<char>)
    requires
        moved_rel(r, r2, f),
    ensures
        moved_rel(r_exprs(r, es), r_exprs(r2, pm_exprs(es, f, Set::empty(), n)), f),
    decreases es,
{
    if es.len() > 0 {
        let rest = es.subrange(1, es.len() as int);
        lemma_moved_expr(r, r2, es[0], f, n);
        lemma_moved_exprs(r_expr(r, es[0]), r_expr(r2, pm_expr(es[0], f, Set::empty(), n)), rest, f, n);
        let ts = pm_exprs(es, f, Set::empty(), n);
        assert(ts[0] == pm_expr(es[0], f, Set::empty(), n));
        assert(ts.subrange(1, ts.len() as int) =~= pm_exprs(rest, f, Set::empty(), n));
    }
}

proof fn lemma_moved_expr(r: RS, r2: RS, e: ExprV, f: spec_fn(u32) -> u32, n: Seq<char>)
    requires
        moved_rel(r, r2, f),
    ensures
        moved_rel(r_expr(r, e), r_expr(r2, pm_expr(e, f, Set::empty(), n)), f),
    decreases e,
{
    match e.kind {
        ExprKindV::Name { name } => {
            let o = OccV { span: e.span, name, binding: lookup(r.stack, name), is_decl: false };
            assert(sm_occs(r.occs.push(o), f) =~= r2.occs.push(sm_occ(o, f)));
        },
        ExprKindV::Unary { op: _, expr } => {
            lemma_moved_expr(r, r2, *expr, f, n);
        },
        ExprKindV::Binary { op: _, lhs, rhs } => {
            lemma_moved_expr(r, r2, *lhs, f, n);
            lemma_moved_expr(r_expr(r, *lhs), r_expr(r2, pm_expr(*lhs, f, Set::empty(), n)), *rhs, f, n);
        },
        ExprKindV::Call { callee, args } => {
            lemma_moved_expr(r, r2, *callee, f, n);
            lemma_moved_exprs(r_expr(r, *callee), r_expr(r2, pm_expr(*callee, f, Set::empty(), n)), args, f, n);
        },
        ExprKindV::If { cond, then_block, else_block } => {
            assert(pm_idents(seq![], f, Set::empty(), n) =~= Seq::<IdentV>::empty());
            lemma_moved_expr(r, r2, *cond, f, n);
            let r1 = r_expr(r, *cond);
            let q1 = r_expr(r2, pm_expr(*cond, f, Set::empty(), n));
            lemma_moved_block(r1, q1, then_block, seq![], f, n);
            match else_block {
                Some(b) => {
                    lemma_moved_block(
                        r_block(r1, then_block, seq![]),
                        r_block(q1, pm_block(then_block, f, Set::empty(), n), seq![]),
                        b,
                        seq![],
                        f,
                        n,
                    );
                },
                None => {},
            }
        },
        ExprKindV::Block { block } => {
            assert(pm_idents(seq![], f, Set::empty(), n) =~= Seq::<IdentV>::empty());
            lemma_moved_block(r, r2, block, seq![], f, n);
        },
        ExprKindV::Paren { inner } => {
            lemma_moved_expr(r, r2, *inner, f, n);
        },
        _ => {},
    }
}

/// Resolving a program whose positions were all moved records the same
/// bindings and occurrences, moved.
pub proof fn lemma_moved_program(p: Seq<StmtV>, f: spec_fn(u32) -> u32, n: Seq<char>)
    ensures
        r_program(pm_stmts(p, f, Set::empty(), n)).bindings == sm_bindings(r_program(p).bindings, f),
        r_program(pm_stmts(p, f, Set::empty(), n)).occs == sm_occs(r_program(p).occs, f),
{
    let e = empty_rs();
    assert(sm_bindings(e.bindings, f) =~= e.bindings);
    assert(sm_occs(e.occs, f) =~= e.occs);
    let r0 = push_frame(e);
    lemma_moved_hoist(r0, r0, p, f, n);
    let r1 = r_hoist(r0, p);
    let q1 = r_hoist(r0, pm_stmts(p, f, Set::empty(), n));
    lemma_moved_stmts(r1, q1, p, f, n);
}

// ---------------------------------------------------------------------------
// Sorting and the fingerprint under an order-preserving move

proof fn lemma_sel_sort_in<A>(s: Seq<A>, le: spec_fn(A, A) -> bool)
    ensures
        sel_sort(s, le).len() <= s.len(),
        forall|k: int| 0 <= k < sel_sort(s, le).len() ==> exists|i: int| 0 <= i < s.len() && #[trigger] sel_sort(s, le)[k] == s[i],
    decreases s.len(),
{
    if s.len() > 0 {
        let m = min_idx(s, le, 1, 0);
        lemma_min_idx_range(s, le, 1, 0);
        let r = s.remove(m);
        lemma_sel_sort_in(r, le);
        assert forall|k: int| 0 <= k < sel_sort(s, le).len() implies exists|i: int| 0 <= i < s.len() && #[trigger] sel_sort(s, le)[k] == s[i] by {
            if k == 0 {
                assert(sel_sort(s, le)[0] == s[m]);
            } else {
                assert(sel_sort(s, le)[k] == sel_sort(r, le)[k - 1]);
                let i = choose|i: int| 0 <= i < r.len() && #[trigger] sel_sort(r, le)[k - 1] == r[i];
                if i < m {
                    assert(r[i] == s[i]);
                } else {
                    assert(r[i] == s[i + 1]);
                }
            }
        }
    }
}

proof fn lemma_min_idx_map_on<A, B>(s: Seq<A>, le1: spec_fn(A, A) -> bool, le2: spec_fn(B, B) -> bool, g: spec_fn(A) -> B, k: int, m: int)
    requires
        forall|i: int, j: int| 0 <= i < s.len() && 0 <= j < s.len() ==> le1(#[trigger] s[i], #[trigger] s[j]) == le2(g(s[i]), g(s[j])),
        0 <= m < s.len(),
    ensures
        min_idx(s, le1, k, m) == min_idx(s.map_values(g), le2, k, m),
    decreases s.len() - k,
{
    if 0 <= k < s.len() {
        let t = s.map_values(g);
        assert(t[m] == g(s[m]));
        assert(t[k] == g(s[k]));
        assert(le1(s[m], s[k]) == le2(g(s[m]), g(s[k])));
        lemma_min_idx_map_on(s, le1, le2, g, k + 1, k);
        lemma_min_idx_map_on(s, le1, le2, g, k + 1, m);
    }
}

/// Sorting commutes with a map that keeps the order among the elements sorted.
proof fn lemma_sel_sort_map_on<A, B>(s: Seq<A>, le1: spec_fn(A, A) -> bool, le2: spec_fn(B, B) -> bool, g: spec_fn(A) -> B)
    requires
        forall|i: int, j: int| 0 <= i < s.len() && 0 <= j < s.len() ==> le1(#[trigger] s[i], #[trigger] s[j]) == le2(g(s[i]), g(s[j])),
    ensures
        sel_sort(s, le1).map_values(g) == sel_sort(s.map_values(g), le2),
    decreases s.len(),
{
    let t = s.map_values(g);
    if s.len() == 0 {
        assert(sel_sort(s, le1).map_values(g) =~= sel_sort(t, le2));
    } else {
        lemma_min_idx_map_on(s, le1, le2, g, 1, 0);
        let m = min_idx(s, le1, 1, 0);
        lemma_min_idx_range(s, le1, 1, 0);
        let r = s.remove(m);
        assert(t.remove(m) =~= r.map_values(g));
        assert forall|i: int, j: int| 0 <= i < r.len() && 0 <= j < r.len() implies le1(#[trigger] r[i], #[trigger] r[j]) == le2(g(r[i]), g(r[j])) by {
            let i2 = if i < m { i } else { i + 1 };
            let j2 = if j < m { j } else { j + 1 };
            assert(r[i] == s[i2] && r[j] == s[j2]);
        }
        lemma_sel_sort_map_on(r, le1, le2, g);
        assert(sel_sort(s, le1).map_values(g) =~= seq![g(s[m])] + sel_sort(r, le1).map_values(g));
    }
}

/// `f` keeps the order of the positions in `ps`.
pub open spec fn mono_on(f: spec_fn(u32) -> u32, ps: Set<u32>) -> bool {
    forall|a: u32, b: u32| ps.contains(a) && ps.contains(b) && a < b ==> #[trigger] f(a) < #[trigger] f(b)
}

pub open spec fn span_in(sp: Span, ps: Set<u32>) -> bool {
    ps.contains(sp.start) && ps.contains(sp.end)
}

proof fn lemma_fsp_eq(f: spec_fn(u32) -> u32, ps: Set<u32>, a: Span, b: Span)
    requires
        mono_on(f, ps),
        span_in(a, ps),
        span_in(b, ps),
    ensures
        (fsp(f, a) == fsp(f, b)) == (a == b),
        (fsp(f, a).start < fsp(f, b).start) == (a.start < b.start),
        (fsp(f, a).end < fsp(f, b).end) == (a.end < b.end),
{
    assert(a.start < b.start ==> f(a.start) < f(b.start));
    assert(b.start < a.start ==> f(b.start) < f(a.start));
    assert(a.end < b.end ==> f(a.end) < f(b.end));
    assert(b.end < a.end ==> f(b.end) < f(a.end));
}

proof fn lemma_last_decl_moved(os: Seq<OccV>, g: spec_fn(OccV) -> OccV, f: spec_fn(u32) -> u32, ps: Set<u32>, d: Span)
    requires
        mono_on(f, ps),
        span_in(d, ps),
        forall|k: int| 0 <= k < os.len() ==> span_in(#[trigger] os[k].span, ps),
        forall|o: OccV| #![trigger g(o)] g(o).span == fsp(f, o.span) && g(o).is_decl == o.is_decl,
    ensures
        last_decl(os.map_values(g), fsp(f, d)) == last_decl(os, d),
    decreases os.len(),
{
    if os.len() > 0 {
        let t = os.map_values(g);
        assert(t.last() == g(os.last()));
        assert(t.drop_last() =~= os.drop_last().map_values(g));
        assert(os.last() == os[os.len() - 1]);
        assert(span_in(os[os.len() - 1].span, ps));
        assert(g(os.last()).span == fsp(f, os.last().span) && g(os.last()).is_decl == os.last().is_decl);
        lemma_fsp_eq(f, ps, os.last().span, d);
        assert forall|k: int| 0 <= k < os.drop_last().len() implies span_in(#[trigger] os.drop_last()[k].span, ps) by {
            assert(os.drop_last()[k] == os[k]);
        }
        lemma_last_decl_moved(os.drop_last(), g, f, ps, d);
    }
}

/// The fingerprint is kept by a move that keeps the order of the positions
/// involved, whatever happens to the names.
proof fn lemma_shape_moved(b: Seq<BindingV>, b2: Seq<BindingV>, os: Seq<OccV>, g: spec_fn(OccV) -> OccV, f: spec_fn(u32) -> u32, ps: Set<u32>)
    requires
        mono_on(f, ps),
        forall|k: int| 0 <= k < os.len() ==> span_in(#[trigger] os[k].span, ps),
        forall|k: int| 0 <= k < b.len() ==> span_in(#[trigger] b[k].decl_span, ps),
        forall|k: int| 0 <= k < os.len() ==> ((#[trigger] os[k]).binding matches Some(id) ==> id < b.len()),
        forall|o: OccV| #![trigger g(o)] g(o).span == fsp(f, o.span) && g(o).is_decl == o.is_decl && g(o).binding == o.binding,
        b2.len() == b.len(),
        forall|k: int| 0 <= k < b.len() ==> (#[trigger] b2[k]).decl_span == fsp(f, b[k].decl_span),
    ensures
        shape_of(b2, sel_sort(os.map_values(g), occ_rel())) == shape_of(b, sel_sort(os, occ_rel())),
{
    let le = occ_rel();
    assert forall|i: int, j: int| 0 <= i < os.len() && 0 <= j < os.len() implies le(#[trigger] os[i], #[trigger] os[j]) == le(g(os[i]), g(os[j])) by {
        assert(g(os[i]).span == fsp(f, os[i].span) && g(os[i]).is_decl == os[i].is_decl);
        assert(g(os[j]).span == fsp(f, os[j].span) && g(os[j]).is_decl == os[j].is_decl);
        lemma_fsp_eq(f, ps, os[i].span, os[j].span);
        lemma_fsp_eq(f, ps, os[j].span, os[i].span);
        assert(f(os[i].span.start) == f(os[j].span.start) <==> os[i].span.start == os[j].span.start) by {
            if os[i].span.start < os[j].span.start {
                assert(f(os[i].span.start) < f(os[j].span.start));
            } else if os[j].span.start < os[i].span.start {
                assert(f(os[j].span.start) < f(os[i].span.start));
            }
        }
        assert(f(os[i].span.end) == f(os[j].span.end) <==> os[i].span.end == os[j].span.end) by {
            if os[i].span.end < os[j].span.end {
                assert(f(os[i].span.end) < f(os[j].span.end));
            } else if os[j].span.end < os[i].span.end {
                assert(f(os[j].span.end) < f(os[i].span.end));
            }
        }
    }
    lemma_sel_sort_map_on(os, le, le, g);
    let srt = sel_sort(os, le);
    lemma_sel_sort_in(os, le);
    let srt2 = srt.map_values(g);
    assert(sel_sort(os.map_values(g), le) == srt2);
    assert forall|k: int| 0 <= k < srt.len() implies span_in(#[trigger] srt[k].span, ps) && (srt[k].binding matches Some(id) ==> id < b.len()) by {
        let i = choose|i: int| 0 <= i < os.len() && #[trigger] srt[k] == os[i];
        assert(span_in(os[i].span, ps));
    }
    assert forall|k: int| 0 <= k < srt.len() implies #[trigger] shape_of(b2, srt2)[k] == shape_of(b, srt)[k] by {
        assert(srt2[k] == g(srt[k]));
        assert(g(srt[k]).binding == srt[k].binding);
        assert(span_in(srt[k].span, ps));
        if let Some(id) = srt[k].binding {
            assert(span_in(b[id as int].decl_span, ps));
            assert(b2[id as int].decl_span == fsp(f, b[id as int].decl_span));
            lemma_last_decl_moved(srt, g, f, ps, b[id as int].decl_span);
        }
    }
    assert(shape_of(b2, srt2) =~= shape_of(b, srt));
}

// ---------------------------------------------------------------------------
// Occurrences and bindings come from the identifiers of the tree

pub open spec fn walk_src(r: RS, t: Seq<TokenV>) -> bool {
    &&& forall|k: int| 0 <= k < r.occs.len() ==> from_tok(t, (#[trigger] r.occs[k]).span, r.occs[k].name)
    &&& forall|k: int| 0 <= k < r.bindings.len() ==> from_tok(t, (#[trigger] r.bindings[k]).decl_span, r.bindings[k].name)
}

proof fn lemma_src_declare(r: RS, name: Seq<char>, kind: BindingKind, span: Span, arity: usize, t: Seq<TokenV>)
    requires
        walk_src(r, t),
        from_tok(t, span, name),
    ensures
        walk_src(declare_seq(r, name, kind, span), t),
        walk_src(declare_fn(r, name, span, arity), t),
{
    let a = declare_seq(r, name, kind, span);
    let b = declare_fn(r, name, span, arity);
    assert forall|k: int| 0 <= k < a.occs.len() implies from_tok(t, (#[trigger] a.occs[k]).span, a.occs[k].name) by {
        if k < r.occs.len() {
            assert(a.occs[k] == r.occs[k]);
        }
    }
    assert forall|k: int| 0 <= k < a.bindings.len() implies from_tok(t, (#[trigger] a.bindings[k]).decl_span, a.bindings[k].name) by {
        if k < r.bindings.len() {
            assert(a.bindings[k] == r.bindings[k]);
        }
    }
    assert forall|k: int| 0 <= k < b.occs.len() implies from_tok(t, (#[trigger] b.occs[k]).span, b.occs[k].name) by {
        if k < r.occs.len() {
            assert(b.occs[k] == r.occs[k]);
        }
    }
    assert forall|k: int| 0 <= k < b.bindings.len() implies from_tok(t, (#[trigger] b.bindings[k]).decl_span, b.bindings[k].name) by {
        if k < r.bindings.len() {
            assert(b.bindings[k] == r.bindings[k]);
        }
    }
}

proof fn lemma_src_walk_params(r: RS, ps: Seq<IdentV>, t: Seq<TokenV>)
    requires
        walk_src(r, t),
        src_idents(ps, t),
    ensures
        walk_src(r_params(r, ps), t),
    decreases ps.len(),
{
    if ps.len() > 0 {
        assert(from_tok(t, ps[0].span, ps[0].name));
        lemma_src_declare(r, ps[0].name, BindingKind::Param, ps[0].span, 0, t);
        assert forall|i: int| 0 <= i < ps.drop_first().len() implies from_tok(t, (#[trigger] ps.drop_first()[i]).span, ps.drop_first()[i].name) by {
            assert(ps.drop_first()[i] == ps[i + 1]);
        }
        lemma_src_walk_params(declare_seq(r, ps[0].name, BindingKind::Param, ps[0].span), ps.drop_first(), t);
    }
}

proof fn lemma_src_walk_hoist(r: RS, ss: Seq<StmtV>, t: Seq<TokenV>)
    requires
        walk_src(r, t),
        src_stmts(ss, t),
    ensures
        walk_src(r_hoist(r, ss), t),
    decreases ss.len(),
{
    if ss.len() > 0 {
        lemma_src_stmts_index(ss, t);
        assert(src_stmt(ss[0], t));
        assert(src_stmts(ss.drop_first(), t)) by {
            lemma_src_stmts_index(ss.drop_first(), t);
            assert forall|i: int| 0 <= i < ss.drop_first().len() implies src_stmt(#[trigger] ss.drop_first()[i], t) by {
                assert(ss.drop_first()[i] == ss[i + 1]);
            }
        }
        match ss[0].kind {
            StmtKindV::Fn { name, params, body: _ } => {
                lemma_src_declare(r, name.name, BindingKind::Fn, name.span, params.len() as usize, t);
                lemma_src_walk_hoist(declare_fn(r, name.name, name.span, params.len() as usize), ss.drop_first(), t);
            },
            _ => {
                lemma_src_walk_hoist(r, ss.drop_first(), t);
            },
        }
    }
}

proof fn lemma_src_walk_block(r: RS, b: BlockV, params: Seq<IdentV>, t: Seq<TokenV>)
    requires
        walk_src(r, t),
        src_block(b, t),
        src_idents(params, t),
    ensures
        walk_src(r_block(r, b, params), t),
    decreases b,
{
    let r0 = push_frame(r);
    lemma_src_walk_params(r0, params, t);
    let r1 = r_params(r0, params);
    lemma_src_walk_hoist(r1, b.stmts, t);
    let rh = r_hoist(r1, b.stmts);
    lemma_src_walk_stmts(rh, b.stmts, t);
    let rs = r_stmts(rh, b.stmts);
    match b.tail {
        Some(e) => {
            lemma_src_walk_expr(rs, *e, t);
        },
        None => {},
    }
}

proof fn lemma_src_walk_stmts(r: RS, ss: Seq<StmtV>, t: Seq<TokenV>)
    requires
        walk_src(r, t),
        src_stmts(ss, t),
    ensures
        walk_src(r_stmts(r, ss), t),
    decreases ss,
{
    if ss.len() > 0 {
        lemma_src_walk_stmt(r, ss[0], t);
        lemma_src_walk_stmts(r_stmt(r, ss[0]), ss.subrange(1, ss.len() as int), t);
    }
}

proof fn lemma_src_walk_stmt(r: RS, st: StmtV, t: Seq<TokenV>)
    requires
        walk_src(r, t),
        src_stmt(st, t),
    ensures
        walk_src(r_stmt(r, st), t),
    decreases st,
{
    match st.kind {
        StmtKindV::Let { name, value } => {
            lemma_src_walk_expr(r, value, t);
            lemma_src_declare(r_expr(r, value), name.name, BindingKind::Let, name.span, 0, t);
        },
        StmtKindV::Fn { name: _, params, body } => {
            lemma_src_walk_block(r, body, params, t);
        },
        StmtKindV::Expr { expr } => {
            lemma_src_walk_expr(r, expr, t);
        },
    }
}

proof fn lemma_src_walk_exprs(r: RS, es: Seq<ExprV>, t: Seq<TokenV>)
    requires
        walk_src(r, t),
        src_exprs(es, t),
    ensures
        walk_src(r_exprs(r, es), t),
    decreases es,
{
    if es.len() > 0 {
        lemma_src_walk_expr(r, es[0], t);
        lemma_src_walk_exprs(r_expr(r, es[0]), es.subrange(1, es.len() as int), t);
    }
}

proof fn lemma_src_walk_expr(r: RS, e: ExprV, t: Seq<TokenV>)
    requires
        walk_src(r, t),
        src_expr(e, t),
    ensures
        walk_src(r_expr(r, e), t),
    decreases e,
{
    match e.kind {
        ExprKindV::Name { name } => {
            let x = r_name(r, name, e.span);
            assert forall|k: int| 0 <= k < x.occs.len() implies from_tok(t, (#[trigger] x.occs[k]).span, x.occs[k].name) by {
                if k < r.occs.len() {
                    assert(x.occs[k] == r.occs[k]);
                }
            }
        },
        ExprKindV::Unary { op: _, expr } => {
            lemma_src_walk_expr(r, *expr, t);
        },
        ExprKindV::Binary { op: _, lhs, rhs } => {
            lemma_src_walk_expr(r, *lhs, t);
            lemma_src_walk_expr(r_expr(r, *lhs), *rhs, t);
        },
        ExprKindV::Call { callee, args } => {
            lemma_src_walk_expr(r, *callee, t);
            lemma_src_walk_exprs(r_expr(r, *callee), args, t);
        },
        ExprKindV::If { cond, then_block, else_block } => {
            assert(src_idents(seq![], t));
            lemma_src_walk_expr(r, *cond, t);
            lemma_src_walk_block(r_expr(r, *cond), then_block, seq![], t);
            match else_block {
                Some(b) => {
                    lemma_src_walk_block(r_block(r_expr(r, *cond), then_block, seq![]), b, seq![], t);
                },
                None => {},
            }
        },
        ExprKindV::Block { block } => {
            assert(src_idents(seq![], t));
            lemma_src_walk_block(r, block, seq![], t);
        },
        ExprKindV::Paren { inner } => {
            lemma_src_walk_expr(r, *inner, t);
        },
        _ => {},
    }
}

/// The occurrences and bindings of a program parsed from `t` come from `t`.
pub proof fn lemma_program_src(p: Seq<StmtV>, t: Seq<TokenV>)
    requires
        src_stmts(p, t),
    ensures
        walk_src(r_program(p), t),
{
    let r0 = push_frame(empty_rs());
    lemma_src_walk_hoist(r0, p, t);
    lemma_src_walk_stmts(r_hoist(r0, p), p, t);
}

// ---------------------------------------------------------------------------
// The spans a rename replaces

proof fn lemma_sel_sort_has<A>(s: Seq<A>, le: spec_fn(A, A) -> bool)
    ensures
        sel_sort(s, le).len() == s.len(),
        forall|i: int| 0 <= i < s.len() ==> exists|k: int| 0 <= k < sel_sort(s, le).len() && #[trigger] sel_sort(s, le)[k] == #[trigger] s[i],
    decreases s.len(),
{
    if s.len() > 0 {
        let m = min_idx(s, le, 1, 0);
        lemma_min_idx_range(s, le, 1, 0);
        let r = s.remove(m);
        lemma_sel_sort_has(r, le);
        let out = sel_sort(s, le);
        assert forall|i: int| 0 <= i < s.len() implies exists|k: int| 0 <= k < out.len() && #[trigger] out[k] == #[trigger] s[i] by {
            if i == m {
                assert(out[0] == s[m]);
            } else {
                let i2 = if i < m { i } else { i - 1 };
                assert(r[i2] == s[i]);
                let k2 = choose|k2: int| 0 <= k2 < sel_sort(r, le).len() && #[trigger] sel_sort(r, le)[k2] == r[i2];
                assert(out[k2 + 1] == sel_sort(r, le)[k2]);
            }
        }
    }
}

pub open spec fn from_occ(s: Seq<Occurrence>, id: usize, sp: Span) -> bool {
    exists|k: int| 0 <= k < s.len() && (#[trigger] s[k]).binding == Some(id) && s[k].span == sp
}

proof fn lemma_refs_from(s: Seq<Occurrence>, id: usize)
    ensures
        forall|i: int| 0 <= i < refs_of(s, id).len() ==> from_occ(s, id, (#[trigger] refs_of(s, id)[i]).span),
    decreases s.len(),
{
    if s.len() > 0 {
        let init = s.drop_last();
        lemma_refs_from(init, id);
        let r = refs_of(s, id);
        if s.last().binding == Some(id) {
            assert(r == refs_of(init, id).push(Reference { span: s.last().span, is_decl: s.last().is_decl }));
        } else {
            assert(r == refs_of(init, id));
        }
        assert forall|i: int| 0 <= i < r.len() implies from_occ(s, id, (#[trigger] r[i]).span) by {
            if i < refs_of(init, id).len() {
                assert(r[i] == refs_of(init, id)[i]);
                assert(from_occ(init, id, refs_of(init, id)[i].span));
                let k = choose|k: int| 0 <= k < init.len() && (#[trigger] init[k]).binding == Some(id) && init[k].span == refs_of(init, id)[i].span;
                assert(s[k] == init[k]);
            } else {
                assert(r[i].span == s.last().span);
                assert(s[s.len() - 1] == s.last());
            }
        }
    }
}

/// The spans of a binding's occurrences, in order, are identifier tokens lying
/// apart, when the occurrences are sorted, are identifier tokens starting with
/// a character that may go on an identifier, and share no span.
proof fn lemma_refs_apart(s: Seq<Occurrence>, id: usize, text: Seq<u8>)
    requires
        text.len() <= u32::MAX,
        forall|k: int| 0 <= k < s.len() && (#[trigger] s[k]).binding == Some(id) ==> (exists|i: int|
            0 <= i < lex_from(text, 0, 0).len() && (#[trigger] lex_from(text, 0, 0)[i]).kind == TokenKind::Ident
                && lex_from(text, 0, 0)[i].span == s[k].span) && ident_goes_on(text, s[k].span.start as int),
        forall|k1: int, k2: int| 0 <= k1 < k2 < s.len() ==> (#[trigger] s[k1]).span.start <= (#[trigger] s[k2]).span.start,
        forall|k1: int, k2: int|
            0 <= k1 < s.len() && 0 <= k2 < s.len() && (#[trigger] s[k1]).binding == Some(id) && (#[trigger] s[k2]).binding == Some(id)
                && s[k1].span == s[k2].span ==> k1 == k2,
    ensures
        spans_apart(ref_spans(refs_of(s, id))),
        ident_tokens(text, ref_spans(refs_of(s, id))),
    decreases s.len(),
{
    let t = lex_from(text, 0, 0);
    lemma_lex_spans(text, 0, 0);
    let sp = ref_spans(refs_of(s, id));
    lemma_refs_from(s, id);
    assert forall|i: int| 0 <= i < sp.len() implies (exists|j: int|
        0 <= j < t.len() && (#[trigger] t[j]).span == sp[i] && t[j].kind == TokenKind::Ident) && ident_goes_on(text, (#[trigger] sp[i]).start as int) by {
        assert(sp[i] == refs_of(s, id)[i].span);
        assert(from_occ(s, id, refs_of(s, id)[i].span));
        let k = choose|k: int| 0 <= k < s.len() && (#[trigger] s[k]).binding == Some(id) && s[k].span == refs_of(s, id)[i].span;
    }
    if s.len() > 0 {
        let init = s.drop_last();
        let n = s.len() - 1;
        assert(s.last() == s[n]);
        assert forall|k: int| 0 <= k < init.len() && (#[trigger] init[k]).binding == Some(id) implies (exists|i: int|
            0 <= i < t.len() && (#[trigger] t[i]).kind == TokenKind::Ident && t[i].span == init[k].span)
            && ident_goes_on(text, init[k].span.start as int) by {
            assert(init[k] == s[k]);
        }
        assert forall|k1: int, k2: int| 0 <= k1 < k2 < init.len() implies (#[trigger] init[k1]).span.start <= (#[trigger] init[k2]).span.start by {
            assert(init[k1] == s[k1] && init[k2] == s[k2]);
        }
        assert forall|k1: int, k2: int|
            0 <= k1 < init.len() && 0 <= k2 < init.len() && (#[trigger] init[k1]).binding == Some(id) && (#[trigger] init[k2]).binding == Some(id)
                && init[k1].span == init[k2].span implies k1 == k2 by {
            assert(init[k1] == s[k1] && init[k2] == s[k2]);
        }
        lemma_refs_apart(init, id, text);
        let spi = ref_spans(refs_of(init, id));
        if s.last().binding == Some(id) {
            let r = Reference { span: s.last().span, is_decl: s.last().is_decl };
            assert(refs_of(s, id) == refs_of(init, id).push(r));
            assert(sp =~= spi.push(s.last().span));
            lemma_refs_from(init, id);
            let i2 = choose|i: int| 0 <= i < t.len() && (#[trigger] t[i]).kind == TokenKind::Ident && t[i].span == s[n].span;
            assert forall|a: int, b: int| 0 <= a < b < sp.len() implies (#[trigger] sp[a]).end < (#[trigger] sp[b]).start by {
                if b < spi.len() {
                    assert(sp[a] == spi[a] && sp[b] == spi[b]);
                } else {
                    assert(sp[a] == spi[a]);
                    assert(spi[a] == refs_of(init, id)[a].span);
                    assert(from_occ(init, id, refs_of(init, id)[a].span));
                    let k = choose|k: int| 0 <= k < init.len() && (#[trigger] init[k]).binding == Some(id) && init[k].span == refs_of(init, id)[a].span;
                    assert(init[k] == s[k]);
                    let i1 = choose|i: int| 0 <= i < t.len() && (#[trigger] t[i]).kind == TokenKind::Ident && t[i].span == s[k].span;
                    assert(s[k].span != s[n].span);
                    assert(i1 != i2);
                    if i1 > i2 {
                        assert(t[i2].span.end <= t[i1].span.start);
                        assert(false);
                    }
                    assert(t[i1].span.end <= t[i2].span.start);
                    lemma_ident_token_at_pub(text, i1);
                }
            }
        } else {
            assert(sp == spi);
        }
    }
}

// ---------------------------------------------------------------------------
// The position map of a rename keeps the order of token positions

proof fn lemma_tok_pos_outside(text: Seq<u8>, sps: Seq<Span>, x: u32)
    requires
        text.len() <= u32::MAX,
        ident_tokens(text, sps),
        tok_pos(lex_from(text, 0, 0), x),
    ensures
        !strictly_inside(sps, x as int),
        x <= text.len(),
{
    let tk = lex_from(text, 0, 0);
    lemma_lex_spans(text, 0, 0);
    if x != 0 {
        let i = choose|i: int| 0 <= i < tk.len() && ((#[trigger] tk[i]).span.start == x || tk[i].span.end == x);
        if strictly_inside(sps, x as int) {
            let q = choose|q: int| 0 <= q < sps.len() && (#[trigger] sps[q]).start < x < sps[q].end;
            let j = choose|j: int| 0 <= j < tk.len() && (#[trigger] tk[j]).span == sps[q] && tk[j].kind == TokenKind::Ident;
            if i < j {
                assert(tk[i].span.end <= tk[j].span.start);
            } else if i > j {
                assert(tk[j].span.end <= tk[i].span.start);
            }
        }
    } else {
        if strictly_inside(sps, 0) {
            let q = choose|q: int| 0 <= q < sps.len() && (#[trigger] sps[q]).start < 0 < sps[q].end;
        }
    }
}

proof fn lemma_map_mono(text: Seq<u8>, sps: Seq<Span>, m: int)
    requires
        text.len() <= u32::MAX,
        ident_tokens(text, sps),
        spans_apart(sps),
        m >= 1,
        text.len() + shift_at(sps, m, text.len() as int) <= u32::MAX,
    ensures
        mono_on(splice_map(sps, m), Set::new(|p: u32| tok_pos(lex_from(text, 0, 0), p))),
        splice_map(sps, m)(0) == 0,
{
    let tk = lex_from(text, 0, 0);
    let ps = Set::new(|p: u32| tok_pos(tk, p));
    let f = splice_map(sps, m);
    let len = text.len() as int;
    lemma_lex_spans(text, 0, 0);
    assert forall|i: int| 0 <= i < sps.len() implies (#[trigger] sps[i]).start < sps[i].end by {
        let j = choose|j: int| 0 <= j < tk.len() && (#[trigger] tk[j]).span == sps[i] && tk[j].kind == TokenKind::Ident;
    }
    lemma_shift_zero(sps, m, 0);
    assert(!strictly_inside(sps, len)) by {
        if strictly_inside(sps, len) {
            let q = choose|q: int| 0 <= q < sps.len() && (#[trigger] sps[q]).start < len < sps[q].end;
            let j = choose|j: int| 0 <= j < tk.len() && (#[trigger] tk[j]).span == sps[q] && tk[j].kind == TokenKind::Ident;
        }
    }
    assert(!strictly_inside(sps, 0)) by {
        if strictly_inside(sps, 0) {
            let q = choose|q: int| 0 <= q < sps.len() && (#[trigger] sps[q]).start < 0 < sps[q].end;
        }
    }
    // every token position moves to within `[0, new length]`
    assert forall|x: u32| #[trigger] ps.contains(x) implies 0 <= x + shift_at(sps, m, x as int) <= u32::MAX by {
        lemma_tok_pos_outside(text, sps, x);
        if 0 < x {
            lemma_shift_mono(sps, m, 0, x as int);
        }
        if x < len {
            lemma_shift_mono(sps, m, x as int, len);
        }
    }
    assert forall|a: u32, b: u32| ps.contains(a) && ps.contains(b) && a < b implies #[trigger] f(a) < #[trigger] f(b) by {
        lemma_tok_pos_outside(text, sps, a);
        lemma_tok_pos_outside(text, sps, b);
        lemma_shift_mono(sps, m, a as int, b as int);
        assert(0 <= a + shift_at(sps, m, a as int) <= u32::MAX);
        assert(0 <= b + shift_at(sps, m, b as int) <= u32::MAX);
    }
}

// ---------------------------------------------------------------------------
// Renaming to a fresh name is accepted

/// The spans a rename replaces are those of the binding's occurrences in the
/// walk, whichever order the table keeps them in.
#[verifier::spinoff_prover]
proof fn lemma_spans_set(occ: Seq<Occurrence>, ro: Seq<OccV>, id: usize)
    requires
        occs_v(occ) == sel_sort(ro, occ_rel()),
    ensures
        ref_spans(refs_of(occ, id)).to_set() == id_spans(ro, id),
{
    let le = occ_rel();
    lemma_sel_sort_in(ro, le);
    lemma_sel_sort_has(ro, le);
    let srt = sel_sort(ro, le);
    let sp = ref_spans(refs_of(occ, id));
    lemma_refs_from(occ, id);
    assert forall|x: Span| sp.to_set().contains(x) implies id_spans(ro, id).contains(x) by {
        let i = choose|i: int| 0 <= i < sp.len() && sp[i] == x;
        assert(sp[i] == refs_of(occ, id)[i].span);
        assert(from_occ(occ, id, refs_of(occ, id)[i].span));
        let k = choose|k: int| 0 <= k < occ.len() && (#[trigger] occ[k]).binding == Some(id) && occ[k].span == refs_of(occ, id)[i].span;
        assert(srt[k] == occ_v(occ[k]));
        let j = choose|j: int| 0 <= j < ro.len() && #[trigger] srt[k] == ro[j];
        assert(ro[j].binding == Some(id) && ro[j].span == x);
    }
    assert forall|x: Span| id_spans(ro, id).contains(x) implies sp.to_set().contains(x) by {
        let j = choose|j: int| 0 <= j < ro.len() && (#[trigger] ro[j]).binding == Some(id) && ro[j].span == x;
        let k = choose|k: int| 0 <= k < srt.len() && #[trigger] srt[k] == #[trigger] ro[j];
        assert(srt[k] == occ_v(occ[k]));
        lemma_refs_of_has(occ, id, k);
        let r = Reference { span: occ[k].span, is_decl: occ[k].is_decl };
        let i = choose|i: int| 0 <= i < refs_of(occ, id).len() && refs_of(occ, id)[i] == r;
        assert(sp[i] == x);
    }
    assert(sp.to_set() =~= id_spans(ro, id));
}

/// The conditions under which a rename to `name` at `pos` is owed: the table
/// stays within
/// `usize` bindings; `name` is one identifier, not starting with a digit, `=`
/// or `/`; an identifier resolved at `pos`, and its occurrences are all real
/// identifiers (not placeholders left by error recovery) starting with a
/// character that may go on an identifier; no occurrence is spelled `name`;
/// and the text stays within `u32` positions while the occurrences are
/// replaced.
pub open spec fn fresh_rename_ok(a: Analysis, pos: u32, name: &str) -> bool {
    let t = a.spec_symbols();
    let occ = t.occurrences@;
    let text = encode_utf8(a.spec_text());
    &&& fresh_rename_pre(a, pos, name)
    &&& fits(text, ref_spans(refs_of(occ, target_binding(t, pos).unwrap())), name.spec_bytes())
}

/// The conditions of `fresh_rename_ok` but the length bound.
pub open spec fn fresh_rename_pre(a: Analysis, pos: u32, name: &str) -> bool {
    let t = a.spec_symbols();
    let occ = t.occurrences@;
    let text = encode_utf8(a.spec_text());
    &&& a.well_formed()
    &&& t.bindings@.len() <= usize::MAX
    &&& valid_identifier(name)
    &&& good_start(name.spec_bytes())
    &&& target_binding(t, pos) is Some
    &&& forall|k: int|
        0 <= k < occ.len() && (#[trigger] occ[k]).binding == target_binding(t, pos) ==> occ[k].span.start
            < occ[k].span.end && ident_goes_on(text, occ[k].span.start as int)
    &&& forall|k: int| 0 <= k < occ.len() ==> (#[trigger] occ[k]).name@ != name@
}

/// The symbol's occurrences in the table are identifier tokens lying apart.
#[verifier::spinoff_prover]
proof fn lemma_fresh_tokens(occ: Seq<Occurrence>, ro: Seq<OccV>, id: usize, text: Seq<u8>)
    requires
        text.len() <= u32::MAX,
        occs_v(occ) == sel_sort(ro, occ_rel()),
        crate::sort::sorted_by_key(occ),
        walk_src_occs(ro, lex_from(text, 0, 0)),
        forall|k: int|
            0 <= k < occ.len() && (#[trigger] occ[k]).binding == Some(id) ==> occ[k].span.start < occ[k].span.end
                && ident_goes_on(text, occ[k].span.start as int),
        forall|k1: int, k2: int|
            0 <= k1 < occ.len() && 0 <= k2 < occ.len() && (#[trigger] occ[k1]).span == (#[trigger] occ[k2]).span
                && occ[k1].span.start < occ[k1].span.end ==> k1 == k2,
    ensures
        spans_apart(ref_spans(refs_of(occ, id))),
        ident_tokens(text, ref_spans(refs_of(occ, id))),
{
    let tk = lex_from(text, 0, 0);
    lemma_sel_sort_in(ro, occ_rel());
    let srt = sel_sort(ro, occ_rel());
    assert forall|k: int| 0 <= k < occ.len() && (#[trigger] occ[k]).binding == Some(id) implies (exists|i: int|
        0 <= i < tk.len() && (#[trigger] tk[i]).kind == TokenKind::Ident && tk[i].span == occ[k].span)
        && ident_goes_on(text, occ[k].span.start as int) by {
        assert(occs_v(occ)[k] == occ_v(occ[k]));
        assert(srt[k] == occ_v(occ[k]));
        let j = choose|j: int| 0 <= j < ro.len() && #[trigger] srt[k] == ro[j];
        assert(from_tok(tk, ro[j].span, ro[j].name));
    }
    assert forall|k1: int, k2: int| 0 <= k1 < k2 < occ.len() implies (#[trigger] occ[k1]).span.start <= (#[trigger] occ[k2]).span.start by {
        assert(<Occurrence as crate::sort::KeyOrder>::key_le(occ[k1], occ[k2]));
    }
    lemma_refs_apart(occ, id, text);
}

pub open spec fn walk_src_occs(ro: Seq<OccV>, t: Seq<TokenV>) -> bool {
    forall|k: int| 0 <= k < ro.len() ==> from_tok(t, (#[trigger] ro[k]).span, ro[k].name)
}

/// The walk's occurrences are spelled as the table's, and those at the
/// symbol's spans are the symbol's.
#[verifier::spinoff_prover]
proof fn lemma_fresh_occs(occ: Seq<Occurrence>, ro: Seq<OccV>, id: usize, n: Seq<char>)
    requires
        occs_v(occ) == sel_sort(ro, occ_rel()),
        forall|k: int| 0 <= k < occ.len() && (#[trigger] occ[k]).binding == Some(id) ==> occ[k].span.start < occ[k].span.end,
        forall|k: int| 0 <= k < occ.len() ==> (#[trigger] occ[k]).name@ != n,
        forall|k1: int, k2: int|
            0 <= k1 < occ.len() && 0 <= k2 < occ.len() && (#[trigger] occ[k1]).span == (#[trigger] occ[k2]).span
                && occ[k1].span.start < occ[k1].span.end ==> k1 == k2,
    ensures
        forall|k: int| 0 <= k < ro.len() ==> (#[trigger] ro[k]).name != n,
        forall|k: int| 0 <= k < ro.len() && id_spans(ro, id).contains((#[trigger] ro[k]).span) ==> ro[k].binding == Some(id),
{
    lemma_sel_sort_has(ro, occ_rel());
    let srt = sel_sort(ro, occ_rel());
    assert forall|k: int| 0 <= k < ro.len() implies (#[trigger] ro[k]).name != n by {
        let k2 = choose|k2: int| 0 <= k2 < srt.len() && #[trigger] srt[k2] == #[trigger] ro[k];
        assert(occs_v(occ)[k2] == occ_v(occ[k2]));
    }
    assert forall|k: int| 0 <= k < ro.len() && id_spans(ro, id).contains((#[trigger] ro[k]).span) implies ro[k].binding == Some(id) by {
        let j = choose|j: int| 0 <= j < ro.len() && (#[trigger] ro[j]).binding == Some(id) && ro[j].span == ro[k].span;
        let k1 = choose|k1: int| 0 <= k1 < srt.len() && #[trigger] srt[k1] == #[trigger] ro[k];
        let k2 = choose|k2: int| 0 <= k2 < srt.len() && #[trigger] srt[k2] == #[trigger] ro[j];
        assert(occs_v(occ)[k1] == occ_v(occ[k1]));
        assert(occs_v(occ)[k2] == occ_v(occ[k2]));
        assert(occ[k2].binding == Some(id));
        assert(occ[k1].span == occ[k2].span);
    }
}

/// What the conditions give about the spans a fresh rename replaces.
#[verifier::spinoff_prover]
#[verifier::rlimit(60)]
proof fn lemma_fresh_spans(a: Analysis, pos: u32, name: &str)
    requires
        fresh_rename_pre(a, pos, name),
    ensures
        ({
            let text = encode_utf8(a.spec_text());
            let t = a.spec_symbols();
            let occ = t.occurrences@;
            let id = target_binding(t, pos).unwrap();
            let spans = ref_spans(refs_of(occ, id));
            let r = r_program(group_stmts(a.spec_groups()));
            &&& spans_apart(spans)
            &&& ident_tokens(text, spans)
            &&& spans.len() > 0
            &&& !has_empty_span(spans)
            &&& spans.to_set() == id_spans(r.occs, id)
            &&& forall|k: int| 0 <= k < r.occs.len() ==> (#[trigger] r.occs[k]).name != name@
            &&& forall|k: int|
                0 <= k < r.occs.len() && id_spans(r.occs, id).contains((#[trigger] r.occs[k]).span) ==> r.occs[k].binding
                    == Some(id)
            &&& r.bindings == bindings_v(t.bindings@)
            &&& walk_src(r, lex_from(text, 0, 0))
        }),
{
    let text = encode_utf8(a.spec_text());
    let t = a.spec_symbols();
    let occ = t.occurrences@;
    let tk = lex_from(text, 0, 0);
    lemma_analysis_facts(a);
    let p = group_stmts(a.spec_groups());
    let r = r_program(p);
    let id = target_binding(t, pos).unwrap();
    let spans = ref_spans(refs_of(occ, id));
    assert(p == group_stmts(spec_parse_items(tk).0));
    lemma_parse_src(tk);
    lemma_program_src(p, tk);
    assert(walk_src_occs(r.occs, tk));
    crate::rename_distinct::lemma_lex_incr(text);
    crate::rename_distinct::lemma_sorted_occs_unique(tk, occ_rel());
    assert forall|k1: int, k2: int|
        0 <= k1 < occ.len() && 0 <= k2 < occ.len() && (#[trigger] occ[k1]).span == (#[trigger] occ[k2]).span
            && occ[k1].span.start < occ[k1].span.end implies k1 == k2 by {
        assert(occs_v(occ)[k1] == occ_v(occ[k1]));
        assert(occs_v(occ)[k2] == occ_v(occ[k2]));
    }
    lemma_fresh_tokens(occ, r.occs, id, text);
    lemma_fresh_occs(occ, r.occs, id, name@);
    lemma_spans_set(occ, r.occs, id);
    lemma_refs_from(occ, id);
    assert forall|i: int| 0 <= i < spans.len() implies (#[trigger] spans[i]).start < spans[i].end by {
        assert(spans[i] == refs_of(occ, id)[i].span);
        assert(from_occ(occ, id, refs_of(occ, id)[i].span));
    }
    crate::query::lemma_occurrence_index_range(occ, pos);
    let i0 = crate::query::occurrence_index(occ, pos).unwrap();
    lemma_refs_of_has(occ, id, i0);
}

/// Renaming a symbol to a name that no occurrence of the program uses is
/// accepted: under the conditions of `fresh_rename_ok`, the renamed text
/// resolves as the old one did, so the rename is not refused.
#[verifier::spinoff_prover]
#[verifier::rlimit(100)]
pub proof fn law_fresh_rename_succeeds(a: Analysis, pos: u32, name: &str)
    requires
        fresh_rename_ok(a, pos, name),
    ensures
        rename_outcome(encode_utf8(a.spec_text()), a.spec_symbols(), pos, name) is Ok,
{
    let text = encode_utf8(a.spec_text());
    let t = a.spec_symbols();
    let occ = t.occurrences@;
    let tk = lex_from(text, 0, 0);
    lemma_analysis_facts(a);
    lemma_fresh_spans(a, pos, name);
    let p = group_stmts(a.spec_groups());
    let r = r_program(p);
    let id = target_binding(t, pos).unwrap();
    let spans = ref_spans(refs_of(occ, id));
    let nb = name.spec_bytes();
    let n = name@;
    let m = nb.len() as int;
    let sset = spans.to_set();
    let f = splice_map(spans, m);
    assert(p == group_stmts(spec_parse_items(tk).0));
    encode_utf8_valid_utf8(a.spec_text());
    assert(text.skip(0) =~= text);
    encode_utf8_valid_utf8(n);
    encode_utf8_decode_utf8(n);
    assert(nb.len() <= u32::MAX) by {
        let l = spans.last();
        assert(splice(text, l.start as int, l.end as int, nb).len() <= u32::MAX);
    }
    lemma_one_ident_of(nb);
    lemma_program_ids(p);
    // relexing the renamed text
    lemma_splice_all(text, spans, nb);
    let nt = replace_spans(text, spans, nb).unwrap();
    lemma_map_mono(text, spans, m);
    assert(map_ok(f, sset)) by {
        assert forall|sp: Span| #[trigger] sset.contains(sp) implies sp.start != sp.end by {
            let i = choose|i: int| 0 <= i < spans.len() && spans[i] == sp;
        }
    }
    // reparsing it
    lemma_parse_mapped(tk, f, sset, n);
    lemma_pm_split_stmts(p, f, sset, n);
    let q = rn_stmts(p, sset, n);
    // resolving it
    law_fresh_rename_resolves_alike(p, id, n);
    lemma_moved_program(q, f, n);
    let r2 = r_program(pm_stmts(q, f, Set::empty(), n));
    assert(group_stmts(spec_parse_items(lex_from(nt, 0, 0)).0) == pm_stmts(q, f, Set::empty(), n));
    // the fingerprints agree
    lemma_fresh_shape(text, r, r2, id, n, f);
    assert(table_shape(t) == shape_of(r.bindings, sel_sort(r.occs, occ_rel())));
}

/// The fingerprint of the moved and renamed walk is that of the walk.
#[verifier::spinoff_prover]
proof fn lemma_fresh_shape(text: Seq<u8>, r: RS, r2: RS, id: usize, n: Seq<char>, f: spec_fn(u32) -> u32)
    requires
        text.len() <= u32::MAX,
        walk_src(r, lex_from(text, 0, 0)),
        forall|k: int| 0 <= k < r.occs.len() ==> ((#[trigger] r.occs[k]).binding matches Some(b) ==> b < r.bindings.len()),
        mono_on(f, Set::new(|x: u32| tok_pos(lex_from(text, 0, 0), x))),
        r2.bindings == sm_bindings(rn_bindings(r.bindings, id, n), f),
        r2.occs == sm_occs(rn_occs(r.occs, id, n), f),
    ensures
        shape_of(r2.bindings, sel_sort(r2.occs, occ_rel())) == shape_of(r.bindings, sel_sort(r.occs, occ_rel())),
{
    let tk = lex_from(text, 0, 0);
    let ps = Set::new(|x: u32| tok_pos(tk, x));
    let g = |o: OccV| sm_occ(rn_occ(o, id, n), f);
    assert(r2.occs =~= r.occs.map_values(g));
    assert forall|k: int| 0 <= k < r.occs.len() implies span_in(#[trigger] r.occs[k].span, ps) by {
        assert(from_tok(tk, r.occs[k].span, r.occs[k].name));
        if exists|i: int| 0 <= i < tk.len() && (#[trigger] tk[i]).kind == TokenKind::Ident && tk[i].span == r.occs[k].span && tk[i].text == r.occs[k].name {
            let i = choose|i: int| 0 <= i < tk.len() && (#[trigger] tk[i]).kind == TokenKind::Ident && tk[i].span == r.occs[k].span && tk[i].text == r.occs[k].name;
            assert(tok_pos(tk, tk[i].span.start) && tok_pos(tk, tk[i].span.end));
        }
    }
    assert forall|k: int| 0 <= k < r.bindings.len() implies span_in(#[trigger] r.bindings[k].decl_span, ps) by {
        assert(from_tok(tk, r.bindings[k].decl_span, r.bindings[k].name));
        if exists|i: int| 0 <= i < tk.len() && (#[trigger] tk[i]).kind == TokenKind::Ident && tk[i].span == r.bindings[k].decl_span && tk[i].text == r.bindings[k].name {
            let i = choose|i: int| 0 <= i < tk.len() && (#[trigger] tk[i]).kind == TokenKind::Ident && tk[i].span == r.bindings[k].decl_span && tk[i].text == r.bindings[k].name;
            assert(tok_pos(tk, tk[i].span.start) && tok_pos(tk, tk[i].span.end));
        }
    }
    assert forall|k: int| 0 <= k < r.bindings.len() implies (#[trigger] r2.bindings[k]).decl_span == fsp(f, r.bindings[k].decl_span) by {}
    lemma_shape_moved(r.bindings, r2.bindings, r.occs, g, f, ps);
}

/// Replacing spans that lie apart within the text, last first, keeps every
/// partial result within `u32` positions when the text with one more copy of
/// the new spelling per span does.
proof fn lemma_fits_bound(b: Seq<u8>, sps: Seq<Span>, nb: Seq<u8>)
    requires
        spans_apart(sps),
        forall|i: int| 0 <= i < sps.len() ==> (#[trigger] sps[i]).start <= sps[i].end <= b.len(),
        b.len() + sps.len() * nb.len() <= u32::MAX,
    ensures
        fits(b, sps, nb),
    decreases sps.len(),
{
    if sps.len() > 0 {
        let n = sps.len() as int;
        let m = nb.len() as int;
        let l = sps.last();
        let b1 = splice(b, l.start as int, l.end as int, nb);
        assert(b1.len() == b.len() - (l.end - l.start) + m);
        let d = sps.drop_last();
        assert(spans_apart(d)) by {
            assert forall|i: int, k: int| 0 <= i < k < d.len() implies (#[trigger] d[i]).end < (#[trigger] d[k]).start by {
                assert(d[i] == sps[i] && d[k] == sps[k]);
            }
        }
        assert forall|i: int| 0 <= i < d.len() implies (#[trigger] d[i]).start <= d[i].end <= b1.len() by {
            assert(d[i] == sps[i]);
            assert(sps[i].end < sps[n - 1].start);
        }
        assert((n - 1) * m + m == n * m) by (nonlinear_arith);
        assert(0 <= (n - 1) * m) by (nonlinear_arith)
            requires
                n >= 1,
                m >= 0,
        ;
        lemma_fits_bound(b1, d, nb);
    }
}

/// Whether `j` is a character boundary from which an identifier goes on.
fn ident_goes_on_at(text: &str, j: u32) -> (r: bool)
    ensures
        r == (vstd::utf8::is_char_boundary(text.spec_bytes(), j as int) && ident_goes_on(text.spec_bytes(), j as int)),
{
    let b = text.as_bytes();
    if (j as usize) >= b.len() {
        return false;
    }
    if !text.is_char_boundary(j as usize) {
        return false;
    }
    proof {
        encode_utf8_valid_utf8(text@);
        vstd::utf8::is_char_boundary_iff_not_is_continuation_byte(text.spec_bytes(), j as int);
        assert(text.spec_bytes().skip(0) =~= text.spec_bytes());
        crate::unicode::lemma_valid_at_lead_byte(text.spec_bytes(), 0, j as int);
    }
    let (c, _l) = crate::unicode::decode_at(b, j as usize);
    crate::lexer::is_ident_continue(c)
}

/// Whether two byte strings are the same.
fn same_bytes(x: &[u8], y: &[u8]) -> (r: bool)
    ensures
        r == (x@ == y@),
{
    if x.len() != y.len() {
        return false;
    }
    let mut i: usize = 0;
    while i < x.len()
        invariant
            i <= x@.len() == y@.len(),
            forall|k: int| 0 <= k < i ==> x@[k] == y@[k],
        decreases x@.len() - i,
    {
        if x[i] != y[i] {
            return false;
        }
        i = i + 1;
    }
    assert(x@ =~= y@);
    true
}

/// What `rename_to_fresh` checks: the conditions of `fresh_rename_pre`, each
/// replaced occurrence starting at a character boundary, and the text with
/// one more copy of the new name per occurrence within `u32` positions.
pub open spec fn fresh_checked(a: Analysis, pos: u32, name: &str) -> bool {
    let t = a.spec_symbols();
    let text = encode_utf8(a.spec_text());
    &&& fresh_rename_pre(a, pos, name)
    &&& forall|k: int|
        0 <= k < t.occurrences@.len() && (#[trigger] t.occurrences@[k]).binding == target_binding(t, pos)
            ==> vstd::utf8::is_char_boundary(text, t.occurrences@[k].span.start as int)
    &&& text.len() + refs_of(t.occurrences@, target_binding(t, pos).unwrap()).len() * name.spec_bytes().len()
        <= u32::MAX
}

/// Rename the symbol at `pos` to `name` after checking, with the standard
/// library's character classes, the conditions under which such a rename is
/// owed; it then succeeds. `None` when a condition does not hold.
pub fn rename_to_fresh(a: &Analysis, pos: u32, name: &str) -> (r: Option<crate::rename::Rename>)
    requires
        name.spec_bytes().len() <= u32::MAX,
    ensures
        r is Some <==> fresh_checked(*a, pos, name),
        r matches Some(x) ==> rename_outcome(encode_utf8(a.spec_text()), a.spec_symbols(), pos, name) matches Ok(
            (spans, nt),
        ) && crate::rename::edit_spans(x.edits@) == spans && encode_utf8(x.new_text@) == nt,
{
    let text = a.text();
    let t = a.symbols();
    let ghost occ = t.occurrences@;
    let ghost tb = encode_utf8(a.spec_text());
    assert(t.bindings@.len() <= usize::MAX) by {
        assert(t.bindings@.len() == t.bindings.len());
    }
    if !crate::rename::is_valid_identifier(name) {
        return None;
    }
    let nbytes = name.as_bytes();
    if nbytes.len() == 0 || (nbytes[0] >= 48 && nbytes[0] <= 57) || nbytes[0] == 61 || nbytes[0] == 47 {
        return None;
    }
    assert(good_start(name.spec_bytes()));
    let refs = a.find_references(pos);
    if refs.len() == 0 {
        proof {
            if target_binding(*t, pos) matches Some(id) {
                crate::query::law_references_hold_one_declaration(*a, pos);
            }
        }
        return None;
    }
    assert(target_binding(*t, pos) is Some) by {
        if target_binding(*t, pos) is None {
            assert(refs@.len() == 0);
        }
    }
    let ghost id = target_binding(*t, pos).unwrap();
    assert(refs@ == refs_of(occ, id));
    proof {
        lemma_refs_from(occ, id);
    }
    // Each occurrence of the symbol: a real identifier whose first character
    // goes on an identifier.
    let mut i: usize = 0;
    while i < refs.len()
        invariant
            *t == a.spec_symbols(),
            occ == t.occurrences@,
            target_binding(*t, pos) == Some(id),
            tb == encode_utf8(a.spec_text()),
            nbytes@ == name.spec_bytes(),
            valid_identifier(name),
            good_start(name.spec_bytes()),
            t.bindings@.len() <= usize::MAX,
            i <= refs@.len(),
            refs@ == refs_of(occ, id),
            text.spec_bytes() == tb,
            forall|j: int| 0 <= j < i ==> (#[trigger] refs@[j]).span.start < refs@[j].span.end
                && vstd::utf8::is_char_boundary(tb, refs@[j].span.start as int)
                && ident_goes_on(tb, refs@[j].span.start as int),
        decreases refs@.len() - i,
    {
        let sp = refs[i].span;
        if !(sp.start < sp.end) || !ident_goes_on_at(text, sp.start) {
            proof {
                lemma_refs_from(occ, id);
                assert(from_occ(occ, id, refs@[i as int].span));
                let k = choose|k: int| 0 <= k < occ.len() && (#[trigger] occ[k]).binding == Some(id) && occ[k].span
                    == refs@[i as int].span;
                assert(a.spec_symbols().occurrences@[k] == occ[k]);
                assert(occ[k].binding == target_binding(a.spec_symbols(), pos));
                assert(sp == occ[k].span);
                assert(text.spec_bytes() == tb);
                if fresh_checked(*a, pos, name) {
                    assert(occ[k].span.start < occ[k].span.end);
                    assert(ident_goes_on(tb, occ[k].span.start as int));
                    assert(vstd::utf8::is_char_boundary(tb, occ[k].span.start as int));
                }
            }
            return None;
        }
        i = i + 1;
    }
    // No occurrence already uses the new name.
    let mut k: usize = 0;
    while k < t.occurrences.len()
        invariant
            *t == a.spec_symbols(),
            occ == t.occurrences@,
            target_binding(*t, pos) == Some(id),
            tb == encode_utf8(a.spec_text()),
            nbytes@ == name.spec_bytes(),
            valid_identifier(name),
            good_start(name.spec_bytes()),
            t.bindings@.len() <= usize::MAX,
            refs@ == refs_of(occ, id),
            text.spec_bytes() == tb,
            forall|j: int| 0 <= j < refs@.len() ==> (#[trigger] refs@[j]).span.start < refs@[j].span.end
                && vstd::utf8::is_char_boundary(tb, refs@[j].span.start as int)
                && ident_goes_on(tb, refs@[j].span.start as int),
            k <= occ.len(),
            t.occurrences@ == occ,
            forall|j: int| 0 <= j < k ==> (#[trigger] occ[j]).name@ != name@,
        decreases occ.len() - k,
    {
        let nm = t.occurrences[k].name.as_str();
        let eq = same_bytes(nm.as_bytes(), nbytes);
        proof {
            assert(nm@ == occ[k as int].name@);
            if occ[k as int].name@ == name@ {
                assert(nm.spec_bytes() == name.spec_bytes());
            }
        }
        if eq {
            proof {
                vstd::utf8::encode_utf8_decode_utf8(occ[k as int].name@);
                vstd::utf8::encode_utf8_decode_utf8(name@);
                assert(nbytes@ == name.spec_bytes());
                assert(occ[k as int].name@ == name@);
                assert(a.spec_symbols().occurrences@[k as int].name@ == name@);
            }
            return None;
        }
        assert(nbytes@ == name.spec_bytes());
        assert(occ[k as int].name@ != name@);
        k = k + 1;
    }
    let prod = (refs.len() as u64).checked_mul(nbytes.len() as u64);
    let fits_u32 = match prod {
        Some(pv) => match (text.len() as u64).checked_add(pv) {
            Some(v) => v <= 0xffff_ffffu64,
            None => false,
        },
        None => false,
    };
    proof {
        assert forall|kk: int|
            0 <= kk < occ.len() && (#[trigger] occ[kk]).binding == Some(id) implies occ[kk].span.start < occ[kk].span.end
                && ident_goes_on(tb, occ[kk].span.start as int) && vstd::utf8::is_char_boundary(
                tb,
                occ[kk].span.start as int,
            ) by {
            lemma_refs_of_has(occ, id, kk);
            let rr = Reference { span: occ[kk].span, is_decl: occ[kk].is_decl };
            let j = choose|j: int| 0 <= j < refs_of(occ, id).len() && refs_of(occ, id)[j] == rr;
            assert(refs@[j] == rr);
        }
    }
    if !fits_u32 {
        return None;
    }
    proof {
        assert(fresh_rename_pre(*a, pos, name));
        lemma_fresh_spans(*a, pos, name);
        let spans = ref_spans(refs_of(occ, id));
        lemma_lex_spans(tb, 0, 0);
        assert forall|j: int| 0 <= j < spans.len() implies (#[trigger] spans[j]).start <= spans[j].end <= tb.len() by {
            let jj = choose|jj: int|
                0 <= jj < lex_from(tb, 0, 0).len() && (#[trigger] lex_from(tb, 0, 0)[jj]).span == spans[j]
                    && lex_from(tb, 0, 0)[jj].kind == TokenKind::Ident;
        }
        assert(spans.len() == refs_of(occ, id).len());
        lemma_fits_bound(tb, spans, name.spec_bytes());
        law_fresh_rename_succeeds(*a, pos, name);
    }
    match a.rename(pos, name) {
        Ok(x) => Some(x),
        Err(_) => None,
    }
}

} // verus!
