//! Renaming one binding in the syntax tree, and what it does to resolution.
//!
//! `rn_*` rename every identifier whose span lies in a set to a new name. When
//! that set is exactly the spans of one binding's occurrences and the new name
//! is used by no occurrence, the resolution walk of the renamed tree records the
//! same bindings and occurrences, resolved to the same binding numbers; only
//! the renamed binding's name differs.

use vstd::prelude::*;
use crate::ast::{IdentV, StmtV, StmtKindV, BlockV, ExprV, ExprKindV};
use crate::resolve_spec::{BindingV, OccV, FrameV, RS, find_last, find_first, lookup, ids_ok, empty_rs, push_frame, pop_frame, declare_seq, declare_fn, r_params, r_hoist, r_block, r_stmts, r_stmt, r_exprs, r_expr, r_name, r_program, lemma_frame_ids, lemma_declare_ids, lemma_params_ids, lemma_hoist_ids, lemma_stmts_ids, lemma_stmt_ids, lemma_exprs_ids, lemma_expr_ids, lemma_block_ids};
use crate::resolver::BindingKind;
use crate::span::Span;

verus! {

// ---------------------------------------------------------------------------
// Renaming the tree

pub open spec fn rn_ident(i: IdentV, s: Set<Span>, n: Seq<char>) -> IdentV {
    if s.contains(i.span) {
        IdentV { name: n, span: i.span }
    } else {
        i
    }
}

pub open spec fn rn_idents(ps: Seq<IdentV>, s: Set<Span>, n: Seq<char>) -> Seq<IdentV> {
    ps.map_values(|i: IdentV| rn_ident(i, s, n))
}

pub open spec fn rn_expr(e: ExprV, s: Set<Span>, n: Seq<char>) -> ExprV
    decreases e,
{
    ExprV {
        kind: match e.kind {
            ExprKindV::Name { name } => ExprKindV::Name {
                name: if s.contains(e.span) {
                    n
                } else {
                    name
                },
            },
            ExprKindV::Unary { op, expr } => ExprKindV::Unary {
                op,
                expr: Box::new(rn_expr(*expr, s, n)),
            },
            ExprKindV::Binary { op, lhs, rhs } => ExprKindV::Binary {
                op,
                lhs: Box::new(rn_expr(*lhs, s, n)),
                rhs: Box::new(rn_expr(*rhs, s, n)),
            },
            ExprKindV::Call { callee, args } => ExprKindV::Call {
                callee: Box::new(rn_expr(*callee, s, n)),
                args: rn_exprs(args, s, n),
            },
            ExprKindV::If { cond, then_block, else_block } => ExprKindV::If {
                cond: Box::new(rn_expr(*cond, s, n)),
                then_block: rn_block(then_block, s, n),
                else_block: match else_block {
                    Some(b) => Some(rn_block(b, s, n)),
                    None => None,
                },
            },
            ExprKindV::Block { block } => ExprKindV::Block { block: rn_block(block, s, n) },
            ExprKindV::Paren { inner } => ExprKindV::Paren { inner: Box::new(rn_expr(*inner, s, n)) },
            other => other,
        },
        span: e.span,
    }
}

pub open spec fn rn_exprs(es: Seq<ExprV>, s: Set<Span>, n: Seq<char>) -> Seq<ExprV>
    decreases es,
{
    if es.len() == 0 {
        seq![]
    } else {
        seq![rn_expr(es[0], s, n)] + rn_exprs(es.subrange(1, es.len() as int), s, n)
    }
}

pub open spec fn rn_block(b: BlockV, s: Set<Span>, n: Seq<char>) -> BlockV
    decreases b,
{
    BlockV {
        stmts: rn_stmts(b.stmts, s, n),
        tail: match b.tail {
            Some(e) => Some(Box::new(rn_expr(*e, s, n))),
            None => None,
        },
        span: b.span,
    }
}

pub open spec fn rn_stmt(st: StmtV, s: Set<Span>, n: Seq<char>) -> StmtV
    decreases st,
{
    StmtV {
        kind: match st.kind {
            StmtKindV::Let { name, value } => StmtKindV::Let {
                name: rn_ident(name, s, n),
                value: rn_expr(value, s, n),
            },
            StmtKindV::Fn { name, params, body } => StmtKindV::Fn {
                name: rn_ident(name, s, n),
                params: rn_idents(params, s, n),
                body: rn_block(body, s, n),
            },
            StmtKindV::Expr { expr } => StmtKindV::Expr { expr: rn_expr(expr, s, n) },
        },
        span: st.span,
    }
}

pub open spec fn rn_stmts(ss: Seq<StmtV>, s: Set<Span>, n: Seq<char>) -> Seq<StmtV>
    decreases ss,
{
    if ss.len() == 0 {
        seq![]
    } else {
        seq![rn_stmt(ss[0], s, n)] + rn_stmts(ss.subrange(1, ss.len() as int), s, n)
    }
}

// ---------------------------------------------------------------------------
// Renaming the walk state

pub open spec fn rn_entry(e: (Seq<char>, usize), id: usize, n: Seq<char>) -> (Seq<char>, usize) {
    if e.1 == id {
        (n, e.1)
    } else {
        e
    }
}

pub open spec fn rn_entries(es: Seq<(Seq<char>, usize)>, id: usize, n: Seq<char>) -> Seq<(Seq<char>, usize)> {
    es.map_values(|e: (Seq<char>, usize)| rn_entry(e, id, n))
}

pub open spec fn rn_frame(f: FrameV, id: usize, n: Seq<char>) -> FrameV {
    FrameV { fns: rn_entries(f.fns, id, n), seq: rn_entries(f.seq, id, n) }
}

pub open spec fn rn_stack(st: Seq<FrameV>, id: usize, n: Seq<char>) -> Seq<FrameV> {
    st.map_values(|f: FrameV| rn_frame(f, id, n))
}

pub open spec fn rn_binding(b: BindingV, i: int, id: usize, n: Seq<char>) -> BindingV {
    if i == id {
        BindingV { name: n, ..b }
    } else {
        b
    }
}

/// The bindings with binding `id` renamed to `n`.
pub open spec fn rn_bindings(bs: Seq<BindingV>, id: usize, n: Seq<char>) -> Seq<BindingV> {
    Seq::new(bs.len(), |i: int| rn_binding(bs[i], i, id, n))
}

pub open spec fn rn_occ(o: OccV, id: usize, n: Seq<char>) -> OccV {
    if o.binding == Some(id) {
        OccV { name: n, ..o }
    } else {
        o
    }
}

/// The occurrences with those of binding `id` renamed to `n`.
pub open spec fn rn_occs(os: Seq<OccV>, id: usize, n: Seq<char>) -> Seq<OccV> {
    os.map_values(|o: OccV| rn_occ(o, id, n))
}

/// The spans of the occurrences of binding `id`.
pub open spec fn id_spans(os: Seq<OccV>, id: usize) -> Set<Span> {
    Set::new(
        |sp: Span| exists|k: int| 0 <= k < os.len() && (#[trigger] os[k]).binding == Some(id) && os[k].span == sp,
    )
}

// ---------------------------------------------------------------------------
// Lookups in a renamed stack

spec fn no_name_in(es: Seq<(Seq<char>, usize)>, n: Seq<char>) -> bool {
    forall|j: int| 0 <= j < es.len() ==> (#[trigger] es[j]).0 != n
}

spec fn no_id_in(es: Seq<(Seq<char>, usize)>, id: usize) -> bool {
    forall|j: int| 0 <= j < es.len() ==> (#[trigger] es[j]).1 != id
}

/// `id` sits in at most one entry of `es`.
spec fn id_once_in(es: Seq<(Seq<char>, usize)>, id: usize) -> bool {
    forall|a: int, b: int| 0 <= a < es.len() && 0 <= b < es.len() && (#[trigger] es[a]).1 == id && (#[trigger] es[b]).1 == id ==> a == b
}

proof fn lemma_find_last_in(es: Seq<(Seq<char>, usize)>, name: Seq<char>)
    ensures
        find_last(es, name) matches Some(b) ==> exists|j: int| 0 <= j < es.len() && (#[trigger] es[j]).1 == b && es[j].0 == name,
    decreases es.len(),
{
    if es.len() > 0 && es.last().0 != name {
        lemma_find_last_in(es.drop_last(), name);
        if let Some(b) = find_last(es, name) {
            let j = choose|j: int| 0 <= j < es.drop_last().len() && (#[trigger] es.drop_last()[j]).1 == b && es.drop_last()[j].0 == name;
            assert(es[j] == es.drop_last()[j]);
        }
    }
}

proof fn lemma_find_first_in(es: Seq<(Seq<char>, usize)>, name: Seq<char>)
    ensures
        find_first(es, name) matches Some(b) ==> exists|j: int| 0 <= j < es.len() && (#[trigger] es[j]).1 == b && es[j].0 == name,
    decreases es.len(),
{
    if es.len() > 0 && es[0].0 != name {
        lemma_find_first_in(es.drop_first(), name);
        if let Some(b) = find_first(es, name) {
            let j = choose|j: int| 0 <= j < es.drop_first().len() && (#[trigger] es.drop_first()[j]).1 == b && es.drop_first()[j].0 == name;
            assert(es[j + 1] == es.drop_first()[j]);
        }
    }
}

/// Looking up a name other than `n` in the renamed entries finds what it found
/// before, unless that was `id`.
proof fn lemma_find_last_other(es: Seq<(Seq<char>, usize)>, name: Seq<char>, id: usize, n: Seq<char>)
    requires
        name != n,
        find_last(es, name) != Some(id),
    ensures
        find_last(rn_entries(es, id, n), name) == find_last(es, name),
    decreases es.len(),
{
    if es.len() > 0 {
        assert(rn_entries(es, id, n).drop_last() =~= rn_entries(es.drop_last(), id, n));
        assert(rn_entries(es, id, n).last() == rn_entry(es.last(), id, n));
        if es.last().0 != name {
            lemma_find_last_other(es.drop_last(), name, id, n);
        }
    }
}

proof fn lemma_find_first_other(es: Seq<(Seq<char>, usize)>, name: Seq<char>, id: usize, n: Seq<char>)
    requires
        name != n,
        find_first(es, name) != Some(id),
    ensures
        find_first(rn_entries(es, id, n), name) == find_first(es, name),
    decreases es.len(),
{
    if es.len() > 0 {
        assert(rn_entries(es, id, n).drop_first() =~= rn_entries(es.drop_first(), id, n));
        assert(rn_entries(es, id, n)[0] == rn_entry(es[0], id, n));
        if es[0].0 != name {
            lemma_find_first_other(es.drop_first(), name, id, n);
        }
    }
}

/// With no entry named `n` and no entry for `id`, the renamed entries hold no
/// `n` either.
proof fn lemma_find_absent(es: Seq<(Seq<char>, usize)>, id: usize, n: Seq<char>)
    requires
        no_name_in(es, n),
        no_id_in(es, id),
    ensures
        find_last(rn_entries(es, id, n), n) is None,
        find_first(rn_entries(es, id, n), n) is None,
    decreases es.len(),
{
    if es.len() > 0 {
        assert(rn_entries(es, id, n).drop_last() =~= rn_entries(es.drop_last(), id, n));
        assert(rn_entries(es, id, n).drop_first() =~= rn_entries(es.drop_first(), id, n));
        assert(rn_entries(es, id, n).last() == rn_entry(es.last(), id, n));
        assert(rn_entries(es, id, n)[0] == rn_entry(es[0], id, n));
        assert(es.last() == es[es.len() - 1]);
        lemma_find_absent(es.drop_last(), id, n);
        lemma_find_absent(es.drop_first(), id, n);
    }
}

/// Where `name` found `id`, the renamed entries find `id` under `n`.
proof fn lemma_find_last_renamed(es: Seq<(Seq<char>, usize)>, name: Seq<char>, id: usize, n: Seq<char>)
    requires
        no_name_in(es, n),
        id_once_in(es, id),
        find_last(es, name) == Some(id),
    ensures
        find_last(rn_entries(es, id, n), n) == Some(id),
    decreases es.len(),
{
    assert(rn_entries(es, id, n).drop_last() =~= rn_entries(es.drop_last(), id, n));
    assert(rn_entries(es, id, n).last() == rn_entry(es.last(), id, n));
    if es.last().0 != name {
        lemma_find_last_in(es.drop_last(), name);
        let j = choose|j: int| 0 <= j < es.drop_last().len() && (#[trigger] es.drop_last()[j]).1 == id && es.drop_last()[j].0 == name;
        assert(es[j] == es.drop_last()[j]);
        assert(es.last() == es[es.len() - 1]);
        assert(es.last().1 != id);
        lemma_find_last_renamed(es.drop_last(), name, id, n);
    }
}

proof fn lemma_find_first_renamed(es: Seq<(Seq<char>, usize)>, name: Seq<char>, id: usize, n: Seq<char>)
    requires
        no_name_in(es, n),
        id_once_in(es, id),
        find_first(es, name) == Some(id),
    ensures
        find_first(rn_entries(es, id, n), n) == Some(id),
    decreases es.len(),
{
    assert(rn_entries(es, id, n).drop_first() =~= rn_entries(es.drop_first(), id, n));
    assert(rn_entries(es, id, n)[0] == rn_entry(es[0], id, n));
    if es[0].0 != name {
        lemma_find_first_in(es.drop_first(), name);
        let j = choose|j: int| 0 <= j < es.drop_first().len() && (#[trigger] es.drop_first()[j]).1 == id && es.drop_first()[j].0 == name;
        assert(es[j + 1] == es.drop_first()[j]);
        assert(es[0].1 != id);
        lemma_find_first_renamed(es.drop_first(), name, id, n);
    }
}

pub open spec fn entry_at(st: Seq<FrameV>, f: int, side: bool, j: int) -> (Seq<char>, usize) {
    if side {
        st[f].fns[j]
    } else {
        st[f].seq[j]
    }
}

pub open spec fn valid_pos(st: Seq<FrameV>, f: int, side: bool, j: int) -> bool {
    0 <= f < st.len() && 0 <= j < (if side {
        st[f].fns.len()
    } else {
        st[f].seq.len()
    })
}

/// Every binding number sits in at most one entry of the whole stack.
pub open spec fn stack_unique(st: Seq<FrameV>) -> bool {
    forall|f1: int, s1: bool, j1: int, f2: int, s2: bool, j2: int|
        valid_pos(st, f1, s1, j1) && valid_pos(st, f2, s2, j2) && (#[trigger] entry_at(st, f1, s1, j1)).1
            == (#[trigger] entry_at(st, f2, s2, j2)).1 ==> f1 == f2 && s1 == s2 && j1 == j2
}

/// No entry of the stack is named `n`.
pub open spec fn stack_no_name(st: Seq<FrameV>, n: Seq<char>) -> bool {
    forall|f: int, s: bool, j: int| valid_pos(st, f, s, j) ==> (#[trigger] entry_at(st, f, s, j)).0 != n
}

proof fn lemma_stack_frame(st: Seq<FrameV>, f: int, id: usize, n: Seq<char>)
    requires
        0 <= f < st.len(),
    ensures
        stack_no_name(st, n) ==> no_name_in(st[f].fns, n) && no_name_in(st[f].seq, n),
        stack_unique(st) ==> id_once_in(st[f].fns, id) && id_once_in(st[f].seq, id),
{
    if stack_no_name(st, n) {
        assert forall|j: int| 0 <= j < st[f].fns.len() implies (#[trigger] st[f].fns[j]).0 != n by {
            assert(valid_pos(st, f, true, j) && entry_at(st, f, true, j) == st[f].fns[j]);
        }
        assert forall|j: int| 0 <= j < st[f].seq.len() implies (#[trigger] st[f].seq[j]).0 != n by {
            assert(valid_pos(st, f, false, j) && entry_at(st, f, false, j) == st[f].seq[j]);
        }
    }
    if stack_unique(st) {
        assert forall|a: int, b: int|
            0 <= a < st[f].fns.len() && 0 <= b < st[f].fns.len() && (#[trigger] st[f].fns[a]).1 == id
                && (#[trigger] st[f].fns[b]).1 == id implies a == b by {
            assert(valid_pos(st, f, true, a) && entry_at(st, f, true, a) == st[f].fns[a]);
            assert(valid_pos(st, f, true, b) && entry_at(st, f, true, b) == st[f].fns[b]);
        }
        assert forall|a: int, b: int|
            0 <= a < st[f].seq.len() && 0 <= b < st[f].seq.len() && (#[trigger] st[f].seq[a]).1 == id
                && (#[trigger] st[f].seq[b]).1 == id implies a == b by {
            assert(valid_pos(st, f, false, a) && entry_at(st, f, false, a) == st[f].seq[a]);
            assert(valid_pos(st, f, false, b) && entry_at(st, f, false, b) == st[f].seq[b]);
        }
    }
}

proof fn lemma_lookup_in(st: Seq<FrameV>, name: Seq<char>)
    ensures
        lookup(st, name) matches Some(b) ==> exists|f: int, s: bool, j: int|
            valid_pos(st, f, s, j) && (#[trigger] entry_at(st, f, s, j)).1 == b,
    decreases st.len(),
{
    if st.len() > 0 {
        let f = st.len() - 1;
        lemma_find_last_in(st.last().seq, name);
        lemma_find_first_in(st.last().fns, name);
        lemma_lookup_in(st.drop_last(), name);
        if let Some(b) = lookup(st, name) {
            if let Some(x) = find_last(st.last().seq, name) {
                let j = choose|j: int| 0 <= j < st.last().seq.len() && (#[trigger] st.last().seq[j]).1 == x && st.last().seq[j].0 == name;
                assert(valid_pos(st, f, false, j) && entry_at(st, f, false, j) == st.last().seq[j]);
            } else if let Some(x) = find_first(st.last().fns, name) {
                let j = choose|j: int| 0 <= j < st.last().fns.len() && (#[trigger] st.last().fns[j]).1 == x && st.last().fns[j].0 == name;
                assert(valid_pos(st, f, true, j) && entry_at(st, f, true, j) == st.last().fns[j]);
            } else {
                let (g, s, j) = choose|g: int, s: bool, j: int|
                    valid_pos(st.drop_last(), g, s, j) && (#[trigger] entry_at(st.drop_last(), g, s, j)).1 == b;
                assert(st.drop_last()[g] == st[g]);
                assert(valid_pos(st, g, s, j) && entry_at(st, g, s, j) == entry_at(st.drop_last(), g, s, j));
            }
        }
    }
}

/// Looking up a name other than `n` in the renamed stack finds what it found
/// before, unless that was `id`.
proof fn lemma_lookup_other(st: Seq<FrameV>, name: Seq<char>, id: usize, n: Seq<char>)
    requires
        name != n,
        lookup(st, name) != Some(id),
    ensures
        lookup(rn_stack(st, id, n), name) == lookup(st, name),
    decreases st.len(),
{
    if st.len() > 0 {
        let rs = rn_stack(st, id, n);
        assert(rs.last() == rn_frame(st.last(), id, n));
        assert(rs.drop_last() =~= rn_stack(st.drop_last(), id, n));
        lemma_find_last_other(st.last().seq, name, id, n);
        if find_last(st.last().seq, name) is None {
            lemma_find_first_other(st.last().fns, name, id, n);
            if find_first(st.last().fns, name) is None {
                lemma_lookup_other(st.drop_last(), name, id, n);
            }
        }
    }
}

/// Where `name` found `id`, the renamed stack finds `id` under `n`.
proof fn lemma_lookup_renamed(st: Seq<FrameV>, name: Seq<char>, id: usize, n: Seq<char>)
    requires
        stack_no_name(st, n),
        stack_unique(st),
        lookup(st, name) == Some(id),
    ensures
        lookup(rn_stack(st, id, n), n) == Some(id),
    decreases st.len(),
{
    let f = st.len() - 1;
    let top = st.last();
    let rs = rn_stack(st, id, n);
    assert(top == st[f]);
    assert(rs.last() == rn_frame(top, id, n));
    assert(rs.drop_last() =~= rn_stack(st.drop_last(), id, n));
    lemma_stack_frame(st, f, id, n);
    if find_last(top.seq, name) == Some(id) {
        lemma_find_last_renamed(top.seq, name, id, n);
    } else if find_last(top.seq, name) is None && find_first(top.fns, name) == Some(id) {
        lemma_find_first_in(top.fns, name);
        let j = choose|j: int| 0 <= j < top.fns.len() && (#[trigger] top.fns[j]).1 == id && top.fns[j].0 == name;
        assert forall|k: int| 0 <= k < top.seq.len() implies (#[trigger] top.seq[k]).1 != id by {
            assert(valid_pos(st, f, true, j) && entry_at(st, f, true, j) == top.fns[j]);
            assert(valid_pos(st, f, false, k) && entry_at(st, f, false, k) == top.seq[k]);
        }
        lemma_find_absent(top.seq, id, n);
        lemma_find_first_renamed(top.fns, name, id, n);
    } else {
        let lower = st.drop_last();
        lemma_lookup_in(lower, name);
        let (g, s, j) = choose|g: int, s: bool, j: int|
            valid_pos(lower, g, s, j) && (#[trigger] entry_at(lower, g, s, j)).1 == id;
        assert(lower[g] == st[g]);
        assert(valid_pos(st, g, s, j) && entry_at(st, g, s, j) == entry_at(lower, g, s, j));
        assert forall|k: int| 0 <= k < top.seq.len() implies (#[trigger] top.seq[k]).1 != id by {
            assert(valid_pos(st, f, false, k) && entry_at(st, f, false, k) == top.seq[k]);
        }
        assert forall|k: int| 0 <= k < top.fns.len() implies (#[trigger] top.fns[k]).1 != id by {
            assert(valid_pos(st, f, true, k) && entry_at(st, f, true, k) == top.fns[k]);
        }
        lemma_find_absent(top.seq, id, n);
        lemma_find_absent(top.fns, id, n);
        assert(stack_no_name(lower, n)) by {
            assert forall|g2: int, s2: bool, j2: int| valid_pos(lower, g2, s2, j2) implies (#[trigger] entry_at(lower, g2, s2, j2)).0 != n by {
                assert(lower[g2] == st[g2]);
                assert(valid_pos(st, g2, s2, j2) && entry_at(st, g2, s2, j2) == entry_at(lower, g2, s2, j2));
            }
        }
        assert(stack_unique(lower)) by {
            assert forall|f1: int, s1: bool, j1: int, f2: int, s2: bool, j2: int|
                valid_pos(lower, f1, s1, j1) && valid_pos(lower, f2, s2, j2) && (#[trigger] entry_at(lower, f1, s1, j1)).1
                    == (#[trigger] entry_at(lower, f2, s2, j2)).1 implies f1 == f2 && s1 == s2 && j1 == j2 by {
                assert(lower[f1] == st[f1] && lower[f2] == st[f2]);
                assert(valid_pos(st, f1, s1, j1) && entry_at(st, f1, s1, j1) == entry_at(lower, f1, s1, j1));
                assert(valid_pos(st, f2, s2, j2) && entry_at(st, f2, s2, j2) == entry_at(lower, f2, s2, j2));
            }
        }
        lemma_lookup_renamed(lower, name, id, n);
    }
}

// ---------------------------------------------------------------------------
// The walk only appends occurrences

pub open spec fn extends(r: RS, x: RS) -> bool {
    &&& r.occs.len() <= x.occs.len()
    &&& forall|k: int| 0 <= k < r.occs.len() ==> #[trigger] x.occs[k] == r.occs[k]
}

proof fn lemma_extends_declare(r: RS, name: Seq<char>, kind: BindingKind, span: Span, arity: usize)
    ensures
        extends(r, declare_seq(r, name, kind, span)),
        extends(r, declare_fn(r, name, span, arity)),
{
    let a = declare_seq(r, name, kind, span);
    let b = declare_fn(r, name, span, arity);
    assert forall|k: int| 0 <= k < r.occs.len() implies #[trigger] a.occs[k] == r.occs[k] by {}
    assert forall|k: int| 0 <= k < r.occs.len() implies #[trigger] b.occs[k] == r.occs[k] by {}
}

proof fn lemma_extends_params(r: RS, ps: Seq<IdentV>)
    ensures
        extends(r, r_params(r, ps)),
    decreases ps.len(),
{
    if ps.len() > 0 {
        let r1 = declare_seq(r, ps[0].name, BindingKind::Param, ps[0].span);
        lemma_extends_declare(r, ps[0].name, BindingKind::Param, ps[0].span, 0);
        lemma_extends_params(r1, ps.drop_first());
    }
}

proof fn lemma_extends_hoist(r: RS, ss: Seq<StmtV>)
    ensures
        extends(r, r_hoist(r, ss)),
    decreases ss.len(),
{
    if ss.len() > 0 {
        match ss[0].kind {
            StmtKindV::Fn { name, params, body: _ } => {
                lemma_extends_declare(r, name.name, BindingKind::Fn, name.span, params.len() as usize);
                lemma_extends_hoist(declare_fn(r, name.name, name.span, params.len() as usize), ss.drop_first());
            },
            _ => {
                lemma_extends_hoist(r, ss.drop_first());
            },
        }
    }
}

proof fn lemma_extends_block(r: RS, b: BlockV, params: Seq<IdentV>)
    ensures
        extends(r, r_block(r, b, params)),
    decreases b,
{
    let r0 = push_frame(r);
    lemma_extends_params(r0, params);
    let r1 = r_params(r0, params);
    lemma_extends_hoist(r1, b.stmts);
    let r2 = r_hoist(r1, b.stmts);
    lemma_extends_stmts(r2, b.stmts);
    let r3 = r_stmts(r2, b.stmts);
    match b.tail {
        Some(e) => {
            lemma_extends_expr(r3, *e);
        },
        None => {},
    }
}

proof fn lemma_extends_stmts(r: RS, ss: Seq<StmtV>)
    ensures
        extends(r, r_stmts(r, ss)),
    decreases ss,
{
    if ss.len() > 0 {
        lemma_extends_stmt(r, ss[0]);
        lemma_extends_stmts(r_stmt(r, ss[0]), ss.subrange(1, ss.len() as int));
    }
}

proof fn lemma_extends_stmt(r: RS, s: StmtV)
    ensures
        extends(r, r_stmt(r, s)),
    decreases s,
{
    match s.kind {
        StmtKindV::Let { name, value } => {
            lemma_extends_expr(r, value);
            lemma_extends_declare(r_expr(r, value), name.name, BindingKind::Let, name.span, 0);
        },
        StmtKindV::Fn { name: _, params, body } => {
            lemma_extends_block(r, body, params);
        },
        StmtKindV::Expr { expr } => {
            lemma_extends_expr(r, expr);
        },
    }
}

proof fn lemma_extends_exprs(r: RS, es: Seq<ExprV>)
    ensures
        extends(r, r_exprs(r, es)),
    decreases es,
{
    if es.len() > 0 {
        lemma_extends_expr(r, es[0]);
        lemma_extends_exprs(r_expr(r, es[0]), es.subrange(1, es.len() as int));
    }
}

proof fn lemma_extends_expr(r: RS, e: ExprV)
    ensures
        extends(r, r_expr(r, e)),
    decreases e,
{
    match e.kind {
        ExprKindV::Name { name } => {
            let x = r_name(r, name, e.span);
            assert forall|k: int| 0 <= k < r.occs.len() implies #[trigger] x.occs[k] == r.occs[k] by {}
        },
        ExprKindV::Unary { op: _, expr } => {
            lemma_extends_expr(r, *expr);
        },
        ExprKindV::Binary { op: _, lhs, rhs } => {
            lemma_extends_expr(r, *lhs);
            lemma_extends_expr(r_expr(r, *lhs), *rhs);
        },
        ExprKindV::Call { callee, args } => {
            lemma_extends_expr(r, *callee);
            lemma_extends_exprs(r_expr(r, *callee), args);
        },
        ExprKindV::If { cond, then_block, else_block } => {
            lemma_extends_expr(r, *cond);
            lemma_extends_block(r_expr(r, *cond), then_block, seq![]);
            match else_block {
                Some(b) => {
                    lemma_extends_block(r_block(r_expr(r, *cond), then_block, seq![]), b, seq![]);
                },
                None => {},
            }
        },
        ExprKindV::Block { block } => {
            lemma_extends_block(r, block, seq![]);
        },
        ExprKindV::Paren { inner } => {
            lemma_extends_expr(r, *inner);
        },
        _ => {},
    }
}

// ---------------------------------------------------------------------------
// One step of the walk on both trees

/// The walk state of the renamed tree is that of the original with binding
/// `id` renamed to `n` (diagnostics aside).
pub open spec fn walk_rel(r: RS, r2: RS, id: usize, n: Seq<char>) -> bool {
    &&& r2.bindings == rn_bindings(r.bindings, id, n)
    &&& r2.occs == rn_occs(r.occs, id, n)
    &&& r2.stack == rn_stack(r.stack, id, n)
}

pub open spec fn walk_good(r: RS, n: Seq<char>) -> bool {
    &&& ids_ok(r)
    &&& stack_unique(r.stack)
    &&& stack_no_name(r.stack, n)
}

/// The occurrences the walk from `r` to `x` records: those at spans in `s` are
/// exactly those of binding `id`, and none is named `n`.
pub open spec fn walk_hyp(r: RS, x: RS, s: Set<Span>, id: usize, n: Seq<char>) -> bool {
    forall|k: int|
        r.occs.len() <= k < x.occs.len() ==> (s.contains((#[trigger] x.occs[k]).span) <==> x.occs[k].binding
            == Some(id)) && x.occs[k].name != n
}

proof fn lemma_hyp_split(r: RS, m: RS, x: RS, s: Set<Span>, id: usize, n: Seq<char>)
    requires
        walk_hyp(r, x, s, id, n),
        extends(r, m),
        extends(m, x),
    ensures
        walk_hyp(r, m, s, id, n),
        walk_hyp(m, x, s, id, n),
{
    assert forall|k: int| r.occs.len() <= k < m.occs.len() implies (s.contains((#[trigger] m.occs[k]).span)
        <==> m.occs[k].binding == Some(id)) && m.occs[k].name != n by {
        assert(x.occs[k] == m.occs[k]);
    }
}

proof fn lemma_frames_rel(r: RS, r2: RS, id: usize, n: Seq<char>)
    requires
        walk_rel(r, r2, id, n),
        walk_good(r, n),
    ensures
        walk_rel(push_frame(r), push_frame(r2), id, n),
        walk_good(push_frame(r), n),
        r.stack.len() > 0 ==> walk_rel(pop_frame(r), pop_frame(r2), id, n),
        r.stack.len() > 0 ==> walk_good(pop_frame(r), n),
{
    let e = FrameV { fns: seq![], seq: seq![] };
    assert(rn_entries(e.fns, id, n) =~= e.fns);
    assert(rn_entries(e.seq, id, n) =~= e.seq);
    assert(rn_frame(e, id, n) == e);
    assert(rn_stack(r.stack.push(e), id, n) =~= rn_stack(r.stack, id, n).push(e));
    lemma_frame_ids(r);
    let p = push_frame(r);
    assert forall|f1: int, s1: bool, j1: int, f2: int, s2: bool, j2: int|
        valid_pos(p.stack, f1, s1, j1) && valid_pos(p.stack, f2, s2, j2) && (#[trigger] entry_at(p.stack, f1, s1, j1)).1
            == (#[trigger] entry_at(p.stack, f2, s2, j2)).1 implies f1 == f2 && s1 == s2 && j1 == j2 by {
        assert(p.stack[f1] == r.stack[f1] && p.stack[f2] == r.stack[f2]);
        assert(valid_pos(r.stack, f1, s1, j1) && entry_at(r.stack, f1, s1, j1) == entry_at(p.stack, f1, s1, j1));
        assert(valid_pos(r.stack, f2, s2, j2) && entry_at(r.stack, f2, s2, j2) == entry_at(p.stack, f2, s2, j2));
    }
    assert forall|f: int, sd: bool, j: int| valid_pos(p.stack, f, sd, j) implies (#[trigger] entry_at(p.stack, f, sd, j)).0 != n by {
        assert(p.stack[f] == r.stack[f]);
        assert(valid_pos(r.stack, f, sd, j) && entry_at(r.stack, f, sd, j) == entry_at(p.stack, f, sd, j));
    }
    if r.stack.len() > 0 {
        assert(rn_stack(r.stack.drop_last(), id, n) =~= rn_stack(r.stack, id, n).drop_last());
        let q = pop_frame(r);
        assert forall|f1: int, s1: bool, j1: int, f2: int, s2: bool, j2: int|
            valid_pos(q.stack, f1, s1, j1) && valid_pos(q.stack, f2, s2, j2) && (#[trigger] entry_at(q.stack, f1, s1, j1)).1
                == (#[trigger] entry_at(q.stack, f2, s2, j2)).1 implies f1 == f2 && s1 == s2 && j1 == j2 by {
            assert(q.stack[f1] == r.stack[f1] && q.stack[f2] == r.stack[f2]);
            assert(valid_pos(r.stack, f1, s1, j1) && entry_at(r.stack, f1, s1, j1) == entry_at(q.stack, f1, s1, j1));
            assert(valid_pos(r.stack, f2, s2, j2) && entry_at(r.stack, f2, s2, j2) == entry_at(q.stack, f2, s2, j2));
        }
        assert forall|f: int, sd: bool, j: int| valid_pos(q.stack, f, sd, j) implies (#[trigger] entry_at(q.stack, f, sd, j)).0 != n by {
            assert(q.stack[f] == r.stack[f]);
            assert(valid_pos(r.stack, f, sd, j) && entry_at(r.stack, f, sd, j) == entry_at(q.stack, f, sd, j));
        }
    }
}

/// Adding entry `e` to one side of the innermost frame.
pub open spec fn push_entry(st: Seq<FrameV>, side: bool, e: (Seq<char>, usize)) -> Seq<FrameV> {
    let f = st.last();
    st.update(
        st.len() - 1,
        if side {
            FrameV { fns: f.fns.push(e), seq: f.seq }
        } else {
            FrameV { fns: f.fns, seq: f.seq.push(e) }
        },
    )
}

proof fn lemma_push_entry(st: Seq<FrameV>, side: bool, e: (Seq<char>, usize), id: usize, n: Seq<char>)
    requires
        st.len() > 0,
    ensures
        rn_stack(push_entry(st, side, e), id, n) == push_entry(rn_stack(st, id, n), side, rn_entry(e, id, n)),
        stack_no_name(st, n) && e.0 != n ==> stack_no_name(push_entry(st, side, e), n),
        stack_unique(st) && (forall|f: int, sd: bool, j: int| valid_pos(st, f, sd, j) ==> (#[trigger] entry_at(st, f, sd, j)).1 != e.1)
            ==> stack_unique(push_entry(st, side, e)),
{
    let t = push_entry(st, side, e);
    let last = st.len() - 1;
    assert(rn_stack(st, id, n).last() == rn_frame(st.last(), id, n));
    assert(rn_entries(st.last().fns.push(e), id, n) =~= rn_entries(st.last().fns, id, n).push(rn_entry(e, id, n)));
    assert(rn_entries(st.last().seq.push(e), id, n) =~= rn_entries(st.last().seq, id, n).push(rn_entry(e, id, n)));
    assert(rn_stack(t, id, n) =~= push_entry(rn_stack(st, id, n), side, rn_entry(e, id, n)));
    // each position of `t` is an old position or the new entry
    assert forall|f: int, sd: bool, j: int| valid_pos(t, f, sd, j) implies (valid_pos(st, f, sd, j)
        && #[trigger] entry_at(t, f, sd, j) == entry_at(st, f, sd, j)) || (f == last && sd == side && j == (if side {
        st[last].fns.len()
    } else {
        st[last].seq.len()
    }) && entry_at(t, f, sd, j) == e) by {
        if f != last {
            assert(t[f] == st[f]);
        }
    }
    if stack_no_name(st, n) && e.0 != n {
        assert forall|f: int, sd: bool, j: int| valid_pos(t, f, sd, j) implies (#[trigger] entry_at(t, f, sd, j)).0 != n by {
            if valid_pos(st, f, sd, j) && entry_at(t, f, sd, j) == entry_at(st, f, sd, j) {
                assert(entry_at(st, f, sd, j).0 != n);
            }
        }
    }
    if stack_unique(st) && (forall|f: int, sd: bool, j: int| valid_pos(st, f, sd, j) ==> (#[trigger] entry_at(st, f, sd, j)).1 != e.1) {
        assert forall|f1: int, s1: bool, j1: int, f2: int, s2: bool, j2: int|
            valid_pos(t, f1, s1, j1) && valid_pos(t, f2, s2, j2) && (#[trigger] entry_at(t, f1, s1, j1)).1
                == (#[trigger] entry_at(t, f2, s2, j2)).1 implies f1 == f2 && s1 == s2 && j1 == j2 by {
            let old1 = valid_pos(st, f1, s1, j1) && entry_at(t, f1, s1, j1) == entry_at(st, f1, s1, j1);
            let old2 = valid_pos(st, f2, s2, j2) && entry_at(t, f2, s2, j2) == entry_at(st, f2, s2, j2);
            if old1 && old2 {
                assert(entry_at(st, f1, s1, j1).1 == entry_at(st, f2, s2, j2).1);
            } else if old1 {
                assert(entry_at(st, f1, s1, j1).1 != e.1);
            } else if old2 {
                assert(entry_at(st, f2, s2, j2).1 != e.1);
            }
        }
    }
}

/// Renamed declarations, for both kinds of declaration.
proof fn lemma_declare_rel(
    r: RS,
    r2: RS,
    name: Seq<char>,
    kind: BindingKind,
    span: Span,
    arity: usize,
    s: Set<Span>,
    id: usize,
    n: Seq<char>,
)
    requires
        walk_rel(r, r2, id, n),
        walk_good(r, n),
        r.stack.len() > 0,
        r.bindings.len() < usize::MAX,
        name != n,
        s.contains(span) <==> r.bindings.len() == id,
    ensures
        walk_rel(declare_seq(r, name, kind, span), declare_seq(r2, if s.contains(span) { n } else { name }, kind, span), id, n),
        walk_good(declare_seq(r, name, kind, span), n),
        walk_rel(declare_fn(r, name, span, arity), declare_fn(r2, if s.contains(span) { n } else { name }, span, arity), id, n),
        walk_good(declare_fn(r, name, span, arity), n),
{
    let name2 = if s.contains(span) { n } else { name };
    let len = r.bindings.len();
    let b = len as usize;
    assert(r2.bindings.len() == len);
    lemma_declare_ids(r, name, kind, span, arity);
    assert forall|f: int, sd: bool, j: int| valid_pos(r.stack, f, sd, j) implies (#[trigger] entry_at(r.stack, f, sd, j)).1 != b by {
        if sd {
            assert(r.stack[f].fns[j].1 < len);
        } else {
            assert(r.stack[f].seq[j].1 < len);
        }
    }
    assert(rn_entry((name, b), id, n) == (name2, b));
    lemma_push_entry(r.stack, false, (name, b), id, n);
    lemma_push_entry(r.stack, true, (name, b), id, n);
    let bs = BindingV { name, kind, decl_span: span, arity: None };
    let bf = BindingV { name, kind: BindingKind::Fn, decl_span: span, arity: Some(arity) };
    assert(rn_bindings(r.bindings.push(bs), id, n) =~= r2.bindings.push(BindingV { name: name2, ..bs }));
    assert(rn_bindings(r.bindings.push(bf), id, n) =~= r2.bindings.push(BindingV { name: name2, ..bf }));
    let o = OccV { span, name, binding: Some(b), is_decl: true };
    assert(rn_occs(r.occs.push(o), id, n) =~= r2.occs.push(OccV { name: name2, ..o }));
    let x = declare_seq(r, name, kind, span);
    let y = declare_seq(r2, name2, kind, span);
    assert(x.stack == push_entry(r.stack, false, (name, b)));
    assert(y.stack == push_entry(r2.stack, false, (name2, b)));
    let xf = declare_fn(r, name, span, arity);
    let yf = declare_fn(r2, name2, span, arity);
    assert(xf.stack == push_entry(r.stack, true, (name, b)));
    assert(yf.stack == push_entry(r2.stack, true, (name2, b)));
}

/// A renamed use resolves as before.
proof fn lemma_name_rel(r: RS, r2: RS, name: Seq<char>, span: Span, s: Set<Span>, id: usize, n: Seq<char>)
    requires
        walk_rel(r, r2, id, n),
        walk_good(r, n),
        name != n,
        s.contains(span) <==> lookup(r.stack, name) == Some(id),
    ensures
        walk_rel(r_name(r, name, span), r_name(r2, if s.contains(span) { n } else { name }, span), id, n),
        walk_good(r_name(r, name, span), n),
{
    let name2 = if s.contains(span) { n } else { name };
    let b = lookup(r.stack, name);
    if s.contains(span) {
        lemma_lookup_renamed(r.stack, name, id, n);
    } else {
        lemma_lookup_other(r.stack, name, id, n);
    }
    assert(lookup(r2.stack, name2) == b);
    let o = OccV { span, name, binding: b, is_decl: false };
    assert(rn_occs(r.occs.push(o), id, n) =~= r2.occs.push(OccV { name: name2, ..o }));
    lemma_expr_ids(r, ExprV { kind: ExprKindV::Name { name }, span });
}

// ---------------------------------------------------------------------------
// The whole walk on both trees

proof fn lemma_rn_exprs_index(es: Seq<ExprV>, s: Set<Span>, n: Seq<char>)
    ensures
        rn_exprs(es, s, n).len() == es.len(),
        forall|i: int| 0 <= i < es.len() ==> #[trigger] rn_exprs(es, s, n)[i] == rn_expr(es[i], s, n),
    decreases es.len(),
{
    if es.len() > 0 {
        lemma_rn_exprs_index(es.subrange(1, es.len() as int), s, n);
    }
}

proof fn lemma_rn_stmts_index(ss: Seq<StmtV>, s: Set<Span>, n: Seq<char>)
    ensures
        rn_stmts(ss, s, n).len() == ss.len(),
        forall|i: int| 0 <= i < ss.len() ==> #[trigger] rn_stmts(ss, s, n)[i] == rn_stmt(ss[i], s, n),
    decreases ss.len(),
{
    if ss.len() > 0 {
        lemma_rn_stmts_index(ss.subrange(1, ss.len() as int), s, n);
    }
}

proof fn lemma_rn_params(r: RS, r2: RS, ps: Seq<IdentV>, s: Set<Span>, id: usize, n: Seq<char>)
    requires
        walk_rel(r, r2, id, n),
        walk_good(r, n),
        r.stack.len() > 0,
        walk_hyp(r, r_params(r, ps), s, id, n),
        r_params(r, ps).bindings.len() <= usize::MAX,
    ensures
        walk_rel(r_params(r, ps), r_params(r2, rn_idents(ps, s, n)), id, n),
        walk_good(r_params(r, ps), n),
    decreases ps.len(),
{
    let qs = rn_idents(ps, s, n);
    if ps.len() > 0 {
        let p0 = ps[0];
        let r1 = declare_seq(r, p0.name, BindingKind::Param, p0.span);
        let x = r_params(r1, ps.drop_first());
        lemma_declare_ids(r, p0.name, BindingKind::Param, p0.span, 0);
        lemma_params_ids(r1, ps.drop_first());
        lemma_extends_declare(r, p0.name, BindingKind::Param, p0.span, 0);
        lemma_extends_params(r1, ps.drop_first());
        let k = r.occs.len() as int;
        assert(x.occs[k] == r1.occs[k]);
        assert(r1.occs[k] == OccV { span: p0.span, name: p0.name, binding: Some(r.bindings.len() as usize), is_decl: true });
        lemma_declare_rel(r, r2, p0.name, BindingKind::Param, p0.span, 0, s, id, n);
        assert(qs[0] == rn_ident(p0, s, n));
        assert(qs.drop_first() =~= rn_idents(ps.drop_first(), s, n));
        lemma_hyp_split(r, r1, x, s, id, n);
        let r1b = declare_seq(r2, qs[0].name, BindingKind::Param, qs[0].span);
        lemma_rn_params(r1, r1b, ps.drop_first(), s, id, n);
    }
}

proof fn lemma_rn_hoist(r: RS, r2: RS, ss: Seq<StmtV>, s: Set<Span>, id: usize, n: Seq<char>)
    requires
        walk_rel(r, r2, id, n),
        walk_good(r, n),
        r.stack.len() > 0,
        walk_hyp(r, r_hoist(r, ss), s, id, n),
        r_hoist(r, ss).bindings.len() <= usize::MAX,
    ensures
        walk_rel(r_hoist(r, ss), r_hoist(r2, rn_stmts(ss, s, n)), id, n),
        walk_good(r_hoist(r, ss), n),
    decreases ss.len(),
{
    let ts = rn_stmts(ss, s, n);
    lemma_rn_stmts_index(ss, s, n);
    if ss.len() > 0 {
        assert(ts.drop_first() == rn_stmts(ss.drop_first(), s, n)) by {
            assert(ss.drop_first() == ss.subrange(1, ss.len() as int));
        }
        assert(ts[0] == rn_stmt(ss[0], s, n));
        match ss[0].kind {
            StmtKindV::Fn { name, params, body: _ } => {
                let ar = params.len() as usize;
                assert(rn_idents(params, s, n).len() == params.len());
                let r1 = declare_fn(r, name.name, name.span, ar);
                let x = r_hoist(r1, ss.drop_first());
                lemma_declare_ids(r, name.name, BindingKind::Fn, name.span, ar);
                lemma_hoist_ids(r1, ss.drop_first());
                lemma_extends_declare(r, name.name, BindingKind::Fn, name.span, ar);
                lemma_extends_hoist(r1, ss.drop_first());
                let k = r.occs.len() as int;
                assert(x.occs[k] == r1.occs[k]);
                lemma_declare_rel(r, r2, name.name, BindingKind::Fn, name.span, ar, s, id, n);
                lemma_hyp_split(r, r1, x, s, id, n);
                let nm = rn_ident(name, s, n);
                let r1b = declare_fn(r2, nm.name, nm.span, ar);
                lemma_rn_hoist(r1, r1b, ss.drop_first(), s, id, n);
            },
            _ => {
                lemma_rn_hoist(r, r2, ss.drop_first(), s, id, n);
            },
        }
    }
}

proof fn lemma_rn_block(r: RS, r2: RS, b: BlockV, params: Seq<IdentV>, s: Set<Span>, id: usize, n: Seq<char>)
    requires
        walk_rel(r, r2, id, n),
        walk_good(r, n),
        walk_hyp(r, r_block(r, b, params), s, id, n),
        r_block(r, b, params).bindings.len() <= usize::MAX,
    ensures
        walk_rel(r_block(r, b, params), r_block(r2, rn_block(b, s, n), rn_idents(params, s, n)), id, n),
        walk_good(r_block(r, b, params), n),
    decreases b,
{
    let bb = rn_block(b, s, n);
    let qs = rn_idents(params, s, n);
    lemma_frames_rel(r, r2, id, n);
    let r0 = push_frame(r);
    let q0 = push_frame(r2);
    lemma_frame_ids(r);
    lemma_params_ids(r0, params);
    lemma_extends_params(r0, params);
    let r1 = r_params(r0, params);
    lemma_hoist_ids(r1, b.stmts);
    lemma_extends_hoist(r1, b.stmts);
    let rh = r_hoist(r1, b.stmts);
    lemma_stmts_ids(rh, b.stmts);
    lemma_extends_stmts(rh, b.stmts);
    let rs = r_stmts(rh, b.stmts);
    let r3 = match b.tail {
        Some(e) => r_expr(rs, *e),
        None => rs,
    };
    match b.tail {
        Some(e) => {
            lemma_expr_ids(rs, *e);
            lemma_extends_expr(rs, *e);
        },
        None => {},
    }
    assert(extends(rs, r3));
    lemma_frame_ids(r3);
    assert(pop_frame(r3).occs == r3.occs);
    assert(walk_hyp(r0, r3, s, id, n));
    lemma_hyp_split(r0, r1, r3, s, id, n);
    lemma_hyp_split(r1, rh, r3, s, id, n);
    lemma_hyp_split(rh, rs, r3, s, id, n);
    lemma_rn_params(r0, q0, params, s, id, n);
    let q1 = r_params(q0, qs);
    lemma_rn_hoist(r1, q1, b.stmts, s, id, n);
    let qh = r_hoist(q1, bb.stmts);
    lemma_rn_stmts(rh, qh, b.stmts, s, id, n);
    let qst = r_stmts(qh, bb.stmts);
    match b.tail {
        Some(e) => {
            lemma_rn_expr(rs, qst, *e, s, id, n);
        },
        None => {},
    }
    let q3 = match bb.tail {
        Some(e) => r_expr(qst, *e),
        None => qst,
    };
    assert(walk_rel(r3, q3, id, n));
    lemma_frames_rel(r3, q3, id, n);
}

proof fn lemma_rn_stmts(r: RS, r2: RS, ss: Seq<StmtV>, s: Set<Span>, id: usize, n: Seq<char>)
    requires
        walk_rel(r, r2, id, n),
        walk_good(r, n),
        r.stack.len() > 0,
        walk_hyp(r, r_stmts(r, ss), s, id, n),
        r_stmts(r, ss).bindings.len() <= usize::MAX,
    ensures
        walk_rel(r_stmts(r, ss), r_stmts(r2, rn_stmts(ss, s, n)), id, n),
        walk_good(r_stmts(r, ss), n),
    decreases ss,
{
    if ss.len() > 0 {
        let rest = ss.subrange(1, ss.len() as int);
        let r1 = r_stmt(r, ss[0]);
        lemma_stmt_ids(r, ss[0]);
        lemma_stmts_ids(r1, rest);
        lemma_extends_stmt(r, ss[0]);
        lemma_extends_stmts(r1, rest);
        lemma_hyp_split(r, r1, r_stmts(r1, rest), s, id, n);
        lemma_rn_stmt(r, r2, ss[0], s, id, n);
        let q1 = r_stmt(r2, rn_stmt(ss[0], s, n));
        lemma_rn_stmts(r1, q1, rest, s, id, n);
        let ts = rn_stmts(ss, s, n);
        assert(ts[0] == rn_stmt(ss[0], s, n));
        assert(ts.subrange(1, ts.len() as int) =~= rn_stmts(rest, s, n));
    }
}

proof fn lemma_rn_stmt(r: RS, r2: RS, st: StmtV, s: Set<Span>, id: usize, n: Seq<char>)
    requires
        walk_rel(r, r2, id, n),
        walk_good(r, n),
        r.stack.len() > 0,
        walk_hyp(r, r_stmt(r, st), s, id, n),
        r_stmt(r, st).bindings.len() <= usize::MAX,
    ensures
        walk_rel(r_stmt(r, st), r_stmt(r2, rn_stmt(st, s, n)), id, n),
        walk_good(r_stmt(r, st), n),
    decreases st,
{
    match st.kind {
        StmtKindV::Let { name, value } => {
            let r1 = r_expr(r, value);
            lemma_expr_ids(r, value);
            lemma_extends_expr(r, value);
            let x = declare_seq(r1, name.name, BindingKind::Let, name.span);
            lemma_declare_ids(r1, name.name, BindingKind::Let, name.span, 0);
            lemma_extends_declare(r1, name.name, BindingKind::Let, name.span, 0);
            lemma_hyp_split(r, r1, x, s, id, n);
            lemma_rn_expr(r, r2, value, s, id, n);
            let q1 = r_expr(r2, rn_expr(value, s, n));
            let k = r1.occs.len() as int;
            assert(x.occs[k] == OccV { span: name.span, name: name.name, binding: Some(r1.bindings.len() as usize), is_decl: true });
            lemma_declare_rel(r1, q1, name.name, BindingKind::Let, name.span, 0, s, id, n);
        },
        StmtKindV::Fn { name: _, params, body } => {
            lemma_rn_block(r, r2, body, params, s, id, n);
        },
        StmtKindV::Expr { expr } => {
            lemma_rn_expr(r, r2, expr, s, id, n);
        },
    }
}

proof fn lemma_rn_exprs(r: RS, r2: RS, es: Seq<ExprV>, s: Set<Span>, id: usize, n: Seq<char>)
    requires
        walk_rel(r, r2, id, n),
        walk_good(r, n),
        walk_hyp(r, r_exprs(r, es), s, id, n),
        r_exprs(r, es).bindings.len() <= usize::MAX,
    ensures
        walk_rel(r_exprs(r, es), r_exprs(r2, rn_exprs(es, s, n)), id, n),
        walk_good(r_exprs(r, es), n),
    decreases es,
{
    if es.len() > 0 {
        let rest = es.subrange(1, es.len() as int);
        let r1 = r_expr(r, es[0]);
        lemma_expr_ids(r, es[0]);
        lemma_exprs_ids(r1, rest);
        lemma_extends_expr(r, es[0]);
        lemma_extends_exprs(r1, rest);
        lemma_hyp_split(r, r1, r_exprs(r1, rest), s, id, n);
        lemma_rn_expr(r, r2, es[0], s, id, n);
        let q1 = r_expr(r2, rn_expr(es[0], s, n));
        lemma_rn_exprs(r1, q1, rest, s, id, n);
        let ts = rn_exprs(es, s, n);
        assert(ts[0] == rn_expr(es[0], s, n));
        assert(ts.subrange(1, ts.len() as int) =~= rn_exprs(rest, s, n));
    }
}

proof fn lemma_rn_expr(r: RS, r2: RS, e: ExprV, s: Set<Span>, id: usize, n: Seq<char>)
    requires
        walk_rel(r, r2, id, n),
        walk_good(r, n),
        walk_hyp(r, r_expr(r, e), s, id, n),
        r_expr(r, e).bindings.len() <= usize::MAX,
    ensures
        walk_rel(r_expr(r, e), r_expr(r2, rn_expr(e, s, n)), id, n),
        walk_good(r_expr(r, e), n),
    decreases e,
{
    match e.kind {
        ExprKindV::Name { name } => {
            let x = r_name(r, name, e.span);
            let k = r.occs.len() as int;
            assert(x.occs[k] == OccV { span: e.span, name, binding: lookup(r.stack, name), is_decl: false });
            lemma_name_rel(r, r2, name, e.span, s, id, n);
        },
        ExprKindV::Unary { op: _, expr } => {
            lemma_rn_expr(r, r2, *expr, s, id, n);
        },
        ExprKindV::Binary { op: _, lhs, rhs } => {
            let r1 = r_expr(r, *lhs);
            lemma_expr_ids(r, *lhs);
            lemma_expr_ids(r1, *rhs);
            lemma_extends_expr(r, *lhs);
            lemma_extends_expr(r1, *rhs);
            lemma_hyp_split(r, r1, r_expr(r1, *rhs), s, id, n);
            lemma_rn_expr(r, r2, *lhs, s, id, n);
            lemma_rn_expr(r1, r_expr(r2, rn_expr(*lhs, s, n)), *rhs, s, id, n);
        },
        ExprKindV::Call { callee, args } => {
            let r1 = r_expr(r, *callee);
            lemma_expr_ids(r, *callee);
            lemma_exprs_ids(r1, args);
            lemma_extends_expr(r, *callee);
            lemma_extends_exprs(r1, args);
            lemma_hyp_split(r, r1, r_exprs(r1, args), s, id, n);
            lemma_rn_expr(r, r2, *callee, s, id, n);
            lemma_rn_exprs(r1, r_expr(r2, rn_expr(*callee, s, n)), args, s, id, n);
        },
        ExprKindV::If { cond, then_block, else_block } => {
            let r1 = r_expr(r, *cond);
            lemma_expr_ids(r, *cond);
            lemma_extends_expr(r, *cond);
            let rt = r_block(r1, then_block, seq![]);
            lemma_block_ids(r1, then_block, seq![]);
            lemma_extends_block(r1, then_block, seq![]);
            let x = r_expr(r, e);
            match else_block {
                Some(b) => {
                    lemma_block_ids(rt, b, seq![]);
                    lemma_extends_block(rt, b, seq![]);
                },
                None => {},
            }
            assert(extends(rt, x));
            lemma_hyp_split(r, r1, x, s, id, n);
            lemma_hyp_split(r1, rt, x, s, id, n);
            assert(rn_idents(seq![], s, n) =~= seq![]);
            lemma_rn_expr(r, r2, *cond, s, id, n);
            let q1 = r_expr(r2, rn_expr(*cond, s, n));
            lemma_rn_block(r1, q1, then_block, seq![], s, id, n);
            let qt = r_block(q1, rn_block(then_block, s, n), seq![]);
            match else_block {
                Some(b) => {
                    lemma_rn_block(rt, qt, b, seq![], s, id, n);
                },
                None => {},
            }
        },
        ExprKindV::Block { block } => {
            assert(rn_idents(seq![], s, n) =~= seq![]);
            lemma_rn_block(r, r2, block, seq![], s, id, n);
        },
        ExprKindV::Paren { inner } => {
            lemma_rn_expr(r, r2, *inner, s, id, n);
        },
        _ => {},
    }
}

/// Renaming a binding to a name no occurrence uses leaves resolution as it
/// was. Rename, in the syntax tree, every identifier at a span of one of
/// binding `id`'s occurrences to `n`. If no occurrence of the program is named
/// `n`, and no other occurrence shares a span with one of `id`'s (true of
/// parsed programs, whose identifiers have distinct non-empty spans), then the
/// resolution walk of the renamed program records the same occurrences in the
/// same order, each resolved to the same binding number, and the same
/// bindings; only the occurrences and the binding of `id` are now named `n`.
pub proof fn law_fresh_rename_resolves_alike(p: Seq<StmtV>, id: usize, n: Seq<char>)
    requires
        r_program(p).bindings.len() <= usize::MAX,
        forall|k: int| 0 <= k < r_program(p).occs.len() ==> (#[trigger] r_program(p).occs[k]).name != n,
        forall|k: int|
            0 <= k < r_program(p).occs.len() && id_spans(r_program(p).occs, id).contains(
                (#[trigger] r_program(p).occs[k]).span,
            ) ==> r_program(p).occs[k].binding == Some(id),
    ensures
        r_program(rn_stmts(p, id_spans(r_program(p).occs, id), n)).occs == rn_occs(r_program(p).occs, id, n),
        r_program(rn_stmts(p, id_spans(r_program(p).occs, id), n)).bindings == rn_bindings(
            r_program(p).bindings,
            id,
            n,
        ),
{
    let fin = r_program(p);
    let s = id_spans(fin.occs, id);
    let e = empty_rs();
    assert(rn_bindings(e.bindings, id, n) =~= e.bindings);
    assert(rn_occs(e.occs, id, n) =~= e.occs);
    assert(rn_stack(e.stack, id, n) =~= e.stack);
    assert(walk_rel(e, e, id, n));
    assert(walk_good(e, n));
    lemma_frames_rel(e, e, id, n);
    let r0 = push_frame(e);
    lemma_frame_ids(e);
    lemma_hoist_ids(r0, p);
    lemma_extends_hoist(r0, p);
    let r1 = r_hoist(r0, p);
    lemma_stmts_ids(r1, p);
    lemma_extends_stmts(r1, p);
    let r2 = r_stmts(r1, p);
    assert(fin.occs == r2.occs);
    assert(walk_hyp(r0, r2, s, id, n)) by {
        assert forall|k: int| r0.occs.len() <= k < r2.occs.len() implies (s.contains((#[trigger] r2.occs[k]).span)
            <==> r2.occs[k].binding == Some(id)) && r2.occs[k].name != n by {
            assert(fin.occs[k] == r2.occs[k]);
        }
    }
    lemma_hyp_split(r0, r1, r2, s, id, n);
    lemma_rn_hoist(r0, r0, p, s, id, n);
    let q1 = r_hoist(r0, rn_stmts(p, s, n));
    lemma_rn_stmts(r1, q1, p, s, id, n);
    let q2 = r_stmts(q1, rn_stmts(p, s, n));
    lemma_frames_rel(r2, q2, id, n);
}

} // verus!
