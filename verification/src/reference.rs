//! An independent reference resolver used to cross check the production
//! resolver.
//!
//! This is a deliberately straightforward full program scope walk that maps
//! every identifier occurrence to the declaration it binds to. It shares the
//! syntax tree but none of the production resolver's machinery. The map is kept
//! as a list of (occurrence span, declaration span) entries sorted by span, one
//! entry per span, a later write for the same span replacing the earlier one.

use vstd::prelude::*;
use crate::ast::{
    Ident, Stmt, StmtKind, Block, Expr, ExprKind, Program, IdentV, StmtV, StmtKindV, BlockV, ExprV,
    ExprKindV, ident_v, idents_v, expr_v, exprs_v, block_v, stmt_v, stmts_v, lemma_stmts_v,
    lemma_exprs_v,
};
use crate::span::Span;
use crate::resolver::BindingKind;
use crate::resolve_spec::{
    BindingV, OccV, FrameV, RS, ids_ok, find_last, find_first, lookup, push_frame, pop_frame,
    check_redef, add_binding, update_top, declare_seq, declare_fn, r_name, r_params, r_hoist,
    r_block, r_stmts, r_stmt, r_exprs, r_expr, r_program, empty_rs, lemma_frame_ids,
    lemma_declare_ids, lemma_lookup_bound, lemma_params_ids, lemma_hoist_ids, lemma_block_ids,
    lemma_stmts_ids, lemma_stmt_ids, lemma_exprs_ids, lemma_expr_ids,
};

verus! {

/// The declaration each identifier occurrence resolves to, sorted by span. A
/// declaration maps to its own span; an unresolved use maps to `None`.
pub type RefMap = Vec<(Span, Option<Span>)>;

pub open spec fn span_lt(a: Span, b: Span) -> bool {
    a.start < b.start || (a.start == b.start && a.end < b.end)
}

/// Write `v` at key `k` of a list sorted by key: replace the entry for `k`, or
/// insert a new one in its place.
pub open spec fn al_insert(s: Seq<(Span, Option<Span>)>, k: Span, v: Option<Span>) -> Seq<
    (Span, Option<Span>),
>
    decreases s.len(),
{
    if s.len() == 0 {
        seq![(k, v)]
    } else if s[0].0 == k {
        seq![(k, v)] + s.drop_first()
    } else if span_lt(k, s[0].0) {
        seq![(k, v)] + s
    } else {
        seq![s[0]] + al_insert(s.drop_first(), k, v)
    }
}

/// The keys strictly increase.
pub open spec fn al_sorted(s: Seq<(Span, Option<Span>)>) -> bool {
    forall|i: int, j: int| 0 <= i < j < s.len() ==> span_lt(#[trigger] s[i].0, #[trigger] s[j].0)
}

/// Writing into a sorted list keeps it sorted, and the written key is then
/// present with the written value.
pub proof fn lemma_al_insert_sorted(s: Seq<(Span, Option<Span>)>, k: Span, v: Option<Span>)
    requires
        al_sorted(s),
    ensures
        al_sorted(al_insert(s, k, v)),
        al_insert(s, k, v).contains((k, v)),
        forall|x: (Span, Option<Span>)| #[trigger] al_insert(s, k, v).contains(x) ==> x == (k, v) || s.contains(x),
        forall|x: (Span, Option<Span>)| s.contains(x) && x.0 != k ==> #[trigger] al_insert(s, k, v).contains(x),
        !s_has_key(s, k) ==> al_insert(s, k, v).len() == s.len() + 1,
    decreases s.len(),
{
    let r = al_insert(s, k, v);
    lemma_al_insert_keeps(s, k, v);
    if s.len() == 0 {
        assert(r[0] == (k, v));
    } else if s[0].0 == k {
        assert(r[0] == (k, v));
        assert forall|x: (Span, Option<Span>)| #[trigger] r.contains(x) implies x == (k, v) || s.contains(x) by {
            let i = choose|i: int| 0 <= i < r.len() && r[i] == x;
            if i > 0 {
                assert(x == s[i]);
            }
        }
    } else if span_lt(k, s[0].0) {
        assert(r[0] == (k, v));
        assert forall|i: int, j: int| 0 <= i < j < r.len() implies span_lt(#[trigger] r[i].0, #[trigger] r[j].0) by {
            if i > 0 {
                assert(r[i] == s[i - 1]);
            }
            assert(r[j] == s[j - 1]);
        }
        assert forall|x: (Span, Option<Span>)| #[trigger] r.contains(x) implies x == (k, v) || s.contains(x) by {
            let i = choose|i: int| 0 <= i < r.len() && r[i] == x;
            if i > 0 {
                assert(x == s[i - 1]);
            }
        }
    } else {
        let t = s.drop_first();
        lemma_al_insert_sorted(t, k, v);
        let rt = al_insert(t, k, v);
        assert(r == seq![s[0]] + rt);
        assert(r[0] == s[0]);
        assert forall|x: (Span, Option<Span>)| #[trigger] r.contains(x) implies x == (k, v) || s.contains(x) by {
            let i = choose|i: int| 0 <= i < r.len() && r[i] == x;
            if i > 0 {
                assert(rt[i - 1] == x);
                assert(rt.contains(x));
                if x != (k, v) {
                    let j = choose|j: int| 0 <= j < t.len() && t[j] == x;
                    assert(s[j + 1] == x);
                }
            }
        }
        assert(rt.contains((k, v)));
        let w = choose|w: int| 0 <= w < rt.len() && rt[w] == (k, v);
        assert(r[w + 1] == (k, v));
        assert forall|i: int, j: int| 0 <= i < j < r.len() implies span_lt(#[trigger] r[i].0, #[trigger] r[j].0) by {
            if i > 0 {
                assert(r[i] == rt[i - 1]);
                assert(r[j] == rt[j - 1]);
            } else {
                assert(r[j] == rt[j - 1]);
                assert(rt.contains(rt[j - 1]));
                if rt[j - 1] != (k, v) {
                    let m = choose|m: int| 0 <= m < t.len() && t[m] == rt[j - 1];
                    assert(s[m + 1] == rt[j - 1]);
                } else {
                    assert(k != s[0].0);
                }
            }
        }
    }
}

pub open spec fn s_has_key(s: Seq<(Span, Option<Span>)>, k: Span) -> bool {
    exists|i: int| 0 <= i < s.len() && (#[trigger] s[i]).0 == k
}

proof fn lemma_al_insert_keeps(s: Seq<(Span, Option<Span>)>, k: Span, v: Option<Span>)
    ensures
        forall|x: (Span, Option<Span>)| s.contains(x) && x.0 != k ==> #[trigger] al_insert(s, k, v).contains(x),
        !s_has_key(s, k) ==> al_insert(s, k, v).len() == s.len() + 1,
    decreases s.len(),
{
    let r = al_insert(s, k, v);
    if s.len() == 0 {
    } else if s[0].0 == k {
        assert forall|x: (Span, Option<Span>)| s.contains(x) && x.0 != k implies #[trigger] r.contains(x) by {
            let i = choose|i: int| 0 <= i < s.len() && s[i] == x;
            assert(i > 0);
            assert(r[i] == x);
        }
        assert(s_has_key(s, k)) by {
            assert(s[0].0 == k);
        }
    } else if span_lt(k, s[0].0) {
        assert forall|x: (Span, Option<Span>)| s.contains(x) && x.0 != k implies #[trigger] r.contains(x) by {
            let i = choose|i: int| 0 <= i < s.len() && s[i] == x;
            assert(r[i + 1] == x);
        }
    } else {
        let t = s.drop_first();
        lemma_al_insert_keeps(t, k, v);
        let rt = al_insert(t, k, v);
        assert(r == seq![s[0]] + rt);
        assert forall|x: (Span, Option<Span>)| s.contains(x) && x.0 != k implies #[trigger] r.contains(x) by {
            let i = choose|i: int| 0 <= i < s.len() && s[i] == x;
            if i == 0 {
                assert(r[0] == x);
            } else {
                assert(t[i - 1] == x);
                assert(t.contains(x));
                assert(rt.contains(x));
                let j = choose|j: int| 0 <= j < rt.len() && rt[j] == x;
                assert(r[j + 1] == x);
            }
        }
        if !s_has_key(s, k) {
            assert(!s_has_key(t, k)) by {
                if s_has_key(t, k) {
                    let i = choose|i: int| 0 <= i < t.len() && (#[trigger] t[i]).0 == k;
                    assert(s[i + 1].0 == k);
                }
            }
        }
    }
}

pub struct DeclV {
    pub name: Seq<char>,
    pub span: Span,
}

/// A scope: hoisted functions and the sequential bindings visible so far.
pub struct ScopeV {
    pub fns: Seq<DeclV>,
    pub seq: Seq<DeclV>,
}

pub struct RefState {
    pub map: Seq<(Span, Option<Span>)>,
    pub env: Seq<ScopeV>,
}

pub open spec fn seq_find_last(s: Seq<DeclV>, name: Seq<char>) -> Option<Span>
    decreases s.len(),
{
    if s.len() == 0 {
        None
    } else if s.last().name == name {
        Some(s.last().span)
    } else {
        seq_find_last(s.drop_last(), name)
    }
}

pub open spec fn seq_find_first(s: Seq<DeclV>, name: Seq<char>) -> Option<Span>
    decreases s.len(),
{
    if s.len() == 0 {
        None
    } else if s[0].name == name {
        Some(s[0].span)
    } else {
        seq_find_first(s.drop_first(), name)
    }
}

/// Innermost scope first; within a scope the latest sequential binding, then
/// the first hoisted function of that name.
pub open spec fn rf_lookup(env: Seq<ScopeV>, name: Seq<char>) -> Option<Span>
    decreases env.len(),
{
    if env.len() == 0 {
        None
    } else {
        match seq_find_last(env.last().seq, name) {
            Some(s) => Some(s),
            None => match seq_find_first(env.last().fns, name) {
                Some(s) => Some(s),
                None => rf_lookup(env.drop_last(), name),
            },
        }
    }
}

pub open spec fn rf_write(st: RefState, k: Span, v: Option<Span>) -> RefState {
    RefState { map: al_insert(st.map, k, v), env: st.env }
}

pub open spec fn rf_push_seq(st: RefState, name: Seq<char>, span: Span) -> RefState {
    let top = st.env.last();
    RefState {
        map: st.map,
        env: st.env.update(
            st.env.len() - 1,
            ScopeV { fns: top.fns, seq: top.seq.push(DeclV { name, span }) },
        ),
    }
}

pub open spec fn rf_push_fn(st: RefState, name: Seq<char>, span: Span) -> RefState {
    let top = st.env.last();
    RefState {
        map: st.map,
        env: st.env.update(
            st.env.len() - 1,
            ScopeV { fns: top.fns.push(DeclV { name, span }), seq: top.seq },
        ),
    }
}

pub open spec fn rf_params(st: RefState, ps: Seq<IdentV>) -> RefState
    decreases ps.len(),
{
    if ps.len() == 0 {
        st
    } else {
        rf_params(
            rf_push_seq(rf_write(st, ps[0].span, Some(ps[0].span)), ps[0].name, ps[0].span),
            ps.drop_first(),
        )
    }
}

pub open spec fn rf_hoist(st: RefState, ss: Seq<StmtV>) -> RefState
    decreases ss.len(),
{
    if ss.len() == 0 {
        st
    } else {
        let st1 = match ss[0].kind {
            StmtKindV::Fn { name, params: _, body: _ } => rf_push_fn(
                rf_write(st, name.span, Some(name.span)),
                name.name,
                name.span,
            ),
            _ => st,
        };
        rf_hoist(st1, ss.drop_first())
    }
}

/// Open a scope seeded with `params` and the hoisted functions of `stmts`.
pub open spec fn rf_open(st: RefState, ss: Seq<StmtV>, params: Seq<IdentV>) -> RefState {
    let st0 = RefState { map: st.map, env: st.env.push(ScopeV { fns: seq![], seq: seq![] }) };
    rf_hoist(rf_params(st0, params), ss)
}

pub open spec fn rf_close(st: RefState) -> RefState {
    RefState { map: st.map, env: st.env.drop_last() }
}

/// A block scope: its statements, then its tail expression.
pub open spec fn rf_block(st: RefState, b: BlockV, params: Seq<IdentV>) -> RefState
    decreases b,
{
    let st1 = rf_stmts(rf_open(st, b.stmts, params), b.stmts);
    let st2 = match b.tail {
        Some(t) => rf_expr(st1, *t),
        None => st1,
    };
    rf_close(st2)
}

pub open spec fn rf_stmts(st: RefState, ss: Seq<StmtV>) -> RefState
    decreases ss,
{
    if ss.len() == 0 {
        st
    } else {
        rf_stmts(rf_stmt(st, ss[0]), ss.subrange(1, ss.len() as int))
    }
}

pub open spec fn rf_stmt(st: RefState, s: StmtV) -> RefState
    decreases s,
{
    match s.kind {
        StmtKindV::Let { name, value } => rf_push_seq(
            rf_write(rf_expr(st, value), name.span, Some(name.span)),
            name.name,
            name.span,
        ),
        StmtKindV::Fn { name: _, params, body } => rf_block(st, body, params),
        StmtKindV::Expr { expr } => rf_expr(st, expr),
    }
}

pub open spec fn rf_exprs(st: RefState, es: Seq<ExprV>) -> RefState
    decreases es,
{
    if es.len() == 0 {
        st
    } else {
        rf_exprs(rf_expr(st, es[0]), es.subrange(1, es.len() as int))
    }
}

pub open spec fn rf_expr(st: RefState, e: ExprV) -> RefState
    decreases e,
{
    match e.kind {
        ExprKindV::Int { .. } | ExprKindV::Bool { .. } | ExprKindV::Error => st,
        ExprKindV::Name { name } => rf_write(st, e.span, rf_lookup(st.env, name)),
        ExprKindV::Unary { op: _, expr } => rf_expr(st, *expr),
        ExprKindV::Binary { op: _, lhs, rhs } => rf_expr(rf_expr(st, *lhs), *rhs),
        ExprKindV::Call { callee, args } => rf_exprs(rf_expr(st, *callee), args),
        ExprKindV::If { cond, then_block, else_block } => {
            let st1 = rf_block(rf_expr(st, *cond), then_block, seq![]);
            match else_block {
                Some(b) => rf_block(st1, b, seq![]),
                None => st1,
            }
        },
        ExprKindV::Block { block } => rf_block(st, block, seq![]),
        ExprKindV::Paren { inner } => rf_expr(st, *inner),
    }
}

/// The reference map of a whole program.
pub open spec fn rf_program(p: Seq<StmtV>) -> Seq<(Span, Option<Span>)> {
    let st0 = RefState { map: seq![], env: seq![] };
    rf_close(rf_stmts(rf_open(st0, p, seq![]), p)).map
}

} // verus!

verus! {

fn map_insert(map: &mut Vec<(Span, Option<Span>)>, k: Span, v: Option<Span>)
    ensures
        final(map)@ == al_insert(old(map)@, k, v),
{
    let ghost s0 = map@;
    let mut i: usize = 0;
    assert(s0.subrange(0, 0) + al_insert(s0.subrange(0, s0.len() as int), k, v) =~= al_insert(s0, k, v)) by {
        assert(s0.subrange(0, s0.len() as int) =~= s0);
    }
    while i < map.len() && (map[i].0.start < k.start || (map[i].0.start == k.start
        && map[i].0.end < k.end))
        invariant
            map@ == s0,
            i <= s0.len(),
            al_insert(s0, k, v) == s0.subrange(0, i as int) + al_insert(s0.subrange(i as int, s0.len() as int), k, v),
        decreases s0.len() - i,
    {
        let ghost rest = s0.subrange(i as int, s0.len() as int);
        assert(rest[0] == s0[i as int]);
        assert(rest.drop_first() =~= s0.subrange(i + 1, s0.len() as int));
        assert(s0.subrange(0, i + 1) =~= s0.subrange(0, i as int).push(s0[i as int]));
        assert(s0.subrange(0, i as int) + al_insert(rest, k, v) =~= s0.subrange(0, i + 1) + al_insert(
            s0.subrange(i + 1, s0.len() as int),
            k,
            v,
        ));
        i = i + 1;
    }
    let ghost rest = s0.subrange(i as int, s0.len() as int);
    if i < map.len() && map[i].0.start == k.start && map[i].0.end == k.end {
        assert(rest[0].0 == k);
        map.set(i, (k, v));
        assert(map@ =~= s0.subrange(0, i as int) + (seq![(k, v)] + rest.drop_first()));
    } else {
        map.insert(i, (k, v));
        assert(map@ =~= s0.subrange(0, i as int) + (seq![(k, v)] + rest));
    }
}

struct Decl {
    name: String,
    span: Span,
}

struct Scope {
    fns: Vec<Decl>,
    seq: Vec<Decl>,
}

spec fn decl_v(d: Decl) -> DeclV {
    DeclV { name: d.name@, span: d.span }
}

spec fn decls_v(s: Seq<Decl>) -> Seq<DeclV> {
    s.map_values(|d: Decl| decl_v(d))
}

spec fn scope_v(s: Scope) -> ScopeV {
    ScopeV { fns: decls_v(s.fns@), seq: decls_v(s.seq@) }
}

spec fn env_v(e: Seq<Scope>) -> Seq<ScopeV> {
    e.map_values(|s: Scope| scope_v(s))
}

struct Walker {
    map: Vec<(Span, Option<Span>)>,
    env: Vec<Scope>,
}

spec fn wv(w: Walker) -> RefState {
    RefState { map: w.map@, env: env_v(w.env@) }
}

fn find_last_decl(s: &Vec<Decl>, name: &String) -> (r: Option<Span>)
    ensures
        r == seq_find_last(decls_v(s@), name@),
{
    let mut k: usize = s.len();
    assert(decls_v(s@).subrange(0, k as int) =~= decls_v(s@));
    while k > 0
        invariant
            k <= s@.len(),
            seq_find_last(decls_v(s@).subrange(0, k as int), name@) == seq_find_last(decls_v(s@), name@),
        decreases k,
    {
        let ghost t = decls_v(s@).subrange(0, k as int);
        assert(t.last() == decl_v(s@[k - 1]));
        if s[k - 1].name == *name {
            return Some(s[k - 1].span);
        }
        assert(t.drop_last() =~= decls_v(s@).subrange(0, k - 1));
        k = k - 1;
    }
    None
}

fn find_first_decl(s: &Vec<Decl>, name: &String) -> (r: Option<Span>)
    ensures
        r == seq_find_first(decls_v(s@), name@),
{
    let mut k: usize = 0;
    assert(decls_v(s@).subrange(0, s@.len() as int) =~= decls_v(s@));
    while k < s.len()
        invariant
            k <= s@.len(),
            seq_find_first(decls_v(s@).subrange(k as int, s@.len() as int), name@) == seq_find_first(
                decls_v(s@),
                name@,
            ),
        decreases s@.len() - k,
    {
        let ghost t = decls_v(s@).subrange(k as int, s@.len() as int);
        assert(t[0] == decl_v(s@[k as int]));
        if s[k].name == *name {
            return Some(s[k].span);
        }
        assert(t.drop_first() =~= decls_v(s@).subrange(k + 1, s@.len() as int));
        k = k + 1;
    }
    None
}

impl Walker {
    fn lookup(&self, name: &String) -> (r: Option<Span>)
        ensures
            r == rf_lookup(wv(*self).env, name@),
    {
        let ghost full = wv(*self).env;
        let mut k: usize = self.env.len();
        assert(full.subrange(0, k as int) =~= full);
        while k > 0
            invariant
                k <= self.env@.len(),
                full == wv(*self).env,
                rf_lookup(full.subrange(0, k as int), name@) == rf_lookup(full, name@),
            decreases k,
        {
            let ghost t = full.subrange(0, k as int);
            let sc = &self.env[k - 1];
            assert(t.last() == scope_v(*sc));
            match find_last_decl(&sc.seq, name) {
                Some(s) => {
                    return Some(s);
                },
                None => {},
            }
            match find_first_decl(&sc.fns, name) {
                Some(s) => {
                    return Some(s);
                },
                None => {},
            }
            assert(t.drop_last() =~= full.subrange(0, k - 1));
            k = k - 1;
        }
        None
    }

    fn write(&mut self, k: Span, v: Option<Span>)
        ensures
            wv(*final(self)) == rf_write(wv(*old(self)), k, v),
            final(self).env@.len() == old(self).env@.len(),
    {
        map_insert(&mut self.map, k, v);
    }

    fn push_decl(&mut self, name: &String, span: Span, hoisted: bool)
        requires
            old(self).env@.len() > 0,
        ensures
            wv(*final(self)) == (if hoisted {
                rf_push_fn(wv(*old(self)), name@, span)
            } else {
                rf_push_seq(wv(*old(self)), name@, span)
            }),
            final(self).env@.len() == old(self).env@.len(),
    {
        let ghost e0 = self.env@;
        let mut sc = self.env.pop().unwrap();
        let ghost f0 = sc.fns@;
        let ghost q0 = sc.seq@;
        let d = Decl { name: name.clone(), span };
        if hoisted {
            sc.fns.push(d);
            assert(decls_v(sc.fns@) =~= decls_v(f0).push(DeclV { name: name@, span }));
        } else {
            sc.seq.push(d);
            assert(decls_v(sc.seq@) =~= decls_v(q0).push(DeclV { name: name@, span }));
        }
        let ghost sv = scope_v(sc);
        self.env.push(sc);
        assert(env_v(self.env@) =~= env_v(e0).update(e0.len() - 1, sv));
    }

    /// Open a scope seeded with `params` and the functions declared in `stmts`.
    fn open(&mut self, stmts: &Vec<Stmt>, params: &Vec<Ident>)
        ensures
            wv(*final(self)) == rf_open(wv(*old(self)), stmts_v(stmts@), idents_v(params@)),
            final(self).env@.len() == old(self).env@.len() + 1,
    {
        let ghost e0 = self.env@;
        self.env.push(Scope { fns: Vec::new(), seq: Vec::new() });
        assert(decls_v(Seq::<Decl>::empty()) =~= Seq::empty());
        assert(env_v(self.env@) =~= env_v(e0).push(ScopeV { fns: seq![], seq: seq![] }));
        let ghost st0 = wv(*self);
        let ghost ps = idents_v(params@);
        let ghost len0 = self.env@.len();
        let mut i: usize = 0;
        assert(ps.subrange(0, ps.len() as int) =~= ps);
        while i < params.len()
            invariant
                i <= params@.len() == ps.len(),
                ps == idents_v(params@),
                self.env@.len() == len0 > 0,
                rf_params(wv(*self), ps.subrange(i as int, ps.len() as int)) == rf_params(st0, ps),
            decreases params@.len() - i,
        {
            let p = &params[i];
            assert(ps.subrange(i as int, ps.len() as int)[0] == ident_v(*p));
            assert(ps.subrange(i as int, ps.len() as int).drop_first() =~= ps.subrange(i + 1, ps.len() as int));
            self.write(p.span, Some(p.span));
            self.push_decl(&p.name, p.span, false);
            i = i + 1;
        }
        assert(ps.subrange(ps.len() as int, ps.len() as int) =~= Seq::<IdentV>::empty());
        let ghost st1 = wv(*self);
        let ghost ss = stmts_v(stmts@);
        proof {
            lemma_stmts_v(stmts@);
        }
        let n = stmts.len();
        let mut j: usize = 0;
        assert(ss.subrange(0, n as int) =~= ss);
        while j < n
            invariant
                j <= n == stmts@.len() == ss.len(),
                ss == stmts_v(stmts@),
                forall|x: int| 0 <= x < n ==> #[trigger] ss[x] == stmt_v(stmts@[x]),
                self.env@.len() == len0 > 0,
                rf_hoist(wv(*self), ss.subrange(j as int, n as int)) == rf_hoist(st1, ss),
            decreases n - j,
        {
            assert(ss.subrange(j as int, n as int)[0] == stmt_v(stmts@[j as int]));
            assert(ss.subrange(j as int, n as int).drop_first() =~= ss.subrange(j + 1, n as int));
            if let StmtKind::Fn(f) = &stmts[j].kind {
                self.write(f.name.span, Some(f.name.span));
                self.push_decl(&f.name.name, f.name.span, true);
            }
            j = j + 1;
        }
        assert(ss.subrange(n as int, n as int) =~= Seq::<StmtV>::empty());
    }

    fn close(&mut self)
        requires
            old(self).env@.len() > 0,
        ensures
            wv(*final(self)) == rf_close(wv(*old(self))),
            final(self).env@.len() == old(self).env@.len() - 1,
    {
        let ghost e0 = self.env@;
        let _ = self.env.pop();
        assert(env_v(self.env@) =~= env_v(e0).drop_last());
    }

    fn walk_block(&mut self, b: &Block, params: &Vec<Ident>)
        ensures
            wv(*final(self)) == rf_block(wv(*old(self)), block_v(*b), idents_v(params@)),
            final(self).env@.len() == old(self).env@.len(),
        decreases b,
    {
        self.open(&b.stmts, params);
        let ghost ss = stmts_v(b.stmts@);
        let ghost st1 = wv(*self);
        let ghost len0 = self.env@.len();
        proof {
            lemma_stmts_v(b.stmts@);
        }
        let n = b.stmts.len();
        let mut i: usize = 0;
        assert(ss.subrange(0, n as int) =~= ss);
        while i < n
            invariant
                i <= n == b.stmts@.len() == ss.len(),
                ss == stmts_v(b.stmts@),
                forall|j: int| 0 <= j < n ==> #[trigger] ss[j] == stmt_v(b.stmts@[j]),
                self.env@.len() == len0 > 0,
                rf_stmts(wv(*self), ss.subrange(i as int, n as int)) == rf_stmts(st1, ss),
            decreases n - i,
        {
            assert(ss.subrange(i as int, n as int)[0] == stmt_v(b.stmts@[i as int]));
            assert(ss.subrange(i as int, n as int).subrange(1, n - i) =~= ss.subrange(i + 1, n as int));
            self.walk_stmt(&b.stmts[i]);
            i = i + 1;
        }
        if let Some(t) = &b.tail {
            self.walk_expr(t);
        }
        self.close();
    }

    fn walk_stmt(&mut self, s: &Stmt)
        requires
            old(self).env@.len() > 0,
        ensures
            wv(*final(self)) == rf_stmt(wv(*old(self)), stmt_v(*s)),
            final(self).env@.len() == old(self).env@.len(),
        decreases s,
    {
        match &s.kind {
            StmtKind::Let(l) => {
                self.walk_expr(&l.value);
                self.write(l.name.span, Some(l.name.span));
                self.push_decl(&l.name.name, l.name.span, false);
            },
            StmtKind::Fn(f) => {
                self.walk_block(&f.body, &f.params);
            },
            StmtKind::Expr(e) => self.walk_expr(e),
        }
    }

    fn walk_exprs(&mut self, es: &Vec<Expr>)
        ensures
            wv(*final(self)) == rf_exprs(wv(*old(self)), exprs_v(es@)),
            final(self).env@.len() == old(self).env@.len(),
        decreases es,
    {
        let ghost xs = exprs_v(es@);
        let ghost st0 = wv(*self);
        let ghost len0 = self.env@.len();
        proof {
            lemma_exprs_v(es@);
        }
        let n = es.len();
        let mut i: usize = 0;
        assert(xs.subrange(0, n as int) =~= xs);
        while i < n
            invariant
                i <= n == es@.len() == xs.len(),
                xs == exprs_v(es@),
                forall|j: int| 0 <= j < n ==> #[trigger] xs[j] == expr_v(es@[j]),
                self.env@.len() == len0,
                rf_exprs(wv(*self), xs.subrange(i as int, n as int)) == rf_exprs(st0, xs),
            decreases n - i,
        {
            assert(xs.subrange(i as int, n as int)[0] == expr_v(es@[i as int]));
            assert(xs.subrange(i as int, n as int).subrange(1, n - i) =~= xs.subrange(i + 1, n as int));
            self.walk_expr(&es[i]);
            i = i + 1;
        }
    }

    fn walk_expr(&mut self, expr: &Expr)
        ensures
            wv(*final(self)) == rf_expr(wv(*old(self)), expr_v(*expr)),
            final(self).env@.len() == old(self).env@.len(),
        decreases expr,
    {
        match &expr.kind {
            ExprKind::Int(_) | ExprKind::Bool(_) | ExprKind::Error => {},
            ExprKind::Name(name) => {
                let target = self.lookup(name);
                self.write(expr.span, target);
            },
            ExprKind::Unary { expr: inner, .. } => self.walk_expr(inner),
            ExprKind::Binary { lhs, rhs, .. } => {
                self.walk_expr(lhs);
                self.walk_expr(rhs);
            },
            ExprKind::Call { callee, args } => {
                self.walk_expr(callee);
                self.walk_exprs(args);
            },
            ExprKind::If { cond, then_block, else_block } => {
                self.walk_expr(cond);
                let none: Vec<Ident> = Vec::new();
                assert(idents_v(none@) =~= Seq::empty());
                self.walk_block(then_block, &none);
                if let Some(b) = else_block {
                    self.walk_block(b, &none);
                }
            },
            ExprKind::Block(block) => {
                let none: Vec<Ident> = Vec::new();
                assert(idents_v(none@) =~= Seq::empty());
                self.walk_block(block, &none);
            },
            ExprKind::Paren(inner) => self.walk_expr(inner),
        }
    }
}

/// Map every identifier occurrence of the program to the declaration it
/// resolves to, by a plain scope walk over the whole program.
pub fn resolve_program(program: &Program) -> (map: RefMap)
    ensures
        map@ == rf_program(stmts_v(program@)),
{
    let mut w = Walker { map: Vec::new(), env: Vec::new() };
    assert(env_v(w.env@) =~= Seq::empty());
    assert(wv(w) == (RefState { map: seq![], env: seq![] }));
    let none: Vec<Ident> = Vec::new();
    assert(idents_v(none@) =~= Seq::empty());
    w.open(program, &none);
    let ghost ss = stmts_v(program@);
    let ghost st1 = wv(w);
    proof {
        lemma_stmts_v(program@);
    }
    let n = program.len();
    let mut i: usize = 0;
    assert(ss.subrange(0, n as int) =~= ss);
    while i < n
        invariant
            i <= n == program@.len() == ss.len(),
            ss == stmts_v(program@),
            forall|j: int| 0 <= j < n ==> #[trigger] ss[j] == stmt_v(program@[j]),
            w.env@.len() == 1,
            rf_stmts(wv(w), ss.subrange(i as int, n as int)) == rf_stmts(st1, ss),
        decreases n - i,
    {
        assert(ss.subrange(i as int, n as int)[0] == stmt_v(program@[i as int]));
        assert(ss.subrange(i as int, n as int).subrange(1, n - i) =~= ss.subrange(i + 1, n as int));
        w.walk_stmt(&program[i]);
        i = i + 1;
    }
    assert(ss.subrange(n as int, n as int) =~= Seq::<StmtV>::empty());
    w.close();
    w.map
}

} // verus!

verus! {

/// The declaration span an occurrence of the production walk resolves to.
pub open spec fn decl_of(o: OccV, b: Seq<BindingV>) -> Option<Span> {
    match o.binding {
        Some(id) => Some(b[id as int].decl_span),
        None => None,
    }
}

/// Write each occurrence, in order, as (its span, its declaration span) into a
/// map sorted by span.
pub open spec fn write_occs(occs: Seq<OccV>, b: Seq<BindingV>) -> Seq<(Span, Option<Span>)>
    decreases occs.len(),
{
    if occs.len() == 0 {
        seq![]
    } else {
        al_insert(write_occs(occs.drop_last(), b), occs.last().span, decl_of(occs.last(), b))
    }
}

pub open spec fn decls_of(s: Seq<(Seq<char>, usize)>, b: Seq<BindingV>) -> Seq<DeclV> {
    s.map_values(|p: (Seq<char>, usize)| DeclV { name: p.0, span: b[p.1 as int].decl_span })
}

/// The reference walk state mirrors the production walk state: same scopes
/// with each binding number replaced by its declaration span, and a map that
/// holds the production occurrences written in order.
pub open spec fn sim(r: RS, st: RefState) -> bool {
    &&& ids_ok(r)
    &&& st.map == write_occs(r.occs, r.bindings)
    &&& st.env.len() == r.stack.len()
    &&& forall|f: int|
        0 <= f < r.stack.len() ==> (#[trigger] st.env[f]).fns == decls_of(r.stack[f].fns, r.bindings)
            && st.env[f].seq == decls_of(r.stack[f].seq, r.bindings)
}

pub open spec fn extends_b(b: Seq<BindingV>, b2: Seq<BindingV>) -> bool {
    b.len() <= b2.len() && forall|i: int| 0 <= i < b.len() ==> #[trigger] b2[i] == b[i]
}

proof fn lemma_write_occs_extend(occs: Seq<OccV>, b: Seq<BindingV>, b2: Seq<BindingV>)
    requires
        extends_b(b, b2),
        forall|i: int| 0 <= i < occs.len() ==> ((#[trigger] occs[i]).binding matches Some(id) ==> id < b.len()),
    ensures
        write_occs(occs, b2) == write_occs(occs, b),
    decreases occs.len(),
{
    if occs.len() > 0 {
        lemma_write_occs_extend(occs.drop_last(), b, b2);
        assert(occs.last() == occs[occs.len() - 1]);
    }
}

proof fn lemma_decls_extend(s: Seq<(Seq<char>, usize)>, b: Seq<BindingV>, b2: Seq<BindingV>)
    requires
        extends_b(b, b2),
        forall|j: int| 0 <= j < s.len() ==> (#[trigger] s[j]).1 < b.len(),
    ensures
        decls_of(s, b2) == decls_of(s, b),
{
    assert(decls_of(s, b2) =~= decls_of(s, b));
}

proof fn lemma_find_last_sim(s: Seq<(Seq<char>, usize)>, b: Seq<BindingV>, name: Seq<char>)
    ensures
        seq_find_last(decls_of(s, b), name) == (match find_last(s, name) {
            Some(id) => Some(b[id as int].decl_span),
            None => None,
        }),
    decreases s.len(),
{
    if s.len() > 0 {
        assert(decls_of(s, b).drop_last() =~= decls_of(s.drop_last(), b));
        lemma_find_last_sim(s.drop_last(), b, name);
    }
}

proof fn lemma_find_first_sim(s: Seq<(Seq<char>, usize)>, b: Seq<BindingV>, name: Seq<char>)
    ensures
        seq_find_first(decls_of(s, b), name) == (match find_first(s, name) {
            Some(id) => Some(b[id as int].decl_span),
            None => None,
        }),
    decreases s.len(),
{
    if s.len() > 0 {
        assert(decls_of(s, b).drop_first() =~= decls_of(s.drop_first(), b));
        lemma_find_first_sim(s.drop_first(), b, name);
    }
}

proof fn lemma_lookup_sim(stack: Seq<FrameV>, env: Seq<ScopeV>, b: Seq<BindingV>, name: Seq<char>)
    requires
        env.len() == stack.len(),
        forall|f: int|
            0 <= f < stack.len() ==> (#[trigger] env[f]).fns == decls_of(stack[f].fns, b) && env[f].seq
                == decls_of(stack[f].seq, b),
    ensures
        rf_lookup(env, name) == (match lookup(stack, name) {
            Some(id) => Some(b[id as int].decl_span),
            None => None,
        }),
    decreases stack.len(),
{
    if stack.len() > 0 {
        let k = stack.len() - 1;
        assert(env.last() == env[k]);
        lemma_find_last_sim(stack.last().seq, b, name);
        lemma_find_first_sim(stack.last().fns, b, name);
        lemma_lookup_sim(stack.drop_last(), env.drop_last(), b, name);
    }
}

proof fn lemma_sim_push(r: RS, st: RefState)
    requires
        sim(r, st),
    ensures
        sim(push_frame(r), RefState { map: st.map, env: st.env.push(ScopeV { fns: seq![], seq: seq![] }) }),
{
    lemma_frame_ids(r);
    let r2 = push_frame(r);
    let st2 = RefState { map: st.map, env: st.env.push(ScopeV { fns: seq![], seq: seq![] }) };
    assert forall|f: int| 0 <= f < r2.stack.len() implies (#[trigger] st2.env[f]).fns == decls_of(
        r2.stack[f].fns,
        r2.bindings,
    ) && st2.env[f].seq == decls_of(r2.stack[f].seq, r2.bindings) by {
        if f == r.stack.len() {
            assert(decls_of(r2.stack[f].fns, r2.bindings) =~= seq![]);
            assert(decls_of(r2.stack[f].seq, r2.bindings) =~= seq![]);
        }
    }
}

proof fn lemma_sim_pop(r: RS, st: RefState)
    requires
        sim(r, st),
        r.stack.len() > 0,
    ensures
        sim(pop_frame(r), rf_close(st)),
{
    lemma_frame_ids(r);
    let r2 = pop_frame(r);
    let st2 = rf_close(st);
    assert forall|f: int| 0 <= f < r2.stack.len() implies (#[trigger] st2.env[f]).fns == decls_of(
        r2.stack[f].fns,
        r2.bindings,
    ) && st2.env[f].seq == decls_of(r2.stack[f].seq, r2.bindings) by {
        assert(st2.env[f] == st.env[f]);
        assert(r2.stack[f] == r.stack[f]);
    }
}

proof fn lemma_sim_declare(r: RS, st: RefState, name: Seq<char>, kind: BindingKind, span: Span, arity: usize, hoisted: bool)
    requires
        sim(r, st),
        r.stack.len() > 0,
        r.bindings.len() < usize::MAX,
    ensures
        hoisted ==> sim(
            declare_fn(r, name, span, arity),
            rf_push_fn(rf_write(st, span, Some(span)), name, span),
        ),
        !hoisted ==> sim(
            declare_seq(r, name, kind, span),
            rf_push_seq(rf_write(st, span, Some(span)), name, span),
        ),
{
    lemma_declare_ids(r, name, kind, span, arity);
    let r1 = check_redef(r, name, span);
    let id = r1.bindings.len() as usize;
    let k = if hoisted { BindingKind::Fn } else { kind };
    let ar = if hoisted { Some(arity) } else { None };
    let r2 = add_binding(r1, name, k, span, ar);
    let f = r2.stack.last();
    let r3 = if hoisted {
        update_top(r2, FrameV { fns: f.fns.push((name, id)), seq: f.seq })
    } else {
        update_top(r2, FrameV { fns: f.fns, seq: f.seq.push((name, id)) })
    };
    let st1 = rf_write(st, span, Some(span));
    let st2 = if hoisted {
        rf_push_fn(st1, name, span)
    } else {
        rf_push_seq(st1, name, span)
    };
    assert(r3 == (if hoisted { declare_fn(r, name, span, arity) } else { declare_seq(r, name, kind, span) }));
    assert(extends_b(r.bindings, r3.bindings));
    // the map
    lemma_write_occs_extend(r.occs, r.bindings, r3.bindings);
    assert(r3.occs.drop_last() == r.occs);
    assert(r3.occs.last().span == span);
    assert(decl_of(r3.occs.last(), r3.bindings) == Some(span));
    assert(st2.map == write_occs(r3.occs, r3.bindings));
    // the scopes
    assert forall|g: int| 0 <= g < r3.stack.len() implies (#[trigger] st2.env[g]).fns == decls_of(
        r3.stack[g].fns,
        r3.bindings,
    ) && st2.env[g].seq == decls_of(r3.stack[g].seq, r3.bindings) by {
        lemma_decls_extend(r.stack[g].fns, r.bindings, r3.bindings);
        lemma_decls_extend(r.stack[g].seq, r.bindings, r3.bindings);
        if g == r.stack.len() - 1 {
            if hoisted {
                assert(decls_of(r3.stack[g].fns, r3.bindings) =~= decls_of(r.stack[g].fns, r3.bindings).push(
                    DeclV { name, span },
                ));
            } else {
                assert(decls_of(r3.stack[g].seq, r3.bindings) =~= decls_of(r.stack[g].seq, r3.bindings).push(
                    DeclV { name, span },
                ));
            }
        }
    }
}

proof fn lemma_sim_name(r: RS, st: RefState, name: Seq<char>, span: Span)
    requires
        sim(r, st),
    ensures
        sim(r_name(r, name, span), rf_write(st, span, rf_lookup(st.env, name))),
{
    lemma_lookup_sim(r.stack, st.env, r.bindings, name);
    assert(r.stack.subrange(0, r.stack.len() as int) =~= r.stack);
    lemma_lookup_bound(r, r.stack, name);
    let r2 = r_name(r, name, span);
    assert(r2.occs.drop_last() == r.occs);
    assert forall|i: int| 0 <= i < r2.occs.len() implies ((#[trigger] r2.occs[i]).binding matches Some(id)
        ==> id < r2.bindings.len()) by {
        if i < r.occs.len() {
            assert(r2.occs[i] == r.occs[i]);
        }
    }
}

proof fn lemma_sim_params(r: RS, st: RefState, ps: Seq<IdentV>)
    requires
        sim(r, st),
        r.stack.len() > 0,
        r_params(r, ps).bindings.len() <= usize::MAX,
    ensures
        sim(r_params(r, ps), rf_params(st, ps)),
    decreases ps.len(),
{
    if ps.len() > 0 {
        let r1 = declare_seq(r, ps[0].name, BindingKind::Param, ps[0].span);
        lemma_declare_ids(r, ps[0].name, BindingKind::Param, ps[0].span, 0);
        lemma_params_ids(r1, ps.drop_first());
        lemma_sim_declare(r, st, ps[0].name, BindingKind::Param, ps[0].span, 0, false);
        let st1 = rf_push_seq(rf_write(st, ps[0].span, Some(ps[0].span)), ps[0].name, ps[0].span);
        lemma_sim_params(r1, st1, ps.drop_first());
    }
}

proof fn lemma_sim_hoist(r: RS, st: RefState, ss: Seq<StmtV>)
    requires
        sim(r, st),
        r.stack.len() > 0,
        r_hoist(r, ss).bindings.len() <= usize::MAX,
    ensures
        sim(r_hoist(r, ss), rf_hoist(st, ss)),
    decreases ss.len(),
{
    if ss.len() > 0 {
        match ss[0].kind {
            StmtKindV::Fn { name, params, body: _ } => {
                let ar = params.len() as usize;
                let r1 = declare_fn(r, name.name, name.span, ar);
                lemma_declare_ids(r, name.name, BindingKind::Fn, name.span, ar);
                lemma_hoist_ids(r1, ss.drop_first());
                lemma_sim_declare(r, st, name.name, BindingKind::Fn, name.span, ar, true);
                let st1 = rf_push_fn(rf_write(st, name.span, Some(name.span)), name.name, name.span);
                lemma_sim_hoist(r1, st1, ss.drop_first());
            },
            _ => {
                lemma_sim_hoist(r, st, ss.drop_first());
            },
        }
    }
}

proof fn lemma_sim_block(r: RS, st: RefState, b: BlockV, ps: Seq<IdentV>)
    requires
        sim(r, st),
        r_block(r, b, ps).bindings.len() <= usize::MAX,
    ensures
        sim(r_block(r, b, ps), rf_block(st, b, ps)),
    decreases b,
{
    let r0 = push_frame(r);
    let st0 = RefState { map: st.map, env: st.env.push(ScopeV { fns: seq![], seq: seq![] }) };
    lemma_sim_push(r, st);
    lemma_frame_ids(r);
    let r1 = r_params(r0, ps);
    lemma_params_ids(r0, ps);
    let r2 = r_hoist(r1, b.stmts);
    lemma_hoist_ids(r1, b.stmts);
    let r3 = r_stmts(r2, b.stmts);
    lemma_stmts_ids(r2, b.stmts);
    let r4 = match b.tail {
        Some(e) => r_expr(r3, *e),
        None => r3,
    };
    match b.tail {
        Some(e) => {
            lemma_expr_ids(r3, *e);
        },
        None => {},
    }
    lemma_sim_params(r0, st0, ps);
    let st1 = rf_params(st0, ps);
    lemma_sim_hoist(r1, st1, b.stmts);
    let st2 = rf_hoist(st1, b.stmts);
    lemma_sim_stmts(r2, st2, b.stmts);
    let st3 = rf_stmts(st2, b.stmts);
    match b.tail {
        Some(e) => {
            lemma_sim_expr(r3, st3, *e);
            lemma_sim_pop(r4, rf_expr(st3, *e));
        },
        None => {
            lemma_sim_pop(r3, st3);
        },
    }
}

proof fn lemma_sim_stmts(r: RS, st: RefState, ss: Seq<StmtV>)
    requires
        sim(r, st),
        r.stack.len() > 0,
        r_stmts(r, ss).bindings.len() <= usize::MAX,
    ensures
        sim(r_stmts(r, ss), rf_stmts(st, ss)),
    decreases ss,
{
    if ss.len() > 0 {
        lemma_stmt_ids(r, ss[0]);
        lemma_stmts_ids(r_stmt(r, ss[0]), ss.subrange(1, ss.len() as int));
        lemma_sim_stmt(r, st, ss[0]);
        lemma_sim_stmts(r_stmt(r, ss[0]), rf_stmt(st, ss[0]), ss.subrange(1, ss.len() as int));
    }
}

proof fn lemma_sim_stmt(r: RS, st: RefState, s: StmtV)
    requires
        sim(r, st),
        r.stack.len() > 0,
        r_stmt(r, s).bindings.len() <= usize::MAX,
    ensures
        sim(r_stmt(r, s), rf_stmt(st, s)),
    decreases s,
{
    match s.kind {
        StmtKindV::Let { name, value } => {
            lemma_expr_ids(r, value);
            let r1 = r_expr(r, value);
            lemma_declare_ids(r1, name.name, BindingKind::Let, name.span, 0);
            lemma_sim_expr(r, st, value);
            lemma_sim_declare(r1, rf_expr(st, value), name.name, BindingKind::Let, name.span, 0, false);
        },
        StmtKindV::Fn { name: _, params, body } => {
            lemma_sim_block(r, st, body, params);
        },
        StmtKindV::Expr { expr } => {
            lemma_sim_expr(r, st, expr);
        },
    }
}

proof fn lemma_sim_exprs(r: RS, st: RefState, es: Seq<ExprV>)
    requires
        sim(r, st),
        r_exprs(r, es).bindings.len() <= usize::MAX,
    ensures
        sim(r_exprs(r, es), rf_exprs(st, es)),
    decreases es,
{
    if es.len() > 0 {
        lemma_expr_ids(r, es[0]);
        lemma_exprs_ids(r_expr(r, es[0]), es.subrange(1, es.len() as int));
        lemma_sim_expr(r, st, es[0]);
        lemma_sim_exprs(r_expr(r, es[0]), rf_expr(st, es[0]), es.subrange(1, es.len() as int));
    }
}

proof fn lemma_sim_expr(r: RS, st: RefState, e: ExprV)
    requires
        sim(r, st),
        r_expr(r, e).bindings.len() <= usize::MAX,
    ensures
        sim(r_expr(r, e), rf_expr(st, e)),
    decreases e,
{
    match e.kind {
        ExprKindV::Name { name } => {
            lemma_sim_name(r, st, name, e.span);
        },
        ExprKindV::Unary { op: _, expr } => {
            lemma_sim_expr(r, st, *expr);
        },
        ExprKindV::Binary { op: _, lhs, rhs } => {
            lemma_expr_ids(r, *lhs);
            lemma_expr_ids(r_expr(r, *lhs), *rhs);
            lemma_sim_expr(r, st, *lhs);
            lemma_sim_expr(r_expr(r, *lhs), rf_expr(st, *lhs), *rhs);
        },
        ExprKindV::Call { callee, args } => {
            lemma_expr_ids(r, *callee);
            lemma_exprs_ids(r_expr(r, *callee), args);
            lemma_sim_expr(r, st, *callee);
            lemma_sim_exprs(r_expr(r, *callee), rf_expr(st, *callee), args);
        },
        ExprKindV::If { cond, then_block, else_block } => {
            lemma_expr_ids(r, *cond);
            let r1 = r_expr(r, *cond);
            lemma_block_ids(r1, then_block, seq![]);
            let r2 = r_block(r1, then_block, seq![]);
            match else_block {
                Some(b) => {
                    lemma_block_ids(r2, b, seq![]);
                },
                None => {},
            }
            lemma_sim_expr(r, st, *cond);
            let st1 = rf_expr(st, *cond);
            lemma_sim_block(r1, st1, then_block, seq![]);
            match else_block {
                Some(b) => {
                    lemma_sim_block(r2, rf_block(st1, then_block, seq![]), b, seq![]);
                },
                None => {},
            }
        },
        ExprKindV::Block { block } => {
            lemma_sim_block(r, st, block, seq![]);
        },
        ExprKindV::Paren { inner } => {
            lemma_sim_expr(r, st, *inner);
        },
        _ => {},
    }
}

/// The reference resolver agrees with the production resolver: the reference
/// map is exactly what writing each occurrence of the production walk, in
/// walk order, as (its span, the declaration span of its binding) into a map
/// sorted by span gives. This holds whenever the number of declarations fits
/// in a machine word.
pub proof fn law_reference_agrees(p: Seq<StmtV>)
    requires
        r_program(p).bindings.len() <= usize::MAX,
    ensures
        rf_program(p) == write_occs(r_program(p).occs, r_program(p).bindings),
{
    let r = empty_rs();
    let st = RefState { map: seq![], env: seq![] };
    assert(sim(r, st));
    let r0 = push_frame(r);
    lemma_frame_ids(r);
    let st0 = RefState { map: st.map, env: st.env.push(ScopeV { fns: seq![], seq: seq![] }) };
    lemma_sim_push(r, st);
    assert(rf_params(st0, seq![]) == st0);
    lemma_hoist_ids(r0, p);
    let r1 = r_hoist(r0, p);
    lemma_stmts_ids(r1, p);
    lemma_sim_hoist(r0, st0, p);
    let st1 = rf_hoist(st0, p);
    lemma_sim_stmts(r1, st1, p);
    lemma_sim_pop(r_stmts(r1, p), rf_stmts(st1, p));
}

/// Writing occurrences with pairwise distinct spans keeps one entry per
/// occurrence, each carrying that occurrence's declaration span.
proof fn lemma_write_occs_distinct(occs: Seq<OccV>, b: Seq<BindingV>)
    requires
        forall|i: int, j: int| 0 <= i < j < occs.len() ==> (#[trigger] occs[i]).span != (#[trigger] occs[j]).span,
    ensures
        al_sorted(write_occs(occs, b)),
        write_occs(occs, b).len() == occs.len(),
        forall|i: int| 0 <= i < occs.len() ==> write_occs(occs, b).contains(
            ((#[trigger] occs[i]).span, decl_of(occs[i], b)),
        ),
        forall|x: (Span, Option<Span>)| #[trigger] write_occs(occs, b).contains(x) ==> exists|i: int|
            0 <= i < occs.len() && x.0 == (#[trigger] occs[i]).span,
    decreases occs.len(),
{
    if occs.len() > 0 {
        let init = occs.drop_last();
        let o = occs.last();
        assert forall|i: int, j: int| 0 <= i < j < init.len() implies (#[trigger] init[i]).span != (
        #[trigger] init[j]).span by {
            assert(init[i] == occs[i]);
            assert(init[j] == occs[j]);
        }
        lemma_write_occs_distinct(init, b);
        let m = write_occs(init, b);
        lemma_al_insert_sorted(m, o.span, decl_of(o, b));
        assert(!s_has_key(m, o.span)) by {
            if s_has_key(m, o.span) {
                let i = choose|i: int| 0 <= i < m.len() && (#[trigger] m[i]).0 == o.span;
                assert(m.contains(m[i]));
                let j = choose|j: int| 0 <= j < init.len() && m[i].0 == (#[trigger] init[j]).span;
                assert(init[j] == occs[j]);
                assert(occs[j].span != occs[occs.len() - 1].span);
            }
        }
        let w = write_occs(occs, b);
        assert forall|i: int| 0 <= i < occs.len() implies w.contains(((#[trigger] occs[i]).span, decl_of(occs[i], b))) by {
            if i < occs.len() - 1 {
                assert(init[i] == occs[i]);
                assert(m.contains((init[i].span, decl_of(init[i], b))));
                assert(occs[i].span != o.span);
            }
        }
        assert forall|x: (Span, Option<Span>)| #[trigger] w.contains(x) implies exists|i: int|
            0 <= i < occs.len() && x.0 == (#[trigger] occs[i]).span by {
            if x != (o.span, decl_of(o, b)) {
                assert(m.contains(x));
                let j = choose|j: int| 0 <= j < init.len() && x.0 == (#[trigger] init[j]).span;
                assert(init[j] == occs[j]);
            } else {
                assert(occs[occs.len() - 1] == o);
            }
        }
    }
}

/// Navigation agrees with the independent scope walk: when no two identifier
/// occurrences share a span, the reference map has exactly one entry per
/// occurrence of the production walk, mapping its span to the declaration
/// span of the binding it resolves to (and to nothing when it is unresolved).
pub proof fn law_navigation_matches_reference(p: Seq<StmtV>)
    requires
        r_program(p).bindings.len() <= usize::MAX,
        forall|i: int, j: int|
            0 <= i < j < r_program(p).occs.len() ==> (#[trigger] r_program(p).occs[i]).span != (
            #[trigger] r_program(p).occs[j]).span,
    ensures
        al_sorted(rf_program(p)),
        rf_program(p).len() == r_program(p).occs.len(),
        forall|i: int|
            0 <= i < r_program(p).occs.len() ==> rf_program(p).contains(
                (
                    (#[trigger] r_program(p).occs[i]).span,
                    decl_of(r_program(p).occs[i], r_program(p).bindings),
                ),
            ),
{
    law_reference_agrees(p);
    lemma_write_occs_distinct(r_program(p).occs, r_program(p).bindings);
}

} // verus!
