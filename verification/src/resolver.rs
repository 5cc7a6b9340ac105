//! Lexically scoped name resolution and the symbol table.
//!
//! The resolver records every identifier occurrence (declarations and uses)
//! together with the binding it resolves to, which is what the IDE queries
//! read. It computes exactly the walk of `resolve_spec`, then sorts the
//! occurrences by position and the diagnostics into their reporting order.

use vstd::prelude::*;
use vstd::string::StringExecFns;
use crate::ast::{Ident, Stmt, StmtKind, Block, Expr, ExprKind, Program, ident_v, idents_v, expr_v, exprs_v, block_v, stmt_v, stmts_v, lemma_stmts_v, lemma_exprs_v, StmtV};
use crate::diagnostics::{DiagKind, Diagnostic, diags_view, error_v, sorted, diag_rel};
use crate::resolve_spec::{BindingV, OccV, FrameV, RS, empty_rs, push_frame, pop_frame, frame_has, top_has, msg_redefined, add_binding, update_top, declare_seq, declare_fn, find_last, find_first, lookup, r_params, r_hoist, r_block, r_stmts, r_stmt, r_exprs, r_expr, r_program, occ_key_le, lemma_program_ids};
use crate::sort::{KeyOrder, sort_by_key, sorted_by_key, lemma_map_multiset, sel_sort, key_rel, lemma_sel_sort_map};
use crate::span::Span;

verus! {

#[derive(Clone, Copy, Debug, PartialEq, Eq, Structural)]
pub enum BindingKind {
    Fn,
    Param,
    Let,
}

impl BindingKind {
    pub open spec fn spec_describe(self) -> Seq<char> {
        match self {
            BindingKind::Fn => "function"@,
            BindingKind::Param => "parameter"@,
            BindingKind::Let => "variable"@,
        }
    }

    pub fn describe(self) -> (s: &'static str)
        ensures
            s@ == self.spec_describe(),
    {
        match self {
            BindingKind::Fn => "function",
            BindingKind::Param => "parameter",
            BindingKind::Let => "variable",
        }
    }
}

#[derive(Clone, Debug, PartialEq, Eq)]
pub struct Binding {
    pub name: String,
    pub kind: BindingKind,
    pub decl_span: Span,
    /// For functions, the number of declared parameters. Used by hover.
    pub arity: Option<usize>,
}

#[derive(Clone, Debug, PartialEq, Eq)]
pub struct Occurrence {
    pub span: Span,
    pub name: String,
    pub binding: Option<usize>,
    pub is_decl: bool,
}

#[derive(Clone, Debug, PartialEq, Eq)]
pub struct SymbolTable {
    pub bindings: Vec<Binding>,
    pub occurrences: Vec<Occurrence>,
    pub diagnostics: Vec<Diagnostic>,
}

pub open spec fn binding_v(b: Binding) -> BindingV {
    BindingV { name: b.name@, kind: b.kind, decl_span: b.decl_span, arity: b.arity }
}

pub open spec fn occ_v(o: Occurrence) -> OccV {
    OccV { span: o.span, name: o.name@, binding: o.binding, is_decl: o.is_decl }
}

pub open spec fn bindings_v(s: Seq<Binding>) -> Seq<BindingV> {
    s.map_values(|b: Binding| binding_v(b))
}

pub open spec fn occs_v(s: Seq<Occurrence>) -> Seq<OccV> {
    s.map_values(|o: Occurrence| occ_v(o))
}

impl Default for SymbolTable {
    fn default() -> (t: SymbolTable)
        ensures
            t.bindings@.len() == 0,
            t.occurrences@.len() == 0,
            t.diagnostics@.len() == 0,
    {
        SymbolTable { bindings: Vec::new(), occurrences: Vec::new(), diagnostics: Vec::new() }
    }
}

impl Binding {
    pub fn copy(&self) -> (b: Binding)
        ensures
            b == *self,
    {
        Binding { name: self.name.clone(), kind: self.kind, decl_span: self.decl_span, arity: self.arity }
    }
}

impl Occurrence {
    pub fn copy(&self) -> (o: Occurrence)
        ensures
            o == *self,
    {
        Occurrence { span: self.span, name: self.name.clone(), binding: self.binding, is_decl: self.is_decl }
    }
}

impl KeyOrder for Occurrence {
    open spec fn key_le(self, other: Self) -> bool {
        occ_key_le(occ_v(self), occ_v(other))
    }

    proof fn lemma_key_total(a: Self, b: Self) {
    }

    proof fn lemma_key_trans(a: Self, b: Self, c: Self) {
    }

    fn le(&self, other: &Self) -> (r: bool) {
        if self.span.start != other.span.start {
            self.span.start < other.span.start
        } else if self.span.end != other.span.end {
            self.span.end < other.span.end
        } else {
            !self.is_decl || other.is_decl
        }
    }
}

struct Frame {
    fns: Vec<(String, usize)>,
    seq: Vec<(String, usize)>,
}

spec fn pairs_v(s: Seq<(String, usize)>) -> Seq<(Seq<char>, usize)> {
    s.map_values(|p: (String, usize)| (p.0@, p.1))
}

spec fn frame_v(f: Frame) -> FrameV {
    FrameV { fns: pairs_v(f.fns@), seq: pairs_v(f.seq@) }
}

spec fn frames_v(s: Seq<Frame>) -> Seq<FrameV> {
    s.map_values(|f: Frame| frame_v(f))
}

struct Resolver {
    table: SymbolTable,
    stack: Vec<Frame>,
}

spec fn rv(r: Resolver) -> RS {
    RS {
        bindings: bindings_v(r.table.bindings@),
        occs: occs_v(r.table.occurrences@),
        diags: diags_view(r.table.diagnostics@),
        stack: frames_v(r.stack@),
    }
}

fn concat3(a: &str, b: &str, c: &str) -> (s: String)
    ensures
        s@ == a@ + b@ + c@,
{
    let mut s = String::from_str(a);
    s.append(b);
    s.append(c);
    s
}

fn contains_name(v: &Vec<(String, usize)>, name: &String) -> (b: bool)
    ensures
        b == (exists|i: int| 0 <= i < pairs_v(v@).len() && (#[trigger] pairs_v(v@)[i]).0 == name@),
{
    let mut i: usize = 0;
    while i < v.len()
        invariant
            i <= v@.len(),
            forall|j: int| 0 <= j < i ==> (#[trigger] pairs_v(v@)[j]).0 != name@,
        decreases v@.len() - i,
    {
        if v[i].0 == *name {
            assert(pairs_v(v@)[i as int].0 == name@);
            return true;
        }
        i = i + 1;
    }
    false
}

fn find_last_exec(v: &Vec<(String, usize)>, name: &String) -> (r: Option<usize>)
    ensures
        r == find_last(pairs_v(v@), name@),
{
    let mut k: usize = v.len();
    assert(pairs_v(v@).subrange(0, k as int) =~= pairs_v(v@));
    while k > 0
        invariant
            k <= v@.len(),
            find_last(pairs_v(v@).subrange(0, k as int), name@) == find_last(pairs_v(v@), name@),
        decreases k,
    {
        let ghost s = pairs_v(v@).subrange(0, k as int);
        if v[k - 1].0 == *name {
            assert(s.last() == (v@[k - 1].0@, v@[k - 1].1));
            return Some(v[k - 1].1);
        }
        assert(s.drop_last() =~= pairs_v(v@).subrange(0, k - 1));
        k = k - 1;
    }
    None
}

fn find_first_exec(v: &Vec<(String, usize)>, name: &String) -> (r: Option<usize>)
    ensures
        r == find_first(pairs_v(v@), name@),
{
    let mut k: usize = 0;
    assert(pairs_v(v@).subrange(0, v@.len() as int) =~= pairs_v(v@));
    while k < v.len()
        invariant
            k <= v@.len(),
            find_first(pairs_v(v@).subrange(k as int, v@.len() as int), name@) == find_first(
                pairs_v(v@),
                name@,
            ),
        decreases v@.len() - k,
    {
        let ghost s = pairs_v(v@).subrange(k as int, v@.len() as int);
        if v[k].0 == *name {
            assert(s[0] == (v@[k as int].0@, v@[k as int].1));
            return Some(v[k].1);
        }
        assert(s.drop_first() =~= pairs_v(v@).subrange(k + 1, v@.len() as int));
        k = k + 1;
    }
    None
}

fn push_pair(v: &mut Vec<(String, usize)>, name: &String, id: usize)
    ensures
        pairs_v(final(v)@) == pairs_v(old(v)@).push((name@, id)),
{
    let ghost before = v@;
    v.push((name.clone(), id));
    assert(pairs_v(v@) =~= pairs_v(before).push((name@, id)));
}

impl Resolver {
    fn add_binding(&mut self, name: &String, kind: BindingKind, decl_span: Span, arity: Option<usize>) -> (id: usize)
        ensures
            rv(*final(self)) == add_binding(rv(*old(self)), name@, kind, decl_span, arity),
            id == old(self).table.bindings@.len(),
            final(self).stack == old(self).stack,
    {
        let id = self.table.bindings.len();
        let ghost b0 = self.table.bindings@;
        let ghost o0 = self.table.occurrences@;
        self.table.bindings.push(Binding { name: name.clone(), kind, decl_span, arity });
        self.table.occurrences.push(
            Occurrence { span: decl_span, name: name.clone(), binding: Some(id), is_decl: true },
        );
        assert(bindings_v(self.table.bindings@) =~= bindings_v(b0).push(
            BindingV { name: name@, kind, decl_span, arity },
        ));
        assert(occs_v(self.table.occurrences@) =~= occs_v(o0).push(
            OccV { span: decl_span, name: name@, binding: Some(id), is_decl: true },
        ));
        id
    }

    fn frame_has(&self, name: &String) -> (b: bool)
        requires
            self.stack@.len() > 0,
        ensures
            b == top_has(rv(*self), name@),
    {
        let f = &self.stack[self.stack.len() - 1];
        assert(rv(*self).stack.last() == frame_v(*f));
        let b1 = contains_name(&f.fns, name);
        let b2 = contains_name(&f.seq, name);
        proof {
            let fv = frame_v(*f);
            assert(fv.fns == pairs_v(f.fns@));
            assert(fv.seq == pairs_v(f.seq@));
            if b1 {
                let i = choose|i: int| 0 <= i < pairs_v(f.fns@).len() && (#[trigger] pairs_v(f.fns@)[i]).0 == name@;
                assert(fv.fns[i].0 == name@);
            }
            if b2 {
                let i = choose|i: int| 0 <= i < pairs_v(f.seq@).len() && (#[trigger] pairs_v(f.seq@)[i]).0 == name@;
                assert(fv.seq[i].0 == name@);
            }
        }
        b1 || b2
    }

    fn redef(&mut self, name: &String, span: Span)
        ensures
            rv(*final(self)) == (RS {
                diags: rv(*old(self)).diags.push(error_v(span, DiagKind::Redefinition, msg_redefined(name@))),
                ..rv(*old(self))
            }),
            final(self).stack == old(self).stack,
            final(self).table.bindings == old(self).table.bindings,
    {
        let msg = concat3("`", name.as_str(), "` is already defined in this scope");
        let d = Diagnostic::error(span, DiagKind::Redefinition, msg);
        let ghost d0 = self.table.diagnostics@;
        self.table.diagnostics.push(d);
        assert(diags_view(self.table.diagnostics@) =~= diags_view(d0).push(d@));
    }

    fn resolve_name(&self, name: &String) -> (r: Option<usize>)
        ensures
            r == lookup(rv(*self).stack, name@),
    {
        let mut k: usize = self.stack.len();
        let ghost full = rv(*self).stack;
        assert(full.subrange(0, k as int) =~= full);
        while k > 0
            invariant
                k <= self.stack@.len(),
                full == rv(*self).stack,
                lookup(full.subrange(0, k as int), name@) == lookup(full, name@),
            decreases k,
        {
            let ghost s = full.subrange(0, k as int);
            let f = &self.stack[k - 1];
            assert(s.last() == frame_v(*f));
            match find_last_exec(&f.seq, name) {
                Some(id) => {
                    return Some(id);
                },
                None => {},
            }
            match find_first_exec(&f.fns, name) {
                Some(id) => {
                    return Some(id);
                },
                None => {},
            }
            assert(s.drop_last() =~= full.subrange(0, k - 1));
            k = k - 1;
        }
        None
    }

    fn push_seq(&mut self, name: &String, id: usize)
        requires
            old(self).stack@.len() > 0,
        ensures
            ({
                let r = rv(*old(self));
                let f = r.stack.last();
                rv(*final(self)) == update_top(r, FrameV { fns: f.fns, seq: f.seq.push((name@, id)) })
            }),
            final(self).table == old(self).table,
            final(self).stack@.len() == old(self).stack@.len(),
    {
        let ghost st0 = self.stack@;
        let mut f = self.stack.pop().unwrap();
        push_pair(&mut f.seq, name, id);
        let ghost fv = frame_v(f);
        self.stack.push(f);
        assert(frames_v(self.stack@) =~= frames_v(st0).update(st0.len() - 1, fv));
    }

    fn push_fn(&mut self, name: &String, id: usize)
        requires
            old(self).stack@.len() > 0,
        ensures
            ({
                let r = rv(*old(self));
                let f = r.stack.last();
                rv(*final(self)) == update_top(r, FrameV { fns: f.fns.push((name@, id)), seq: f.seq })
            }),
            final(self).table == old(self).table,
            final(self).stack@.len() == old(self).stack@.len(),
    {
        let ghost st0 = self.stack@;
        let mut f = self.stack.pop().unwrap();
        push_pair(&mut f.fns, name, id);
        let ghost fv = frame_v(f);
        self.stack.push(f);
        assert(frames_v(self.stack@) =~= frames_v(st0).update(st0.len() - 1, fv));
    }
}

impl Resolver {
    fn declare_seq(&mut self, name: &String, kind: BindingKind, span: Span)
        requires
            old(self).stack@.len() > 0,
        ensures
            rv(*final(self)) == declare_seq(rv(*old(self)), name@, kind, span),
            final(self).stack@.len() == old(self).stack@.len(),
    {
        if self.frame_has(name) {
            self.redef(name, span);
        }
        let id = self.add_binding(name, kind, span, None);
        self.push_seq(name, id);
    }

    fn declare_fn(&mut self, name: &String, span: Span, arity: usize)
        requires
            old(self).stack@.len() > 0,
        ensures
            rv(*final(self)) == declare_fn(rv(*old(self)), name@, span, arity),
            final(self).stack@.len() == old(self).stack@.len(),
    {
        if self.frame_has(name) {
            self.redef(name, span);
        }
        let id = self.add_binding(name, BindingKind::Fn, span, Some(arity));
        self.push_fn(name, id);
    }

    fn push_frame(&mut self)
        ensures
            rv(*final(self)) == push_frame(rv(*old(self))),
            final(self).stack@.len() == old(self).stack@.len() + 1,
    {
        let ghost st0 = self.stack@;
        self.stack.push(Frame { fns: Vec::new(), seq: Vec::new() });
        assert(pairs_v(Seq::<(String, usize)>::empty()) =~= Seq::empty());
        assert(frames_v(self.stack@) =~= frames_v(st0).push(FrameV { fns: seq![], seq: seq![] }));
    }

    fn pop_frame(&mut self)
        requires
            old(self).stack@.len() > 0,
        ensures
            rv(*final(self)) == pop_frame(rv(*old(self))),
            final(self).stack@.len() == old(self).stack@.len() - 1,
    {
        let ghost st0 = self.stack@;
        self.stack.pop();
        assert(frames_v(self.stack@) =~= frames_v(st0).drop_last());
    }

    fn declare_params(&mut self, params: &Vec<Ident>)
        requires
            old(self).stack@.len() > 0,
        ensures
            rv(*final(self)) == r_params(rv(*old(self)), idents_v(params@)),
            final(self).stack@.len() == old(self).stack@.len(),
    {
        let ghost ps = idents_v(params@);
        let ghost r0 = rv(*self);
        let ghost n = ps.len();
        let ghost len0 = self.stack@.len();
        let mut i: usize = 0;
        assert(ps.subrange(0, n as int) =~= ps);
        while i < params.len()
            invariant
                i <= params@.len() == n,
                ps == idents_v(params@),
                self.stack@.len() == len0 > 0,
                r_params(rv(*self), ps.subrange(i as int, n as int)) == r_params(r0, ps),
            decreases params@.len() - i,
        {
            let p = &params[i];
            assert(ps.subrange(i as int, n as int)[0] == ident_v(*p));
            assert(ps.subrange(i as int, n as int).drop_first() =~= ps.subrange(i + 1, n as int));
            self.declare_seq(&p.name, BindingKind::Param, p.span);
            i = i + 1;
        }
    }

    fn hoist(&mut self, stmts: &Vec<Stmt>)
        requires
            old(self).stack@.len() > 0,
        ensures
            rv(*final(self)) == r_hoist(rv(*old(self)), stmts_v(stmts@)),
            final(self).stack@.len() == old(self).stack@.len(),
    {
        let ghost ss = stmts_v(stmts@);
        let ghost r0 = rv(*self);
        let ghost len0 = self.stack@.len();
        proof {
            lemma_stmts_v(stmts@);
        }
        let n = stmts.len();
        let mut i: usize = 0;
        assert(ss.subrange(0, n as int) =~= ss);
        while i < n
            invariant
                i <= n == stmts@.len() == ss.len(),
                ss == stmts_v(stmts@),
                forall|j: int| 0 <= j < n ==> #[trigger] ss[j] == stmt_v(stmts@[j]),
                self.stack@.len() == len0 > 0,
                r_hoist(rv(*self), ss.subrange(i as int, n as int)) == r_hoist(r0, ss),
            decreases n - i,
        {
            assert(ss.subrange(i as int, n as int)[0] == stmt_v(stmts@[i as int]));
            assert(ss.subrange(i as int, n as int).drop_first() =~= ss.subrange(i + 1, n as int));
            if let StmtKind::Fn(f) = &stmts[i].kind {
                self.declare_fn(&f.name.name, f.name.span, f.params.len());
            }
            i = i + 1;
        }
    }

    /// Resolve a block scope; `params` seed the scope (function bodies).
    fn scope_block(&mut self, b: &Block, params: &Vec<Ident>)
        ensures
            rv(*final(self)) == r_block(rv(*old(self)), block_v(*b), idents_v(params@)),
            final(self).stack@.len() == old(self).stack@.len(),
        decreases b,
    {
        self.push_frame();
        self.declare_params(params);
        self.hoist(&b.stmts);
        let ghost ss = stmts_v(b.stmts@);
        let ghost r1 = rv(*self);
        let ghost len0 = self.stack@.len();
        proof {
            lemma_stmts_v(b.stmts@);
        }
        let n = b.stmts.len();
        let mut i: usize = 0;
        assert(ss.subrange(0, n as int) =~= ss);
        while i < n
            invariant
                i <= n == b.stmts@.len() == ss.len(),
                ss == stmts_v(b.stmts@),
                forall|j: int| 0 <= j < n ==> #[trigger] ss[j] == stmt_v(b.stmts@[j]),
                self.stack@.len() == len0 > 0,
                r_stmts(rv(*self), ss.subrange(i as int, n as int)) == r_stmts(r1, ss),
            decreases n - i,
        {
            assert(ss.subrange(i as int, n as int)[0] == stmt_v(b.stmts@[i as int]));
            assert(ss.subrange(i as int, n as int).subrange(1, n - i) =~= ss.subrange(i + 1, n as int));
            self.resolve_stmt(&b.stmts[i]);
            i = i + 1;
        }
        if let Some(t) = &b.tail {
            self.resolve_expr(t);
        }
        self.pop_frame();
    }

    fn resolve_stmt(&mut self, s: &Stmt)
        requires
            old(self).stack@.len() > 0,
        ensures
            rv(*final(self)) == r_stmt(rv(*old(self)), stmt_v(*s)),
            final(self).stack@.len() == old(self).stack@.len(),
        decreases s,
    {
        match &s.kind {
            StmtKind::Let(l) => {
                self.resolve_expr(&l.value);
                self.declare_seq(&l.name.name, BindingKind::Let, l.name.span);
            },
            StmtKind::Fn(f) => {
                self.scope_block(&f.body, &f.params);
            },
            StmtKind::Expr(e) => self.resolve_expr(e),
        }
    }

    fn resolve_exprs(&mut self, es: &Vec<Expr>)
        ensures
            rv(*final(self)) == r_exprs(rv(*old(self)), exprs_v(es@)),
            final(self).stack@.len() == old(self).stack@.len(),
        decreases es,
    {
        let ghost xs = exprs_v(es@);
        let ghost r0 = rv(*self);
        let ghost len0 = self.stack@.len();
        proof {
            lemma_exprs_v(es@);
        }
        let n = es.len();
        let mut i: usize = 0;
        assert(xs.subrange(0, n as int) =~= xs);
        while i < n
            invariant
                i <= n == es@.len() == xs.len(),
                xs == exprs_v(es@),
                forall|j: int| 0 <= j < n ==> #[trigger] xs[j] == expr_v(es@[j]),
                self.stack@.len() == len0,
                r_exprs(rv(*self), xs.subrange(i as int, n as int)) == r_exprs(r0, xs),
            decreases n - i,
        {
            assert(xs.subrange(i as int, n as int)[0] == expr_v(es@[i as int]));
            assert(xs.subrange(i as int, n as int).subrange(1, n - i) =~= xs.subrange(i + 1, n as int));
            self.resolve_expr(&es[i]);
            i = i + 1;
        }
    }

    fn resolve_expr(&mut self, expr: &Expr)
        ensures
            rv(*final(self)) == r_expr(rv(*old(self)), expr_v(*expr)),
            final(self).stack@.len() == old(self).stack@.len(),
        decreases expr,
    {
        match &expr.kind {
            ExprKind::Int(_) | ExprKind::Bool(_) | ExprKind::Error => {},
            ExprKind::Name(name) => {
                let binding = self.resolve_name(name);
                if binding.is_none() {
                    let msg = concat3("cannot find `", name.as_str(), "` in this scope");
                    let d = Diagnostic::error(expr.span, DiagKind::UnresolvedName, msg);
                    let ghost d0 = self.table.diagnostics@;
                    self.table.diagnostics.push(d);
                    assert(diags_view(self.table.diagnostics@) =~= diags_view(d0).push(d@));
                }
                let ghost o0 = self.table.occurrences@;
                let o = Occurrence { span: expr.span, name: name.clone(), binding, is_decl: false };
                self.table.occurrences.push(o);
                assert(occs_v(self.table.occurrences@) =~= occs_v(o0).push(occ_v(o)));
            },
            ExprKind::Unary { expr: inner, .. } => self.resolve_expr(inner),
            ExprKind::Binary { lhs, rhs, .. } => {
                self.resolve_expr(lhs);
                self.resolve_expr(rhs);
            },
            ExprKind::Call { callee, args } => {
                self.resolve_expr(callee);
                self.resolve_exprs(args);
            },
            ExprKind::If { cond, then_block, else_block } => {
                self.resolve_expr(cond);
                let none: Vec<Ident> = Vec::new();
                assert(idents_v(none@) =~= Seq::empty());
                self.scope_block(then_block, &none);
                if let Some(b) = else_block {
                    self.scope_block(b, &none);
                }
            },
            ExprKind::Block(block) => {
                let none: Vec<Ident> = Vec::new();
                assert(idents_v(none@) =~= Seq::empty());
                self.scope_block(block, &none);
            },
            ExprKind::Paren(inner) => self.resolve_expr(inner),
        }
    }
}

/// Resolve a whole program into a symbol table: the bindings in declaration
/// order, every occurrence sorted by position, and the diagnostics in their
/// reporting order.
pub fn resolve(program: &Program) -> (t: SymbolTable)
    ensures
        bindings_v(t.bindings@) == r_program(stmts_v(program@)).bindings,
        occs_v(t.occurrences@).to_multiset() == r_program(stmts_v(program@)).occs.to_multiset(),
        sorted_by_key(t.occurrences@),
        diags_view(t.diagnostics@).to_multiset() == r_program(stmts_v(program@)).diags.to_multiset(),
        sorted_by_key(t.diagnostics@),
        bindings_in_range(t),
        occs_v(t.occurrences@) == sel_sort(r_program(stmts_v(program@)).occs, occ_rel()),
        diags_view(t.diagnostics@) == sel_sort(r_program(stmts_v(program@)).diags, diag_rel()),
{
    let mut r = Resolver { table: SymbolTable::default(), stack: Vec::new() };
    proof {
        assert(bindings_v(r.table.bindings@) =~= Seq::empty());
        assert(occs_v(r.table.occurrences@) =~= Seq::empty());
        assert(diags_view(r.table.diagnostics@) =~= Seq::empty());
        assert(frames_v(r.stack@) =~= Seq::empty());
        assert(rv(r) == empty_rs());
    }
    r.push_frame();
    r.hoist(program);
    let ghost ss = stmts_v(program@);
    let ghost r1 = rv(r);
    proof {
        lemma_stmts_v(program@);
    }
    let n = program.len();
    let mut i: usize = 0;
    assert(ss.subrange(0, n as int) =~= ss);
    while i < n
        invariant
            i <= n == program@.len() == ss.len(),
            ss == stmts_v(program@),
            forall|j: int| 0 <= j < n ==> #[trigger] ss[j] == stmt_v(program@[j]),
            r.stack@.len() == 1,
            r_stmts(rv(r), ss.subrange(i as int, n as int)) == r_stmts(r1, ss),
        decreases n - i,
    {
        assert(ss.subrange(i as int, n as int)[0] == stmt_v(program@[i as int]));
        assert(ss.subrange(i as int, n as int).subrange(1, n - i) =~= ss.subrange(i + 1, n as int));
        r.resolve_stmt(&program[i]);
        i = i + 1;
    }
    assert(ss.subrange(n as int, n as int) =~= Seq::<StmtV>::empty());
    r.pop_frame();
    let ghost rend = rv(r);
    assert(rend == r_program(stmts_v(program@)));
    let Resolver { table, stack: _ } = r;
    let SymbolTable { bindings, occurrences, diagnostics } = table;
    let ghost occ0 = occurrences@;
    let ghost diag0 = diagnostics@;
    let occurrences = sort_by_key(occurrences);
    let diagnostics = sorted(diagnostics);
    proof {
        lemma_map_multiset(occurrences@, occ0, |o: Occurrence| occ_v(o));
        lemma_map_multiset(diagnostics@, diag0, |d: Diagnostic| d@);
        lemma_sel_sort_map(occ0, key_rel::<Occurrence>(), occ_rel(), |o: Occurrence| occ_v(o));
        assert(occ0.map_values(|o: Occurrence| occ_v(o)) == occs_v(occ0));
    }
    let t = SymbolTable { bindings, occurrences, diagnostics };
    proof {
        broadcast use vstd::seq_lib::group_to_multiset_ensures;

        let rp = r_program(stmts_v(program@));
        lemma_program_ids(stmts_v(program@));
        assert(t.bindings@.len() == rp.bindings.len()) by {
            assert(bindings_v(t.bindings@).len() == t.bindings@.len());
        }
        assert forall|i: int| 0 <= i < t.occurrences@.len() implies ((
        #[trigger] t.occurrences@[i]).binding matches Some(id) ==> id < t.bindings@.len()) by {
            let ov = occs_v(t.occurrences@);
            assert(ov[i] == occ_v(t.occurrences@[i]));
            assert(ov.contains(ov[i]));
            assert(ov.to_multiset().count(ov[i]) > 0);
            assert(rp.occs.contains(ov[i]));
            let j = choose|j: int| 0 <= j < rp.occs.len() && rp.occs[j] == ov[i];
            assert(rp.occs[j].binding == t.occurrences@[i].binding);
        }
    }
    t
}

/// The order occurrences are kept in, as a relation on their views.
pub open spec fn occ_rel() -> spec_fn(OccV, OccV) -> bool {
    |a: OccV, b: OccV| occ_key_le(a, b)
}

/// Every occurrence's binding number names one of the table's bindings.
pub open spec fn bindings_in_range(t: SymbolTable) -> bool {
    forall|i: int|
        0 <= i < t.occurrences@.len() ==> ((#[trigger] t.occurrences@[i]).binding matches Some(id) ==> id
            < t.bindings@.len())
}

/// What identifies a declaring occurrence: whether it declares, its binding
/// and its span.
pub open spec fn decl_key(o: OccV) -> (bool, Option<usize>, Span) {
    (o.is_decl, o.binding, o.span)
}

/// A symbol table holding, in any order, the occurrences that resolving a
/// program records declares each binding by exactly one occurrence, at its
/// declared span; and a binding has an arity exactly when it is a function.
pub proof fn law_table_declares_once(p: Seq<StmtV>, t: SymbolTable)
    requires
        bindings_v(t.bindings@) == r_program(p).bindings,
        occs_v(t.occurrences@).to_multiset() == r_program(p).occs.to_multiset(),
        t.bindings@.len() <= usize::MAX,
    ensures
        forall|i: int|
            #![trigger t.bindings@[i]]
            0 <= i < t.bindings@.len() ==> exists|k: int|
                0 <= k < t.occurrences@.len() && (#[trigger] t.occurrences@[k]).is_decl
                    && t.occurrences@[k].binding == Some(i as usize) && t.occurrences@[k].span
                    == t.bindings@[i].decl_span,
        forall|k1: int, k2: int|
            0 <= k1 < t.occurrences@.len() && 0 <= k2 < t.occurrences@.len() && k1 != k2
                && (#[trigger] t.occurrences@[k1]).is_decl && (#[trigger] t.occurrences@[k2]).is_decl
                ==> t.occurrences@[k1].binding != t.occurrences@[k2].binding,
        forall|i: int|
            0 <= i < t.bindings@.len() ==> ((#[trigger] t.bindings@[i]).arity is Some <==> t.bindings@[i].kind
                == BindingKind::Fn),
{
    broadcast use vstd::seq_lib::group_to_multiset_ensures;
    let r = r_program(p);
    let ro = r.occs;
    let srt = occs_v(t.occurrences@);
    let occ = t.occurrences@;
    crate::resolve_spec::law_program_declares_once(p);
    let f = |o: OccV| decl_key(o);
    crate::sort::lemma_map_multiset(srt, ro, f);
    let ms = srt.map_values(f);
    let mr = ro.map_values(f);
    assert forall|i: int| 0 <= i < t.bindings@.len() implies ((#[trigger] t.bindings@[i]).arity is Some
        <==> t.bindings@[i].kind == BindingKind::Fn) by {
        assert(r.bindings[i] == binding_v(t.bindings@[i]));
    }
    // The key of binding `i`'s declaration occurs once among the recorded
    // occurrences, so once in the table.
    assert forall|i: int| #![trigger t.bindings@[i]] 0 <= i < t.bindings@.len() implies exists|k: int|
        0 <= k < occ.len() && (#[trigger] occ[k]).is_decl && occ[k].binding == Some(i as usize)
            && occ[k].span == t.bindings@[i].decl_span by {
        assert(r.bindings[i] == binding_v(t.bindings@[i]));
        assert(r.bindings[i].decl_span == t.bindings@[i].decl_span);
        let kr = choose|k: int|
            0 <= k < ro.len() && (#[trigger] ro[k]).is_decl && ro[k].binding == Some(i as usize) && ro[k].span
                == r.bindings[i].decl_span;
        let v = f(ro[kr]);
        assert(mr[kr] == v);
        assert(mr.contains(v));
        assert(mr.to_multiset().count(v) > 0);
        assert(ms.to_multiset().count(v) > 0);
        assert(ms.contains(v));
        let ks = choose|k: int| 0 <= k < ms.len() && ms[k] == v;
        assert(srt[ks] == occ_v(occ[ks]));
    }
    assert forall|k1: int, k2: int|
        0 <= k1 < occ.len() && 0 <= k2 < occ.len() && k1 != k2 && (#[trigger] occ[k1]).is_decl
            && (#[trigger] occ[k2]).is_decl implies occ[k1].binding != occ[k2].binding by {
        assert(srt[k1] == occ_v(occ[k1]));
        assert(srt[k2] == occ_v(occ[k2]));
        if occ[k1].binding == occ[k2].binding {
            let v1 = f(srt[k1]);
            let v2 = f(srt[k2]);
            assert(ms[k1] == v1 && ms[k2] == v2);
            assert(ms.contains(v1) && ms.contains(v2));
            assert(ms.to_multiset().count(v1) > 0 && ms.to_multiset().count(v2) > 0);
            assert(mr.to_multiset().count(v1) > 0 && mr.to_multiset().count(v2) > 0);
            assert(mr.contains(v1) && mr.contains(v2));
            let j1 = choose|j: int| 0 <= j < mr.len() && mr[j] == v1;
            let j2 = choose|j: int| 0 <= j < mr.len() && mr[j] == v2;
            assert(ro[j1].is_decl && ro[j2].is_decl && ro[j1].binding == ro[j2].binding);
            assert(j1 == j2);
            assert(v1 == v2);
            assert forall|j: int| 0 <= j < mr.len() && j != j1 implies mr[j] != v1 by {
                if mr[j] == v1 {
                    assert(ro[j].is_decl && ro[j].binding == ro[j1].binding);
                }
            }
            crate::sort::lemma_count_unique(mr, v1, j1);
            if k1 < k2 {
                crate::sort::lemma_count_two(ms, k1, k2);
            } else {
                crate::sort::lemma_count_two(ms, k2, k1);
            }
        }
    }
}

} // verus!
