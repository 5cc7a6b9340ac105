//! IDE queries answered against an `Analysis`.
//!
//! All three queries work off the resolved occurrence list in the symbol table:
//! go to definition follows an occurrence to its binding, find references
//! gathers every occurrence of that binding, and hover reads the binding's
//! metadata.

use vstd::prelude::*;
use crate::incremental::Analysis;
use crate::resolver::{BindingKind, Occurrence, SymbolTable};
use crate::span::Span;

verus! {

#[derive(Clone, Debug, PartialEq, Eq)]
pub struct Definition {
    pub span: Span,
    pub name: String,
    pub kind: BindingKind,
}

#[derive(Clone, Copy, Debug, PartialEq, Eq, Structural)]
pub struct Reference {
    pub span: Span,
    pub is_decl: bool,
}

#[derive(Clone, Debug, PartialEq, Eq)]
pub struct Hover {
    pub name: String,
    pub kind: BindingKind,
    pub decl_span: Span,
    pub arity: Option<usize>,
}

/// The first occurrence from index `i` on whose span contains `pos` (or, when
/// `touch`, touches it).
pub open spec fn find_occ(s: Seq<Occurrence>, pos: u32, touch: bool, i: int) -> Option<int>
    decreases s.len() - i,
{
    if i < 0 || i >= s.len() {
        None
    } else if (if touch {
        s[i].span.spec_touches(pos)
    } else {
        s[i].span.spec_contains(pos)
    }) {
        Some(i)
    } else {
        find_occ(s, pos, touch, i + 1)
    }
}

/// The occurrence at `pos`: the first one that strictly contains the position,
/// else the first one that merely touches it at an edge.
pub open spec fn occurrence_index(s: Seq<Occurrence>, pos: u32) -> Option<int> {
    match find_occ(s, pos, false, 0) {
        Some(i) => Some(i),
        None => find_occ(s, pos, true, 0),
    }
}

/// The binding of the occurrence at `pos`, if there is one and it resolved.
pub open spec fn target_binding(t: SymbolTable, pos: u32) -> Option<usize> {
    match occurrence_index(t.occurrences@, pos) {
        Some(i) => t.occurrences@[i].binding,
        None => None,
    }
}

/// The references among `s` to binding `id`, in order.
pub open spec fn refs_of(s: Seq<Occurrence>, id: usize) -> Seq<Reference>
    decreases s.len(),
{
    if s.len() == 0 {
        seq![]
    } else {
        let rest = refs_of(s.drop_last(), id);
        if s.last().binding == Some(id) {
            rest.push(Reference { span: s.last().span, is_decl: s.last().is_decl })
        } else {
            rest
        }
    }
}

/// Sorted by position: by span start, then span end.
pub open spec fn refs_sorted(r: Seq<Reference>) -> bool {
    forall|i: int, j: int|
        0 <= i < j < r.len() ==> (#[trigger] r[i]).span.start < (#[trigger] r[j]).span.start || (
        r[i].span.start == r[j].span.start && r[i].span.end <= r[j].span.end)
}

fn find_occ_exec(s: &Vec<Occurrence>, pos: u32, touch: bool) -> (r: Option<usize>)
    ensures
        match r {
            Some(i) => find_occ(s@, pos, touch, 0) == Some(i as int),
            None => find_occ(s@, pos, touch, 0) is None,
        },
{
    let mut i: usize = 0;
    while i < s.len()
        invariant
            i <= s@.len(),
            find_occ(s@, pos, touch, i as int) == find_occ(s@, pos, touch, 0),
        decreases s@.len() - i,
    {
        let hit = if touch {
            s[i].span.touches(pos)
        } else {
            s[i].span.contains(pos)
        };
        if hit {
            return Some(i);
        }
        i = i + 1;
    }
    None
}

/// Find the identifier occurrence at `pos`, preferring one that strictly
/// contains the position over one it merely touches at an edge.
fn occurrence_at(t: &SymbolTable, pos: u32) -> (r: Option<usize>)
    ensures
        match r {
            Some(i) => occurrence_index(t.occurrences@, pos) == Some(i as int) && i < t.occurrences@.len(),
            None => occurrence_index(t.occurrences@, pos) is None,
        },
{
    proof {
        lemma_find_occ_range(t.occurrences@, pos, false, 0);
        lemma_find_occ_range(t.occurrences@, pos, true, 0);
    }
    match find_occ_exec(&t.occurrences, pos, false) {
        Some(i) => Some(i),
        None => find_occ_exec(&t.occurrences, pos, true),
    }
}

pub proof fn lemma_occurrence_index_range(s: Seq<Occurrence>, pos: u32)
    ensures
        occurrence_index(s, pos) matches Some(j) ==> 0 <= j < s.len(),
{
    lemma_find_occ_range(s, pos, false, 0);
    lemma_find_occ_range(s, pos, true, 0);
}

proof fn lemma_find_occ_range(s: Seq<Occurrence>, pos: u32, touch: bool, i: int)
    ensures
        find_occ(s, pos, touch, i) matches Some(j) ==> 0 <= j < s.len() && (if touch {
            s[j].span.spec_touches(pos)
        } else {
            s[j].span.spec_contains(pos)
        }),
    decreases s.len() - i,
{
    if 0 <= i < s.len() {
        lemma_find_occ_range(s, pos, touch, i + 1);
    }
}

/// Every occurrence bound to `id` shows up in `refs_of(s, id)`.
pub proof fn lemma_refs_of_has(s: Seq<Occurrence>, id: usize, i: int)
    requires
        0 <= i < s.len(),
        s[i].binding == Some(id),
    ensures
        refs_of(s, id).contains(Reference { span: s[i].span, is_decl: s[i].is_decl }),
    decreases s.len(),
{
    let r = Reference { span: s[i].span, is_decl: s[i].is_decl };
    let rest = refs_of(s.drop_last(), id);
    if i == s.len() - 1 {
        assert(refs_of(s, id) == rest.push(r));
        assert(refs_of(s, id)[rest.len() as int] == r);
    } else {
        lemma_refs_of_has(s.drop_last(), id, i);
        let k = choose|k: int| 0 <= k < rest.len() && rest[k] == r;
        if s.last().binding == Some(id) {
            assert(refs_of(s, id)[k] == r);
        }
    }
}

proof fn lemma_find_only(s: Seq<Occurrence>, pos: u32, i: int, k: int)
    requires
        0 <= i <= k < s.len(),
        s[k].span.spec_contains(pos),
        forall|j: int| i <= j < s.len() && j != k ==> !(#[trigger] s[j]).span.spec_contains(pos),
    ensures
        find_occ(s, pos, false, i) == Some(k),
    decreases k - i,
{
    if i < k {
        lemma_find_only(s, pos, i + 1, k);
    }
}

/// Where the occurrences have non-empty spans that do not overlap, the
/// position where an occurrence starts leads to its binding: go to
/// definition there answers with that binding's declaration.
pub proof fn law_definition_at_occurrence(t: SymbolTable, k: int)
    requires
        0 <= k < t.occurrences@.len(),
        forall|i: int| 0 <= i < t.occurrences@.len() ==> (#[trigger] t.occurrences@[i]).span.start
            < t.occurrences@[i].span.end,
        forall|i: int, j: int|
            0 <= i < t.occurrences@.len() && 0 <= j < t.occurrences@.len() && i != j ==> (
            #[trigger] t.occurrences@[i]).span.end <= (#[trigger] t.occurrences@[j]).span.start
                || t.occurrences@[j].span.end <= t.occurrences@[i].span.start,
    ensures
        target_binding(t, t.occurrences@[k].span.start) == t.occurrences@[k].binding,
{
    let s = t.occurrences@;
    let pos = s[k].span.start;
    assert forall|j: int| 0 <= j < s.len() && j != k implies !(#[trigger] s[j]).span.spec_contains(pos) by {
        assert(s[j].span.end <= s[k].span.start || s[k].span.end <= s[j].span.start);
    }
    lemma_find_only(s, pos, 0, k);
}

/// Where no two declaring occurrences share a binding, at most one of the
/// references to a binding is a declaration, and each declaring reference
/// comes from a declaring occurrence of it.
proof fn lemma_refs_one_decl(s: Seq<Occurrence>, id: usize)
    requires
        forall|k1: int, k2: int|
            0 <= k1 < s.len() && 0 <= k2 < s.len() && k1 != k2 && (#[trigger] s[k1]).is_decl
                && (#[trigger] s[k2]).is_decl ==> s[k1].binding != s[k2].binding,
    ensures
        forall|i: int, j: int|
            0 <= i < refs_of(s, id).len() && 0 <= j < refs_of(s, id).len() && (#[trigger] refs_of(s, id)[i]).is_decl
                && (#[trigger] refs_of(s, id)[j]).is_decl ==> i == j,
        forall|i: int|
            0 <= i < refs_of(s, id).len() && (#[trigger] refs_of(s, id)[i]).is_decl ==> exists|k: int|
                0 <= k < s.len() && (#[trigger] s[k]).is_decl && s[k].binding == Some(id),
    decreases s.len(),
{
    if s.len() > 0 {
        let d = s.drop_last();
        let l = s.len() - 1;
        assert forall|k1: int, k2: int|
            0 <= k1 < d.len() && 0 <= k2 < d.len() && k1 != k2 && (#[trigger] d[k1]).is_decl
                && (#[trigger] d[k2]).is_decl implies d[k1].binding != d[k2].binding by {
            assert(d[k1] == s[k1] && d[k2] == s[k2]);
        }
        lemma_refs_one_decl(d, id);
        let rd = refs_of(d, id);
        let rs = refs_of(s, id);
        assert forall|i: int|
            0 <= i < rs.len() && (#[trigger] rs[i]).is_decl implies exists|k: int|
                0 <= k < s.len() && (#[trigger] s[k]).is_decl && s[k].binding == Some(id) by {
            if i < rd.len() {
                assert(rs[i] == rd[i]);
                let k = choose|k: int| 0 <= k < d.len() && (#[trigger] d[k]).is_decl && d[k].binding == Some(id);
                assert(s[k] == d[k]);
            } else {
                assert(s[l].is_decl && s[l].binding == Some(id));
            }
        }
        assert forall|i: int, j: int|
            0 <= i < rs.len() && 0 <= j < rs.len() && (#[trigger] rs[i]).is_decl && (#[trigger] rs[j]).is_decl
                implies i == j by {
            if i < rd.len() && j < rd.len() {
                assert(rs[i] == rd[i] && rs[j] == rd[j]);
            } else if i != j {
                let a = if i < rd.len() { i } else { j };
                assert(rs[a] == rd[a]);
                let k = choose|k: int| 0 <= k < d.len() && (#[trigger] d[k]).is_decl && d[k].binding == Some(id);
                assert(s[k] == d[k]);
                assert(s[l].is_decl && s[l].binding == Some(id));
            }
        }
    }
}

/// The references found at a resolved identifier are not empty, and exactly
/// one of them is the declaration, at the span go to definition and hover
/// give; where nothing resolves there, all three queries answer nothing.
pub proof fn law_references_hold_one_declaration(a: Analysis, pos: u32)
    requires
        a.well_formed(),
        a.spec_symbols().bindings@.len() <= usize::MAX,
    ensures
        target_binding(a.spec_symbols(), pos) matches Some(id) ==> {
            let refs = refs_of(a.spec_symbols().occurrences@, id);
            &&& id < a.spec_symbols().bindings@.len()
            &&& refs.len() > 0
            &&& exists|i: int|
                0 <= i < refs.len() && (#[trigger] refs[i]).is_decl && refs[i].span
                    == a.spec_symbols().bindings@[id as int].decl_span
            &&& forall|i: int, j: int|
                0 <= i < refs.len() && 0 <= j < refs.len() && (#[trigger] refs[i]).is_decl
                    && (#[trigger] refs[j]).is_decl ==> i == j
        },
{
    let t = a.spec_symbols();
    let occ = t.occurrences@;
    crate::incremental::lemma_analysis_facts(a);
    let p = crate::parse_spec::group_stmts(a.spec_groups());
    crate::sort::lemma_sel_sort_perm(crate::resolve_spec::r_program(p).occs, crate::resolver::occ_rel());
    crate::resolver::law_table_declares_once(p, t);
    lemma_occurrence_index_range(occ, pos);
    if let Some(id) = target_binding(t, pos) {
        let i0 = occurrence_index(occ, pos).unwrap();
        assert(occ[i0].binding == Some(id));
        assert(id < t.bindings@.len());
        assert(t.bindings@[id as int] == t.bindings@[id as int]);
        let k = choose|k: int|
            0 <= k < occ.len() && (#[trigger] occ[k]).is_decl && occ[k].binding == Some(id as int as usize)
                && occ[k].span == t.bindings@[id as int].decl_span;
        lemma_refs_of_has(occ, id, k);
        let r = Reference { span: occ[k].span, is_decl: true };
        let i = choose|i: int| 0 <= i < refs_of(occ, id).len() && refs_of(occ, id)[i] == r;
        lemma_refs_one_decl(occ, id);
    }
}

/// Find references includes the reference under the cursor: where the
/// identifier at `pos` resolved (the case in which go to definition and hover
/// answer), one of the references found there holds or touches `pos`.
pub proof fn law_queries_agree_at_cursor(t: SymbolTable, pos: u32)
    ensures
        target_binding(t, pos) matches Some(id) ==> exists|k: int|
            0 <= k < refs_of(t.occurrences@, id).len() && {
                let r = #[trigger] refs_of(t.occurrences@, id)[k];
                r.span.spec_contains(pos) || r.span.spec_touches(pos)
            },
{
    let s = t.occurrences@;
    lemma_find_occ_range(s, pos, false, 0);
    lemma_find_occ_range(s, pos, true, 0);
    if let Some(id) = target_binding(t, pos) {
        let i = occurrence_index(s, pos).unwrap();
        lemma_refs_of_has(s, id, i);
        let r = Reference { span: s[i].span, is_decl: s[i].is_decl };
        let k = choose|k: int| 0 <= k < refs_of(s, id).len() && refs_of(s, id)[k] == r;
        assert(refs_of(s, id)[k] == r);
    }
}

} // verus!

verus! {

impl Analysis {
    /// Resolve the definition of the symbol at `pos`.
    pub fn go_to_definition(&self, pos: u32) -> (r: Option<Definition>)
        ensures
            match target_binding(self.spec_symbols(), pos) {
                Some(id) => r is Some && id < self.spec_symbols().bindings@.len() && r.unwrap().span
                    == self.spec_symbols().bindings@[id as int].decl_span && r.unwrap().name@
                    == self.spec_symbols().bindings@[id as int].name@ && r.unwrap().kind
                    == self.spec_symbols().bindings@[id as int].kind,
                None => r is None,
            },
    {
        let t = self.symbols();
        match occurrence_at(t, pos) {
            None => None,
            Some(i) => match t.occurrences[i].binding {
                None => None,
                Some(id) => {
                    let b = &t.bindings[id];
                    Some(Definition { span: b.decl_span, name: b.name.clone(), kind: b.kind })
                },
            },
        }
    }

    /// Every reference to the symbol at `pos`, including its declaration, sorted
    /// by position.
    pub fn find_references(&self, pos: u32) -> (r: Vec<Reference>)
        ensures
            match target_binding(self.spec_symbols(), pos) {
                Some(id) => r@ == refs_of(self.spec_symbols().occurrences@, id),
                None => r@.len() == 0,
            },
            refs_sorted(r@),
    {
        let t = self.symbols();
        let occ = match occurrence_at(t, pos) {
            None => {
                return Vec::new();
            },
            Some(i) => &t.occurrences[i],
        };
        let id = match occ.binding {
            None => {
                return Vec::new();
            },
            Some(id) => id,
        };
        let occs = &t.occurrences;
        let ghost s = occs@;
        let n = occs.len();
        let mut out: Vec<Reference> = Vec::new();
        let mut i: usize = 0;
        assert(s.take(0) =~= Seq::<Occurrence>::empty());
        while i < n
            invariant
                i <= n == s.len(),
                s == occs@,
                crate::sort::sorted_by_key(s),
                out@ == refs_of(s.take(i as int), id),
                refs_sorted(out@),
                forall|k: int, j: int|
                    0 <= k < out@.len() && i <= j < n ==> (#[trigger] out@[k]).span.start < (
                    #[trigger] s[j]).span.start || (out@[k].span.start == s[j].span.start
                        && out@[k].span.end <= s[j].span.end),
            decreases n - i,
        {
            assert(s.take(i + 1).drop_last() =~= s.take(i as int));
            let o = &occs[i];
            if o.binding == Some(id) {
                let x = Reference { span: o.span, is_decl: o.is_decl };
                let ghost before = out@;
                out.push(x);
                assert forall|k: int, j: int|
                    0 <= k < out@.len() && i + 1 <= j < n implies (#[trigger] out@[k]).span.start < (
                    #[trigger] s[j]).span.start || (out@[k].span.start == s[j].span.start
                        && out@[k].span.end <= s[j].span.end) by {
                    assert(<Occurrence as crate::sort::KeyOrder>::key_le(s[i as int], s[j]));
                    if k < before.len() {
                        assert(out@[k] == before[k]);
                    }
                }
                assert forall|a: int, b: int| 0 <= a < b < out@.len() implies (#[trigger] out@[a]).span.start < (
                #[trigger] out@[b]).span.start || (out@[a].span.start == out@[b].span.start
                    && out@[a].span.end <= out@[b].span.end) by {
                    assert(out@[a] == before[a]);
                    if b < before.len() {
                        assert(out@[b] == before[b]);
                    }
                }
            }
            i = i + 1;
        }
        assert(s.take(n as int) =~= s);
        out
    }

    /// Hover information for the symbol at `pos`.
    pub fn hover(&self, pos: u32) -> (r: Option<Hover>)
        ensures
            match target_binding(self.spec_symbols(), pos) {
                Some(id) => r is Some && id < self.spec_symbols().bindings@.len() && r.unwrap().name@
                    == self.spec_symbols().bindings@[id as int].name@ && r.unwrap().kind
                    == self.spec_symbols().bindings@[id as int].kind && r.unwrap().decl_span
                    == self.spec_symbols().bindings@[id as int].decl_span && r.unwrap().arity
                    == self.spec_symbols().bindings@[id as int].arity,
                None => r is None,
            },
    {
        let t = self.symbols();
        match occurrence_at(t, pos) {
            None => None,
            Some(i) => match t.occurrences[i].binding {
                None => None,
                Some(id) => {
                    let b = &t.bindings[id];
                    Some(
                        Hover {
                            name: b.name.clone(),
                            kind: b.kind,
                            decl_span: b.decl_span,
                            arity: b.arity,
                        },
                    )
                },
            },
        }
    }
}

} // verus!
