//! Diagnostics produced by parsing and name resolution.

use vstd::prelude::*;
use vstd::string::StringSliceAdditionalSpecFns;
use crate::span::Span;
use crate::sort::{KeyOrder, sort_by_key, sorted_by_key, sel_sort, key_rel, lemma_sel_sort_map, bytes_le, bytes_le_exec, lemma_bytes_le_total, lemma_bytes_le_trans, lemma_bytes_le_antisym, total_preorder, lemma_sel_sort_sorted, lemma_sel_sort_perm, lemma_sorted_unique};

verus! {

#[derive(Clone, Copy, Debug, PartialEq, Eq, PartialOrd, Ord, Structural)]
pub enum Severity {
    Error,
    Warning,
}

/// The class of a diagnostic. Kept separate from the human message so tools can
/// group and filter without string matching.
#[derive(Clone, Copy, Debug, PartialEq, Eq, PartialOrd, Ord, Structural)]
pub enum DiagKind {
    ParseError,
    UnexpectedEof,
    UnresolvedName,
    Redefinition,
}

pub open spec fn kind_rank(k: DiagKind) -> int {
    match k {
        DiagKind::ParseError => 0,
        DiagKind::UnexpectedEof => 1,
        DiagKind::UnresolvedName => 2,
        DiagKind::Redefinition => 3,
    }
}

fn kind_rank_exec(k: DiagKind) -> (r: u8)
    ensures
        r as int == kind_rank(k),
{
    match k {
        DiagKind::ParseError => 0,
        DiagKind::UnexpectedEof => 1,
        DiagKind::UnresolvedName => 2,
        DiagKind::Redefinition => 3,
    }
}

#[derive(Clone, Debug, PartialEq, Eq)]
pub struct Diagnostic {
    pub span: Span,
    pub severity: Severity,
    pub kind: DiagKind,
    pub message: String,
}

/// A diagnostic with its message as characters.
pub struct DiagV {
    pub span: Span,
    pub severity: Severity,
    pub kind: DiagKind,
    pub message: Seq<char>,
}

impl View for Diagnostic {
    type V = DiagV;

    open spec fn view(&self) -> DiagV {
        DiagV {
            span: self.span,
            severity: self.severity,
            kind: self.kind,
            message: self.message@,
        }
    }
}

pub open spec fn diags_view(ds: Seq<Diagnostic>) -> Seq<DiagV> {
    ds.map_values(|d: Diagnostic| d@)
}

pub open spec fn error_v(span: Span, kind: DiagKind, message: Seq<char>) -> DiagV {
    DiagV { span, severity: Severity::Error, kind, message }
}

/// The order diagnostics are reported in: by span start, span end, kind, and
/// then the bytes of the message.
pub open spec fn diag_key_le(a: DiagV, b: DiagV) -> bool {
    if a.span.start != b.span.start {
        a.span.start < b.span.start
    } else if a.span.end != b.span.end {
        a.span.end < b.span.end
    } else if a.kind != b.kind {
        kind_rank(a.kind) < kind_rank(b.kind)
    } else {
        bytes_le(vstd::utf8::encode_utf8(a.message), vstd::utf8::encode_utf8(b.message))
    }
}

impl Diagnostic {
    pub fn error(span: Span, kind: DiagKind, message: String) -> (d: Diagnostic)
        ensures
            d@ == error_v(span, kind, message@),
            d.message == message,
    {
        Diagnostic { span, severity: Severity::Error, kind, message }
    }

    /// A copy of the diagnostic.
    pub fn copy(&self) -> (d: Diagnostic)
        ensures
            d == *self,
    {
        Diagnostic {
            span: self.span,
            severity: self.severity,
            kind: self.kind,
            message: self.message.clone(),
        }
    }
}

impl KeyOrder for Diagnostic {
    open spec fn key_le(self, other: Self) -> bool {
        diag_key_le(self@, other@)
    }

    proof fn lemma_key_total(a: Self, b: Self) {
        lemma_bytes_le_total(
            vstd::utf8::encode_utf8(a.message@),
            vstd::utf8::encode_utf8(b.message@),
        );
    }

    proof fn lemma_key_trans(a: Self, b: Self, c: Self) {
        if a.span.start == b.span.start && b.span.start == c.span.start && a.span.end
            == b.span.end && b.span.end == c.span.end && a.kind == b.kind && b.kind == c.kind {
            lemma_bytes_le_trans(
                vstd::utf8::encode_utf8(a.message@),
                vstd::utf8::encode_utf8(b.message@),
                vstd::utf8::encode_utf8(c.message@),
            );
        }
    }

    fn le(&self, other: &Self) -> (r: bool) {
        if self.span.start != other.span.start {
            self.span.start < other.span.start
        } else if self.span.end != other.span.end {
            self.span.end < other.span.end
        } else if kind_rank_exec(self.kind) != kind_rank_exec(other.kind) {
            kind_rank_exec(self.kind) < kind_rank_exec(other.kind)
        } else {
            bytes_le_exec(self.message.as_str().as_bytes(), other.message.as_str().as_bytes())
        }
    }
}

/// The reporting order as a relation on diagnostic views.
pub open spec fn diag_rel() -> spec_fn(DiagV, DiagV) -> bool {
    |a: DiagV, b: DiagV| diag_key_le(a, b)
}

/// Sort diagnostics into a stable, deterministic order.
pub fn sorted(diags: Vec<Diagnostic>) -> (r: Vec<Diagnostic>)
    ensures
        r@.to_multiset() == diags@.to_multiset(),
        r@.len() == diags@.len(),
        sorted_by_key(r@),
        r@ == sel_sort(diags@, key_rel::<Diagnostic>()),
        diags_view(r@) == sel_sort(diags_view(diags@), diag_rel()),
{
    let r = sort_by_key(diags);
    proof {
        lemma_sel_sort_map(diags@, key_rel::<Diagnostic>(), diag_rel(), |d: Diagnostic| d@);
    }
    r
}

/// The reporting order is total and transitive.
pub proof fn lemma_diag_order()
    ensures
        total_preorder(diag_rel()),
{
    let le = diag_rel();
    assert forall|a: DiagV, b: DiagV| #[trigger] le(a, b) || le(b, a) by {
        lemma_bytes_le_total(vstd::utf8::encode_utf8(a.message), vstd::utf8::encode_utf8(b.message));
    }
    assert forall|a: DiagV, b: DiagV, c: DiagV| #[trigger] le(a, b) && #[trigger] le(b, c) implies le(a, c) by {
        if a.span.start == b.span.start && b.span.start == c.span.start && a.span.end == b.span.end
            && b.span.end == c.span.end && a.kind == b.kind && b.kind == c.kind {
            lemma_bytes_le_trans(
                vstd::utf8::encode_utf8(a.message),
                vstd::utf8::encode_utf8(b.message),
                vstd::utf8::encode_utf8(c.message),
            );
        }
    }
}

/// Diagnostics of one severity that come in any order are sorted into the
/// same sequence: the reporting order leaves no two different ones tied.
pub proof fn law_sorted_ignores_input_order(d1: Seq<DiagV>, d2: Seq<DiagV>, sev: Severity)
    requires
        d1.to_multiset() == d2.to_multiset(),
        forall|i: int| 0 <= i < d1.len() ==> (#[trigger] d1[i]).severity == sev,
    ensures
        sel_sort(d1, diag_rel()) == sel_sort(d2, diag_rel()),
{
    broadcast use vstd::seq_lib::group_to_multiset_ensures;
    let le = diag_rel();
    lemma_diag_order();
    lemma_sel_sort_sorted(d1, le);
    lemma_sel_sort_sorted(d2, le);
    lemma_sel_sort_perm(d1, le);
    lemma_sel_sort_perm(d2, le);
    let s1 = sel_sort(d1, le);
    let s2 = sel_sort(d2, le);
    assert forall|i: int, j: int|
        0 <= i < s1.len() && 0 <= j < s1.len() && le(#[trigger] s1[i], #[trigger] s1[j]) && le(s1[j], s1[i])
            implies s1[i] == s1[j] by {
        let a = s1[i];
        let b = s1[j];
        assert(s1.to_multiset().count(a) > 0);
        assert(s1.to_multiset().count(b) > 0);
        assert(d1.contains(a) && d1.contains(b));
        let ia = choose|k: int| 0 <= k < d1.len() && d1[k] == a;
        let ib = choose|k: int| 0 <= k < d1.len() && d1[k] == b;
        assert(a.severity == sev && b.severity == sev);
        assert(a.span == b.span);
        assert(a.kind == b.kind) by {
            if a.kind != b.kind {
                assert(kind_rank(a.kind) < kind_rank(b.kind) && kind_rank(b.kind) < kind_rank(a.kind));
            }
        }
        let ea = vstd::utf8::encode_utf8(a.message);
        let eb = vstd::utf8::encode_utf8(b.message);
        lemma_bytes_le_antisym(ea, eb);
        vstd::utf8::encode_utf8_decode_utf8(a.message);
        vstd::utf8::encode_utf8_decode_utf8(b.message);
        assert(a.message == b.message);
    }
    lemma_sorted_unique(s1, s2, le);
}

} // verus!
