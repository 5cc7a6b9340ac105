//! Rename refactoring.
//!
//! Renaming a symbol rewrites its declaration and every reference to a new name.
//! The operation is safe by construction: after building the candidate text the
//! renamer re-analyses it and refuses the edit unless the binding structure is
//! the same as before, so a rename can never silently change which declaration
//! a name resolves to (capture) or leave a name dangling.

use vstd::prelude::*;
use vstd::string::{StringExecFns, StringSliceAdditionalSpecFns};
use vstd::utf8::{encode_utf8, is_char_boundary};
use crate::incremental::Analysis;
use crate::lexer::{lex, spec_lex, lex_from, TokenKind};
use crate::parse_spec::{spec_parse_items, group_stmts};
use crate::query::{Reference, target_binding, refs_of};
use crate::resolve_spec::{BindingV, OccV, r_program};
use crate::resolver::{SymbolTable, Occurrence, bindings_v, occs_v, occ_rel, occ_v};
use crate::sort::sel_sort;
use crate::span::Span;

verus! {

#[derive(Clone, Copy, Debug, PartialEq, Eq, Structural)]
pub enum RenameError {
    /// There is no renameable binding at the requested position (nothing there,
    /// or the name does not resolve).
    NotRenameable,
    /// The requested new name is not a single valid identifier.
    InvalidName,
    /// Applying the rename would change name resolution somewhere (capture,
    /// shadowing, or a collision), so it was refused.
    Conflict,
}

/// A single text replacement that makes up a rename.
#[derive(Clone, Copy, Debug, PartialEq, Eq, Structural)]
pub struct RenameEdit {
    pub span: Span,
}

/// The result of a rename: the edits to apply and the resulting text.
#[derive(Clone, Debug, PartialEq, Eq)]
pub struct Rename {
    pub edits: Vec<RenameEdit>,
    pub new_text: String,
}

/// `name` lexes to exactly one identifier token covering the whole string.
pub open spec fn valid_identifier(name: &str) -> bool {
    let t = spec_lex(name, 0);
    &&& t.len() == 1
    &&& t[0].kind == TokenKind::Ident
    &&& t[0].span == Span { start: 0, end: name.spec_bytes().len() as u32 }
}

/// True when `name` lexes to exactly one identifier token covering the whole
/// string. Rejects empty names, keywords, numbers, and anything with extra
/// characters or whitespace.
pub fn is_valid_identifier(name: &str) -> (r: bool)
    requires
        name.spec_bytes().len() <= u32::MAX,
    ensures
        r == valid_identifier(name),
{
    let toks = lex(name);
    toks.len() == 1 && toks[0].kind == TokenKind::Ident && toks[0].span == Span::new(
        0,
        name.len() as u32,
    )
}

/// The index of the last declaration occurrence with this span.
pub open spec fn last_decl(occs: Seq<OccV>, span: Span) -> Option<usize>
    decreases occs.len(),
{
    if occs.len() == 0 {
        None
    } else if occs.last().is_decl && occs.last().span == span {
        Some((occs.len() - 1) as usize)
    } else {
        last_decl(occs.drop_last(), span)
    }
}

/// For each occurrence (sorted by position) the rank of the declaration
/// occurrence it resolves to, or `None` when unresolved. This is a span
/// independent fingerprint of name resolution.
pub open spec fn shape_of(bindings: Seq<BindingV>, occs: Seq<OccV>) -> Seq<Option<usize>> {
    Seq::new(
        occs.len(),
        |k: int|
            match occs[k].binding {
                Some(id) => last_decl(occs, bindings[id as int].decl_span),
                None => None,
            },
    )
}

/// The resolution fingerprint of a symbol table.
pub open spec fn table_shape(t: SymbolTable) -> Seq<Option<usize>> {
    shape_of(bindings_v(t.bindings@), occs_v(t.occurrences@))
}

/// The resolution fingerprint of a whole text (given by its bytes) analysed
/// from scratch.
pub open spec fn text_shape(bytes: Seq<u8>) -> Seq<Option<usize>> {
    let p = group_stmts(spec_parse_items(lex_from(bytes, 0, 0)).0);
    shape_of(r_program(p).bindings, sel_sort(r_program(p).occs, occ_rel()))
}

/// Replace each span (sorted by position) by `name`, last span first so that
/// earlier spans keep their offsets. `None` when a span does not fall on
/// character boundaries of the text it is applied to.
pub open spec fn replace_spans(t: Seq<u8>, spans: Seq<Span>, name: Seq<u8>) -> Option<Seq<u8>>
    decreases spans.len(),
{
    if spans.len() == 0 {
        Some(t)
    } else {
        let s = spans.last();
        if s.start <= s.end <= t.len() && is_char_boundary(t, s.start as int) && is_char_boundary(
            t,
            s.end as int,
        ) {
            replace_spans(
                t.subrange(0, s.start as int) + name + t.subrange(s.end as int, t.len() as int),
                spans.drop_last(),
                name,
            )
        } else {
            None
        }
    }
}

pub open spec fn ref_spans(r: Seq<Reference>) -> Seq<Span> {
    r.map_values(|x: Reference| x.span)
}

pub open spec fn edit_spans(e: Seq<RenameEdit>) -> Seq<Span> {
    e.map_values(|x: RenameEdit| x.span)
}

fn last_decl_exec(occs: &Vec<Occurrence>, span: Span) -> (r: Option<usize>)
    ensures
        r == last_decl(occs_v(occs@), span),
{
    let ghost ov = occs_v(occs@);
    let mut k: usize = occs.len();
    assert(ov.subrange(0, k as int) =~= ov);
    while k > 0
        invariant
            k <= occs@.len(),
            ov == occs_v(occs@),
            last_decl(ov.subrange(0, k as int), span) == last_decl(ov, span),
        decreases k,
    {
        let ghost t = ov.subrange(0, k as int);
        assert(t.last() == occ_v(occs@[k - 1]));
        if occs[k - 1].is_decl && occs[k - 1].span == span {
            return Some(k - 1);
        }
        assert(t.drop_last() =~= ov.subrange(0, k - 1));
        k = k - 1;
    }
    None
}

/// The resolution fingerprint of a symbol table whose occurrences all name one
/// of its bindings.
fn resolution_shape(t: &SymbolTable) -> (r: Vec<Option<usize>>)
    requires
        crate::resolver::bindings_in_range(*t),
    ensures
        r@ == table_shape(*t),
{
    let ghost ov = occs_v(t.occurrences@);
    let ghost bv = bindings_v(t.bindings@);
    let mut out: Vec<Option<usize>> = Vec::new();
    let mut k: usize = 0;
    while k < t.occurrences.len()
        invariant
            k <= t.occurrences@.len(),
            ov == occs_v(t.occurrences@),
            bv == bindings_v(t.bindings@),
            crate::resolver::bindings_in_range(*t),
            out@.len() == k,
            forall|j: int| 0 <= j < k ==> #[trigger] out@[j] == table_shape(*t)[j],
        decreases t.occurrences@.len() - k,
    {
        let v = match t.occurrences[k].binding {
            None => None,
            Some(id) => last_decl_exec(&t.occurrences, t.bindings[id].decl_span),
        };
        out.push(v);
        k = k + 1;
    }
    assert(out@ =~= table_shape(*t));
    out
}

fn same_shape(a: &Vec<Option<usize>>, b: &Vec<Option<usize>>) -> (r: bool)
    ensures
        r == (a@ == b@),
{
    if a.len() != b.len() {
        return false;
    }
    let mut i: usize = 0;
    while i < a.len()
        invariant
            i <= a@.len() == b@.len(),
            forall|j: int| 0 <= j < i ==> a@[j] == b@[j],
        decreases a@.len() - i,
    {
        let same = match (a[i], b[i]) {
            (None, None) => true,
            (Some(x), Some(y)) => x == y,
            _ => false,
        };
        if !same {
            return false;
        }
        i = i + 1;
    }
    assert(a@ =~= b@);
    true
}

} // verus!

verus! {

pub open spec fn has_empty_span(spans: Seq<Span>) -> bool {
    exists|i: int| 0 <= i < spans.len() && (#[trigger] spans[i]).start == spans[i].end
}

/// What renaming the symbol at `pos` of an analysis to `name` gives.
pub open spec fn rename_outcome(
    text: Seq<u8>,
    t: SymbolTable,
    pos: u32,
    name: &str,
) -> Result<(Seq<Span>, Seq<u8>), RenameError> {
    if !valid_identifier(name) {
        Err(RenameError::InvalidName)
    } else {
        match target_binding(t, pos) {
            None => Err(RenameError::NotRenameable),
            Some(id) => {
                let spans = ref_spans(refs_of(t.occurrences@, id));
                if has_empty_span(spans) {
                    Err(RenameError::NotRenameable)
                } else {
                    match replace_spans(text, spans, name.spec_bytes()) {
                        None => Err(RenameError::NotRenameable),
                        Some(nt) => if nt.len() > u32::MAX || text_shape(nt) != table_shape(t) {
                            Err(RenameError::Conflict)
                        } else {
                            Ok((spans, nt))
                        },
                    }
                }
            },
        }
    }
}

proof fn lemma_refs_nonempty(s: Seq<Occurrence>, id: usize, i: int)
    requires
        0 <= i < s.len(),
        s[i].binding == Some(id),
    ensures
        refs_of(s, id).len() > 0,
    decreases s.len(),
{
    if i < s.len() - 1 {
        lemma_refs_nonempty(s.drop_last(), id, i);
    }
}

impl Analysis {
    /// Compute a safe rename of the symbol at `pos` to `new_name`, or an error.
    /// The analysis is not modified; apply `Rename::new_text` to commit.
    pub fn rename(&self, pos: u32, new_name: &str) -> (r: Result<Rename, RenameError>)
        requires
            new_name.spec_bytes().len() <= u32::MAX,
        ensures
            match rename_outcome(encode_utf8(self.spec_text()), self.spec_symbols(), pos, new_name) {
                Ok((spans, nt)) => r is Ok && edit_spans(r.unwrap().edits@) == spans && encode_utf8(
                    r.unwrap().new_text@,
                ) == nt,
                Err(e) => r == Err::<Rename, RenameError>(e),
            },
    {
        if !is_valid_identifier(new_name) {
            return Err(RenameError::InvalidName);
        }
        // Every occurrence of the binding under the cursor, decl and uses.
        let refs = self.find_references(pos);
        proof {
            let t = self.spec_symbols();
            if let Some(id) = target_binding(t, pos) {
                let i = crate::query::occurrence_index(t.occurrences@, pos).unwrap();
                crate::query::lemma_occurrence_index_range(t.occurrences@, pos);
                lemma_refs_nonempty(t.occurrences@, id, i);
            }
        }
        if refs.len() == 0 {
            assert(target_binding(self.spec_symbols(), pos) is None);
            return Err(RenameError::NotRenameable);
        }
        let ghost id = target_binding(self.spec_symbols(), pos).unwrap();
        // The references come sorted by position, which is the order the
        // replacements are planned in.
        let mut spans: Vec<Span> = Vec::new();
        let mut i: usize = 0;
        while i < refs.len()
            invariant
                i <= refs@.len(),
                spans@ == ref_spans(refs@.take(i as int)),
            decreases refs@.len() - i,
        {
            spans.push(refs[i].span);
            i = i + 1;
            assert(spans@ =~= ref_spans(refs@.take(i as int)));
        }
        assert(refs@.take(refs@.len() as int) =~= refs@);
        let ghost sv = spans@;
        let ghost all_refs = refs_of(self.spec_symbols().occurrences@, id);
        assert(refs@ == all_refs);
        assert(sv == ref_spans(all_refs));
        // A zero width placeholder span (from a missing name during recovery) is
        // not something a user can meaningfully rename.
        let mut j: usize = 0;
        while j < spans.len()
            invariant
                j <= spans@.len(),
                sv == spans@,
                valid_identifier(new_name),
                target_binding(self.spec_symbols(), pos) == Some(id),
                sv == ref_spans(refs_of(self.spec_symbols().occurrences@, id)),
                forall|x: int| 0 <= x < j ==> (#[trigger] spans@[x]).start != spans@[x].end,
            decreases spans@.len() - j,
        {
            if spans[j].is_empty() {
                assert(sv[j as int].start == sv[j as int].end);
                return Err(RenameError::NotRenameable);
            }
            j = j + 1;
        }
        assert(!has_empty_span(sv));
        // Build the candidate text by replacing each occurrence, right to left
        // so earlier spans keep their offsets.
        let ghost name_b = new_name.spec_bytes();
        let ghost text_b = encode_utf8(self.spec_text());
        let name_len = new_name.len() as u128;
        let base = self.text();
        let mut cur_len: u128 = base.len() as u128;
        let mut new_text = String::from_str(base);
        let mut k: usize = spans.len();
        let ghost n = spans@.len();
        assert(sv.take(k as int) =~= sv);
        while k > 0
            invariant
                k <= sv.len() == n,
                sv == spans@,
                valid_identifier(new_name),
                target_binding(self.spec_symbols(), pos) == Some(id),
                sv == ref_spans(refs_of(self.spec_symbols().occurrences@, id)),
                !has_empty_span(sv),
                text_b == encode_utf8(self.spec_text()),
                name_b == new_name.spec_bytes(),
                name_len == name_b.len(),
                name_b.len() <= u32::MAX,
                cur_len == encode_utf8(new_text@).len(),
                cur_len <= 4294967296u128 * (n - k + 1),
                n <= usize::MAX,
                replace_spans(encode_utf8(new_text@), sv.take(k as int), name_b) == replace_spans(
                    text_b,
                    sv,
                    name_b,
                ),
            decreases k,
        {
            let span = spans[k - 1];
            let cur = new_text.as_str();
            let ghost cb = encode_utf8(new_text@);
            assert(sv.take(k as int).last() == span);
            assert(sv.take(k as int).drop_last() =~= sv.take(k - 1));
            if !(span.start <= span.end && (span.end as u128) <= cur_len && cur.is_char_boundary(
                span.start as usize,
            ) && cur.is_char_boundary(span.end as usize)) {
                return Err(RenameError::NotRenameable);
            }
            let (left, _) = cur.split_at(span.start as usize);
            let (_, right) = cur.split_at(span.end as usize);
            let mut t = String::from_str(left);
            t.append(new_name);
            t.append(right);
            proof {
                crate::incremental::lemma_encode_concat(left@, new_name@);
                crate::incremental::lemma_encode_concat(left@ + new_name@, right@);
                assert(encode_utf8(t@) == cb.subrange(0, span.start as int) + name_b + cb.subrange(
                    span.end as int,
                    cb.len() as int,
                ));
                assert(4294967296u128 * (n - k + 1) + 4294967296u128 == 4294967296u128 * (n - k + 2))
                    by (nonlinear_arith);
                assert(4294967296u128 * (n - k + 2) <= 4294967296u128 * (usize::MAX as int + 2))
                    by (nonlinear_arith)
                    requires
                        n - k + 2 <= usize::MAX + 2,
                ;
            }
            cur_len = cur_len - (span.end - span.start) as u128 + name_len;
            new_text = t;
            k = k - 1;
        }
        assert(sv.take(0) =~= Seq::<Span>::empty());
        if cur_len > 4294967295u128 {
            return Err(RenameError::Conflict);
        }
        // Safety check: the rename must not change resolution anywhere.
        let candidate = Analysis::new(new_text.as_str());
        let after = resolution_shape(candidate.symbols());
        let before = resolution_shape(self.symbols());
        if !same_shape(&after, &before) {
            return Err(RenameError::Conflict);
        }
        let mut edits: Vec<RenameEdit> = Vec::new();
        let mut e: usize = 0;
        while e < spans.len()
            invariant
                e <= spans@.len(),
                edits@.len() == e,
                forall|x: int| 0 <= x < e ==> (#[trigger] edits@[x]).span == spans@[x],
            decreases spans@.len() - e,
        {
            edits.push(RenameEdit { span: spans[e] });
            e = e + 1;
        }
        assert(edit_spans(edits@) =~= spans@);
        Ok(Rename { edits, new_text })
    }
}

} // verus!
