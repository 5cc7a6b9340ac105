//! Incremental analysis.
//!
//! An `Analysis` holds the current source text broken into top level *units*,
//! one per top level statement. Each unit caches the tokens, the parsed
//! statement, and the parse diagnostics for its byte range. On an edit the
//! analyser reuses every unit before the edit untouched, reuses every unit after
//! the edit by shifting its spans, and re lexes and reparses only the affected
//! region in between. The symbol table is then rebuilt from the reassembled
//! statements.
//!
//! What is proved of it: the tokens of an analysis are always those of lexing
//! its whole text, and its statement groups, however many edits it went
//! through, are those of a full parse of that text. The statement reused last
//! before an edit is followed by a whole line the edit leaves alone, so the
//! token after it, which its parse may read, is the same as before.

use vstd::prelude::*;
use vstd::string::{StringExecFns, StringSliceAdditionalSpecFns};
use vstd::utf8::{encode_utf8, encode_scalar, valid_utf8, is_char_boundary};
use crate::ast::{Stmt, Program, StmtV, stmt_v, stmts_v, lemma_stmts_v_push};
use crate::diagnostics::{Diagnostic, DiagV, diags_view, sorted, diag_rel};
use crate::lexer::{Token, TokenV, tokens_view, lex_at, lex_from, spec_lex, lemma_lex_spans, shift_token_spec};
use crate::parse_spec::{
    GroupV, group_stmts, group_tokens, group_diags, spec_parse_items, tokens_within, groups_within,
    groups_ordered, lemma_grouped_within, init_ps, shift_group, shift_groups,
    lemma_group_tokens_append, lemma_group_tokens_all, lemma_group_tokens_shift, shift_diagvs,
};
use crate::reparse::{
    group_at, groups_from, next_at, lemma_groups_prefix, lemma_groups_tail, lemma_groups_clean,
    lemma_groups_positions, lemma_groups_from_unfold, lemma_stmt_end_facts, lemma_shift_groups_zero,
    lemma_shift_tokvs_zero_all,
};
use crate::relex::{shift_tokv, shift_tokvs, lemma_lex_cut_line, lemma_lex_moved, lemma_lex_skip, lemma_split_unique, lemma_shift_tokvs_zero};
use crate::parser::{ItemParse, item_v, items_v, parse_items, spec_parse_text};
use crate::resolve_spec::r_program;
use crate::resolver::{SymbolTable, resolve, bindings_v, occs_v, bindings_in_range, occ_rel};
use crate::shift::{shift_stmt, shift_stmt_v, copy_stmt};
use crate::sort::{sorted_by_key, sel_sort};
use crate::lexer::lemma_lex_empty;
use crate::unicode::{valid_from, lemma_str_bytes_valid, lemma_valid_at_lead_byte, lemma_step_scalar, lemma_valid_between, str_from_utf8, lemma_str_from_utf8_bytes};

verus! {

struct Unit {
    lo: u32,
    hi: u32,
    stmt: Stmt,
    tokens: Vec<Token>,
    diags: Vec<Diagnostic>,
}

spec fn unit_group(u: Unit) -> GroupV {
    GroupV { stmt: stmt_v(u.stmt), tokens: tokens_view(u.tokens@), diags: diags_view(u.diags@) }
}

spec fn units_groups(us: Seq<Unit>) -> Seq<GroupV> {
    us.map_values(|u: Unit| unit_group(u))
}

spec fn unit_toks(u: Unit) -> Seq<TokenV> {
    tokens_view(u.tokens@)
}

/// The unit has tokens, they lie within its byte range, and the range starts
/// where lexing starts afresh: at the start of the text, of a line, or of the
/// unit's first token.
spec fn unit_placed(u: Unit, b: Seq<u8>) -> bool {
    &&& unit_toks(u).len() > 0
    &&& tokens_within(unit_toks(u), u.lo as int, u.hi as int)
    &&& (u.lo == 0 || (u.lo <= b.len() && b[u.lo - 1] == 10u8) || unit_toks(u)[0].span.start == u.lo)
}

/// Every unit is placed, and the units come one after another.
spec fn units_placed(us: Seq<Unit>, b: Seq<u8>) -> bool {
    &&& forall|i: int| 0 <= i < us.len() ==> unit_placed(#[trigger] us[i], b)
    &&& forall|i: int, j: int| 0 <= i < j < us.len() ==> (#[trigger] us[i]).hi <= (#[trigger] us[j]).lo
}

spec fn same_unit(a: Unit, b: Unit) -> bool {
    a.lo == b.lo && a.hi == b.hi && unit_group(a) == unit_group(b)
}

/// Each unit's byte range is well formed and lies within the text.
spec fn units_within(us: Seq<Unit>, len: int) -> bool {
    forall|i: int| 0 <= i < us.len() ==> (#[trigger] us[i]).lo <= us[i].hi <= len
}

/// The symbol table is what resolution of the program gives: its bindings in
/// declaration order, and its occurrences and diagnostics sorted.
/// The statement groups of a whole text analysed from scratch.
pub open spec fn batch_groups(text: Seq<char>) -> Seq<GroupV> {
    spec_parse_items(lex_from(encode_utf8(text), 0, 0)).0
}

pub open spec fn resolved(p: Seq<StmtV>, t: SymbolTable) -> bool {
    &&& bindings_v(t.bindings@) == r_program(p).bindings
    &&& occs_v(t.occurrences@) == sel_sort(r_program(p).occs, occ_rel())
    &&& diags_view(t.diagnostics@) == sel_sort(r_program(p).diags, diag_rel())
    &&& sorted_by_key(t.occurrences@)
    &&& sorted_by_key(t.diagnostics@)
    &&& bindings_in_range(t)
}

/// `all` holds the parse diagnostics and the resolution diagnostics, sorted.
pub open spec fn merged(parse: Seq<DiagV>, t: SymbolTable, all: Seq<Diagnostic>) -> bool {
    &&& diags_view(all) == sel_sort(parse + diags_view(t.diagnostics@), diag_rel())
    &&& sorted_by_key(all)
}

/// A live, incrementally maintained analysis of one source file.
pub struct Analysis {
    text: String,
    units: Vec<Unit>,
    program: Program,
    tokens: Vec<Token>,
    symbols: SymbolTable,
    diagnostics: Vec<Diagnostic>,
}

impl Analysis {
    #[verifier::type_invariant]
    spec fn inv(self) -> bool {
        &&& encode_utf8(self.text@).len() <= u32::MAX
        &&& units_within(self.units@, encode_utf8(self.text@).len() as int)
        &&& stmts_v(self.program@) == group_stmts(units_groups(self.units@))
        &&& tokens_view(self.tokens@) == group_tokens(units_groups(self.units@))
        &&& resolved(stmts_v(self.program@), self.symbols)
        &&& merged(group_diags(units_groups(self.units@)), self.symbols, self.diagnostics@)
        &&& units_placed(self.units@, encode_utf8(self.text@))
        &&& group_tokens(units_groups(self.units@)) == lex_from(encode_utf8(self.text@), 0, 0)
        &&& units_groups(self.units@) == groups_from(lex_from(encode_utf8(self.text@), 0, 0), 0)
    }

    /// The current text.
    pub closed spec fn spec_text(self) -> Seq<char> {
        self.text@
    }

    /// The statement groups the analysis holds, one per top level statement.
    pub closed spec fn spec_groups(self) -> Seq<GroupV> {
        units_groups(self.units@)
    }

    /// The type's invariant: the cached program, tokens, symbol table and
    /// diagnostics are those of the units, the units lie within the text, and
    /// they are the statement groups of a full parse of it.
    pub closed spec fn well_formed(self) -> bool {
        self.inv()
    }

    pub closed spec fn spec_tokens(self) -> Seq<Token> {
        self.tokens@
    }

    pub closed spec fn spec_program(self) -> Seq<Stmt> {
        self.program@
    }

    pub closed spec fn spec_symbols(self) -> SymbolTable {
        self.symbols
    }

    pub closed spec fn spec_diagnostics(self) -> Seq<Diagnostic> {
        self.diagnostics@
    }

}

/// True when `pos` starts a line: it is 0 or follows a newline byte.
fn is_line_start(text: &str, pos: u32) -> (r: bool)
    ensures
        r == (pos == 0 || (pos <= text.spec_bytes().len() && text.spec_bytes()[pos - 1] == 10u8)),
{
    if pos == 0 {
        return true;
    }
    let b = text.as_bytes();
    (pos as usize) <= b.len() && b[pos as usize - 1] == 10u8
}

/// The bytes of a string are well formed from the start of every line.
proof fn lemma_line_start_valid(s: &str, pos: int)
    requires
        0 <= pos <= s.spec_bytes().len(),
        pos == 0 || s.spec_bytes()[pos - 1] == 10u8,
    ensures
        valid_from(s.spec_bytes(), pos),
{
    lemma_str_bytes_valid(s);
    let b = s.spec_bytes();
    if pos > 0 {
        lemma_valid_at_lead_byte(b, 0, pos - 1);
        lemma_step_scalar(b, pos - 1);
    }
}

pub proof fn lemma_encode_concat(a: Seq<char>, b: Seq<char>)
    ensures
        encode_utf8(a + b) == encode_utf8(a) + encode_utf8(b),
    decreases a.len(),
{
    if a.len() == 0 {
        assert(a + b =~= b);
        assert(encode_utf8(a) =~= Seq::<u8>::empty());
        assert(encode_utf8(a) + encode_utf8(b) =~= encode_utf8(b));
    } else {
        lemma_encode_concat(a.drop_first(), b);
        assert((a + b).drop_first() =~= a.drop_first() + b);
        assert((a + b)[0] == a[0]);
        assert(encode_utf8(a + b) =~= encode_scalar(a[0] as u32) + encode_utf8(a.drop_first() + b));
        assert(encode_utf8(a) + encode_utf8(b) =~= encode_scalar(a[0] as u32) + (encode_utf8(
            a.drop_first(),
        ) + encode_utf8(b)));
    }
}

fn copy_tokens(ts: &Vec<Token>, delta: i64) -> (r: Vec<Token>)
    ensures
        r@ == ts@.map_values(|t: Token| shift_token_spec(t, delta)),
{
    let mut out: Vec<Token> = Vec::new();
    let mut i: usize = 0;
    while i < ts.len()
        invariant
            i <= ts@.len(),
            out@ == ts@.subrange(0, i as int).map_values(|t: Token| shift_token_spec(t, delta)),
        decreases ts@.len() - i,
    {
        let t = ts[i].shifted(delta);
        out.push(t);
        i = i + 1;
        assert(out@ =~= ts@.subrange(0, i as int).map_values(|t: Token| shift_token_spec(t, delta)));
    }
    assert(ts@.subrange(0, ts@.len() as int) =~= ts@);
    out
}

spec fn shift_diag_spec(d: Diagnostic, delta: i64) -> Diagnostic {
    Diagnostic { span: d.span.spec_shifted(delta), ..d }
}

fn copy_diags(ds: &Vec<Diagnostic>, delta: i64) -> (r: Vec<Diagnostic>)
    ensures
        r@ == ds@.map_values(|d: Diagnostic| shift_diag_spec(d, delta)),
{
    let mut out: Vec<Diagnostic> = Vec::new();
    let mut i: usize = 0;
    while i < ds.len()
        invariant
            i <= ds@.len(),
            out@ == ds@.subrange(0, i as int).map_values(|d: Diagnostic| shift_diag_spec(d, delta)),
        decreases ds@.len() - i,
    {
        let d = &ds[i];
        let c = Diagnostic {
            span: d.span.shifted(delta),
            severity: d.severity,
            kind: d.kind,
            message: d.message.clone(),
        };
        out.push(c);
        i = i + 1;
        assert(out@ =~= ds@.subrange(0, i as int).map_values(|d: Diagnostic| shift_diag_spec(d, delta)));
    }
    assert(ds@.subrange(0, ds@.len() as int) =~= ds@);
    out
}

impl Unit {
    /// The unit moved by `delta` bytes.
    fn shifted(&self, delta: i64) -> (u: Unit)
        requires
            0 <= self.lo + delta <= self.hi + delta <= u32::MAX,
        ensures
            u.lo == self.lo + delta,
            u.hi == self.hi + delta,
            stmt_v(u.stmt) == shift_stmt_v(stmt_v(self.stmt), delta),
            u.tokens@ == self.tokens@.map_values(|t: Token| shift_token_spec(t, delta)),
            u.diags@ == self.diags@.map_values(|d: Diagnostic| shift_diag_spec(d, delta)),
            unit_group(u) == shift_group(unit_group(*self), delta),
    {
        let u = Unit {
            lo: (self.lo as i64 + delta) as u32,
            hi: (self.hi as i64 + delta) as u32,
            stmt: shift_stmt(&self.stmt, delta),
            tokens: copy_tokens(&self.tokens, delta),
            diags: copy_diags(&self.diags, delta),
        };
        assert(tokens_view(u.tokens@) =~= shift_tokvs(tokens_view(self.tokens@), delta));
        assert(diags_view(u.diags@) =~= shift_diagvs(diags_view(self.diags@), delta));
        u
    }

    /// A copy of the unit.
    fn copy(&self) -> (u: Unit)
        ensures
            u.lo == self.lo,
            u.hi == self.hi,
            unit_group(u) == unit_group(*self),
    {
        let tokens = copy_tokens(&self.tokens, 0);
        let diags = copy_diags(&self.diags, 0);
        assert(tokens_view(tokens@) =~= tokens_view(self.tokens@));
        assert(diags_view(diags@) =~= diags_view(self.diags@));
        Unit { lo: self.lo, hi: self.hi, stmt: copy_stmt(&self.stmt), tokens, diags }
    }
}

} // verus!

verus! {

/// The units for the statement groups of the region `[region_lo, region_hi)`.
/// Statement starts tile the region contiguously so an edit position always
/// maps into exactly one unit's `[lo, hi)` range.
fn build_units(groups: Vec<ItemParse>, region_lo: u32, region_hi: u32) -> (r: Vec<Unit>)
    requires
        region_lo <= region_hi,
        groups_within(items_v(groups@), region_lo as int, region_hi as int),
        groups_ordered(items_v(groups@)),
    ensures
        units_groups(r@) == items_v(groups@),
        forall|i: int| 0 <= i < r@.len() ==> region_lo <= (#[trigger] r@[i]).lo <= r@[i].hi <= region_hi,
        forall|i: int|
            0 <= i < r@.len() ==> unit_toks(#[trigger] r@[i]).len() > 0 && tokens_within(
                unit_toks(r@[i]),
                r@[i].lo as int,
                r@[i].hi as int,
            ),
        r@.len() > 0 ==> r@[0].lo == region_lo,
        forall|i: int| 0 < i < r@.len() ==> (#[trigger] r@[i]).lo == unit_toks(r@[i])[0].span.start,
        forall|i: int, j: int| 0 <= i < j < r@.len() ==> (#[trigger] r@[i]).hi <= (#[trigger] r@[j]).lo,
{
    let ghost gv = items_v(groups@);
    let ghost g0 = groups@;
    let n = groups.len();
    if n == 0 {
        let r: Vec<Unit> = Vec::new();
        assert(units_groups(r@) =~= gv);
        return r;
    }
    let mut starts: Vec<u32> = Vec::new();
    let mut i: usize = 0;
    while i < n
        invariant
            i <= n == groups@.len() == g0.len() == gv.len(),
            g0 == groups@,
            gv == items_v(groups@),
            groups_within(gv, region_lo as int, region_hi as int),
            groups_ordered(gv),
            starts@.len() == i,
            forall|j: int| 0 <= j < i ==> region_lo <= #[trigger] starts@[j] <= region_hi,
            forall|j: int| 0 < j < i ==> #[trigger] starts@[j] == gv[j].tokens[0].span.start,
            i > 0 ==> starts@[0] == region_lo,
        decreases n - i,
    {
        assert(gv[i as int] == item_v(groups@[i as int]));
        assert(tokens_within(gv[i as int].tokens, region_lo as int, region_hi as int));
        let s = if i == 0 {
            region_lo
        } else if groups[i].tokens.len() > 0 {
            groups[i].tokens[0].span.start
        } else {
            region_lo
        };
        starts.push(s);
        i = i + 1;
    }
    // Each unit ends where the next starts; the starts never decrease.
    assert forall|j: int| 0 <= j < n - 1 implies #[trigger] starts@[j] <= starts@[j + 1] by {
        assert(gv[j + 1].tokens.len() > 0);
        if j > 0 {
            assert(gv[j].tokens.len() > 0);
            assert(tokens_within(gv[j].tokens, region_lo as int, region_hi as int));
            assert(gv[j].tokens[0].span.end <= gv[j + 1].tokens[0].span.start);
        }
    }
    let mut groups = groups;
    let mut rev: Vec<Unit> = Vec::new();
    let mut k: usize = n;
    while k > 0
        invariant
            k <= n == g0.len() == starts@.len(),
            groups@ == g0.subrange(0, k as int),
            gv == items_v(g0),
            rev@.len() == n - k,
            forall|j: int| 0 <= j < n - 1 ==> #[trigger] starts@[j] <= starts@[j + 1],
            forall|j: int| 0 <= j < n ==> region_lo <= #[trigger] starts@[j] <= region_hi,
            forall|j: int|
                0 <= j < n - k ==> unit_group(#[trigger] rev@[j]) == gv[n - 1 - j] && rev@[j].lo
                    == starts@[n - 1 - j] && rev@[j].hi == (if n - 1 - j + 1 < n {
                    starts@[n - j]
                } else {
                    region_hi
                }),
        decreases k,
    {
        k = k - 1;
        let g = groups.pop();
        match g {
            Some(g) => {
                assert(g == g0[k as int]);
                let lo = starts[k];
                let hi = if k + 1 < n {
                    starts[k + 1]
                } else {
                    region_hi
                };
                let ItemParse { stmt, tokens, diagnostics } = g;
                rev.push(Unit { lo, hi, stmt, tokens, diags: diagnostics });
            },
            None => {},
        }
    }
    let mut out: Vec<Unit> = Vec::new();
    while rev.len() > 0
        invariant
            rev@.len() + out@.len() == n == g0.len() == starts@.len(),
            gv == items_v(g0),
            forall|j: int| 0 <= j < n - 1 ==> #[trigger] starts@[j] <= starts@[j + 1],
            forall|j: int| 0 <= j < n ==> region_lo <= #[trigger] starts@[j] <= region_hi,
            forall|j: int|
                0 <= j < rev@.len() ==> unit_group(#[trigger] rev@[j]) == gv[n - 1 - j] && rev@[j].lo
                    == starts@[n - 1 - j] && rev@[j].hi == (if n - 1 - j + 1 < n {
                    starts@[n - j]
                } else {
                    region_hi
                }),
            forall|j: int|
                0 <= j < out@.len() ==> unit_group(#[trigger] out@[j]) == gv[j] && out@[j].lo
                    == starts@[j] && out@[j].hi == (if j + 1 < n {
                    starts@[j + 1]
                } else {
                    region_hi
                }),
        decreases rev@.len(),
    {
        let u = rev.pop();
        match u {
            Some(u) => {
                out.push(u);
            },
            None => {},
        }
    }
    assert(units_groups(out@) =~= gv);
    assert forall|i: int| 0 <= i < out@.len() implies region_lo <= (#[trigger] out@[i]).lo <= out@[i].hi
        <= region_hi by {
        if i + 1 < n {
            assert(starts@[i] <= starts@[i + 1]);
        }
    }
    assert forall|i: int| 0 <= i < out@.len() implies unit_toks(#[trigger] out@[i]).len() > 0
        && tokens_within(unit_toks(out@[i]), out@[i].lo as int, out@[i].hi as int) by {
        assert(unit_group(out@[i]) == gv[i]);
        assert(unit_toks(out@[i]) == gv[i].tokens);
        assert(gv[i].tokens.len() > 0);
        assert(tokens_within(gv[i].tokens, region_lo as int, region_hi as int));
        assert(crate::lexer::tokens_ordered(gv[i].tokens));
        assert forall|a: int| 0 <= a < gv[i].tokens.len() implies out@[i].lo <= (#[trigger] gv[i].tokens[a]).span.start
            < gv[i].tokens[a].span.end <= out@[i].hi by {
            if i > 0 && a > 0 {
                assert(gv[i].tokens[0].span.end <= gv[i].tokens[a].span.start);
            }
            if i + 1 < n {
                assert(gv[i + 1].tokens.len() > 0);
            }
        }
    }
    assert forall|i: int, j: int| 0 <= i < j < out@.len() implies (#[trigger] out@[i]).hi <= (
    #[trigger] out@[j]).lo by {
        assert(gv[j].tokens.len() > 0);
        assert(tokens_within(gv[j].tokens, region_lo as int, region_hi as int));
        if i + 1 < j {
            assert(gv[i + 1].tokens.len() > 0);
            assert(gv[i + 1].tokens[0].span.end <= gv[j].tokens[0].span.start);
        }
    }
    assert forall|i: int| 0 < i < out@.len() implies (#[trigger] out@[i]).lo == unit_toks(out@[i])[0].span.start by {
        assert(unit_group(out@[i]) == gv[i]);
    }
    out
}

} // verus!

verus! {

proof fn lemma_group_take(gs: Seq<GroupV>, i: int)
    requires
        0 <= i < gs.len(),
    ensures
        group_stmts(gs.take(i + 1)) == group_stmts(gs.take(i)).push(gs[i].stmt),
        group_tokens(gs.take(i + 1)) == group_tokens(gs.take(i)) + gs[i].tokens,
        group_diags(gs.take(i + 1)) == group_diags(gs.take(i)) + gs[i].diags,
{
    assert(gs.take(i + 1).drop_last() =~= gs.take(i));
    assert(group_stmts(gs.take(i + 1)) =~= group_stmts(gs.take(i)).push(gs[i].stmt));
}

impl Analysis {
    /// Assemble an analysis from its text and units: the program, tokens and
    /// parse diagnostics are those of the units in order, the symbol table is
    /// rebuilt from the program, and all diagnostics are merged and sorted.
    fn rebuild(text: String, units: Vec<Unit>) -> (a: Analysis)
        requires
            encode_utf8(text@).len() <= u32::MAX,
            units_within(units@, encode_utf8(text@).len() as int),
            units_placed(units@, encode_utf8(text@)),
            group_tokens(units_groups(units@)) == lex_from(encode_utf8(text@), 0, 0),
            units_groups(units@) == groups_from(lex_from(encode_utf8(text@), 0, 0), 0),
        ensures
            a.text == text,
            a.units == units,
    {
        let ghost gs = units_groups(units@);
        let mut program: Vec<Stmt> = Vec::new();
        let mut tokens: Vec<Token> = Vec::new();
        let mut parse_diags: Vec<Diagnostic> = Vec::new();
        let mut i: usize = 0;
        assert(gs.take(0) =~= Seq::<GroupV>::empty());
        assert(stmts_v(program@) =~= group_stmts(gs.take(0)));
        assert(tokens_view(tokens@) =~= group_tokens(gs.take(0)));
        assert(diags_view(parse_diags@) =~= group_diags(gs.take(0)));
        while i < units.len()
            invariant
                i <= units@.len() == gs.len(),
                gs == units_groups(units@),
                stmts_v(program@) == group_stmts(gs.take(i as int)),
                tokens_view(tokens@) == group_tokens(gs.take(i as int)),
                diags_view(parse_diags@) == group_diags(gs.take(i as int)),
            decreases units@.len() - i,
        {
            let u = &units[i];
            proof {
                lemma_group_take(gs, i as int);
            }
            let s = copy_stmt(&u.stmt);
            let ghost p0 = program@;
            program.push(s);
            proof {
                lemma_stmts_v_push(p0, s);
            }
            let mut ts = copy_tokens(&u.tokens, 0);
            let ghost t0 = tokens@;
            let ghost ts0 = ts@;
            tokens.append(&mut ts);
            assert(tokens_view(tokens@) =~= tokens_view(t0) + tokens_view(u.tokens@)) by {
                assert(tokens@ == t0 + ts0);
                assert(tokens_view(ts0) =~= tokens_view(u.tokens@));
            }
            let mut ds = copy_diags(&u.diags, 0);
            let ghost d0 = parse_diags@;
            let ghost ds0 = ds@;
            parse_diags.append(&mut ds);
            assert(diags_view(parse_diags@) =~= diags_view(d0) + diags_view(u.diags@)) by {
                assert(parse_diags@ == d0 + ds0);
                assert(diags_view(ds0) =~= diags_view(u.diags@));
            }
            i = i + 1;
        }
        assert(gs.take(units@.len() as int) =~= gs);
        let symbols = resolve(&program);
        let mut sd = copy_diags(&symbols.diagnostics, 0);
        let ghost pd = parse_diags@;
        let ghost sd0 = sd@;
        let mut all = parse_diags;
        all.append(&mut sd);
        assert(diags_view(all@) =~= diags_view(pd) + diags_view(symbols.diagnostics@)) by {
            assert(all@ == pd + sd0);
            assert(diags_view(sd0) =~= diags_view(symbols.diagnostics@));
        }
        let diagnostics = sorted(all);
        Analysis { text, units, program, tokens, symbols, diagnostics }
    }
}

} // verus!

verus! {

impl Analysis {
    /// Analyse a source string from scratch.
    pub fn new(text: &str) -> (a: Analysis)
        requires
            text.spec_bytes().len() <= u32::MAX,
        ensures
            a.well_formed(),
            a.spec_text() == text@,
            a.spec_groups() == spec_parse_text(text).0,
            a.spec_groups() == batch_groups(text@),
            group_tokens(a.spec_groups()) == spec_lex(text, 0),
    {
        let tokens = lex_at(text, 0);
        let (groups, _) = parse_items(tokens.as_slice());
        let ghost len = text.spec_bytes().len() as int;
        proof {
            lemma_lex_spans(text.spec_bytes(), 0, 0);
            let t = tokens_view(tokens@);
            assert(tokens_within(t, 0, len));
            assert(groups_ordered(Seq::<GroupV>::empty()));
            lemma_grouped_within(t, init_ps(), seq![], 0, len);
        }
        let units = build_units(groups, 0, text.len() as u32);
        let owned = String::from_str(text);
        proof {
            let b = encode_utf8(owned@);
            assert(b == text.spec_bytes());
            assert forall|i: int| 0 <= i < units@.len() implies unit_placed(#[trigger] units@[i], b) by {
                if i == 0 {
                    assert(units@[0].lo == 0);
                }
            }
        }
        let a = Analysis::rebuild(owned, units);
        proof {
            use_type_invariant(&a);
        }
        a
    }

    pub fn text(&self) -> (r: &str)
        ensures
            r@ == self.spec_text(),
            self.well_formed(),
            r.spec_bytes().len() <= u32::MAX,
    {
        proof {
            use_type_invariant(self);
        }
        self.text.as_str()
    }

    /// The tokens of all statements, in order.
    pub fn tokens(&self) -> (r: &[Token])
        ensures
            r@ == self.spec_tokens(),
            tokens_view(r@) == group_tokens(self.spec_groups()),
            tokens_view(r@) == lex_from(encode_utf8(self.spec_text()), 0, 0),
    {
        proof {
            use_type_invariant(self);
        }
        self.tokens.as_slice()
    }

    /// The top level statements, in order.
    pub fn program(&self) -> (r: &Program)
        ensures
            r@ == self.spec_program(),
            stmts_v(r@) == group_stmts(self.spec_groups()),
    {
        proof {
            use_type_invariant(self);
        }
        &self.program
    }

    /// The symbol table of the program.
    pub fn symbols(&self) -> (r: &SymbolTable)
        ensures
            *r == self.spec_symbols(),
            resolved(group_stmts(self.spec_groups()), *r),
    {
        proof {
            use_type_invariant(self);
        }
        &self.symbols
    }

    /// All diagnostics (parse and resolution) in a stable, sorted order.
    pub fn diagnostics(&self) -> (r: &[Diagnostic])
        ensures
            r@ == self.spec_diagnostics(),
            merged(group_diags(self.spec_groups()), self.spec_symbols(), r@),
    {
        proof {
            use_type_invariant(self);
        }
        self.diagnostics.as_slice()
    }
}

} // verus!

verus! {

/// Split the units into those that end by `start` and those that start at or
/// after `end`; the units are in order, so these are a prefix and a suffix.
#[verifier::spinoff_prover]
fn split_units(units: &Vec<Unit>, start: u32, end: u32, Ghost(ob): Ghost<Seq<u8>>) -> (r: (
    Vec<Unit>,
    Vec<Unit>,
    Ghost<int>,
))
    requires
        units_within(units@, ob.len() as int),
        units_placed(units@, ob),
        start <= end <= ob.len(),
    ensures
        0 <= r.0@.len() <= r.2@ <= units@.len(),
        forall|j: int| 0 <= j < r.0@.len() ==> same_unit(#[trigger] r.0@[j], units@[j]) && units@[j].hi <= start,
        r.2@ + r.1@.len() == units@.len(),
        forall|x: int|
            0 <= x < r.1@.len() ==> same_unit(#[trigger] r.1@[x], units@[r.2@ + x]) && units@[r.2@ + x].lo >= end,
        forall|j: int| r.0@.len() <= j < units@.len() ==> #[trigger] units@[j].hi > start,
{
    let ghost us = units@;
    let mut prefix: Vec<Unit> = Vec::new();
    let mut suffix: Vec<Unit> = Vec::new();
    let ghost mut ns: int = 0;
    let mut i: usize = 0;
    while i < units.len()
        invariant
            units@ == us,
            i <= us.len(),
            units_within(us, ob.len() as int),
            units_placed(us, ob),
            start <= end <= ob.len(),
            prefix@.len() <= i,
            forall|j: int|
                0 <= j < prefix@.len() ==> same_unit(#[trigger] prefix@[j], us[j]) && us[j].hi <= start,
            forall|j: int| prefix@.len() <= j < i ==> #[trigger] us[j].hi > start,
            0 <= ns <= i,
            ns + suffix@.len() == i,
            forall|x: int|
                0 <= x < suffix@.len() ==> same_unit(#[trigger] suffix@[x], us[ns + x]) && us[ns + x].lo
                    >= end,
            forall|j: int| 0 <= j < ns ==> #[trigger] us[j].lo < end,
        decreases us.len() - i,
    {
        let u = &units[i];
        proof {
            lemma_unit_nonempty(us[i as int], ob);
            if prefix@.len() < i {
                assert(us[prefix@.len() as int].hi <= us[i as int].lo);
            }
            if suffix@.len() > 0 {
                assert(us[i - 1].hi <= us[i as int].lo);
                lemma_unit_nonempty(us[i - 1], ob);
                let last = suffix@.len() - 1;
                assert(same_unit(suffix@[last], us[ns + last]));
                assert(us[ns + last].lo >= end);
            }
        }
        let ghost old_suffix = suffix@;
        if u.hi <= start {
            assert(old_suffix.len() == 0);
            prefix.push(u.copy());
        } else if u.lo >= end {
            let c = u.copy();
            assert(same_unit(c, us[i as int]));
            suffix.push(c);
            assert(suffix@[old_suffix.len() as int] == c);
            assert(forall|x: int| 0 <= x < old_suffix.len() ==> suffix@[x] == old_suffix[x]);
        } else {
            assert(old_suffix.len() == 0);
        }
        proof {
            if suffix@.len() == 0 {
                ns = i + 1;
            }
            assert forall|x: int| 0 <= x < suffix@.len() implies same_unit(#[trigger] suffix@[x], us[ns + x])
                && us[ns + x].lo >= end by {
                if x < old_suffix.len() {
                    assert(suffix@[x] == old_suffix[x]);
                    assert(same_unit(old_suffix[x], us[ns + x]));
                }
            }
        }
        i = i + 1;
    }
    proof {
        if prefix@.len() > ns {
            lemma_unit_nonempty(us[ns], ob);
            assert(same_unit(prefix@[ns], us[ns]));
            assert(same_unit(suffix@[0], us[ns + 0]));
        }
    }
    (prefix, suffix, Ghost(ns))
}

/// Lex and parse the region from `rs` to the first candidate boundary that is
/// the start of a line (or the end of the text) and where the parse does not
/// run off the end. Returns how many candidates were passed over, where the
/// region stops, its units, and its tokens, groups and truncation flag.
fn reparse_region(new_str: &str, rs: u32, boundaries: &Vec<u32>, start: u32, repl_len: usize) -> (r: (
    usize,
    u32,
    Vec<Unit>,
    Ghost<Seq<TokenV>>,
    Ghost<Seq<GroupV>>,
    Ghost<bool>,
))
    requires
        boundaries@.len() > 0,
        boundaries@[boundaries@.len() - 1] == new_str.spec_bytes().len(),
        forall|x: int| 0 <= x < boundaries@.len() ==> start + repl_len <= #[trigger] boundaries@[x] <= new_str.spec_bytes().len(),
        rs <= start,
        rs == 0 || new_str.spec_bytes()[rs - 1] == 10u8,
        new_str.spec_bytes().len() <= u32::MAX,
    ensures
        r.0 < boundaries@.len(),
        r.1 == boundaries@[r.0 as int],
        start + repl_len <= r.1 <= new_str.spec_bytes().len(),
        r.1 == new_str.spec_bytes().len() || r.1 == 0 || new_str.spec_bytes()[r.1 - 1] == 10u8,
        r.3@ == lex_from(new_str.spec_bytes().subrange(rs as int, r.1 as int), 0, rs as int),
        r.4@ == spec_parse_items(r.3@).0,
        r.5@ == spec_parse_items(r.3@).1,
        !r.5@ || r.1 == new_str.spec_bytes().len(),
        units_groups(r.2@) == r.4@,
        group_tokens(r.4@) == r.3@,
        forall|x: int| 0 <= x < r.2@.len() ==> rs <= (#[trigger] r.2@[x]).lo <= r.2@[x].hi <= r.1,
        forall|x: int|
            0 <= x < r.2@.len() ==> unit_toks(#[trigger] r.2@[x]).len() > 0 && tokens_within(
                unit_toks(r.2@[x]),
                r.2@[x].lo as int,
                r.2@[x].hi as int,
            ),
        r.2@.len() > 0 ==> r.2@[0].lo == rs,
        forall|x: int| 0 < x < r.2@.len() ==> (#[trigger] r.2@[x]).lo == unit_toks(r.2@[x])[0].span.start,
        forall|x: int, y: int| 0 <= x < y < r.2@.len() ==> (#[trigger] r.2@[x]).hi <= (#[trigger] r.2@[y]).lo,
{
    let ghost nb = new_str.spec_bytes();
    let bytes = new_str.as_bytes();
    let text_len = new_str.len() as u32;
    let n = boundaries.len();
    let mut k: usize = 0;
    loop
        invariant
            k < n == boundaries@.len(),
            boundaries@[n - 1] == text_len,
            forall|x: int| 0 <= x < n ==> start + repl_len <= #[trigger] boundaries@[x] <= text_len,
            rs <= start,
            rs == 0 || nb[rs - 1] == 10u8,
            bytes@ == nb,
            new_str.spec_bytes() == nb,
            text_len == nb.len(),
        decreases n - k,
    {
        let s = boundaries[k];
        // Extend the region when its right edge is not a line start, so re
        // lexing cannot shed or inherit comment state.
        if s < text_len && !is_line_start(new_str, s) {
            assert(k + 1 < n);
            k = k + 1;
            continue;
        }
        proof {
            lemma_line_start_valid(new_str, rs as int);
            if s < text_len {
                lemma_line_start_valid(new_str, s as int);
            } else {
                assert(nb.skip(s as int) =~= Seq::<u8>::empty());
                assert(valid_utf8(Seq::<u8>::empty()));
            }
            lemma_valid_between(nb, rs as int, s as int);
        }
        let sub = vstd::slice::slice_subrange(bytes, rs as usize, s as usize);
        let region_src = str_from_utf8(sub);
        proof {
            lemma_str_from_utf8_bytes(region_src, sub@);
        }
        let toks = lex_at(region_src, rs);
        let (groups, truncated) = parse_items(toks.as_slice());
        // Extend the region when the parse ran off its end.
        if truncated && s < text_len {
            assert(k + 1 < n);
            k = k + 1;
            continue;
        }
        let ghost t = tokens_view(toks@);
        proof {
            lemma_lex_spans(sub@, 0, rs as int);
            assert(tokens_within(t, rs as int, s as int));
            assert(groups_ordered(Seq::<GroupV>::empty()));
            lemma_grouped_within(t, init_ps(), seq![], rs as int, s as int);
            assert(sub@ == nb.subrange(rs as int, s as int));
        }
        let ghost rg = items_v(groups@);
        let region_units = build_units(groups, rs, s);
        return (k, s, region_units, Ghost(t), Ghost(rg), Ghost(truncated));
    }
}

spec fn suffix_of(suffix: Seq<Unit>, us: Seq<Unit>, ns: int, end: int) -> bool {
    &&& 0 <= ns
    &&& ns + suffix.len() == us.len()
    &&& forall|x: int|
        0 <= x < suffix.len() ==> same_unit(#[trigger] suffix[x], us[ns + x]) && us[ns + x].lo >= end
}

/// Where each reused unit after the edit starts in the new text, then the end
/// of the new text.
fn candidate_boundaries(
    suffix: &Vec<Unit>,
    delta: i64,
    text_len: u32,
    Ghost(us): Ghost<Seq<Unit>>,
    Ghost(ns): Ghost<int>,
    Ghost(end): Ghost<int>,
    Ghost(old_len): Ghost<int>,
) -> (r: Vec<u32>)
    requires
        suffix_of(suffix@, us, ns, end),
        units_within(us, old_len),
        end <= old_len,
        end + delta >= 0,
        text_len == old_len + delta,
    ensures
        r@.len() == suffix@.len() + 1,
        r@[suffix@.len() as int] == text_len,
        forall|x: int| 0 <= x < suffix@.len() ==> #[trigger] r@[x] == us[ns + x].lo + delta,
        forall|x: int| 0 <= x < r@.len() ==> end + delta <= #[trigger] r@[x] <= text_len,
{
    let mut boundaries: Vec<u32> = Vec::new();
    let mut j: usize = 0;
    while j < suffix.len()
        invariant
            j <= suffix@.len(),
            boundaries@.len() == j,
            suffix_of(suffix@, us, ns, end),
            units_within(us, old_len),
            end <= old_len,
            end + delta >= 0,
            text_len == old_len + delta,
            forall|x: int| 0 <= x < j ==> #[trigger] boundaries@[x] == us[ns + x].lo + delta,
            forall|x: int| 0 <= x < j ==> end + delta <= #[trigger] boundaries@[x] <= text_len,
        decreases suffix@.len() - j,
    {
        assert(same_unit(suffix@[j as int], us[ns + j]));
        assert(us[ns + j].lo <= old_len);
        boundaries.push((suffix[j].lo as i64 + delta) as u32);
        j = j + 1;
    }
    boundaries.push(text_len);
    boundaries
}

/// Append the reused units after the edit from the `k`-th on, moved by `delta`.
fn append_moved(
    out: &mut Vec<Unit>,
    suffix: &Vec<Unit>,
    k: usize,
    delta: i64,
    Ghost(us): Ghost<Seq<Unit>>,
    Ghost(ns): Ghost<int>,
    Ghost(end): Ghost<int>,
    Ghost(old_len): Ghost<int>,
    Ghost(new_len): Ghost<int>,
)
    requires
        suffix_of(suffix@, us, ns, end),
        units_within(us, old_len),
        k <= suffix@.len(),
        end <= old_len,
        end + delta >= 0,
        new_len == old_len + delta,
        new_len <= u32::MAX,
    ensures
        final(out)@.len() == old(out)@.len() + (suffix@.len() - k),
        forall|x: int| 0 <= x < old(out)@.len() ==> #[trigger] final(out)@[x] == old(out)@[x],
        forall|y: int|
            0 <= y < suffix@.len() - k ==> shifted_of(
                #[trigger] final(out)@[old(out)@.len() + y],
                us[ns + k + y],
                delta as int,
            ),
{
    let ghost base = out@;
    let mut j: usize = k;
    while j < suffix.len()
        invariant
            k <= j <= suffix@.len(),
            suffix_of(suffix@, us, ns, end),
            units_within(us, old_len),
            end <= old_len,
            end + delta >= 0,
            new_len == old_len + delta,
            new_len <= u32::MAX,
            out@.len() == base.len() + (j - k),
            forall|x: int| 0 <= x < base.len() ==> #[trigger] out@[x] == base[x],
            forall|y: int|
                0 <= y < j - k ==> shifted_of(#[trigger] out@[base.len() + y], us[ns + k + y], delta as int),
        decreases suffix@.len() - j,
    {
        assert(same_unit(suffix@[j as int], us[ns + j]));
        assert(us[ns + j].lo >= end);
        assert(us[ns + j].hi <= old_len);
        let u = suffix[j].shifted(delta);
        let ghost before = out@;
        out.push(u);
        assert forall|x: int| 0 <= x < base.len() implies #[trigger] out@[x] == base[x] by {
            assert(out@[x] == before[x]);
        }
        assert forall|y: int| 0 <= y < j + 1 - k implies shifted_of(
            #[trigger] out@[base.len() + y],
            us[ns + k + y],
            delta as int,
        ) by {
            if y < j - k {
                assert(out@[base.len() + y] == before[base.len() + y]);
            }
        }
        j = j + 1;
    }
}

/// The text after replacing `[start, end)` with `replacement`, and its units:
/// those that end before the edit reused as they are, those from the start of
/// the line before the edit to a line start after it re-lexed and re-parsed,
/// and the rest reused moved by the change in length.
#[verifier::rlimit(100)]
fn edit_units(text: &String, units: &Vec<Unit>, start: u32, end: u32, replacement: &str) -> (r: (
    String,
    Vec<Unit>,
))
    requires
        start <= end <= encode_utf8(text@).len(),
        is_char_boundary(encode_utf8(text@), start as int),
        is_char_boundary(encode_utf8(text@), end as int),
        encode_utf8(text@).len() <= u32::MAX,
        encode_utf8(text@).len() - (end - start) + replacement.spec_bytes().len() <= u32::MAX,
        units_within(units@, encode_utf8(text@).len() as int),
        units_placed(units@, encode_utf8(text@)),
        group_tokens(units_groups(units@)) == lex_from(encode_utf8(text@), 0, 0),
    ensures
        encode_utf8(r.0@) == encode_utf8(text@).subrange(0, start as int) + replacement.spec_bytes()
            + encode_utf8(text@).subrange(end as int, encode_utf8(text@).len() as int),
        encode_utf8(r.0@).len() <= u32::MAX,
        units_within(r.1@, encode_utf8(r.0@).len() as int),
        units_placed(r.1@, encode_utf8(r.0@)),
        group_tokens(units_groups(r.1@)) == lex_from(encode_utf8(r.0@), 0, 0),
        units_groups(units@) == groups_from(lex_from(encode_utf8(text@), 0, 0), 0) ==> units_groups(r.1@)
            == groups_from(lex_from(encode_utf8(r.0@), 0, 0), 0),
{
        let ghost ob = encode_utf8(text@);
        let ghost us = units@;
        let old_len = text.as_str().len();
        let repl_len = replacement.len();
        let delta: i64 = repl_len as i64 - (end - start) as i64;

        let (left, _) = text.as_str().split_at(start as usize);
        let (_, right) = text.as_str().split_at(end as usize);
        let mut new_text = String::from_str(left);
        new_text.append(replacement);
        new_text.append(right);
        let ghost nb = encode_utf8(new_text@);
        proof {
            lemma_encode_concat(left@, replacement@);
            lemma_encode_concat(left@ + replacement@, right@);
            assert(nb == ob.subrange(0, start as int) + replacement.spec_bytes() + ob.subrange(
                end as int,
                ob.len() as int,
            ));
        }
        let ghost new_len = nb.len() as int;

        // Partition existing units. Prefix ends before the edit; suffix begins at
        // or after the edit end; the rest is dirty and will be reparsed.
        let (mut prefix, suffix, Ghost(ns)) = split_units(units, start, end, Ghost(ob));
        let ghost np = prefix@.len() as int;

        // Reparse the statement immediately before the edit as well: its parse
        // can depend on the single token that follows it.
        let _ = prefix.pop();
        let ghost np1 = prefix@.len() as int;
        proof {
            lemma_count_ending_by(us, start as int, np);
            assert(np1 == if np > 0 { np - 1 } else { 0 });
        }

        // Align the left edge of the reparsed region to the start of a line, so
        // that re lexing does not depend on comment state in the reused parts.
        let mut rs: u32 = if prefix.len() > 0 {
            prefix[prefix.len() - 1].hi
        } else {
            0
        };
        while prefix.len() > 0 && !is_line_start(new_text.as_str(), rs)
            invariant
                rs <= start,
                prefix@.len() <= np,
                np <= ns,
                np1 <= np,
                ns <= us.len(),
                encode_utf8(new_text@) == nb,
                back_to_line(us, prefix@.len() as int, nb) == back_to_line(us, np1, nb),
                forall|j: int|
                    0 <= j < prefix@.len() ==> same_unit(#[trigger] prefix@[j], us[j]) && us[j].hi
                        <= start,
                prefix@.len() > 0 ==> rs == prefix@[prefix@.len() - 1].hi,
                prefix@.len() == 0 ==> rs == 0,
            decreases prefix@.len(),
        {
            let _ = prefix.pop();
            rs = if prefix.len() > 0 {
                prefix[prefix.len() - 1].hi
            } else {
                0
            };
        }
        let ghost p1 = prefix@.len() as int;
        proof {
            lemma_back_to_line(us, np1, nb);
            if p1 > 0 {
                assert(unit_placed(us[p1 - 1], ob));
                lemma_unit_nonempty(us[p1 - 1], ob);
                assert(same_unit(prefix@[p1 - 1], us[p1 - 1]));
                assert(us[p1 - 1].hi <= start);
                assert(nb[us[p1 - 1].hi - 1] == 10u8);
            }
        }

        // The statement kept last reads the token after it, which an edit on
        // the line that follows can change (completing `els` to `else` after
        // an `if`). Reuse one statement less again, back to a line start, so
        // that a whole line the edit leaves alone follows the one kept.
        if prefix.len() > 0 {
            let _ = prefix.pop();
            rs = if prefix.len() > 0 {
                prefix[prefix.len() - 1].hi
            } else {
                0
            };
            while prefix.len() > 0 && !is_line_start(new_text.as_str(), rs)
                invariant
                    rs <= start,
                    prefix@.len() < p1,
                    p1 <= np,
                    np <= ns,
                    ns <= us.len(),
                    encode_utf8(new_text@) == nb,
                    back_to_line(us, prefix@.len() as int, nb) == back_to_line(us, p1 - 1, nb),
                    forall|j: int|
                        0 <= j < prefix@.len() ==> same_unit(#[trigger] prefix@[j], us[j]) && us[j].hi
                            <= start,
                    prefix@.len() > 0 ==> rs == prefix@[prefix@.len() - 1].hi,
                    prefix@.len() == 0 ==> rs == 0,
                decreases prefix@.len(),
            {
                let _ = prefix.pop();
                rs = if prefix.len() > 0 {
                    prefix[prefix.len() - 1].hi
                } else {
                    0
                };
            }
        }
        let new_str = new_text.as_str();
        let text_len = new_str.len() as u32;
        assert(new_str.spec_bytes() == nb);
        assert(rs == 0 || nb[rs - 1] == 10u8);
        let ghost p = prefix@.len() as int;
        assert(p > 0 ==> rs == us[p - 1].hi);
        assert(p == kept_units(us, start as int, nb));

        // Candidate stop boundaries in new text coordinates.
        let boundaries = candidate_boundaries(&suffix, delta, text_len, Ghost(us), Ghost(ns), Ghost(
            end as int,
        ), Ghost(ob.len() as int));

        let (k, stop, mut region_units, Ghost(tr), Ghost(rg), Ghost(rtrunc)) = reparse_region(
            new_str,
            rs,
            &boundaries,
            start,
            repl_len,
        );

        proof {
            if k < suffix@.len() {
                assert(same_unit(suffix@[k as int], us[ns + k]));
                lemma_unit_nonempty(us[ns + k], ob);
                assert(us[ns + k].hi <= ob.len());
                assert(boundaries@[k as int] == us[ns + k].lo + delta);
            }
            assert(rtrunc ==> k == suffix@.len());
        }
        let mut new_units = prefix;
        let ghost pre = new_units@;
        let ghost reg = region_units@;
        new_units.append(&mut region_units);
        let ghost q = ns + k;
        append_moved(&mut new_units, &suffix, k, delta, Ghost(us), Ghost(ns), Ghost(end as int), Ghost(
            ob.len() as int,
        ), Ghost(new_len));
        let ghost post = new_units@.subrange((pre.len() + reg.len()) as int, new_units@.len() as int);
        proof {
            assert(new_units@ =~= pre + reg + post) by {
                assert forall|x: int| 0 <= x < new_units@.len() implies #[trigger] new_units@[x] == (pre
                    + reg + post)[x] by {
                    if x < pre.len() + reg.len() {
                        assert(new_units@[x] == (pre + reg)[x]);
                    }
                }
            }
            assert forall|y: int| 0 <= y < post.len() implies shifted_of(#[trigger] post[y], us[q + y], delta as int) by {
                assert(post[y] == new_units@[pre.len() + reg.len() + y]);
            }
            vstd::utf8::encode_utf8_valid_utf8(text@);
            vstd::utf8::encode_utf8_valid_utf8(new_text@);
            if q < us.len() {
                assert(boundaries@[k as int] == us[ns + k].lo + delta);
            }
            lemma_edit_result(ob, nb, start as int, end as int, replacement.spec_bytes(), us, p,
                rs as int, ns, q, stop as int, delta as int, tr, rg, pre, reg, post, suffix@);
            if units_groups(us) == groups_from(lex_from(ob, 0, 0), 0) {
                assert forall|i: int| 0 <= i < units_groups(us).len() implies (#[trigger] units_groups(us)[i]).tokens.len() > 0 by {
                    assert(unit_placed(us[i], ob));
                }
                lemma_edit_batch(ob, nb, us, p, q, delta as int, tr, rg, rtrunc);
                if p1 > 0 {
                    lemma_back_to_line(us, p1 - 1, nb);
                    lemma_seam_kept(ob, nb, start as int, end as int, replacement.spec_bytes(), us, p1, p);
                }
            }
        }
        (new_text, new_units)
}

impl Analysis {
    /// Replace the byte range `[start, end)` with `replacement` and update the
    /// analysis incrementally.
    pub fn edit(&mut self, start: u32, end: u32, replacement: &str)
        requires
            start <= end <= encode_utf8(old(self).spec_text()).len(),
            is_char_boundary(encode_utf8(old(self).spec_text()), start as int),
            is_char_boundary(encode_utf8(old(self).spec_text()), end as int),
            encode_utf8(old(self).spec_text()).len() - (end - start) + replacement.spec_bytes().len()
                <= u32::MAX,
        ensures
            final(self).well_formed(),
            encode_utf8(final(self).spec_text()) == encode_utf8(old(self).spec_text()).subrange(
                0,
                start as int,
            ) + replacement.spec_bytes() + encode_utf8(old(self).spec_text()).subrange(
                end as int,
                encode_utf8(old(self).spec_text()).len() as int,
            ),
            final(self).spec_groups() == batch_groups(final(self).spec_text()),
    {
        proof {
            use_type_invariant(&*self);
        }
        let ghost old_text = self.text@;
        let (new_text, new_units) = edit_units(&self.text, &self.units, start, end, replacement);
        proof {
            assert(batch_groups(old_text) == groups_from(lex_from(encode_utf8(old_text), 0, 0), 0));
            assert(batch_groups(new_text@) == groups_from(lex_from(encode_utf8(new_text@), 0, 0), 0));
        }
        *self = Analysis::rebuild(new_text, new_units);
        proof {
            use_type_invariant(&*self);
        }
    }
}

} // verus!

verus! {

/// An analysis is determined by its statement groups: two analyses with the
/// same groups have the same tokens, syntax tree, symbol table and
/// diagnostics.
pub proof fn law_groups_determine_analysis(a: Analysis, b: Analysis)
    requires
        a.well_formed(),
        b.well_formed(),
        a.spec_groups() == b.spec_groups(),
    ensures
        tokens_view(a.spec_tokens()) == tokens_view(b.spec_tokens()),
        stmts_v(a.spec_program()) == stmts_v(b.spec_program()),
        bindings_v(a.spec_symbols().bindings@) == bindings_v(b.spec_symbols().bindings@),
        occs_v(a.spec_symbols().occurrences@) == occs_v(b.spec_symbols().occurrences@),
        diags_view(a.spec_symbols().diagnostics@) == diags_view(b.spec_symbols().diagnostics@),
        diags_view(a.spec_diagnostics()) == diags_view(b.spec_diagnostics()),
{
}

/// What a valid analysis holds: a text that fits `u32` positions, the tokens of
/// that text, and the symbol table of its statements.
pub proof fn lemma_analysis_facts(a: Analysis)
    requires
        a.well_formed(),
    ensures
        encode_utf8(a.spec_text()).len() <= u32::MAX,
        group_tokens(a.spec_groups()) == lex_from(encode_utf8(a.spec_text()), 0, 0),
        resolved(group_stmts(a.spec_groups()), a.spec_symbols()),
        a.spec_groups() == batch_groups(a.spec_text()),
{
}

/// The diagnostics of an analysis, however it got there through edits, are
/// the parse diagnostics of its statements together with those of its symbol
/// table, each once, in reporting order.
pub proof fn law_diagnostics_are_merged(a: Analysis)
    requires
        a.well_formed(),
    ensures
        diags_view(a.spec_diagnostics()).to_multiset() == (group_diags(a.spec_groups()) + diags_view(
            a.spec_symbols().diagnostics@,
        )).to_multiset(),
        sorted_by_key(a.spec_diagnostics()),
{
    crate::sort::lemma_sel_sort_perm(
        group_diags(a.spec_groups()) + diags_view(a.spec_symbols().diagnostics@),
        diag_rel(),
    );
}

/// The tokens an analysis holds, however it got there through edits, are
/// those of lexing its whole text.
pub proof fn law_tokens_are_lexed_text(a: Analysis)
    requires
        a.well_formed(),
    ensures
        tokens_view(a.spec_tokens()) == lex_from(encode_utf8(a.spec_text()), 0, 0),
        group_tokens(a.spec_groups()) == lex_from(encode_utf8(a.spec_text()), 0, 0),
{
}

/// Analysing the same text twice gives the same tokens, syntax tree, symbol
/// table and diagnostics.
pub proof fn law_analysis_deterministic(a: Analysis, b: Analysis)
    requires
        a.well_formed(),
        b.well_formed(),
        a.spec_text() == b.spec_text(),
    ensures
        tokens_view(a.spec_tokens()) == tokens_view(b.spec_tokens()),
        stmts_v(a.spec_program()) == stmts_v(b.spec_program()),
        bindings_v(a.spec_symbols().bindings@) == bindings_v(b.spec_symbols().bindings@),
        occs_v(a.spec_symbols().occurrences@) == occs_v(b.spec_symbols().occurrences@),
        diags_view(a.spec_diagnostics()) == diags_view(b.spec_diagnostics()),
{
    law_groups_determine_analysis(a, b);
}

} // verus!

verus! {

/// The tokens of a text up to a line start where a unit ends are the tokens of
/// the units up to it.
#[verifier::spinoff_prover]
#[verifier::rlimit(40)]
proof fn lemma_prefix_tokens(us: Seq<Unit>, b: Seq<u8>, p: int)
    requires
        units_placed(us, b),
        group_tokens(units_groups(us)) == lex_from(b, 0, 0),
        valid_utf8(b),
        b.len() <= u32::MAX,
        0 < p <= us.len(),
        0 < us[p - 1].hi <= b.len(),
        b[us[p - 1].hi - 1] == 10u8,
    ensures
        lex_from(b.take(us[p - 1].hi as int), 0, 0) == group_tokens(units_groups(us).take(p)),
{
    let rs = us[p - 1].hi as int;
    let g = units_groups(us);
    assert(b.skip(0) =~= b);
    lemma_lex_cut_line(b, 0, rs, 0);
    lemma_lex_spans(b.take(rs), 0, 0);
    lemma_lex_spans(b, rs, 0);
    assert(g =~= g.take(p) + g.skip(p));
    lemma_group_tokens_append(g.take(p), g.skip(p));
    assert forall|i: int, a: int| 0 <= i < g.take(p).len() && 0 <= a < g.take(p)[i].tokens.len() implies
        (#[trigger] g.take(p)[i].tokens[a]).span.start < rs by {
        assert(unit_placed(us[i], b));
        assert(g.take(p)[i] == unit_group(us[i]));
        assert(tokens_within(unit_toks(us[i]), us[i].lo as int, us[i].hi as int));
        assert(unit_toks(us[i])[a].span.start < unit_toks(us[i])[a].span.end);
        if i < p - 1 {
            assert(us[i].hi <= us[p - 1].lo);
            assert(unit_placed(us[p - 1], b));
            assert(tokens_within(unit_toks(us[p - 1]), us[p - 1].lo as int, us[p - 1].hi as int));
            assert(unit_toks(us[p - 1])[0].span.start < unit_toks(us[p - 1])[0].span.end);
        }
    }
    assert forall|i: int, a: int| 0 <= i < g.skip(p).len() && 0 <= a < g.skip(p)[i].tokens.len() implies
        (#[trigger] g.skip(p)[i].tokens[a]).span.start >= rs by {
        assert(unit_placed(us[p + i], b));
        assert(g.skip(p)[i] == unit_group(us[p + i]));
        assert(tokens_within(unit_toks(us[p + i]), us[p + i].lo as int, us[p + i].hi as int));
        assert(us[p - 1].hi <= us[p + i].lo);
    }
    lemma_group_tokens_all(g.take(p), |t: TokenV| t.span.start < rs);
    lemma_group_tokens_all(g.skip(p), |t: TokenV| t.span.start >= rs);
    lemma_split_unique(
        lex_from(b.take(rs), 0, 0),
        lex_from(b, rs, 0),
        group_tokens(g.take(p)),
        group_tokens(g.skip(p)),
        rs,
    );
}

/// Lexing from where a unit starts gives the tokens of that unit and of every
/// unit after it.
#[verifier::spinoff_prover]
#[verifier::rlimit(40)]
proof fn lemma_suffix_tokens(us: Seq<Unit>, b: Seq<u8>, q: int)
    requires
        units_placed(us, b),
        group_tokens(units_groups(us)) == lex_from(b, 0, 0),
        valid_utf8(b),
        b.len() <= u32::MAX,
        units_within(us, b.len() as int),
        0 <= q < us.len(),
    ensures
        lex_from(b, us[q].lo as int, 0) == group_tokens(units_groups(us).skip(q)),
{
    let lo = us[q].lo as int;
    let g = units_groups(us);
    let t = lex_from(b, 0, 0);
    assert(g =~= g.take(q) + g.skip(q));
    lemma_group_tokens_append(g.take(q), g.skip(q));
    assert forall|i: int, a: int| 0 <= i < g.take(q).len() && 0 <= a < g.take(q)[i].tokens.len() implies
        (#[trigger] g.take(q)[i].tokens[a]).span.start < lo by {
        assert(unit_placed(us[i], b));
        assert(g.take(q)[i] == unit_group(us[i]));
        assert(tokens_within(unit_toks(us[i]), us[i].lo as int, us[i].hi as int));
        assert(unit_toks(us[i])[a].span.start < unit_toks(us[i])[a].span.end);
        assert(us[i].hi <= us[q].lo);
    }
    assert forall|i: int, a: int| 0 <= i < g.skip(q).len() && 0 <= a < g.skip(q)[i].tokens.len() implies
        (#[trigger] g.skip(q)[i].tokens[a]).span.start >= lo by {
        assert(unit_placed(us[q + i], b));
        assert(g.skip(q)[i] == unit_group(us[q + i]));
        assert(tokens_within(unit_toks(us[q + i]), us[q + i].lo as int, us[q + i].hi as int));
        if i > 0 {
            assert(us[q].hi <= us[q + i].lo);
            assert(unit_placed(us[q], b));
            assert(tokens_within(unit_toks(us[q]), us[q].lo as int, us[q].hi as int));
            assert(unit_toks(us[q])[0].span.start < unit_toks(us[q])[0].span.end);
        }
    }
    lemma_group_tokens_all(g.take(q), |tk: TokenV| tk.span.start < lo);
    lemma_group_tokens_all(g.skip(q), |tk: TokenV| tk.span.start >= lo);
    let a = group_tokens(g.take(q));
    let c = group_tokens(g.skip(q));
    assert(unit_placed(us[q], b));
    if lo == 0 {
        if a.len() > 0 {
            assert(a[0].span.start < 0);
        }
        assert(a + c =~= c);
        assert(b.skip(0) =~= b);
    } else if b[lo - 1] == 10u8 {
        assert(b.skip(0) =~= b);
        lemma_lex_cut_line(b, 0, lo, 0);
        lemma_lex_spans(b.take(lo), 0, 0);
        lemma_lex_spans(b, lo, 0);
        lemma_split_unique(lex_from(b.take(lo), 0, 0), lex_from(b, lo, 0), a, c, lo);
    } else {
        assert(unit_toks(us[q])[0].span.start == lo);
        let j = a.len() as int;
        assert(g.skip(q)[0] == unit_group(us[q]));
        assert(g.skip(q) =~= seq![g.skip(q)[0]] + g.skip(q).skip(1));
        lemma_group_tokens_append(seq![g.skip(q)[0]], g.skip(q).skip(1));
        let one = seq![g.skip(q)[0]];
        assert(group_tokens(one) =~= g.skip(q)[0].tokens) by {
            assert(one.drop_last() =~= Seq::<GroupV>::empty());
            assert(group_tokens(one.drop_last()) =~= Seq::<TokenV>::empty());
            assert(one.last() == g.skip(q)[0]);
            assert(group_tokens(one) == group_tokens(one.drop_last()) + one.last().tokens);
        }
        assert(c[0] == unit_toks(us[q])[0]);
        assert(t[j] == c[0]);
        lemma_lex_skip(b, 0, 0, j);
        assert(t.skip(j) =~= c);
    }
}

/// Well formed text is well formed from the start of every line.
proof fn lemma_line_valid(b: Seq<u8>, pos: int)
    requires
        valid_utf8(b),
        0 <= pos <= b.len(),
        pos == 0 || b[pos - 1] == 10u8,
    ensures
        valid_from(b, pos),
{
    assert(b.skip(0) =~= b);
    if pos > 0 {
        lemma_valid_at_lead_byte(b, 0, pos - 1);
        lemma_step_scalar(b, pos - 1);
    }
}

/// After an edit, the whole text lexes as the tokens of the reused units
/// before the edit, the tokens of the re-lexed region, and the tokens of the
/// reused units after it moved by the change in length.
#[verifier::spinoff_prover]
#[verifier::rlimit(40)]
proof fn lemma_edit_tokens(
    ob: Seq<u8>,
    nb: Seq<u8>,
    start: int,
    end: int,
    repl: Seq<u8>,
    us: Seq<Unit>,
    p: int,
    rs: int,
    q: int,
    stop: int,
    delta: int,
    tr: Seq<TokenV>,
)
    requires
        0 <= start <= end <= ob.len(),
        nb == ob.subrange(0, start) + repl + ob.subrange(end, ob.len() as int),
        valid_utf8(ob),
        valid_utf8(nb),
        ob.len() <= u32::MAX,
        nb.len() <= u32::MAX,
        units_placed(us, ob),
        units_within(us, ob.len() as int),
        group_tokens(units_groups(us)) == lex_from(ob, 0, 0),
        0 <= p <= q <= us.len(),
        p > 0 ==> rs == us[p - 1].hi,
        p == 0 ==> rs == 0,
        0 <= rs <= start,
        rs == 0 || nb[rs - 1] == 10u8,
        delta == repl.len() - (end - start),
        start + repl.len() <= stop <= nb.len(),
        q < us.len() ==> stop == us[q].lo + delta && us[q].lo >= end && (stop == 0 || nb[stop - 1]
            == 10u8),
        q == us.len() ==> stop == nb.len(),
        tr == lex_from(nb.subrange(rs, stop), 0, rs),
    ensures
        lex_from(nb, 0, 0) == group_tokens(units_groups(us).take(p)) + tr + shift_tokvs(
            group_tokens(units_groups(us).skip(q)),
            delta as i64,
        ),
{
    let g = units_groups(us);
    let nl = nb.len() as int;
    assert(nl == ob.len() - (end - start) + repl.len());
    assert forall|x: int| 0 <= x < start implies nb[x] == ob[x] by {
        assert(nb[x] == ob.subrange(0, start)[x]);
    }
    assert forall|x: int| start + repl.len() <= x < nl implies nb[x] == ob[x - delta] by {
        assert(nb[x] == ob.subrange(end, ob.len() as int)[x - start - repl.len()]);
    }
    assert(nb.skip(0) =~= nb);
    // The reused units before the edit.
    let pre = group_tokens(g.take(p));
    if p == 0 {
        assert(g.take(0) =~= Seq::<GroupV>::empty());
        assert(pre =~= Seq::<TokenV>::empty());
        lemma_lex_empty(nb.take(0), 0);
    } else {
        assert(unit_placed(us[p - 1], ob));
        assert(tokens_within(unit_toks(us[p - 1]), us[p - 1].lo as int, us[p - 1].hi as int));
        assert(unit_toks(us[p - 1])[0].span.start < unit_toks(us[p - 1])[0].span.end);
        assert(nb.take(rs) =~= ob.take(rs));
        assert(ob[rs - 1] == nb[rs - 1]);
        lemma_prefix_tokens(us, ob, p);
    }
    assert(lex_from(nb.take(rs), 0, 0) == pre);
    if rs == 0 {
        assert(lex_from(nb, 0, 0) =~= lex_from(nb.take(rs), 0, 0) + lex_from(nb, rs, 0));
    } else {
        lemma_lex_cut_line(nb, 0, rs, 0);
    }
    // The re-lexed region.
    lemma_line_valid(nb, rs);
    let sub = nb.subrange(rs, stop);
    if stop == nl {
        lemma_lex_empty(nb, 0);
        assert(nb.skip(rs) =~= sub.skip(0));
        lemma_lex_moved(nb, rs, 0, sub, 0, rs);
        lemma_shift_tokvs_zero(tr);
        assert(lex_from(nb, rs, 0) =~= tr + lex_from(nb, stop, 0));
    } else if stop == 0 {
        assert(sub =~= Seq::<u8>::empty());
        lemma_lex_empty(sub, rs);
        assert(lex_from(nb, rs, 0) =~= tr + lex_from(nb, stop, 0));
    } else {
        lemma_lex_cut_line(nb, rs, stop, 0);
        assert(nb.take(stop).skip(rs) =~= sub.skip(0));
        lemma_lex_moved(nb.take(stop), rs, 0, sub, 0, rs);
        lemma_shift_tokvs_zero(tr);
    }
    // The reused units after the edit.
    let post = group_tokens(g.skip(q));
    if q == us.len() {
        lemma_lex_empty(nb, 0);
        assert(g.skip(q) =~= Seq::<GroupV>::empty());
        assert(post =~= Seq::<TokenV>::empty());
        assert(shift_tokvs(post, delta as i64) =~= Seq::<TokenV>::empty());
    } else {
        let lo = us[q].lo as int;
        assert(lo <= ob.len());
        assert(nb.skip(stop) =~= ob.skip(lo)) by {
            assert forall|x: int| 0 <= x < nb.skip(stop).len() implies #[trigger] nb.skip(stop)[x]
                == ob.skip(lo)[x] by {
                assert(nb[stop + x] == ob[stop + x - delta]);
            }
        }
        lemma_lex_moved(nb, stop, 0, ob, lo, 0);
        lemma_suffix_tokens(us, ob, q);
    }
    assert(lex_from(nb, 0, 0) =~= pre + tr + shift_tokvs(post, delta as i64));
}

/// A unit moved by `delta` bytes.
spec fn shifted_of(a: Unit, b: Unit, delta: int) -> bool {
    &&& a.lo == b.lo + delta
    &&& a.hi == b.hi + delta
    &&& unit_group(a) == shift_group(unit_group(b), delta as i64)
}

proof fn lemma_unit_nonempty(u: Unit, b: Seq<u8>)
    requires
        unit_placed(u, b),
    ensures
        u.lo < u.hi,
        u.lo <= unit_toks(u)[0].span.start,
{
    assert(unit_toks(u)[0].span.start < unit_toks(u)[0].span.end);
}

/// The units after an edit: the reused ones before it, those of the region,
/// and the reused ones after it moved. Their groups are the old groups before,
/// the region's, and the old groups after moved.
proof fn lemma_edit_groups(
    us: Seq<Unit>,
    p: int,
    q: int,
    delta: int,
    rg: Seq<GroupV>,
    pre: Seq<Unit>,
    reg: Seq<Unit>,
    post: Seq<Unit>,
)
    requires
        0 <= p <= q <= us.len(),
        pre.len() == p,
        forall|x: int| 0 <= x < p ==> same_unit(#[trigger] pre[x], us[x]),
        units_groups(reg) == rg,
        post.len() == us.len() - q,
        forall|y: int| 0 <= y < post.len() ==> shifted_of(#[trigger] post[y], us[q + y], delta),
    ensures
        units_groups(pre + reg + post) == units_groups(us).take(p) + rg + shift_groups(
            units_groups(us).skip(q),
            delta as i64,
        ),
{
    let g = units_groups(us);
    let all = pre + reg + post;
    let rhs = g.take(p) + rg + shift_groups(g.skip(q), delta as i64);
    assert forall|x: int| 0 <= x < all.len() implies #[trigger] units_groups(all)[x] == rhs[x] by {
        if x < p {
            assert(all[x] == pre[x]);
        } else if x < p + reg.len() {
            assert(all[x] == reg[x - p]);
            assert(rg[x - p] == unit_group(reg[x - p]));
        } else {
            let y = x - p - reg.len();
            assert(all[x] == post[y]);
            assert(shifted_of(post[y], us[q + y], delta));
        }
    }
    assert(units_groups(all) =~= rhs);
}

/// A reused unit after an edit, moved, is placed in the new text.
#[verifier::spinoff_prover]
proof fn lemma_moved_unit_placed(
    ob: Seq<u8>,
    nb: Seq<u8>,
    start: int,
    end: int,
    repl_len: int,
    us: Seq<Unit>,
    q: int,
    stop: int,
    delta: int,
    post: Seq<Unit>,
    y: int,
)
    requires
        0 <= start <= end <= ob.len(),
        0 <= repl_len,
        nb.len() == ob.len() - (end - start) + repl_len,
        forall|x: int| start + repl_len <= x < nb.len() ==> nb[x] == ob[x - delta],
        nb.len() <= u32::MAX,
        units_placed(us, ob),
        units_within(us, ob.len() as int),
        0 <= q <= us.len(),
        delta == repl_len - (end - start),
        start + repl_len <= stop <= nb.len(),
        q < us.len() ==> stop == us[q].lo + delta && (stop == 0 || nb[stop - 1] == 10u8),
        forall|z: int| q <= z < us.len() ==> #[trigger] us[z].lo >= end,
        post.len() == us.len() - q,
        forall|z: int| 0 <= z < post.len() ==> shifted_of(#[trigger] post[z], us[q + z], delta),
        0 <= y < post.len(),
    ensures
        unit_placed(post[y], nb),
        post[y].lo <= post[y].hi <= nb.len(),
{
    let u = us[q + y];
    assert(shifted_of(post[y], u, delta));
    assert(unit_placed(u, ob));
    lemma_unit_nonempty(u, ob);
    let ts = unit_toks(u);
    assert(unit_toks(post[y]) == shift_tokvs(ts, delta as i64));
    assert(u.lo >= end);
    assert(u.hi <= ob.len());
    assert(tokens_within(ts, u.lo as int, u.hi as int));
    assert forall|a: int| 0 <= a < ts.len() implies post[y].lo <= (#[trigger] unit_toks(post[y])[a]).span.start
        < unit_toks(post[y])[a].span.end <= post[y].hi by {
        assert(u.lo <= ts[a].span.start < ts[a].span.end <= u.hi);
    }
    assert(tokens_within(unit_toks(post[y]), post[y].lo as int, post[y].hi as int));
    if y > 0 {
        assert(us[q].hi <= u.lo);
        assert(unit_placed(us[q], ob));
        lemma_unit_nonempty(us[q], ob);
        if u.lo <= ob.len() && ob[u.lo - 1] == 10u8 {
            assert(nb[u.lo - 1 + delta] == ob[u.lo - 1]);
        }
        if ts[0].span.start == u.lo {
            assert(unit_toks(post[y])[0].span.start == post[y].lo);
        }
    }
}

/// The units after an edit are placed in the new text, in order, within it.
#[verifier::spinoff_prover]
#[verifier::rlimit(60)]
proof fn lemma_edit_each_placed(
    ob: Seq<u8>,
    nb: Seq<u8>,
    start: int,
    end: int,
    repl_len: int,
    us: Seq<Unit>,
    p: int,
    rs: int,
    q: int,
    stop: int,
    delta: int,
    pre: Seq<Unit>,
    reg: Seq<Unit>,
    post: Seq<Unit>,
)
    requires
        0 <= start <= end <= ob.len(),
        0 <= repl_len,
        nb.len() == ob.len() - (end - start) + repl_len,
        forall|x: int| 0 <= x < start ==> nb[x] == ob[x],
        forall|x: int| start + repl_len <= x < nb.len() ==> nb[x] == ob[x - delta],
        nb.len() <= u32::MAX,
        units_placed(us, ob),
        units_within(us, ob.len() as int),
        0 <= p <= q <= us.len(),
        p > 0 ==> rs == us[p - 1].hi,
        p == 0 ==> rs == 0,
        0 <= rs <= start,
        rs == 0 || nb[rs - 1] == 10u8,
        delta == repl_len - (end - start),
        start + repl_len <= stop <= nb.len(),
        q < us.len() ==> stop == us[q].lo + delta && (stop == 0 || nb[stop - 1] == 10u8),
        forall|y: int| q <= y < us.len() ==> #[trigger] us[y].lo >= end,
        pre.len() == p,
        forall|x: int| 0 <= x < p ==> same_unit(#[trigger] pre[x], us[x]),
        forall|i: int| 0 <= i < reg.len() ==> rs <= (#[trigger] reg[i]).lo <= reg[i].hi <= stop,
        forall|i: int|
            0 <= i < reg.len() ==> unit_toks(#[trigger] reg[i]).len() > 0 && tokens_within(
                unit_toks(reg[i]),
                reg[i].lo as int,
                reg[i].hi as int,
            ),
        reg.len() > 0 ==> reg[0].lo == rs,
        forall|i: int| 0 < i < reg.len() ==> (#[trigger] reg[i]).lo == unit_toks(reg[i])[0].span.start,
        forall|i: int, j: int| 0 <= i < j < reg.len() ==> (#[trigger] reg[i]).hi <= (#[trigger] reg[j]).lo,
        post.len() == us.len() - q,
        forall|y: int| 0 <= y < post.len() ==> shifted_of(#[trigger] post[y], us[q + y], delta),
    ensures
        forall|x: int| 0 <= x < (pre + reg + post).len() ==> unit_placed(#[trigger] (pre + reg + post)[x], nb)
            && (pre + reg + post)[x].lo <= (pre + reg + post)[x].hi <= nb.len(),
{
    let all = pre + reg + post;
    let r = reg.len() as int;
    // Every reused unit before the edit ends by `rs`.
    assert forall|x: int| 0 <= x < p implies #[trigger] us[x].hi <= rs by {
        if x < p - 1 {
            assert(us[x].hi <= us[p - 1].lo);
            assert(unit_placed(us[p - 1], ob));
            lemma_unit_nonempty(us[p - 1], ob);
        }
    }
    // Every reused unit after the edit starts at or after `stop` once moved.
    assert forall|y: int| 0 <= y < post.len() implies stop <= #[trigger] post[y].lo by {
        assert(shifted_of(post[y], us[q + y], delta));
        if y > 0 {
            assert(us[q].hi <= us[q + y].lo);
            assert(unit_placed(us[q], ob));
            lemma_unit_nonempty(us[q], ob);
        }
    }
    assert forall|x: int| 0 <= x < all.len() implies unit_placed(#[trigger] all[x], nb) && all[x].lo
        <= all[x].hi <= nb.len() by {
        if x < p {
            assert(all[x] == pre[x]);
            assert(same_unit(pre[x], us[x]));
            assert(unit_placed(us[x], ob));
            assert(unit_toks(pre[x]) == unit_group(pre[x]).tokens);
            assert(unit_toks(pre[x]) == unit_toks(us[x]));
            lemma_unit_nonempty(us[x], ob);
            assert(us[x].hi <= rs);
            if us[x].lo > 0 && us[x].lo <= ob.len() && ob[us[x].lo - 1] == 10u8 {
                assert(nb[us[x].lo - 1] == ob[us[x].lo - 1]);
            }
            assert(unit_placed(pre[x], nb));
            assert(pre[x].hi <= nb.len());
        } else if x < p + r {
            assert(all[x] == reg[x - p]);
            let i = x - p;
            assert(unit_toks(reg[i]).len() > 0);
            assert(rs <= reg[i].lo <= reg[i].hi <= stop);
            if i == 0 {
                assert(reg[0].lo == rs);
            } else {
                assert(reg[i].lo == unit_toks(reg[i])[0].span.start);
            }
            assert(unit_placed(reg[i], nb));
        } else {
            let y = x - p - r;
            assert(all[x] == post[y]);
            lemma_moved_unit_placed(ob, nb, start, end, repl_len, us, q, stop, delta, post, y);
        }
    }
}

/// The units after an edit are placed in the new text, in order, within it.
#[verifier::spinoff_prover]
#[verifier::rlimit(60)]
proof fn lemma_edit_ordered(
    ob: Seq<u8>,
    nb: Seq<u8>,
    start: int,
    end: int,
    repl_len: int,
    us: Seq<Unit>,
    p: int,
    rs: int,
    q: int,
    stop: int,
    delta: int,
    pre: Seq<Unit>,
    reg: Seq<Unit>,
    post: Seq<Unit>,
)
    requires
        0 <= start <= end <= ob.len(),
        0 <= repl_len,
        nb.len() == ob.len() - (end - start) + repl_len,
        forall|x: int| 0 <= x < start ==> nb[x] == ob[x],
        forall|x: int| start + repl_len <= x < nb.len() ==> nb[x] == ob[x - delta],
        nb.len() <= u32::MAX,
        units_placed(us, ob),
        units_within(us, ob.len() as int),
        0 <= p <= q <= us.len(),
        p > 0 ==> rs == us[p - 1].hi,
        p == 0 ==> rs == 0,
        0 <= rs <= start,
        rs == 0 || nb[rs - 1] == 10u8,
        delta == repl_len - (end - start),
        start + repl_len <= stop <= nb.len(),
        q < us.len() ==> stop == us[q].lo + delta && (stop == 0 || nb[stop - 1] == 10u8),
        forall|y: int| q <= y < us.len() ==> #[trigger] us[y].lo >= end,
        pre.len() == p,
        forall|x: int| 0 <= x < p ==> same_unit(#[trigger] pre[x], us[x]),
        forall|i: int| 0 <= i < reg.len() ==> rs <= (#[trigger] reg[i]).lo <= reg[i].hi <= stop,
        forall|i: int|
            0 <= i < reg.len() ==> unit_toks(#[trigger] reg[i]).len() > 0 && tokens_within(
                unit_toks(reg[i]),
                reg[i].lo as int,
                reg[i].hi as int,
            ),
        reg.len() > 0 ==> reg[0].lo == rs,
        forall|i: int| 0 < i < reg.len() ==> (#[trigger] reg[i]).lo == unit_toks(reg[i])[0].span.start,
        forall|i: int, j: int| 0 <= i < j < reg.len() ==> (#[trigger] reg[i]).hi <= (#[trigger] reg[j]).lo,
        post.len() == us.len() - q,
        forall|y: int| 0 <= y < post.len() ==> shifted_of(#[trigger] post[y], us[q + y], delta),
    ensures
        forall|i: int, j: int| 0 <= i < j < (pre + reg + post).len() ==> (#[trigger] (pre + reg + post)[i]).hi <= (
        #[trigger] (pre + reg + post)[j]).lo,
{
    let all = pre + reg + post;
    let r = reg.len() as int;
    // Every reused unit before the edit ends by `rs`.
    assert forall|x: int| 0 <= x < p implies #[trigger] us[x].hi <= rs by {
        if x < p - 1 {
            assert(us[x].hi <= us[p - 1].lo);
            assert(unit_placed(us[p - 1], ob));
            lemma_unit_nonempty(us[p - 1], ob);
        }
    }
    // Every reused unit after the edit starts at or after `stop` once moved.
    assert forall|y: int| 0 <= y < post.len() implies stop <= #[trigger] post[y].lo by {
        assert(shifted_of(post[y], us[q + y], delta));
        if y > 0 {
            assert(us[q].hi <= us[q + y].lo);
            assert(unit_placed(us[q], ob));
            lemma_unit_nonempty(us[q], ob);
        }
    }
    assert forall|i: int, j: int| 0 <= i < j < all.len() implies (#[trigger] all[i]).hi <= (
    #[trigger] all[j]).lo by {
        if j < p {
            assert(all[i] == pre[i] && all[j] == pre[j]);
            assert(same_unit(pre[i], us[i]) && same_unit(pre[j], us[j]));
            assert(us[i].hi <= us[j].lo);
        } else if j < p + r {
            assert(all[j] == reg[j - p]);
            assert(rs <= reg[j - p].lo);
            if i < p {
                assert(all[i] == pre[i]);
                assert(same_unit(pre[i], us[i]));
                assert(us[i].hi <= rs);
            } else {
                assert(all[i] == reg[i - p]);
                assert(reg[i - p].hi <= reg[j - p].lo);
            }
        } else {
            let y = j - p - r;
            assert(all[j] == post[y]);
            assert(stop <= post[y].lo);
            if i < p {
                assert(all[i] == pre[i]);
                assert(same_unit(pre[i], us[i]));
                assert(us[i].hi <= rs);
            } else if i < p + r {
                assert(all[i] == reg[i - p]);
                assert(reg[i - p].hi <= stop);
            } else {
                let z = i - p - r;
                assert(all[i] == post[z]);
                assert(shifted_of(post[z], us[q + z], delta));
                assert(shifted_of(post[y], us[q + y], delta));
                assert(us[q + z].hi <= us[q + y].lo);
            }
        }
    }
}

/// The units after an edit are placed in the new text, in order, within it.
#[verifier::spinoff_prover]
#[verifier::rlimit(60)]
proof fn lemma_edit_placed(
    ob: Seq<u8>,
    nb: Seq<u8>,
    start: int,
    end: int,
    repl_len: int,
    us: Seq<Unit>,
    p: int,
    rs: int,
    q: int,
    stop: int,
    delta: int,
    pre: Seq<Unit>,
    reg: Seq<Unit>,
    post: Seq<Unit>,
)
    requires
        0 <= start <= end <= ob.len(),
        0 <= repl_len,
        nb.len() == ob.len() - (end - start) + repl_len,
        forall|x: int| 0 <= x < start ==> nb[x] == ob[x],
        forall|x: int| start + repl_len <= x < nb.len() ==> nb[x] == ob[x - delta],
        nb.len() <= u32::MAX,
        units_placed(us, ob),
        units_within(us, ob.len() as int),
        0 <= p <= q <= us.len(),
        p > 0 ==> rs == us[p - 1].hi,
        p == 0 ==> rs == 0,
        0 <= rs <= start,
        rs == 0 || nb[rs - 1] == 10u8,
        delta == repl_len - (end - start),
        start + repl_len <= stop <= nb.len(),
        q < us.len() ==> stop == us[q].lo + delta && (stop == 0 || nb[stop - 1] == 10u8),
        forall|y: int| q <= y < us.len() ==> #[trigger] us[y].lo >= end,
        pre.len() == p,
        forall|x: int| 0 <= x < p ==> same_unit(#[trigger] pre[x], us[x]),
        forall|i: int| 0 <= i < reg.len() ==> rs <= (#[trigger] reg[i]).lo <= reg[i].hi <= stop,
        forall|i: int|
            0 <= i < reg.len() ==> unit_toks(#[trigger] reg[i]).len() > 0 && tokens_within(
                unit_toks(reg[i]),
                reg[i].lo as int,
                reg[i].hi as int,
            ),
        reg.len() > 0 ==> reg[0].lo == rs,
        forall|i: int| 0 < i < reg.len() ==> (#[trigger] reg[i]).lo == unit_toks(reg[i])[0].span.start,
        forall|i: int, j: int| 0 <= i < j < reg.len() ==> (#[trigger] reg[i]).hi <= (#[trigger] reg[j]).lo,
        post.len() == us.len() - q,
        forall|y: int| 0 <= y < post.len() ==> shifted_of(#[trigger] post[y], us[q + y], delta),
    ensures
        units_within(pre + reg + post, nb.len() as int),
        units_placed(pre + reg + post, nb),
{
    lemma_edit_each_placed(ob, nb, start, end, repl_len, us, p, rs, q, stop, delta, pre, reg, post);
    lemma_edit_ordered(ob, nb, start, end, repl_len, us, p, rs, q, stop, delta, pre, reg, post);
}


/// The units an edit assembles are placed in the new text, within it, and
/// their tokens are the tokens of the whole new text.
#[verifier::spinoff_prover]
proof fn lemma_edit_result(
    ob: Seq<u8>,
    nb: Seq<u8>,
    start: int,
    end: int,
    repl: Seq<u8>,
    us: Seq<Unit>,
    p: int,
    rs: int,
    ns: int,
    q: int,
    stop: int,
    delta: int,
    tr: Seq<TokenV>,
    rg: Seq<GroupV>,
    pre: Seq<Unit>,
    reg: Seq<Unit>,
    post: Seq<Unit>,
    suffix: Seq<Unit>,
)
    requires
        0 <= start <= end <= ob.len(),
        nb == ob.subrange(0, start) + repl + ob.subrange(end, ob.len() as int),
        valid_utf8(ob),
        valid_utf8(nb),
        ob.len() <= u32::MAX,
        nb.len() <= u32::MAX,
        units_placed(us, ob),
        units_within(us, ob.len() as int),
        group_tokens(units_groups(us)) == lex_from(ob, 0, 0),
        suffix_of(suffix, us, ns, end),
        0 <= p <= ns,
        ns <= q <= us.len(),
        p > 0 ==> rs == us[p - 1].hi,
        p == 0 ==> rs == 0,
        0 <= rs <= start,
        rs == 0 || nb[rs - 1] == 10u8,
        delta == repl.len() - (end - start),
        start + repl.len() <= stop <= nb.len(),
        q < us.len() ==> stop == us[q].lo + delta,
        stop == nb.len() || stop == 0 || nb[stop - 1] == 10u8,
        q == us.len() ==> stop == nb.len(),
        tr == lex_from(nb.subrange(rs, stop), 0, rs),
        units_groups(reg) == rg,
        group_tokens(rg) == tr,
        pre.len() == p,
        forall|x: int| 0 <= x < p ==> same_unit(#[trigger] pre[x], us[x]),
        forall|i: int| 0 <= i < reg.len() ==> rs <= (#[trigger] reg[i]).lo <= reg[i].hi <= stop,
        forall|i: int|
            0 <= i < reg.len() ==> unit_toks(#[trigger] reg[i]).len() > 0 && tokens_within(
                unit_toks(reg[i]),
                reg[i].lo as int,
                reg[i].hi as int,
            ),
        reg.len() > 0 ==> reg[0].lo == rs,
        forall|i: int| 0 < i < reg.len() ==> (#[trigger] reg[i]).lo == unit_toks(reg[i])[0].span.start,
        forall|i: int, j: int| 0 <= i < j < reg.len() ==> (#[trigger] reg[i]).hi <= (#[trigger] reg[j]).lo,
        post.len() == us.len() - q,
        forall|y: int| 0 <= y < post.len() ==> shifted_of(#[trigger] post[y], us[q + y], delta),
    ensures
        units_within(pre + reg + post, nb.len() as int),
        units_placed(pre + reg + post, nb),
        group_tokens(units_groups(pre + reg + post)) == lex_from(nb, 0, 0),
        units_groups(pre + reg + post) == units_groups(us).take(p) + rg + shift_groups(
            units_groups(us).skip(q),
            delta as i64,
        ),
        lex_from(nb, 0, 0) == group_tokens(units_groups(us).take(p)) + tr + shift_tokvs(
            group_tokens(units_groups(us).skip(q)),
            delta as i64,
        ),
{
    let nl = nb.len() as int;
    assert forall|x: int| 0 <= x < start implies nb[x] == ob[x] by {
        assert(nb[x] == ob.subrange(0, start)[x]);
    }
    assert forall|x: int| start + repl.len() <= x < nl implies nb[x] == ob[x - delta] by {
        assert(nb[x] == ob.subrange(end, ob.len() as int)[x - start - repl.len()]);
    }
    assert forall|y: int| q <= y < us.len() implies #[trigger] us[y].lo >= end by {
        assert(same_unit(suffix[y - ns], us[ns + (y - ns)]));
    }
    if q < us.len() {
        assert(us[q].lo >= end);
        if stop == nb.len() {
            assert(unit_placed(us[q], ob));
            lemma_unit_nonempty(us[q], ob);
            assert(us[q].hi <= ob.len());
        }
    }
    lemma_edit_placed(ob, nb, start, end, repl.len() as int, us, p, rs, q, stop, delta, pre, reg, post);
    lemma_edit_groups(us, p, q, delta, rg, pre, reg, post);
    lemma_edit_tokens(ob, nb, start, end, repl, us, p, rs, q, stop, delta, tr);
    let g = units_groups(us);
    lemma_group_tokens_append(g.take(p), rg);
    lemma_group_tokens_append(g.take(p) + rg, shift_groups(g.skip(q), delta as i64));
    lemma_group_tokens_shift(g.skip(q), delta as i64);
}

/// How many units end by `start`: the units come in order, so these are the
/// first ones.
spec fn count_ending_by(us: Seq<Unit>, start: int) -> int
    decreases us.len(),
{
    if us.len() == 0 {
        0
    } else if us.last().hi <= start {
        us.len() as int
    } else {
        count_ending_by(us.drop_last(), start)
    }
}

/// The largest count up to `m` of first units whose last one ends at the start
/// of a line (or 0).
spec fn back_to_line(us: Seq<Unit>, m: int, b: Seq<u8>) -> int
    decreases m,
{
    if m <= 0 || m > us.len() {
        0
    } else if us[m - 1].hi == 0 || (us[m - 1].hi <= b.len() && b[us[m - 1].hi - 1] == 10u8) {
        m
    } else {
        back_to_line(us, m - 1, b)
    }
}

/// How many units an edit at `start` reuses before the edit: those that end by
/// it, less the last, back to one that ends where a line of the new text
/// starts; then one less again, back to a line start once more.
spec fn kept_units(us: Seq<Unit>, start: int, b: Seq<u8>) -> int {
    let np = count_ending_by(us, start);
    let p1 = back_to_line(us, if np > 0 { np - 1 } else { 0 }, b);
    back_to_line(us, if p1 > 0 { p1 - 1 } else { 0 }, b)
}

/// The last of the `p` units reused before an edit re-parses, in the new
/// text, to the same statement group.
spec fn seam_ok(us: Seq<Unit>, nb: Seq<u8>, p: int) -> bool {
    let g = units_groups(us);
    p == 0 || group_at(lex_from(nb, 0, 0), group_tokens(g.take(p - 1)).len() as int) == g[p - 1]
}

proof fn lemma_back_to_line(us: Seq<Unit>, m: int, b: Seq<u8>)
    ensures
        0 <= back_to_line(us, m, b),
        back_to_line(us, m, b) <= m || back_to_line(us, m, b) == 0,
        back_to_line(us, m, b) <= us.len(),
        back_to_line(us, m, b) > 0 ==> ({
            let h = us[back_to_line(us, m, b) - 1].hi;
            h == 0 || (h <= b.len() && b[h - 1] == 10u8)
        }),
    decreases m,
{
    if 0 < m <= us.len() {
        lemma_back_to_line(us, m - 1, b);
    }
}

/// When the statement kept last before an edit is followed by a whole line
/// the edit leaves alone, it re-parses, in the edited text, to the same group:
/// its parse reads its own tokens and the one after them, and lexing gives
/// the same tokens up to the end of that line.
#[verifier::spinoff_prover]
#[verifier::rlimit(80)]
proof fn lemma_seam_kept(
    ob: Seq<u8>,
    nb: Seq<u8>,
    start: int,
    end: int,
    repl: Seq<u8>,
    us: Seq<Unit>,
    p1: int,
    p: int,
)
    requires
        0 <= start <= end <= ob.len(),
        nb == ob.subrange(0, start) + repl + ob.subrange(end, ob.len() as int),
        valid_utf8(ob),
        valid_utf8(nb),
        ob.len() <= u32::MAX,
        nb.len() <= u32::MAX,
        units_placed(us, ob),
        units_within(us, ob.len() as int),
        group_tokens(units_groups(us)) == lex_from(ob, 0, 0),
        units_groups(us) == groups_from(lex_from(ob, 0, 0), 0),
        forall|i: int| 0 <= i < units_groups(us).len() ==> (#[trigger] units_groups(us)[i]).tokens.len() > 0,
        0 <= p < p1 <= us.len(),
        us[p1 - 1].hi <= start,
        nb[us[p1 - 1].hi - 1] == 10u8,
        p > 0 ==> nb[us[p - 1].hi - 1] == 10u8,
    ensures
        seam_ok(us, nb, p),
{
    if p > 0 {
        let g = units_groups(us);
        let to = lex_from(ob, 0, 0);
        let tn = lex_from(nb, 0, 0);
        let rs = us[p - 1].hi as int;
        let m = us[p1 - 1].hi as int;
        assert(unit_placed(us[p], ob));
        assert(unit_placed(us[p - 1], ob));
        assert(unit_placed(us[p1 - 1], ob));
        lemma_unit_nonempty(us[p], ob);
        lemma_unit_nonempty(us[p - 1], ob);
        let t0 = unit_toks(us[p])[0];
        assert(t0.span.start < us[p].hi) by {
            assert(t0.span.start < t0.span.end <= us[p].hi);
        }
        if p < p1 - 1 {
            assert(us[p].hi <= us[p1 - 1].lo);
            assert(us[p1 - 1].lo <= us[p1 - 1].hi);
        }
        assert(us[p - 1].hi <= us[p].lo);
        assert(0 < rs < m <= start);
        assert(ob.take(m) =~= nb.take(m));
        assert(ob.take(rs) =~= nb.take(rs));
        assert(ob[rs - 1] == nb[rs - 1]);
        assert(ob[m - 1] == nb[m - 1]);
        assert(valid_from(ob, 0) && valid_from(nb, 0)) by {
            assert(ob.skip(0) =~= ob);
            assert(nb.skip(0) =~= nb);
        }
        lemma_line_valid(ob, rs);
        lemma_line_valid(nb, rs);
        lemma_lex_cut_line(ob, 0, rs, 0);
        lemma_lex_cut_line(ob, rs, m, 0);
        lemma_lex_cut_line(nb, 0, rs, 0);
        lemma_lex_cut_line(nb, rs, m, 0);
        let a = lex_from(ob.take(rs), 0, 0);
        let x_ = lex_from(ob.take(m), rs, 0);
        let r1 = lex_from(ob, m, 0);
        let r2 = lex_from(nb, m, 0);
        assert(to =~= (a + x_) + r1);
        assert(tn =~= (a + x_) + r2);
        lemma_lex_spans(ob, m, 0);
        let n = a.len() + x_.len();
        let jj = group_tokens(g.take(p)).len() as int;
        lemma_group_tokens_append(g.take(p), g.skip(p));
        assert(g =~= g.take(p) + g.skip(p));
        lemma_group_tokens_append(seq![g[p]], g.skip(p + 1));
        assert(g.skip(p) =~= seq![g[p]] + g.skip(p + 1));
        assert(group_tokens(seq![g[p]]) =~= g[p].tokens) by {
            assert(seq![g[p]].drop_last() =~= Seq::<GroupV>::empty());
            assert(group_tokens(Seq::<GroupV>::empty()) == Seq::<TokenV>::empty());
            assert(seq![g[p]].last() == g[p]);
        }
        assert(g[p].tokens == unit_toks(us[p]));
        assert(to[jj] == t0) by {
            assert(to[jj] == group_tokens(g.skip(p))[0]);
            assert(group_tokens(g.skip(p))[0] == g[p].tokens[0]);
        }
        assert(jj < n) by {
            if jj >= n {
                assert(to[jj] == r1[jj - n]);
            }
        }
        // The kept statement's group in the old text.
        let e = Seq::<TokenV>::empty();
        lemma_shift_tokvs_zero_all(group_tokens(g.skip(p)));
        lemma_shift_groups_zero(g.skip(p));
        assert(spec_parse_items(e).0 =~= Seq::<GroupV>::empty());
        assert(!spec_parse_items(e).1);
        assert(to =~= group_tokens(g.take(p)) + e + shift_tokvs(group_tokens(g.skip(p)), 0));
        lemma_edit_batch(ob, ob, us, p, p, 0, e, spec_parse_items(e).0, spec_parse_items(e).1);
        assert(g =~= g.take(p) + spec_parse_items(e).0 + shift_groups(g.skip(p), 0));
        let x = group_tokens(g.take(p - 1)).len() as int;
        lemma_batch_reused(ob, ob, us, p, p, 0, e);
        assert(group_at(to, x) == g[p - 1]);
        lemma_stmt_end_facts(to, x);
        assert(next_at(to, x) == jj) by {
            assert(group_at(to, x).tokens.len() == next_at(to, x) - x);
        }
        lemma_shift_tokvs_zero_all(to);
        assert forall|i: int| x <= i < jj + 1 implies tn[i + 0] == shift_tokv(#[trigger] to[i], 0) by {
            assert(tn[i] == (a + x_)[i]);
            assert(to[i] == (a + x_)[i]);
        }
        assert(crate::reparse::window(to, tn, x, jj + 1, 0, 0));
        crate::reparse::lemma_group_agree(to, tn, x, jj + 1, 0, 0);
        lemma_shift_groups_zero(seq![group_at(to, x)]);
        assert(shift_groups(seq![group_at(to, x)], 0)[0] == shift_group(group_at(to, x), 0));
        assert(group_at(tn, x) == g[p - 1]);
    }
}

proof fn lemma_count_ending_by(us: Seq<Unit>, start: int, np: int)
    requires
        0 <= np <= us.len(),
        forall|j: int| 0 <= j < np ==> #[trigger] us[j].hi <= start,
        forall|j: int| np <= j < us.len() ==> #[trigger] us[j].hi > start,
    ensures
        count_ending_by(us, start) == np,
    decreases us.len(),
{
    if us.len() > 0 {
        let n = us.len() - 1;
        if us.last().hi <= start {
            if np < us.len() {
                assert(us[n].hi > start);
            }
        } else {
            if np == us.len() {
                assert(us[n].hi <= start);
            }
            let init = us.drop_last();
            assert forall|j: int| 0 <= j < np implies #[trigger] init[j].hi <= start by {
                assert(init[j] == us[j]);
            }
            assert forall|j: int| np <= j < init.len() implies #[trigger] init[j].hi > start by {
                assert(init[j] == us[j]);
            }
            lemma_count_ending_by(init, start, np);
        }
    }
}

/// After an edit, parsing the new tokens from the end of the reused units
/// before the edit gives the region's groups and then the reused groups after
/// it, moved.
#[verifier::spinoff_prover]
#[verifier::rlimit(60)]
proof fn lemma_batch_after_prefix(
    ob: Seq<u8>,
    nb: Seq<u8>,
    us: Seq<Unit>,
    p: int,
    q: int,
    delta: int,
    tr: Seq<TokenV>,
    rg: Seq<GroupV>,
    rtrunc: bool,
)
    requires
        units_groups(us) == groups_from(lex_from(ob, 0, 0), 0),
        group_tokens(units_groups(us)) == lex_from(ob, 0, 0),
        lex_from(nb, 0, 0) == group_tokens(units_groups(us).take(p)) + tr + shift_tokvs(
            group_tokens(units_groups(us).skip(q)),
            delta as i64,
        ),
        0 <= p <= q <= us.len(),
        rg == spec_parse_items(tr).0,
        rtrunc == spec_parse_items(tr).1,
        rtrunc ==> q == us.len(),
    ensures
        groups_from(lex_from(nb, 0, 0), group_tokens(units_groups(us).take(p)).len() as int) == rg
            + shift_groups(units_groups(us).skip(q), delta as i64),
{
    let g = units_groups(us);
    let to = lex_from(ob, 0, 0);
    let tn = lex_from(nb, 0, 0);
    assert(g.len() == us.len());
    assert(g =~= g.take(q) + g.skip(q));
    lemma_group_tokens_append(g.take(q), g.skip(q));
    let j = group_tokens(g.take(p)).len() as int;
    let xq = group_tokens(g.take(q)).len() as int;
    let r = tr.len() as int;
    let base = j + r;
    let suf = group_tokens(g.skip(q));
    assert(suf.len() == to.len() - xq);
    assert(tn.len() == base + to.len() - xq);
    lemma_groups_positions(to, 0, q as nat);
    assert(rg == groups_from(tr, 0));
    assert forall|i: int| 0 <= i < r implies tn[i + j] == shift_tokv(#[trigger] tr[i], 0) by {
        assert(tn[j + i] == tr[i]);
    }
    assert forall|i: int| xq <= i < to.len() implies tn[i + (base - xq)] == shift_tokv(#[trigger] to[i], delta as i64) by {
        assert(suf[i - xq] == to[i]);
        assert(tn[base + (i - xq)] == shift_tokvs(suf, delta as i64)[i - xq]);
    }
    lemma_groups_tail(to, tn, xq, base - xq, delta as i64);
    assert(groups_from(to, xq) == g.skip(q));
    if rtrunc {
        assert(g.skip(q) =~= Seq::<GroupV>::empty());
        assert(shift_groups(g.skip(q), delta as i64) =~= Seq::<GroupV>::empty());
        assert(tn.len() == j + r);
        lemma_groups_tail(tr, tn, 0, j, 0);
        lemma_shift_groups_zero(rg);
        assert(rg + shift_groups(g.skip(q), delta as i64) =~= rg);
    } else {
        lemma_groups_clean(tr, tn, 0, j, 0);
        lemma_shift_groups_zero(rg);
    }
}

/// After an edit, all but the last of the reused units before it parse the
/// same in the new tokens.
#[verifier::spinoff_prover]
#[verifier::rlimit(60)]
proof fn lemma_batch_reused(
    ob: Seq<u8>,
    nb: Seq<u8>,
    us: Seq<Unit>,
    p: int,
    q: int,
    delta: int,
    tr: Seq<TokenV>,
)
    requires
        units_groups(us) == groups_from(lex_from(ob, 0, 0), 0),
        group_tokens(units_groups(us)) == lex_from(ob, 0, 0),
        forall|i: int| 0 <= i < units_groups(us).len() ==> (#[trigger] units_groups(us)[i]).tokens.len() > 0,
        lex_from(nb, 0, 0) == group_tokens(units_groups(us).take(p)) + tr + shift_tokvs(
            group_tokens(units_groups(us).skip(q)),
            delta as i64,
        ),
        0 < p <= q <= us.len(),
    ensures
        group_tokens(units_groups(us).take(p - 1)).len() + units_groups(us)[p - 1].tokens.len()
            == group_tokens(units_groups(us).take(p)).len(),
        group_tokens(units_groups(us).take(p - 1)).len() < group_tokens(units_groups(us).take(p)).len()
            <= lex_from(nb, 0, 0).len(),
        groups_from(lex_from(nb, 0, 0), 0) == units_groups(us).take(p - 1) + groups_from(
            lex_from(nb, 0, 0),
            group_tokens(units_groups(us).take(p - 1)).len() as int,
        ),
{
    let g = units_groups(us);
    let to = lex_from(ob, 0, 0);
    let tn = lex_from(nb, 0, 0);
    let j = group_tokens(g.take(p)).len() as int;
    assert(g.len() == us.len());
    assert(g =~= g.take(p) + g.skip(p));
    lemma_group_tokens_append(g.take(p), g.skip(p));
    lemma_groups_positions(to, 0, (p - 1) as nat);
    let x = group_tokens(g.take(p - 1)).len() as int;
    lemma_group_tokens_append(g.take(p - 1), seq![g[p - 1]]);
    let one = seq![g[p - 1]];
    assert(group_tokens(one) =~= g[p - 1].tokens) by {
        assert(one.drop_last() =~= Seq::<GroupV>::empty());
        assert(group_tokens(one) == group_tokens(one.drop_last()) + one.last().tokens);
    }
    assert(g.take(p - 1) + one =~= g.take(p));
    assert(x < j);
    lemma_shift_tokvs_zero_all(to);
    assert forall|i: int| 0 <= i < j implies tn[i + 0] == shift_tokv(#[trigger] to[i], 0) by {
        assert(tn[i] == group_tokens(g.take(p))[i]);
        assert(to[i] == group_tokens(g.take(p))[i]);
    }
    assert(crate::reparse::window(to, tn, 0, j, 0, 0));
    lemma_groups_prefix(to, tn, 0, j, 0, 0, (p - 1) as nat);
    lemma_shift_groups_zero(g.take(p - 1));
}

/// After an edit from an analysis that agreed with a full analysis, the new
/// statement groups (the reused ones before the edit, the region's, and the
/// reused ones after it moved) are those of a full analysis of the new text
/// exactly when the last reused one before the edit re-parses the same.
#[verifier::spinoff_prover]
#[verifier::rlimit(60)]
proof fn lemma_edit_batch(
    ob: Seq<u8>,
    nb: Seq<u8>,
    us: Seq<Unit>,
    p: int,
    q: int,
    delta: int,
    tr: Seq<TokenV>,
    rg: Seq<GroupV>,
    rtrunc: bool,
)
    requires
        units_groups(us) == groups_from(lex_from(ob, 0, 0), 0),
        group_tokens(units_groups(us)) == lex_from(ob, 0, 0),
        forall|i: int| 0 <= i < units_groups(us).len() ==> (#[trigger] units_groups(us)[i]).tokens.len() > 0,
        lex_from(nb, 0, 0) == group_tokens(units_groups(us).take(p)) + tr + shift_tokvs(
            group_tokens(units_groups(us).skip(q)),
            delta as i64,
        ),
        0 <= p <= q <= us.len(),
        rg == spec_parse_items(tr).0,
        rtrunc == spec_parse_items(tr).1,
        rtrunc ==> q == us.len(),
    ensures
        groups_from(lex_from(nb, 0, 0), 0) == units_groups(us).take(p) + rg + shift_groups(
            units_groups(us).skip(q),
            delta as i64,
        ) <==> seam_ok(us, nb, p),
{
    let g = units_groups(us);
    let to = lex_from(ob, 0, 0);
    let tn = lex_from(nb, 0, 0);
    let rest = rg + shift_groups(g.skip(q), delta as i64);
    let want = g.take(p) + rg + shift_groups(g.skip(q), delta as i64);
    assert(want =~= g.take(p) + rest);
    lemma_batch_after_prefix(ob, nb, us, p, q, delta, tr, rg, rtrunc);
    let j = group_tokens(g.take(p)).len() as int;
    if p == 0 {
        assert(g.take(0) =~= Seq::<GroupV>::empty());
        assert(want =~= rest);
    } else {
        let x = group_tokens(g.take(p - 1)).len() as int;
        lemma_batch_reused(ob, nb, us, p, q, delta, tr);
        assert(g.take(p) =~= g.take(p - 1).push(g[p - 1]));
        lemma_groups_from_unfold(tn, x);
        lemma_stmt_end_facts(tn, x);
        let gx = group_at(tn, x);
        if seam_ok(us, nb, p) {
            assert(gx == g[p - 1]);
            assert(gx.tokens.len() == j - x);
            assert(next_at(tn, x) == j);
            assert(groups_from(tn, 0) =~= want);
        } else {
            assert(groups_from(tn, 0)[p - 1] == gx);
            assert(want[p - 1] == g[p - 1]);
        }
    }
}

} // verus!
