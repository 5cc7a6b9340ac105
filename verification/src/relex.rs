//! What lexing part of a text gives. The lexer reads forward only, so the
//! tokens from a position depend on the bytes from there on and nothing
//! before; and no token or comment runs across the start of a line, so lexing
//! stops exactly at a line start. Together these let the incremental analysis
//! re-lex only the lines an edit touched.

use vstd::prelude::*;
use vstd::utf8::*;
use crate::lexer::{TokenV, lex_from, scan_token, comment_end, ident_end, digits_end, is_ws_byte, is_comment_start, is_ident_continue_spec, is_ident_start_spec, is_digit_byte, double_kind, single_kind, lemma_lex_empty, lemma_lex_ws, lemma_lex_comment, lemma_lex_token, lemma_ends_advance};
use crate::span::Span;
use crate::unicode::{scalar_at, scalar_len, valid_from, lemma_step_scalar, lemma_scalar_len_bounds, lemma_valid_at_lead_byte};

verus! {

broadcast use vstd::seq_lib::group_seq_properties;

pub open spec fn shift_tokv(t: TokenV, delta: i64) -> TokenV {
    TokenV { kind: t.kind, span: t.span.spec_shifted(delta), text: t.text }
}

/// The tokens moved by `delta` bytes.
pub open spec fn shift_tokvs(ts: Seq<TokenV>, delta: i64) -> Seq<TokenV> {
    ts.map_values(|t: TokenV| shift_tokv(t, delta))
}

/// Two byte sequences that agree from `j1` and `j2` on still agree further on.
proof fn lemma_skip_more(b1: Seq<u8>, j1: int, b2: Seq<u8>, j2: int, l: int)
    requires
        0 <= j1 <= b1.len(),
        0 <= j2 <= b2.len(),
        b1.skip(j1) == b2.skip(j2),
        0 <= l <= b1.len() - j1,
    ensures
        b1.skip(j1 + l) == b2.skip(j2 + l),
        b1.len() - j1 == b2.len() - j2,
{
    assert(b1.skip(j1).len() == b2.skip(j2).len());
    assert(b1.skip(j1).len() == b1.len() - j1);
    assert(b2.skip(j2).len() == b2.len() - j2);
    assert(b1.skip(j1 + l) =~= b2.skip(j2 + l)) by {
        assert forall|x: int| 0 <= x < b1.skip(j1 + l).len() implies #[trigger] b1.skip(j1 + l)[x]
            == b2.skip(j2 + l)[x] by {
            lemma_byte_at(b1, j1, b2, j2, l + x);
            assert(b1.skip(j1 + l)[x] == b1[j1 + l + x]);
            assert(b2.skip(j2 + l)[x] == b2[j2 + l + x]);
        }
    }
}

proof fn lemma_byte_at(b1: Seq<u8>, j1: int, b2: Seq<u8>, j2: int, x: int)
    requires
        0 <= j1 <= b1.len(),
        0 <= j2 <= b2.len(),
        b1.skip(j1) == b2.skip(j2),
        0 <= x < b1.len() - j1,
    ensures
        b1[j1 + x] == b2[j2 + x],
{
    let s1 = b1.skip(j1);
    let s2 = b2.skip(j2);
    assert(s1.len() == b1.len() - j1);
    assert(s2.len() == b2.len() - j2);
    assert(s1[x] == b1[j1 + x]);
    assert(s2[x] == b2[j2 + x]);
}

proof fn lemma_ident_end_le(b: Seq<u8>, j: int)
    requires
        j <= b.len(),
    ensures
        j <= ident_end(b, j) <= b.len(),
    decreases b.len() - j,
{
    if 0 <= j < b.len() {
        lemma_scalar_len_bounds(b, j);
        if j + scalar_len(b, j) <= b.len() && is_ident_continue_spec(scalar_at(b, j)) {
            lemma_ident_end_le(b, j + scalar_len(b, j));
        }
    }
}

proof fn lemma_ident_end_moved(b1: Seq<u8>, j1: int, b2: Seq<u8>, j2: int)
    requires
        0 <= j1 <= b1.len(),
        0 <= j2 <= b2.len(),
        b1.skip(j1) == b2.skip(j2),
    ensures
        ident_end(b1, j1) - j1 == ident_end(b2, j2) - j2,
    decreases b1.len() - j1,
{
    lemma_skip_more(b1, j1, b2, j2, 0);
    if j1 < b1.len() {
        let l = scalar_len(b1, j1);
        lemma_scalar_len_bounds(b1, j1);
        if j1 + l <= b1.len() && is_ident_continue_spec(scalar_at(b1, j1)) {
            lemma_skip_more(b1, j1, b2, j2, l);
            lemma_ident_end_moved(b1, j1 + l, b2, j2 + l);
        }
    }
}

proof fn lemma_digits_end_moved(b1: Seq<u8>, j1: int, b2: Seq<u8>, j2: int)
    requires
        0 <= j1 <= b1.len(),
        0 <= j2 <= b2.len(),
        b1.skip(j1) == b2.skip(j2),
    ensures
        digits_end(b1, j1) - j1 == digits_end(b2, j2) - j2,
    decreases b1.len() - j1,
{
    lemma_skip_more(b1, j1, b2, j2, 0);
    if j1 < b1.len() && is_digit_byte(b1[j1]) {
        lemma_skip_more(b1, j1, b2, j2, 1);
        lemma_digits_end_moved(b1, j1 + 1, b2, j2 + 1);
    }
}

proof fn lemma_comment_end_moved(b1: Seq<u8>, j1: int, b2: Seq<u8>, j2: int)
    requires
        0 <= j1 <= b1.len(),
        0 <= j2 <= b2.len(),
        b1.skip(j1) == b2.skip(j2),
    ensures
        comment_end(b1, j1) - j1 == comment_end(b2, j2) - j2,
    decreases b1.len() - j1,
{
    lemma_skip_more(b1, j1, b2, j2, 0);
    if j1 < b1.len() && b1[j1] != 10u8 {
        lemma_skip_more(b1, j1, b2, j2, 1);
        lemma_comment_end_moved(b1, j1 + 1, b2, j2 + 1);
    }
}

proof fn lemma_scan_moved(b1: Seq<u8>, i1: int, b2: Seq<u8>, i2: int)
    requires
        0 <= i1 < b1.len(),
        0 <= i2 <= b2.len(),
        b1.skip(i1) == b2.skip(i2),
    ensures
        scan_token(b1, i1).1 <= b1.len() ==> scan_token(b1, i1).0 == scan_token(b2, i2).0,
        scan_token(b1, i1).1 - i1 == scan_token(b2, i2).1 - i2,
{
    lemma_skip_more(b1, i1, b2, i2, 0);
    let l = scalar_len(b1, i1);
    lemma_scalar_len_bounds(b1, i1);
    let c = scalar_at(b1, i1);
    if is_ident_start_spec(c) {
        if l <= b1.len() - i1 {
            lemma_skip_more(b1, i1, b2, i2, l);
            lemma_ident_end_moved(b1, i1 + l, b2, i2 + l);
            let e1 = ident_end(b1, i1 + l);
            let e2 = ident_end(b2, i2 + l);
            lemma_ident_end_le(b1, i1 + l);
            assert(b1.subrange(i1, e1) =~= b2.subrange(i2, e2)) by {
                assert forall|x: int| 0 <= x < e1 - i1 implies #[trigger] b1.subrange(i1, e1)[x]
                    == b2.subrange(i2, e2)[x] by {
                    lemma_byte_at(b1, i1, b2, i2, x);
                }
            }
        }
    } else if is_digit_byte(b1[i1]) {
        lemma_skip_more(b1, i1, b2, i2, 1);
        lemma_digits_end_moved(b1, i1 + 1, b2, i2 + 1);
    } else {
        if i1 + 1 < b1.len() {
            lemma_byte_at(b1, i1, b2, i2, 1);
        }
    }
}

/// Lexing from a position depends on the bytes from there on and on the
/// absolute offset given to it: the same bytes lexed at another offset give the
/// same tokens moved by the difference.
#[verifier::spinoff_prover]
#[verifier::rlimit(60)]
pub proof fn lemma_lex_moved(b1: Seq<u8>, i1: int, base1: int, b2: Seq<u8>, i2: int, base2: int)
    requires
        0 <= i1 <= b1.len(),
        0 <= i2 <= b2.len(),
        b1.skip(i1) == b2.skip(i2),
        0 <= base1,
        base1 + b1.len() <= u32::MAX,
        0 <= base2,
        base2 + b2.len() <= u32::MAX,
    ensures
        lex_from(b1, i1, base1) == shift_tokvs(
            lex_from(b2, i2, base2),
            ((base1 + i1) - (base2 + i2)) as i64,
        ),
    decreases b1.len() - i1,
{
    lemma_skip_more(b1, i1, b2, i2, 0);
    let d = ((base1 + i1) - (base2 + i2)) as i64;
    if i1 == b1.len() {
        lemma_lex_empty(b1, base1);
        lemma_lex_empty(b2, base2);
        assert(shift_tokvs(Seq::<TokenV>::empty(), d) =~= Seq::<TokenV>::empty());
    } else if is_ws_byte(b1[i1]) {
        lemma_lex_ws(b1, i1, base1);
        lemma_lex_ws(b2, i2, base2);
        lemma_skip_more(b1, i1, b2, i2, 1);
        lemma_lex_moved(b1, i1 + 1, base1, b2, i2 + 1, base2);
    } else if is_comment_start(b1, i1) {
        assert(is_comment_start(b2, i2));
        lemma_lex_comment(b1, i1, base1);
        lemma_lex_comment(b2, i2, base2);
        lemma_skip_more(b1, i1, b2, i2, 2);
        lemma_comment_end_moved(b1, i1 + 2, b2, i2 + 2);
        lemma_ends_advance(b1, i1 + 2);
        let c1 = comment_end(b1, i1 + 2);
        lemma_skip_more(b1, i1, b2, i2, c1 - i1);
        lemma_lex_moved(b1, c1, base1, b2, comment_end(b2, i2 + 2), base2);
    } else {
        assert(!is_comment_start(b2, i2)) by {
            if i1 + 1 < b1.len() {
                lemma_byte_at(b1, i1, b2, i2, 1);
            }
        }
        lemma_scan_moved(b1, i1, b2, i2);
        let (k1, e1) = scan_token(b1, i1);
        let (k2, e2) = scan_token(b2, i2);
        if e1 <= i1 || e1 > b1.len() {
            reveal(lex_from);
            assert(shift_tokvs(Seq::<TokenV>::empty(), d) =~= Seq::<TokenV>::empty());
        } else {
            lemma_lex_token(b1, i1, base1);
            lemma_lex_token(b2, i2, base2);
            lemma_skip_more(b1, i1, b2, i2, e1 - i1);
            lemma_lex_moved(b1, e1, base1, b2, e2, base2);
            let t1 = TokenV {
                kind: k1,
                span: Span { start: (base1 + i1) as u32, end: (base1 + e1) as u32 },
                text: decode_utf8(b1.subrange(i1, e1)),
            };
            let t2 = TokenV {
                kind: k2,
                span: Span { start: (base2 + i2) as u32, end: (base2 + e2) as u32 },
                text: decode_utf8(b2.subrange(i2, e2)),
            };
            assert(b1.subrange(i1, e1) =~= b2.subrange(i2, e2)) by {
                assert forall|x: int| 0 <= x < e1 - i1 implies #[trigger] b1.subrange(i1, e1)[x]
                    == b2.subrange(i2, e2)[x] by {
                    lemma_byte_at(b1, i1, b2, i2, x);
                }
            }
            assert(shift_tokv(t2, d) == t1);
            let r2 = lex_from(b2, e2, base2);
            assert(shift_tokvs(seq![t2] + r2, d) =~= seq![shift_tokv(t2, d)] + shift_tokvs(r2, d));
        }
    }
}

/// Moving tokens by nothing leaves them as they are.
pub proof fn lemma_shift_tokvs_zero(ts: Seq<TokenV>)
    requires
        forall|j: int| 0 <= j < ts.len() ==> (#[trigger] ts[j]).span.start <= u32::MAX && ts[j].span.end
            <= u32::MAX,
    ensures
        shift_tokvs(ts, 0) == ts,
{
    assert(shift_tokvs(ts, 0) =~= ts);
}

/// A byte that starts no continuation lies at or after the end of the scalar
/// that starts at `i`.
proof fn lemma_scalar_within(b: Seq<u8>, i: int, q: int)
    requires
        valid_from(b, i),
        i < q < b.len(),
        !is_continuation_byte(b[q]),
    ensures
        i + scalar_len(b, i) <= q,
{
    let s = b.skip(i);
    assert(s.len() > 0);
    assert(valid_first_scalar(s));
    let l = scalar_len(b, i);
    lemma_scalar_len_bounds(b, i);
    if q - i < l {
        assert(s[q - i] == b[q]);
        assert(s.len() > 1);
        if l == 2 {
            assert(is_continuation_byte(s[1]));
        } else if l == 3 {
            assert(is_continuation_byte(s[1]) && is_continuation_byte(s[2]));
        } else {
            assert(l == 4);
            assert(is_continuation_byte(s[1]) && is_continuation_byte(s[2]) && is_continuation_byte(
                s[3],
            ));
        }
    }
}

/// The scalar that starts at `i` is read from its own bytes only.
pub proof fn lemma_scalar_agree(b1: Seq<u8>, b2: Seq<u8>, i: int, q: int)
    requires
        0 <= i < q,
        i + scalar_len(b1, i) <= q,
        q <= b1.len(),
        q <= b2.len(),
        forall|j: int| 0 <= j < q ==> b1[j] == b2[j],
    ensures
        scalar_at(b1, i) == scalar_at(b2, i),
        scalar_len(b1, i) == scalar_len(b2, i),
{
    let s1 = b1.skip(i);
    let s2 = b2.skip(i);
    lemma_scalar_len_bounds(b1, i);
    let l = scalar_len(b1, i);
    assert forall|k: int| 0 <= k < l implies #[trigger] s1[k] == s2[k] by {
        assert(b1[i + k] == b2[i + k]);
    }
    assert(s1[0] == s2[0]);
}

/// A byte below 128 is a whole scalar.
pub proof fn lemma_ascii_step(b: Seq<u8>, i: int)
    requires
        valid_from(b, i),
        0 <= i < b.len(),
        b[i] < 128,
    ensures
        valid_from(b, i + 1),
        scalar_len(b, i) == 1,
{
    lemma_step_scalar(b, i);
}

pub proof fn lemma_ident_end_valid(b: Seq<u8>, j: int)
    requires
        valid_from(b, j),
    ensures
        j <= ident_end(b, j) <= b.len(),
        valid_from(b, ident_end(b, j)),
    decreases b.len() - j,
{
    if j < b.len() {
        lemma_step_scalar(b, j);
        let l = scalar_len(b, j);
        if is_ident_continue_spec(scalar_at(b, j)) {
            lemma_ident_end_valid(b, j + l);
        }
    }
}

pub proof fn lemma_digits_end_valid(b: Seq<u8>, j: int)
    requires
        valid_from(b, j),
    ensures
        j <= digits_end(b, j) <= b.len(),
        valid_from(b, digits_end(b, j)),
    decreases b.len() - j,
{
    if j < b.len() && is_digit_byte(b[j]) {
        lemma_ascii_step(b, j);
        lemma_digits_end_valid(b, j + 1);
    }
}

/// The token that starts at `i` ends inside the text, after `i`, where the
/// text is still well formed.
pub proof fn lemma_scan_valid(b: Seq<u8>, i: int)
    requires
        valid_from(b, i),
        i < b.len(),
        !is_ws_byte(b[i]),
        !is_comment_start(b, i),
    ensures
        i < scan_token(b, i).1 <= b.len(),
        valid_from(b, scan_token(b, i).1),
{
    lemma_step_scalar(b, i);
    let l = scalar_len(b, i);
    if is_ident_start_spec(scalar_at(b, i)) {
        lemma_ident_end_valid(b, i + l);
    } else if is_digit_byte(b[i]) {
        lemma_ascii_step(b, i);
        lemma_digits_end_valid(b, i + 1);
    } else if double_kind(b, i) is Some {
        lemma_ascii_step(b, i);
        lemma_ascii_step(b, i + 1);
    } else if single_kind(b[i]) is Some {
        lemma_ascii_step(b, i);
    }
}

proof fn lemma_ident_end_cut(b: Seq<u8>, m: int, j: int)
    requires
        0 < m <= b.len(),
        b[m - 1] == 10u8,
        valid_from(b, j),
        0 <= j <= m - 1,
    ensures
        ident_end(b, j) == ident_end(b.take(m), j),
        ident_end(b, j) <= m - 1,
    decreases m - j,
{
    let c = b.take(m);
    lemma_step_scalar(b, j);
    let l = scalar_len(b, j);
    if j == m - 1 {
        lemma_ascii_step(b, j);
        assert(scalar_at(b, j) == '\n');
        lemma_scalar_agree(b, c, j, m);
    } else {
        lemma_scalar_within(b, j, m - 1);
        lemma_scalar_agree(b, c, j, m);
        if is_ident_continue_spec(scalar_at(b, j)) {
            lemma_ident_end_cut(b, m, j + l);
        }
    }
}

proof fn lemma_digits_end_cut(b: Seq<u8>, m: int, j: int)
    requires
        0 < m <= b.len(),
        b[m - 1] == 10u8,
        0 <= j <= m - 1,
    ensures
        digits_end(b, j) == digits_end(b.take(m), j),
        digits_end(b, j) <= m - 1,
    decreases m - j,
{
    if j < m - 1 && is_digit_byte(b[j]) {
        lemma_digits_end_cut(b, m, j + 1);
    }
}

proof fn lemma_comment_end_cut(b: Seq<u8>, m: int, j: int)
    requires
        0 < m <= b.len(),
        b[m - 1] == 10u8,
        0 <= j <= m - 1,
    ensures
        comment_end(b, j) == comment_end(b.take(m), j),
        comment_end(b, j) <= m - 1,
        b[comment_end(b, j)] == 10u8,
    decreases m - j,
{
    if j < m - 1 && b[j] != 10u8 {
        lemma_comment_end_cut(b, m, j + 1);
    }
}

#[verifier::spinoff_prover]
proof fn lemma_scan_cut(b: Seq<u8>, i: int, m: int)
    requires
        0 <= i < m - 1,
        m <= b.len(),
        b[m - 1] == 10u8,
        valid_from(b, i),
        !is_ws_byte(b[i]),
        !is_comment_start(b, i),
    ensures
        scan_token(b.take(m), i) == scan_token(b, i),
        i < scan_token(b, i).1 <= m - 1,
        valid_from(b, scan_token(b, i).1),
{
    let c = b.take(m);
    lemma_scan_valid(b, i);
    lemma_step_scalar(b, i);
    let l = scalar_len(b, i);
    lemma_scalar_within(b, i, m - 1);
    lemma_scalar_agree(b, c, i, m);
    assert(c[i] == b[i]);
    assert(c[i + 1] == b[i + 1]);
    let e = scan_token(b, i).1;
    if is_ident_start_spec(scalar_at(b, i)) {
        lemma_ident_end_cut(b, m, i + l);
        assert(c.subrange(i, e) =~= b.subrange(i, e));
        assert(scan_token(c, i) == scan_token(b, i));
    } else if is_digit_byte(b[i]) {
        lemma_digits_end_cut(b, m, i + 1);
        assert(scan_token(c, i) == scan_token(b, i));
    } else if double_kind(b, i) is Some {
        assert(b[i + 1] == 61u8);
        assert(double_kind(c, i) == double_kind(b, i));
        assert(scan_token(c, i) == scan_token(b, i));
    } else {
        assert(double_kind(c, i) == double_kind(b, i));
        assert(scan_token(c, i) == scan_token(b, i));
    }
}

/// No token or comment runs across the start of a line: lexing from before a
/// line start gives the tokens of the text cut there, then the tokens from the
/// line start on.
#[verifier::spinoff_prover]
#[verifier::rlimit(80)]
pub proof fn lemma_lex_cut_line(b: Seq<u8>, i: int, m: int, base: int)
    requires
        0 <= i <= m <= b.len(),
        m > 0,
        b[m - 1] == 10u8,
        valid_from(b, i),
    ensures
        lex_from(b, i, base) == lex_from(b.take(m), i, base) + lex_from(b, m, base),
    decreases m - i,
{
    let c = b.take(m);
    if i == m {
        lemma_lex_empty(c, base);
        assert(lex_from(c, i, base) + lex_from(b, m, base) =~= lex_from(b, m, base));
    } else if is_ws_byte(b[i]) {
        lemma_lex_ws(b, i, base);
        lemma_lex_ws(c, i, base);
        lemma_ascii_step(b, i);
        lemma_lex_cut_line(b, i + 1, m, base);
    } else if is_comment_start(b, i) {
        assert(i + 1 < m - 1);
        assert(is_comment_start(c, i));
        lemma_lex_comment(b, i, base);
        lemma_lex_comment(c, i, base);
        lemma_comment_end_cut(b, m, i + 2);
        let ce = comment_end(b, i + 2);
        lemma_ends_advance(b, i + 2);
        lemma_valid_at_lead_byte(b, i, ce);
        lemma_lex_cut_line(b, ce, m, base);
    } else {
        assert(i < m - 1);
        assert(!is_comment_start(c, i));
        lemma_scan_cut(b, i, m);
        let (k, e) = scan_token(b, i);
        lemma_lex_token(b, i, base);
        lemma_lex_token(c, i, base);
        assert(c.subrange(i, e) =~= b.subrange(i, e));
        lemma_lex_cut_line(b, e, m, base);
        let t = lex_from(b, i, base)[0];
        assert(lex_from(b, i, base) =~= seq![t] + lex_from(b, e, base));
        assert(lex_from(c, i, base) =~= seq![t] + lex_from(c, e, base));
        assert(lex_from(b, i, base) =~= lex_from(c, i, base) + lex_from(b, m, base));
    }
}

/// Lexing passes through the start of every token it produces: the tokens
/// from the `j`-th on are those lexed from where the `j`-th starts.
pub proof fn lemma_lex_skip(b: Seq<u8>, i: int, base: int, j: int)
    requires
        0 <= i,
        0 <= base,
        base + b.len() <= u32::MAX,
        0 <= j < lex_from(b, i, base).len(),
    ensures
        lex_from(b, i, base).skip(j) == lex_from(b, lex_from(b, i, base)[j].span.start - base, base),
    decreases b.len() - i,
{
    if i >= b.len() {
        reveal(lex_from);
    } else if is_ws_byte(b[i]) {
        lemma_lex_ws(b, i, base);
        lemma_lex_skip(b, i + 1, base, j);
    } else if is_comment_start(b, i) {
        lemma_lex_comment(b, i, base);
        lemma_ends_advance(b, i + 2);
        lemma_lex_skip(b, comment_end(b, i + 2), base, j);
    } else {
        let (k, e) = scan_token(b, i);
        if e <= i || e > b.len() {
            reveal(lex_from);
        } else {
            lemma_lex_token(b, i, base);
            let all = lex_from(b, i, base);
            let rest = lex_from(b, e, base);
            if j == 0 {
                assert(all.skip(0) =~= all);
            } else {
                lemma_lex_skip(b, e, base, j - 1);
                assert(all[j] == rest[j - 1]);
                assert(all.skip(j) =~= rest.skip(j - 1));
            }
        }
    }
}

/// Two ways of cutting one token sequence where tokens stop starting before
/// `x` cut it at the same place.
pub proof fn lemma_split_unique(
    a: Seq<TokenV>,
    c: Seq<TokenV>,
    a2: Seq<TokenV>,
    c2: Seq<TokenV>,
    x: int,
)
    requires
        a + c == a2 + c2,
        forall|i: int| 0 <= i < a.len() ==> (#[trigger] a[i]).span.start < x,
        forall|i: int| 0 <= i < a2.len() ==> (#[trigger] a2[i]).span.start < x,
        forall|i: int| 0 <= i < c.len() ==> (#[trigger] c[i]).span.start >= x,
        forall|i: int| 0 <= i < c2.len() ==> (#[trigger] c2[i]).span.start >= x,
    ensures
        a == a2,
        c == c2,
{
    let t = a + c;
    if a.len() < a2.len() {
        assert(t[a.len() as int] == c[0]);
        assert(t[a.len() as int] == a2[a.len() as int]);
    }
    if a.len() > a2.len() {
        assert(t[a2.len() as int] == c2[0]);
        assert(t[a2.len() as int] == a[a2.len() as int]);
    }
    assert(a =~= t.take(a.len() as int));
    assert(a2 =~= t.take(a2.len() as int));
    assert(c =~= t.skip(a.len() as int));
    assert(c2 =~= t.skip(a2.len() as int));
}

} // verus!
