//! Lexing a text in which identifier tokens were respelled.
//!
//! Lexing reads left to right and looks at most one character past a token, so
//! where an identifier token is replaced by another identifier, the tokens
//! before it are found as before (given that the new spelling does not start
//! with a character that would extend or join the token in front), the new
//! identifier is one token, and the tokens after it are the old ones moved.

use vstd::prelude::*;
use crate::lexer::{TokenKind, TokenV, is_ws_byte, is_digit_byte, is_ident_start_spec, is_ident_continue_spec, keyword_spec, comment_end, ident_end, digits_end, scan_token, lemma_ends_advance, is_comment_start, lex_from, lemma_lex_empty, lemma_lex_ws, lemma_lex_comment, lemma_lex_token, lemma_lex_spans};
use crate::relex::{lemma_scalar_agree, shift_tokvs, shift_tokv, lemma_lex_moved, lemma_lex_skip, lemma_ascii_step, lemma_scan_valid};
use crate::rename::replace_spans;
use crate::rename_parse::mtoks;
use crate::span::Span;
use crate::unicode::{scalar_at, scalar_len, lemma_scalar_len_bounds, valid_from, lemma_step_scalar, lemma_valid_at_lead_byte, lemma_valid_between};
use vstd::utf8::{decode_utf8, valid_utf8, is_char_boundary, is_char_boundary_start_end_of_seq, is_char_boundary_iff_not_is_continuation_byte, valid_utf8_concat};

verus! {

/// An identifier goes on at byte `j`.
pub open spec fn ident_goes_on(b: Seq<u8>, j: int) -> bool {
    0 <= j < b.len() && j + scalar_len(b, j) <= b.len() && is_ident_continue_spec(scalar_at(b, j))
}

proof fn lemma_ident_end_stop(b: Seq<u8>, j: int)
    ensures
        !ident_goes_on(b, ident_end(b, j)),
        j <= ident_end(b, j),
    decreases b.len() - j,
{
    if ident_goes_on(b, j) {
        lemma_scalar_len_bounds(b, j);
        lemma_ident_end_stop(b, j + scalar_len(b, j));
    }
}

proof fn lemma_digits_end_stop(b: Seq<u8>, j: int)
    ensures
        !(0 <= digits_end(b, j) < b.len() && is_digit_byte(b[digits_end(b, j)])),
        j <= digits_end(b, j),
    decreases b.len() - j,
{
    if 0 <= j < b.len() && is_digit_byte(b[j]) {
        lemma_digits_end_stop(b, j + 1);
    }
}

proof fn lemma_comment_end_stop(b: Seq<u8>, j: int)
    ensures
        !(0 <= comment_end(b, j) < b.len() && b[comment_end(b, j)] != 10u8),
        j <= comment_end(b, j),
    decreases b.len() - j,
{
    if 0 <= j < b.len() && b[j] != 10u8 {
        lemma_comment_end_stop(b, j + 1);
    }
}

/// Two byte sequences that agree below `s`.
pub open spec fn agree_below(b: Seq<u8>, b2: Seq<u8>, s: int) -> bool {
    &&& s <= b.len()
    &&& s <= b2.len()
    &&& forall|j: int| 0 <= j < s ==> #[trigger] b[j] == b2[j]
}

proof fn lemma_ident_end_prefix(b: Seq<u8>, b2: Seq<u8>, j: int, s: int)
    requires
        0 <= j,
        agree_below(b, b2, s),
        ident_end(b, j) < s,
        ident_end(b, j) + scalar_len(b, ident_end(b, j)) <= s,
    ensures
        ident_end(b2, j) == ident_end(b, j),
    decreases b.len() - j,
{
    lemma_ident_end_stop(b, j);
    let e = ident_end(b, j);
    if ident_goes_on(b, j) {
        let l = scalar_len(b, j);
        lemma_scalar_len_bounds(b, j);
        lemma_ident_end_stop(b, j + l);
        lemma_scalar_agree(b, b2, j, s);
        lemma_ident_end_prefix(b, b2, j + l, s);
    } else {
        assert(e == j);
        lemma_scalar_agree(b, b2, j, s);
    }
}

proof fn lemma_digits_end_prefix(b: Seq<u8>, b2: Seq<u8>, j: int, s: int)
    requires
        0 <= j,
        agree_below(b, b2, s),
        digits_end(b, j) <= s,
        digits_end(b, j) == s ==> s < b2.len() && !is_digit_byte(b2[s]),
    ensures
        digits_end(b2, j) == digits_end(b, j),
    decreases b.len() - j,
{
    lemma_digits_end_stop(b, j);
    if 0 <= j < b.len() && is_digit_byte(b[j]) {
        lemma_digits_end_stop(b, j + 1);
        lemma_digits_end_prefix(b, b2, j + 1, s);
    }
}

proof fn lemma_comment_end_prefix(b: Seq<u8>, b2: Seq<u8>, j: int, s: int)
    requires
        0 <= j,
        agree_below(b, b2, s),
        comment_end(b, j) < s,
    ensures
        comment_end(b2, j) == comment_end(b, j),
    decreases b.len() - j,
{
    lemma_comment_end_stop(b, j);
    if 0 <= j < b.len() && b[j] != 10u8 {
        lemma_comment_end_stop(b, j + 1);
        lemma_comment_end_prefix(b, b2, j + 1, s);
    }
}

/// What may follow at `s` in the second text: nothing that would extend or
/// join a token ending at `s`, and in the first text an identifier goes on at
/// `s` (so no identifier ends there).
pub open spec fn seam_ok(b: Seq<u8>, b2: Seq<u8>, s: int) -> bool {
    &&& 0 <= s < b.len()
    &&& s < b2.len()
    &&& !is_digit_byte(b2[s])
    &&& b2[s] != 61u8
    &&& b2[s] != 47u8
    &&& ident_goes_on(b, s)
}

proof fn lemma_scan_covers_scalar(b: Seq<u8>, i: int)
    requires
        0 <= i < b.len(),
    ensures
        i + scalar_len(b, i) <= scan_token(b, i).1,
{
    lemma_scalar_len_bounds(b, i);
    assert(b.skip(i)[0] == b[i]);
    let l = scalar_len(b, i);
    lemma_ends_advance(b, i + l);
    lemma_ends_advance(b, i + 1);
}

/// A token that ends by `s` is scanned alike in a text that agrees below `s`.
proof fn lemma_scan_prefix(b: Seq<u8>, b2: Seq<u8>, i: int, s: int)
    requires
        0 <= i < s,
        agree_below(b, b2, s),
        seam_ok(b, b2, s),
        scan_token(b, i).1 <= s,
        scan_token(b, i).1 < s ==> scan_token(b, i).1 + scalar_len(b, scan_token(b, i).1) <= s,
    ensures
        scan_token(b2, i) == scan_token(b, i),
        b.subrange(i, scan_token(b, i).1) == b2.subrange(i, scan_token(b, i).1),
{
    lemma_scan_covers_scalar(b, i);
    lemma_scalar_len_bounds(b, i);
    let l = scalar_len(b, i);
    lemma_scalar_agree(b, b2, i, s);
    let c = scalar_at(b, i);
    let e = scan_token(b, i).1;
    if is_ident_start_spec(c) {
        lemma_ident_end_stop(b, i + l);
        // an identifier cannot stop at `s`, where one goes on
        assert(e < s);
        lemma_ident_end_prefix(b, b2, i + l, s);
        assert(b.subrange(i, e) =~= b2.subrange(i, e));
    } else if is_digit_byte(b[i]) {
        lemma_digits_end_stop(b, i + 1);
        lemma_digits_end_prefix(b, b2, i + 1, s);
    } else {
        assert(b[i] == b2[i]);
        if i + 1 < s {
            assert(b[i + 1] == b2[i + 1]);
        }
    }
    assert(b.subrange(i, e) =~= b2.subrange(i, e));
}

/// The first character lexed from `e` ends by `s`, where a later token starts.
proof fn lemma_first_fits(b: Seq<u8>, e: int, s: int, j: int)
    requires
        0 <= e < s,
        b.len() <= u32::MAX,
        0 <= j < lex_from(b, e, 0).len(),
        lex_from(b, e, 0)[j].span.start == s,
    ensures
        e + scalar_len(b, e) <= s,
{
    lemma_scalar_len_bounds(b, e);
    lemma_lex_spans(b, e, 0);
    assert(e < b.len());
    assert(b.skip(e)[0] == b[e]);
    if b[e] >= 128 {
        let (k, e2) = scan_token(b, e);
        if e2 <= e || e2 > b.len() {
            reveal(lex_from);
        } else {
            lemma_lex_token(b, e, 0);
            lemma_scan_covers_scalar(b, e);
            if j > 0 {
                lemma_lex_spans(b, e2, 0);
                assert(lex_from(b, e, 0)[j] == lex_from(b, e2, 0)[j - 1]);
            }
        }
    }
}

/// Below a seam, the second text is lexed as the first.
proof fn lemma_lex_prefix(b: Seq<u8>, b2: Seq<u8>, i: int, s: int, j: int)
    requires
        0 <= i <= s,
        agree_below(b, b2, s),
        seam_ok(b, b2, s),
        b.len() <= u32::MAX,
        b2.len() <= u32::MAX,
        0 <= j < lex_from(b, i, 0).len(),
        lex_from(b, i, 0)[j].span.start == s,
    ensures
        lex_from(b2, i, 0) == lex_from(b, i, 0).take(j) + lex_from(b2, s, 0),
    decreases s - i,
{
    let t = lex_from(b, i, 0);
    lemma_lex_spans(b, i, 0);
    if i == s {
        if j > 0 {
            assert(t[0].span.end <= t[j].span.start);
        }
        assert(t.take(0) =~= Seq::<TokenV>::empty());
        assert(lex_from(b2, i, 0) =~= t.take(0) + lex_from(b2, s, 0));
    } else {
        assert(b[i] == b2[i]);
        if is_ws_byte(b[i]) {
            lemma_lex_ws(b, i, 0);
            lemma_lex_ws(b2, i, 0);
            lemma_lex_prefix(b, b2, i + 1, s, j);
        } else if is_comment_start(b, i) {
            lemma_lex_comment(b, i, 0);
            lemma_ends_advance(b, i + 2);
            let c = comment_end(b, i + 2);
            lemma_lex_spans(b, c, 0);
            assert(i + 1 < s);
            assert(b[i + 1] == b2[i + 1]);
            lemma_comment_end_stop(b, i + 2);
            if c == s {
                lemma_lex_ws(b, s, 0);
                lemma_lex_spans(b, s + 1, 0);
                assert(false);
            }
            lemma_comment_end_prefix(b, b2, i + 2, s);
            lemma_lex_comment(b2, i, 0);
            lemma_lex_prefix(b, b2, c, s, j);
        } else {
            let (k, e) = scan_token(b, i);
            if e <= i || e > b.len() {
                reveal(lex_from);
                assert(false);
            }
            lemma_lex_token(b, i, 0);
            let rest = lex_from(b, e, 0);
            lemma_lex_spans(b, e, 0);
            assert(j > 0);
            assert(t[j] == rest[j - 1]);
            if e < s {
                lemma_first_fits(b, e, s, j - 1);
            }
            lemma_scan_prefix(b, b2, i, s);
            assert(!is_comment_start(b2, i)) by {
                if i + 1 < s {
                    assert(b[i + 1] == b2[i + 1]);
                }
            }
            lemma_lex_token(b2, i, 0);
            lemma_lex_prefix(b, b2, e, s, j - 1);
            assert(t.take(j) =~= seq![t[0]] + rest.take(j - 1));
            assert(lex_from(b2, i, 0) =~= t.take(j) + lex_from(b2, s, 0));
        }
    }
}

/// `nb` lexes as one identifier token covering it all, spelled `text`.
pub open spec fn one_ident(nb: Seq<u8>) -> bool {
    lex_from(nb, 0, 0) == seq![
        TokenV { kind: TokenKind::Ident, span: Span { start: 0, end: nb.len() as u32 }, text: decode_utf8(nb) },
    ]
}

proof fn lemma_skip_skip(b: Seq<u8>, s: int, j: int)
    requires
        0 <= s,
        0 <= j,
        s + j <= b.len(),
    ensures
        b.skip(s).skip(j) == b.skip(s + j),
{
    assert(b.skip(s).skip(j) =~= b.skip(s + j));
}

/// The scan of a lone identifier.
proof fn lemma_one_ident(nb: Seq<u8>)
    requires
        one_ident(nb),
        nb.len() <= u32::MAX,
    ensures
        nb.len() > 0,
        !is_ws_byte(nb[0]),
        !is_comment_start(nb, 0),
        is_ident_start_spec(scalar_at(nb, 0)),
        scalar_len(nb, 0) <= nb.len(),
        ident_end(nb, scalar_len(nb, 0)) == nb.len(),
        keyword_spec(nb) is None,
{
    let t = lex_from(nb, 0, 0);
    if nb.len() == 0 {
        lemma_lex_empty(nb, 0);
    }
    if is_ws_byte(nb[0]) {
        lemma_lex_ws(nb, 0, 0);
        lemma_lex_spans(nb, 1, 0);
        assert(false);
    }
    if is_comment_start(nb, 0) {
        lemma_lex_comment(nb, 0, 0);
        lemma_ends_advance(nb, 2);
        lemma_lex_spans(nb, comment_end(nb, 2), 0);
        assert(false);
    }
    let (k, e) = scan_token(nb, 0);
    if e <= 0 || e > nb.len() {
        reveal(lex_from);
        assert(false);
    }
    lemma_lex_token(nb, 0, 0);
    assert(t[0].span.end == e);
    assert(e == nb.len());
    lemma_scalar_len_bounds(nb, 0);
    assert(nb.subrange(0, e) =~= nb);
    lemma_ends_advance(nb, scalar_len(nb, 0));
}

/// Identifier characters of `nb`, copied into `b2` at `s`, go on as in `nb`.
proof fn lemma_ident_end_copied(nb: Seq<u8>, b2: Seq<u8>, s: int, j: int)
    requires
        0 <= s,
        0 <= j <= nb.len(),
        s + nb.len() <= b2.len(),
        b2.subrange(s, s + nb.len()) == nb,
        ident_end(nb, j) == nb.len(),
        !ident_goes_on(b2, s + nb.len()),
    ensures
        ident_end(b2, s + j) == s + nb.len(),
    decreases nb.len() - j,
{
    if j < nb.len() {
        lemma_ident_end_stop(nb, j);
        assert(ident_goes_on(nb, j));
        let l = scalar_len(nb, j);
        lemma_scalar_len_bounds(nb, j);
        let c = b2.skip(s);
        assert forall|x: int| 0 <= x < nb.len() implies #[trigger] nb[x] == c[x] by {
            assert(b2.subrange(s, s + nb.len())[x] == b2[s + x]);
        }
        lemma_scalar_agree(nb, c, j, nb.len() as int);
        lemma_skip_skip(b2, s, j);
        assert(scalar_at(b2, s + j) == scalar_at(c, j));
        assert(scalar_len(b2, s + j) == scalar_len(c, j));
        assert(ident_goes_on(b2, s + j));
        lemma_ident_end_copied(nb, b2, s, j + l);
    }
}

/// A lone identifier copied into `b2` at `s`, with no identifier going on after
/// it, is lexed there as one token.
proof fn lemma_lex_copied(nb: Seq<u8>, b2: Seq<u8>, s: int)
    requires
        one_ident(nb),
        0 <= s,
        s + nb.len() <= b2.len(),
        b2.len() <= u32::MAX,
        b2.subrange(s, s + nb.len()) == nb,
        !ident_goes_on(b2, s + nb.len()),
        nb.len() > 0 ==> nb[0] != 47u8,
    ensures
        lex_from(b2, s, 0) == seq![
            TokenV {
                kind: TokenKind::Ident,
                span: Span { start: s as u32, end: (s + nb.len()) as u32 },
                text: decode_utf8(nb),
            },
        ] + lex_from(b2, s + nb.len(), 0),
{
    lemma_one_ident(nb);
    let l = scalar_len(nb, 0);
    let c = b2.skip(s);
    assert forall|x: int| 0 <= x < nb.len() implies #[trigger] nb[x] == c[x] by {
        assert(b2.subrange(s, s + nb.len())[x] == b2[s + x]);
    }
    lemma_scalar_agree(nb, c, 0, nb.len() as int);
    lemma_skip_skip(b2, s, 0);
    assert(scalar_at(b2, s) == scalar_at(nb, 0));
    assert(scalar_len(b2, s) == l);
    assert(b2[s] == nb[0]);
    lemma_ident_end_copied(nb, b2, s, l);
    assert(b2.subrange(s, s + nb.len()) == nb);
    assert(scan_token(b2, s) == (TokenKind::Ident, s + nb.len()));
    lemma_lex_token(b2, s, 0);
}

/// `b` with bytes `[s, e)` replaced by `nb`.
pub open spec fn splice(b: Seq<u8>, s: int, e: int, nb: Seq<u8>) -> Seq<u8> {
    b.subrange(0, s) + nb + b.subrange(e, b.len() as int)
}

/// The new spelling cannot extend or join the token in front of it.
pub open spec fn good_start(nb: Seq<u8>) -> bool {
    nb.len() > 0 && !is_digit_byte(nb[0]) && nb[0] != 61u8 && nb[0] != 47u8
}

/// The identifier token `t[j]` of `lex_from(b, 0, 0)`, and what follows it.
proof fn lemma_ident_token_at(b: Seq<u8>, j: int)
    requires
        b.len() <= u32::MAX,
        0 <= j < lex_from(b, 0, 0).len(),
        lex_from(b, 0, 0)[j].kind == TokenKind::Ident,
    ensures
        ({
            let t = lex_from(b, 0, 0);
            let s = t[j].span.start as int;
            let e = t[j].span.end as int;
            &&& 0 <= s < e <= b.len()
            &&& !ident_goes_on(b, e)
            &&& t.skip(j + 1) == lex_from(b, e, 0)
            &&& t.skip(j) == lex_from(b, s, 0)
            &&& s + scalar_len(b, s) <= e
        }),
{
    let t = lex_from(b, 0, 0);
    lemma_lex_spans(b, 0, 0);
    let s = t[j].span.start as int;
    let e = t[j].span.end as int;
    lemma_lex_skip(b, 0, 0, j);
    let u = lex_from(b, s, 0);
    assert(u[0] == t[j]);
    if is_ws_byte(b[s]) {
        lemma_lex_ws(b, s, 0);
        lemma_lex_spans(b, s + 1, 0);
        assert(false);
    }
    if is_comment_start(b, s) {
        lemma_lex_comment(b, s, 0);
        lemma_ends_advance(b, s + 2);
        lemma_lex_spans(b, comment_end(b, s + 2), 0);
        assert(false);
    }
    let (k, e2) = scan_token(b, s);
    if e2 <= s || e2 > b.len() {
        reveal(lex_from);
        assert(false);
    }
    lemma_lex_token(b, s, 0);
    assert(e2 == e && k == TokenKind::Ident);
    lemma_scalar_len_bounds(b, s);
    let l = scalar_len(b, s);
    if is_ident_start_spec(scalar_at(b, s)) {
        lemma_ident_end_stop(b, s + l);
    } else {
        assert(k != TokenKind::Ident);
    }
    lemma_scan_covers_scalar(b, s);
    assert(t.skip(j + 1) =~= u.skip(1));
}

/// Replacing one identifier token by another identifier: the tokens before are
/// kept, the new one takes its place, and the tokens after are moved.
pub proof fn lemma_splice_one(b: Seq<u8>, nb: Seq<u8>, j: int)
    requires
        b.len() <= u32::MAX,
        0 <= j < lex_from(b, 0, 0).len(),
        lex_from(b, 0, 0)[j].kind == TokenKind::Ident,
        ident_goes_on(b, lex_from(b, 0, 0)[j].span.start as int),
        one_ident(nb),
        good_start(nb),
        splice(b, lex_from(b, 0, 0)[j].span.start as int, lex_from(b, 0, 0)[j].span.end as int, nb).len() <= u32::MAX,
    ensures
        ({
            let t = lex_from(b, 0, 0);
            let s = t[j].span.start as int;
            let e = t[j].span.end as int;
            lex_from(splice(b, s, e, nb), 0, 0) == t.take(j) + seq![
                TokenV {
                    kind: TokenKind::Ident,
                    span: Span { start: s as u32, end: (s + nb.len()) as u32 },
                    text: decode_utf8(nb),
                },
            ] + shift_tokvs(t.skip(j + 1), (s + nb.len() - e) as i64)
        }),
{
    let t = lex_from(b, 0, 0);
    let s = t[j].span.start as int;
    let e = t[j].span.end as int;
    lemma_ident_token_at(b, j);
    let b2 = splice(b, s, e, nb);
    let m = s + nb.len();
    assert(agree_below(b, b2, s)) by {
        assert forall|x: int| 0 <= x < s implies #[trigger] b[x] == b2[x] by {}
    }
    assert(b2[s] == nb[0]);
    lemma_lex_prefix(b, b2, 0, s, j);
    assert(b2.subrange(s, m) =~= nb);
    assert(b2.skip(m) =~= b.skip(e));
    assert(scalar_at(b2, m) == scalar_at(b, e));
    assert(scalar_len(b2, m) == scalar_len(b, e));
    assert(!ident_goes_on(b2, m));
    lemma_lex_copied(nb, b2, s);
    lemma_lex_moved(b2, m, 0, b, e, 0);
    let tok = TokenV { kind: TokenKind::Ident, span: Span { start: s as u32, end: m as u32 }, text: decode_utf8(nb) };
    assert(lex_from(b2, 0, 0) =~= t.take(j) + seq![tok] + shift_tokvs(t.skip(j + 1), (m - e) as i64));
}

// ---------------------------------------------------------------------------
// Token boundaries are character boundaries

/// Every token lexed from a well formed position starts and ends at one.
proof fn lemma_lex_valid(b: Seq<u8>, i: int)
    requires
        valid_from(b, i),
        b.len() <= u32::MAX,
    ensures
        forall|j: int| 0 <= j < lex_from(b, i, 0).len() ==> valid_from(b, (#[trigger] lex_from(b, i, 0)[j]).span.start as int)
            && valid_from(b, lex_from(b, i, 0)[j].span.end as int),
    decreases b.len() - i,
{
    if i >= b.len() {
        reveal(lex_from);
    } else if is_ws_byte(b[i]) {
        lemma_lex_ws(b, i, 0);
        lemma_ascii_step(b, i);
        lemma_lex_valid(b, i + 1);
    } else if is_comment_start(b, i) {
        lemma_lex_comment(b, i, 0);
        lemma_ends_advance(b, i + 2);
        let c = comment_end(b, i + 2);
        lemma_comment_end_stop(b, i + 2);
        if c < b.len() {
            lemma_valid_at_lead_byte(b, i, c);
        } else {
            assert(b.skip(c) =~= Seq::<u8>::empty());
        }
        lemma_lex_valid(b, c);
    } else {
        let (k, e) = scan_token(b, i);
        if e <= i || e > b.len() {
            reveal(lex_from);
        } else {
            lemma_lex_token(b, i, 0);
            lemma_scan_valid(b, i);
            lemma_lex_valid(b, e);
            lemma_lex_spans(b, e, 0);
            let all = lex_from(b, i, 0);
            let rest = lex_from(b, e, 0);
            assert forall|j: int| 0 <= j < all.len() implies valid_from(b, (#[trigger] all[j]).span.start as int)
                && valid_from(b, all[j].span.end as int) by {
                if j > 0 {
                    assert(all[j] == rest[j - 1]);
                }
            }
        }
    }
}

/// A position from which a well formed text stays well formed is a character
/// boundary of it.
proof fn lemma_valid_boundary(b: Seq<u8>, p: int)
    requires
        valid_from(b, 0),
        valid_from(b, p),
    ensures
        is_char_boundary(b, p),
{
    assert(b.skip(0) =~= b);
    if p == b.len() {
        is_char_boundary_start_end_of_seq(b);
    } else {
        lemma_step_scalar(b, p);
        assert(b.skip(p)[0] == b[p]);
        is_char_boundary_iff_not_is_continuation_byte(b, p);
    }
}

/// Splicing well formed bytes in at two well formed positions keeps the text
/// well formed.
proof fn lemma_splice_valid(b: Seq<u8>, s: int, e: int, nb: Seq<u8>)
    requires
        valid_from(b, 0),
        valid_from(b, s),
        valid_from(b, e),
        s <= e,
        valid_utf8(nb),
    ensures
        valid_from(splice(b, s, e, nb), 0),
{
    lemma_valid_between(b, 0, s);
    assert(b.skip(e) =~= b.subrange(e, b.len() as int));
    valid_utf8_concat(b.subrange(0, s), nb);
    valid_utf8_concat(b.subrange(0, s) + nb, b.subrange(e, b.len() as int));
    assert(splice(b, s, e, nb).skip(0) =~= splice(b, s, e, nb));
}

// ---------------------------------------------------------------------------
// Replacing several identifier tokens

/// How far position `p` moves when each span of `sps` (all ending by `p` or
/// not) is replaced by `m` bytes.
pub open spec fn shift_at(sps: Seq<Span>, m: int, p: int) -> int
    decreases sps.len(),
{
    if sps.len() == 0 {
        0
    } else {
        shift_at(sps.drop_last(), m, p) + if sps.last().end <= p {
            m - (sps.last().end - sps.last().start)
        } else {
            0
        }
    }
}

/// Where each position goes when the spans are replaced by `m` bytes.
pub open spec fn splice_map(sps: Seq<Span>, m: int) -> spec_fn(u32) -> u32 {
    |p: u32| (p + shift_at(sps, m, p as int)) as u32
}

/// Every partial replacement, last span first, fits in `u32` positions.
pub open spec fn fits(b: Seq<u8>, sps: Seq<Span>, nb: Seq<u8>) -> bool
    decreases sps.len(),
{
    if sps.len() == 0 {
        true
    } else {
        let l = sps.last();
        let b1 = splice(b, l.start as int, l.end as int, nb);
        b1.len() <= u32::MAX && fits(b1, sps.drop_last(), nb)
    }
}

/// Each span is an identifier token of `b` whose first character could go on
/// an identifier.
pub open spec fn ident_tokens(b: Seq<u8>, sps: Seq<Span>) -> bool {
    forall|i: int|
        0 <= i < sps.len() ==> (exists|j: int|
            0 <= j < lex_from(b, 0, 0).len() && (#[trigger] lex_from(b, 0, 0)[j]).span == sps[i]
                && lex_from(b, 0, 0)[j].kind == TokenKind::Ident) && ident_goes_on(b, (#[trigger] sps[i]).start as int)
}

pub open spec fn spans_apart(sps: Seq<Span>) -> bool {
    forall|i: int, k: int| 0 <= i < k < sps.len() ==> (#[trigger] sps[i]).end < (#[trigger] sps[k]).start
}

proof fn lemma_shift_at_same(sps: Seq<Span>, m: int, p: int, q: int)
    requires
        forall|i: int| 0 <= i < sps.len() ==> ((#[trigger] sps[i]).end <= p) == (sps[i].end <= q),
    ensures
        shift_at(sps, m, p) == shift_at(sps, m, q),
    decreases sps.len(),
{
    if sps.len() > 0 {
        assert(sps.last() == sps[sps.len() - 1]);
        assert forall|i: int| 0 <= i < sps.drop_last().len() implies ((#[trigger] sps.drop_last()[i]).end <= p) == (
        sps.drop_last()[i].end <= q) by {
            assert(sps.drop_last()[i] == sps[i]);
        }
        lemma_shift_at_same(sps.drop_last(), m, p, q);
    }
}

/// Replacing every span of `sps` (identifier tokens, apart, sorted) by the lone
/// identifier `nb` gives a text whose tokens are the old ones, respelled at the
/// spans and moved.
pub proof fn lemma_splice_all(b: Seq<u8>, sps: Seq<Span>, nb: Seq<u8>)
    requires
        valid_from(b, 0),
        b.len() <= u32::MAX,
        valid_utf8(nb),
        one_ident(nb),
        good_start(nb),
        ident_tokens(b, sps),
        spans_apart(sps),
        fits(b, sps, nb),
    ensures
        replace_spans(b, sps, nb) is Some,
        replace_spans(b, sps, nb).unwrap().len() == b.len() + shift_at(sps, nb.len() as int, b.len() as int),
        replace_spans(b, sps, nb).unwrap().len() <= u32::MAX,
        lex_from(replace_spans(b, sps, nb).unwrap(), 0, 0) == mtoks(
            lex_from(b, 0, 0),
            splice_map(sps, nb.len() as int),
            sps.to_set(),
            decode_utf8(nb),
        ),
    decreases sps.len(),
{
    let t = lex_from(b, 0, 0);
    let m = nb.len() as int;
    let n = decode_utf8(nb);
    let f = splice_map(sps, m);
    lemma_lex_spans(b, 0, 0);
    if sps.len() == 0 {
        assert(mtoks(t, f, sps.to_set(), n) =~= t) by {
            assert forall|x: int| 0 <= x < t.len() implies #[trigger] mtoks(t, f, sps.to_set(), n)[x] == t[x] by {
                assert(!sps.to_set().contains(t[x].span));
            }
        }
    } else {
        let k = sps.len() - 1;
        let last = sps.last();
        assert(last == sps[k]);
        let j = choose|j: int| 0 <= j < t.len() && (#[trigger] t[j]).span == sps[k] && t[j].kind == TokenKind::Ident;
        let s = last.start as int;
        let e = last.end as int;
        lemma_ident_token_at(b, j);
        lemma_lex_valid(b, 0);
        let b1 = splice(b, s, e, nb);
        lemma_valid_boundary(b, s);
        lemma_valid_boundary(b, e);
        assert(b1 == b.subrange(0, s) + nb + b.subrange(e, b.len() as int));
        lemma_splice_one(b, nb, j);
        let t1 = lex_from(b1, 0, 0);
        let newtok = TokenV { kind: TokenKind::Ident, span: Span { start: s as u32, end: (s + m) as u32 }, text: n };
        let d = (s + m - e) as i64;
        assert(t1 == t.take(j) + seq![newtok] + shift_tokvs(t.skip(j + 1), d));
        let init = sps.drop_last();
        lemma_splice_valid(b, s, e, nb);
        lemma_init_tokens(b, sps, nb, j);
        assert(spans_apart(init)) by {
            assert forall|i: int, i2: int| 0 <= i < i2 < init.len() implies (#[trigger] init[i]).end < (#[trigger] init[i2]).start by {
                assert(init[i] == sps[i] && init[i2] == sps[i2]);
            }
        }
        lemma_splice_all(b1, init, nb);
        lemma_token_maps(b, sps, nb, j);
        assert forall|i: int| 0 <= i < init.len() implies ((#[trigger] init[i]).end <= b1.len()) == (init[i].end <= b.len()) by {
            assert(init[i] == sps[i]);
            assert(sps[i].end < sps[k].start);
        }
        lemma_shift_at_same(init, m, b1.len() as int, b.len() as int);
    }
}

#[verifier::spinoff_prover]
#[verifier::rlimit(40)]
proof fn lemma_init_tokens(b: Seq<u8>, sps: Seq<Span>, nb: Seq<u8>, j: int)
    requires
        valid_from(b, 0),
        b.len() <= u32::MAX,
        one_ident(nb),
        good_start(nb),
        ident_tokens(b, sps),
        spans_apart(sps),
        sps.len() > 0,
        0 <= j < lex_from(b, 0, 0).len(),
        lex_from(b, 0, 0)[j].span == sps.last(),
        lex_from(b, 0, 0)[j].kind == TokenKind::Ident,
        splice(b, sps.last().start as int, sps.last().end as int, nb).len() <= u32::MAX,
    ensures
        ident_tokens(splice(b, sps.last().start as int, sps.last().end as int, nb), sps.drop_last()),
{
    let t = lex_from(b, 0, 0);
    lemma_lex_spans(b, 0, 0);
    let k = sps.len() - 1;
    let s = sps.last().start as int;
    let e = sps.last().end as int;
    let m = nb.len() as int;
    let n = decode_utf8(nb);
    let b1 = splice(b, s, e, nb);
    lemma_ident_token_at(b, j);
    lemma_splice_one(b, nb, j);
    let t1 = lex_from(b1, 0, 0);
    let init = sps.drop_last();
    assert(agree_below(b, b1, s)) by {
        assert forall|x: int| 0 <= x < s implies #[trigger] b[x] == b1[x] by {}
    }
    assert forall|i: int| 0 <= i < init.len() implies (exists|jj: int|
        0 <= jj < lex_from(b1, 0, 0).len() && (#[trigger] lex_from(b1, 0, 0)[jj]).span == init[i] && lex_from(b1, 0, 0)[jj].kind == TokenKind::Ident)
        && ident_goes_on(b1, (#[trigger] init[i]).start as int) by {
        assert(init[i] == sps[i]);
        assert(sps[i].end < sps[k].start);
        let ji = choose|ji: int| 0 <= ji < t.len() && (#[trigger] t[ji]).span == sps[i] && t[ji].kind == TokenKind::Ident;
        if ji >= j {
            if ji > j {
                assert(t[j].span.end <= t[ji].span.start);
            }
            assert(false);
        }
        assert(t1[ji] == t[ji]);
        lemma_ident_token_at(b, ji);
        let si = sps[i].start as int;
        lemma_scalar_len_bounds(b, si);
        lemma_scalar_agree(b, b1, si, s);
        assert(ident_goes_on(b, si));
        assert(ident_goes_on(b1, si));
        assert(0 <= ji < t1.len() && t1[ji].span == init[i] && t1[ji].kind == TokenKind::Ident);
    }
    assert(ident_tokens(b1, init));
}

#[verifier::rlimit(60)]
proof fn lemma_token_maps(b: Seq<u8>, sps: Seq<Span>, nb: Seq<u8>, j: int)
    requires
        b.len() <= u32::MAX,
        one_ident(nb),
        good_start(nb),
        ident_tokens(b, sps),
        spans_apart(sps),
        sps.len() > 0,
        0 <= j < lex_from(b, 0, 0).len(),
        lex_from(b, 0, 0)[j].span == sps.last(),
        lex_from(b, 0, 0)[j].kind == TokenKind::Ident,
        ident_goes_on(b, sps.last().start as int),
        splice(b, sps.last().start as int, sps.last().end as int, nb).len() <= u32::MAX,
    ensures
        mtoks(
            lex_from(splice(b, sps.last().start as int, sps.last().end as int, nb), 0, 0),
            splice_map(sps.drop_last(), nb.len() as int),
            sps.drop_last().to_set(),
            decode_utf8(nb),
        ) == mtoks(lex_from(b, 0, 0), splice_map(sps, nb.len() as int), sps.to_set(), decode_utf8(nb)),
{
    let t = lex_from(b, 0, 0);
    lemma_lex_spans(b, 0, 0);
    let k = sps.len() - 1;
    let last = sps.last();
    assert(last == sps[k]);
    let s = last.start as int;
    let e = last.end as int;
    let m = nb.len() as int;
    let n = decode_utf8(nb);
    let f = splice_map(sps, m);
    let b1 = splice(b, s, e, nb);
    lemma_ident_token_at(b, j);
    lemma_splice_one(b, nb, j);
    let t1 = lex_from(b1, 0, 0);
    let newtok = TokenV { kind: TokenKind::Ident, span: Span { start: s as u32, end: (s + m) as u32 }, text: n };
    let d = (s + m - e) as i64;
    assert(t1 == t.take(j) + seq![newtok] + shift_tokvs(t.skip(j + 1), d));
    let init = sps.drop_last();
    let f1 = splice_map(init, m);
    // the maps agree, token by token
    let lhs = mtoks(t1, f1, init.to_set(), n);
    let rhs = mtoks(t, f, sps.to_set(), n);
    assert forall|i: int| 0 <= i < init.len() implies (#[trigger] init[i]).end < s by {
        assert(init[i] == sps[i]);
    }
    assert(lhs =~= rhs) by {
        assert forall|x: int| 0 <= x < t.len() implies #[trigger] lhs[x] == rhs[x] by {
            let tx = t[x];
            if x < j {
                assert(t1[x] == tx);
                assert(tx.span.end <= s);
                assert(tx.span.start < tx.span.end);
                assert forall|i: int| 0 <= i < sps.len() implies ((#[trigger] sps[i]).end <= tx.span.start as int) == (
                i < k && sps[i].end <= tx.span.start as int) by {}
                lemma_shift_at_same(init, m, tx.span.start as int, tx.span.start as int);
                assert(shift_at(sps, m, tx.span.start as int) == shift_at(init, m, tx.span.start as int));
                assert(shift_at(sps, m, tx.span.end as int) == shift_at(init, m, tx.span.end as int));
                assert(!sps.to_set().contains(tx.span) || init.to_set().contains(tx.span)) by {
                    if sps.to_set().contains(tx.span) {
                        let i = choose|i: int| 0 <= i < sps.len() && sps[i] == tx.span;
                        if i == k {
                            assert(false);
                        }
                        assert(init[i] == sps[i]);
                    }
                }
                assert(init.to_set().contains(tx.span) ==> sps.to_set().contains(tx.span)) by {
                    if init.to_set().contains(tx.span) {
                        let i = choose|i: int| 0 <= i < init.len() && init[i] == tx.span;
                        assert(sps[i] == init[i]);
                    }
                }
            } else if x == j {
                assert(t1[j] == newtok);
                assert(!init.to_set().contains(newtok.span)) by {
                    if init.to_set().contains(newtok.span) {
                        let i = choose|i: int| 0 <= i < init.len() && init[i] == newtok.span;
                    }
                }
                assert(sps.to_set().contains(tx.span));
                lemma_shift_at_same(init, m, e, s + m);
            } else {
                assert(t1[x] == shift_tokv(t.skip(j + 1)[x - j - 1], d));
                assert(t.skip(j + 1)[x - j - 1] == tx);
                assert(t[j].span.end <= tx.span.start);
                assert(tx.span.start < tx.span.end);
                lemma_shift_at_same(init, m, tx.span.start as int, tx.span.start + d);
                lemma_shift_at_same(init, m, tx.span.end as int, tx.span.end + d);
                assert(!sps.to_set().contains(tx.span)) by {
                    if sps.to_set().contains(tx.span) {
                        let i = choose|i: int| 0 <= i < sps.len() && sps[i] == tx.span;
                        if i < k {
                            assert(sps[i].end < sps[k].start);
                        }
                    }
                }
                assert(!init.to_set().contains(t1[x].span)) by {
                    if init.to_set().contains(t1[x].span) {
                        let i = choose|i: int| 0 <= i < init.len() && init[i] == t1[x].span;
                    }
                }
            }
        }
    }
}

// ---------------------------------------------------------------------------
// The position map keeps the order of positions outside the replaced spans

pub open spec fn strictly_inside(sps: Seq<Span>, p: int) -> bool {
    exists|i: int| 0 <= i < sps.len() && (#[trigger] sps[i]).start < p < sps[i].end
}

pub proof fn lemma_shift_zero(sps: Seq<Span>, m: int, p: int)
    requires
        forall|i: int| 0 <= i < sps.len() ==> p < (#[trigger] sps[i]).end,
    ensures
        shift_at(sps, m, p) == 0,
    decreases sps.len(),
{
    if sps.len() > 0 {
        assert(sps.last() == sps[sps.len() - 1]);
        assert forall|i: int| 0 <= i < sps.drop_last().len() implies p < (#[trigger] sps.drop_last()[i]).end by {
            assert(sps.drop_last()[i] == sps[i]);
        }
        lemma_shift_zero(sps.drop_last(), m, p);
    }
}

/// Positions not inside a replaced span keep their order when moved.
pub proof fn lemma_shift_mono(sps: Seq<Span>, m: int, p: int, q: int)
    requires
        spans_apart(sps),
        forall|i: int| 0 <= i < sps.len() ==> (#[trigger] sps[i]).start < sps[i].end,
        m >= 1,
        p < q,
        !strictly_inside(sps, p),
        !strictly_inside(sps, q),
    ensures
        p + shift_at(sps, m, p) < q + shift_at(sps, m, q),
    decreases sps.len(),
{
    if sps.len() > 0 {
        let k = sps.len() - 1;
        let last = sps.last();
        assert(last == sps[k]);
        let init = sps.drop_last();
        assert forall|i: int| 0 <= i < init.len() implies (#[trigger] init[i]) == sps[i] && init[i].end < last.start by {}
        assert(spans_apart(init)) by {
            assert forall|i: int, i2: int| 0 <= i < i2 < init.len() implies (#[trigger] init[i]).end < (#[trigger] init[i2]).start by {
                assert(init[i] == sps[i] && init[i2] == sps[i2]);
            }
        }
        assert(!strictly_inside(init, p)) by {
            if strictly_inside(init, p) {
                let i = choose|i: int| 0 <= i < init.len() && (#[trigger] init[i]).start < p < init[i].end;
                assert(sps[i] == init[i]);
            }
        }
        assert(!strictly_inside(init, q)) by {
            if strictly_inside(init, q) {
                let i = choose|i: int| 0 <= i < init.len() && (#[trigger] init[i]).start < q < init[i].end;
                assert(sps[i] == init[i]);
            }
        }
        let ls = last.start as int;
        if (last.end as int) <= p || q < last.end {
            lemma_shift_mono(init, m, p, q);
        } else {
            // p lies before the last span, q after its end
            assert(p <= ls) by {
                if ls < p {
                    assert(sps[k].start < p < sps[k].end);
                }
            }
            assert forall|i: int| 0 <= i < init.len() implies ((#[trigger] init[i]).end <= q) == (init[i].end <= ls) by {}
            lemma_shift_at_same(init, m, q, ls);
            assert(!strictly_inside(init, ls)) by {
                if strictly_inside(init, ls) {
                    let i = choose|i: int| 0 <= i < init.len() && (#[trigger] init[i]).start < ls < init[i].end;
                }
            }
            if p < ls {
                lemma_shift_mono(init, m, p, ls);
            }
        }
    }
}

/// An identifier token of `b` ends where no identifier goes on.
pub proof fn lemma_ident_token_at_pub(b: Seq<u8>, j: int)
    requires
        b.len() <= u32::MAX,
        0 <= j < lex_from(b, 0, 0).len(),
        lex_from(b, 0, 0)[j].kind == TokenKind::Ident,
    ensures
        !ident_goes_on(b, lex_from(b, 0, 0)[j].span.end as int),
{
    lemma_ident_token_at(b, j);
}

/// A name that lexes to one identifier token covering it is a lone identifier.
pub proof fn lemma_one_ident_of(nb: Seq<u8>)
    requires
        nb.len() <= u32::MAX,
        lex_from(nb, 0, 0).len() == 1,
        lex_from(nb, 0, 0)[0].kind == TokenKind::Ident,
        lex_from(nb, 0, 0)[0].span == (Span { start: 0, end: nb.len() as u32 }),
    ensures
        one_ident(nb),
{
    let t = lex_from(nb, 0, 0);
    lemma_lex_spans(nb, 0, 0);
    if is_ws_byte(nb[0]) {
        lemma_lex_ws(nb, 0, 0);
        lemma_lex_spans(nb, 1, 0);
        assert(false);
    }
    if is_comment_start(nb, 0) {
        lemma_lex_comment(nb, 0, 0);
        lemma_ends_advance(nb, 2);
        lemma_lex_spans(nb, comment_end(nb, 2), 0);
        assert(false);
    }
    let (k, e) = scan_token(nb, 0);
    if e <= 0 || e > nb.len() {
        reveal(lex_from);
        assert(false);
    }
    lemma_lex_token(nb, 0, 0);
    assert(e == nb.len());
    assert(nb.subrange(0, e) =~= nb);
    assert(t =~= seq![TokenV { kind: TokenKind::Ident, span: Span { start: 0, end: nb.len() as u32 }, text: decode_utf8(nb) }]);
}

} // verus!
