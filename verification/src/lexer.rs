//! A hand written lexer for the Atelier language.
//!
//! `lex` turns a source string into tokens with absolute spans. Whitespace and
//! `//` line comments are skipped. A byte sequence that starts no token becomes
//! a single character `TokenKind::Error` so the parser can report it with a
//! precise span. `lex_at` lexes a substring while assigning absolute spans.

use vstd::prelude::*;
use vstd::utf8::*;
use vstd::string::StringSliceAdditionalSpecFns;
use vstd::string::StringExecFns;
use crate::span::Span;
use crate::unicode::{scalar_at, scalar_len, valid_from, char_is_alphabetic, char_is_alphanumeric, is_alphabetic, is_alphanumeric, lemma_step_scalar, lemma_scalar_len_bounds, lemma_valid_at_lead_byte, lemma_valid_between, lemma_str_bytes_valid, decode_at, str_from_utf8};

verus! {

broadcast use vstd::seq_lib::group_seq_properties;

#[derive(Clone, Copy, Debug, PartialEq, Eq, Structural)]
pub enum TokenKind {
    Int,
    Ident,
    // keywords
    Let,
    Fn,
    If,
    Else,
    True,
    False,
    // delimiters
    LParen,
    RParen,
    LBrace,
    RBrace,
    Comma,
    Semi,
    // operators
    Eq,
    EqEq,
    Ne,
    Lt,
    Le,
    Gt,
    Ge,
    Plus,
    Minus,
    Star,
    Slash,
    Bang,
    // an unrecognised character
    Error,
}

#[derive(Clone, Debug, PartialEq, Eq)]
pub struct Token {
    pub kind: TokenKind,
    pub span: Span,
    pub text: String,
}

/// The mathematical content of a token: its text as characters.
pub struct TokenV {
    pub kind: TokenKind,
    pub span: Span,
    pub text: Seq<char>,
}

impl View for Token {
    type V = TokenV;

    open spec fn view(&self) -> TokenV {
        TokenV { kind: self.kind, span: self.span, text: self.text@ }
    }
}

pub open spec fn tokens_view(ts: Seq<Token>) -> Seq<TokenV> {
    ts.map_values(|t: Token| t@)
}

pub open spec fn shift_token_spec(t: Token, delta: i64) -> Token {
    Token { kind: t.kind, span: t.span.spec_shifted(delta), text: t.text }
}

impl Token {
    /// The same token moved by `delta` bytes.
    pub fn shifted(&self, delta: i64) -> (t: Token)
        ensures
            t == shift_token_spec(*self, delta),
    {
        Token { kind: self.kind, span: self.span.shifted(delta), text: self.text.clone() }
    }

    /// A copy of the token.
    pub fn copy(&self) -> (t: Token)
        ensures
            t == *self,
    {
        Token { kind: self.kind, span: self.span, text: self.text.clone() }
    }
}

pub open spec fn is_ws_byte(c: u8) -> bool {
    c == 32 || c == 9 || c == 10 || c == 13
}

pub open spec fn is_digit_byte(c: u8) -> bool {
    48 <= c <= 57
}

pub open spec fn is_ident_start_spec(c: char) -> bool {
    c == '_' || char_is_alphabetic(c)
}

/// A character that may continue an identifier. A newline always ends one, so
/// that no token runs across the start of a line.
pub open spec fn is_ident_continue_spec(c: char) -> bool {
    c == '_' || (c != '\n' && char_is_alphanumeric(c))
}

/// The keyword spelled by `w`, if any.
pub open spec fn keyword_spec(w: Seq<u8>) -> Option<TokenKind> {
    if w =~= seq![108u8, 101u8, 116u8] {
        Some(TokenKind::Let)
    } else if w =~= seq![102u8, 110u8] {
        Some(TokenKind::Fn)
    } else if w =~= seq![105u8, 102u8] {
        Some(TokenKind::If)
    } else if w =~= seq![101u8, 108u8, 115u8, 101u8] {
        Some(TokenKind::Else)
    } else if w =~= seq![116u8, 114u8, 117u8, 101u8] {
        Some(TokenKind::True)
    } else if w =~= seq![102u8, 97u8, 108u8, 115u8, 101u8] {
        Some(TokenKind::False)
    } else {
        None
    }
}

/// End of a `//` comment body that starts at `i`: the next newline or the end.
pub open spec fn comment_end(b: Seq<u8>, i: int) -> int
    decreases b.len() - i,
{
    if 0 <= i < b.len() && b[i] != 10u8 {
        comment_end(b, i + 1)
    } else {
        i
    }
}

/// End of the identifier whose remaining characters start at `j`.
pub open spec fn ident_end(b: Seq<u8>, j: int) -> int
    decreases b.len() - j,
{
    if 0 <= j < b.len() && j + scalar_len(b, j) <= b.len() && is_ident_continue_spec(
        scalar_at(b, j),
    ) {
        proof {
            lemma_scalar_len_bounds(b, j);
        }
        ident_end(b, j + scalar_len(b, j))
    } else {
        j
    }
}

/// End of the digit run whose remaining digits start at `j`.
pub open spec fn digits_end(b: Seq<u8>, j: int) -> int
    decreases b.len() - j,
{
    if 0 <= j < b.len() && is_digit_byte(b[j]) {
        digits_end(b, j + 1)
    } else {
        j
    }
}

pub open spec fn single_kind(c: u8) -> Option<TokenKind> {
    if c == 40 {
        Some(TokenKind::LParen)
    } else if c == 41 {
        Some(TokenKind::RParen)
    } else if c == 123 {
        Some(TokenKind::LBrace)
    } else if c == 125 {
        Some(TokenKind::RBrace)
    } else if c == 44 {
        Some(TokenKind::Comma)
    } else if c == 59 {
        Some(TokenKind::Semi)
    } else if c == 61 {
        Some(TokenKind::Eq)
    } else if c == 60 {
        Some(TokenKind::Lt)
    } else if c == 62 {
        Some(TokenKind::Gt)
    } else if c == 43 {
        Some(TokenKind::Plus)
    } else if c == 45 {
        Some(TokenKind::Minus)
    } else if c == 42 {
        Some(TokenKind::Star)
    } else if c == 47 {
        Some(TokenKind::Slash)
    } else if c == 33 {
        Some(TokenKind::Bang)
    } else {
        None
    }
}

/// The two character operator spelled at `i`, if any.
pub open spec fn double_kind(b: Seq<u8>, i: int) -> Option<TokenKind> {
    if i + 1 < b.len() && b[i + 1] == 61u8 {
        if b[i] == 61u8 {
            Some(TokenKind::EqEq)
        } else if b[i] == 33u8 {
            Some(TokenKind::Ne)
        } else if b[i] == 60u8 {
            Some(TokenKind::Le)
        } else if b[i] == 62u8 {
            Some(TokenKind::Ge)
        } else {
            None
        }
    } else {
        None
    }
}

/// Kind and end of the token that starts at `i` (which holds no whitespace and
/// starts no comment): the longest identifier, number or operator there, or a
/// single character error token.
pub open spec fn scan_token(b: Seq<u8>, i: int) -> (TokenKind, int) {
    let c = scalar_at(b, i);
    if is_ident_start_spec(c) {
        let e = ident_end(b, i + scalar_len(b, i));
        (
            match keyword_spec(b.subrange(i, e)) {
                Some(k) => k,
                None => TokenKind::Ident,
            },
            e,
        )
    } else if is_digit_byte(b[i]) {
        (TokenKind::Int, digits_end(b, i + 1))
    } else if double_kind(b, i) is Some {
        (double_kind(b, i).unwrap(), i + 2)
    } else if single_kind(b[i]) is Some {
        (single_kind(b[i]).unwrap(), i + 1)
    } else {
        (TokenKind::Error, i + scalar_len(b, i))
    }
}

pub proof fn lemma_ends_advance(b: Seq<u8>, i: int)
    ensures
        i <= comment_end(b, i),
        i <= ident_end(b, i),
        i <= digits_end(b, i),
        i <= b.len() ==> comment_end(b, i) <= b.len(),
        i <= b.len() ==> digits_end(b, i) <= b.len(),
    decreases b.len() - i,
{
    if 0 <= i < b.len() {
        lemma_ends_advance(b, i + 1);
        lemma_scalar_len_bounds(b, i);
        if i + scalar_len(b, i) <= b.len() {
            lemma_ends_advance(b, i + scalar_len(b, i));
        }
    }
}

pub open spec fn is_comment_start(b: Seq<u8>, i: int) -> bool {
    b[i] == 47u8 && i + 1 < b.len() && b[i + 1] == 47u8
}

/// The tokens of `b` from byte `i` on, with spans offset by `base`.
#[verifier::opaque]
pub open spec fn lex_from(b: Seq<u8>, i: int, base: int) -> Seq<TokenV>
    decreases b.len() - i,
{
    if i < 0 || i >= b.len() {
        seq![]
    } else if is_ws_byte(b[i]) {
        lex_from(b, i + 1, base)
    } else if is_comment_start(b, i) {
        proof {
            lemma_ends_advance(b, i + 2);
        }
        lex_from(b, comment_end(b, i + 2), base)
    } else {
        let (k, e) = scan_token(b, i);
        proof {
            lemma_ends_advance(b, i + scalar_len(b, i));
            lemma_ends_advance(b, i + 1);
        }
        if e <= i || e > b.len() {
            seq![]
        } else {
            seq![
                TokenV {
                    kind: k,
                    span: Span { start: (base + i) as u32, end: (base + e) as u32 },
                    text: decode_utf8(b.subrange(i, e)),
                },
            ] + lex_from(b, e, base)
        }
    }
}

pub proof fn lemma_lex_empty(b: Seq<u8>, base: int)
    ensures
        lex_from(b, b.len() as int, base) == Seq::<TokenV>::empty(),
{
    reveal(lex_from);
}

pub proof fn lemma_lex_ws(b: Seq<u8>, i: int, base: int)
    requires
        0 <= i < b.len(),
        is_ws_byte(b[i]),
    ensures
        lex_from(b, i, base) == lex_from(b, i + 1, base),
{
    reveal(lex_from);
}

pub proof fn lemma_lex_comment(b: Seq<u8>, i: int, base: int)
    requires
        0 <= i < b.len(),
        !is_ws_byte(b[i]),
        is_comment_start(b, i),
    ensures
        lex_from(b, i, base) == lex_from(b, comment_end(b, i + 2), base),
{
    reveal(lex_from);
}

pub proof fn lemma_lex_token(b: Seq<u8>, i: int, base: int)
    requires
        0 <= i < b.len(),
        !is_ws_byte(b[i]),
        !is_comment_start(b, i),
        i < scan_token(b, i).1 <= b.len(),
    ensures
        lex_from(b, i, base) == seq![
            TokenV {
                kind: scan_token(b, i).0,
                span: Span {
                    start: (base + i) as u32,
                    end: (base + scan_token(b, i).1) as u32,
                },
                text: decode_utf8(b.subrange(i, scan_token(b, i).1)),
            },
        ] + lex_from(b, scan_token(b, i).1, base),
{
    reveal(lex_from);
}

/// The tokens of a string lexed as if it began at absolute offset `base`.
pub open spec fn spec_lex(text: &str, base: u32) -> Seq<TokenV> {
    lex_from(text.spec_bytes(), 0, base as int)
}

fn keyword(w: &[u8]) -> (k: Option<TokenKind>)
    ensures
        k == keyword_spec(w@),
{
    let n = w.len();
    if n == 3 && w[0] == 108 && w[1] == 101 && w[2] == 116 {
        assert(w@ =~= seq![108u8, 101u8, 116u8]);
        Some(TokenKind::Let)
    } else if n == 2 && w[0] == 102 && w[1] == 110 {
        assert(w@ =~= seq![102u8, 110u8]);
        Some(TokenKind::Fn)
    } else if n == 2 && w[0] == 105 && w[1] == 102 {
        assert(w@ =~= seq![105u8, 102u8]);
        Some(TokenKind::If)
    } else if n == 4 && w[0] == 101 && w[1] == 108 && w[2] == 115 && w[3] == 101 {
        assert(w@ =~= seq![101u8, 108u8, 115u8, 101u8]);
        Some(TokenKind::Else)
    } else if n == 4 && w[0] == 116 && w[1] == 114 && w[2] == 117 && w[3] == 101 {
        assert(w@ =~= seq![116u8, 114u8, 117u8, 101u8]);
        Some(TokenKind::True)
    } else if n == 5 && w[0] == 102 && w[1] == 97 && w[2] == 108 && w[3] == 115 && w[4] == 101 {
        assert(w@ =~= seq![102u8, 97u8, 108u8, 115u8, 101u8]);
        Some(TokenKind::False)
    } else {
        proof {
            if w@ =~= seq![108u8, 101u8, 116u8] || w@ =~= seq![102u8, 110u8] || w@ =~= seq![
                105u8,
                102u8,
            ] || w@ =~= seq![101u8, 108u8, 115u8, 101u8] || w@ =~= seq![116u8, 114u8, 117u8, 101u8]
                || w@ =~= seq![102u8, 97u8, 108u8, 115u8, 101u8] {
                assert(false);
            }
        }
        None
    }
}

fn is_ident_start(c: char) -> (r: bool)
    ensures
        r == is_ident_start_spec(c),
{
    c == '_' || is_alphabetic(c)
}

pub(crate) fn is_ident_continue(c: char) -> (r: bool)
    ensures
        r == is_ident_continue_spec(c),
{
    c == '_' || (c != '\n' && is_alphanumeric(c))
}

fn single_kind_of(c: u8) -> (k: Option<TokenKind>)
    ensures
        k == single_kind(c),
{
    match c {
        40 => Some(TokenKind::LParen),
        41 => Some(TokenKind::RParen),
        123 => Some(TokenKind::LBrace),
        125 => Some(TokenKind::RBrace),
        44 => Some(TokenKind::Comma),
        59 => Some(TokenKind::Semi),
        61 => Some(TokenKind::Eq),
        60 => Some(TokenKind::Lt),
        62 => Some(TokenKind::Gt),
        43 => Some(TokenKind::Plus),
        45 => Some(TokenKind::Minus),
        42 => Some(TokenKind::Star),
        47 => Some(TokenKind::Slash),
        33 => Some(TokenKind::Bang),
        _ => None,
    }
}

/// Lex a full source string into tokens.
pub fn lex(text: &str) -> (toks: Vec<Token>)
    requires
        text.spec_bytes().len() <= u32::MAX,
    ensures
        tokens_view(toks@) == spec_lex(text, 0),
{
    lex_at(text, 0)
}

/// End of the identifier whose first character starts at `i`.
fn scan_ident(b: &[u8], i: usize, clen: usize) -> (j: usize)
    requires
        valid_from(b@, i as int),
        i < b@.len(),
        clen as int == scalar_len(b@, i as int),
        1 <= clen <= b@.len() - i,
        valid_from(b@, i + clen),
    ensures
        j as int == ident_end(b@, i + clen),
        i < j <= b@.len(),
        valid_from(b@, j as int),
{
    let n = b.len();
    let mut j = i + clen;
    let mut done = false;
    while !done && j < n
        invariant
            i < j <= n == b@.len(),
            valid_from(b@, j as int),
            ident_end(b@, j as int) == ident_end(b@, i + clen),
            done ==> ident_end(b@, j as int) == j,
        decreases n - j, (if done { 0int } else { 1int }),
    {
        let (c2, l2) = decode_at(b, j);
        if is_ident_continue(c2) {
            j = j + l2;
        } else {
            done = true;
        }
    }
    j
}

/// End of the digit run whose first digit is at `i`.
fn scan_digits(b: &[u8], i: usize) -> (j: usize)
    requires
        valid_from(b@, i as int),
        i < b@.len(),
        is_digit_byte(b@[i as int]),
    ensures
        j as int == digits_end(b@, i + 1),
        i < j <= b@.len(),
        valid_from(b@, j as int),
{
    proof {
        lemma_step_scalar(b@, i as int);
    }
    let n = b.len();
    let mut j = i + 1;
    while j < n && 48 <= b[j] && b[j] <= 57
        invariant
            i < j <= n == b@.len(),
            valid_from(b@, j as int),
            digits_end(b@, j as int) == digits_end(b@, i + 1),
        decreases n - j,
    {
        proof {
            lemma_step_scalar(b@, j as int);
        }
        j = j + 1;
    }
    j
}

/// Scan the token that starts at `i`.
#[verifier::spinoff_prover]
fn scan_at(b: &[u8], i: usize) -> (r: (TokenKind, usize))
    requires
        valid_from(b@, i as int),
        i < b@.len(),
        !is_ws_byte(b@[i as int]),
        !is_comment_start(b@, i as int),
    ensures
        r.0 == scan_token(b@, i as int).0,
        r.1 as int == scan_token(b@, i as int).1,
        i < r.1 <= b@.len(),
        valid_from(b@, r.1 as int),
{
    let n = b.len();
    let c = b[i];
    let (ch, clen) = decode_at(b, i);
    if is_ident_start(ch) {
        let j = scan_ident(b, i, clen);
        let k = match keyword(&b[i..j]) {
            Some(k) => k,
            None => TokenKind::Ident,
        };
        (k, j)
    } else if 48 <= c && c <= 57 {
        (TokenKind::Int, scan_digits(b, i))
    } else if i + 1 < n && b[i + 1] == 61 && (c == 61 || c == 33 || c == 60 || c == 62) {
        proof {
            lemma_step_scalar(b@, i as int);
            lemma_step_scalar(b@, i + 1);
        }
        let k = if c == 61 {
            TokenKind::EqEq
        } else if c == 33 {
            TokenKind::Ne
        } else if c == 60 {
            TokenKind::Le
        } else {
            TokenKind::Ge
        };
        (k, i + 2)
    } else {
        assert(double_kind(b@, i as int) is None);
        match single_kind_of(c) {
            Some(k) => {
                proof {
                    lemma_step_scalar(b@, i as int);
                }
                (k, i + 1)
            },
            None => (TokenKind::Error, i + clen),
        }
    }
}

/// Lex `text` as if it began at absolute byte offset `base`. Spans are absolute.
pub fn lex_at(text: &str, base: u32) -> (toks: Vec<Token>)
    requires
        base + text.spec_bytes().len() <= u32::MAX,
    ensures
        tokens_view(toks@) == spec_lex(text, base),
{
    let b = text.as_bytes();
    let n = b.len();
    let mut i: usize = 0;
    let mut out: Vec<Token> = Vec::new();
    proof {
        lemma_str_bytes_valid(text);
    }
    while i < n
        invariant
            n == b@.len(),
            base + n <= u32::MAX,
            i <= n,
            valid_from(b@, i as int),
            tokens_view(out@) + lex_from(b@, i as int, base as int) == lex_from(b@, 0, base as int),
        decreases n - i,
    {
        let c = b[i];
        if c == 32 || c == 9 || c == 10 || c == 13 {
            proof {
                lemma_step_scalar(b@, i as int);
                lemma_lex_ws(b@, i as int, base as int);
            }
            i = i + 1;
            continue;
        }
        if c == 47 && i + 1 < n && b[i + 1] == 47 {
            let ghost i0 = i;
            proof {
                lemma_lex_comment(b@, i as int, base as int);
                lemma_step_scalar(b@, i as int);
                lemma_step_scalar(b@, i + 1);
            }
            i = i + 2;
            while i < n && b[i] != 10
                invariant
                    i0 + 2 <= i <= n == b@.len(),
                    comment_end(b@, i as int) == comment_end(b@, i0 + 2),
                decreases n - i,
            {
                i = i + 1;
            }
            proof {
                if i < n {
                    lemma_valid_at_lead_byte(b@, i0 + 2, i as int);
                } else {
                    assert(b@.skip(n as int) =~= Seq::<u8>::empty());
                }
            }
            continue;
        }
        let start = i;
        let (kind, end) = scan_at(b, i);
        proof {
            lemma_valid_between(b@, start as int, end as int);
            lemma_lex_token(b@, start as int, base as int);
        }
        let s = str_from_utf8(&b[start..end]);
        let t = Token {
            kind,
            span: Span::new(base + start as u32, base + end as u32),
            text: String::from_str(s),
        };
        let ghost prev = tokens_view(out@);
        out.push(t);
        assert(tokens_view(out@) =~= prev.push(t@));
        i = end;
    }
    proof {
        lemma_lex_empty(b@, base as int);
    }
    assert(tokens_view(out@) =~= tokens_view(out@) + lex_from(b@, i as int, base as int));
    out
}

} // verus!

verus! {

/// The tokens of `ts` are in order: each ends no later than any later one starts.
pub open spec fn tokens_ordered(ts: Seq<TokenV>) -> bool {
    forall|a: int, b: int| 0 <= a < b < ts.len() ==> (#[trigger] ts[a]).span.end <= (#[trigger] ts[b]).span.start
}

/// Every token lexed from byte `i` on lies within `[base + i, base + b.len()]`
/// and is not empty, and the tokens come in order.
pub proof fn lemma_lex_spans(b: Seq<u8>, i: int, base: int)
    requires
        0 <= i,
        0 <= base,
        base + b.len() <= u32::MAX,
    ensures
        forall|j: int|
            0 <= j < lex_from(b, i, base).len() ==> base + i <= (#[trigger] lex_from(b, i, base)[j]).span.start
                < lex_from(b, i, base)[j].span.end <= base + b.len(),
        tokens_ordered(lex_from(b, i, base)),
    decreases b.len() - i,
{
    if i >= b.len() {
        reveal(lex_from);
    } else if is_ws_byte(b[i]) {
        lemma_lex_ws(b, i, base);
        lemma_lex_spans(b, i + 1, base);
    } else if is_comment_start(b, i) {
        lemma_lex_comment(b, i, base);
        lemma_ends_advance(b, i + 2);
        lemma_lex_spans(b, comment_end(b, i + 2), base);
    } else {
        let (k, e) = scan_token(b, i);
        if e <= i || e > b.len() {
            reveal(lex_from);
        } else {
            lemma_lex_token(b, i, base);
            lemma_lex_spans(b, e, base);
            let rest = lex_from(b, e, base);
            let all = lex_from(b, i, base);
            assert forall|j: int| 0 <= j < all.len() implies base + i <= (#[trigger] all[j]).span.start
                < all[j].span.end <= base + b.len() by {
                if j > 0 {
                    assert(all[j] == rest[j - 1]);
                }
            }
            assert forall|x: int, y: int| 0 <= x < y < all.len() implies (#[trigger] all[x]).span.end
                <= (#[trigger] all[y]).span.start by {
                assert(all[y] == rest[y - 1]);
                if x > 0 {
                    assert(all[x] == rest[x - 1]);
                }
            }
        }
    }
}

/// What each token lexed from `b` holds: its text is the bytes its span
/// covers, an identifier is no keyword, and an error token covers one
/// character.
pub open spec fn token_fits(b: Seq<u8>, base: int, tk: TokenV) -> bool {
    let s = tk.span.start - base;
    let e = tk.span.end - base;
    &&& 0 <= s < e <= b.len()
    &&& tk.text == decode_utf8(b.subrange(s, e))
    &&& (tk.kind == TokenKind::Ident ==> keyword_spec(b.subrange(s, e)) is None)
    &&& (tk.kind == TokenKind::Error ==> e == s + scalar_len(b, s))
}

/// Every token lexed from a text is the text of its span; identifiers are
/// not keywords, and an error token is a single character.
pub proof fn law_lex_tokens(b: Seq<u8>, i: int, base: int)
    requires
        0 <= i,
        0 <= base,
        base + b.len() <= u32::MAX,
    ensures
        forall|j: int| 0 <= j < lex_from(b, i, base).len() ==> token_fits(b, base, #[trigger] lex_from(b, i, base)[j]),
    decreases b.len() - i,
{
    if i >= b.len() {
        reveal(lex_from);
    } else if is_ws_byte(b[i]) {
        lemma_lex_ws(b, i, base);
        law_lex_tokens(b, i + 1, base);
    } else if is_comment_start(b, i) {
        lemma_lex_comment(b, i, base);
        lemma_ends_advance(b, i + 2);
        law_lex_tokens(b, comment_end(b, i + 2), base);
    } else {
        let (k, e) = scan_token(b, i);
        if e <= i || e > b.len() {
            reveal(lex_from);
        } else {
            lemma_lex_token(b, i, base);
            law_lex_tokens(b, e, base);
            let all = lex_from(b, i, base);
            let rest = lex_from(b, e, base);
            assert(token_fits(b, base, all[0]));
            assert forall|j: int| 0 <= j < all.len() implies token_fits(b, base, #[trigger] all[j]) by {
                if j > 0 {
                    assert(all[j] == rest[j - 1]);
                }
            }
        }
    }
}


/// The bytes that spell a token kind whose spelling is fixed: the keywords
/// `let fn if else true false`, the delimiters `( ) { } , ;` and the operators
/// `= == != < <= > >= + - * / !`. Numbers, identifiers and error tokens have no
/// fixed spelling.
pub open spec fn fixed_spelling(k: TokenKind) -> Option<Seq<u8>> {
    match k {
        TokenKind::Let => Some(seq![108u8, 101u8, 116u8]),
        TokenKind::Fn => Some(seq![102u8, 110u8]),
        TokenKind::If => Some(seq![105u8, 102u8]),
        TokenKind::Else => Some(seq![101u8, 108u8, 115u8, 101u8]),
        TokenKind::True => Some(seq![116u8, 114u8, 117u8, 101u8]),
        TokenKind::False => Some(seq![102u8, 97u8, 108u8, 115u8, 101u8]),
        TokenKind::LParen => Some(seq![40u8]),
        TokenKind::RParen => Some(seq![41u8]),
        TokenKind::LBrace => Some(seq![123u8]),
        TokenKind::RBrace => Some(seq![125u8]),
        TokenKind::Comma => Some(seq![44u8]),
        TokenKind::Semi => Some(seq![59u8]),
        TokenKind::Eq => Some(seq![61u8]),
        TokenKind::EqEq => Some(seq![61u8, 61u8]),
        TokenKind::Ne => Some(seq![33u8, 61u8]),
        TokenKind::Lt => Some(seq![60u8]),
        TokenKind::Le => Some(seq![60u8, 61u8]),
        TokenKind::Gt => Some(seq![62u8]),
        TokenKind::Ge => Some(seq![62u8, 61u8]),
        TokenKind::Plus => Some(seq![43u8]),
        TokenKind::Minus => Some(seq![45u8]),
        TokenKind::Star => Some(seq![42u8]),
        TokenKind::Slash => Some(seq![47u8]),
        TokenKind::Bang => Some(seq![33u8]),
        _ => None,
    }
}

/// A token lexed from `b` starts at no whitespace byte (space, tab, newline,
/// carriage return), and a token of a kind with a fixed spelling covers
/// exactly the bytes of that spelling.
pub open spec fn token_spelled(b: Seq<u8>, base: int, tk: TokenV) -> bool {
    let s = tk.span.start - base;
    let e = tk.span.end - base;
    &&& 0 <= s < e <= b.len()
    &&& b[s] != 32u8 && b[s] != 9u8 && b[s] != 10u8 && b[s] != 13u8
    &&& (fixed_spelling(tk.kind) is Some ==> b.subrange(s, e) == fixed_spelling(tk.kind).unwrap())
}

/// A whitespace byte (space, tab, newline, carriage return) yields no token:
/// the tokens from it on are the tokens from the next byte on.
pub proof fn law_whitespace_yields_no_token(b: Seq<u8>, i: int, base: int)
    requires
        0 <= i < b.len(),
        b[i] == 32u8 || b[i] == 9u8 || b[i] == 10u8 || b[i] == 13u8,
    ensures
        lex_from(b, i, base) == lex_from(b, i + 1, base),
{
    lemma_lex_ws(b, i, base);
}

/// Every token lexed from a text starts at a byte that is not whitespace, and
/// its kind fixes its bytes: `<=` is the only spelling of `Le`, `>=` of `Ge`,
/// `let` of `Let`, and so on for each keyword, delimiter and operator.
pub proof fn law_lex_spellings(b: Seq<u8>, i: int, base: int)
    requires
        0 <= i,
        0 <= base,
        base + b.len() <= u32::MAX,
    ensures
        forall|j: int|
            0 <= j < lex_from(b, i, base).len() ==> token_spelled(
                b,
                base,
                #[trigger] lex_from(b, i, base)[j],
            ),
    decreases b.len() - i,
{
    if i >= b.len() {
        reveal(lex_from);
    } else if is_ws_byte(b[i]) {
        lemma_lex_ws(b, i, base);
        law_lex_spellings(b, i + 1, base);
    } else if is_comment_start(b, i) {
        lemma_lex_comment(b, i, base);
        lemma_ends_advance(b, i + 2);
        law_lex_spellings(b, comment_end(b, i + 2), base);
    } else {
        let (k, e) = scan_token(b, i);
        if e <= i || e > b.len() {
            reveal(lex_from);
        } else {
            lemma_lex_token(b, i, base);
            law_lex_spellings(b, e, base);
            let all = lex_from(b, i, base);
            let rest = lex_from(b, e, base);
            let w = b.subrange(i, e);
            assert(all[0].span.start - base == i);
            assert(all[0].span.end - base == e);
            assert(all[0].kind == k);
            if fixed_spelling(k) is Some {
                let c = scalar_at(b, i);
                if is_ident_start_spec(c) {
                    assert(keyword_spec(w) is Some);
                    assert(w == fixed_spelling(k).unwrap());
                } else if is_digit_byte(b[i]) {
                } else if double_kind(b, i) is Some {
                    assert(w =~= seq![b[i], b[i + 1]]);
                } else if single_kind(b[i]) is Some {
                    assert(w =~= seq![b[i]]);
                }
            }
            assert(token_spelled(b, base, all[0]));
            assert forall|j: int| 0 <= j < all.len() implies token_spelled(
                b,
                base,
                #[trigger] all[j],
            ) by {
                if j > 0 {
                    assert(all[j] == rest[j - 1]);
                }
            }
        }
    }
}

/// A byte below 128 is a character of its own.
proof fn lemma_ascii_scalar(b: Seq<u8>, i: int)
    requires
        0 <= i < b.len(),
        b[i] < 128,
    ensures
        scalar_len(b, i) == 1,
        scalar_at(b, i) == b[i] as char,
{
    let s = b.skip(i);
    assert(s[0] == b[i]);
    let x = b[i];
    assert((x & 0x7F) == x) by (bit_vector)
        requires
            x <= 0x7f,
    ;
}

/// The operators and delimiters lex whole: where the bytes of one of their
/// spellings stand (`<=` say, or `;`), the next token is one token of that
/// kind over exactly those bytes, provided a one character spelling is not the
/// start of a longer one (`<` before `=`) or of a comment (`/` before `/`), and
/// the first character is no letter, as the standard library's Unicode tables
/// have it for these characters.
pub proof fn law_operators_lex_whole(b: Seq<u8>, i: int, base: int, k: TokenKind)
    requires
        0 <= i,
        fixed_spelling(k) is Some,
        k != TokenKind::Let && k != TokenKind::Fn && k != TokenKind::If && k != TokenKind::Else
            && k != TokenKind::True && k != TokenKind::False,
        i + fixed_spelling(k).unwrap().len() <= b.len(),
        b.subrange(i, i + fixed_spelling(k).unwrap().len()) == fixed_spelling(k).unwrap(),
        fixed_spelling(k).unwrap().len() == 1 && i + 1 < b.len() && (b[i] == 61u8 || b[i] == 33u8
            || b[i] == 60u8 || b[i] == 62u8) ==> b[i + 1] != 61u8,
        fixed_spelling(k).unwrap().len() == 1 && i + 1 < b.len() && b[i] == 47u8 ==> b[i + 1]
            != 47u8,
    ensures
        ({
            let n = fixed_spelling(k).unwrap().len();
            !char_is_alphabetic(b[i] as char) ==> lex_from(b, i, base) == seq![
                TokenV {
                    kind: k,
                    span: Span { start: (base + i) as u32, end: (base + i + n) as u32 },
                    text: decode_utf8(b.subrange(i, i + n)),
                },
            ] + lex_from(b, i + n, base)
        }),
{
    let w = fixed_spelling(k).unwrap();
    if !char_is_alphabetic(b[i] as char) {
        assert(b[i] == b.subrange(i, i + w.len())[0]);
        if w.len() == 2 {
            assert(b[i + 1] == b.subrange(i, i + w.len())[1]);
        }
        lemma_ascii_scalar(b, i);
        let c = scalar_at(b, i);
        assert(c != '_') by {
            assert(('_' as u32) == 95);
        }
        assert(!is_ident_start_spec(c));
        lemma_lex_token(b, i, base);
    }
}

proof fn lemma_comment_end_at(b: Seq<u8>, i: int, k: int)
    requires
        0 <= i <= k <= b.len(),
        forall|j: int| i <= j < k ==> b[j] != 10u8,
        k == b.len() || b[k] == 10u8,
    ensures
        comment_end(b, i) == k,
    decreases k - i,
{
    if i < k {
        lemma_comment_end_at(b, i + 1, k);
    }
}

/// A `//` comment yields no token: from its start up to the newline that ends
/// it (or the end of the text) the tokens are those from that newline on.
pub proof fn law_comment_yields_no_token(b: Seq<u8>, i: int, k: int, base: int)
    requires
        0 <= i,
        i + 2 <= k <= b.len(),
        b[i] == 47u8,
        b[i + 1] == 47u8,
        forall|j: int| i + 2 <= j < k ==> b[j] != 10u8,
        k == b.len() || b[k] == 10u8,
    ensures
        lex_from(b, i, base) == lex_from(b, k, base),
{
    lemma_comment_end_at(b, i + 2, k);
    lemma_lex_comment(b, i, base);
}

proof fn lemma_digits_run(b: Seq<u8>, j: int)
    requires
        0 <= j,
    ensures
        forall|m: int| j <= m < digits_end(b, j) ==> 48 <= #[trigger] b[m] <= 57,
        j <= digits_end(b, j),
        digits_end(b, j) < b.len() ==> !(48 <= b[digits_end(b, j)] <= 57),
    decreases b.len() - j,
{
    if 0 <= j < b.len() && is_digit_byte(b[j]) {
        lemma_digits_run(b, j + 1);
    }
}

/// A number lexes whole: at a decimal digit the next token is an `Int` token
/// that starts there, every byte of it is a digit and the byte after it is not
/// (the digit being no letter, as the standard library's Unicode tables have
/// it for the decimal digits).
pub proof fn law_numbers_lex_whole(b: Seq<u8>, i: int, base: int)
    requires
        0 <= i < b.len(),
        0 <= base,
        base + b.len() <= u32::MAX,
        48 <= b[i] <= 57,
    ensures
        !char_is_alphabetic(b[i] as char) ==> ({
            let e = lex_from(b, i, base)[0].span.end - base;
            &&& lex_from(b, i, base).len() > 0
            &&& lex_from(b, i, base)[0].kind == TokenKind::Int
            &&& lex_from(b, i, base)[0].span.start - base == i
            &&& i < e <= b.len()
            &&& forall|m: int| i <= m < e ==> 48 <= #[trigger] b[m] <= 57
            &&& (e < b.len() ==> !(48 <= b[e] <= 57))
        }),
{
    if !char_is_alphabetic(b[i] as char) {
        lemma_ascii_scalar(b, i);
        let c = scalar_at(b, i);
        assert(c != '_') by {
            assert(('_' as u32) == 95);
        }
        lemma_digits_run(b, i + 1);
        lemma_ends_advance(b, i + 1);
        lemma_lex_token(b, i, base);
    }
}
} // verus!
