use atelier::lexer::{lex, lex_at, TokenKind};
use atelier::span::Span;

#[test]
fn lexes_keywords_and_idents() {
    let toks = lex("let x = 10;");
    let kinds: Vec<_> = toks.iter().map(|t| t.kind).collect();
    assert_eq!(
        kinds,
        vec![
            TokenKind::Let,
            TokenKind::Ident,
            TokenKind::Eq,
            TokenKind::Int,
            TokenKind::Semi
        ]
    );
    assert_eq!(toks[1].text, "x");
    assert_eq!(toks[1].span, Span::new(4, 5));
}

#[test]
fn skips_comments_and_whitespace() {
    let toks = lex("  a // comment\n b ");
    assert_eq!(toks.len(), 2);
    assert_eq!(toks[0].text, "a");
    assert_eq!(toks[1].text, "b");
    assert_eq!(toks[1].span.start, 16);
}

#[test]
fn two_char_operators() {
    let toks = lex("a == b != c <= d >= e");
    let kinds: Vec<_> = toks.iter().map(|t| t.kind).collect();
    assert!(kinds.contains(&TokenKind::EqEq));
    assert!(kinds.contains(&TokenKind::Ne));
    assert!(kinds.contains(&TokenKind::Le));
    assert!(kinds.contains(&TokenKind::Ge));
}

#[test]
fn lex_at_offsets() {
    let toks = lex_at("x", 5);
    assert_eq!(toks[0].span, Span::new(5, 6));
}

#[test]
fn unknown_byte_is_error_token() {
    let toks = lex("a @ b");
    assert_eq!(toks[1].kind, TokenKind::Error);
    assert_eq!(toks[1].text, "@");
}

#[test]
fn unicode_identifier_lexes_without_panic() {
    let toks = lex("let café = 1;");
    assert_eq!(toks[1].kind, TokenKind::Ident);
    assert_eq!(toks[1].text, "café");
    // `é` is two bytes, so the `=` sits two bytes past a naive ASCII count.
    assert_eq!(toks[2].kind, TokenKind::Eq);
}

#[test]
fn non_ascii_symbol_is_a_single_error_token() {
    let toks = lex("a € b");
    assert_eq!(toks.len(), 3);
    assert_eq!(toks[1].kind, TokenKind::Error);
    assert_eq!(toks[1].text, "€");
    assert_eq!(toks[1].span, Span::new(2, 5));
}

#[test]
fn unicode_inside_comment_is_skipped() {
    let toks = lex("a // café ☕\nb");
    assert_eq!(toks.len(), 2);
    assert_eq!(toks[0].text, "a");
    assert_eq!(toks[1].text, "b");
}

#[test]
fn keywords_and_numbers_and_spans() {
    let toks = lex("fn f() { if true { 12 } else { false } }");
    let kinds: Vec<_> = toks.iter().map(|t| t.kind).collect();
    assert_eq!(kinds[0], TokenKind::Fn);
    assert_eq!(kinds[5], TokenKind::If);
    assert_eq!(kinds[6], TokenKind::True);
    assert_eq!(toks[8].text, "12");
    assert_eq!(toks[8].span, Span::new(19, 21));
    assert!(kinds.contains(&TokenKind::Else));
    assert!(kinds.contains(&TokenKind::False));
}

#[test]
fn lexing_in_two_pieces_at_a_line_start_matches_the_whole() {
    let text = "let a = 1; // note\nlet b = a;\n";
    let split = text.find("let b").unwrap();
    let whole = lex(text);
    let mut pieces = lex_at(&text[..split], 0);
    pieces.extend(lex_at(&text[split..], split as u32));
    assert_eq!(whole, pieces);
}

#[test]
fn shifted_token_moves_only_its_span() {
    let toks = lex("abc");
    let t = toks[0].shifted(7);
    assert_eq!(t.span, Span::new(7, 10));
    assert_eq!(t.text, "abc");
    assert_eq!(t.kind, TokenKind::Ident);
}
