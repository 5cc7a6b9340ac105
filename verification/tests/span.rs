use atelier::span::{linecol_to_offset, offset_to_linecol, LineCol, Span};

#[test]
fn linecol_roundtrip() {
    let text = "let a = 1;\nlet b = 2;\n";
    let off = linecol_to_offset(text, 2, 5);
    assert_eq!(&text[(off as usize)..=(off as usize)], "b");
    let lc = offset_to_linecol(text, off);
    assert_eq!(lc, LineCol { line: 2, col: 5 });
}

#[test]
fn span_touch_and_shift() {
    let s = Span::new(3, 7);
    assert!(s.contains(3));
    assert!(!s.contains(7));
    assert!(s.touches(7));
    assert_eq!(s.shifted(2), Span::new(5, 9));
}

#[test]
fn linecol_clamps_and_counts() {
    let text = "ab\ncd";
    assert_eq!(offset_to_linecol(text, 100), LineCol { line: 2, col: 3 });
    assert_eq!(offset_to_linecol(text, 0), LineCol { line: 1, col: 1 });
    assert_eq!(linecol_to_offset(text, 1, 99), 2);
    assert_eq!(linecol_to_offset(text, 9, 1), 5);
    assert_eq!(Span::new(2, 6).len(), 4);
    assert!(Span::new(4, 4).is_empty());
    assert_eq!(Span::new(5, 9).shifted(-5), Span::new(0, 4));
}
