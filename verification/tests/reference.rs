use atelier::parser::parse;
use atelier::reference::resolve_program;
use atelier::span::Span;

#[test]
fn maps_use_to_decl() {
    let prog = parse("let x = 1; let y = x;").program;
    let map = resolve_program(&prog);
    // the use of x resolves to the decl of x at span 4..5
    let decl_x = Span::new(4, 5);
    let use_x = map
        .iter()
        .find(|(s, target)| *target == Some(decl_x) && *s != decl_x);
    assert!(use_x.is_some());
}

#[test]
fn reference_map_is_sorted_and_complete() {
    let prog = parse("fn f(a) { a + b } let c = f(1);").program;
    let map = resolve_program(&prog);
    for w in map.windows(2) {
        assert!(w[0].0 < w[1].0);
    }
    let b = map.iter().find(|(s, _)| *s == Span::new(14, 15)).unwrap();
    assert_eq!(b.1, None);
    let f_use = map.iter().find(|(s, _)| *s == Span::new(26, 27)).unwrap();
    assert_eq!(f_use.1, Some(Span::new(3, 4)));
    assert_eq!(map.len(), 6);
}
