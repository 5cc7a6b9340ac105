use atelier::diagnostics::{sorted, DiagKind, Diagnostic};
use atelier::span::Span;
use atelier::parser::parse;
use atelier::resolver::{resolve, BindingKind, SymbolTable};

fn table(src: &str) -> SymbolTable {
    resolve(&parse(src).program)
}

#[test]
fn resolves_let_use() {
    let t = table("let x = 1; let y = x;");
    let uses: Vec<_> = t.occurrences.iter().filter(|o| !o.is_decl).collect();
    assert_eq!(uses.len(), 1);
    assert!(uses[0].binding.is_some());
}

#[test]
fn function_hoisting() {
    let t = table("fn a() { b() } fn b() { 1 }");
    assert!(t.diagnostics.is_empty(), "{:?}", t.diagnostics);
}

#[test]
fn unresolved_name_flagged() {
    let t = table("let x = y;");
    assert!(t.diagnostics.iter().any(|d| d.kind == DiagKind::UnresolvedName));
}

#[test]
fn redefinition_flagged() {
    let t = table("let x = 1; let x = 2;");
    assert!(t.diagnostics.iter().any(|d| d.kind == DiagKind::Redefinition));
}

#[test]
fn shadowing_across_scopes_is_ok() {
    let t = table("let x = 1; fn f(x) { x }");
    assert!(t.diagnostics.is_empty(), "{:?}", t.diagnostics);
}

#[test]
fn let_not_visible_before_declaration() {
    let t = table("fn f() { let a = b; let b = 1; }");
    assert!(t.diagnostics.iter().any(|d| d.kind == DiagKind::UnresolvedName));
}

#[test]
fn occurrences_sorted_and_bindings_in_order() {
    let t = table("fn f(a) { a } let g = f(1); g;");
    assert_eq!(t.bindings.len(), 3);
    assert_eq!(t.bindings[0].kind, BindingKind::Fn);
    assert_eq!(t.bindings[0].arity, Some(1));
    assert_eq!(t.bindings[1].kind, BindingKind::Param);
    assert_eq!(t.bindings[2].kind, BindingKind::Let);
    for w in t.occurrences.windows(2) {
        assert!((w[0].span.start, w[0].span.end) <= (w[1].span.start, w[1].span.end));
    }
    for o in &t.occurrences {
        if let Some(id) = o.binding {
            assert!(id < t.bindings.len());
        }
    }
}

#[test]
fn diagnostic_messages() {
    let t = table("let x = y; let x = 2;");
    let msgs: Vec<&str> = t.diagnostics.iter().map(|d| d.message.as_str()).collect();
    assert_eq!(
        msgs,
        vec!["cannot find `y` in this scope", "`x` is already defined in this scope"]
    );
    assert_eq!(BindingKind::Fn.describe(), "function");
    assert_eq!(BindingKind::Param.describe(), "parameter");
    assert_eq!(BindingKind::Let.describe(), "variable");
}

#[test]
fn sorting_diagnostics_ignores_their_input_order() {
    let d = vec![
        Diagnostic::error(Span::new(4, 5), DiagKind::UnresolvedName, "b".to_string()),
        Diagnostic::error(Span::new(0, 1), DiagKind::ParseError, "z".to_string()),
        Diagnostic::error(Span::new(4, 5), DiagKind::UnresolvedName, "a".to_string()),
    ];
    let mut r = d.clone();
    r.reverse();
    let s1 = sorted(d);
    assert_eq!(s1, sorted(r));
    assert_eq!(sorted(s1.clone()), s1);
    assert_eq!(s1[0].message, "z");
    assert_eq!(s1[1].message, "a");
}
