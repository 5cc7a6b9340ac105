use atelier::incremental::Analysis;
use atelier::resolver::BindingKind;
use atelier::span::Span;

#[test]
fn go_to_definition_and_references() {
    let src = "let x = 1;\nlet y = x + x;\n";
    let a = Analysis::new(src);
    let first_use = src.find("x + x").unwrap() as u32;
    let def = a.go_to_definition(first_use).unwrap();
    assert_eq!(def.span, Span::new(4, 5));
    assert_eq!(def.name, "x");
    let refs = a.find_references(first_use);
    // one decl plus two uses
    assert_eq!(refs.len(), 3);
    assert_eq!(refs.iter().filter(|r| r.is_decl).count(), 1);
}

#[test]
fn hover_reports_kind_and_arity() {
    let a = Analysis::new("fn add(a, b) { a + b }");
    let pos = a.text().find("add").unwrap() as u32;
    let h = a.hover(pos).unwrap();
    assert_eq!(h.kind, BindingKind::Fn);
    assert_eq!(h.arity, Some(2));
}

#[test]
fn queries_on_nothing_and_on_unresolved_names() {
    let a = Analysis::new("let x = 1;\ny;\n");
    let lit = a.text().find('1').unwrap() as u32;
    assert!(a.go_to_definition(lit).is_none());
    assert!(a.hover(lit).is_none());
    assert!(a.find_references(lit).is_empty());
    let y = a.text().find('y').unwrap() as u32;
    assert!(a.go_to_definition(y).is_none());
    assert!(a.find_references(y).is_empty());
}

#[test]
fn click_at_the_end_of_a_name_selects_it() {
    let a = Analysis::new("let abc = 1; abc;");
    let end = a.text().find("abc").unwrap() as u32 + 3;
    let def = a.go_to_definition(end).unwrap();
    assert_eq!(def.span, Span::new(4, 7));
    assert_eq!(def.kind, BindingKind::Let);
    let refs = a.find_references(end);
    let spans: Vec<Span> = refs.iter().map(|r| r.span).collect();
    assert_eq!(spans, vec![Span::new(4, 7), Span::new(13, 16)]);
    assert!(refs[0].is_decl && !refs[1].is_decl);
    let h = a.hover(end).unwrap();
    assert_eq!(h.decl_span, Span::new(4, 7));
    assert_eq!(h.arity, None);
}

#[test]
fn references_found_at_every_use_include_that_use() {
    let src = "fn f(a) { a + a }\nlet b = f(2);\nf(b);\n";
    let a = Analysis::new(src);
    for (i, _) in src.char_indices() {
        let pos = i as u32;
        let refs = a.find_references(pos);
        match a.go_to_definition(pos) {
            Some(def) => {
                assert!(refs.iter().any(|r| r.span.contains(pos) || r.span.touches(pos)));
                assert_eq!(a.hover(pos).unwrap().decl_span, def.span);
            }
            None => {
                assert!(refs.is_empty());
                assert!(a.hover(pos).is_none());
            }
        }
    }
}
