use atelier::rename_law::rename_to_fresh;
use atelier::incremental::Analysis;
use atelier::rename::{is_valid_identifier, RenameError};

#[test]
fn renames_a_variable_and_all_uses() {
    let a = Analysis::new("let x = 1;\nlet y = x + x;\n");
    let pos = a.text().find('x').unwrap() as u32;
    let r = a.rename(pos, "total").unwrap();
    assert_eq!(r.edits.len(), 3);
    assert_eq!(r.new_text, "let total = 1;\nlet y = total + total;\n");
}

#[test]
fn renames_from_a_use_site_too() {
    let a = Analysis::new("fn dbl(n) { n * 2 }\ndbl(21);\n");
    let pos = a.text().find("dbl(21)").unwrap() as u32;
    let r = a.rename(pos, "double").unwrap();
    assert_eq!(r.new_text, "fn double(n) { n * 2 }\ndouble(21);\n");
}

#[test]
fn rejects_invalid_names() {
    let a = Analysis::new("let x = 1; x;");
    let pos = a.text().find('x').unwrap() as u32;
    assert_eq!(a.rename(pos, "1abc"), Err(RenameError::InvalidName));
    assert_eq!(a.rename(pos, "let"), Err(RenameError::InvalidName));
    assert_eq!(a.rename(pos, "a b"), Err(RenameError::InvalidName));
    assert_eq!(a.rename(pos, ""), Err(RenameError::InvalidName));
}

#[test]
fn rejects_capturing_rename() {
    // Renaming the outer `a` to `b` would capture the use inside f, which
    // currently resolves to the parameter `b`.
    let a = Analysis::new("let a = 1; fn f(b) { a + b }");
    let pos = a.text().find("a =").unwrap() as u32;
    assert_eq!(a.rename(pos, "b"), Err(RenameError::Conflict));
}

#[test]
fn unicode_rename_is_supported() {
    let a = Analysis::new("let café = 1; café + café;");
    let pos = a.text().find("café").unwrap() as u32;
    let r = a.rename(pos, "coffee").unwrap();
    assert_eq!(r.new_text, "let coffee = 1; coffee + coffee;");
}

#[test]
fn nothing_to_rename_at_a_literal() {
    let a = Analysis::new("let x = 1;");
    // position on the integer literal, which is not a renameable symbol
    let pos = a.text().find('1').unwrap() as u32;
    assert_eq!(a.rename(pos, "y"), Err(RenameError::NotRenameable));
}

#[test]
fn identifier_validity() {
    assert!(is_valid_identifier("x1"));
    assert!(is_valid_identifier("café"));
    assert!(!is_valid_identifier("if"));
    assert!(!is_valid_identifier(" x"));
    assert!(!is_valid_identifier("x+"));
}

#[test]
fn rename_edits_are_in_position_order() {
    let a = Analysis::new("let v = 1; v + v;");
    let r = a.rename(4, "w").unwrap();
    let starts: Vec<u32> = r.edits.iter().map(|e| e.span.start).collect();
    assert_eq!(starts, vec![4, 11, 15]);
    assert_eq!(r.new_text, "let w = 1; w + w;");
}

#[test]
fn renaming_to_a_name_no_occurrence_uses_is_accepted() {
    let a = Analysis::new("let x = 1;\nfn f(y) { x + y }\nf(x);\n");
    let r = a.rename(4, "z").unwrap();
    assert_eq!(r.new_text, "let z = 1;\nfn f(y) { z + y }\nf(z);\n");
    assert_eq!(r.edits.len(), 3);
}

#[test]
fn checked_fresh_rename_succeeds_or_says_why_not() {
    let a = Analysis::new("let x = 1;\nx + 2;\n");
    let r = rename_to_fresh(&a, 4, "y").unwrap();
    assert_eq!(r.new_text, "let y = 1;\ny + 2;\n");
    assert!(rename_to_fresh(&a, 4, "x").is_none());
    assert!(rename_to_fresh(&a, 4, "1y").is_none());
    assert!(rename_to_fresh(&a, 8, "y").is_none());
}
