use atelier::incremental::Analysis;

fn assert_matches_batch(a: &Analysis) {
    let b = Analysis::new(a.text());
    assert_eq!(a.tokens(), b.tokens(), "tokens differ for {:?}", a.text());
    assert_eq!(a.program(), b.program(), "ast differs for {:?}", a.text());
    assert_eq!(
        a.diagnostics(),
        b.diagnostics(),
        "diags differ for {:?}",
        a.text()
    );
    assert_eq!(
        a.symbols(),
        b.symbols(),
        "symbols differ for {:?}",
        a.text()
    );
}

#[test]
fn edit_inside_one_statement() {
    let mut a = Analysis::new("let x = 1;\nlet y = 2;\n");
    // change the 2 to 42
    let pos = a.text().find('2').unwrap() as u32;
    a.edit(pos, pos + 1, "42");
    assert_eq!(a.text(), "let x = 1;\nlet y = 42;\n");
    assert_matches_batch(&a);
}

#[test]
fn edit_deleting_separator_merges_region() {
    let mut a = Analysis::new("let x = 1;\nlet y = 2;\n");
    // delete the first semicolon, merging the two lets
    let pos = a.text().find(';').unwrap() as u32;
    a.edit(pos, pos + 1, "");
    assert_matches_batch(&a);
}

#[test]
fn insert_new_statement_between() {
    let mut a = Analysis::new("let x = 1;\nlet y = x;\n");
    let pos = a.text().find("let y").unwrap() as u32;
    a.edit(pos, pos, "let z = x;\n");
    assert_matches_batch(&a);
}

#[test]
fn incremental_equals_batch_after_many_edits() {
    let mut a = Analysis::new("fn main() { let a = 1; a }");
    a.edit(0, 0, "let g = 9;\n");
    a.edit(
        a.text().len() as u32,
        a.text().len() as u32,
        "\nlet h = g;\n",
    );
    let cut = a.text().find("a = 1").unwrap() as u32;
    a.edit(cut + 4, cut + 5, "100");
    assert_matches_batch(&a);
    let batch = Analysis::new(a.text());
    assert_eq!(a.program(), batch.program());
}

#[test]
fn new_analysis_reports_sorted_diagnostics() {
    let a = Analysis::new("let a = b;\nlet a = 1;\nlet c = ;");
    let d = a.diagnostics();
    assert!(d.len() >= 3);
    for w in d.windows(2) {
        assert!((w[0].span.start, w[0].span.end) <= (w[1].span.start, w[1].span.end));
    }
    assert_eq!(a.program().len(), 3);
    assert_eq!(a.text(), "let a = b;\nlet a = 1;\nlet c = ;");
}

#[test]
fn edit_replaces_exactly_the_range() {
    let mut a = Analysis::new("let café = 1;\n");
    let at = a.text().find("1").unwrap() as u32;
    a.edit(at, at + 1, "λ");
    assert_eq!(a.text(), "let café = λ;\n");
    a.edit(0, a.text().len() as u32, "x;");
    assert_eq!(a.text(), "x;");
    assert_matches_batch(&a);
}

#[test]
fn completing_else_after_an_if_at_a_seam_matches_a_full_analysis() {
    // The statement before the edited line reads the token after it: once
    // `els` becomes `else` it continues the `if`, exactly as a full analysis
    // of the new text has it.
    let mut a = Analysis::new("let a = if c { 1 }\nels}");
    a.edit(22, 22, "e");
    assert_eq!(a.text(), "let a = if c { 1 }\nelse}");
    let b = Analysis::new(a.text());
    assert_eq!(a.tokens(), b.tokens());
    assert_eq!(a.program().len(), b.program().len());
    assert_matches_batch(&a);
}

#[test]
fn tokens_match_a_full_lex_after_edits() {
    let mut a = Analysis::new("fn f(x) { x }\n// note\nlet y = f(1);\n");
    a.edit(14, 14, "let z = 2;\n");
    a.edit(0, 2, "fn");
    let pos = a.text().find("note").unwrap() as u32;
    a.edit(pos, pos + 4, "changed");
    let b = Analysis::new(a.text());
    assert_eq!(a.tokens(), b.tokens());
    assert_matches_batch(&a);
}
