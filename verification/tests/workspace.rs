use atelier::rename::RenameError;
use atelier::workspace::{RunError, Workspace};

#[test]
fn edit_then_query_and_run() {
    let mut ws = Workspace::new();
    ws.set_file("main.at", "fn dbl(n) { n * 2 }\ndbl(21);\n");
    assert_eq!(ws.run_file("main.at").unwrap().lines, vec!["42"]);

    // rename the argument at the call site by editing text
    let a = ws.file("main.at").unwrap();
    let pos = a.text().find("21").unwrap() as u32;
    ws.edit_file("main.at", pos, pos + 2, "50");
    assert_eq!(ws.run_file("main.at").unwrap().lines, vec!["100"]);
}

#[test]
fn unknown_file() {
    let ws = Workspace::new();
    assert!(matches!(ws.run_file("nope"), Err(RunError::NoSuchFile)));
}

#[test]
fn rename_symbol_updates_file_and_run() {
    let mut ws = Workspace::new();
    ws.set_file("main.at", "fn dbl(n) { n * 2 }\ndbl(21);\n");
    let pos = ws.file("main.at").unwrap().text().find("dbl").unwrap() as u32;
    let count = ws.rename_symbol("main.at", pos, "twice").unwrap();
    assert_eq!(count, 2);
    assert!(ws.file("main.at").unwrap().text().contains("twice(21)"));
    assert_eq!(ws.run_file("main.at").unwrap().lines, vec!["42"]);
}

#[test]
fn rename_symbol_unknown_file() {
    let mut ws = Workspace::new();
    assert_eq!(
        ws.rename_symbol("nope", 0, "x"),
        Err(RenameError::NotRenameable)
    );
}

#[test]
fn files_are_kept_in_name_order_and_replaced() {
    let mut ws = Workspace::new();
    ws.set_file("b.at", "1;");
    ws.set_file("a.at", "2;");
    ws.set_file("c.at", "3;");
    ws.set_file("b.at", "4;");
    assert_eq!(ws.file_names(), vec!["a.at", "b.at", "c.at"]);
    assert_eq!(ws.run_file("b.at").unwrap().lines, vec!["4"]);
    assert!(!ws.edit_file("z.at", 0, 0, "x"));
    assert!(ws.file("z.at").is_none());
    let err = ws.run_file("c.at");
    assert!(err.is_ok());
    ws.set_file("c.at", "1 / 0;");
    match ws.run_file("c.at") {
        Err(RunError::Runtime(e)) => assert_eq!(e.message, "arithmetic error"),
        _ => panic!("expected a runtime error"),
    }
}
