use atelier::eval::{run, RunOutput, RuntimeError, Value};
use atelier::parser::parse;
use atelier::span::Span;

fn run_src(src: &str) -> Result<RunOutput, RuntimeError> {
    run(&parse(src).program)
}

#[test]
fn arithmetic_and_precedence() {
    let out = run_src("1 + 2 * 3;").unwrap();
    assert_eq!(out.lines, vec!["7"]);
}

#[test]
fn functions_and_recursion() {
    let src = "fn fib(n) { if n < 2 { n } else { fib(n - 1) + fib(n - 2) } }\nfib(10);";
    let out = run_src(src).unwrap();
    assert_eq!(out.lines, vec!["55"]);
}

#[test]
fn let_bindings_and_blocks() {
    let out = run_src("let a = 3; let b = { let c = 4; a + c }; b;").unwrap();
    assert_eq!(out.lines, vec!["7"]);
}

#[test]
fn division_by_zero_errors() {
    assert!(run_src("1 / 0;").is_err());
}

#[test]
fn if_without_else_is_unit() {
    let out = run_src("if false { 1 };").unwrap();
    assert!(out.lines.is_empty());
}

#[test]
fn runtime_error_messages_and_spans() {
    let e = run_src("1 / 0;").unwrap_err();
    assert_eq!(e.message, "arithmetic error");
    assert_eq!(e.span, Span::new(0, 5));
    let e = run_src("x;").unwrap_err();
    assert_eq!(e.message, "`x` is not a value in scope");
    let e = run_src("fn f(a) { a } f(1, 2);").unwrap_err();
    assert_eq!(e.message, "`f` expects 1 arguments, got 2");
    let e = run_src("g(1);").unwrap_err();
    assert_eq!(e.message, "`g` is not a function");
    let e = run_src("if 1 { 2 };").unwrap_err();
    assert_eq!(e.message, "if condition must be a boolean");
    let e = run_src("1 + true;").unwrap_err();
    assert_eq!(e.message, "arithmetic requires integers");
    let e = run_src("1 < true;").unwrap_err();
    assert_eq!(e.message, "comparison requires integers");
    let e = run_src("-true;").unwrap_err();
    assert_eq!(e.message, "type error in unary operation");
    let e = run_src("(1)(2);").unwrap_err();
    assert_eq!(e.message, "call target must be a function name");
}

#[test]
fn overflow_is_a_runtime_error() {
    let e = run_src("9223372036854775807 + 1;").unwrap_err();
    assert_eq!(e.message, "arithmetic error");
    let out = run_src("-9223372036854775807 - 1;").unwrap();
    assert_eq!(out.lines, vec!["-9223372036854775808"]);
}

#[test]
fn values_print_and_compare() {
    let out = run_src("true; 1 == 1; 1 != 2; true == 1; -5; {};").unwrap();
    assert_eq!(out.lines, vec!["true", "true", "true", "false", "-5"]);
    assert_eq!(Value::Int(-12).to_string(), "-12");
    assert_eq!(Value::Bool(false).to_string(), "false");
    assert_eq!(Value::Unit.to_string(), "()");
}

#[test]
fn functions_see_globals_but_not_caller_locals() {
    let out = run_src("let g = 5; fn f() { g } f();").unwrap();
    assert_eq!(out.lines, vec!["5"]);
    let e = run_src("fn f() { l } { let l = 1; f() };").unwrap_err();
    assert_eq!(e.message, "`l` is not a value in scope");
}

#[test]
fn later_function_declaration_wins() {
    let out = run_src("fn f() { 1 } fn f() { 2 } f();").unwrap();
    assert_eq!(out.lines, vec!["2"]);
}

#[test]
fn negating_the_least_integer_is_an_arithmetic_error() {
    let src = "let m = 0 - 9223372036854775807 - 1;\nm;\n-m;\n";
    let err = run_src(src).unwrap_err();
    assert_eq!(err.message, "arithmetic error");
    let start = src.find("-m").unwrap() as u32;
    assert_eq!(err.span, Span::new(start, start + 2));
    let out = run_src("-(0 - 9223372036854775807);").unwrap();
    assert_eq!(out.lines, vec!["9223372036854775807"]);
}
