use atelier::ast::{BinOp, ExprKind, StmtKind};
use atelier::diagnostics::DiagKind;
use atelier::lexer::lex;
use atelier::parser::{parse, parse_items, parse_tokens};

#[test]
fn parses_let_and_fn() {
    let out = parse("let x = 1 + 2;\nfn f(a, b) { a + b }");
    assert!(out.diagnostics.is_empty(), "{:?}", out.diagnostics);
    assert_eq!(out.program.len(), 2);
    assert!(matches!(out.program[0].kind, StmtKind::Let(_)));
    assert!(matches!(out.program[1].kind, StmtKind::Fn(_)));
}

#[test]
fn precedence_is_correct() {
    let out = parse("let x = 1 + 2 * 3;");
    if let StmtKind::Let(l) = &out.program[0].kind {
        if let ExprKind::Binary { op, rhs, .. } = &l.value.kind {
            assert_eq!(*op, BinOp::Add);
            assert!(matches!(rhs.kind, ExprKind::Binary { op: BinOp::Mul, .. }));
            return;
        }
    }
    panic!("unexpected shape");
}

#[test]
fn missing_semicolon_reports_error() {
    let out = parse("let x = 1");
    assert!(out
        .diagnostics
        .iter()
        .any(|d| d.kind == DiagKind::UnexpectedEof));
    assert!(out.truncated);
}

#[test]
fn block_tail_expression() {
    let out = parse("fn f() { let a = 1; a }");
    assert!(out.diagnostics.is_empty(), "{:?}", out.diagnostics);
    if let StmtKind::Fn(f) = &out.program[0].kind {
        assert!(f.body.tail.is_some());
        assert_eq!(f.body.stmts.len(), 1);
        return;
    }
    panic!("expected fn");
}

#[test]
fn if_else_expression() {
    let out = parse("fn f(x) { if x { 1 } else { 2 } }");
    assert!(out.diagnostics.is_empty(), "{:?}", out.diagnostics);
}

#[test]
fn groups_carry_their_own_tokens_and_diagnostics() {
    let toks = lex("let a = 1 let b = 2;");
    let (groups, truncated) = parse_items(&toks);
    assert!(!truncated);
    assert_eq!(groups.len(), 2);
    // the missing `;` is reported by the first statement, at its end
    assert_eq!(groups[0].diagnostics.len(), 1);
    assert_eq!(groups[0].diagnostics[0].kind, DiagKind::ParseError);
    assert_eq!(groups[0].diagnostics[0].span.start, 9);
    assert!(groups[1].diagnostics.is_empty());
    let total: usize = groups.iter().map(|g| g.tokens.len()).sum();
    assert_eq!(total, toks.len());
    let out = parse_tokens(&toks);
    assert_eq!(out.program.len(), 2);
    assert_eq!(out.diagnostics.len(), 1);
}

#[test]
fn stray_token_still_makes_progress() {
    let out = parse(") let x = 1;");
    assert!(out.diagnostics.iter().any(|d| d.kind == DiagKind::ParseError));
    assert!(out.program.iter().any(|s| matches!(s.kind, StmtKind::Let(_))));
}

#[test]
fn unary_and_call_parse() {
    let out = parse("f(-1, !true);");
    assert!(out.diagnostics.is_empty(), "{:?}", out.diagnostics);
    if let StmtKind::Expr(e) = &out.program[0].kind {
        if let ExprKind::Call { args, .. } = &e.kind {
            assert_eq!(args.len(), 2);
            assert!(matches!(args[0].kind, ExprKind::Unary { .. }));
            return;
        }
    }
    panic!("expected a call");
}

#[test]
fn no_tokens_give_no_groups() {
    let (groups, truncated) = parse_items(&[]);
    assert!(groups.is_empty());
    assert!(!truncated);
}
