//! A small tree walking evaluator so a program can actually Run.
//!
//! Values are integers, booleans, and unit. Top level functions are hoisted and
//! may recurse or call one another. Functions see the global scope (top level
//! functions and top level `let` values) plus their own parameters and locals.
//! Running a program yields the text of the value of each top level expression
//! statement whose value is not unit.
//!
//! The meaning of a program is given by the spec functions below, which take a
//! step budget (`fuel`); a program whose run finishes within some budget is one
//! that does not recurse without end. Arithmetic, negation included, is checked:
//! overflow and division by zero are runtime errors.

use vstd::prelude::*;
use vstd::string::StringExecFns;
use crate::ast::{
    Stmt, StmtKind, Block, Expr, ExprKind, FnDecl, Program, BinOp, UnOp, IdentV, StmtV, StmtKindV,
    BlockV, ExprV, ExprKindV, stmt_v, stmts_v, block_v, expr_v, exprs_v, idents_v, ident_v,
    lemma_stmts_v, lemma_exprs_v,
};
use crate::numbers::{int_text, fmt_i64, fmt_usize};
use crate::span::Span;

verus! {

#[derive(Clone, Copy, Debug, PartialEq, Eq, Structural)]
pub enum Value {
    Int(i64),
    Bool(bool),
    Unit,
}

#[derive(Clone, Debug, PartialEq, Eq)]
pub struct RuntimeError {
    pub span: Span,
    pub message: String,
}

pub struct ErrV {
    pub span: Span,
    pub message: Seq<char>,
}

impl View for RuntimeError {
    type V = ErrV;

    open spec fn view(&self) -> ErrV {
        ErrV { span: self.span, message: self.message@ }
    }
}

/// The result of running a program: the value of each top level expression
/// statement, in order.
#[derive(Clone, Debug, PartialEq, Eq)]
pub struct RunOutput {
    pub lines: Vec<String>,
}

pub open spec fn err_v(span: Span, message: Seq<char>) -> ErrV {
    ErrV { span, message }
}

/// The text of a value: decimal for integers, `true`/`false`, and `()`.
pub open spec fn value_text(v: Value) -> Seq<char> {
    match v {
        Value::Int(n) => int_text(n as int),
        Value::Bool(b) => if b {
            "true"@
        } else {
            "false"@
        },
        Value::Unit => "()"@,
    }
}

// ---------------------------------------------------------------------------
// Environments: a frame is a sequence of (name, value) entries, the latest
// entry for a name being the one in force.

pub open spec fn frame_get(f: Seq<(Seq<char>, Value)>, name: Seq<char>) -> Option<Value>
    decreases f.len(),
{
    if f.len() == 0 {
        None
    } else if f.last().0 == name {
        Some(f.last().1)
    } else {
        frame_get(f.drop_last(), name)
    }
}

/// Look a name up in the local scopes, innermost first.
pub open spec fn scopes_get(sc: Seq<Seq<(Seq<char>, Value)>>, name: Seq<char>) -> Option<Value>
    decreases sc.len(),
{
    if sc.len() == 0 {
        None
    } else {
        match frame_get(sc.last(), name) {
            Some(v) => Some(v),
            None => scopes_get(sc.drop_last(), name),
        }
    }
}

/// The value a name denotes: the local scopes first, then the globals.
pub open spec fn var_lookup(
    g: Seq<(Seq<char>, Value)>,
    sc: Seq<Seq<(Seq<char>, Value)>>,
    name: Seq<char>,
) -> Option<Value> {
    match scopes_get(sc, name) {
        Some(v) => Some(v),
        None => frame_get(g, name),
    }
}

/// The top level function of that name; the last declaration wins.
pub open spec fn fn_lookup(p: Seq<StmtV>, name: Seq<char>) -> Option<(Seq<IdentV>, BlockV)>
    decreases p.len(),
{
    if p.len() == 0 {
        None
    } else {
        match p.last().kind {
            StmtKindV::Fn { name: n, params, body } => if n.name == name {
                Some((params, body))
            } else {
                fn_lookup(p.drop_last(), name)
            },
            _ => fn_lookup(p.drop_last(), name),
        }
    }
}

// ---------------------------------------------------------------------------
// Operators

pub open spec fn msg_not_value(name: Seq<char>) -> Seq<char> {
    "`"@ + name + "` is not a value in scope"@
}

pub open spec fn msg_not_function(name: Seq<char>) -> Seq<char> {
    "`"@ + name + "` is not a function"@
}

pub open spec fn msg_arity(name: Seq<char>, expected: nat, got: nat) -> Seq<char> {
    "`"@ + name + "` expects "@ + int_text(expected as int) + " arguments, got "@ + int_text(
        got as int,
    )
}

/// Unary operators. Negation is checked like the binary arithmetic: the least
/// `i64` has no `i64` negation, and negating it is an arithmetic error.
pub open spec fn unary_v(op: UnOp, v: Value, span: Span) -> Option<Result<Value, ErrV>> {
    match (op, v) {
        (UnOp::Neg, Value::Int(n)) => if n == i64::MIN {
            Some(Err(err_v(span, "arithmetic error"@)))
        } else {
            Some(Ok(Value::Int((-n) as i64)))
        },
        (UnOp::Not, Value::Bool(b)) => Some(Ok(Value::Bool(!b))),
        _ => Some(Err(err_v(span, "type error in unary operation"@))),
    }
}

/// Checked integer arithmetic: `None` on overflow or division by zero.
pub open spec fn arith(op: BinOp, a: i64, b: i64) -> Option<i64> {
    match op {
        BinOp::Add => a.checked_add(b),
        BinOp::Sub => a.checked_sub(b),
        BinOp::Mul => a.checked_mul(b),
        _ => a.checked_div(b),
    }
}

pub open spec fn is_arith(op: BinOp) -> bool {
    op == BinOp::Add || op == BinOp::Sub || op == BinOp::Mul || op == BinOp::Div
}

pub open spec fn compare(op: BinOp, a: i64, b: i64) -> bool {
    match op {
        BinOp::Lt => a < b,
        BinOp::Le => a <= b,
        BinOp::Gt => a > b,
        _ => a >= b,
    }
}

pub open spec fn binary_v(op: BinOp, l: Value, r: Value, span: Span) -> Result<Value, ErrV> {
    if is_arith(op) {
        match (l, r) {
            (Value::Int(a), Value::Int(b)) => match arith(op, a, b) {
                Some(x) => Ok(Value::Int(x)),
                None => Err(err_v(span, "arithmetic error"@)),
            },
            _ => Err(err_v(span, "arithmetic requires integers"@)),
        }
    } else if op == BinOp::Eq {
        Ok(Value::Bool(l == r))
    } else if op == BinOp::Ne {
        Ok(Value::Bool(l != r))
    } else {
        match (l, r) {
            (Value::Int(a), Value::Int(b)) => Ok(Value::Bool(compare(op, a, b))),
            _ => Err(err_v(span, "comparison requires integers"@)),
        }
    }
}

// ---------------------------------------------------------------------------
// Evaluation with a step budget. `None` means the budget ran out; `Some`
// carries the value or the runtime error.

pub open spec fn ev_expr(
    fuel: nat,
    p: Seq<StmtV>,
    g: Seq<(Seq<char>, Value)>,
    sc: Seq<Seq<(Seq<char>, Value)>>,
    e: ExprV,
) -> Option<Result<Value, ErrV>>
    decreases fuel,
{
    if fuel == 0 {
        None
    } else {
        let f = (fuel - 1) as nat;
        match e.kind {
            ExprKindV::Int { value } => Some(Ok(Value::Int(value))),
            ExprKindV::Bool { value } => Some(Ok(Value::Bool(value))),
            ExprKindV::Error => Some(Err(err_v(e.span, "cannot evaluate a syntax error"@))),
            ExprKindV::Name { name } => match var_lookup(g, sc, name) {
                Some(v) => Some(Ok(v)),
                None => Some(Err(err_v(e.span, msg_not_value(name)))),
            },
            ExprKindV::Paren { inner } => ev_expr(f, p, g, sc, *inner),
            ExprKindV::Unary { op, expr } => match ev_expr(f, p, g, sc, *expr) {
                Some(Ok(v)) => unary_v(op, v, e.span),
                other => other,
            },
            ExprKindV::Binary { op, lhs, rhs } => match ev_expr(f, p, g, sc, *lhs) {
                Some(Ok(l)) => match ev_expr(f, p, g, sc, *rhs) {
                    Some(Ok(r)) => Some(binary_v(op, l, r, e.span)),
                    other => other,
                },
                other => other,
            },
            ExprKindV::Block { block } => ev_block(f, p, g, sc, block),
            ExprKindV::If { cond, then_block, else_block } => match ev_expr(f, p, g, sc, *cond) {
                Some(Ok(Value::Bool(true))) => ev_block(f, p, g, sc, then_block),
                Some(Ok(Value::Bool(false))) => match else_block {
                    Some(b) => ev_block(f, p, g, sc, b),
                    None => Some(Ok(Value::Unit)),
                },
                Some(Ok(_)) => Some(Err(err_v(cond.span, "if condition must be a boolean"@))),
                other => other,
            },
            ExprKindV::Call { callee, args } => match callee.kind {
                ExprKindV::Name { name } => match fn_lookup(p, name) {
                    None => Some(Err(err_v(callee.span, msg_not_function(name)))),
                    Some((params, body)) => if params.len() != args.len() {
                        Some(
                            Err(
                                err_v(e.span, msg_arity(name, params.len(), args.len())),
                            ),
                        )
                    } else {
                        match ev_args(f, p, g, sc, params, args, seq![]) {
                            Some(Ok(frame)) => ev_block(f, p, g, seq![frame], body),
                            Some(Err(x)) => Some(Err(x)),
                            None => None,
                        }
                    },
                },
                _ => Some(Err(err_v(callee.span, "call target must be a function name"@))),
            },
        }
    }
}

/// Evaluate call arguments left to right, binding each to its parameter.
pub open spec fn ev_args(
    fuel: nat,
    p: Seq<StmtV>,
    g: Seq<(Seq<char>, Value)>,
    sc: Seq<Seq<(Seq<char>, Value)>>,
    params: Seq<IdentV>,
    args: Seq<ExprV>,
    acc: Seq<(Seq<char>, Value)>,
) -> Option<Result<Seq<(Seq<char>, Value)>, ErrV>>
    decreases fuel,
{
    if fuel == 0 {
        None
    } else if args.len() == 0 || params.len() == 0 {
        Some(Ok(acc))
    } else {
        let f = (fuel - 1) as nat;
        match ev_expr(f, p, g, sc, args[0]) {
            Some(Ok(v)) => ev_args(
                f,
                p,
                g,
                sc,
                params.drop_first(),
                args.drop_first(),
                acc.push((params[0].name, v)),
            ),
            Some(Err(x)) => Some(Err(x)),
            None => None,
        }
    }
}

/// A block: its statements in a fresh scope, then its tail (unit if none).
pub open spec fn ev_block(
    fuel: nat,
    p: Seq<StmtV>,
    g: Seq<(Seq<char>, Value)>,
    sc: Seq<Seq<(Seq<char>, Value)>>,
    b: BlockV,
) -> Option<Result<Value, ErrV>>
    decreases fuel,
{
    if fuel == 0 {
        None
    } else {
        let f = (fuel - 1) as nat;
        match ev_stmts(f, p, g, sc, seq![], b.stmts) {
            Some(Ok(top)) => match b.tail {
                Some(t) => ev_expr(f, p, g, sc.push(top), *t),
                None => Some(Ok(Value::Unit)),
            },
            Some(Err(x)) => Some(Err(x)),
            None => None,
        }
    }
}

/// The statements of a block, threading its own scope `top` (which lies on
/// top of `sc`). Nested function declarations are skipped.
pub open spec fn ev_stmts(
    fuel: nat,
    p: Seq<StmtV>,
    g: Seq<(Seq<char>, Value)>,
    sc: Seq<Seq<(Seq<char>, Value)>>,
    top: Seq<(Seq<char>, Value)>,
    ss: Seq<StmtV>,
) -> Option<Result<Seq<(Seq<char>, Value)>, ErrV>>
    decreases fuel,
{
    if fuel == 0 {
        None
    } else if ss.len() == 0 {
        Some(Ok(top))
    } else {
        let f = (fuel - 1) as nat;
        match ss[0].kind {
            StmtKindV::Fn { .. } => ev_stmts(f, p, g, sc, top, ss.drop_first()),
            StmtKindV::Let { name, value } => match ev_expr(f, p, g, sc.push(top), value) {
                Some(Ok(v)) => ev_stmts(f, p, g, sc, top.push((name.name, v)), ss.drop_first()),
                Some(Err(x)) => Some(Err(x)),
                None => None,
            },
            StmtKindV::Expr { expr } => match ev_expr(f, p, g, sc.push(top), expr) {
                Some(Ok(_)) => ev_stmts(f, p, g, sc, top, ss.drop_first()),
                Some(Err(x)) => Some(Err(x)),
                None => None,
            },
        }
    }
}

/// The top level statements: `let` values become globals, and each expression
/// statement whose value is not unit contributes the text of its value.
pub open spec fn run_stmts(
    fuel: nat,
    p: Seq<StmtV>,
    g: Seq<(Seq<char>, Value)>,
    ss: Seq<StmtV>,
) -> Option<Result<Seq<Seq<char>>, ErrV>>
    decreases ss.len(),
{
    if ss.len() == 0 {
        Some(Ok(seq![]))
    } else {
        match ss[0].kind {
            StmtKindV::Fn { .. } => run_stmts(fuel, p, g, ss.drop_first()),
            StmtKindV::Let { name, value } => match ev_expr(fuel, p, g, seq![], value) {
                Some(Ok(v)) => run_stmts(fuel, p, g.push((name.name, v)), ss.drop_first()),
                Some(Err(x)) => Some(Err(x)),
                None => None,
            },
            StmtKindV::Expr { expr } => match ev_expr(fuel, p, g, seq![], expr) {
                Some(Ok(v)) => match run_stmts(fuel, p, g, ss.drop_first()) {
                    Some(Ok(lines)) => if v == Value::Unit {
                        Some(Ok(lines))
                    } else {
                        Some(Ok(seq![value_text(v)] + lines))
                    },
                    other => other,
                },
                Some(Err(x)) => Some(Err(x)),
                None => None,
            },
        }
    }
}

pub open spec fn run_fuel(fuel: nat, p: Seq<StmtV>) -> Option<Result<Seq<Seq<char>>, ErrV>> {
    run_stmts(fuel, p, seq![], p)
}

/// The run finishes: with some budget it does not run out.
pub open spec fn run_finishes(p: Seq<StmtV>) -> bool {
    exists|fuel: nat| (#[trigger] run_fuel(fuel, p)) is Some
}

/// The outcome of running a program whose run finishes.
pub open spec fn spec_run(p: Seq<StmtV>) -> Result<Seq<Seq<char>>, ErrV> {
    run_fuel(choose|fuel: nat| (#[trigger] run_fuel(fuel, p)) is Some, p).unwrap()
}

pub open spec fn lines_v(s: Seq<String>) -> Seq<Seq<char>> {
    s.map_values(|l: String| l@)
}

} // verus!

verus! {

spec fn fv(f: Seq<(String, Value)>) -> Seq<(Seq<char>, Value)> {
    f.map_values(|x: (String, Value)| (x.0@, x.1))
}

spec fn scv(s: Seq<Vec<(String, Value)>>) -> Seq<Seq<(Seq<char>, Value)>> {
    s.map_values(|f: Vec<(String, Value)>| fv(f@))
}

spec fn res_v(r: Result<Value, RuntimeError>) -> Result<Value, ErrV> {
    match r {
        Ok(v) => Ok(v),
        Err(x) => Err(x@),
    }
}

spec fn frame_res_v(r: Result<Vec<(String, Value)>, RuntimeError>) -> Result<
    Seq<(Seq<char>, Value)>,
    ErrV,
> {
    match r {
        Ok(f) => Ok(fv(f@)),
        Err(x) => Err(x@),
    }
}

/// `lines` followed by what a run of the remaining statements yields.
spec fn with_prefix(
    lines: Seq<Seq<char>>,
    rest: Option<Result<Seq<Seq<char>>, ErrV>>,
) -> Option<Result<Seq<Seq<char>>, ErrV>> {
    match rest {
        Some(Ok(ls)) => Some(Ok(lines + ls)),
        other => other,
    }
}

impl Value {
    /// The text of the value, as a program's output shows it.
    pub fn to_string(&self) -> (s: String)
        ensures
            s@ == value_text(*self),
    {
        match self {
            Value::Int(n) => fmt_i64(*n),
            Value::Bool(b) => if *b {
                String::from_str("true")
            } else {
                String::from_str("false")
            },
            Value::Unit => String::from_str("()"),
        }
    }
}

fn mk_err(span: Span, msg: &str) -> (e: RuntimeError)
    ensures
        e@ == err_v(span, msg@),
{
    RuntimeError { span, message: String::from_str(msg) }
}

fn quoted(name: &String, rest: &str) -> (s: String)
    ensures
        s@ == "`"@ + name@ + rest@,
{
    let mut s = String::from_str("`");
    s.append(name.as_str());
    s.append(rest);
    s
}

fn frame_get_exec(f: &Vec<(String, Value)>, name: &String) -> (r: Option<Value>)
    ensures
        r == frame_get(fv(f@), name@),
{
    let mut k: usize = f.len();
    assert(fv(f@).subrange(0, k as int) =~= fv(f@));
    while k > 0
        invariant
            k <= f@.len(),
            frame_get(fv(f@).subrange(0, k as int), name@) == frame_get(fv(f@), name@),
        decreases k,
    {
        let ghost s = fv(f@).subrange(0, k as int);
        if f[k - 1].0 == *name {
            assert(s.last() == (f@[k - 1].0@, f@[k - 1].1));
            return Some(f[k - 1].1);
        }
        assert(s.drop_last() =~= fv(f@).subrange(0, k - 1));
        k = k - 1;
    }
    None
}

fn lookup_var(g: &Vec<(String, Value)>, sc: &Vec<Vec<(String, Value)>>, name: &String) -> (r:
    Option<Value>)
    ensures
        r == var_lookup(fv(g@), scv(sc@), name@),
{
    let mut k: usize = sc.len();
    assert(scv(sc@).subrange(0, k as int) =~= scv(sc@));
    while k > 0
        invariant
            k <= sc@.len(),
            scopes_get(scv(sc@).subrange(0, k as int), name@) == scopes_get(scv(sc@), name@),
        decreases k,
    {
        let ghost s = scv(sc@).subrange(0, k as int);
        assert(s.last() == fv(sc@[k - 1]@));
        match frame_get_exec(&sc[k - 1], name) {
            Some(v) => {
                return Some(v);
            },
            None => {},
        }
        assert(s.drop_last() =~= scv(sc@).subrange(0, k - 1));
        k = k - 1;
    }
    frame_get_exec(g, name)
}

fn find_fn<'a>(p: &'a Program, name: &String) -> (r: Option<&'a FnDecl>)
    ensures
        match r {
            Some(fd) => fn_lookup(stmts_v(p@), name@) == Some((idents_v(fd.params@), block_v(fd.body))),
            None => fn_lookup(stmts_v(p@), name@) is None,
        },
{
    proof {
        lemma_stmts_v(p@);
    }
    let ghost ss = stmts_v(p@);
    let mut k: usize = p.len();
    assert(ss.subrange(0, k as int) =~= ss);
    while k > 0
        invariant
            k <= p@.len(),
            ss == stmts_v(p@),
            ss.len() == p@.len(),
            forall|j: int| 0 <= j < p@.len() ==> #[trigger] ss[j] == stmt_v(p@[j]),
            fn_lookup(ss.subrange(0, k as int), name@) == fn_lookup(ss, name@),
        decreases k,
    {
        let ghost s = ss.subrange(0, k as int);
        assert(s.last() == stmt_v(p@[k - 1]));
        assert(s.drop_last() =~= ss.subrange(0, k - 1));
        match &p[k - 1].kind {
            StmtKind::Fn(fd) => {
                if fd.name.name == *name {
                    return Some(fd);
                }
            },
            _ => {},
        }
        k = k - 1;
    }
    None
}

fn eval_binary(op: BinOp, l: Value, r: Value, span: Span) -> (res: Result<Value, RuntimeError>)
    ensures
        res_v(res) == binary_v(op, l, r, span),
{
    match op {
        BinOp::Add | BinOp::Sub | BinOp::Mul | BinOp::Div => match (l, r) {
            (Value::Int(a), Value::Int(b)) => {
                let x = match op {
                    BinOp::Add => a.checked_add(b),
                    BinOp::Sub => a.checked_sub(b),
                    BinOp::Mul => a.checked_mul(b),
                    _ => a.checked_div(b),
                };
                match x {
                    Some(v) => Ok(Value::Int(v)),
                    None => Err(mk_err(span, "arithmetic error")),
                }
            },
            _ => Err(mk_err(span, "arithmetic requires integers")),
        },
        BinOp::Eq => Ok(Value::Bool(l == r)),
        BinOp::Ne => Ok(Value::Bool(l != r)),
        _ => match (l, r) {
            (Value::Int(a), Value::Int(b)) => {
                let c = match op {
                    BinOp::Lt => a < b,
                    BinOp::Le => a <= b,
                    BinOp::Gt => a > b,
                    _ => a >= b,
                };
                Ok(Value::Bool(c))
            },
            _ => Err(mk_err(span, "comparison requires integers")),
        },
    }
}

} // verus!

verus! {

fn eval_expr(
    p: &Program,
    g: &Vec<(String, Value)>,
    sc: &mut Vec<Vec<(String, Value)>>,
    e: &Expr,
    Ghost(fuel): Ghost<nat>,
) -> (r: Result<Value, RuntimeError>)
    requires
        ev_expr(fuel, stmts_v(p@), fv(g@), scv(old(sc)@), expr_v(*e)) is Some,
    ensures
        ev_expr(fuel, stmts_v(p@), fv(g@), scv(old(sc)@), expr_v(*e)) == Some(res_v(r)),
        scv(final(sc)@) == scv(old(sc)@),
    decreases fuel,
{
    let ghost f = (fuel - 1) as nat;
    match &e.kind {
        ExprKind::Int(n) => Ok(Value::Int(*n)),
        ExprKind::Bool(b) => Ok(Value::Bool(*b)),
        ExprKind::Error => Err(mk_err(e.span, "cannot evaluate a syntax error")),
        ExprKind::Name(n) => match lookup_var(g, sc, n) {
            Some(v) => Ok(v),
            None => Err(
                RuntimeError { span: e.span, message: quoted(n, "` is not a value in scope") },
            ),
        },
        ExprKind::Paren(inner) => eval_expr(p, g, sc, inner, Ghost(f)),
        ExprKind::Unary { op, expr: inner } => {
            let v = eval_expr(p, g, sc, inner, Ghost(f));
            match v {
                Err(x) => Err(x),
                Ok(v) => match (op, v) {
                    (UnOp::Neg, Value::Int(n)) => if n == i64::MIN {
                        Err(mk_err(e.span, "arithmetic error"))
                    } else {
                        Ok(Value::Int(-n))
                    },
                    (UnOp::Not, Value::Bool(b)) => Ok(Value::Bool(!b)),
                    _ => Err(mk_err(e.span, "type error in unary operation")),
                },
            }
        },
        ExprKind::Binary { op, lhs, rhs } => {
            let l = eval_expr(p, g, sc, lhs, Ghost(f));
            match l {
                Err(x) => Err(x),
                Ok(l) => {
                    let r = eval_expr(p, g, sc, rhs, Ghost(f));
                    match r {
                        Err(x) => Err(x),
                        Ok(r) => eval_binary(*op, l, r, e.span),
                    }
                },
            }
        },
        ExprKind::Block(b) => eval_block(p, g, sc, b, Ghost(f)),
        ExprKind::If { cond, then_block, else_block } => {
            let c = eval_expr(p, g, sc, cond, Ghost(f));
            match c {
                Err(x) => Err(x),
                Ok(Value::Bool(true)) => eval_block(p, g, sc, then_block, Ghost(f)),
                Ok(Value::Bool(false)) => match else_block {
                    Some(b) => eval_block(p, g, sc, b, Ghost(f)),
                    None => Ok(Value::Unit),
                },
                Ok(_) => Err(mk_err(cond.span, "if condition must be a boolean")),
            }
        },
        ExprKind::Call { callee, args } => match &callee.kind {
            ExprKind::Name(name) => {
            assert(expr_v(**callee).kind == ExprKindV::Name { name: name@ });
            match find_fn(p, name) {
                None => Err(
                    RuntimeError { span: callee.span, message: quoted(name, "` is not a function") },
                ),
                Some(fd) => {
                    if fd.params.len() != args.len() {
                        let mut m = quoted(name, "` expects ");
                        let a = fmt_usize(fd.params.len());
                        m.append(a.as_str());
                        m.append(" arguments, got ");
                        let b = fmt_usize(args.len());
                        m.append(b.as_str());
                        proof {
                            assert(idents_v(fd.params@).len() == fd.params@.len());
                            lemma_exprs_v(args@);
                        }
                        Err(RuntimeError { span: e.span, message: m })
                    } else {
                        proof {
                            lemma_exprs_v(args@);
                        }
                        let frame = eval_args(p, g, sc, &fd.params, args, Ghost(f));
                        match frame {
                            Err(x) => Err(x),
                            Ok(frame) => {
                                let mut cs: Vec<Vec<(String, Value)>> = Vec::new();
                                cs.push(frame);
                                assert(scv(cs@) =~= seq![fv(frame@)]);
                                eval_block(p, g, &mut cs, &fd.body, Ghost(f))
                            },
                        }
                    }
                },
            }},
            _ => Err(mk_err(callee.span, "call target must be a function name")),
        },
    }
}

fn eval_args(
    p: &Program,
    g: &Vec<(String, Value)>,
    sc: &mut Vec<Vec<(String, Value)>>,
    params: &Vec<crate::ast::Ident>,
    args: &Vec<Expr>,
    Ghost(fuel): Ghost<nat>,
) -> (r: Result<Vec<(String, Value)>, RuntimeError>)
    requires
        params@.len() == args@.len(),
        ev_args(fuel, stmts_v(p@), fv(g@), scv(old(sc)@), idents_v(params@), exprs_v(args@), seq![])
            is Some,
    ensures
        ev_args(fuel, stmts_v(p@), fv(g@), scv(old(sc)@), idents_v(params@), exprs_v(args@), seq![])
            == Some(frame_res_v(r)),
        scv(final(sc)@) == scv(old(sc)@),
    decreases fuel,
{
    let ghost pv = stmts_v(p@);
    let ghost gv = fv(g@);
    let ghost s0 = scv(sc@);
    let ghost ps = idents_v(params@);
    let ghost es = exprs_v(args@);
    let ghost target = ev_args(fuel, pv, gv, s0, ps, es, seq![]);
    proof {
        lemma_exprs_v(args@);
    }
    let n = args.len();
    let mut acc: Vec<(String, Value)> = Vec::new();
    let mut i: usize = 0;
    let ghost mut fu: nat = fuel;
    assert(ps.subrange(0, n as int) =~= ps);
    assert(es.subrange(0, n as int) =~= es);
    assert(fv(acc@) =~= seq![]);
    while i < n
        invariant
            i <= n == args@.len() == params@.len(),
            fu <= fuel,
            pv == stmts_v(p@),
            gv == fv(g@),
            ps == idents_v(params@),
            es == exprs_v(args@),
            es.len() == n,
            forall|j: int| 0 <= j < n ==> #[trigger] es[j] == expr_v(args@[j]),
            scv(sc@) == s0,
            s0 == scv(old(sc)@),
            target == ev_args(fuel, pv, gv, s0, ps, es, seq![]),
            target is Some,
            ev_args(fu, pv, gv, s0, ps.subrange(i as int, n as int), es.subrange(i as int, n as int), fv(acc@))
                == target,
        decreases n - i,
    {
        let ghost f = (fu - 1) as nat;
        let ghost ps_i = ps.subrange(i as int, n as int);
        let ghost es_i = es.subrange(i as int, n as int);
        assert(es_i[0] == expr_v(args@[i as int]));
        assert(ps_i[0] == ident_v(params@[i as int]));
        assert(ps_i.drop_first() =~= ps.subrange(i + 1, n as int));
        assert(es_i.drop_first() =~= es.subrange(i + 1, n as int));
        let v = eval_expr(p, g, sc, &args[i], Ghost(f));
        match v {
            Err(x) => {
                return Err(x);
            },
            Ok(v) => {
                let ghost before = acc@;
                acc.push((params[i].name.clone(), v));
                assert(fv(acc@) =~= fv(before).push((ps_i[0].name, v)));
                proof {
                    fu = f;
                }
            },
        }
        i = i + 1;
    }
    assert(ps.subrange(n as int, n as int).len() == 0);
    Ok(acc)
}

fn eval_block(
    p: &Program,
    g: &Vec<(String, Value)>,
    sc: &mut Vec<Vec<(String, Value)>>,
    b: &Block,
    Ghost(fuel): Ghost<nat>,
) -> (r: Result<Value, RuntimeError>)
    requires
        ev_block(fuel, stmts_v(p@), fv(g@), scv(old(sc)@), block_v(*b)) is Some,
    ensures
        ev_block(fuel, stmts_v(p@), fv(g@), scv(old(sc)@), block_v(*b)) == Some(res_v(r)),
        scv(final(sc)@) == scv(old(sc)@),
    decreases fuel,
{
    let ghost f = (fuel - 1) as nat;
    let ghost s0 = scv(sc@);
    let top = eval_stmts(p, g, sc, &b.stmts, Ghost(f));
    match top {
        Err(x) => Err(x),
        Ok(top) => match &b.tail {
            None => Ok(Value::Unit),
            Some(t) => {
                let ghost tv = fv(top@);
                sc.push(top);
                assert(scv(sc@) =~= s0.push(tv));
                let r = eval_expr(p, g, sc, t, Ghost(f));
                let ghost s1 = sc@;
                let _ = sc.pop();
                assert(scv(sc@) =~= scv(s1).drop_last());
                r
            },
        },
    }
}

fn eval_stmts(
    p: &Program,
    g: &Vec<(String, Value)>,
    sc: &mut Vec<Vec<(String, Value)>>,
    ss: &Vec<Stmt>,
    Ghost(fuel): Ghost<nat>,
) -> (r: Result<Vec<(String, Value)>, RuntimeError>)
    requires
        ev_stmts(fuel, stmts_v(p@), fv(g@), scv(old(sc)@), seq![], stmts_v(ss@)) is Some,
    ensures
        ev_stmts(fuel, stmts_v(p@), fv(g@), scv(old(sc)@), seq![], stmts_v(ss@)) == Some(
            frame_res_v(r),
        ),
        scv(final(sc)@) == scv(old(sc)@),
    decreases fuel,
{
    let ghost pv = stmts_v(p@);
    let ghost gv = fv(g@);
    let ghost s0 = scv(sc@);
    let ghost sv = stmts_v(ss@);
    let ghost target = ev_stmts(fuel, pv, gv, s0, seq![], sv);
    proof {
        lemma_stmts_v(ss@);
    }
    let n = ss.len();
    let mut top: Vec<(String, Value)> = Vec::new();
    let mut i: usize = 0;
    let ghost mut fu: nat = fuel;
    assert(sv.subrange(0, n as int) =~= sv);
    assert(fv(top@) =~= seq![]);
    while i < n
        invariant
            i <= n == ss@.len(),
            fu <= fuel,
            pv == stmts_v(p@),
            gv == fv(g@),
            sv == stmts_v(ss@),
            sv.len() == n,
            forall|j: int| 0 <= j < n ==> #[trigger] sv[j] == stmt_v(ss@[j]),
            scv(sc@) == s0,
            s0 == scv(old(sc)@),
            target == ev_stmts(fuel, pv, gv, s0, seq![], sv),
            target is Some,
            ev_stmts(fu, pv, gv, s0, fv(top@), sv.subrange(i as int, n as int)) == target,
        decreases n - i,
    {
        let ghost f = (fu - 1) as nat;
        let ghost rest = sv.subrange(i as int, n as int);
        assert(rest[0] == stmt_v(ss@[i as int]));
        assert(rest.drop_first() =~= sv.subrange(i + 1, n as int));
        match &ss[i].kind {
            StmtKind::Fn(_) => {},
            StmtKind::Let(l) => {
                let ghost tv = fv(top@);
                sc.push(top);
                assert(scv(sc@) =~= s0.push(tv));
                let r = eval_expr(p, g, sc, &l.value, Ghost(f));
                let ghost s1 = sc@;
                let popped = sc.pop();
                assert(scv(sc@) =~= scv(s1).drop_last());
                match popped {
                    Some(t) => {
                        top = t;
                    },
                    None => {
                        top = Vec::new();
                    },
                }
                assert(fv(top@) == tv) by {
                    assert(scv(s1).last() == fv(s1.last()@));
                }
                match r {
                    Err(x) => {
                        return Err(x);
                    },
                    Ok(v) => {
                        let ghost before = top@;
                        top.push((l.name.name.clone(), v));
                        assert(fv(top@) =~= fv(before).push((l.name.name@, v)));
                    },
                }
            },
            StmtKind::Expr(x) => {
                let ghost tv = fv(top@);
                sc.push(top);
                assert(scv(sc@) =~= s0.push(tv));
                let r = eval_expr(p, g, sc, x, Ghost(f));
                let ghost s1 = sc@;
                let popped = sc.pop();
                assert(scv(sc@) =~= scv(s1).drop_last());
                match popped {
                    Some(t) => {
                        top = t;
                    },
                    None => {
                        top = Vec::new();
                    },
                }
                assert(fv(top@) == tv) by {
                    assert(scv(s1).last() == fv(s1.last()@));
                }
                match r {
                    Err(x) => {
                        return Err(x);
                    },
                    Ok(_) => {},
                }
            },
        }
        proof {
            fu = f;
        }
        i = i + 1;
    }
    Ok(top)
}

} // verus!

verus! {

/// Run a whole program: the text of the value of each top level expression
/// statement whose value is not unit, in order, or the first runtime error.
pub fn run(program: &Program) -> (r: Result<RunOutput, RuntimeError>)
    requires
        run_finishes(stmts_v(program@)),
    ensures
        match r {
            Ok(out) => spec_run(stmts_v(program@)) == Ok::<Seq<Seq<char>>, ErrV>(lines_v(out.lines@)),
            Err(x) => spec_run(stmts_v(program@)) == Err::<Seq<Seq<char>>, ErrV>(x@),
        },
{
    let ghost pv = stmts_v(program@);
    let ghost fuel = choose|fuel: nat| (#[trigger] run_fuel(fuel, pv)) is Some;
    let ghost target = run_fuel(fuel, pv);
    proof {
        lemma_stmts_v(program@);
    }
    let n = program.len();
    let mut g: Vec<(String, Value)> = Vec::new();
    let mut lines: Vec<String> = Vec::new();
    let mut sc: Vec<Vec<(String, Value)>> = Vec::new();
    let mut i: usize = 0;
    assert(pv.subrange(0, n as int) =~= pv);
    assert(fv(g@) =~= seq![]);
    assert(lines_v(lines@) =~= seq![]);
    assert(with_prefix(seq![], run_stmts(fuel, pv, seq![], pv)) == target);
    while i < n
        invariant
            i <= n == program@.len(),
            pv == stmts_v(program@),
            pv.len() == n,
            forall|j: int| 0 <= j < n ==> #[trigger] pv[j] == stmt_v(program@[j]),
            sc@.len() == 0,
            target is Some,
            spec_run(pv) == target.unwrap(),
            with_prefix(lines_v(lines@), run_stmts(fuel, pv, fv(g@), pv.subrange(i as int, n as int)))
                == target,
        decreases n - i,
    {
        let ghost rest = pv.subrange(i as int, n as int);
        let ghost gv = fv(g@);
        let ghost lv = lines_v(lines@);
        assert(rest[0] == stmt_v(program@[i as int]));
        assert(rest.drop_first() =~= pv.subrange(i + 1, n as int));
        assert(scv(sc@) =~= seq![]);
        match &program[i].kind {
            StmtKind::Fn(_) => {},
            StmtKind::Let(l) => {
                let v = eval_expr(program, &g, &mut sc, &l.value, Ghost(fuel));
                match v {
                    Err(x) => {
                        return Err(x);
                    },
                    Ok(v) => {
                        g.push((l.name.name.clone(), v));
                        assert(fv(g@) =~= gv.push((l.name.name@, v)));
                    },
                }
            },
            StmtKind::Expr(x) => {
                let v = eval_expr(program, &g, &mut sc, x, Ghost(fuel));
                match v {
                    Err(x) => {
                        return Err(x);
                    },
                    Ok(v) => {
                        if v != Value::Unit {
                            let t = v.to_string();
                            lines.push(t);
                            assert(lines_v(lines@) =~= lv.push(value_text(v)));
                            let ghost later = run_stmts(fuel, pv, gv, pv.subrange(i + 1, n as int));
                            assert(with_prefix(lines_v(lines@), later) == with_prefix(
                                lv,
                                with_prefix(seq![value_text(v)], later),
                            )) by {
                                match later {
                                    Some(Ok(ls)) => {
                                        assert(lines_v(lines@) + ls =~= lv + (seq![value_text(v)] + ls));
                                    },
                                    _ => {},
                                }
                            }
                        }
                    },
                }
            },
        }
        i = i + 1;
    }
    assert(with_prefix(lines_v(lines@), Some(Ok(seq![]))) == Some(
        Ok::<Seq<Seq<char>>, ErrV>(lines_v(lines@)),
    )) by {
        assert(lines_v(lines@) + seq![] =~= lines_v(lines@));
    }
    Ok(RunOutput { lines })
}

} // verus!

verus! {

/// More budget never changes a finished evaluation.
pub proof fn lemma_ev_expr_more_fuel(
    f1: nat,
    f2: nat,
    p: Seq<StmtV>,
    g: Seq<(Seq<char>, Value)>,
    sc: Seq<Seq<(Seq<char>, Value)>>,
    e: ExprV,
)
    requires
        f1 <= f2,
        ev_expr(f1, p, g, sc, e) is Some,
    ensures
        ev_expr(f2, p, g, sc, e) == ev_expr(f1, p, g, sc, e),
    decreases f1,
{
    let a = (f1 - 1) as nat;
    let b = (f2 - 1) as nat;
    match e.kind {
        ExprKindV::Paren { inner } => {
            lemma_ev_expr_more_fuel(a, b, p, g, sc, *inner);
        },
        ExprKindV::Unary { op, expr } => {
            lemma_ev_expr_more_fuel(a, b, p, g, sc, *expr);
        },
        ExprKindV::Binary { op, lhs, rhs } => {
            lemma_ev_expr_more_fuel(a, b, p, g, sc, *lhs);
            if ev_expr(a, p, g, sc, *lhs) matches Some(Ok(_)) {
                lemma_ev_expr_more_fuel(a, b, p, g, sc, *rhs);
            }
        },
        ExprKindV::Block { block } => {
            lemma_ev_block_more_fuel(a, b, p, g, sc, block);
        },
        ExprKindV::If { cond, then_block, else_block } => {
            lemma_ev_expr_more_fuel(a, b, p, g, sc, *cond);
            match ev_expr(a, p, g, sc, *cond) {
                Some(Ok(Value::Bool(true))) => {
                    lemma_ev_block_more_fuel(a, b, p, g, sc, then_block);
                },
                Some(Ok(Value::Bool(false))) => {
                    if let Some(eb) = else_block {
                        lemma_ev_block_more_fuel(a, b, p, g, sc, eb);
                    }
                },
                _ => {},
            }
        },
        ExprKindV::Call { callee, args } => {
            if let ExprKindV::Name { name } = callee.kind {
                if let Some((params, body)) = fn_lookup(p, name) {
                    if params.len() == args.len() {
                        lemma_ev_args_more_fuel(a, b, p, g, sc, params, args, seq![]);
                        if let Some(Ok(frame)) = ev_args(a, p, g, sc, params, args, seq![]) {
                            lemma_ev_block_more_fuel(a, b, p, g, seq![frame], body);
                        }
                    }
                }
            }
        },
        _ => {},
    }
}

pub proof fn lemma_ev_args_more_fuel(
    f1: nat,
    f2: nat,
    p: Seq<StmtV>,
    g: Seq<(Seq<char>, Value)>,
    sc: Seq<Seq<(Seq<char>, Value)>>,
    params: Seq<IdentV>,
    args: Seq<ExprV>,
    acc: Seq<(Seq<char>, Value)>,
)
    requires
        f1 <= f2,
        ev_args(f1, p, g, sc, params, args, acc) is Some,
    ensures
        ev_args(f2, p, g, sc, params, args, acc) == ev_args(f1, p, g, sc, params, args, acc),
    decreases f1,
{
    if !(args.len() == 0 || params.len() == 0) {
        let a = (f1 - 1) as nat;
        let b = (f2 - 1) as nat;
        lemma_ev_expr_more_fuel(a, b, p, g, sc, args[0]);
        if let Some(Ok(v)) = ev_expr(a, p, g, sc, args[0]) {
            lemma_ev_args_more_fuel(
                a,
                b,
                p,
                g,
                sc,
                params.drop_first(),
                args.drop_first(),
                acc.push((params[0].name, v)),
            );
        }
    }
}

pub proof fn lemma_ev_block_more_fuel(
    f1: nat,
    f2: nat,
    p: Seq<StmtV>,
    g: Seq<(Seq<char>, Value)>,
    sc: Seq<Seq<(Seq<char>, Value)>>,
    bl: BlockV,
)
    requires
        f1 <= f2,
        ev_block(f1, p, g, sc, bl) is Some,
    ensures
        ev_block(f2, p, g, sc, bl) == ev_block(f1, p, g, sc, bl),
    decreases f1,
{
    let a = (f1 - 1) as nat;
    let b = (f2 - 1) as nat;
    lemma_ev_stmts_more_fuel(a, b, p, g, sc, seq![], bl.stmts);
    if let Some(Ok(top)) = ev_stmts(a, p, g, sc, seq![], bl.stmts) {
        if let Some(t) = bl.tail {
            lemma_ev_expr_more_fuel(a, b, p, g, sc.push(top), *t);
        }
    }
}

pub proof fn lemma_ev_stmts_more_fuel(
    f1: nat,
    f2: nat,
    p: Seq<StmtV>,
    g: Seq<(Seq<char>, Value)>,
    sc: Seq<Seq<(Seq<char>, Value)>>,
    top: Seq<(Seq<char>, Value)>,
    ss: Seq<StmtV>,
)
    requires
        f1 <= f2,
        ev_stmts(f1, p, g, sc, top, ss) is Some,
    ensures
        ev_stmts(f2, p, g, sc, top, ss) == ev_stmts(f1, p, g, sc, top, ss),
    decreases f1,
{
    if ss.len() > 0 {
        let a = (f1 - 1) as nat;
        let b = (f2 - 1) as nat;
        match ss[0].kind {
            StmtKindV::Fn { .. } => {
                lemma_ev_stmts_more_fuel(a, b, p, g, sc, top, ss.drop_first());
            },
            StmtKindV::Let { name, value } => {
                lemma_ev_expr_more_fuel(a, b, p, g, sc.push(top), value);
                if let Some(Ok(v)) = ev_expr(a, p, g, sc.push(top), value) {
                    lemma_ev_stmts_more_fuel(a, b, p, g, sc, top.push((name.name, v)), ss.drop_first());
                }
            },
            StmtKindV::Expr { expr } => {
                lemma_ev_expr_more_fuel(a, b, p, g, sc.push(top), expr);
                if let Some(Ok(_)) = ev_expr(a, p, g, sc.push(top), expr) {
                    lemma_ev_stmts_more_fuel(a, b, p, g, sc, top, ss.drop_first());
                }
            },
        }
    }
}

proof fn lemma_run_stmts_more_fuel(
    f1: nat,
    f2: nat,
    p: Seq<StmtV>,
    g: Seq<(Seq<char>, Value)>,
    ss: Seq<StmtV>,
)
    requires
        f1 <= f2,
        run_stmts(f1, p, g, ss) is Some,
    ensures
        run_stmts(f2, p, g, ss) == run_stmts(f1, p, g, ss),
    decreases ss.len(),
{
    if ss.len() > 0 {
        match ss[0].kind {
            StmtKindV::Fn { .. } => {
                lemma_run_stmts_more_fuel(f1, f2, p, g, ss.drop_first());
            },
            StmtKindV::Let { name, value } => {
                lemma_ev_expr_more_fuel(f1, f2, p, g, seq![], value);
                if let Some(Ok(v)) = ev_expr(f1, p, g, seq![], value) {
                    lemma_run_stmts_more_fuel(f1, f2, p, g.push((name.name, v)), ss.drop_first());
                }
            },
            StmtKindV::Expr { expr } => {
                lemma_ev_expr_more_fuel(f1, f2, p, g, seq![], expr);
                if let Some(Ok(_)) = ev_expr(f1, p, g, seq![], expr) {
                    lemma_run_stmts_more_fuel(f1, f2, p, g, ss.drop_first());
                }
            },
        }
    }
}

/// A run's outcome does not depend on the budget: every budget under which the
/// run finishes gives the outcome `spec_run` names.
pub proof fn law_run_outcome_independent_of_budget(p: Seq<StmtV>, fuel: nat)
    requires
        run_fuel(fuel, p) is Some,
    ensures
        run_finishes(p),
        spec_run(p) == run_fuel(fuel, p).unwrap(),
{
    assert(run_finishes(p));
    let c = choose|f: nat| (#[trigger] run_fuel(f, p)) is Some;
    if c <= fuel {
        lemma_run_stmts_more_fuel(c, fuel, p, seq![], p);
    } else {
        lemma_run_stmts_more_fuel(fuel, c, p, seq![], p);
    }
}


/// The operators on two integers mean integer arithmetic: each comparison gives
/// the boolean of the integer comparison, a sum, difference or product gives the
/// integer result when it fits in `i64` and an arithmetic error when it does not,
/// division by zero is an arithmetic error, and a non-negative integer divided
/// by a positive one gives the integer quotient.
pub proof fn law_integer_operators(a: i64, b: i64, span: Span)
    ensures
        binary_v(BinOp::Lt, Value::Int(a), Value::Int(b), span) == Ok::<Value, ErrV>(
            Value::Bool(a < b),
        ),
        binary_v(BinOp::Le, Value::Int(a), Value::Int(b), span) == Ok::<Value, ErrV>(
            Value::Bool(a <= b),
        ),
        binary_v(BinOp::Gt, Value::Int(a), Value::Int(b), span) == Ok::<Value, ErrV>(
            Value::Bool(a > b),
        ),
        binary_v(BinOp::Ge, Value::Int(a), Value::Int(b), span) == Ok::<Value, ErrV>(
            Value::Bool(a >= b),
        ),
        binary_v(BinOp::Eq, Value::Int(a), Value::Int(b), span) == Ok::<Value, ErrV>(
            Value::Bool(a == b),
        ),
        binary_v(BinOp::Ne, Value::Int(a), Value::Int(b), span) == Ok::<Value, ErrV>(
            Value::Bool(a != b),
        ),
        i64::MIN <= a + b <= i64::MAX ==> binary_v(BinOp::Add, Value::Int(a), Value::Int(b), span)
            == Ok::<Value, ErrV>(Value::Int((a + b) as i64)),
        !(i64::MIN <= a + b <= i64::MAX) ==> binary_v(
            BinOp::Add,
            Value::Int(a),
            Value::Int(b),
            span,
        ) == Err::<Value, ErrV>(err_v(span, "arithmetic error"@)),
        i64::MIN <= a - b <= i64::MAX ==> binary_v(BinOp::Sub, Value::Int(a), Value::Int(b), span)
            == Ok::<Value, ErrV>(Value::Int((a - b) as i64)),
        !(i64::MIN <= a - b <= i64::MAX) ==> binary_v(
            BinOp::Sub,
            Value::Int(a),
            Value::Int(b),
            span,
        ) == Err::<Value, ErrV>(err_v(span, "arithmetic error"@)),
        i64::MIN <= a * b <= i64::MAX ==> binary_v(BinOp::Mul, Value::Int(a), Value::Int(b), span)
            == Ok::<Value, ErrV>(Value::Int((a * b) as i64)),
        !(i64::MIN <= a * b <= i64::MAX) ==> binary_v(
            BinOp::Mul,
            Value::Int(a),
            Value::Int(b),
            span,
        ) == Err::<Value, ErrV>(err_v(span, "arithmetic error"@)),
        b == 0 ==> binary_v(BinOp::Div, Value::Int(a), Value::Int(b), span) == Err::<Value, ErrV>(
            err_v(span, "arithmetic error"@),
        ),
        0 <= a && 0 < b ==> binary_v(BinOp::Div, Value::Int(a), Value::Int(b), span) == Ok::<
            Value,
            ErrV,
        >(Value::Int((a / b) as i64)),
{
    if 0 <= a && 0 < b {
        assert(0 <= a / b <= a) by (nonlinear_arith)
            requires
                0 <= a,
                0 < b,
        ;
    }
}

/// Division truncates toward zero: on a nonzero divisor the quotient is the
/// quotient of the magnitudes, negated when exactly one operand is negative;
/// the one quotient that does not fit in `i64`, the least `i64` over `-1`, is
/// an arithmetic error.
pub proof fn law_division_truncates(a: i64, b: i64, span: Span)
    requires
        b != 0,
    ensures
        ({
            let ma: int = if a < 0 { -a } else { a as int };
            let mb: int = if b < 0 { -b } else { b as int };
            let q: int = if (a < 0) != (b < 0) { -(ma / mb) } else { ma / mb };
            &&& (a == i64::MIN && b == -1) ==> binary_v(BinOp::Div, Value::Int(a), Value::Int(b), span)
                == Err::<Value, ErrV>(err_v(span, "arithmetic error"@))
            &&& !(a == i64::MIN && b == -1) ==> binary_v(BinOp::Div, Value::Int(a), Value::Int(b), span)
                == Ok::<Value, ErrV>(Value::Int(q as i64))
        }),
{
    let ma: int = if a < 0 { -a } else { a as int };
    let mb: int = if b < 0 { -b } else { b as int };
    let q: int = if (a < 0) != (b < 0) { -(ma / mb) } else { ma / mb };
    let x = a as int;
    let d = b as int;
    assert(0 <= ma / mb <= ma) by (nonlinear_arith)
        requires
            0 <= ma,
            1 <= mb,
    ;
    if mb > 1 {
        assert(ma / mb <= ma / 2) by (nonlinear_arith)
            requires
                0 <= ma,
                2 <= mb,
        ;
    }
    let out = if x == 0 {
        0
    } else if x > 0 && d > 0 {
        x / d
    } else if x < 0 && d < 0 {
        (x * -1) / (d * -1)
    } else if x < 0 {
        ((x * -1) / d) * -1
    } else {
        (x / (d * -1)) * -1
    };
    assert(out == q);
    if !(a == i64::MIN && b == -1) {
        assert(i64::MIN <= q <= i64::MAX);
    } else {
        assert(ma / mb == ma) by (nonlinear_arith)
            requires
                mb == 1,
        ;
        assert(q == 0x8000_0000_0000_0000);
    }
}

/// Equality compares any two values (an integer never equals a boolean), and
/// the other operators on anything but two integers are type errors.
pub proof fn law_operands_of_other_types(x: bool, y: bool, n: i64, op: BinOp, span: Span)
    ensures
        binary_v(BinOp::Eq, Value::Bool(x), Value::Bool(y), span) == Ok::<Value, ErrV>(
            Value::Bool(x == y),
        ),
        binary_v(BinOp::Ne, Value::Bool(x), Value::Bool(y), span) == Ok::<Value, ErrV>(
            Value::Bool(x != y),
        ),
        binary_v(BinOp::Eq, Value::Int(n), Value::Bool(y), span) == Ok::<Value, ErrV>(
            Value::Bool(false),
        ),
        binary_v(BinOp::Ne, Value::Int(n), Value::Bool(y), span) == Ok::<Value, ErrV>(
            Value::Bool(true),
        ),
        op == BinOp::Add || op == BinOp::Sub || op == BinOp::Mul || op == BinOp::Div ==> binary_v(
            op,
            Value::Bool(x),
            Value::Int(n),
            span,
        ) == Err::<Value, ErrV>(err_v(span, "arithmetic requires integers"@)),
        op == BinOp::Lt || op == BinOp::Le || op == BinOp::Gt || op == BinOp::Ge ==> binary_v(
            op,
            Value::Int(n),
            Value::Bool(y),
            span,
        ) == Err::<Value, ErrV>(err_v(span, "comparison requires integers"@)),
{
}

/// The unary operators: `-` negates an integer, the least `i64` (which has no
/// `i64` negation) giving an arithmetic error, and `!` negates a boolean; any
/// other operand is a type error.
pub proof fn law_unary_operators(n: i64, b: bool, span: Span)
    ensures
        n != i64::MIN ==> unary_v(UnOp::Neg, Value::Int(n), span) == Some(
            Ok::<Value, ErrV>(Value::Int((0 - n) as i64)),
        ),
        unary_v(UnOp::Neg, Value::Int(i64::MIN), span) == Some(
            Err::<Value, ErrV>(err_v(span, "arithmetic error"@)),
        ),
        unary_v(UnOp::Not, Value::Bool(b), span) == Some(Ok::<Value, ErrV>(Value::Bool(!b))),
        unary_v(UnOp::Neg, Value::Bool(b), span) == Some(
            Err::<Value, ErrV>(err_v(span, "type error in unary operation"@)),
        ),
        unary_v(UnOp::Not, Value::Int(n), span) == Some(
            Err::<Value, ErrV>(err_v(span, "type error in unary operation"@)),
        ),
{
}

/// A program made of one expression statement that compares two integer
/// literals finishes and prints one line: `true` when the integers compare as
/// the operator says, `false` otherwise.
pub proof fn law_run_comparison(
    op: BinOp,
    a: i64,
    b: i64,
    lhs_span: Span,
    rhs_span: Span,
    expr_span: Span,
    stmt_span: Span,
)
    requires
        op == BinOp::Lt || op == BinOp::Le || op == BinOp::Gt || op == BinOp::Ge || op == BinOp::Eq
            || op == BinOp::Ne,
    ensures
        ({
            let e = ExprV {
                kind: ExprKindV::Binary {
                    op,
                    lhs: Box::new(ExprV { kind: ExprKindV::Int { value: a }, span: lhs_span }),
                    rhs: Box::new(ExprV { kind: ExprKindV::Int { value: b }, span: rhs_span }),
                },
                span: expr_span,
            };
            let p = seq![StmtV { kind: StmtKindV::Expr { expr: e }, span: stmt_span }];
            let holds = (op == BinOp::Lt && a < b) || (op == BinOp::Le && a <= b) || (op
                == BinOp::Gt && a > b) || (op == BinOp::Ge && a >= b) || (op == BinOp::Eq && a
                == b) || (op == BinOp::Ne && a != b);
            &&& run_finishes(p)
            &&& spec_run(p) == Ok::<Seq<Seq<char>>, ErrV>(
                seq![if holds { "true"@ } else { "false"@ }],
            )
        }),
{
    let e = ExprV {
        kind: ExprKindV::Binary {
            op,
            lhs: Box::new(ExprV { kind: ExprKindV::Int { value: a }, span: lhs_span }),
            rhs: Box::new(ExprV { kind: ExprKindV::Int { value: b }, span: rhs_span }),
        },
        span: expr_span,
    };
    let p = seq![StmtV { kind: StmtKindV::Expr { expr: e }, span: stmt_span }];
    law_integer_operators(a, b, expr_span);
    let lv = ev_expr(1, p, seq![], seq![], ExprV { kind: ExprKindV::Int { value: a }, span: lhs_span });
    let rv = ev_expr(1, p, seq![], seq![], ExprV { kind: ExprKindV::Int { value: b }, span: rhs_span });
    assert(lv == Some(Ok::<Value, ErrV>(Value::Int(a))));
    assert(rv == Some(Ok::<Value, ErrV>(Value::Int(b))));
    let v = ev_expr(2, p, seq![], seq![], e);
    assert(v == Some(binary_v(op, Value::Int(a), Value::Int(b), expr_span)));
    assert(p[0].kind == (StmtKindV::Expr { expr: e }));
    assert(p.drop_first() =~= Seq::<StmtV>::empty());
    assert(run_stmts(2, p, seq![], p.drop_first()) == Some(Ok::<Seq<Seq<char>>, ErrV>(seq![])));
    assert(run_fuel(2, p) is Some);
    law_run_outcome_independent_of_budget(p, 2);
}

} // verus!
