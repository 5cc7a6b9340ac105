//! Random program and edit generators for the correctness checks.
//!
//! `random_program` emits structurally valid programs. It deliberately
//! exercises the cases that make name resolution and incremental analysis hard:
//! shadowing across nested scopes, references to outer bindings, redefinitions
//! in one scope, hoisted forward references to functions, deeply nested blocks
//! and functions, and unicode identifiers. `random_edit` produces arbitrary text
//! splices, valid or not, including edits that split or join tokens and comments
//! at their seams.
//!
//! Each emitted construct spends one unit of a budget; the nesting depth is
//! bounded, so the work of one construct is bounded too (`expr_cost`,
//! `item_cost`).

use vstd::prelude::*;
use vstd::string::{StringExecFns, StringSliceAdditionalSpecFns};
use vstd::utf8::is_char_boundary;
use crate::numbers::fmt_usize;
use crate::rng::{Rng, step_state, mix};

verus! {

/// The most budget units an expression emitted at `depth` spends.
pub open spec fn expr_cost(depth: int) -> nat
    decreases 4 - depth,
{
    if depth >= 4 || depth < 0 {
        1
    } else {
        1 + 3 * expr_cost(depth + 1)
    }
}

/// The most budget units an item emitted at `depth` spends.
pub open spec fn item_cost(depth: int) -> nat
    decreases 3 - depth,
{
    if depth >= 3 || depth < 0 {
        1 + expr_cost(depth)
    } else {
        1 + expr_cost(depth) + 2 * item_cost(depth + 1) + expr_cost(depth + 1)
    }
}

/// `b` extends `a`.
pub open spec fn extends<A>(a: Seq<A>, b: Seq<A>) -> bool {
    a.len() <= b.len() && b.subrange(0, a.len() as int) == a
}

broadcast proof fn lemma_extends_trans<A>(a: Seq<A>, b: Seq<A>, c: Seq<A>)
    requires
        #[trigger] extends(a, b),
        #[trigger] extends(b, c),
    ensures
        extends(a, c),
{
    assert(c.subrange(0, a.len() as int) =~= c.subrange(0, b.len() as int).subrange(0, a.len() as int));
}

/// No character of `s` is a newline.
#[verifier::opaque]
pub open spec fn nl_free(s: Seq<char>) -> bool {
    forall|i: int| 0 <= i < s.len() ==> s[i] != '\n'
}

/// `b` extends `a` by text with no newline.
pub open spec fn tail_free(a: Seq<char>, b: Seq<char>) -> bool {
    &&& extends(a, b)
    &&& forall|i: int| a.len() <= i < b.len() ==> b[i] != '\n'
}

/// `b` extends `a` by a non-empty piece of text with no newline.
pub open spec fn grows_on_line(a: Seq<char>, b: Seq<char>) -> bool {
    tail_free(a, b) && a.len() < b.len()
}

/// Every name is non-empty and has no newline.
pub open spec fn names_ok(v: Seq<String>) -> bool {
    forall|i: int| 0 <= i < v.len() ==> (#[trigger] v[i])@.len() > 0 && nl_free(v[i]@)
}

/// The number of newlines in `s`.
pub open spec fn nl_count(s: Seq<char>) -> nat
    decreases s.len(),
{
    if s.len() == 0 {
        0
    } else {
        nl_count(s.drop_last()) + if s.last() == '\n' { 1nat } else { 0nat }
    }
}

/// Every line of `s` is non-empty and ends with a newline.
pub open spec fn whole_lines(s: Seq<char>) -> bool {
    s.len() == 0 || (s.last() == '\n' && s[0] != '\n' && forall|i: int|
        0 < i < s.len() && s[i] == '\n' ==> #[trigger] s[i - 1] != '\n')
}

broadcast proof fn lemma_tail_free_trans(a: Seq<char>, b: Seq<char>, c: Seq<char>)
    requires
        #[trigger] tail_free(a, b),
        #[trigger] tail_free(b, c),
    ensures
        tail_free(a, c),
{
    lemma_extends_trans(a, b, c);
    assert forall|i: int| a.len() <= i < c.len() implies c[i] != '\n' by {
        if i < b.len() {
            assert(c[i] == c.subrange(0, b.len() as int)[i]);
        }
    }
}

proof fn lemma_tail_free_refl(a: Seq<char>)
    ensures
        tail_free(a, a),
{
    assert(a.subrange(0, a.len() as int) =~= a);
}

/// Text added with no newline adds no line.
proof fn lemma_nl_count_tail(a: Seq<char>, b: Seq<char>)
    requires
        tail_free(a, b),
    ensures
        nl_count(b) == nl_count(a),
    decreases b.len(),
{
    if b.len() > a.len() {
        let c = b.drop_last();
        assert(c.subrange(0, a.len() as int) =~= b.subrange(0, a.len() as int));
        assert(tail_free(a, c)) by {
            assert forall|i: int| a.len() <= i < c.len() implies c[i] != '\n' by {
                assert(c[i] == b[i]);
            }
        }
        lemma_nl_count_tail(a, c);
        assert(b[b.len() - 1] != '\n');
    } else {
        assert(b =~= a) by {
            assert(b.subrange(0, a.len() as int) == a);
        }
    }
}

/// A line of new text, ended by a newline, keeps every line whole and adds
/// one line.
proof fn lemma_whole_lines_step(a: Seq<char>, b: Seq<char>)
    requires
        whole_lines(a),
        grows_on_line(a, b),
    ensures
        whole_lines(b + seq!['\n']),
        nl_count(b + seq!['\n']) == nl_count(a) + 1,
{
    let c = b + seq!['\n'];
    assert(c.drop_last() =~= b);
    lemma_nl_count_tail(a, b);
    assert(b.subrange(0, a.len() as int) == a);
    assert(c[0] != '\n') by {
        if a.len() > 0 {
            assert(c[0] == a[0]);
        } else {
            assert(c[0] == b[0]);
        }
    }
    assert forall|i: int| 0 < i < c.len() && c[i] == '\n' implies #[trigger] c[i - 1] != '\n' by {
        if i == c.len() - 1 {
            assert(c[i - 1] == b[b.len() - 1]);
        } else if i < a.len() {
            assert(c[i] == a[i]);
            assert(c[i - 1] == a[i - 1]);
        } else {
            assert(c[i] == b[i]);
        }
    }
}

proof fn lemma_digit_bytes(n: nat)
    ensures
        crate::numbers::digit_bytes(n).len() > 0,
        forall|i: int| 0 <= i < crate::numbers::digit_bytes(n).len() ==> 48 <= #[trigger] crate::numbers::digit_bytes(n)[i] <= 57,
    decreases n,
{
    if n >= 10 {
        lemma_digit_bytes(n / 10);
    }
}

/// A fresh name is a non-empty stem followed by digits.
proof fn lemma_fresh_text(s: u64, n: int)
    requires
        n >= 0,
    ensures
        fresh_text(s, n).len() > 0,
        nl_free(fresh_text(s, n)),
{
    reveal(nl_free);
    reveal_strlit("v");
    reveal_strlit("café");
    reveal_strlit("λ");
    reveal_strlit("число");
    reveal_strlit("名前");
    reveal_strlit("naïve");
    reveal_strlit("Ω");
    let st = stem_text((mix(step_state(s)) % 7) as int);
    assert(st.len() > 0 && nl_free(st));
    lemma_int_text(n);
    let d = crate::numbers::int_text(n);
    assert(nl_free(st + d)) by {
        assert forall|i: int| 0 <= i < (st + d).len() implies (st + d)[i] != '\n' by {
            if i < st.len() {
                assert((st + d)[i] == st[i]);
            } else {
                assert((st + d)[i] == d[i - st.len()]);
            }
        }
    }
}

/// The decimal text of a count is non-empty and has no newline.
proof fn lemma_int_text(n: int)
    requires
        n >= 0,
    ensures
        crate::numbers::int_text(n).len() > 0,
        nl_free(crate::numbers::int_text(n)),
{
    reveal(nl_free);
    lemma_digit_bytes(n as nat);
    let d = crate::numbers::int_text(n);
    assert forall|i: int| 0 <= i < d.len() implies d[i] != '\n' by {
        let b = crate::numbers::digit_bytes(n as nat);
        assert(48 <= b[i] <= 57);
        assert(d[i] == b[i] as char);
    }
}

/// The fixed pieces of text the generator writes are non-empty and stay on
/// one line.
proof fn lemma_pieces()
    ensures
        " "@.len() > 0 && nl_free(" "@),
        "("@.len() > 0 && nl_free("("@),
        ")"@.len() > 0 && nl_free(")"@),
        ", "@.len() > 0 && nl_free(", "@),
        "{ "@.len() > 0 && nl_free("{ "@),
        "let "@.len() > 0 && nl_free("let "@),
        " = "@.len() > 0 && nl_free(" = "@),
        "; "@.len() > 0 && nl_free("; "@),
        " }"@.len() > 0 && nl_free(" }"@),
        "if "@.len() > 0 && nl_free("if "@),
        " { "@.len() > 0 && nl_free(" { "@),
        " } else { "@.len() > 0 && nl_free(" } else { "@),
        "true"@.len() > 0 && nl_free("true"@),
        "false"@.len() > 0 && nl_free("false"@),
        "fn "@.len() > 0 && nl_free("fn "@),
        ") { "@.len() > 0 && nl_free(") { "@),
        " } "@.len() > 0 && nl_free(" } "@),
        forall|i: int| #[trigger] op_text(i).len() > 0 && nl_free(op_text(i)),
        "\n"@ == seq!['\n'],
{
    reveal(nl_free);
    reveal_strlit(" ");
    reveal_strlit("(");
    reveal_strlit(")");
    reveal_strlit(", ");
    reveal_strlit("{ ");
    reveal_strlit("let ");
    reveal_strlit(" = ");
    reveal_strlit("; ");
    reveal_strlit(" }");
    reveal_strlit("if ");
    reveal_strlit(" { ");
    reveal_strlit(" } else { ");
    reveal_strlit("true");
    reveal_strlit("false");
    reveal_strlit("fn ");
    reveal_strlit(") { ");
    reveal_strlit(" } ");
    reveal_strlit("+");
    reveal_strlit("-");
    reveal_strlit("*");
    reveal_strlit("<");
    reveal_strlit("==");
    reveal_strlit(">");
    reveal_strlit("\n");
}

proof fn lemma_expr_cost_pos(depth: int)
    ensures
        expr_cost(depth) >= 1,
        0 <= depth < 4 ==> expr_cost(depth) == 1 + 3 * expr_cost(depth + 1),
{
}

struct Builder {
    out: String,
    counter: u64,
    budget: i32,
}

/// The `i`-th identifier stem; indexes past the list give the last one.
pub open spec fn stem_text(i: int) -> Seq<char> {
    if i == 0 {
        "v"@
    } else if i == 1 {
        "café"@
    } else if i == 2 {
        "λ"@
    } else if i == 3 {
        "число"@
    } else if i == 4 {
        "名前"@
    } else if i == 5 {
        "naïve"@
    } else {
        "Ω"@
    }
}

/// The `i`-th binary operator the generator writes; indexes past the list
/// give the last one.
pub open spec fn op_text(i: int) -> Seq<char> {
    if i == 0 {
        "+"@
    } else if i == 1 {
        "-"@
    } else if i == 2 {
        "*"@
    } else if i == 3 {
        "<"@
    } else if i == 4 {
        "=="@
    } else {
        ">"@
    }
}

/// The fresh name drawn from generator state `s` with counter value `n`: a
/// stem followed by the counter's digits.
pub open spec fn fresh_text(s: u64, n: int) -> Seq<char> {
    stem_text((mix(step_state(s)) % 7) as int) + crate::numbers::int_text(n)
}

/// What the generator has produced so far: the text, the name counter, the
/// budget left and the random generator's state.
pub struct GenState {
    pub out: Seq<char>,
    pub counter: int,
    pub budget: int,
    pub rng: u64,
}

/// A draw in `0..n` from generator state `s`.
pub open spec fn draw(s: u64, n: int) -> int {
    (mix(step_state(s)) % (n as u64)) as int
}

/// The state after one draw.
pub open spec fn gs_drawn(g: GenState) -> GenState {
    GenState { rng: step_state(g.rng), ..g }
}

/// The state after writing `t`.
pub open spec fn gs_put(g: GenState, t: Seq<char>) -> GenState {
    GenState { out: g.out + t, ..g }
}

/// The names of a list of strings.
pub open spec fn names(v: Seq<String>) -> Seq<Seq<char>> {
    v.map_values(|x: String| x@)
}

/// A fresh name: the counter goes up and a stem is drawn.
pub open spec fn gen_fresh(g: GenState) -> (GenState, Seq<char>) {
    let c = g.counter + 1;
    (GenState { counter: c, rng: step_state(g.rng), ..g }, stem_text(draw(g.rng, 7)) + crate::numbers::int_text(c))
}

/// The name of a new binding: one of this scope's names (from `ss` on), one of
/// an enclosing scope's, or a fresh one.
pub open spec fn gen_decl_name(g: GenState, vis: Seq<Seq<char>>, ss: int) -> (GenState, Seq<char>) {
    let roll = draw(g.rng, 100);
    let g1 = gs_drawn(g);
    if roll < 12 && ss < vis.len() {
        (gs_drawn(g1), vis[ss + draw(g1.rng, vis.len() - ss)])
    } else if roll < 26 && ss > 0 {
        (gs_drawn(g1), vis[draw(g1.rng, ss)])
    } else {
        gen_fresh(g1)
    }
}

/// A leaf expression: a visible name, a boolean or a number.
pub open spec fn gen_leaf(g: GenState, vis: Seq<Seq<char>>) -> GenState {
    let r = draw(g.rng, 3);
    let g1 = gs_drawn(g);
    if r == 0 && vis.len() > 0 {
        gs_put(gs_drawn(g1), vis[draw(g1.rng, vis.len() as int)])
    } else if r == 1 {
        gs_put(gs_drawn(g1), if draw(g1.rng, 2) < 1 { "true"@ } else { "false"@ })
    } else {
        gs_put(gs_drawn(g1), crate::numbers::int_text(draw(g1.rng, 100)))
    }
}

/// The expression written at `depth` over the names `vis` and functions `fns`.
pub open spec fn gen_expr(g: GenState, vis: Seq<Seq<char>>, fns: Seq<Seq<char>>, depth: int) -> GenState
    decreases 4 - depth, 1int,
{
    let g0 = GenState { budget: g.budget - 1, ..g };
    if depth >= 4 || g0.budget <= 0 {
        gen_leaf(g0, vis)
    } else if draw(g0.rng, 2) < 1 {
        gen_leaf(gs_drawn(g0), vis)
    } else {
        let g1 = gs_drawn(g0);
        let c = draw(g1.rng, 5);
        let g2 = gs_drawn(g1);
        if c == 0 {
            gen_binary(g2, vis, fns, depth)
        } else if c == 1 && fns.len() > 0 {
            gen_call(g2, vis, fns, depth)
        } else if c == 2 {
            gen_paren(g2, vis, fns, depth)
        } else if c == 3 {
            gen_block(g2, vis, fns, depth)
        } else {
            gen_if(g2, vis, fns, depth)
        }
    }
}

pub open spec fn gen_binary(g: GenState, vis: Seq<Seq<char>>, fns: Seq<Seq<char>>, depth: int) -> GenState
    decreases 4 - depth, 0int,
{
    if depth >= 4 {
        g
    } else {
        let g1 = gen_expr(g, vis, fns, depth + 1);
        let op = op_text(draw(g1.rng, 6));
        let g2 = gs_put(gs_put(gs_put(gs_drawn(g1), " "@), op), " "@);
        gen_expr(g2, vis, fns, depth + 1)
    }
}

pub open spec fn gen_call(g: GenState, vis: Seq<Seq<char>>, fns: Seq<Seq<char>>, depth: int) -> GenState
    decreases 4 - depth, 0int,
{
    if depth >= 4 {
        g
    } else {
        let g1 = gs_put(gs_put(gs_drawn(g), fns[draw(g.rng, fns.len() as int)]), "("@);
        let args = draw(g1.rng, 3);
        let g2 = gs_drawn(g1);
        let g3 = if args >= 1 { gen_expr(g2, vis, fns, depth + 1) } else { g2 };
        let g4 = if args >= 2 { gen_expr(gs_put(g3, ", "@), vis, fns, depth + 1) } else { g3 };
        gs_put(g4, ")"@)
    }
}

pub open spec fn gen_paren(g: GenState, vis: Seq<Seq<char>>, fns: Seq<Seq<char>>, depth: int) -> GenState
    decreases 4 - depth, 0int,
{
    if depth >= 4 {
        g
    } else {
        gs_put(gen_expr(gs_put(g, "("@), vis, fns, depth + 1), ")"@)
    }
}

pub open spec fn gen_block(g: GenState, vis: Seq<Seq<char>>, fns: Seq<Seq<char>>, depth: int) -> GenState
    decreases 4 - depth, 0int,
{
    if depth >= 4 {
        g
    } else {
        let g1 = gs_put(g, "{ "@);
        let stmts = draw(g1.rng, 2);
        let g2 = gs_drawn(g1);
        if stmts > 0 && g2.budget > 0 {
            let (g3, name) = gen_decl_name(g2, vis, vis.len() as int);
            let g4 = gs_put(gs_put(gs_put(g3, "let "@), name), " = "@);
            let g5 = gen_expr(g4, vis, fns, depth + 1);
            let g6 = gen_expr(gs_put(g5, "; "@), vis.push(name), fns, depth + 1);
            gs_put(g6, " }"@)
        } else {
            gs_put(gen_expr(g2, vis, fns, depth + 1), " }"@)
        }
    }
}

pub open spec fn gen_if(g: GenState, vis: Seq<Seq<char>>, fns: Seq<Seq<char>>, depth: int) -> GenState
    decreases 4 - depth, 0int,
{
    if depth >= 4 {
        g
    } else {
        let g1 = gen_expr(gs_put(g, "if "@), vis, fns, depth + 1);
        let g2 = gen_expr(gs_put(g1, " { "@), vis, fns, depth + 1);
        let g3 = gen_expr(gs_put(g2, " } else { "@), vis, fns, depth + 1);
        gs_put(g3, " }"@)
    }
}

/// A parameter: sometimes a name of an enclosing scope (before `is`), else a
/// fresh one.
pub open spec fn gen_param(g: GenState, vis: Seq<Seq<char>>, is: int, first: bool) -> (GenState, Seq<Seq<char>>) {
    let g1 = if first { g } else { gs_put(g, ", "@) };
    let c = draw(g1.rng, 6) < 1;
    let g2 = gs_drawn(g1);
    let (g3, name) = if c && is > 0 { (gs_drawn(g2), vis[draw(g2.rng, is)]) } else { gen_fresh(g2) };
    (gs_put(g3, name), vis.push(name))
}

/// The item written at `depth`: a `let`, a function with its body, or an
/// expression statement; with the names and functions visible after it.
pub open spec fn gen_item(g: GenState, vis: Seq<Seq<char>>, ss: int, fns: Seq<Seq<char>>, depth: int) -> (
    GenState,
    Seq<Seq<char>>,
    Seq<Seq<char>>,
)
    decreases 3 - depth,
{
    let g0 = GenState { budget: g.budget - 1, ..g };
    let choice = draw(g0.rng, 3);
    let g1 = gs_drawn(g0);
    if choice == 0 {
        let (g2, name) = gen_decl_name(g1, vis, ss);
        let g3 = gs_put(gs_put(gs_put(g2, "let "@), name), " = "@);
        let g4 = gen_expr(g3, vis, fns, depth);
        (gs_put(g4, "; "@), vis.push(name), fns)
    } else if choice == 1 && depth < 3 {
        let (g2, name) = gen_fresh(g1);
        let arity = draw(g2.rng, 3);
        let g3 = gs_put(gs_put(gs_put(gs_drawn(g2), "fn "@), name), "("@);
        let is = vis.len() as int;
        let (g4, v4) = if arity >= 1 { gen_param(g3, vis, is, true) } else { (g3, vis) };
        let (g5, v5) = if arity >= 2 { gen_param(g4, v4, is, false) } else { (g4, v4) };
        let g6 = gs_put(g5, ") { "@);
        let fns2 = fns.push(name);
        let stmts = draw(g6.rng, 3);
        let g7 = gs_drawn(g6);
        let (g8, v8, f8) = if stmts >= 1 && g7.budget > 0 {
            gen_item(g7, v5, is, fns2, depth + 1)
        } else {
            (g7, v5, fns2)
        };
        let (g9, v9, f9) = if stmts >= 2 && g8.budget > 0 {
            gen_item(g8, v8, is, f8, depth + 1)
        } else {
            (g8, v8, f8)
        };
        let g10 = gen_expr(g9, v9, f9, depth + 1);
        (gs_put(g10, " } "@), vis, fns2)
    } else {
        (gs_put(gen_expr(g1, vis, fns, depth), "; "@), vis, fns)
    }
}

/// At most `n` more items, each on a line of its own, while budget is left.
pub open spec fn gen_lines(g: GenState, vis: Seq<Seq<char>>, fns: Seq<Seq<char>>, n: nat) -> GenState
    decreases n,
{
    if n == 0 || g.budget <= 0 {
        g
    } else {
        let (g2, v2, f2) = gen_item(g, vis, 0, fns, 0);
        gen_lines(gs_put(g2, "\n"@), v2, f2, (n - 1) as nat)
    }
}

/// The program drawn from generator state `s` with budget `size`: the number
/// of items is drawn first, then the items.
pub open spec fn gen_program(s: u64, size: u32) -> GenState {
    let g0 = GenState { out: Seq::empty(), counter: 0, budget: (size as i32) as int, rng: s };
    let items = 1 + draw(s, size + 1);
    gen_lines(gs_drawn(g0), seq![], seq![], items as nat)
}

/// Identifier stems mixed into the fresh-name pool so the lexer, resolver, and
/// span arithmetic all meet multi byte identifiers.
fn name_stem(i: usize) -> (r: &'static str)
    ensures
        r@ == stem_text(i as int),
{
    match i {
        0 => "v",
        1 => "café",
        2 => "λ",
        3 => "число",
        4 => "名前",
        5 => "naïve",
        _ => "Ω",
    }
}

fn binary_op(i: usize) -> (r: &'static str)
    ensures
        r@ == op_text(i as int),
{
    match i {
        0 => "+",
        1 => "-",
        2 => "*",
        3 => "<",
        4 => "==",
        _ => ">",
    }
}

fn copy_names(v: &Vec<String>) -> (r: Vec<String>)
    ensures
        r@ == v@,
{
    let mut out: Vec<String> = Vec::new();
    let mut i: usize = 0;
    while i < v.len()
        invariant
            i <= v@.len(),
            out@ == v@.subrange(0, i as int),
        decreases v@.len() - i,
    {
        out.push(v[i].clone());
        i = i + 1;
        assert(out@ =~= v@.subrange(0, i as int));
    }
    assert(v@.subrange(0, v@.len() as int) =~= v@);
    out
}

/// The generator's state as the builder and the random generator hold it.
spec fn gst(b: Builder, r: Rng) -> GenState {
    GenState { out: b.out@, counter: b.counter as int, budget: b.budget as int, rng: r.spec_state() }
}

impl Builder {
    fn push(&mut self, s: &str)
        ensures
            final(self).out@ == old(self).out@ + s@,
            extends(old(self).out@, final(self).out@),
            nl_free(s@) ==> tail_free(old(self).out@, final(self).out@),
            final(self).counter == old(self).counter,
            final(self).budget == old(self).budget,
    {
        let ghost o = self.out@;
        self.out.append(s);
        assert(self.out@.subrange(0, o.len() as int) =~= o);
        proof {
            reveal(nl_free);
            assert(nl_free(s@) ==> forall|i: int| o.len() <= i < self.out@.len() ==> self.out@[i] == s@[i - o.len()]);
        }
    }

    /// A fresh, unique identifier, sometimes drawn from a unicode stem.
    fn fresh(&mut self, rng: &mut Rng) -> (r: String)
        requires
            old(self).counter < u64::MAX,
        ensures
            final(self).counter == old(self).counter + 1,
            final(self).out == old(self).out,
            final(self).budget == old(self).budget,
            final(rng).spec_state() == step_state(old(rng).spec_state()),
            r@ == fresh_text(old(rng).spec_state(), final(self).counter as int),
            (gst(*final(self), *final(rng)), r@) == gen_fresh(gst(*old(self), *old(rng))),
            r@.len() > 0,
            nl_free(r@),
    {
        proof {
            lemma_fresh_text(old(rng).spec_state(), old(self).counter + 1);
        }
        self.counter = self.counter + 1;
        let stem = name_stem(rng.below(7));
        let mut s = String::from_str(stem);
        let digits = crate::numbers::fmt_u64(self.counter);
        s.append(digits.as_str());
        s
    }

    /// Pick the name for a new binding: mostly fresh, sometimes one already
    /// bound in this scope (a redefinition) or in an enclosing scope
    /// (shadowing).
    fn decl_name(&mut self, rng: &mut Rng, visible: &Vec<String>, scope_start: usize) -> (r: String)
        requires
            scope_start <= visible@.len(),
            old(self).counter < u64::MAX,
            names_ok(visible@),
        ensures
            (gst(*final(self), *final(rng)), r@) == gen_decl_name(
                gst(*old(self), *old(rng)),
                names(visible@),
                scope_start as int,
            ),
            r@.len() > 0,
            nl_free(r@),
            old(self).counter <= final(self).counter <= old(self).counter + 1,
            final(self).out == old(self).out,
            final(self).budget == old(self).budget,
            ({
                let s1 = step_state(old(rng).spec_state());
                let roll = mix(s1) % 100;
                let d = mix(step_state(s1));
                if roll < 12 && scope_start < visible@.len() {
                    &&& r@ == visible@[scope_start + (d % (visible@.len() - scope_start) as u64) as int]@
                    &&& final(self).counter == old(self).counter
                    &&& final(rng).spec_state() == step_state(s1)
                } else if roll < 26 && scope_start > 0 {
                    &&& r@ == visible@[(d % scope_start as u64) as int]@
                    &&& final(self).counter == old(self).counter
                    &&& final(rng).spec_state() == step_state(s1)
                } else {
                    &&& r@ == fresh_text(s1, old(self).counter + 1)
                    &&& final(self).counter == old(self).counter + 1
                    &&& final(rng).spec_state() == step_state(s1)
                }
            }),
    {
        let roll = rng.below(100);
        if roll < 12 && scope_start < visible.len() {
            let k = rng.below(visible.len() - scope_start);
            visible[scope_start + k].clone()
        } else if roll < 26 && scope_start > 0 {
            let k = rng.below(scope_start);
            visible[k].clone()
        } else {
            self.fresh(rng)
        }
    }
}

} // verus!

verus! {

spec fn expr_effect(b0: Builder, b1: Builder, v0: Seq<String>, v1: Seq<String>, cost: nat) -> bool {
    &&& v1 == v0
    &&& extends(b0.out@, b1.out@)
    &&& grows_on_line(b0.out@, b1.out@)
    &&& b0.budget - cost <= b1.budget < b0.budget + 1
    &&& b0.counter <= b1.counter <= b0.counter + cost
}

impl Builder {
    /// Emit an expression over the names in `visible` and the functions in
    /// `fns`. Names bound inside go out of scope again at the end.
    fn emit_expr(&mut self, rng: &mut Rng, visible: &mut Vec<String>, fns: &Vec<String>, depth: u32)
        requires
            old(self).budget >= i32::MIN + expr_cost(depth as int),
            old(self).counter + expr_cost(depth as int) <= u64::MAX,
            names_ok(old(visible)@),
            names_ok(fns@),
        ensures
            final(visible)@ == old(visible)@,
            gst(*final(self), *final(rng)) == gen_expr(
                gst(*old(self), *old(rng)),
                names(old(visible)@),
                names(fns@),
                depth as int,
            ),
            extends(old(self).out@, final(self).out@),
            grows_on_line(old(self).out@, final(self).out@),
            old(self).budget - expr_cost(depth as int) <= final(self).budget < old(self).budget,
            old(self).counter <= final(self).counter <= old(self).counter + expr_cost(depth as int),
        decreases 4 - depth, 1int,
    {
        proof {
            lemma_expr_cost_pos(depth as int);
        }
        self.budget = self.budget - 1;
        let leaf = depth >= 4 || self.budget <= 0 || rng.chance(1, 2);
        if leaf {
            self.emit_leaf(rng, visible);
            return ;
        }
        let choice = rng.below(5);
        if choice == 0 {
            self.emit_binary(rng, visible, fns, depth);
        } else if choice == 1 && fns.len() > 0 {
            self.emit_call(rng, visible, fns, depth);
        } else if choice == 2 {
            self.emit_paren(rng, visible, fns, depth);
        } else if choice == 3 {
            self.emit_block(rng, visible, fns, depth);
        } else {
            self.emit_if(rng, visible, fns, depth);
        }
    }

    fn emit_leaf(&mut self, rng: &mut Rng, visible: &Vec<String>)
        requires
            names_ok(visible@),
        ensures
            gst(*final(self), *final(rng)) == gen_leaf(gst(*old(self), *old(rng)), names(visible@)),
            extends(old(self).out@, final(self).out@),
            grows_on_line(old(self).out@, final(self).out@),
            final(self).budget == old(self).budget,
            final(self).counter == old(self).counter,
    {
        proof {
            lemma_pieces();
        }
        let r = rng.below(3);
        if r == 0 && visible.len() > 0 {
            let nr = rng.pick(visible.as_slice());
            proof {
                let k = choose|k: int| 0 <= k < visible@.len() && *nr == visible@[k];
                assert(visible@[k]@.len() > 0 && nl_free(visible@[k]@));
            }
            let n = nr.clone();
            self.push(n.as_str());
        } else if r == 1 {
            let t = if rng.chance(1, 2) {
                "true"
            } else {
                "false"
            };
            self.push(t);
        } else {
            let n = rng.below(100);
            let t = fmt_usize(n);
            proof {
                lemma_int_text(n as int);
            }
            self.push(t.as_str());
        }
    }

    fn emit_binary(&mut self, rng: &mut Rng, visible: &mut Vec<String>, fns: &Vec<String>, depth: u32)
        requires
            names_ok(old(visible)@),
            names_ok(fns@),
            depth < 4,
            old(self).budget >= i32::MIN + 2 * expr_cost(depth + 1),
            old(self).counter + 2 * expr_cost(depth + 1) <= u64::MAX,
        ensures
            gst(*final(self), *final(rng)) == gen_binary(
                gst(*old(self), *old(rng)),
                names(old(visible)@),
                names(fns@),
                depth as int,
            ),
            expr_effect(*old(self), *final(self), old(visible)@, final(visible)@, 2 * expr_cost(depth + 1)),
        decreases 4 - depth, 0int,
    {
        broadcast use lemma_extends_trans, lemma_tail_free_trans;

        proof {
            lemma_pieces();
        }

        self.emit_expr(rng, visible, fns, depth + 1);
        let op = binary_op(rng.below(6));
        self.push(" ");
        self.push(op);
        self.push(" ");
        self.emit_expr(rng, visible, fns, depth + 1);
    }

    fn emit_call(&mut self, rng: &mut Rng, visible: &mut Vec<String>, fns: &Vec<String>, depth: u32)
        requires
            names_ok(old(visible)@),
            names_ok(fns@),
            depth < 4,
            fns@.len() > 0,
            old(self).budget >= i32::MIN + 2 * expr_cost(depth + 1),
            old(self).counter + 2 * expr_cost(depth + 1) <= u64::MAX,
        ensures
            gst(*final(self), *final(rng)) == gen_call(
                gst(*old(self), *old(rng)),
                names(old(visible)@),
                names(fns@),
                depth as int,
            ),
            expr_effect(*old(self), *final(self), old(visible)@, final(visible)@, 2 * expr_cost(depth + 1)),
        decreases 4 - depth, 0int,
    {
        broadcast use lemma_extends_trans, lemma_tail_free_trans;

        proof {
            lemma_pieces();
        }

        let ghost g = gst(*self, *rng);
        let ghost nv = names(visible@);
        let ghost nf = names(fns@);
        let fs = fns.as_slice();
        assert(fs@ == fns@);
        let fr = rng.pick(fs);
        proof {
            let k = choose|k: int| 0 <= k < fns@.len() && *fr == fns@[k];
            assert(fns@[k]@.len() > 0 && nl_free(fns@[k]@));
        }
        let f = fr.clone();
        let ghost kk = draw(g.rng, fns@.len() as int);
        assert(0 <= kk < fns@.len()) by {
            let x = mix(step_state(g.rng));
            let n = (fns@.len() as int) as u64;
            assert(fns@.len() == fns.len());
            assert(fns.len() <= usize::MAX);
            assert(usize::MAX <= u64::MAX);
            assert(n as int == fns@.len());
            assert(x % n < n) by (nonlinear_arith)
                requires
                    n > 0,
            ;
        }
        assert(*fr == fns@[kk]);
        assert(f@ == nf[kk]);
        self.push(f.as_str());
        self.push("(");
        let ghost g1 = gs_put(gs_put(gs_drawn(g), nf[draw(g.rng, fns@.len() as int)]), "("@);
        assert(gst(*self, *rng) == g1);
        let args = rng.below(3);
        let ghost g2 = gs_drawn(g1);
        assert(gst(*self, *rng) == g2);
        if args >= 1 {
            self.emit_expr(rng, visible, fns, depth + 1);
        }
        let ghost g3 = if args >= 1 { gen_expr(g2, nv, nf, depth + 1) } else { g2 };
        assert(gst(*self, *rng) == g3);
        if args >= 2 {
            self.push(", ");
            self.emit_expr(rng, visible, fns, depth + 1);
        }
        let ghost g4 = if args >= 2 { gen_expr(gs_put(g3, ", "@), nv, nf, depth + 1) } else { g3 };
        assert(gst(*self, *rng) == g4);
        self.push(")");
        assert(gst(*self, *rng) == gs_put(g4, ")"@));
    }

    fn emit_paren(&mut self, rng: &mut Rng, visible: &mut Vec<String>, fns: &Vec<String>, depth: u32)
        requires
            names_ok(old(visible)@),
            names_ok(fns@),
            depth < 4,
            old(self).budget >= i32::MIN + expr_cost(depth + 1),
            old(self).counter + expr_cost(depth + 1) <= u64::MAX,
        ensures
            gst(*final(self), *final(rng)) == gen_paren(
                gst(*old(self), *old(rng)),
                names(old(visible)@),
                names(fns@),
                depth as int,
            ),
            expr_effect(*old(self), *final(self), old(visible)@, final(visible)@, expr_cost(depth + 1)),
        decreases 4 - depth, 0int,
    {
        broadcast use lemma_extends_trans, lemma_tail_free_trans;

        proof {
            lemma_pieces();
        }

        self.push("(");
        self.emit_expr(rng, visible, fns, depth + 1);
        self.push(")");
    }

    /// A block expression introduces its own scope, so an inner `let` can
    /// shadow an outer name and go out of scope at the closing brace.
    fn emit_block(&mut self, rng: &mut Rng, visible: &mut Vec<String>, fns: &Vec<String>, depth: u32)
        requires
            names_ok(old(visible)@),
            names_ok(fns@),
            depth < 4,
            old(self).budget >= i32::MIN + 2 * expr_cost(depth + 1),
            old(self).counter + 1 + 2 * expr_cost(depth + 1) <= u64::MAX,
        ensures
            gst(*final(self), *final(rng)) == gen_block(
                gst(*old(self), *old(rng)),
                names(old(visible)@),
                names(fns@),
                depth as int,
            ),
            expr_effect(*old(self), *final(self), old(visible)@, final(visible)@, 1 + 2 * expr_cost(depth + 1)),
        decreases 4 - depth, 0int,
    {
        broadcast use lemma_extends_trans, lemma_tail_free_trans;

        proof {
            lemma_pieces();
        }

        let ghost out0 = self.out@;
        let ghost g = gst(*self, *rng);
        let ghost nv = names(visible@);
        let ghost nf = names(fns@);
        self.push("{ ");
        let ghost g1 = gs_put(g, "{ "@);
        let inner_start = visible.len();
        let stmts = rng.below(2);
        let ghost g2 = gs_drawn(g1);
        assert(gst(*self, *rng) == g2);
        if stmts > 0 && self.budget > 0 {
            let ghost o1 = self.out@;
            let name = self.decl_name(rng, visible, inner_start);
            let ghost g3 = gen_decl_name(g2, nv, nv.len() as int).0;
            assert(gst(*self, *rng) == g3);
            self.push("let ");
            self.push(name.as_str());
            self.push(" = ");
            self.emit_expr(rng, visible, fns, depth + 1);
            let ghost g5 = gen_expr(gs_put(gs_put(gs_put(g3, "let "@), name@), " = "@), nv, nf, depth + 1);
            assert(gst(*self, *rng) == g5);
            self.push("; ");
            let ghost vb = visible@;
            visible.push(name);
            assert(names(visible@) =~= nv.push(name@));
            assert(names_ok(visible@)) by {
                assert forall|i: int| 0 <= i < visible@.len() implies (#[trigger] visible@[i])@.len() > 0 && nl_free(visible@[i]@) by {
                    if i < vb.len() {
                        assert(visible@[i] == vb[i]);
                    }
                }
            }
            assert(extends(o1, self.out@));
        }
        assert(extends(out0, self.out@));
        self.emit_expr(rng, visible, fns, depth + 1);
        self.push(" }");
        visible.truncate(inner_start);
        assert(visible@ =~= old(visible)@);
    }

    fn emit_if(&mut self, rng: &mut Rng, visible: &mut Vec<String>, fns: &Vec<String>, depth: u32)
        requires
            names_ok(old(visible)@),
            names_ok(fns@),
            depth < 4,
            old(self).budget >= i32::MIN + 3 * expr_cost(depth + 1),
            old(self).counter + 3 * expr_cost(depth + 1) <= u64::MAX,
        ensures
            gst(*final(self), *final(rng)) == gen_if(
                gst(*old(self), *old(rng)),
                names(old(visible)@),
                names(fns@),
                depth as int,
            ),
            expr_effect(*old(self), *final(self), old(visible)@, final(visible)@, 3 * expr_cost(depth + 1)),
        decreases 4 - depth, 0int,
    {
        broadcast use lemma_extends_trans, lemma_tail_free_trans;

        proof {
            lemma_pieces();
        }

        self.push("if ");
        self.emit_expr(rng, visible, fns, depth + 1);
        self.push(" { ");
        self.emit_expr(rng, visible, fns, depth + 1);
        self.push(" } else { ");
        self.emit_expr(rng, visible, fns, depth + 1);
        self.push(" }");
    }
}

} // verus!

verus! {

proof fn lemma_costs()
    ensures
        expr_cost(0) == 121,
        expr_cost(1) == 40,
        item_cost(0) == 382,
        forall|d: int| 0 <= d < 3 ==> #[trigger] item_cost(d) == 1 + expr_cost(d) + 2 * item_cost(d + 1) + expr_cost(d + 1),
        forall|d: int| 0 <= d ==> #[trigger] item_cost(d) >= 1 + expr_cost(d),
        forall|d: int| #[trigger] expr_cost(d) >= 1,
{
    assert(expr_cost(4) == 1);
    assert(expr_cost(3) == 4);
    assert(expr_cost(2) == 13);
    assert(expr_cost(1) == 40);
    assert(expr_cost(0) == 121);
    assert(item_cost(3) == 5);
    assert(item_cost(2) == 28);
    assert(item_cost(1) == 110);
    assert(item_cost(0) == 382);
    assert forall|d: int| #[trigger] expr_cost(d) >= 1 by {
        lemma_expr_cost_pos(d);
    }
}

impl Builder {
    /// Emit one parameter of a function: it may shadow an enclosing name, or
    /// (rarely) collide with one.
    fn emit_param(&mut self, rng: &mut Rng, visible: &mut Vec<String>, inner_start: usize, first: bool)
        requires
            inner_start <= old(visible)@.len(),
            old(self).counter < u64::MAX,
            names_ok(old(visible)@),
        ensures
            (gst(*final(self), *final(rng)), names(final(visible)@)) == gen_param(
                gst(*old(self), *old(rng)),
                names(old(visible)@),
                inner_start as int,
                first,
            ),
            extends(old(self).out@, final(self).out@),
            grows_on_line(old(self).out@, final(self).out@),
            names_ok(final(visible)@),
            final(self).budget == old(self).budget,
            old(self).counter <= final(self).counter <= old(self).counter + 1,
            final(visible)@.len() == old(visible)@.len() + 1,
            extends(old(visible)@, final(visible)@),
    {
        broadcast use lemma_extends_trans, lemma_tail_free_trans;

        proof {
            lemma_pieces();
            lemma_tail_free_refl(old(self).out@);
        }
        let ghost g = gst(*self, *rng);
        let ghost nv = names(visible@);
        if !first {
            self.push(", ");
        }
        let ghost g1 = if first { g } else { gs_put(g, ", "@) };
        assert(gst(*self, *rng) == g1);
        let pname = if rng.chance(1, 6) && inner_start > 0 {
            let k = rng.below(inner_start);
            assert(visible@[k as int]@.len() > 0 && nl_free(visible@[k as int]@));
            assert(nv[k as int] == visible@[k as int]@);
            visible[k].clone()
        } else {
            self.fresh(rng)
        };
        assert((gst(*self, *rng), pname@) == (if draw(g1.rng, 6) < 1 && inner_start > 0 {
            (gs_drawn(gs_drawn(g1)), nv[draw(gs_drawn(g1).rng, inner_start as int)])
        } else {
            gen_fresh(gs_drawn(g1))
        }));
        self.push(pname.as_str());
        let ghost v0 = visible@;
        visible.push(pname);
        assert(names(visible@) =~= nv.push(pname@));
        assert(visible@.subrange(0, v0.len() as int) =~= v0);
        assert(names_ok(visible@)) by {
            assert forall|i: int| 0 <= i < visible@.len() implies (#[trigger] visible@[i])@.len() > 0 && nl_free(visible@[i]@) by {
                if i < v0.len() {
                    assert(visible@[i] == v0[i]);
                }
            }
        }
    }

    /// Emit one item: a `let`, a function (while nesting is allowed), or an
    /// expression statement. A `let` makes its name visible afterwards; a
    /// function is registered in `fns` so later siblings can call it.
    fn emit_item(
        &mut self,
        rng: &mut Rng,
        visible: &mut Vec<String>,
        scope_start: usize,
        fns: &mut Vec<String>,
        depth: u32,
    )
        requires
            scope_start <= old(visible)@.len(),
            old(self).budget >= i32::MIN + item_cost(depth as int),
            old(self).counter + 3 * item_cost(depth as int) <= u64::MAX,
            names_ok(old(visible)@),
            names_ok(old(fns)@),
        ensures
            (gst(*final(self), *final(rng)), names(final(visible)@), names(final(fns)@)) == gen_item(
                gst(*old(self), *old(rng)),
                names(old(visible)@),
                scope_start as int,
                names(old(fns)@),
                depth as int,
            ),
            extends(old(self).out@, final(self).out@),
            grows_on_line(old(self).out@, final(self).out@),
            names_ok(final(visible)@),
            names_ok(final(fns)@),
            old(self).budget - item_cost(depth as int) <= final(self).budget < old(self).budget,
            old(self).counter <= final(self).counter <= old(self).counter + 3 * item_cost(depth as int),
            extends(old(visible)@, final(visible)@),
            final(visible)@.len() <= old(visible)@.len() + 1,
            extends(old(fns)@, final(fns)@),
            final(fns)@.len() <= old(fns)@.len() + 1,
        decreases 3 - depth,
    {
        broadcast use lemma_extends_trans, lemma_tail_free_trans;

        proof {
            lemma_costs();
            lemma_expr_cost_pos(depth as int);
            lemma_pieces();
        }
        let ghost out0 = self.out@;
        let ghost v0 = visible@;
        let ghost f0 = fns@;
        assert(extends(v0, v0)) by {
            assert(v0.subrange(0, v0.len() as int) =~= v0);
        }
        assert(extends(f0, f0)) by {
            assert(f0.subrange(0, f0.len() as int) =~= f0);
        }
        let ghost g = gst(*self, *rng);
        let ghost nv = names(visible@);
        let ghost nf = names(fns@);
        self.budget = self.budget - 1;
        let ghost g0 = GenState { budget: g.budget - 1, ..g };
        let can_nest = depth < 3;
        let choice = rng.below(3);
        let ghost g1 = gs_drawn(g0);
        assert(gst(*self, *rng) == g1);
        if choice == 0 {
            let name = self.decl_name(rng, visible, scope_start);
            let ghost g2 = gen_decl_name(g1, nv, scope_start as int).0;
            assert(gst(*self, *rng) == g2);
            self.push("let ");
            self.push(name.as_str());
            self.push(" = ");
            self.emit_expr(rng, visible, fns, depth);
            self.push("; ");
            visible.push(name);
            assert(names(visible@) =~= nv.push(name@));
            assert(visible@.subrange(0, v0.len() as int) =~= v0);
            assert(names_ok(visible@)) by {
                assert forall|i: int| 0 <= i < visible@.len() implies (#[trigger] visible@[i])@.len() > 0 && nl_free(visible@[i]@) by {
                    if i < v0.len() {
                        assert(visible@[i] == v0[i]);
                    }
                }
            }
        } else if choice == 1 && can_nest {
            let name = self.fresh(rng);
            let ghost g2 = gen_fresh(g1).0;
            assert(gst(*self, *rng) == g2);
            let arity = rng.below(3);
            self.push("fn ");
            self.push(name.as_str());
            self.push("(");
            let ghost g3 = gs_put(gs_put(gs_put(gs_drawn(g2), "fn "@), name@), "("@);
            assert(gst(*self, *rng) == g3);
            let inner_start = visible.len();
            if arity >= 1 {
                self.emit_param(rng, visible, inner_start, true);
            }
            let ghost p4 = if arity >= 1 { gen_param(g3, nv, inner_start as int, true) } else { (g3, nv) };
            assert((gst(*self, *rng), names(visible@)) == p4);
            if arity >= 2 {
                self.emit_param(rng, visible, inner_start, false);
            }
            let ghost p5 = if arity >= 2 { gen_param(p4.0, p4.1, inner_start as int, false) } else { p4 };
            assert((gst(*self, *rng), names(visible@)) == p5);
            self.push(") { ");
            // Register the function name so its body and later siblings can
            // call it (hoisting and forward references).
            fns.push(name);
            assert(fns@.subrange(0, f0.len() as int) =~= f0);
            assert(names_ok(fns@)) by {
                assert forall|i: int| 0 <= i < fns@.len() implies (#[trigger] fns@[i])@.len() > 0 && nl_free(fns@[i]@) by {
                    if i < f0.len() {
                        assert(fns@[i] == f0[i]);
                    }
                }
            }
            assert(names(fns@) =~= nf.push(name@));
            let mut inner_fns = copy_names(fns);
            let ghost g6 = gs_put(p5.0, ") { "@);
            let stmts = rng.below(3);
            let ghost g7 = gs_drawn(g6);
            assert(gst(*self, *rng) == g7);
            if stmts >= 1 && self.budget > 0 {
                self.emit_item(rng, visible, inner_start, &mut inner_fns, depth + 1);
            }
            let ghost p8 = if stmts >= 1 && g7.budget > 0 {
                gen_item(g7, p5.1, inner_start as int, nf.push(name@), depth + 1)
            } else {
                (g7, p5.1, nf.push(name@))
            };
            assert((gst(*self, *rng), names(visible@), names(inner_fns@)) == p8);
            if stmts >= 2 && self.budget > 0 {
                self.emit_item(rng, visible, inner_start, &mut inner_fns, depth + 1);
            }
            let ghost p9 = if stmts >= 2 && p8.0.budget > 0 {
                gen_item(p8.0, p8.1, inner_start as int, p8.2, depth + 1)
            } else {
                p8
            };
            assert((gst(*self, *rng), names(visible@), names(inner_fns@)) == p9);
            self.emit_expr(rng, visible, &inner_fns, depth + 1);
            self.push(" } ");
            visible.truncate(inner_start);
            assert(visible@ =~= v0);
        } else {
            self.emit_expr(rng, visible, fns, depth);
            self.push("; ");
        }
    }
}

/// Generate a random valid program. `size` bounds how much is emitted. Each
/// item is emitted on a line of its own: the text is whole, non-empty lines,
/// at least one when there is any budget, and no more than the number of
/// items the first draw asks for.
pub fn random_program(rng: &mut Rng, size: u32) -> (r: String)
    requires
        size as int + 1 <= usize::MAX,
    ensures
        r@.len() == 0 || r@.last() == '\n',
        whole_lines(r@),
        nl_count(r@) <= 1 + mix(step_state(old(rng).spec_state())) % ((size + 1) as u64),
        1 <= size <= i32::MAX ==> nl_count(r@) >= 1,
        r@ == gen_program(old(rng).spec_state(), size).out,
        final(rng).spec_state() == gen_program(old(rng).spec_state(), size).rng,
{
    proof {
        lemma_costs();
        lemma_pieces();
    }
    let mut b = Builder { out: String::new(), counter: 0, budget: size as i32 };
    assert(b.out@.len() == 0);
    let mut visible: Vec<String> = Vec::new();
    let mut fns: Vec<String> = Vec::new();
    let ghost s0 = rng.spec_state();
    let items = 1 + rng.below(size as usize + 1);
    assert(names(visible@) =~= Seq::<Seq<char>>::empty());
    assert(names(fns@) =~= Seq::<Seq<char>>::empty());
    assert(gst(b, *rng) == gs_drawn(GenState { out: Seq::empty(), counter: 0, budget: (size as i32) as int, rng: s0 }));
    let mut k: usize = 0;
    while k < items
        invariant
            items <= size as int + 1,
            items == 1 + mix(step_state(s0)) % ((size + 1) as u64),
            k <= items,
            b.counter <= 1146 * k,
            item_cost(0) == 382,
            b.out@.len() == 0 || b.out@.last() == '\n',
            whole_lines(b.out@),
            nl_count(b.out@) == k,
            k == 0 ==> b.budget == size as i32,
            names_ok(visible@),
            names_ok(fns@),
            "\n"@ == seq!['\n'],
            gen_lines(gst(b, *rng), names(visible@), names(fns@), (items - k) as nat) == gen_program(s0, size),
        ensures
            k >= items || b.budget <= 0,
            gen_lines(gst(b, *rng), names(visible@), names(fns@), (items - k) as nat) == gen_program(s0, size),
            nl_count(b.out@) == k,
            whole_lines(b.out@),
            b.out@.len() == 0 || b.out@.last() == '\n',
            k <= items,
            k == 0 ==> b.budget == size as i32,
            items == 1 + mix(step_state(s0)) % ((size + 1) as u64),
        decreases items - k,
    {
        if b.budget <= 0 {
            break ;
        }
        let ghost o0 = b.out@;
        b.emit_item(rng, &mut visible, 0, &mut fns, 0);
        let ghost o1 = b.out@;
        b.push("\n");
        proof {
            lemma_whole_lines_step(o0, o1);
        }
        k = k + 1;
    }
    assert(1 <= size <= i32::MAX ==> k >= 1);
    b.out
}

/// The text of splice fragment `i`.
pub open spec fn edit_snippet(i: int) -> Seq<char> {
    if i == 0 {
        ""@
    } else if i == 1 {
        "x"@
    } else if i == 2 {
        ";"@
    } else if i == 3 {
        " "@
    } else if i == 4 {
        "1"@
    } else if i == 5 {
        "42"@
    } else if i == 6 {
        "let q = 1;"@
    } else if i == 7 {
        "fn t() { 0 }"@
    } else if i == 8 {
        "("@
    } else if i == 9 {
        ")"@
    } else if i == 10 {
        "{"@
    } else if i == 11 {
        "}"@
    } else if i == 12 {
        "+"@
    } else if i == 13 {
        "="@
    } else if i == 14 {
        "*"@
    } else if i == 15 {
        "if a { 1 } else { 2 }"@
    } else if i == 16 {
        "\n"@
    } else if i == 17 {
        "foo("@
    } else if i == 18 {
        "* 3"@
    } else if i == 19 {
        "true"@
    } else if i == 20 {
        "// c\n"@
    } else if i == 21 {
        "//tail"@
    } else if i == 22 {
        "v1"@
    } else if i == 23 {
        "9"@
    } else if i == 24 {
        "café"@
    } else if i == 25 {
        "λ"@
    } else if i == 26 {
        "€"@
    } else if i == 27 {
        "let café = λ;"@
    } else if i == 28 {
        "// α\n"@
    } else if i == 29 {
        "=="@
    } else if i == 30 {
        "\n// x"@
    } else if i == 31 {
        "}\n"@
    } else {
        "b b"@
    }
}

/// Splice fragments for `random_edit`, chosen to force hard seam cases: bare
/// operators that can fuse with a neighbour, digits and letters that extend an
/// adjacent token, comment starts with and without a trailing newline,
/// unbalanced braces, unicode identifiers and symbols, and newlines that move
/// line boundaries.
fn snippet(i: usize) -> (r: &'static str)
    ensures
        r@ == edit_snippet(i as int),
{
    match i {
        0 => "",
        1 => "x",
        2 => ";",
        3 => " ",
        4 => "1",
        5 => "42",
        6 => "let q = 1;",
        7 => "fn t() { 0 }",
        8 => "(",
        9 => ")",
        10 => "{",
        11 => "}",
        12 => "+",
        13 => "=",
        14 => "*",
        15 => "if a { 1 } else { 2 }",
        16 => "\n",
        17 => "foo(",
        18 => "* 3",
        19 => "true",
        20 => "// c\n",
        21 => "//tail",
        22 => "v1",
        23 => "9",
        24 => "café",
        25 => "λ",
        26 => "€",
        27 => "let café = λ;",
        28 => "// α\n",
        29 => "==",
        30 => "\n// x",
        31 => "}\n",
        _ => "b b",
    }
}

/// `r` is the largest character boundary of `bytes` not after `i`.
pub open spec fn boundary_floor(bytes: Seq<u8>, i: int, r: int) -> bool {
    &&& r <= i
    &&& is_char_boundary(bytes, r)
    &&& forall|j: int| r < j <= i ==> !is_char_boundary(bytes, j)
}

/// The largest character boundary of `text` not after `i`.
fn floor_char_boundary(text: &str, i: usize) -> (r: usize)
    ensures
        r <= text.spec_bytes().len(),
        boundary_floor(text.spec_bytes(), i as int, r as int),
{
    proof {
        vstd::utf8::encode_utf8_valid_utf8(text@);
    }
    let mut i = i;
    let ghost i0 = i;
    while i > 0 && !text.is_char_boundary(i)
        invariant
            i <= i0,
            forall|j: int| i < j <= i0 ==> !is_char_boundary(text.spec_bytes(), j),
            vstd::utf8::valid_utf8(text.spec_bytes()),
        decreases i,
    {
        i = i - 1;
    }
    proof {
        vstd::utf8::is_char_boundary_start_end_of_seq(text.spec_bytes());
        if i > text.spec_bytes().len() {
            assert(!is_char_boundary(text.spec_bytes(), i as int));
        }
    }
    i
}

/// The byte range of an edit drawn as `a` and `b`: from the smaller to the
/// larger, cut to twelve bytes.
pub open spec fn edit_range(a: u64, b: u64) -> (int, int) {
    let lo = if a < b { a as int } else { b as int };
    let hi = if a < b { b as int } else { a as int };
    if hi - lo > 12 { (lo, lo + 12) } else { (lo, hi) }
}

/// Produce a random edit `(start, end, replacement)` for the given text: a
/// range of at most twelve bytes, each end moved back to a character boundary,
/// and one of the splice fragments.
pub fn random_edit(rng: &mut Rng, text: &str) -> (r: (u32, u32, String))
    requires
        text.spec_bytes().len() < u32::MAX,
    ensures
        r.0 <= r.1 <= text.spec_bytes().len(),
        is_char_boundary(text.spec_bytes(), r.0 as int),
        is_char_boundary(text.spec_bytes(), r.1 as int),
        ({
            let s1 = step_state(old(rng).spec_state());
            let s2 = step_state(s1);
            let s3 = step_state(s2);
            let (lo, hi) = edit_range(mix(s1) % (text.spec_bytes().len() + 1) as u64, mix(s2) % (text.spec_bytes().len() + 1) as u64);
            &&& final(rng).spec_state() == s3
            &&& boundary_floor(text.spec_bytes(), lo, r.0 as int)
            &&& boundary_floor(text.spec_bytes(), hi, r.1 as int)
            &&& r.2@ == edit_snippet((mix(s3) % 33) as int)
        }),
        exists|a: int, e: int|
            {
                &&& 0 <= a <= e <= text.spec_bytes().len()
                &&& e - a <= 12
                &&& #[trigger] boundary_floor(text.spec_bytes(), a, r.0 as int)
                &&& #[trigger] boundary_floor(text.spec_bytes(), e, r.1 as int)
            },
        exists|k: int| 0 <= k < 33 && r.2@ == edit_snippet(k),
{
    let len = text.len();
    let a = rng.below(len + 1);
    let b = rng.below(len + 1);
    let start = if a < b {
        a
    } else {
        b
    };
    let mut end = if a < b {
        b
    } else {
        a
    };
    // keep edits reasonably local
    if end - start > 12 {
        end = start + 12;
    }
    let s = floor_char_boundary(text, start);
    let e = floor_char_boundary(text, end);
    assert(s <= e) by {
        if s > e {
            assert(e < s <= end);
        }
    }
    let k = rng.below(33);
    let repl = String::from_str(snippet(k));
    let r = (s as u32, e as u32, repl);
    assert(boundary_floor(text.spec_bytes(), start as int, r.0 as int));
    assert(boundary_floor(text.spec_bytes(), end as int, r.1 as int));
    assert(r.2@ == edit_snippet(k as int));
    r
}

} // verus!
