use atelier::gen::{random_edit, random_program};
use atelier::parser::parse;
use atelier::rng::Rng;

#[test]
fn generated_programs_mostly_parse_clean() {
    let mut clean = 0;
    for seed in 0..200u64 {
        let mut rng = Rng::new(seed);
        let src = random_program(&mut rng, 12);
        if parse(&src).diagnostics.is_empty() {
            clean += 1;
        }
    }
    // The generator targets valid syntax; the vast majority should be clean.
    assert!(clean > 180, "only {clean}/200 parsed clean");
}

#[test]
fn generator_exercises_shadowing_and_unicode() {
    // Over a spread of seeds the generator should produce redefinition or
    // shadowing (a name bound twice) and multi byte identifiers, otherwise
    // the hard cases are not actually being covered.
    let mut saw_unicode = false;
    let mut saw_repeat_binding = false;
    for seed in 0..300u64 {
        let mut rng = Rng::new(seed.wrapping_mul(2_654_435_761));
        let src = random_program(&mut rng, 16);
        if !src.is_ascii() {
            saw_unicode = true;
        }
        for stem in ["v", "café"] {
            let decl = format!("let {stem}");
            if src.matches(&decl).count() >= 2 {
                saw_repeat_binding = true;
            }
        }
        if saw_unicode && saw_repeat_binding {
            break;
        }
    }
    assert!(saw_unicode, "generator never emitted a unicode identifier");
    assert!(
        saw_repeat_binding,
        "generator never emitted a repeated binding"
    );
}

#[test]
fn same_seed_same_draws() {
    let mut a = Rng::new(42);
    let mut b = Rng::new(42);
    for _ in 0..10 {
        assert_eq!(a.next_u64(), b.next_u64());
    }
    let mut c = Rng::new(0);
    // SplitMix64's first output from seed 0
    assert_eq!(c.next_u64(), 0xE220_A839_7B1D_CDAF);
    let mut d = Rng::new(7);
    for _ in 0..100 {
        assert!(d.below(5) < 5);
    }
    let items = [10, 20, 30];
    let p = *d.pick(&items);
    assert!(items.contains(&p));
    assert!(!d.chance(0, 3));
    assert!(d.chance(3, 3));
    assert_eq!(
        random_program(&mut Rng::new(9), 10),
        random_program(&mut Rng::new(9), 10)
    );
}

#[test]
fn random_edits_stay_on_character_boundaries() {
    let text = "let café = λ;\nfn f(x) { x }\n";
    let mut rng = Rng::new(3);
    for _ in 0..200 {
        let (start, end, _repl) = random_edit(&mut rng, text);
        assert!(start <= end && end as usize <= text.len());
        assert!(text.is_char_boundary(start as usize));
        assert!(text.is_char_boundary(end as usize));
    }
    let (s, e, _) = random_edit(&mut rng, "");
    assert_eq!((s, e), (0, 0));
}

#[test]
fn random_edits_are_local_and_splice_a_known_fragment() {
    let text = "let a = 1;\nfn f(x) { x + a }\nf(2);\n";
    let known = [
        "", "x", ";", " ", "1", "42", "let q = 1;", "fn t() { 0 }", "(", ")", "{", "}", "+", "=",
        "*", "if a { 1 } else { 2 }", "\n", "foo(", "* 3", "true", "// c\n", "//tail", "v1", "9",
        "café", "λ", "€", "let café = λ;", "// α\n", "==", "\n// x", "}\n", "b b",
    ];
    let mut rng = Rng::new(11);
    for _ in 0..300 {
        let (start, end, repl) = random_edit(&mut rng, text);
        // every byte of this text is a character boundary, so the range is exact
        assert!(end - start <= 12);
        assert!(known.contains(&repl.as_str()), "unexpected fragment {repl:?}");
    }
}

#[test]
fn random_edit_is_fixed_by_the_seed() {
    // Seed 7 draws 1 and 17 for the range (cut to twelve bytes) and 0 for the
    // fragment, which is the empty one.
    let mut rng = Rng::new(7);
    let (start, end, repl) = random_edit(&mut rng, "let x = 1;\nlet y = x;\n");
    assert_eq!((start, end, repl.as_str()), (1, 13, ""));
}

#[test]
fn generated_programs_are_whole_non_empty_lines() {
    for seed in 0..50u64 {
        let mut rng = Rng::new(seed);
        let src = random_program(&mut rng, 10);
        assert!(!src.is_empty());
        assert!(src.ends_with('\n'));
        assert!(!src.starts_with('\n'));
        assert!(!src.contains("\n\n"));
    }
    let mut rng = Rng::new(3);
    assert_eq!(random_program(&mut rng, 0), "");
}
