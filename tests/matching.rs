use brzozowski::regex::build_plan;
use brzozowski::regex::build_plan::{alt, literal, literal_str, star, ImplicitRe, Re};
use brzozowski::regex::{compile, compile_with_capacity, Regex};

fn a_star_b() -> Re {
    build_plan::seq(star(literal('a')), literal('b'))
}

#[test]
fn a_star_b_matches_b() {
    assert!(compile(&a_star_b()).is_match("b"));
}

#[test]
fn a_star_b_matches_aaab() {
    assert!(compile(&a_star_b()).is_match("aaab"));
}

#[test]
fn a_star_b_rejects_aaa() {
    assert!(!compile(&a_star_b()).is_match("aaa"));
}

#[test]
fn a_star_b_rejects_empty() {
    assert!(!compile(&a_star_b()).is_match(""));
}

#[test]
fn empty_literal_matches_only_empty() {
    let r = compile(&literal_str(""));
    assert!(r.is_match(""));
    assert!(!r.is_match("x"));
}

#[test]
fn double_star_same_language_as_star() {
    let doubled = compile(&build_plan::seq(star(star(literal('a'))), literal('b')));
    let single = compile(&a_star_b());
    for s in ["", "a", "b", "ab", "aab", "aaab", "ba", "abb", "aaa", "bb", "c"] {
        assert_eq!(doubled.is_match(s), single.is_match(s), "input {:?}", s);
    }
}

#[test]
fn double_star_derivatives_nullable_after_aab() {
    let r = compile(&build_plan::seq(star(star(literal('a'))), literal('b')));
    let d = r.der('a').der('a').der('b');
    assert!(d.nullable());
    let ds = r.der('a').simp().der('a').simp().der('b').simp();
    assert!(ds.nullable());
}

#[test]
fn render_flattens_nested_alternation() {
    let r = compile(&alt(literal('a'), alt(literal('b'), literal('c'))));
    assert_eq!(r.render(), "('a'|'b'|'c')");
}

#[test]
fn render_shapes() {
    assert_eq!(compile(&a_star_b()).render(), "'a'*.'b'");
    assert_eq!(compile(&star(build_plan::seq(literal('a'), literal('b')))).render(), "('a'.'b')*");
    assert_eq!(compile(&star(star(literal('a')))).render(), "('a'*)*");
    assert_eq!(compile(&star(alt(literal('a'), literal('b')))).render(), "(('a'|'b'))*");
    assert_eq!(Regex::new().render(), "0");
    assert_eq!(compile(&literal_str("")).render(), "1");
    assert_eq!(compile(&literal('\n')).render(), "'\\n'");
}

#[test]
fn literal_str_folds_to_the_right() {
    assert_eq!(compile(&literal_str("abc")).render(), "'a'.'b'.'c'");
    let r = compile(&literal_str("abc"));
    assert!(r.is_match("abc"));
    assert!(!r.is_match("ab"));
    assert!(!r.is_match("abcd"));
}

#[test]
fn nullable_basics() {
    assert!(!Regex::new().nullable());
    assert!(compile(&Re::Unit).nullable());
    assert!(compile(&star(literal('x'))).nullable());
    assert!(!compile(&literal('x')).nullable());
    assert!(compile(&alt(literal('x'), Re::Unit)).nullable());
    assert!(!compile(&build_plan::seq(literal('x'), Re::Unit)).nullable());
}

#[test]
fn derivative_law_on_examples() {
    let r = compile(&build_plan::seq(star(alt(literal('a'), literal('b'))), literal('c')));
    for (c, rest) in [('a', "bc"), ('c', ""), ('b', "c"), ('c', "c"), ('x', "c")] {
        let whole: String = std::iter::once(c).chain(rest.chars()).collect();
        assert_eq!(r.is_match(&whole), r.der(c).is_match(rest));
    }
}

#[test]
fn simplification_keeps_language() {
    let r = compile(&alt(build_plan::seq(Re::Empty, literal('a')), build_plan::seq(Re::Unit, star(literal('b')))));
    let s = r.simp();
    assert_eq!(s.render(), "'b'*");
    for input in ["", "a", "b", "bb", "ab"] {
        assert_eq!(s.is_match(input), r.is_match(input));
        assert_eq!(s.simp().is_match(input), s.is_match(input));
    }
}

#[test]
fn simplification_rules() {
    assert_eq!(compile(&alt(Re::Empty, literal('a'))).simp().render(), "'a'");
    assert_eq!(compile(&alt(literal('a'), Re::Empty)).simp().render(), "'a'");
    assert_eq!(compile(&alt(literal('a'), literal('a'))).simp().render(), "'a'");
    assert_eq!(compile(&build_plan::seq(literal('a'), Re::Empty)).simp().render(), "0");
    assert_eq!(compile(&build_plan::seq(literal('a'), Re::Unit)).simp().render(), "'a'");
    assert_eq!(compile(&alt(literal('a'), literal('b'))).simp().render(), "('a'|'b')");
}

#[test]
fn absorption_after_dead_end() {
    let r = compile(&a_star_b());
    let d = r.der('c').simp();
    assert_eq!(d.render(), "0");
    assert_eq!(d.der('a').simp().render(), "0");
    assert!(!r.is_match("c"));
    assert!(!r.is_match("cab"));
    assert!(!r.is_match("bb"));
}

#[test]
fn growth_is_transparent() {
    let r = compile_with_capacity(&build_plan::seq(star(alt(literal('a'), literal_str("bc"))), literal('d')), 1);
    let big = compile(&build_plan::seq(star(alt(literal('a'), literal_str("bc"))), literal('d')));
    for input in ["d", "abcd", "bcbcad", "abc", "", "ad", "bd"] {
        let small = r.is_match_with_capacity(input, 0);
        assert_eq!(small, big.is_match_with_capacity(input, 4096));
        assert_eq!(small, r.is_match(input));
        assert_eq!(r.try_is_match_with_capacity(input, 1), Some(small));
    }
}

#[test]
fn long_input() {
    let r = compile(&build_plan::seq(star(star(literal('a'))), literal('b')));
    let mut s = "a".repeat(2000);
    s.push('b');
    assert!(r.is_match(&s));
    s.push('b');
    assert!(!r.is_match(&s));
}

#[test]
fn clone_is_deep_copy() {
    let r = compile(&a_star_b());
    let c = r.clone();
    assert_eq!(c.render(), r.render());
    assert_eq!(c.is_match("ab"), true);
}

#[test]
fn implicit_combinators() {
    let r = compile(&'a'.star().seq('b'.re()));
    assert_eq!(r.render(), "'a'*.'b'");
    let r = compile(&"ab".alt('c'.re()));
    assert!(r.is_match("ab"));
    assert!(r.is_match("c"));
    assert!(!r.is_match("a"));
    assert!(matches!(Re::char('z'), Re::Literal('z')));
}

#[test]
fn checked_entry_points() {
    let r = compile(&a_star_b());
    // by 'a': Alt(Concat(Concat(Unit, Repeat('a')), 'b'), Empty), eight nodes
    assert_eq!(r.der_size('a'), Some(8));
    assert_eq!(r.der('a').arena().len(), 8);
    assert_eq!(r.der_size('x'), Some(8));
    assert_eq!(r.try_is_match("aaab"), Some(true));
    assert_eq!(r.try_is_match("aaa"), Some(false));
    assert_eq!(r.try_is_match(""), Some(false));
    assert_eq!(r.try_is_match("cab"), Some(false));
}
