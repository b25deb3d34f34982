use derex::derivatives::{descendants, letters, matcher, nullable, part_deriv, prop, subterm};
use derex::regex::{compare, normalize, R};

fn a() -> R {
    R::char('a')
}

fn b() -> R {
    R::char('b')
}

fn c() -> R {
    R::char('c')
}

#[test]
fn matcher_ab_star_doc_example() {
    let ab_star = R::star(R::seq(a(), b()));
    assert!(matcher("ababab", &ab_star));
    assert!(!matcher("aba", &ab_star));
    assert!(matcher("", &ab_star));
}

#[test]
fn matcher_single_char_and_eps() {
    assert!(matcher("a", &a()));
    assert!(!matcher("", &a()));
    assert!(!matcher("aa", &a()));
    assert!(matcher("", &R::eps()));
    assert!(!matcher("a", &R::eps()));
}

#[test]
fn matcher_alternation_and_seqs() {
    let r = R::alt(R::seqs(vec![a(), b(), c()]), R::star(c()));
    assert!(matcher("abc", &r));
    assert!(matcher("ccc", &r));
    assert!(matcher("", &r));
    assert!(!matcher("ab", &r));
    assert!(!matcher("abcc", &r));
}

#[test]
fn matcher_empty_seqs_is_eps() {
    let r = R::seqs(vec![]);
    assert!(matcher("", &r));
    assert!(!matcher("a", &r));
}

#[test]
fn matcher_from_pattern() {
    let r = R::from_str("(ab|b)*a");
    assert!(matcher("a", &r));
    assert!(matcher("abba", &r));
    assert!(matcher("bbaba", &r));
    assert!(!matcher("ab", &r));
    assert!(!matcher("aab", &r));
}

#[test]
fn nullable_cases() {
    assert!(nullable(&R::eps()));
    assert!(!nullable(&a()));
    assert!(nullable(&R::star(a())));
    assert!(!nullable(&R::seq(R::star(a()), b())));
    assert!(nullable(&R::alt(a(), R::eps())));
    assert!(nullable(&R::seqs(vec![R::star(a()), R::eps()])));
    assert!(!nullable(&R::seqs(vec![R::star(a()), b()])));
    assert!(nullable(&R::seqs(vec![])));
}

#[test]
fn part_deriv_of_character() {
    assert!(part_deriv('a', &a()) == vec![R::eps()]);
    assert!(part_deriv('b', &a()) == vec![]);
    assert!(part_deriv('a', &R::eps()) == vec![]);
}

#[test]
fn part_deriv_abb_star_a() {
    // r = a b b* a: after reading `a`, `b b* a` is left; nothing starts with `b`.
    let r = R::from_str("abb*a");
    let expected = R::seqs(vec![b(), R::star(b()), a()]);
    assert!(part_deriv('a', &r) == vec![expected]);
    assert!(part_deriv('b', &r) == vec![]);
}

#[test]
fn part_deriv_a_star_bb_star_a() {
    // s = a* b b* a: reading `a` leaves `s`; reading `b` leaves `b* a`.
    let s = R::from_str("a*bb*a");
    assert!(part_deriv('a', &s) == vec![R::from_str("a*bb*a")]);
    assert!(part_deriv('b', &s) == vec![R::seqs(vec![R::star(b()), a()])]);
}

#[test]
fn part_deriv_sorted_and_deduplicated() {
    // Both branches give `Eps` and `b`; the result lists each once, in order.
    let r = R::alt(R::alt(a(), R::seq(a(), b())), R::alt(R::seq(a(), b()), a()));
    assert!(part_deriv('a', &r) == vec![R::eps(), b()]);
}

#[test]
fn part_deriv_star() {
    let s = R::star(R::seq(a(), b()));
    assert!(part_deriv('a', &s) == vec![R::seq(b(), R::star(R::seq(a(), b())))]);
}

#[test]
fn letters_sorted_distinct() {
    let r = R::from_str("ba|ab*c");
    assert!(letters(&r) == vec!['a', 'b', 'c']);
    assert!(letters(&R::eps()) == vec![]);
}

#[test]
fn descendants_of_star_example() {
    // (ab|a)* has the descendants (ab|a)* and b(ab|a)*.
    let s = R::star(R::alt(R::seq(a(), b()), a()));
    let expected = vec![R::seq(b(), R::star(R::alt(R::seq(a(), b()), a()))), R::star(R::alt(R::seq(a(), b()), a()))];
    assert!(descendants(&s) == expected);
}

#[test]
fn descendants_contains_start_and_eps() {
    let r = R::seq(a(), a());
    let ds = descendants(&r);
    assert!(ds == vec![R::eps(), a(), R::seq(a(), a())]);
}

#[test]
fn subterm_keeps_duplicates() {
    let r = R::seq(a(), a());
    assert!(subterm(&r) == vec![R::seq(a(), a()), a(), a()]);
}

#[test]
fn subterm_of_seqs_and_star() {
    let r = R::star(R::seqs(vec![a(), R::alt(b(), c())]));
    let expected = vec![
        R::star(R::seqs(vec![a(), R::alt(b(), c())])),
        R::seqs(vec![a(), R::alt(b(), c())]),
        a(),
        R::alt(b(), c()),
        b(),
        c(),
    ];
    assert!(subterm(&r) == expected);
}

#[test]
fn prop_holds_on_examples() {
    assert!(prop(&R::seq(a(), a())));
    let ex3 = R::alt(R::alt(a(), b()), c());
    let ex2 = R::alt(a(), R::alt(b(), c()));
    let ex4 = R::seq(R::seq(a(), ex3), ex2);
    assert!(prop(&ex4));
    assert!(prop(&R::seqs(vec![a(), b(), c()])));
}

#[test]
fn normalize_assoc_doc_example() {
    let left = R::seq(R::seq(a(), b()), c());
    let right = R::seq(a(), R::seq(b(), c()));
    let expected = R::seqs(vec![a(), b(), c()]);
    assert!(normalize(left) == expected);
    assert!(normalize(right) == expected);
}

#[test]
fn normalize_flattens_nested_seqs() {
    let r = R::star(R::seqs(vec![R::seqs(vec![a(), b()]), R::seqs(vec![]), c()]));
    let expected = R::star(R::seqs(vec![a(), b(), c()]));
    assert!(normalize(r) == expected);
}

#[test]
fn normalize_idempotent_example() {
    let r = R::alt(R::seq(R::seq(a(), b()), R::seqs(vec![c(), R::seq(a(), b())])), R::star(R::seq(a(), a())));
    let once = normalize(r);
    let twice = normalize(once.clone());
    assert!(once == twice);
}

#[test]
fn compare_follows_derived_order() {
    let samples = vec![
        R::eps(),
        a(),
        b(),
        R::seq(a(), b()),
        R::seq(a(), a()),
        R::seqs(vec![a()]),
        R::seqs(vec![a(), b()]),
        R::seqs(vec![]),
        R::alt(a(), b()),
        R::star(a()),
        R::star(R::eps()),
    ];
    for x in &samples {
        for y in &samples {
            let c = compare(x, y);
            let expected = match x.cmp(y) {
                std::cmp::Ordering::Less => -1,
                std::cmp::Ordering::Equal => 0,
                std::cmp::Ordering::Greater => 1,
            };
            assert_eq!(c, expected);
        }
    }
}

#[test]
fn clone_and_equality() {
    let r = R::star(R::seqs(vec![a(), R::alt(b(), R::eps())]));
    let s = r.clone();
    assert!(r == s);
    assert!(r != R::star(a()));
}

#[test]
fn prop_fails_on_a_descendant_of_another_shape() {
    // `ab*` has the descendant `b*`, which is neither `Eps`, `ab*` nor a sequence.
    assert!(!prop(&R::seq(a(), R::star(b()))));
    assert!(!prop(&R::from_str("ab*")));
}
