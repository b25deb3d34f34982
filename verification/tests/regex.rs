use derex::regex::{normalize, R};

#[test]
fn test_normalize_eliminates_seq() {
    let r = R::seq(R::char('a'), R::char('a'));
    let s = R::seqs(vec![R::char('a'), R::char('a')]);
    let r_norm = normalize(r);
    assert!(r_norm == s);
}

#[test]
fn test_smart_seq_eps_left() {
    let expected = R::char('a');
    assert!(R::smart_seq(R::Eps, R::char('a')) == expected);
}

#[test]
fn test_smart_seq_eps_right() {
    let expected = R::char('a');
    assert!(R::smart_seq(R::char('a'), R::Eps) == expected);
}

#[test]
fn test_smart_seq_wraps_two_plain() {
    let expected = R::seq(R::char('a'), R::char('b'));
    assert!(R::smart_seq(R::char('a'), R::char('b')) == expected);
}

#[test]
fn test_smart_seqs_eps_left() {
    let r_smart = R::smart_seqs(R::Eps, R::char('a'));
    assert!(r_smart == R::char('a'));
}

#[test]
fn test_smart_seqs_eps_right() {
    let r_smart = R::smart_seqs(R::char('a'), R::Eps);
    assert!(r_smart == R::char('a'));
}

#[test]
fn test_smart_seqs_flattens_two_seqs() {
    let left = R::seqs(vec![R::char('a'), R::char('b')]);
    let right = R::seqs(vec![R::char('c'), R::char('d')]);
    let expected = R::seqs(vec![R::char('a'), R::char('b'), R::char('c'), R::char('d')]);
    assert!(R::smart_seqs(left, right) == expected);
}

#[test]
fn test_smart_seqs_prepends_to_seqs() {
    let right = R::seqs(vec![R::char('b'), R::char('c')]);
    let expected = R::seqs(vec![R::char('a'), R::char('b'), R::char('c')]);
    assert!(R::smart_seqs(R::char('a'), right) == expected);
}

#[test]
fn test_smart_seqs_appends_to_seqs() {
    let left = R::seqs(vec![R::char('a'), R::char('b')]);
    let expected = R::seqs(vec![R::char('a'), R::char('b'), R::char('c')]);
    assert!(R::smart_seqs(left, R::char('c')) == expected);
}

#[test]
fn test_smart_seqs_wraps_two_plain() {
    let expected = R::seqs(vec![R::char('a'), R::char('b')]);
    assert!(R::smart_seqs(R::char('a'), R::char('b')) == expected);
}

#[test]
fn test_parse_concat() {
    let expected = R::smart_seqs(R::L('a'), R::L('b'));
    assert_eq!(R::from_str("ab"), expected)
}

#[test]
fn test_parse_alt() {
    let expected = R::alt(R::L('a'), R::L('b'));
    assert_eq!(R::from_str("a|b"), expected)
}

#[test]
fn test_parse_star() {
    let expected = R::star(R::L('a'));
    assert_eq!(R::from_str("a*"), expected)
}

#[test]
fn test_parse_paren() {
    let expedcted = R::alt(R::star(R::smart_seqs(R::L('a'), R::L('b'))), R::L('c'));
    assert_eq!(R::from_str("(ab)*|c"), expedcted)
}

#[test]
fn parse_star_binds_to_last_atom() {
    let expected = R::smart_seqs(R::char('a'), R::star(R::char('b')));
    assert_eq!(R::from_str("ab*"), expected);
}

#[test]
fn parse_group_then_star_after_atoms() {
    let expected = R::seqs(vec![R::char('c'), R::star(R::seqs(vec![R::char('a'), R::char('b')]))]);
    assert_eq!(R::from_str("c(ab)*"), expected);
}

#[test]
fn parse_empty_and_edge_cases() {
    assert_eq!(R::from_str(""), R::Eps);
    assert_eq!(R::from_str("()"), R::Eps);
    assert_eq!(R::from_str("a**"), R::star(R::star(R::char('a'))));
    assert_eq!(R::from_str("*"), R::star(R::Eps));
    assert_eq!(R::from_str("a|"), R::alt(R::char('a'), R::Eps));
}

#[test]
fn parse_alternation_is_lowest() {
    let expected = R::alt(
        R::seqs(vec![R::char('a'), R::char('b')]),
        R::alt(R::char('c'), R::star(R::char('d'))),
    );
    assert_eq!(R::from_str("ab|c|d*"), expected);
}

#[test]
fn parse_nested_groups() {
    let inner = R::alt(R::char('a'), R::char('b'));
    let expected = R::seqs(vec![R::star(inner), R::char('c')]);
    assert_eq!(R::from_str("((a|b))*c"), expected);
}

#[test]
fn constructors_build_variants() {
    assert_eq!(R::eps(), R::Eps);
    assert_eq!(R::char('x'), R::L('x'));
    assert_eq!(R::seqs(vec![]), R::Seqs(vec![]));
    assert_eq!(R::smart_seqs(R::Eps, R::Eps), R::Eps);
    assert_eq!(R::smart_seq(R::Eps, R::Eps), R::Eps);
}

#[test]
fn parse_after_prefix_concatenates() {
    let whole = R::from_str("ab*c");
    let joined = R::smart_seqs(R::from_str("a"), R::from_str("b*c"));
    assert!(whole == joined);
    let whole = R::from_str("a(b|c)*d");
    let joined = R::smart_seqs(R::from_str("a"), R::from_str("(b|c)*d"));
    assert!(whole == joined);
}
