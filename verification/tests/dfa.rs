use derex::dfa::DFA;
use derex::regex::R;

#[test]
fn test_correct_match() {
    let r = R::from_str("ab*");
    let m = DFA::new(&r);
    assert!(m.matches("abbb"))
}

#[test]
fn test_incorrect_match() {
    let r = R::from_str("ab*");
    let m = DFA::new(&r);
    assert!(!m.matches("abba"))
}

#[test]
fn dfa_agrees_with_matcher() {
    let patterns = ["ab*", "(ab)*|c", "a*bb*a", "(a|b)*abb", "", "()", "a**", "(ab|b)*a"];
    let words = ["", "a", "b", "ab", "abb", "abbb", "abba", "abab", "c", "aabb", "babb", "abbbba", "ba", "bbaba"];
    for p in patterns.iter() {
        let r = R::from_str(p);
        let m = DFA::new(&r);
        for w in words.iter() {
            assert_eq!(m.matches(w), derex::derivatives::matcher(w, &r), "pattern {} word {}", p, w);
        }
    }
}

#[test]
fn dfa_rejects_foreign_character() {
    let m = DFA::new(&R::from_str("a*"));
    assert!(m.matches("aaa"));
    assert!(!m.matches("aza"));
}

#[test]
fn dfa_empty_pattern() {
    let m = DFA::new(&R::from_str(""));
    assert!(m.matches(""));
    assert!(!m.matches("a"));
}
