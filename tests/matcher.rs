use nfa_regex::nfa::{Trans, NFA};
use nfa_regex::regex::Regex;

fn test(regex: &str, input: &str) -> bool {
    let token = Regex::new(regex);
    let mut nfa = NFA::new();
    nfa.regex_to_nfa(token);
    nfa.matches(input)
}

#[test]
fn test_concat_succ() {
    assert!(test("abc", "abc"));
    assert!(test("", ""));
    assert!(test("Thisshouldmatch", "Thisshouldmatch"));
}

#[test]
fn test_concat_fail() {
    assert!(!test("abc", "abd"));
    assert!(!test("abc", "abd"));
    assert!(!test("abc", "abcc"));
    assert!(!test("abc", "notabc"));
    assert!(!test("abc", ""));
}

#[test]
fn test_union_succ() {
    assert!(test("(a|b)", "a"));
    assert!(test("(a|b|c|d)", "a"));
    assert!(test("(a|b|c|d)", "b"));
    assert!(test("(a|b|c|d)", "d"));
    assert!(test("(a|b|c|d)", "c"));
    assert!(test("(a|b)", "b"));
    assert!(test("(a|b)b", "bb"));
    assert!(test("(a|b)a", "ba"));
}

#[test]
fn test_union_fail() {
    assert!(!test("(a|b)", "x"));
    assert!(!test("(a|b)", "ax"));
}

#[test]
fn test_star_empty_input() {
    assert!(test("", ""));
    assert!(test("a*", ""));
    assert!(test("b*", ""));
    assert!(test("(a|b)*", ""));
}

#[test]
fn test_star_succ() {
    assert!(!test("(0)*1(0)*", "000000000100000"));
    assert!(!test("(a)*abc(a)*", "aaaaaaabcaaaaaa"));
    assert!(test("a*b", "b"));
    assert!(test("a*bcd", "aaaaaabcd"));
}

#[test]
fn test_star_fail() {
    assert!(!test("a*b", "aabbbb"));
    assert!(!test("1*0", "20"));
    assert!(!test("(0)*1(0)*", "101100000"));
}

#[test]
fn test_complex_succ() {
    assert!(test("(a|b|c)*", "abababababcbcba"));
    assert!(test("(a|b)*cc", "aaabababaabacc"));
}

fn compile(pattern: &str) -> NFA {
    NFA::compile(Regex::new(pattern))
}

#[test]
fn literal_round_trip() {
    for s in ["a", "abc", "Hello42", "x9y8z7"] {
        let nfa = compile(s);
        assert!(nfa.matches(s));
        let longer = format!("{}x", s);
        assert!(!nfa.matches(&longer));
    }
}

#[test]
fn union_accepts_either_side() {
    let nfa = compile("(a|b)");
    assert!(nfa.matches("a"));
    assert!(nfa.matches("b"));
    assert!(!nfa.matches("c"));
}

#[test]
fn star_zero_or_more() {
    let nfa = compile("a*");
    assert!(nfa.matches(""));
    assert!(nfa.matches("aaaa"));
    assert!(!nfa.matches("aaab"));
}

#[test]
fn plus_one_or_more() {
    let nfa = compile("a+");
    assert!(!nfa.matches(""));
    assert!(nfa.matches("a"));
    assert!(nfa.matches("aaa"));
}

#[test]
fn empty_pattern_accepts_only_empty_input() {
    assert_eq!(Regex::new(""), Regex::Empty);
    let nfa = NFA::compile(Regex::Empty);
    assert!(nfa.matches(""));
    assert!(!nfa.matches("a"));
    assert!(!nfa.matches("  "));
}

#[test]
fn repeated_unions_without_blow_up() {
    let pattern = format!("{}b", "(a|a)*".repeat(20));
    let input = "a".repeat(200);
    let nfa = compile(&pattern);
    assert!(!nfa.matches(&input));
    assert!(nfa.matches(&format!("{}b", input)));
}

#[test]
fn two_compilations_agree() {
    let first = compile("(a|b)*c+");
    let second = compile("(a|b)*c+");
    for input in ["", "c", "abc", "abcc", "ab", "cab", "bbbbc"] {
        assert_eq!(first.matches(input), second.matches(input));
    }
}

#[test]
fn repeated_matches_agree() {
    let nfa = compile("(a|b)*cc");
    for input in ["aaabababaabacc", "acc", "ac", ""] {
        assert_eq!(nfa.matches(input), nfa.matches(input));
    }
}

#[test]
fn wildcard_matches_any_one_character() {
    let nfa = compile("a.c");
    assert!(nfa.matches("abc"));
    assert!(nfa.matches("a-c"));
    assert!(!nfa.matches("ac"));
    assert!(!nfa.matches("abbc"));
}

#[test]
fn star_binds_to_accumulated_expression() {
    let nfa = compile("ab*");
    assert!(nfa.matches("abab"));
    assert!(nfa.matches(""));
    assert!(!nfa.matches("abb"));
}

#[test]
fn group_closes_before_star() {
    let nfa = compile("(0)*1(0)*");
    assert!(nfa.matches("0010"));
    assert!(nfa.matches("100010"));
    assert!(nfa.matches(""));
    assert!(!nfa.matches("01"));
    let nfa = compile("x(a|b)");
    assert!(nfa.matches("xa"));
    assert!(!nfa.matches("a"));
}

#[test]
fn plus_on_group_then_symbol() {
    let nfa = compile("(a|b)+c");
    assert!(nfa.matches("abbac"));
    assert!(!nfa.matches("c"));
}

#[test]
fn automaton_without_states_accepts_nothing() {
    let nfa = NFA::new();
    assert!(!nfa.matches(""));
    assert!(!nfa.matches("a"));
}

#[test]
fn size_counts_thompson_states() {
    assert_eq!(NFA::size_for(&Regex::new("ab")), Some(5));
    assert_eq!(NFA::size_for(&Regex::new("")), Some(1));
    assert_eq!(NFA::size_for(&Regex::new("(a|b)")), Some(6));
    assert_eq!(NFA::size_for(&Regex::new("a*")), Some(6));
}

#[test]
fn manual_construction() {
    let mut nfa = NFA::new();
    let first = nfa.add_state();
    let second = nfa.add_state();
    assert_eq!((first, second), (0, 1));
    nfa.add_transition(first, second, Trans::Epsilon);
    let (entry, exit) = nfa.regex_to_nfa_helper(Regex::new("x"));
    assert_eq!((entry, exit), (2, 3));
    nfa.add_transition(second, entry, Trans::Epsilon);
    nfa.regex_to_nfa(Regex::Empty);
    nfa.add_transition(exit, 4, Trans::Epsilon);
    assert!(nfa.matches("x"));
    assert!(!nfa.matches(""));
    assert!(!nfa.matches("xx"));
}

#[test]
fn run_parses_compiles_and_matches() {
    assert_eq!(nfa_regex::run("(a|b)*cc", "abcc"), Some(true));
    assert_eq!(nfa_regex::run("(a|b)*cc", "abc"), Some(false));
    assert_eq!(nfa_regex::run("", ""), Some(true));
    assert_eq!(nfa_regex::run("a+", ""), Some(false));
}

#[test]
fn cloned_automaton_is_equal_and_matches_alike() {
    let nfa = compile("(a|b)*c");
    let copy = nfa.clone();
    assert_eq!(copy, nfa);
    assert!(copy.matches("abc"));
    assert!(!copy.matches("ab"));
}
