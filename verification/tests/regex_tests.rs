use nfa_grep::nfa_regex::RegexNFA;

#[test]
fn test_single_character_match() {
    let pattern = "a".to_string();
    let regex_nfa = RegexNFA::new(pattern).unwrap();
    assert_eq!(regex_nfa.pattern(), "a");
    assert!(regex_nfa.matches("aaab"));
    assert!(regex_nfa.matches("ab"));
    assert!(regex_nfa.matches("bba"));
}

#[test]
fn test_concat_match() {
    let pattern = "ab".to_string();
    let regex_nfa = RegexNFA::new(pattern).unwrap();
    assert_eq!(regex_nfa.pattern(), "ab");
    assert!(!regex_nfa.matches("aaac"));
    assert!(regex_nfa.matches("cab"));
    assert!(regex_nfa.matches("ab"));
    assert!(!regex_nfa.matches("bba"));
}

#[test]
fn test_union_match() {
    let pattern = "a|b".to_string();
    let regex_nfa = RegexNFA::new(pattern).unwrap();
    assert_eq!(regex_nfa.pattern(), "a|b");
    assert!(regex_nfa.matches("a"));
    assert!(regex_nfa.matches("b"));
    assert!(!regex_nfa.matches("c"));
    assert!(regex_nfa.matches("cccccab"));
}

#[test]
fn test_plus_match() {
    let pattern = "a+".to_string();
    let regex_nfa = RegexNFA::new(pattern).unwrap();
    assert_eq!(regex_nfa.pattern(), "a+");
    assert!(regex_nfa.matches("aaaa"));
    assert!(!regex_nfa.matches(""));
    assert!(!regex_nfa.matches("b"));
    assert!(regex_nfa.matches("bbaaa"));
}

#[test]
fn test_question_match() {
    let pattern = "a?".to_string();
    let regex_nfa = RegexNFA::new(pattern).unwrap();
    assert_eq!(regex_nfa.pattern(), "a?");
    assert!(regex_nfa.matches("a"));
    assert!(regex_nfa.matches(""));
    assert!(regex_nfa.matches("b"));
    assert!(regex_nfa.matches("bba"));
}

#[test]
fn test_star_match() {
    let pattern = "a*".to_string();
    let regex_nfa = RegexNFA::new(pattern).unwrap();
    assert_eq!(regex_nfa.pattern(), "a*");
    assert!(regex_nfa.matches("aaaa"));
    assert!(regex_nfa.matches(""));
    assert!(regex_nfa.matches("b"));
    assert!(regex_nfa.matches("bbaaa"));
}

#[test]
fn test_start_ref_match() {
    let pattern = "^a".to_string();
    let regex_nfa = RegexNFA::new(pattern).unwrap();
    assert_eq!(regex_nfa.pattern(), "^a");
    assert!(regex_nfa.matches("abc"));
    assert!(!regex_nfa.matches("bca"));
    assert!(!regex_nfa.matches("cba"));
}

#[test]
fn test_end_ref_match() {
    let pattern = "a$".to_string();
    let regex_nfa = RegexNFA::new(pattern).unwrap();
    assert_eq!(regex_nfa.pattern(), "a$");
    assert!(regex_nfa.matches("ba"));
    assert!(!regex_nfa.matches("ab"));
    assert!(regex_nfa.matches("cba"));
}
