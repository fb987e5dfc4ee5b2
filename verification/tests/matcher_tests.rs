use nfa_grep::matcher::Matcher;

#[test]
fn test_epsilon() {
    let matcher = Matcher::Epsilon;
    assert!(matcher.is_epsilon());
    assert!(matcher.matches('a'));
    assert!(matcher.matches('1'));
    assert!(matcher.matches(' '));
}

#[test]
fn test_simple_matcher() {
    let matcher = Matcher::create_simple_matcher(&'a');
    assert!(!matcher.is_epsilon());
    assert!(matcher.matches('a'));
    assert!(!matcher.matches('b'));
    assert!(!matcher.matches('1'));
}

#[test]
fn test_alphanumeric() {
    let matcher = Matcher::create_complex_matcher('w'.to_string().as_str()).unwrap();
    assert!(!matcher.is_epsilon());
    assert!(matcher.matches('a'));
    assert!(matcher.matches('Z'));
    assert!(matcher.matches('1'));
    assert!(matcher.matches('_'));
    assert!(!matcher.matches(' '));
}

#[test]
fn test_digit() {
    let matcher = Matcher::create_complex_matcher('d'.to_string().as_str()).unwrap();
    assert!(!matcher.is_epsilon());
    assert!(matcher.matches('0'));
    assert!(matcher.matches('9'));
    assert!(!matcher.matches('a'));
    assert!(!matcher.matches(' '));
}

#[test]
fn test_character_class() {
    let matcher = Matcher::create_complex_matcher("[a-zA-Z0-9_]".to_string().as_str()).unwrap();
    assert!(!matcher.is_epsilon());
    assert!(matcher.matches('a'));
    assert!(matcher.matches('Z'));
    assert!(matcher.matches('1'));
    assert!(matcher.matches('_'));
    assert!(!matcher.matches(' '));
}

#[test]
fn matcher_test_negated_charclass() {
    let matcher = Matcher::create_complex_matcher("[^a-zA-Z0-9_]".to_string().as_str()).unwrap();
    assert!(!matcher.is_epsilon());
    assert!(!matcher.matches('a'));
    assert!(!matcher.matches('Z'));
    assert!(!matcher.matches('c'));
    assert!(!matcher.matches('1'));
    assert!(!matcher.matches('5'));
    assert!(!matcher.matches('_'));
    assert!(matcher.matches(' '));
}

#[test]
fn test_underscore() {
    let matcher = Matcher::create_simple_matcher(&'_');
    assert!(!matcher.is_epsilon());
    assert!(matcher.matches('_'));
    assert!(!matcher.matches('a'));
    assert!(!matcher.matches(' '));

    let matcher = Matcher::create_complex_matcher("[^_]".to_string().as_str()).unwrap();
    assert!(!matcher.is_epsilon());
    assert!(!matcher.matches('_'));
    assert!(matcher.matches('a'));
    assert!(matcher.matches(' '));
}

#[test]
fn test_character_group() {
    let matcher = Matcher::create_complex_matcher("[abz]".to_string().as_str()).unwrap();
    assert!(!matcher.is_epsilon());
    assert!(matcher.matches('a'));
    assert!(matcher.matches('b'));
    assert!(!matcher.matches('A'));
    assert!(!matcher.matches('1'));
}

#[test]
fn test_negated_character_group() {
    let matcher = Matcher::create_complex_matcher("[^abz]".to_string().as_str()).unwrap();
    assert!(!matcher.is_epsilon());
    assert!(!matcher.matches('a'));
    assert!(!matcher.matches('b'));
    assert!(matcher.matches('A'));
    assert!(matcher.matches('1'));
}

#[test]
fn test_dot_matcher() {
    let matcher = Matcher::create_complex_matcher(".".to_string().as_str()).unwrap();
    assert!(!matcher.is_epsilon());
    assert!(matcher.matches('a'));
    assert!(matcher.matches('1'));
    assert!(matcher.matches(' '));
    assert!(!matcher.matches('\n'));
    assert!(!matcher.matches('\r'));
}
