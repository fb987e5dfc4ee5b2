use nfa_grep::error::CompileError;
use nfa_grep::nfa_regex::{match_pattern, RegexNFA};

fn compiles(pattern: &str) -> RegexNFA {
    RegexNFA::new(pattern.to_string()).unwrap()
}

fn compile_err(pattern: &str) -> CompileError {
    RegexNFA::new(pattern.to_string()).unwrap_err()
}

#[test]
fn test_plain_substring() {
    let re = compiles("ell");
    assert!(re.matches("hello"));
    assert!(re.matches("ell"));
    assert!(re.matches("bellow"));
    assert!(!re.matches("elk"));
    assert!(!re.matches(""));
    assert!(!re.matches("lle"));
}

#[test]
fn test_start_anchor_scenarios() {
    assert!(compiles("^a").matches("abc"));
    assert!(!compiles("^a").matches("bca"));
}

#[test]
fn test_end_anchor_scenarios() {
    assert!(compiles("a$").matches("ba"));
    assert!(!compiles("a$").matches("ab"));
}

#[test]
fn test_quantifier_scenarios() {
    assert!(compiles("a*").matches(""));
    assert!(!compiles("a+").matches(""));
    assert!(compiles("a?").matches("b"));
}

#[test]
fn test_group_star_scenario() {
    let re = compiles("a(b|c)*d");
    assert!(re.matches("abccbd"));
    assert!(!re.matches("ae"));
    assert!(re.matches("ad"));
    assert!(re.matches("xacdy"));
}

#[test]
fn test_class_scenarios() {
    assert!(compiles("[^abc]").matches("xyz"));
    assert!(!compiles("[^abc]").matches("a"));
    assert!(compiles("[a-z]+").matches("Hello"));
    assert!(!compiles("[a-z]+").matches("HELLO"));
}

#[test]
fn test_deterministic_compile() {
    let first = compiles("a(b|c)*d$");
    let second = compiles("a(b|c)*d$");
    for line in ["abccbd", "ae", "", "ad", "xabdy", "abd"] {
        assert_eq!(first.matches(line), second.matches(line));
    }
}

#[test]
fn test_escape_classes() {
    let digits = compiles("\\d");
    assert!(digits.matches("abc123"));
    assert!(!digits.matches("abc"));
    let word = compiles("\\w+");
    assert!(word.matches("  x_9  "));
    assert!(!word.matches("  ! "));
    let literal_dot = compiles("\\.");
    assert!(literal_dot.matches("."));
    assert!(!literal_dot.matches("a"));
}

#[test]
fn test_dot_class() {
    let re = compiles("a.c");
    assert!(re.matches("abc"));
    assert!(re.matches("a-c"));
    assert!(!re.matches("ac"));
}

#[test]
fn test_greedy_star_consumes() {
    // the greedy star takes the longest run before the end anchor
    assert!(compiles("a*$").matches("aa"));
    assert!(compiles("ab*$").matches("abb"));
    // `a?*` fuses in postfix to the lazy star, which offers the empty
    // match first; the end anchor then rejects the line
    assert!(!compiles("a?*$").matches("aa"));
    assert!(compiles("a?*$").matches(""));
    // `a*?` rewrites in postfix to a greedy star of `a?`, so it still
    // consumes the whole run
    assert!(compiles("a*?$").matches("aa"));
}

#[test]
fn test_lazy_quantifiers() {
    // a double question mark fuses into the lazy zero-or-one form
    assert!(compiles("a??").matches(""));
    assert!(compiles("a??").matches("b"));
    assert!(compiles("a??b").matches("ab"));
    assert!(!compiles("a??b").matches("ac"));
    // `a+?` rewrites to postfix `a?+`, so the quantifiers stay greedy
    assert!(compiles("a+?").matches("aaa"));
    assert!(compiles("a+?").matches("b"));
    assert!(compiles("a*?b").matches("aab"));
}

#[test]
fn test_anchor_at_wrong_end() {
    // an anchor is pulled to the matching end of the postfix stream
    let re = compiles("ab^");
    assert!(re.matches("ab"));
    assert!(!re.matches("cab"));
    let re = compiles("$ab");
    assert!(re.matches("cab"));
    assert!(!re.matches("abc"));
}

#[test]
fn test_full_anchored_pattern() {
    let re = compiles("^a+$");
    assert!(re.matches("aaa"));
    assert!(!re.matches("aab"));
    assert!(!re.matches(""));
}

#[test]
fn test_class_dash_literal() {
    let re = compiles("[a-]");
    assert!(re.matches("a"));
    assert!(re.matches("x-y"));
    assert!(!re.matches("b"));
}

#[test]
fn test_class_multiple_ranges() {
    let re = compiles("[a-cx-z]");
    assert!(re.matches("b"));
    assert!(re.matches("y"));
    assert!(!re.matches("m"));
}

#[test]
fn test_error_unterminated_class() {
    assert!(matches!(compile_err("[abc"), CompileError::UnterminatedClass));
}

#[test]
fn test_error_empty_class() {
    assert!(matches!(compile_err("[]"), CompileError::EmptyClass));
    assert!(matches!(compile_err("[^]"), CompileError::EmptyClass));
}

#[test]
fn test_error_trailing_escape() {
    assert!(matches!(compile_err("ab\\"), CompileError::TrailingEscape));
}

#[test]
fn test_error_unmatched_bracket() {
    assert!(matches!(compile_err("a]"), CompileError::UnmatchedBracket));
    assert!(matches!(compile_err("a)b"), CompileError::UnmatchedBracket));
    assert!(matches!(compile_err("(ab"), CompileError::UnmatchedBracket));
    assert!(matches!(compile_err("a(b(c)"), CompileError::UnmatchedBracket));
}

#[test]
fn test_error_invalid_range() {
    assert!(matches!(compile_err("[z-a]"), CompileError::InvalidRange('z', 'a')));
}

#[test]
fn test_error_unsupported_class() {
    assert!(matches!(compile_err("\\s"), CompileError::UnsupportedClass));
}

#[test]
fn test_error_internal_on_malformed() {
    // an empty pattern leaves the builder with no engine at all
    assert!(matches!(compile_err(""), CompileError::Internal));
    // an operator with no operand underflows the builder's stack
    assert!(matches!(compile_err("|a"), CompileError::Internal));
}

#[test]
fn test_error_messages() {
    assert_eq!(
        CompileError::UnterminatedClass.message(),
        "unterminated character class"
    );
    assert_eq!(CompileError::EmptyClass.message(), "empty character class");
    assert_eq!(
        CompileError::InvalidRange('z', 'a').message(),
        "invalid descending range in character class"
    );
}

#[test]
fn test_match_pattern_roundtrip() {
    assert_eq!(match_pattern("hello", "ell"), Ok(true));
    assert_eq!(match_pattern("help", "ell"), Ok(false));
    assert!(match_pattern("anything", "[").is_err());
}

#[test]
fn test_empty_line_cases() {
    assert!(compiles("a*").matches(""));
    assert!(compiles("a?").matches(""));
    assert!(!compiles("a").matches(""));
    assert!(!compiles("^a$").matches(""));
}
