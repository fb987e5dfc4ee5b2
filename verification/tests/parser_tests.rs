use nfa_grep::parser::{postfix_generator, Token};

fn to_string(tokens: Vec<Token>) -> String {
    let mut s = String::new();
    for token in tokens {
        match token {
            Token::Plus => s.push('+'),
            Token::Star => s.push('*'),
            Token::Question => s.push('?'),
            Token::Literal(c) => s.push(c),
            Token::EndRef => s.push('$'),
            Token::StartRef => s.push('^'),
            Token::ComplexLiteral(t) => s.push_str(&t),
            Token::LBracket => s.push('('),
            Token::RBracket => s.push(')'),
            Token::Concat => s.push('.'),
            Token::Or => s.push('|'),
        }
    }
    s
}

fn to_postfix(input: &str) -> String {
    let tokens = postfix_generator(input).unwrap();
    to_string(tokens)
}

#[test]
fn test_single_literal() {
    assert_eq!(to_postfix("a"), "a");
}

#[test]
fn test_simple_concat() {
    assert_eq!(to_postfix("ab"), "ab.");
}

#[test]
fn test_union() {
    assert_eq!(to_postfix("a|b"), "ab|");
}

#[test]
fn test_kleene_star() {
    assert_eq!(to_postfix("a*"), "a*");
}

#[test]
fn test_plus() {
    assert_eq!(to_postfix("a+"), "a+");
}

#[test]
fn test_question() {
    assert_eq!(to_postfix("a?"), "a?");
}

#[test]
fn test_concat_and_star() {
    assert_eq!(to_postfix("ab*"), "ab*.");
}

#[test]
fn test_star_and_concat() {
    assert_eq!(to_postfix("a*b"), "a*b.");
}

#[test]
fn test_union_and_concat() {
    assert_eq!(to_postfix("ab|c"), "ab.c|");
}

#[test]
fn test_parens_simple() {
    assert_eq!(to_postfix("(ab)c"), "ab.c.");
}

#[test]
fn test_parens_and_union() {
    assert_eq!(to_postfix("(a|b)c"), "ab|c.");
}

#[test]
fn test_nested_parens() {
    assert_eq!(to_postfix("a(b(c|d))"), "abcd|..");
}

#[test]
fn test_union_with_kleene() {
    assert_eq!(to_postfix("a*|b"), "a*b|");
}

#[test]
fn test_complex() {
    assert_eq!(to_postfix("a(b|c)*d"), "abc|*d..");
}

#[test]
fn test_question_and_union() {
    assert_eq!(to_postfix("a?|b"), "a?b|");
}

#[test]
fn test_plus_and_question() {
    assert_eq!(to_postfix("a+?"), "a?+");
}

#[test]
fn test_range_charclass() {
    assert_eq!(to_postfix("[abc]d"), "[abc]d.");
}

#[test]
fn parser_test_negated_charclass() {
    assert_eq!(to_postfix("[^abc]x"), "[^abc]x.");
}
