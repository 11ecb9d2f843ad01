//! End-to-end batch parsing over the sample grammars.

use earley::{nt, t, Error, Grammar, Parser};

/// P -> S ; S -> S + M | M ; M -> M * T | T ; T -> 1 | 2 | 3 | 4
fn factored_arith() -> Grammar {
    let mut grammar = Grammar::new();
    grammar.add_prod("P", vec![nt("S")]);
    grammar.add_prod("S", vec![nt("S"), t("+"), nt("M")]);
    grammar.add_prod("S", vec![nt("M")]);
    grammar.add_prod("M", vec![nt("M"), t("*"), nt("T")]);
    grammar.add_prod("M", vec![nt("T")]);
    grammar.add_prod("T", vec![t("1")]);
    grammar.add_prod("T", vec![t("2")]);
    grammar.add_prod("T", vec![t("3")]);
    grammar.add_prod("T", vec![t("4")]);
    grammar
}

/// INIT -> a INIT a | b INIT b | (empty)
fn improper_rev() -> Grammar {
    let mut grammar = Grammar::new();
    grammar.add_prod("INIT", vec![t("a"), nt("INIT"), t("a")]);
    grammar.add_prod("INIT", vec![t("b"), nt("INIT"), t("b")]);
    grammar.add_prod("INIT", vec![]);
    grammar
}

/// INIT -> a INIT a | b INIT b | a | b | (empty)
fn palindrome() -> Grammar {
    let mut grammar = Grammar::new();
    grammar.add_prod("INIT", vec![t("a"), nt("INIT"), t("a")]);
    grammar.add_prod("INIT", vec![t("b"), nt("INIT"), t("b")]);
    grammar.add_prod("INIT", vec![t("b")]);
    grammar.add_prod("INIT", vec![t("a")]);
    grammar.add_prod("INIT", vec![]);
    grammar
}

/// INIT -> INIT INIT | ( INIT ) | ( )
fn well_formed_parentheses() -> Grammar {
    let mut grammar = Grammar::new();
    grammar.add_prod("INIT", vec![nt("INIT"), nt("INIT")]);
    grammar.add_prod("INIT", vec![t("("), nt("INIT"), t(")")]);
    grammar.add_prod("INIT", vec![t("("), t(")")]);
    grammar
}

fn input(x: &str) -> Vec<String> {
    x.chars().filter(|c| !c.is_whitespace()).map(|c| c.to_string()).collect()
}

fn accepts(grammar: Grammar, text: &str, initial: &str) -> bool {
    let parser = Parser::new(input(text), grammar, initial).expect("grammar must be sound");
    parser.parse().is_ok()
}

#[test]
fn factored_arith1() {
    assert!(accepts(factored_arith(), "2 + 3 * 4", "P"));
}

#[test]
fn factored_arith2() {
    let parser = Parser::new(input("2 + * 4"), factored_arith(), "P").unwrap();
    let result = parser.parse();
    assert!(matches!(result, Err(Error::ParseFailed)));
}

#[test]
fn factored_arith3() {
    assert!(accepts(factored_arith(), "1 + 2 + 3 + 4 * 3 * 2 * 1 + 1", "P"));
}

#[test]
fn improper_rev_empty() {
    assert!(accepts(improper_rev(), "", "INIT"));
}

#[test]
fn improper_rev_easy() {
    assert!(accepts(improper_rev(), "aabbaa", "INIT"));
}

#[test]
fn improper_rev_easy_fail() {
    assert!(!accepts(improper_rev(), "aabaa", "INIT"));
}

#[test]
fn palindrome_empty() {
    assert!(accepts(palindrome(), "", "INIT"));
}

#[test]
fn palindrome_easy() {
    assert!(accepts(palindrome(), "aabbaa", "INIT"));
}

#[test]
fn palindrome_not_rev_concat() {
    assert!(accepts(palindrome(), "aabaa", "INIT"));
}

#[test]
fn palindrome_easy_fail() {
    assert!(!accepts(palindrome(), "abaa", "INIT"));
}

#[test]
fn palindrome_easy_fail2() {
    assert!(!accepts(palindrome(), "ab", "INIT"));
}

#[test]
fn well_formed_parentheses1() {
    assert!(accepts(well_formed_parentheses(), "()", "INIT"));
}

#[test]
fn well_formed_parentheses2() {
    assert!(accepts(well_formed_parentheses(), "(((((())))))", "INIT"));
}

#[test]
fn well_formed_parentheses_fail2() {
    assert!(!accepts(well_formed_parentheses(), "((((())))", "INIT"));
}

#[test]
fn unknown_initial_is_fatal() {
    let result = Parser::new(input("ab"), palindrome(), "MISSING");
    assert!(matches!(result, Err(Error::UnknownInitial)));
}

#[test]
fn unknown_nonterminal_is_fatal() {
    let mut grammar = Grammar::new();
    grammar.add_prod("S", vec![t("x"), nt("GHOST")]);
    let parser = Parser::new(input("x x"), grammar, "S").unwrap();
    let result = parser.parse();
    assert!(matches!(result, Err(Error::UnknownNonterminal)));
}

#[test]
fn parse_info_keeps_input() {
    let parser = Parser::new(input("()"), well_formed_parentheses(), "INIT").unwrap();
    let info = parser.parse().unwrap();
    assert_eq!(info.input().clone(), vec!["(".to_string(), ")".to_string()]);
    assert_eq!(info.initial().as_str(), "INIT");
}

#[test]
fn error_descriptions_are_distinct() {
    let all = [
        Error::UnknownInitial,
        Error::UnknownNonterminal,
        Error::UnexpectedToken,
        Error::Incomplete,
        Error::ParseFailed,
    ];
    for (i, a) in all.iter().enumerate() {
        assert!(!a.describe().is_empty());
        for (j, b) in all.iter().enumerate() {
            if i != j {
                assert_ne!(a.describe(), b.describe());
            }
        }
    }
}
