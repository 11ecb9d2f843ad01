//! The incremental parser: legality, rollback, and completion.

use earley::{nt, t, Error, Grammar, PrefixParser};

/// INIT -> INIT INIT | ( INIT ) | ( )
fn parens() -> Grammar {
    let mut grammar = Grammar::new();
    grammar.add_prod("INIT", vec![nt("INIT"), nt("INIT")]);
    grammar.add_prod("INIT", vec![t("("), nt("INIT"), t(")")]);
    grammar.add_prod("INIT", vec![t("("), t(")")]);
    grammar
}

#[test]
fn feeds_balanced_parens() {
    let mut p = PrefixParser::new(parens(), "INIT").unwrap();
    assert!(matches!(p.finish(), Err(Error::Incomplete)));
    assert!(p.try_next("(".to_string()).is_ok());
    assert!(matches!(p.finish(), Err(Error::Incomplete)));
    assert!(p.try_next("(".to_string()).is_ok());
    assert!(p.try_next(")".to_string()).is_ok());
    assert!(matches!(p.finish(), Err(Error::Incomplete)));
    assert!(p.try_next(")".to_string()).is_ok());
    assert!(p.finish().is_ok());
    assert_eq!(p.progress().clone(), vec!["(", "(", ")", ")"]);
}

#[test]
fn rejected_token_leaves_chart_unchanged() {
    let mut p = PrefixParser::new(parens(), "INIT").unwrap();
    assert!(matches!(p.try_next(")".to_string()), Err(Error::UnexpectedToken)));
    assert!(p.progress().is_empty());
    let legal = p.legal_tokens();
    assert!(legal.contains(&"(".to_string()));
    assert!(!legal.contains(&")".to_string()));
    // the parser stays usable for a different attempt
    assert!(p.try_next("(".to_string()).is_ok());
    assert!(p.try_next(")".to_string()).is_ok());
    assert!(p.finish().is_ok());
}

#[test]
fn closing_a_closed_group_is_rejected() {
    let mut p = PrefixParser::new(parens(), "INIT").unwrap();
    assert!(p.try_next("(".to_string()).is_ok());
    assert!(p.try_next(")".to_string()).is_ok());
    let before = p.progress().clone();
    assert!(matches!(p.try_next(")".to_string()), Err(Error::UnexpectedToken)));
    assert_eq!(p.progress().clone(), before);
    let legal = p.legal_tokens();
    assert!(legal.contains(&"(".to_string()));
    assert!(!legal.contains(&")".to_string()));
    assert!(p.finish().is_ok());
}

#[test]
fn legal_tokens_matches_try_next() {
    let mut p = PrefixParser::new(parens(), "INIT").unwrap();
    p.try_next("(".to_string()).unwrap();
    let legal = p.legal_tokens();
    for cand in ["(", ")", "a"] {
        let mut probe_legal = legal.contains(&cand.to_string());
        // the candidate is legal exactly when try_next accepts it
        let ok = p.try_next(cand.to_string()).is_ok();
        assert_eq!(probe_legal, ok);
        if ok {
            // roll the successful probe back by rebuilding
            p = PrefixParser::new(parens(), "INIT").unwrap();
            p.try_next("(".to_string()).unwrap();
            probe_legal = p.legal_tokens().contains(&cand.to_string());
            assert!(probe_legal);
        }
    }
}

#[test]
fn legal_tokens_lists_each_value_once() {
    let mut p = PrefixParser::new(parens(), "INIT").unwrap();
    p.try_next("(".to_string()).unwrap();
    let legal = p.legal_tokens();
    for (i, a) in legal.iter().enumerate() {
        for (j, b) in legal.iter().enumerate() {
            if i != j {
                assert_ne!(a, b);
            }
        }
    }
}

#[test]
fn prefix_unknown_initial() {
    assert!(matches!(
        PrefixParser::new(parens(), "NOPE"),
        Err(Error::UnknownInitial)
    ));
}
