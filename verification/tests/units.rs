//! The small value types: tokens, items, spans, provenance, grammars.

use earley::{nt, t, Grammar, InsertedBy, Item, Span, Table, Token};

#[test]
fn token_constructors_and_accessors() {
    let a = t("x");
    let b = nt("S");
    assert!(matches!(&a, Token::Term(v) if v == "x"));
    assert!(matches!(&b, Token::NonTerm(v) if v == "S"));
    assert_eq!(a.term().as_str(), "x");
    assert_eq!(b.nonterm().as_str(), "S");
    assert!(a.same(&t("x")));
    assert!(!a.same(&t("y")));
    assert!(!a.same(&nt("x")));
    assert!(a.duplicate().same(&a));
}

#[test]
fn item_advancement_moves_the_dot() {
    let item = Item::init(
        "S".to_string(),
        vec![t("a"), nt("S"), t("b")],
        Span { start: 0, end: 0 },
    );
    assert!(!item.is_complete());
    assert!(item.before().is_empty());
    assert_eq!(item.after().len(), 3);
    assert!(item.next_symbol().unwrap().same(&t("a")));
    let step1 = item.advanced(1);
    assert_eq!(step1.before().len(), 1);
    assert_eq!(step1.after().len(), 2);
    assert!(step1.next_symbol().unwrap().same(&nt("S")));
    let step3 = step1.advanced(3).advanced(4);
    assert!(step3.is_complete());
    assert!(step3.next_symbol().is_none());
    assert_eq!(step3.range(), Span { start: 0, end: 4 });
    assert!(!item.same(&step1));
    assert!(item.same(&item.duplicate()));
}

#[test]
fn provenance_ranges_come_back_out() {
    let scan = InsertedBy::Scan(Span { start: 1, end: 2 });
    assert_eq!(scan.scan_range(), Span { start: 1, end: 2 });
    let comp = InsertedBy::Comp(Span { start: 0, end: 1 }, Span { start: 1, end: 3 });
    assert_eq!(comp.comp_range(), (Span { start: 0, end: 1 }, Span { start: 1, end: 3 }));
}

#[test]
fn grammar_keeps_duplicate_productions() {
    let mut grammar = Grammar::new();
    grammar.add_prod("S", vec![t("a")]);
    grammar.add_prod("S", vec![t("a")]);
    assert_eq!(grammar.len(), 2);
    assert!(grammar.contains_key("S"));
    assert!(!grammar.contains_key("T"));
    let empty = Grammar::default();
    assert_eq!(empty.len(), 0);
}

#[test]
fn chart_columns_grow_one_per_token() {
    let mut grammar = Grammar::new();
    grammar.add_prod("S", vec![t("a"), t("b")]);
    let mut table = Table::new(grammar, "S").unwrap();
    assert_eq!(table.column_count(), 1);
    assert!(!table.accepted());
    assert!(table.can_scan(&"a".to_string()));
    assert!(!table.can_scan(&"b".to_string()));
    table.next(&"a".to_string()).unwrap();
    assert_eq!(table.column_count(), 2);
    assert!(!table.accepted());
    table.next(&"b".to_string()).unwrap();
    assert_eq!(table.column_count(), 3);
    assert!(table.accepted());
    assert_eq!(table.initial().as_str(), "S");
}

#[test]
fn dead_scan_leaves_an_empty_frontier() {
    let mut grammar = Grammar::new();
    grammar.add_prod("S", vec![t("a")]);
    let mut table = Table::new(grammar, "S").unwrap();
    // advancing over a terminal nothing expects is not an error: the
    // frontier merely becomes empty and acceptance never comes
    table.next(&"z".to_string()).unwrap();
    assert_eq!(table.column_count(), 2);
    assert_eq!(table.col_len(1), 0);
    assert!(!table.accepted());
}

#[test]
fn column_zero_is_the_predict_closure_of_the_seeds() {
    // S -> T u ; T -> v : column 0 predicts both rules at range [0, 0]
    let mut grammar = Grammar::new();
    grammar.add_prod("S", vec![nt("T"), t("u")]);
    grammar.add_prod("T", vec![t("v")]);
    let table = Table::new(grammar, "S").unwrap();
    assert_eq!(table.column_count(), 1);
    assert_eq!(table.col_len(0), 2);
    let seed = table.entry_at(0, 0);
    assert_eq!(seed.item.name, "S");
    assert_eq!(seed.item.dot, 0);
    assert_eq!(seed.item.range(), Span { start: 0, end: 0 });
    assert_eq!(seed.by, InsertedBy::Pred);
    let predicted = table.entry_at(0, 1);
    assert_eq!(predicted.item.name, "T");
    assert_eq!(predicted.item.dot, 0);
    assert_eq!(predicted.item.range(), Span { start: 0, end: 0 });
    assert_eq!(predicted.by, InsertedBy::Pred);
}

#[test]
fn every_item_ends_at_its_column() {
    let mut grammar = Grammar::new();
    grammar.add_prod("S", vec![nt("S"), nt("S")]);
    grammar.add_prod("S", vec![t("("), nt("S"), t(")")]);
    grammar.add_prod("S", vec![t("("), t(")")]);
    let mut table = Table::new(grammar, "S").unwrap();
    for ch in ["(", "(", ")", ")"] {
        table.next(&ch.to_string()).unwrap();
    }
    for c in 0..table.column_count() {
        for k in 0..table.col_len(c) {
            let item = &table.entry_at(c, k).item;
            assert_eq!(item.end, c);
            assert!(item.start <= item.end);
            assert!(item.dot <= item.exp.len());
        }
    }
}

#[test]
fn empty_dotted_item_only_for_empty_expansion() {
    let mut grammar = Grammar::new();
    grammar.add_prod("INIT", vec![t("a"), nt("INIT"), t("a")]);
    grammar.add_prod("INIT", vec![]);
    let mut table = Table::new(grammar, "INIT").unwrap();
    table.next(&"a".to_string()).unwrap();
    for c in 0..table.column_count() {
        for k in 0..table.col_len(c) {
            let item = &table.entry_at(c, k).item;
            if item.before().is_empty() && item.after().is_empty() {
                assert!(item.exp.is_empty());
            }
        }
    }
}

#[test]
fn epsilon_items_complete_within_their_own_column() {
    // after scanning one a, the predicted empty production must complete at
    // once, so the dot of INIT -> a . INIT a can advance in the same column
    let mut grammar = Grammar::new();
    grammar.add_prod("INIT", vec![t("a"), nt("INIT"), t("a")]);
    grammar.add_prod("INIT", vec![]);
    let mut table = Table::new(grammar, "INIT").unwrap();
    table.next(&"a".to_string()).unwrap();
    let mut advanced_over_empty = false;
    for k in 0..table.col_len(1) {
        let item = &table.entry_at(1, k).item;
        if item.name == "INIT" && item.dot == 2 && item.exp.len() == 3 {
            advanced_over_empty = true;
        }
    }
    assert!(advanced_over_empty);
}
