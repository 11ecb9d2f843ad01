//! Reconstruction: proof trees and parse trees from accepting charts.

use earley::{nt, t, FullParseTree, Grammar, ParseTree, Parser, ProofTree};

fn factored_arith() -> Grammar {
    let mut grammar = Grammar::new();
    grammar.add_prod("P", vec![nt("S")]);
    grammar.add_prod("S", vec![nt("S"), t("+"), nt("M")]);
    grammar.add_prod("S", vec![nt("M")]);
    grammar.add_prod("M", vec![nt("M"), t("*"), nt("T")]);
    grammar.add_prod("M", vec![nt("T")]);
    grammar.add_prod("T", vec![t("1")]);
    grammar.add_prod("T", vec![t("2")]);
    grammar.add_prod("T", vec![t("3")]);
    grammar.add_prod("T", vec![t("4")]);
    grammar
}

fn input(x: &str) -> Vec<String> {
    x.chars().filter(|c| !c.is_whitespace()).map(|c| c.to_string()).collect()
}

fn tree_eq(a: &ParseTree, b: &ParseTree) -> bool {
    match (a, b) {
        (ParseTree::Terminal(x), ParseTree::Terminal(y)) => x == y,
        (ParseTree::NonTerminal(x, xs), ParseTree::NonTerminal(y, ys)) => {
            x == y
                && xs.len() == ys.len()
                && xs.iter().zip(ys.iter()).all(|(u, v)| tree_eq(u, v))
        }
        _ => false,
    }
}

fn leaves(tree: &ParseTree, out: &mut Vec<String>) {
    match tree {
        ParseTree::Terminal(v) => out.push(v.clone()),
        ParseTree::NonTerminal(_, children) => {
            for child in children {
                leaves(child, out);
            }
        }
    }
}

fn node(name: &str, children: Vec<ParseTree>) -> ParseTree {
    ParseTree::NonTerminal(name.to_string(), children)
}

fn leaf(v: &str) -> ParseTree {
    ParseTree::Terminal(v.to_string())
}

#[test]
fn arith_parse_tree_is_the_expected_one() {
    let parser = Parser::new(input("2 + 3 * 4"), factored_arith(), "P").unwrap();
    let info = parser.parse().unwrap();
    let tree: FullParseTree = info.parse_tree();
    let expected = node(
        "P",
        vec![node(
            "S",
            vec![
                node("S", vec![node("M", vec![node("T", vec![leaf("2")])])]),
                leaf("+"),
                node(
                    "M",
                    vec![
                        node("M", vec![node("T", vec![leaf("3")])]),
                        leaf("*"),
                        node("T", vec![leaf("4")]),
                    ],
                ),
            ],
        )],
    );
    assert!(tree_eq(&tree.0, &expected));
}

#[test]
fn proof_leaves_spell_the_input() {
    let text = "1 + 2 * 3";
    let parser = Parser::new(input(text), factored_arith(), "P").unwrap();
    let info = parser.parse().unwrap();
    let proof = info.reconstruct();
    let mut got: Vec<String> = Vec::new();
    collect_proof_leaves(&proof.0, &mut got);
    assert_eq!(got, input(text));
}

fn collect_proof_leaves(p: &ProofTree, out: &mut Vec<String>) {
    match p {
        ProofTree::Pred(_) => {}
        ProofTree::Scan(item, mu) => {
            collect_proof_leaves(mu, out);
            match &item.exp[item.dot - 1] {
                earley::Token::Term(v) => out.push(v.clone()),
                earley::Token::NonTerm(_) => panic!("scan over a nonterminal"),
            }
        }
        ProofTree::Comp(_, mu, b) => {
            collect_proof_leaves(mu, out);
            collect_proof_leaves(b, out);
        }
    }
}

#[test]
fn parse_tree_leaves_spell_the_input() {
    let text = "4 * 4 + 1";
    let parser = Parser::new(input(text), factored_arith(), "P").unwrap();
    let info = parser.parse().unwrap();
    let tree = info.parse_tree();
    let mut got: Vec<String> = Vec::new();
    leaves(&tree.0, &mut got);
    assert_eq!(got, input(text));
}

#[test]
fn epsilon_derivation_reconstructs() {
    let mut grammar = Grammar::new();
    grammar.add_prod("INIT", vec![t("a"), nt("INIT"), t("a")]);
    grammar.add_prod("INIT", vec![]);
    let parser = Parser::new(input("aa"), grammar, "INIT").unwrap();
    let info = parser.parse().unwrap();
    let tree = info.parse_tree();
    let expected = node("INIT", vec![leaf("a"), node("INIT", vec![]), leaf("a")]);
    assert!(tree_eq(&tree.0, &expected));
}

#[test]
fn empty_input_reconstructs_to_a_leaf_rule() {
    let mut grammar = Grammar::new();
    grammar.add_prod("INIT", vec![t("a"), nt("INIT"), t("a")]);
    grammar.add_prod("INIT", vec![]);
    let parser = Parser::new(Vec::new(), grammar, "INIT").unwrap();
    let info = parser.parse().unwrap();
    let tree = info.parse_tree();
    let expected = node("INIT", vec![]);
    assert!(tree_eq(&tree.0, &expected));
}
