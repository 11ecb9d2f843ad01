//! Parse trees: nonterminal interior nodes over terminal leaves, flattened
//! from proof trees.
//!
//! The children of a node are in source order, so the leaves of a parse
//! tree, read left to right, are [`tree_yield`]: converting a proof tree
//! preserves its yield, and so a parse tree obtained from an accepting parse
//! yields exactly the input.

use vstd::prelude::*;

use crate::parser::ParseInfo;
use crate::recon::{lemma_covers_shaped, shaped, FullProof, ProofTree};
use crate::token::Token;

verus! {

/// A syntax tree: terminal leaves under nonterminal rule nodes.
#[derive(Debug)]
pub enum ParseTree {
    Terminal(String),
    NonTerminal(String, Vec<ParseTree>),
}

/// A parse tree for a whole accepted input.
#[derive(Debug)]
pub struct FullParseTree(pub ParseTree);

/// The terminal leaves of the tree, left to right.
pub open spec fn tree_yield(t: ParseTree) -> Seq<Seq<char>>
    decreases t,
{
    match t {
        ParseTree::Terminal(v) => seq![v@],
        ParseTree::NonTerminal(_, ch) => trees_yield(ch@),
    }
}

/// The concatenated leaves of a forest, left to right.
pub open spec fn trees_yield(s: Seq<ParseTree>) -> Seq<Seq<char>>
    decreases s,
{
    if s.len() == 0 {
        Seq::empty()
    } else {
        tree_yield(s[0]) + trees_yield(s.drop_first())
    }
}

/// Specification-level parse tree: strings as character sequences.
pub enum TreeV {
    Terminal(Seq<char>),
    NonTerminal(Seq<char>, Seq<TreeV>),
}

/// The view of a parse tree.
pub open spec fn tree_view(t: ParseTree) -> TreeV
    decreases t,
{
    match t {
        ParseTree::Terminal(v) => TreeV::Terminal(v@),
        ParseTree::NonTerminal(n, ch) => TreeV::NonTerminal(n@, trees_view(ch@)),
    }
}

/// The views of a forest, in order.
pub open spec fn trees_view(s: Seq<ParseTree>) -> Seq<TreeV>
    decreases s,
{
    if s.len() == 0 {
        Seq::empty()
    } else {
        seq![tree_view(s[0])] + trees_view(s.drop_first())
    }
}

/// The parse tree a proof flattens to: one node for the proof's rule, whose
/// children follow the matched symbols of its item's prefix in source order —
/// a terminal leaf for each scanned terminal, a recursively flattened node
/// for each completed nonterminal, and no children for a production that
/// derived the empty word.
pub open spec fn spec_tree_of(p: ProofTree) -> TreeV
    decreases p, 1nat,
{
    TreeV::NonTerminal(p.root().name, spec_children_of(p))
}

/// The children that the proof contributes to the node for its rule.
pub open spec fn spec_children_of(p: ProofTree) -> Seq<TreeV>
    decreases p, 0nat,
{
    match p {
        ProofTree::Pred(_) => Seq::empty(),
        ProofTree::Scan(it, mu) => spec_children_of(*mu).push(
            TreeV::Terminal(it@.exp[it@.dot - 1]->Term_0),
        ),
        ProofTree::Comp(it, mu, b) => spec_children_of(*mu).push(spec_tree_of(*b)),
    }
}

/// Appending a tree to a forest appends its view to the forest's views.
proof fn lemma_trees_view_push(s: Seq<ParseTree>, t: ParseTree)
    ensures
        trees_view(s.push(t)) == trees_view(s).push(tree_view(t)),
    decreases s.len(),
{
    if s.len() == 0 {
        let pushed = s.push(t);
        assert(pushed.len() == 1);
        assert(pushed[0] == t);
        assert(pushed.drop_first() =~= Seq::<ParseTree>::empty());
        assert(trees_view(Seq::<ParseTree>::empty()) == Seq::<TreeV>::empty());
        assert(trees_view(pushed) =~= trees_view(s).push(tree_view(t)));
    } else {
        assert(s.push(t)[0] == s[0]);
        assert(s.push(t).drop_first() =~= s.drop_first().push(t));
        lemma_trees_view_push(s.drop_first(), t);
        assert(trees_view(s.push(t)) =~= trees_view(s).push(tree_view(t)));
    }
}

/// Appending a tree to a forest appends its leaves to the forest's.
proof fn lemma_trees_yield_push(s: Seq<ParseTree>, t: ParseTree)
    ensures
        trees_yield(s.push(t)) == trees_yield(s) + tree_yield(t),
    decreases s.len(),
{
    if s.len() == 0 {
        let pushed = s.push(t);
        assert(pushed.len() == 1);
        assert(pushed[0] == t);
        assert(pushed.drop_first() =~= Seq::<ParseTree>::empty());
        assert(trees_yield(Seq::<ParseTree>::empty()) == Seq::<Seq<char>>::empty());
        assert(trees_yield(pushed) == tree_yield(t) + Seq::<Seq<char>>::empty());
        assert(trees_yield(s) == Seq::<Seq<char>>::empty());
        assert(trees_yield(pushed) =~= trees_yield(s) + tree_yield(t));
    } else {
        assert(s.push(t)[0] == s[0]);
        assert(s.push(t).drop_first() =~= s.drop_first().push(t));
        lemma_trees_yield_push(s.drop_first(), t);
        assert(tree_yield(s[0]) + (trees_yield(s.drop_first()) + tree_yield(t)) =~= (tree_yield(
            s[0],
        ) + trees_yield(s.drop_first())) + tree_yield(t));
    }
}

/// The children that the proof `p` contributes to the node being built for
/// its rule, in source order: a terminal leaf for each scan, a converted
/// subtree for each completed child.
fn collect_children(p: &ProofTree) -> (r: Vec<ParseTree>)
    requires
        shaped(*p),
    ensures
        trees_yield(r@) == p.yield_of(),
        trees_view(r@) == spec_children_of(*p),
    decreases *p, 0nat,
{
    match p {
        ProofTree::Pred(_) => {
            let r = Vec::new();
            proof {
                assert(trees_yield(r@) =~= p.yield_of());
                assert(trees_view(r@) =~= spec_children_of(*p));
            }
            r
        },
        ProofTree::Scan(it, mu) => {
            let mut ch = collect_children(mu);
            let leaf = match &it.exp[it.dot - 1] {
                Token::Term(v) => ParseTree::Terminal(v.clone()),
                Token::NonTerm(_) => unreached(),
            };
            proof {
                assert(tree_yield(leaf) =~= seq![it@.exp[it@.dot - 1]->Term_0]) by {
                    assert(it@.exp[it@.dot - 1] == it.exp@[it.dot - 1]@);
                }
                assert(tree_view(leaf) == TreeV::Terminal(it@.exp[it@.dot - 1]->Term_0)) by {
                    assert(it@.exp[it@.dot - 1] == it.exp@[it.dot - 1]@);
                }
                lemma_trees_yield_push(ch@, leaf);
                lemma_trees_view_push(ch@, leaf);
            }
            ch.push(leaf);
            proof {
                assert(trees_yield(ch@) =~= mu.yield_of().push(it@.exp[it@.dot - 1]->Term_0));
                assert(trees_view(ch@) == spec_children_of(*p));
            }
            ch
        },
        ProofTree::Comp(it, mu, b) => {
            let mut ch = collect_children(mu);
            let sub = ParseTree::from_proof(b);
            proof {
                lemma_trees_yield_push(ch@, sub);
                lemma_trees_view_push(ch@, sub);
            }
            ch.push(sub);
            proof {
                assert(trees_yield(ch@) == mu.yield_of() + b.yield_of());
                assert(trees_view(ch@) == spec_children_of(*p));
            }
            ch
        },
    }
}

impl ParseTree {
    /// The parse tree of the derivation `p`: a node for `p`'s rule whose
    /// children, in source order, are the symbols its proof matched. The
    /// leaves of the tree are exactly the proof's yield. A proof of an item
    /// that derived the empty word becomes a node with no children.
    pub fn from_proof(p: &ProofTree) -> (r: ParseTree)
        requires
            shaped(*p),
        ensures
            r is NonTerminal,
            r->NonTerminal_0@ == p.root().name,
            tree_yield(r) == p.yield_of(),
            tree_view(r) == spec_tree_of(*p),
        decreases *p, 1nat,
    {
        let name = match p {
            ProofTree::Pred(it) => it.name.clone(),
            ProofTree::Scan(it, _) => it.name.clone(),
            ProofTree::Comp(it, _, _) => it.name.clone(),
        };
        let ch = collect_children(p);
        ParseTree::NonTerminal(name, ch)
    }
}

impl FullParseTree {
    /// The parse tree of a complete derivation.
    pub fn from_full_proof(p: &FullProof) -> (r: FullParseTree)
        requires
            shaped(p.0),
        ensures
            r.0 is NonTerminal,
            r.0->NonTerminal_0@ == p.0.root().name,
            tree_yield(r.0) == p.0.yield_of(),
            tree_view(r.0) == spec_tree_of(p.0),
    {
        FullParseTree(ParseTree::from_proof(&p.0))
    }
}

impl ParseInfo {
    /// Reconstructs a derivation and flattens it: a parse tree whose root is
    /// the start nonterminal and whose leaves, left to right, are exactly
    /// the accepted input.
    pub fn parse_tree(&self) -> (r: FullParseTree)
        requires
            self.wf(),
        ensures
            r.0 is NonTerminal,
            r.0->NonTerminal_0@ == self.init_name(),
            tree_yield(r.0) == self.input_view(),
            exists|p: ProofTree|
                {
                    &&& p.covers(self.input_view())
                    &&& crate::recon::supported(p, self.columns())
                    &&& p.root().name == self.init_name()
                    &&& p.root().is_complete()
                    &&& p.root().start == 0
                    &&& p.root().end == self.input_view().len()
                    &&& tree_view(#[trigger] r.0) == spec_tree_of(p)
                },
    {
        let fp = self.reconstruct();
        proof {
            lemma_covers_shaped(fp.0, self.input_view());
        }
        let t = FullParseTree::from_full_proof(&fp);
        proof {
            let ghost p0 = fp.0;
            assert(tree_view(t.0) == spec_tree_of(p0));
        }
        t
    }
}

} // verus!
