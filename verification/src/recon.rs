//! Proof trees: witness derivations recovered from an accepting chart.
//!
//! A proof tree records, for one item, the inference that produced it and
//! the proofs of its predecessors: a predicted item is a leaf, a scanned
//! item extends the proof of its predecessor by one terminal, a completed
//! item joins the proof of its predecessor with the proof of the completed
//! child. The leaves of a proof, read left to right, are the scanned
//! terminals: [`ProofTree::yield_of`]. A proof [`ProofTree::covers`] an
//! input when every node's yield is exactly the stretch of input between
//! its item's origin columns — the shape in which reconstruction hands
//! proofs out.

use vstd::prelude::*;

use crate::column::{col_has, EntryV};
use crate::item::{Item, ItemV};

verus! {

/// A witness derivation: one node per predict / scan / complete inference.
#[derive(Debug)]
pub enum ProofTree {
    /// A predicted item: a leaf, its `before` empty.
    Pred(Item),
    /// An item advanced over a terminal, with the proof of its predecessor.
    Scan(Item, Box<ProofTree>),
    /// An item advanced over a completed nonterminal, with the proofs of its
    /// predecessor and of the completed child.
    Comp(Item, Box<ProofTree>, Box<ProofTree>),
}

/// A complete derivation, as handed out for an accepting chart: the root
/// item spans the whole input and completes the start nonterminal.
#[derive(Debug)]
pub struct FullProof(pub ProofTree);

impl ProofTree {
    /// The item this node justifies.
    pub open spec fn root(self) -> ItemV {
        match self {
            ProofTree::Pred(it) => it@,
            ProofTree::Scan(it, _) => it@,
            ProofTree::Comp(it, _, _) => it@,
        }
    }

    /// The scanned terminals at the leaves, in source order.
    pub open spec fn yield_of(self) -> Seq<Seq<char>>
        decreases self,
    {
        match self {
            ProofTree::Pred(_) => Seq::empty(),
            ProofTree::Scan(it, mu) => mu.yield_of().push(it@.exp[it@.dot - 1]->Term_0),
            ProofTree::Comp(_, mu, b) => mu.yield_of() + b.yield_of(),
        }
    }

    /// Every node's yield is exactly the stretch of `input` between its
    /// item's origin columns; at a scan the matched symbol is the terminal
    /// the input holds there.
    pub open spec fn covers(self, input: Seq<Seq<char>>) -> bool
        decreases self,
    {
        &&& 0 <= self.root().start <= self.root().end <= input.len()
        &&& self.yield_of() == input.subrange(self.root().start, self.root().end)
        &&& match self {
            ProofTree::Pred(it) => it@.start == it@.end,
            ProofTree::Scan(it, mu) => {
                &&& 1 <= it@.dot <= it@.exp.len()
                &&& it@.exp[it@.dot - 1] is Term
                &&& mu.covers(input)
            },
            ProofTree::Comp(it, mu, b) => {
                &&& 1 <= it@.dot <= it@.exp.len()
                &&& it@.exp[it@.dot - 1] is NonTerm
                &&& mu.covers(input)
                &&& b.covers(input)
            },
        }
    }
}


/// The structural shape that conversion to a parse tree needs: at a scan the
/// matched symbol is a terminal, at a completion a nonterminal.
pub open spec fn shaped(p: ProofTree) -> bool
    decreases p,
{
    match p {
        ProofTree::Pred(_) => true,
        ProofTree::Scan(it, mu) => {
            &&& 1 <= it@.dot <= it@.exp.len()
            &&& it@.exp[it@.dot - 1] is Term
            &&& shaped(*mu)
        },
        ProofTree::Comp(it, mu, b) => {
            &&& 1 <= it@.dot <= it@.exp.len()
            &&& it@.exp[it@.dot - 1] is NonTerm
            &&& shaped(*mu)
            &&& shaped(*b)
        },
    }
}

/// A proof that covers an input is shaped.
pub proof fn lemma_covers_shaped(p: ProofTree, input: Seq<Seq<char>>)
    requires
        p.covers(input),
    ensures
        shaped(p),
    decreases p,
{
    match p {
        ProofTree::Pred(_) => {},
        ProofTree::Scan(it, mu) => {
            lemma_covers_shaped(*mu, input);
        },
        ProofTree::Comp(it, mu, b) => {
            lemma_covers_shaped(*mu, input);
            lemma_covers_shaped(*b, input);
        },
    }
}


/// The recovered proof is a witness over the chart `cols`: every node's item
/// is held by the column its range ends at, a scan's predecessor is the same
/// dotted production one symbol and one column earlier, and a completion
/// joins a predecessor ending at the completed child's origin with a
/// completed chart item of the matched nonterminal.
pub open spec fn supported(p: ProofTree, cols: Seq<Seq<EntryV>>) -> bool
    decreases p,
{
    &&& 0 <= p.root().end < cols.len()
    &&& col_has(cols[p.root().end], p.root())
    &&& match p {
        ProofTree::Pred(it) => it@.dot == 0,
        ProofTree::Scan(it, mu) => {
            &&& mu.root() == (ItemV { dot: it@.dot - 1, end: it@.end - 1, ..it@ })
            &&& supported(*mu, cols)
        },
        ProofTree::Comp(it, mu, b) => {
            &&& b.root().name == it@.exp[it@.dot - 1]->NonTerm_0
            &&& b.root().is_complete()
            &&& b.root().end == it@.end
            &&& mu.root() == (ItemV { dot: it@.dot - 1, end: b.root().start, ..it@ })
            &&& supported(*mu, cols)
            &&& supported(*b, cols)
        },
    }
}

} // verus!
