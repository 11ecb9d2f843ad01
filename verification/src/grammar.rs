//! Grammars: ordered, append-only collections of productions.
//!
//! A production pairs a nonterminal name with one expansion (a finite,
//! possibly empty sequence of tokens). A grammar keeps every production that
//! was added, in order, duplicates included: duplicate expansions may yield
//! distinct derivations and are never silently removed.

use vstd::prelude::*;

use crate::token::{Token, TokenV};

verus! {

/// Specification-level production.
#[verifier::ext_equal]
pub struct ProdV {
    pub lhs: Seq<char>,
    pub rhs: Seq<TokenV>,
}

/// One production: a nonterminal name and one expansion for it.
#[derive(Debug, Clone)]
pub struct Prod {
    pub lhs: String,
    pub rhs: Vec<Token>,
}

impl View for Prod {
    type V = ProdV;

    open spec fn view(&self) -> ProdV {
        ProdV { lhs: self.lhs@, rhs: crate::token::seq_view(self.rhs@) }
    }
}

/// A context-free grammar: the ordered list of its productions.
#[derive(Debug, Clone)]
pub struct Grammar {
    prods: Vec<Prod>,
}

/// Whether the grammar has `(lhs, rhs)` among its productions.
pub open spec fn has_prod(g: Seq<ProdV>, lhs: Seq<char>, rhs: Seq<TokenV>) -> bool {
    exists|p: int| 0 <= p < g.len() && g[p].lhs == lhs && g[p].rhs == rhs
}

/// Whether the grammar has at least one production for `name`.
pub open spec fn has_key(g: Seq<ProdV>, name: Seq<char>) -> bool {
    exists|p: int| 0 <= p < g.len() && g[p].lhs == name
}

/// Whether every nonterminal mentioned in an expansion has a production.
/// Parsing a grammar that lacks this can stop with `UnknownNonterminal`.
pub open spec fn grammar_closed(g: Seq<ProdV>) -> bool {
    forall|p: int, i: int|
        0 <= p < g.len() && 0 <= i < g[p].rhs.len() && g[p].rhs[i] is NonTerm
            ==> has_key(g, g[p].rhs[i]->NonTerm_0)
}

impl View for Grammar {
    type V = Seq<ProdV>;

    /// The productions, in the order they were added.
    closed spec fn view(&self) -> Seq<ProdV> {
        self.prods@.map_values(|p: Prod| p@)
    }
}

impl Grammar {
    /// An empty grammar.
    pub fn new() -> (r: Grammar)
        ensures
            r@ == Seq::<ProdV>::empty(),
    {
        let g = Grammar { prods: Vec::new() };
        proof {
            assert(g@ =~= Seq::<ProdV>::empty());
        }
        g
    }

    /// Appends one production for `nonterm`. Duplicates are kept.
    pub fn add_prod(&mut self, nonterm: &str, expansion: Vec<Token>)
        ensures
            final(self)@ == old(self)@.push(
                ProdV { lhs: nonterm@, rhs: crate::token::seq_view(expansion@) },
            ),
    {
        let p = Prod { lhs: nonterm.to_owned(), rhs: expansion };
        let ghost pv = p@;
        self.prods.push(p);
        proof {
            assert(self@ =~= old(self)@.push(pv));
        }
    }

    /// The number of productions.
    pub fn len(&self) -> (r: usize)
        ensures
            r == self@.len(),
    {
        self.prods.len()
    }

    /// The production at `i`.
    pub fn prod_at(&self, i: usize) -> (r: &Prod)
        requires
            i < self@.len(),
        ensures
            r@ == self@[i as int],
    {
        &self.prods[i]
    }

    /// Whether some production is keyed by `name`.
    pub fn contains_key(&self, name: &str) -> (r: bool)
        ensures
            r == has_key(self@, name@),
    {
        let key = name.to_owned();
        let mut i: usize = 0;
        while i < self.prods.len()
            invariant
                i <= self.prods.len(),
                key@ == name@,
                forall|p: int| 0 <= p < i ==> self@[p].lhs != name@,
            decreases self.prods.len() - i,
        {
            if self.prods[i].lhs == key {
                assert(self@[i as int].lhs == name@);
                return true;
            }
            i += 1;
        }
        false
    }
}

impl Default for Grammar {
    /// An empty grammar.
    fn default() -> (r: Grammar)
        ensures
            r@ == Seq::<ProdV>::empty(),
    {
        Grammar::new()
    }
}


// ---------------------------------------------------------------------------
// Derivation.
// ---------------------------------------------------------------------------
/// The symbol sequence `syms` derives the terminal sequence `out` within `d`
/// nested rule applications: some prefix of `out` comes from the first
/// symbol — a terminal derives exactly itself, a nonterminal derives what
/// one of its expansions derives — and the rest from the remaining symbols,
/// in order.
pub open spec fn derives_within(
    g: Seq<ProdV>,
    syms: Seq<TokenV>,
    out: Seq<Seq<char>>,
    d: nat,
) -> bool
    decreases d, syms.len(),
{
    if syms.len() == 0 {
        out.len() == 0
    } else {
        exists|m: int|
            #![trigger out.skip(m)]
            {
                &&& 0 <= m <= out.len()
                &&& match syms[0] {
                    TokenV::Term(v) => out.take(m) == seq![v],
                    TokenV::NonTerm(y) => d > 0 && exists|p: int|
                        {
                            &&& 0 <= p < g.len()
                            &&& (#[trigger] g[p]).lhs == y
                            &&& derives_within(g, g[p].rhs, out.take(m), (d - 1) as nat)
                        },
                }
                &&& derives_within(g, syms.drop_first(), out.skip(m), d)
            }
    }
}

/// `syms` derives `out` in some finite number of rule applications.
pub open spec fn derives(g: Seq<ProdV>, syms: Seq<TokenV>, out: Seq<Seq<char>>) -> bool {
    exists|d: nat| derives_within(g, syms, out, d)
}

/// Derivation depth only gives room: what fits within `d1` rule applications
/// fits within more.
pub proof fn lemma_derives_mono(
    g: Seq<ProdV>,
    syms: Seq<TokenV>,
    out: Seq<Seq<char>>,
    d1: nat,
    d2: nat,
)
    requires
        d1 <= d2,
        derives_within(g, syms, out, d1),
    ensures
        derives_within(g, syms, out, d2),
    decreases d1, syms.len(),
{
    if syms.len() == 0 {
    } else {
        let m = choose|m: int|
            #![trigger out.skip(m)]
            {
                &&& 0 <= m <= out.len()
                &&& match syms[0] {
                    TokenV::Term(v) => out.take(m) == seq![v],
                    TokenV::NonTerm(y) => d1 > 0 && exists|p: int|
                        {
                            &&& 0 <= p < g.len()
                            &&& (#[trigger] g[p]).lhs == y
                            &&& derives_within(g, g[p].rhs, out.take(m), (d1 - 1) as nat)
                        },
                }
                &&& derives_within(g, syms.drop_first(), out.skip(m), d1)
            };
        lemma_derives_mono(g, syms.drop_first(), out.skip(m), d1, d2);
        match syms[0] {
            TokenV::Term(_) => {},
            TokenV::NonTerm(y) => {
                let p = choose|p: int|
                    {
                        &&& 0 <= p < g.len()
                        &&& (#[trigger] g[p]).lhs == y
                        &&& derives_within(g, g[p].rhs, out.take(m), (d1 - 1) as nat)
                    };
                lemma_derives_mono(g, g[p].rhs, out.take(m), (d1 - 1) as nat, (d2 - 1) as nat);
            },
        }
        assert(derives_within(g, syms, out, d2));
    }
}

/// Extending a derived sequence by one more symbol, itself deriving `o2`,
/// derives the concatenation.
pub proof fn lemma_derives_push(
    g: Seq<ProdV>,
    syms: Seq<TokenV>,
    out: Seq<Seq<char>>,
    sym: TokenV,
    o2: Seq<Seq<char>>,
    d: nat,
)
    requires
        derives_within(g, syms, out, d),
        derives_within(g, seq![sym], o2, d),
    ensures
        derives_within(g, syms.push(sym), out + o2, d),
    decreases syms.len(),
{
    let whole = out + o2;
    let pushed = syms.push(sym);
    if syms.len() == 0 {
        assert(out.len() == 0);
        assert(whole =~= o2);
        assert(pushed =~= seq![sym]);
    } else {
        let m = choose|m: int|
            #![trigger out.skip(m)]
            {
                &&& 0 <= m <= out.len()
                &&& match syms[0] {
                    TokenV::Term(v) => out.take(m) == seq![v],
                    TokenV::NonTerm(y) => d > 0 && exists|p: int|
                        {
                            &&& 0 <= p < g.len()
                            &&& (#[trigger] g[p]).lhs == y
                            &&& derives_within(g, g[p].rhs, out.take(m), (d - 1) as nat)
                        },
                }
                &&& derives_within(g, syms.drop_first(), out.skip(m), d)
            };
        lemma_derives_push(g, syms.drop_first(), out.skip(m), sym, o2, d);
        assert(pushed[0] == syms[0]);
        assert(pushed.drop_first() =~= syms.drop_first().push(sym));
        assert(whole.take(m) =~= out.take(m));
        assert(whole.skip(m) =~= out.skip(m) + o2);
        assert(derives_within(g, pushed.drop_first(), whole.skip(m), d));
        assert(derives_within(g, pushed, whole, d));
    }
}



/// A lone terminal derives exactly itself.
pub proof fn lemma_derives_terminal(gr: Seq<ProdV>, v: Seq<char>, d: nat)
    ensures
        derives_within(gr, seq![TokenV::Term(v)], seq![v], d),
{
    let syms = seq![TokenV::Term(v)];
    let out = seq![v];
    assert(syms[0] == TokenV::Term(v));
    assert(out.take(1) =~= out);
    assert(out.skip(1) =~= Seq::<Seq<char>>::empty());
    assert(syms.drop_first() =~= Seq::<TokenV>::empty());
    assert(derives_within(gr, syms.drop_first(), out.skip(1), d));
    assert(0 <= 1 <= out.len());
    assert(derives_within(gr, syms, out, d));
}

/// A lone nonterminal derives whatever one of its expansions derives, one
/// rule application deeper.
pub proof fn lemma_derives_nonterm(
    gr: Seq<ProdV>,
    y: Seq<char>,
    rhs: Seq<TokenV>,
    out: Seq<Seq<char>>,
    d: nat,
)
    requires
        has_prod(gr, y, rhs),
        derives_within(gr, rhs, out, d),
    ensures
        derives_within(gr, seq![TokenV::NonTerm(y)], out, d + 1),
{
    let syms = seq![TokenV::NonTerm(y)];
    let m = out.len() as int;
    assert(syms[0] == TokenV::NonTerm(y));
    assert(out.take(m) =~= out);
    assert(out.skip(m) =~= Seq::<Seq<char>>::empty());
    assert(syms.drop_first() =~= Seq::<TokenV>::empty());
    assert(derives_within(gr, syms.drop_first(), out.skip(m), d + 1));
    let p = choose|p: int| 0 <= p < gr.len() && gr[p].lhs == y && gr[p].rhs == rhs;
    assert(derives_within(gr, gr[p].rhs, out.take(m), ((d + 1) - 1) as nat));
    assert(derives_within(gr, syms, out, d + 1));
}

} // verus!
