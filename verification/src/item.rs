//! Dotted items and their provenance.
//!
//! An item is a production with a dot position and an origin range
//! `[start, end]`: `start` is the column at which the production was first
//! predicted, `end` the column the item lives in, and the tokens left of the
//! dot have matched the input between the two. Items are value objects:
//! advancing the dot produces a new item. The provenance [`InsertedBy`]
//! records which inference rule put an item into its column, together with
//! the predecessor ranges that a reconstruction needs.

use vstd::prelude::*;

use crate::token::{seq_view, Token, TokenV};

verus! {

/// A half-open source range `start..end`, in chart columns.
#[derive(Debug, Clone, Copy, Hash, PartialEq, Eq, Structural)]
pub struct Span {
    pub start: usize,
    pub end: usize,
}

/// The inference rule that justified an item, with the origin ranges of its
/// predecessors: none for a prediction, the scanned-over predecessor's range
/// for a scan, and the ranges of the predecessor and of the completed child
/// for a completion.
#[derive(Debug, Clone, Copy, Hash, PartialEq, Eq, Structural)]
pub enum InsertedBy {
    Pred,
    Scan(Span),
    Comp(Span, Span),
}

impl InsertedBy {
    /// The predecessor range of a scan step.
    pub fn scan_range(self) -> (r: Span)
        requires
            self is Scan,
        ensures
            self == InsertedBy::Scan(r),
    {
        match self {
            InsertedBy::Scan(r) => r,
            _ => unreached(),
        }
    }

    /// The predecessor and child ranges of a completion step.
    pub fn comp_range(self) -> (r: (Span, Span))
        requires
            self is Comp,
        ensures
            self == InsertedBy::Comp(r.0, r.1),
    {
        match self {
            InsertedBy::Comp(r, s) => (r, s),
            _ => unreached(),
        }
    }
}

/// Specification-level item.
#[verifier::ext_equal]
pub struct ItemV {
    pub name: Seq<char>,
    pub exp: Seq<TokenV>,
    pub dot: int,
    pub start: int,
    pub end: int,
}

impl ItemV {
    /// Structural sanity: the dot lies within the expansion, the range is
    /// ordered.
    pub open spec fn wf(self) -> bool {
        0 <= self.dot <= self.exp.len() && 0 <= self.start <= self.end
    }

    /// The already-matched prefix of the expansion.
    pub open spec fn before(self) -> Seq<TokenV> {
        self.exp.take(self.dot)
    }

    /// The not-yet-matched suffix of the expansion.
    pub open spec fn after(self) -> Seq<TokenV> {
        self.exp.skip(self.dot)
    }

    /// Whether the dot has reached the end of the expansion.
    pub open spec fn is_complete(self) -> bool {
        self.dot == self.exp.len()
    }

    /// The symbol just past the dot.
    pub open spec fn next_sym(self) -> TokenV {
        self.exp[self.dot]
    }

    /// The item with the dot advanced one symbol and the range extended to
    /// `end`.
    pub open spec fn advanced(self, end: int) -> ItemV {
        ItemV { dot: self.dot + 1, end, ..self }
    }
}

/// A dotted production with an origin range: the unit of chart membership.
///
/// The dot is stored as an index into the full expansion; the matched prefix
/// and unmatched suffix are the tokens on its two sides.
#[derive(Debug, Clone, Hash, PartialEq, Eq)]
pub struct Item {
    pub name: String,
    pub exp: Vec<Token>,
    pub dot: usize,
    pub start: usize,
    pub end: usize,
}

impl View for Item {
    type V = ItemV;

    open spec fn view(&self) -> ItemV {
        ItemV {
            name: self.name@,
            exp: seq_view(self.exp@),
            dot: self.dot as int,
            start: self.start as int,
            end: self.end as int,
        }
    }
}

/// A copy of a token vector, element by element.
pub fn clone_tokens(v: &Vec<Token>) -> (r: Vec<Token>)
    ensures
        seq_view(r@) == seq_view(v@),
{
    let mut out: Vec<Token> = Vec::new();
    let mut i: usize = 0;
    while i < v.len()
        invariant
            i <= v.len(),
            out@.len() == i,
            forall|k: int| 0 <= k < i ==> out@[k]@ == v@[k]@,
        decreases v.len() - i,
    {
        out.push(v[i].duplicate());
        i += 1;
    }
    proof {
        assert(seq_view(out@) =~= seq_view(v@));
    }
    out
}

impl Item {
    /// A fresh item for `name -> expansion` with the dot at the far left.
    pub fn init(name: String, expansion: Vec<Token>, range: Span) -> (r: Item)
        ensures
            r@ == (ItemV {
                name: name@,
                exp: seq_view(expansion@),
                dot: 0,
                start: range.start as int,
                end: range.end as int,
            }),
    {
        Item { name, exp: expansion, dot: 0, start: range.start, end: range.end }
    }

    /// Whether two items agree on all of name, expansion, dot and range.
    pub fn same(&self, other: &Item) -> (r: bool)
        ensures
            r == (self@ == other@),
    {
        if self.dot != other.dot || self.start != other.start || self.end != other.end {
            return false;
        }
        if !(self.name == other.name) {
            return false;
        }
        if self.exp.len() != other.exp.len() {
            assert(self@.exp.len() != other@.exp.len());
            return false;
        }
        let n = self.exp.len();
        let mut i: usize = 0;
        while i < n
            invariant
                i <= n,
                n == self.exp.len() == other.exp.len(),
                forall|k: int| 0 <= k < i ==> self@.exp[k] == other@.exp[k],
            decreases n - i,
        {
            if !self.exp[i].same(&other.exp[i]) {
                assert(self@.exp[i as int] != other@.exp[i as int]);
                return false;
            }
            i += 1;
        }
        proof {
            assert(self@.exp =~= other@.exp);
        }
        true
    }

    /// A copy with the same view.
    pub fn duplicate(&self) -> (r: Item)
        ensures
            r@ == self@,
    {
        Item {
            name: self.name.clone(),
            exp: clone_tokens(&self.exp),
            dot: self.dot,
            start: self.start,
            end: self.end,
        }
    }

    /// Whether the dot has reached the end of the expansion.
    pub fn is_complete(&self) -> (r: bool)
        ensures
            r == self@.is_complete(),
    {
        self.dot == self.exp.len()
    }

    /// The symbol just past the dot, if any.
    pub fn next_symbol(&self) -> (r: Option<&Token>)
        requires
            self@.wf(),
        ensures
            match r {
                Some(tok) => !self@.is_complete() && tok@ == self@.next_sym(),
                None => self@.is_complete(),
            },
    {
        if self.dot < self.exp.len() {
            Some(&self.exp[self.dot])
        } else {
            None
        }
    }

    /// The item with the dot advanced over its next symbol and the range
    /// extended to `end`.
    pub fn advanced(&self, end: usize) -> (r: Item)
        requires
            self@.wf(),
            !self@.is_complete(),
        ensures
            r@ == self@.advanced(end as int),
    {
        proof {
            assert(self.dot < self.exp.len());
        }
        Item {
            name: self.name.clone(),
            exp: clone_tokens(&self.exp),
            dot: self.dot + 1,
            start: self.start,
            end,
        }
    }

    /// The matched prefix, left of the dot.
    pub fn before(&self) -> (r: Vec<Token>)
        requires
            self@.wf(),
        ensures
            seq_view(r@) == self@.before(),
    {
        let mut out: Vec<Token> = Vec::new();
        let mut i: usize = 0;
        while i < self.dot
            invariant
                i <= self.dot <= self.exp.len(),
                out@.len() == i,
                forall|k: int| 0 <= k < i ==> out@[k]@ == self.exp@[k]@,
            decreases self.dot - i,
        {
            out.push(self.exp[i].duplicate());
            i += 1;
        }
        proof {
            assert(seq_view(out@) =~= self@.before());
        }
        out
    }

    /// The unmatched suffix, right of the dot.
    pub fn after(&self) -> (r: Vec<Token>)
        requires
            self@.wf(),
        ensures
            seq_view(r@) == self@.after(),
    {
        let mut out: Vec<Token> = Vec::new();
        let mut i: usize = self.dot;
        while i < self.exp.len()
            invariant
                self.dot <= i <= self.exp.len(),
                out@.len() == i - self.dot,
                forall|k: int| 0 <= k < out@.len() ==> out@[k]@ == self.exp@[self.dot + k]@,
            decreases self.exp.len() - i,
        {
            out.push(self.exp[i].duplicate());
            i += 1;
        }
        proof {
            assert(seq_view(out@) =~= self@.after());
        }
        out
    }

    /// The item's nonterminal name.
    pub fn name(&self) -> (r: &String)
        ensures
            r@ == self@.name,
    {
        &self.name
    }

    /// The item's origin range.
    pub fn range(&self) -> (r: Span)
        ensures
            r.start == self.start && r.end == self.end,
    {
        Span { start: self.start, end: self.end }
    }
}

} // verus!
