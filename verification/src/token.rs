//! Tokens: the atoms of expansions and of input.
//!
//! A token is either a terminal carrying an input value, or a nonterminal
//! carrying the name of a grammar variable. Tokens are value objects; in
//! specifications they are viewed as [`TokenV`], where the strings become
//! sequences of characters.

use vstd::prelude::*;

verus! {

/// Specification-level token: strings viewed as character sequences.
pub enum TokenV {
    Term(Seq<char>),
    NonTerm(Seq<char>),
}

/// A grammar symbol: a terminal input value or a nonterminal name.
#[derive(Debug, Clone, Hash, PartialEq, Eq)]
pub enum Token {
    Term(String),
    NonTerm(String),
}

impl View for Token {
    type V = TokenV;

    open spec fn view(&self) -> TokenV {
        match self {
            Token::Term(s) => TokenV::Term(s@),
            Token::NonTerm(s) => TokenV::NonTerm(s@),
        }
    }
}

impl Token {
    /// Whether two tokens are the same symbol.
    pub fn same(&self, other: &Token) -> (r: bool)
        ensures
            r == (self@ == other@),
    {
        match (self, other) {
            (Token::Term(a), Token::Term(b)) => *a == *b,
            (Token::NonTerm(a), Token::NonTerm(b)) => *a == *b,
            _ => false,
        }
    }

    /// A copy with the same view.
    pub fn duplicate(&self) -> (r: Token)
        ensures
            r@ == self@,
    {
        match self {
            Token::Term(s) => Token::Term(s.clone()),
            Token::NonTerm(s) => Token::NonTerm(s.clone()),
        }
    }

    /// The name carried by a nonterminal token.
    pub fn nonterm(&self) -> (r: &String)
        requires
            self@ is NonTerm,
        ensures
            r@ == self@->NonTerm_0,
    {
        match self {
            Token::NonTerm(s) => s,
            Token::Term(_) => unreached(),
        }
    }

    /// The value carried by a terminal token.
    pub fn term(&self) -> (r: &String)
        requires
            self@ is Term,
        ensures
            r@ == self@->Term_0,
    {
        match self {
            Token::Term(s) => s,
            Token::NonTerm(_) => unreached(),
        }
    }
}

/// The views of a sequence of tokens.
pub open spec fn seq_view(s: Seq<Token>) -> Seq<TokenV> {
    s.map_values(|tok: Token| tok@)
}

/// The views of a sequence of input terminals.
pub open spec fn strs_view(s: Seq<String>) -> Seq<Seq<char>> {
    s.map_values(|x: String| x@)
}

/// Builds a terminal token from a string value.
pub fn t(s: &str) -> (r: Token)
    ensures
        r@ == TokenV::Term(s@),
{
    Token::Term(s.to_owned())
}

/// Builds a nonterminal token from a variable name.
pub fn nt(s: &str) -> (r: Token)
    ensures
        r@ == TokenV::NonTerm(s@),
{
    Token::NonTerm(s.to_owned())
}

} // verus!
