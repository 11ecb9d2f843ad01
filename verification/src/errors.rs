//! Failure outcomes.
//!
//! The first two are fatal configuration errors: the grammar does not define
//! a nonterminal that is named. The last three are ordinary outcomes of
//! parsing untrusted input.

use vstd::prelude::*;

verus! {

/// Everything a parser of this crate can fail with.
#[derive(Debug, Clone, Copy, Hash, PartialEq, Eq, Structural)]
pub enum Error {
    /// The start nonterminal is not a grammar key.
    UnknownInitial,
    /// A predict step referenced a nonterminal absent from the grammar.
    UnknownNonterminal,
    /// Advancing by the offered token would leave an empty column.
    UnexpectedToken,
    /// `finish` was called on a chart that is not in an accepting state.
    Incomplete,
    /// A batch parse consumed its whole input without reaching acceptance.
    ParseFailed,
}

impl Error {
    /// A short description of the failure.
    pub fn describe(&self) -> (r: &'static str)
        ensures
            r@.len() > 0,
    {
        let msg: &'static str = match self {
            Error::UnknownInitial => "the start nonterminal is not defined by the grammar",
            Error::UnknownNonterminal => "a predicted nonterminal is not defined by the grammar",
            Error::UnexpectedToken => "the token cannot extend the recognized prefix",
            Error::Incomplete => "the input so far is not a complete sentence",
            Error::ParseFailed => "the input is not in the grammar's language",
        };
        proof {
            reveal_strlit("the start nonterminal is not defined by the grammar");
            reveal_strlit("a predicted nonterminal is not defined by the grammar");
            reveal_strlit("the token cannot extend the recognized prefix");
            reveal_strlit("the input so far is not a complete sentence");
            reveal_strlit("the input is not in the grammar's language");
        }
        msg
    }
}

} // verus!
