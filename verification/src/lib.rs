//! An Earley recognizer and parse-tree reconstructor for arbitrary
//! context-free grammars, including left- and right-recursive, ambiguous
//! and epsilon-producing ones.
//!
//! A [`Grammar`] is an append-only list of productions. A [`Table`] is the
//! Earley chart: one column of dotted [`Item`]s per input position, each
//! item carrying the provenance ([`InsertedBy`]) that justified it. The
//! chart contracts pin every column down exactly: an item is present if and
//! only if it is reachable from the column's base items by predict and
//! complete steps, closed jointly so that productions deriving the empty
//! word complete within the column that predicted them.
//!
//! The batch [`Parser`] drives the chart over a finite input and decides
//! acceptance; the [`PrefixParser`] accepts tokens one at a time, never
//! commits a failed step, and reports which tokens could come next. On
//! acceptance, [`ParseInfo::reconstruct`] walks provenance backwards to a
//! [`FullProof`] whose leaves provably spell the input, and
//! [`ParseInfo::parse_tree`] flattens that witness into a [`FullParseTree`].
//! The chart-shaped invariants that cut across these contracts are stated in
//! [`laws`].

pub mod bound;
pub mod column;
pub mod errors;
pub mod grammar;
pub mod item;
pub mod laws;
pub mod parser;
pub mod prefix;
pub mod recon;
pub mod table;
pub mod token;
pub mod tree;

pub use errors::Error;
pub use grammar::Grammar;
pub use item::{InsertedBy, Item, Span};
pub use parser::{ParseInfo, Parser};
pub use prefix::PrefixParser;
pub use recon::{FullProof, ProofTree};
pub use table::Table;
pub use token::{nt, t, Token};
pub use tree::{FullParseTree, ParseTree};
