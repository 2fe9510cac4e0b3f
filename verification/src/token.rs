//! Token definitions: a category name and the pattern that recognises it.

use vstd::prelude::*;

verus! {

/// One token definition.
#[derive(Debug)]
pub struct Token {
    /// The name of the token's category.
    pub kind: String,
    /// The text of the pattern.
    pub value: String,
}

/// An ordered table of token definitions.
#[derive(Debug)]
pub struct Tokens {
    /// The definitions, in the order in which they were given.
    pub tokens: Vec<Token>,
}

} // verus!
