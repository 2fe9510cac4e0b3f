//! Failures of a build.

use vstd::prelude::*;

verus! {

/// Why a pattern is malformed.
#[derive(Clone, Copy, Debug, PartialEq, Eq, Structural)]
pub enum SyntaxReason {
    /// A `)` that closes no group of the pattern.
    UnmatchedClose,
    /// A `(` whose group the pattern never closes.
    UnclosedGroup,
    /// A `|` with no alternative in front of it.
    LeadingAlternation,
    /// A `|` with no alternative behind it.
    TrailingAlternation,
    /// A group that stands directly beside a literal or another group.
    GroupInSequence,
}

/// Why no automaton was built.
#[derive(Clone, Copy, Debug, PartialEq, Eq, Structural)]
pub enum BuildError {
    /// The pattern is malformed at the character with this index.
    Syntax { index: usize, reason: SyntaxReason },
    /// The character with this index belongs to syntax that is not implemented.
    UnsupportedConstruct { index: usize, character: char },
    /// The allocator has too few identifiers left.
    AllocatorExhausted,
}

} // verus!
