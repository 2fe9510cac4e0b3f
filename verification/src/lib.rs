//! Compiles token patterns into nondeterministic finite automata.

pub mod builder;
pub mod chain;
pub mod composition;
pub mod counting;
pub mod error;
pub mod families;
pub mod ids;
pub mod language;
pub mod laws;
pub mod nfa;
pub mod order;
pub mod pattern;
pub mod render;
pub mod scan;
pub mod soundness;
pub mod token;
