//! A minimal regular-expression engine built on Thompson's construction.
//!
//! Patterns ([`Regex`]) are composed programmatically from literals and the
//! combinators `or`, `concat` and `star`; [`NFA::from_regex`] compiles a
//! pattern into a nondeterministic finite automaton, and [`NFA::accepts`]
//! simulates that automaton against a symbol sequence.  Both operations
//! carry machine-checked contracts: compilation produces an automaton whose
//! accepted language provably equals the language the pattern denotes, and
//! simulation provably decides membership in that accepted language.

pub mod laws;
pub mod nfa;
pub mod regex;
pub mod thompson;

pub use nfa::NFA;
pub use regex::Regex;
