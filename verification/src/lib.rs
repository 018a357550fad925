//! Compilation of regular-expression syntax trees into Thompson-style
//! nondeterministic finite automata: a flat, indexed arena of states wired by
//! explicit transitions, with a greedy-priority key for resolving
//! nondeterministic choices, and a small token-level scanner for the textual
//! form of expressions.

pub mod expr;
pub mod nfa;
pub mod token;
