//! A small regular-expression engine built on a Thompson-style NFA.
//!
//! A pattern string is lexed and rewritten into postfix form, folded into a
//! nondeterministic finite automaton, and run against lines of text by a
//! backtracking simulator.  Every stage carries a full functional
//! specification, so compiling and matching are proved deterministic.

pub mod error;
pub mod matcher;
pub mod state;
pub mod engine;
pub mod parser;
pub mod nfa_regex;
pub mod laws;
