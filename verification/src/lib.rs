//! Pattern matching over sequences of abstract terminals.
//!
//! A pattern is an expression tree over terminal matchers. It is compiled
//! into a nondeterministic automaton, which is then run against a sequence
//! of terminals to decide whether the sequence matches the pattern.
pub mod expr;
