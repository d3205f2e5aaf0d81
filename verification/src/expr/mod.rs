pub mod automaton;
pub mod char;
pub mod completeness;
pub mod composition;
pub mod laws;
pub mod matcher;
pub mod music;
pub mod pattern;
pub mod relocation;
pub mod shape;
pub mod simulation;
pub mod soundness;
pub mod thompson;
