//! A recognition engine for context-free grammars in the Generalized LL
//! style: a compiled slot automaton is interpreted over an input symbol
//! sequence with a graph-structured stack, a memoized reduction set and a
//! deduplicated descriptor worklist, and the engine decides membership in
//! the grammar's language, ambiguity and left recursion included.

pub mod automaton;
pub mod bound;
pub mod laws;
pub mod model;
pub mod nodes;
pub mod sample;
pub mod state;
