//! A two-stage interpreter for a minimal tape-based language: a translator
//! that turns source text into a flat instruction sequence with resolved
//! absolute jump targets, and a tape automaton that executes such a sequence
//! against a growable byte tape.

pub mod inst;
pub mod machine;
pub mod translate;
