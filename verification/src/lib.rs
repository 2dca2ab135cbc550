//! An optimizing interpreter for the eight-symbol tape language.
//!
//! The pipeline parses source text into a stream of primitive
//! instructions, lifts bracketed regions into nested loops, compacts
//! runs of cell edits, recognizes idiomatic loop shapes, folds adjacent
//! instructions to a fixpoint, and finally executes the resulting
//! instruction stream against a growable byte tape with 8-bit wrapping
//! arithmetic.

pub mod equivalence;
pub mod errors;
pub mod folder;
pub mod instructions;
pub mod interpret;
pub mod laws;
pub mod memory;
pub mod optimizations;
pub mod parser;
pub mod semantics;
