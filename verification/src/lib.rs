//! An N-dimensional cellular automaton over a finite hypercubic grid.
//!
//! The grid stores its cells in one flat vector; a mixed-radix codec maps
//! between flat indices and coordinate vectors, a neighbor enumerator walks
//! the full Moore neighborhood of a cell without wraparound, and a step
//! engine applies a configurable threshold rule to every cell synchronously.

pub mod codec;
pub mod neighbors;
pub mod rules;
pub mod sim;
