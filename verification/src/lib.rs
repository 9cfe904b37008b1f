//! Search for short Brainfuck programs that print a requested byte string.
//!
//! The crate enumerates a parametric family of initialization programs,
//! simulates each candidate on a byte tape, and runs a cost-bounded
//! branch-and-bound search for the cheapest suffix of output commands that
//! reproduces the goal bytes from the resulting tape.

pub mod cruncher;
pub mod math;
pub mod node;
pub mod options;
pub mod path;
pub mod solver;
pub mod util;
