//! Front end for a Brainfuck-like esoteric language: it filters the source
//! text down to the recognized command characters, run-length-encodes
//! consecutive repeats of the same command into single instructions, and
//! resolves the jump targets that tie every loop opening to its matching
//! loop close, rejecting unmatched brackets and empty loop bodies.

use vstd::prelude::*;

pub mod compiler;
pub mod error_handler;
pub mod instruction;
pub mod parser;

pub use parser::parse_source;

verus! {

/// Length of the memory tape that a downstream execution engine works on.
pub const ARRAY_LEN: usize = 30_000;

} // verus!
