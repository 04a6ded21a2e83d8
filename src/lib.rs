//! An interpreter for the Knight programming language: a single-pass compiler from source text
//! to a flat instruction stream, the values and operators of the language, and a stack machine
//! that runs the instructions one step at a time.
//!
//! The machine works on tagged-union values whose strings and lists are reference counted. The
//! packed 64-bit word encoding (`packed`) and the mark-and-sweep heap (`gc`) stand beside it:
//! values can be stored into the heap and read back, and a collection keeps everything the
//! given roots reach, but the machine itself does not allocate through the heap.
use vstd::prelude::*;

pub mod compiler;
pub mod convert;
pub mod error;
pub mod gc;
pub mod grammar;
pub mod integer;
pub mod laws;
mod names;
pub mod ops;
pub mod options;
pub mod packed;
pub mod program;
pub mod seqs;
pub mod string;
pub mod value;
pub mod variable;
pub mod vm;

verus! {

} // verus!
