//! A toolchain and interpreter for a small 16-bit reduced-instruction-set machine: an
//! assembler, the interpreter with memory-mapped I/O, a disassembler and a debugger.
use vstd::prelude::*;

pub use util::BError;

pub mod assembler;
pub mod debugger;
pub mod disassembler;
pub mod image;
pub mod mmio;
pub mod text;
pub mod util;
pub mod vm;

verus! {

} // verus!
