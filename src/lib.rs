//! Converts an instruction-level execution trace into a cost-annotated call profile
//! in the callgrind text format.

pub mod digits;
pub mod error;
pub mod profile;
pub mod report;
pub mod trace;
pub mod resolver;

use vstd::prelude::*;

verus! {

/// An address of a called routine.
pub type Address = u64;

/// A program counter (instruction offset).
pub type ProgramCounter = u64;

/// The reserved address of the root frame, which stands for the whole trace.
pub const GROUND_ZERO: u64 = 0;

} // verus!
