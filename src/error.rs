//! Errors of the converter.

use vstd::prelude::*;

verus! {

/// Represents errors of the converter.
#[derive(Debug, PartialEq, Eq)]
pub enum Error {
    /// A file name that is not valid text.
    Filename(String),
    /// A file that could not be opened: the file and the reason.
    OpenFile(String, String),
    /// A line that could not be read: the file and the reason.
    ReadLine(String, String),
    /// A trace that does not start with the expected header.
    TraceFormat(String),
    /// A line that holds no instruction.
    Skipped,
    /// A trace line that cannot be parsed, with its 1-based number.
    Parsing(String, usize),
    /// An instruction that was expected to be a call.
    NotCall(String),
    /// An exit at the given 1-based line while no call was active.
    EmptyStack(usize),
    /// A call at the given 1-based line to the address reserved for the root.
    ReservedAddress(usize),
    /// A dump whose disassembly comes before its ELF header.
    DumpFormat,
    /// A dump without a disassembly section.
    DumpFormatNoDisasm,
    /// A dump line that cannot be parsed, with its 1-based number.
    DumpParsing(String, usize),
    /// Any other input/output failure.
    Io(String),
}

} // verus!
