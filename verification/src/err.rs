//! The error kinds that an emulation run can surface.

use vstd::prelude::*;

verus! {

/// A fatal condition raised during decoding, memory access or setup.
///
/// Every variant is propagated to the top-level driver; nothing here is
/// recovered from inside the library.
#[derive(Clone, Copy, Debug, PartialEq, Eq, Structural)]
pub enum EmuError {
    /// The word has no decoding: unknown opcode or function field.
    Decode { opcode: u32, funct: u32 },
    /// A word-level access used an address that is not a multiple of four.
    Alignment { addr: u32 },
    /// A decoded instruction has no execution clause.
    UnimplementedInstruction,
    /// A divisor of zero was handed to an integer division.
    DivideByZero,
    /// Reading the console or the trace sink failed.
    Io,
    /// The memory-configuration index is not one of the six known ones.
    Configuration { conf: u32 },
}

} // verus!
