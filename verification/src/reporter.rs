//! Memory-access trace events. The hierarchy records one event per
//! CPU-issued access, in dispatch order; an asynchronous consumer outside
//! the library drains them to a file.

use vstd::prelude::*;

verus! {

/// One memory-access trace event. Reads and writes carry the byte address
/// and the line number it falls in.
pub enum MemoryEvent {
    /// A data-side read.
    DataRead(u32, u64),
    /// An instruction fetch.
    InstrRead(u32, u64),
    /// A data-side write.
    Write(u32, u64),
    /// A free-form annotation, written only in debug mode.
    Debug(String),
    /// Ends the trace: the consumer flushes and stops.
    Finish,
}

} // verus!
