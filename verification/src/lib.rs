//! A cycle-approximating user-mode emulator for a 32-bit MIPS integer and
//! floating-point subset, with a verified execution engine and a verified
//! multi-level, cache-coherent memory hierarchy between the simulated CPU
//! and simulated RAM.
//!
//! The library is organised leaves-first:
//! - [`bits`]: word-level helpers (sign extension, branch and jump targets);
//! - [`err`]: the error kinds a run can surface;
//! - [`instr`]: the instruction model, decoder and encoder;
//! - [`ram`]: the sparse word-addressable backing store;
//! - [`cache`]: the N-way set-associative write-back cache;
//! - [`hierarchy`]: the six fixed memory configurations and the sister
//!   protocol that links split instruction/data caches;
//! - [`reporter`]: memory-access trace events;
//! - [`stats`]: dynamic instruction and cycle counters;
//! - [`cop0`]: the (dormant) coprocessor-0 register file;
//! - [`cpu`]: registers, branch-delay bookkeeping and the interpreter;
//! - [`loader`]: byte images, segment seeding and run orchestration.

pub mod bits;
pub mod err;
pub mod ram;
pub mod cache;
pub mod cop0;
pub mod cpu;
pub mod stats;
pub mod hierarchy;
pub mod reporter;
pub mod instr;
pub mod loader;

pub use bits::{branch_addr, jump_addr, sign_extend, sign_extend_cast};
pub use err::EmuError;
pub use instr::{FloatRegister, Instruction, Kind, Register};
