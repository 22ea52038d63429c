//! Instruction-level code coverage for EVM bytecode.
//!
//! Given the bytecode of a contract and the program counters that a test
//! run visited, the crate reports how many of the instruction boundaries of
//! the bytecode were exercised. The work is split in three:
//!
//! * [`scan`] walks raw bytecode and marks every offset at which an
//!   instruction starts, stepping over the immediate data of `PUSH`
//!   instructions ([`process_bytecode`] does the same for bytecode that is
//!   written as hexadecimal text);
//! * [`process_pc`] reads a textual trace of `PC: <n>` entries;
//! * [`coverage`] counts the marked offsets that the trace visited.
//!
//! Raw bytes are the form in which bytecode is scanned. Hexadecimal text is
//! never guessed at: a caller that holds text says so by calling
//! [`process_bytecode`].
//!
//! Every function is verified against a mathematical model of its result,
//! given by the `spec` functions that stand next to it.

pub mod coverage;
pub mod hex;
pub mod mapping;
pub mod opcode;
pub mod scanner;
pub mod text;
pub mod trace;

pub use coverage::{coverage, Coverage, CoverageError};
pub use hex::{decode_hex, to_hex, HexError};
pub use mapping::IterableMapping;
pub use scanner::{process_bytecode, scan};
pub use trace::{process_pc, ParseError};
