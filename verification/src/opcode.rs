//! The part of the EVM opcode table that finding instruction boundaries
//! takes: which byte values are opcodes, and how many bytes of immediate
//! data follow each.

use vstd::prelude::*;

verus! {

/// The opcode of `PUSH1`, the first of the 32 push instructions.
pub const PUSH1: u8 = 0x60;

/// The opcode of `PUSH32`, the last of the push instructions.
pub const PUSH32: u8 = 0x7f;

/// What a byte value means where an instruction is expected.
#[derive(Clone, Copy, Debug, PartialEq, Eq, Structural)]
pub enum OpcodeKind {
    /// An instruction of one byte.
    Plain,
    /// A push instruction, with the number of bytes of immediate data that
    /// follow its opcode (1 to 32).
    Push(u8),
    /// A byte value that the table assigns to no instruction.
    Unknown,
}

/// `op` is one of `PUSH1` to `PUSH32`.
pub open spec fn is_push(op: u8) -> bool {
    PUSH1 <= op <= PUSH32
}

/// `op` is an instruction that stands alone, without immediate data.
pub open spec fn is_plain(op: u8) -> bool {
    ||| op <= 0x0b  // stop and arithmetic
    ||| 0x10 <= op <= 0x1a  // comparison and bitwise logic
    ||| op == 0x20  // hashing
    ||| 0x30 <= op <= 0x3e  // environment information
    ||| 0x40 <= op <= 0x45  // block information
    ||| 0x50 <= op <= 0x5b  // stack, memory, storage and flow
    ||| 0x80 <= op <= 0x8f  // duplication
    ||| 0x90 <= op <= 0x9f  // exchange
    ||| 0xa0 <= op <= 0xa4  // logging
    ||| 0xf0 <= op <= 0xf4  // system calls
    ||| 0xfd <= op  // revert, invalid, selfdestruct
}

/// `op` starts an instruction.
pub open spec fn is_opcode(op: u8) -> bool {
    is_plain(op) || is_push(op)
}

/// The number of bytes of immediate data that follow `op`: `n` for `PUSHn`,
/// none for every other byte value.
pub open spec fn immediate_len(op: u8) -> nat {
    if is_push(op) {
        (op - PUSH1 + 1) as nat
    } else {
        0
    }
}

/// The classification of `op`.
pub open spec fn opcode_kind(op: u8) -> OpcodeKind {
    if is_push(op) {
        OpcodeKind::Push((op - PUSH1 + 1) as u8)
    } else if is_plain(op) {
        OpcodeKind::Plain
    } else {
        OpcodeKind::Unknown
    }
}

/// Classifies a byte value.
pub fn classify(op: u8) -> (kind: OpcodeKind)
    ensures
        kind == opcode_kind(op),
        kind is Unknown <==> !is_opcode(op),
        kind matches OpcodeKind::Push(n) ==> n == immediate_len(op) && 1 <= n <= 32,
        !(kind is Push) ==> immediate_len(op) == 0,
{
    match op {
        0x00..=0x0b => OpcodeKind::Plain,
        0x10..=0x1a => OpcodeKind::Plain,
        0x20 => OpcodeKind::Plain,
        0x30..=0x3e => OpcodeKind::Plain,
        0x40..=0x45 => OpcodeKind::Plain,
        0x50..=0x5b => OpcodeKind::Plain,
        0x60..=0x7f => OpcodeKind::Push(op - PUSH1 + 1),
        0x80..=0x8f => OpcodeKind::Plain,
        0x90..=0x9f => OpcodeKind::Plain,
        0xa0..=0xa4 => OpcodeKind::Plain,
        0xf0..=0xf4 => OpcodeKind::Plain,
        0xfd..=0xff => OpcodeKind::Plain,
        _ => OpcodeKind::Unknown,
    }
}

} // verus!
