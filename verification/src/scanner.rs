//! Finding the instruction boundaries of EVM bytecode.
//!
//! Whether a byte is an instruction or data depends on what precedes it: the
//! bytes that follow a `PUSH` opcode are its operand, whatever their values.
//! The boundaries are therefore defined by a sweep from offset 0 that steps
//! from each instruction to the next ([`instruction_starts`]), and [`scan`]
//! computes exactly that set.

use crate::hex::{decode_hex, hex_bytes, HexError};
use crate::mapping::IterableMapping;
use crate::opcode::{classify, immediate_len, is_opcode, is_plain, is_push, OpcodeKind, PUSH32};
use vstd::prelude::*;

verus! {

/// Where the sweep goes from `cursor`: past the byte there and past its
/// immediate data, but never past the end of the code. A push whose data is
/// cut short by the end of the code takes the sweep to the end.
pub open spec fn next_cursor(code: Seq<u8>, cursor: int) -> int
    recommends
        0 <= cursor < code.len(),
{
    let after = cursor + 1 + immediate_len(code[cursor]);
    if after <= code.len() {
        after
    } else {
        code.len() as int
    }
}

/// The offsets at or after `cursor` at which an instruction starts, given
/// that the sweep has arrived at `cursor`.
///
/// A byte that is an opcode is marked, and the sweep steps over it and its
/// immediate data; a byte that is no opcode is stepped over unmarked.
pub open spec fn starts_from(code: Seq<u8>, cursor: int) -> Set<int>
    decreases code.len() - cursor,
{
    if 0 <= cursor < code.len() {
        let rest = starts_from(code, next_cursor(code, cursor));
        if is_opcode(code[cursor]) {
            rest.insert(cursor)
        } else {
            rest
        }
    } else {
        Set::empty()
    }
}

/// The offsets of `code` at which an instruction starts.
pub open spec fn instruction_starts(code: Seq<u8>) -> Set<int> {
    starts_from(code, 0)
}

/// What is marked from `cursor` on lies between `cursor` and the end of the
/// code, and holds an opcode.
pub proof fn lemma_starts_from_bounds(code: Seq<u8>, cursor: int)
    requires
        0 <= cursor,
    ensures
        starts_from(code, cursor).finite(),
        forall|i: int| #[trigger]
            starts_from(code, cursor).contains(i) ==> cursor <= i < code.len() && is_opcode(
                code[i],
            ),
    decreases code.len() - cursor,
{
    if cursor < code.len() {
        lemma_starts_from_bounds(code, next_cursor(code, cursor));
    }
}

/// Every instruction start is an offset into the code, and the byte there is
/// an opcode.
pub proof fn lemma_starts_within_code(code: Seq<u8>)
    ensures
        instruction_starts(code).finite(),
        instruction_starts(code).len() <= code.len(),
        forall|i: int| #[trigger]
            instruction_starts(code).contains(i) ==> 0 <= i < code.len() && is_opcode(code[i]),
{
    lemma_starts_from_bounds(code, 0);
    let all = Set::new(|i: int| 0 <= i < code.len());
    vstd::set_lib::lemma_int_range(0, code.len() as int);
    assert(all =~= vstd::set_lib::set_int_range(0, code.len() as int));
    vstd::set_lib::lemma_len_subset(instruction_starts(code), all);
}

/// `marks` holds the instruction starts of `code`: its keys are exactly the
/// offsets of [`instruction_starts`], each of them is bound to `true`, and
/// `total` is their number.
pub open spec fn marks_starts_of(marks: IterableMapping<usize, bool>, code: Seq<u8>) -> bool {
    &&& marks.wf()
    &&& forall|offset: usize|
        #![trigger marks@.contains_key(offset)]
        #![trigger instruction_starts(code).contains(offset as int)]
        marks@.contains_key(offset) <==> instruction_starts(code).contains(offset as int)
    &&& forall|offset: usize| #[trigger] marks@.contains_key(offset) ==> marks@[offset]
    &&& marks.total == instruction_starts(code).len()
}

/// Scans raw bytecode and marks each offset at which an instruction starts.
///
/// No input is refused: a byte that is no opcode is passed over, and a push
/// that is cut short by the end of the code is marked like any other.
pub fn scan(bytecode: &[u8]) -> (result: IterableMapping<usize, bool>)
    ensures
        marks_starts_of(result, bytecode@),
{
    let mut result: IterableMapping<usize, bool> = IterableMapping::new();
    let mut cursor: usize = 0;
    let ghost mut marked: Set<int> = Set::empty();
    while cursor < bytecode.len()
        invariant
            cursor <= bytecode.len(),
            result.wf(),
            marked.finite(),
            marked.len() == result.total,
            forall|i: int| marked.contains(i) ==> 0 <= i < cursor,
            forall|offset: usize| result@.contains_key(offset) <==> marked.contains(offset as int),
            forall|offset: usize| result@.contains_key(offset) ==> result@[offset],
            instruction_starts(bytecode@) == marked.union(starts_from(bytecode@, cursor as int)),
        decreases bytecode.len() - cursor,
    {
        let ghost here = cursor as int;
        let ghost next = next_cursor(bytecode@, here);
        let kind = classify(bytecode[cursor]);
        proof {
            lemma_starts_from_bounds(bytecode@, next);
        }
        match kind {
            OpcodeKind::Plain => {
                result = result.put(cursor, true);
                proof {
                    marked = marked.insert(here);
                }
                cursor = cursor + 1;
            },
            OpcodeKind::Push(width) => {
                result = result.put(cursor, true);
                proof {
                    marked = marked.insert(here);
                }
                let rest: usize = bytecode.len() - cursor - 1;
                if (width as usize) < rest {
                    cursor = cursor + 1 + width as usize;
                } else {
                    cursor = bytecode.len();
                }
            },
            OpcodeKind::Unknown => {
                cursor = cursor + 1;
            },
        }
    }
    proof {
        assert(marked.union(starts_from(bytecode@, cursor as int)) =~= marked);
    }
    result
}

/// Scans bytecode that is written as hexadecimal text, two digits for each
/// byte: decodes the text and marks the instruction starts of the bytes.
///
/// Text that is no hexadecimal form of bytes is refused with the reason.
pub fn process_bytecode(bytecode: String) -> (result: Result<
    IterableMapping<usize, bool>,
    HexError,
>)
    ensures
        match hex_bytes(bytecode@) {
            Ok(code) => result is Ok && marks_starts_of(result->Ok_0, code),
            Err(error) => result is Err && result->Err_0 == error,
        },
{
    match decode_hex(bytecode.as_str()) {
        Ok(bytes) => Ok(scan(bytes.as_slice())),
        Err(error) => Err(error),
    }
}

/// From any cursor, code without a push instruction has every offset marked.
proof fn lemma_plain_code_from(code: Seq<u8>, cursor: int)
    requires
        0 <= cursor <= code.len(),
        forall|i: int| 0 <= i < code.len() ==> is_plain(#[trigger] code[i]),
    ensures
        starts_from(code, cursor) =~= Set::new(|i: int| cursor <= i < code.len()),
    decreases code.len() - cursor,
{
    if cursor < code.len() {
        lemma_plain_code_from(code, cursor + 1);
    }
}

/// In code made of one-byte instructions alone, every offset is an
/// instruction start, so there are as many starts as bytes.
pub proof fn lemma_plain_code_marks_every_offset(code: Seq<u8>)
    requires
        forall|i: int| 0 <= i < code.len() ==> is_plain(#[trigger] code[i]),
    ensures
        forall|i: int| instruction_starts(code).contains(i) <==> 0 <= i < code.len(),
        instruction_starts(code).len() == code.len(),
{
    lemma_plain_code_from(code, 0);
    vstd::set_lib::lemma_int_range(0, code.len() as int);
    assert(instruction_starts(code) =~= vstd::set_lib::set_int_range(0, code.len() as int));
}

/// The sweep from `cursor` marks no byte of the immediate data of an
/// instruction that it marks.
proof fn lemma_immediate_data_from(code: Seq<u8>, cursor: int, start: int, offset: int)
    requires
        0 <= cursor,
        starts_from(code, cursor).contains(start),
        start < offset <= start + immediate_len(code[start]),
    ensures
        !starts_from(code, cursor).contains(offset),
    decreases code.len() - cursor,
{
    let next = next_cursor(code, cursor);
    lemma_starts_from_bounds(code, next);
    if start != cursor {
        lemma_immediate_data_from(code, next, start, offset);
    }
}

/// No byte of the immediate data of a push instruction is an instruction
/// start: where `start` is one, the `immediate_len` offsets after it are
/// none.
pub proof fn lemma_immediate_data_is_unmarked(code: Seq<u8>, start: int, offset: int)
    requires
        instruction_starts(code).contains(start),
        start < offset <= start + immediate_len(code[start]),
    ensures
        !instruction_starts(code).contains(offset),
{
    lemma_immediate_data_from(code, 0, start, offset);
}

/// Code that is one push instruction and nothing after its immediate data
/// has its only instruction start at offset 0, whether the data is complete
/// or cut short by the end of the code.
pub proof fn lemma_lone_push(code: Seq<u8>)
    requires
        code.len() >= 1,
        is_push(code[0]),
        code.len() - 1 <= immediate_len(code[0]),
    ensures
        instruction_starts(code) =~= set![0int],
{
    assert(starts_from(code, code.len() as int) =~= Set::empty());
}

/// A `PUSH32` that is followed by fewer than 32 bytes is marked at offset 0,
/// and nothing else is.
pub proof fn lemma_truncated_push32(code: Seq<u8>)
    requires
        code.len() >= 1,
        code[0] == PUSH32,
        code.len() - 1 < 32,
    ensures
        instruction_starts(code) =~= set![0int],
{
    lemma_lone_push(code);
}

} // verus!
