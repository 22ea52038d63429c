//! Bytecode written as hexadecimal text: two digits for each byte, with
//! white space allowed before the first digit and after the last.

use crate::text::{to_chars, trim, trim_range};
use vstd::prelude::*;

verus! {

/// Why a text is not the hexadecimal form of a sequence of bytes.
#[derive(Clone, Copy, Debug, PartialEq, Eq, Structural)]
pub enum HexError {
    /// The text holds a character that is no hexadecimal digit; this is the
    /// first such character.
    InvalidDigit(char),
    /// The digits are odd in number, so the last byte lacks its low half.
    OddLength,
}

/// The value of a hexadecimal digit, in either case; `None` for every other
/// character.
pub open spec fn hex_value(c: char) -> Option<u8> {
    if '0' <= c <= '9' {
        Some((c as u32 - '0' as u32) as u8)
    } else if 'a' <= c <= 'f' {
        Some((c as u32 - 'a' as u32 + 10) as u8)
    } else if 'A' <= c <= 'F' {
        Some((c as u32 - 'A' as u32 + 10) as u8)
    } else {
        None
    }
}

/// The value of the hexadecimal digit `x`, if it is one.
pub fn to_hex(x: char) -> (value: Option<u8>)
    ensures
        value == hex_value(x),
        value matches Some(v) ==> v < 16,
{
    if '0' <= x && x <= '9' {
        Some((x as u32 - '0' as u32) as u8)
    } else if 'a' <= x && x <= 'f' {
        Some((x as u32 - 'a' as u32 + 10) as u8)
    } else if 'A' <= x && x <= 'F' {
        Some((x as u32 - 'A' as u32 + 10) as u8)
    } else {
        None
    }
}

/// Every character of `digits` is a hexadecimal digit.
pub open spec fn all_hex(digits: Seq<char>) -> bool {
    forall|i: int| 0 <= i < digits.len() ==> hex_value(#[trigger] digits[i]) is Some
}

/// The character at index `i` is no hexadecimal digit, and every character
/// before it is one.
pub open spec fn is_first_non_hex(digits: Seq<char>, i: int) -> bool {
    &&& 0 <= i < digits.len()
    &&& hex_value(digits[i]) is None
    &&& forall|j: int| 0 <= j < i ==> hex_value(#[trigger] digits[j]) is Some
}

/// The byte that the pair of digits number `i` denotes, the high half
/// first.
pub open spec fn byte_at(digits: Seq<char>, i: int) -> u8 {
    (16 * hex_value(digits[2 * i]).unwrap() + hex_value(digits[2 * i + 1]).unwrap()) as u8
}

/// The bytes that a hexadecimal text denotes.
///
/// The text is trimmed first. A character that is no digit is reported
/// before an odd number of digits is.
pub open spec fn hex_bytes(text: Seq<char>) -> Result<Seq<u8>, HexError> {
    let digits = trim(text);
    if !all_hex(digits) {
        Err(HexError::InvalidDigit(digits[choose|i: int| is_first_non_hex(digits, i)]))
    } else if digits.len() % 2 != 0 {
        Err(HexError::OddLength)
    } else {
        Ok(Seq::new(digits.len() / 2, |i: int| byte_at(digits, i)))
    }
}

/// Where the first character that is no hexadecimal digit stands at `at`,
/// it is the one that `hex_bytes` reports.
proof fn lemma_first_non_hex(digits: Seq<char>, at: int)
    requires
        is_first_non_hex(digits, at),
    ensures
        !all_hex(digits),
        (choose|i: int| is_first_non_hex(digits, i)) == at,
{
}

/// Decodes hexadecimal text into the bytes it denotes.
pub fn decode_hex(text: &str) -> (result: Result<Vec<u8>, HexError>)
    ensures
        match hex_bytes(text@) {
            Ok(bytes) => result is Ok && result->Ok_0@ == bytes,
            Err(error) => result == Err::<Vec<u8>, HexError>(error),
        },
{
    let chars = to_chars(text);
    let range = trim_range(chars.as_slice(), 0, chars.len());
    let ghost digits = trim(text@);
    assert(chars@.subrange(0, chars.len() as int) =~= text@);
    let mut bytes: Vec<u8> = Vec::new();
    let mut i = range.0;
    while range.1 - i >= 2
        invariant
            range.0 <= i <= range.1 <= chars.len(),
            digits == chars@.subrange(range.0 as int, range.1 as int),
            digits == trim(text@),
            (i - range.0) % 2 == 0,
            forall|k: int| 0 <= k < i - range.0 ==> hex_value(#[trigger] digits[k]) is Some,
            bytes@.len() == (i - range.0) / 2,
            forall|k: int| 0 <= k < bytes@.len() ==> #[trigger] bytes@[k] == byte_at(digits, k),
        decreases range.1 - i,
    {
        let high = match to_hex(chars[i]) {
            Some(value) => value,
            None => {
                proof {
                    lemma_first_non_hex(digits, i - range.0);
                }
                return Err(HexError::InvalidDigit(chars[i]));
            },
        };
        let low = match to_hex(chars[i + 1]) {
            Some(value) => value,
            None => {
                proof {
                    lemma_first_non_hex(digits, i + 1 - range.0);
                }
                return Err(HexError::InvalidDigit(chars[i + 1]));
            },
        };
        bytes.push(high * 16 + low);
        i = i + 2;
    }
    if i < range.1 {
        match to_hex(chars[i]) {
            Some(_) => Err(HexError::OddLength),
            None => {
                proof {
                    lemma_first_non_hex(digits, i - range.0);
                }
                Err(HexError::InvalidDigit(chars[i]))
            },
        }
    } else {
        Ok(bytes)
    }
}

} // verus!
