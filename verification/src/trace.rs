//! Reading a trace of program counters.
//!
//! A trace is text in which each entry is written `PC: <n>`. The text is cut
//! at every occurrence of the delimiter `"PC: "`; what stands between two
//! cuts, without the white space around it, is a token, and every token
//! that is not empty has to be a decimal number that fits in an `i32`.
//! The text before the first delimiter is cut off like every other piece:
//! where it holds more than white space, it has to be a number too.

use crate::text::{to_chars, trim, trim_range};
use vstd::prelude::*;

verus! {

/// The number of characters of the delimiter `"PC: "`.
pub const DELIMITER_LEN: usize = 4;

/// The delimiter: the characters of `"PC: "`.
pub open spec fn delimiter() -> Seq<char> {
    seq!['P', 'C', ':', ' ']
}

/// The delimiter stands in `text` at offset `at`.
pub open spec fn delimiter_at(text: Seq<char>, at: int) -> bool {
    &&& 0 <= at
    &&& at + DELIMITER_LEN <= text.len()
    &&& text.subrange(at, at + DELIMITER_LEN) =~= delimiter()
}

/// The offset of the first delimiter of `text` at or after `from`, or the
/// length of `text` where there is none.
pub open spec fn next_delimiter(text: Seq<char>, from: int) -> int
    decreases text.len() - from,
{
    if from >= text.len() {
        text.len() as int
    } else if delimiter_at(text, from) {
        from
    } else {
        next_delimiter(text, from + 1)
    }
}

/// The pieces into which the delimiters cut the part of `text` that starts
/// at `from`: one more than there are delimiters, empty pieces included.
pub open spec fn segments_from(text: Seq<char>, from: int) -> Seq<Seq<char>>
    decreases text.len() - from,
{
    let cut = next_delimiter(text, from);
    if from <= cut && cut + DELIMITER_LEN <= text.len() {
        seq![text.subrange(from, cut)] + segments_from(text, cut + DELIMITER_LEN)
    } else {
        seq![text.subrange(from, text.len() as int)]
    }
}

/// The pieces into which the delimiters cut `text`.
pub open spec fn segments(text: Seq<char>) -> Seq<Seq<char>> {
    segments_from(text, 0)
}

/// The tokens of a sequence of pieces: each piece trimmed, the empty ones
/// left out.
pub open spec fn tokens_of(pieces: Seq<Seq<char>>) -> Seq<Seq<char>> {
    pieces.map_values(|piece: Seq<char>| trim(piece)).filter(|token: Seq<char>| token.len() > 0)
}

/// The tokens of `text`, in the order in which they stand in it.
pub open spec fn tokens(text: Seq<char>) -> Seq<Seq<char>> {
    tokens_of(segments(text))
}

/// `c` is one of the digits `0` to `9`.
pub open spec fn is_digit(c: char) -> bool {
    '0' <= c <= '9'
}

/// The value of the digit `c`.
pub open spec fn digit_value(c: char) -> int {
    c as u32 - '0' as u32
}

/// Every character of `s` is a digit.
pub open spec fn all_digits(s: Seq<char>) -> bool {
    forall|i: int| 0 <= i < s.len() ==> is_digit(#[trigger] s[i])
}

/// The number that a sequence of digits denotes in base 10.
pub open spec fn digits_value(s: Seq<char>) -> int
    decreases s.len(),
{
    if s.len() == 0 {
        0
    } else {
        10 * digits_value(s.drop_last()) + digit_value(s.last())
    }
}

/// `s` starts with a sign.
pub open spec fn has_sign(s: Seq<char>) -> bool {
    s.len() > 0 && (s[0] == '-' || s[0] == '+')
}

/// The integer that `s` denotes: an optional sign, `+` or `-`, and then one
/// or more digits. Anything else denotes no integer.
pub open spec fn decimal_value(s: Seq<char>) -> Option<int> {
    let digits = if has_sign(s) {
        s.drop_first()
    } else {
        s
    };
    if digits.len() == 0 || !all_digits(digits) {
        None
    } else if s[0] == '-' {
        Some(-digits_value(digits))
    } else {
        Some(digits_value(digits))
    }
}

/// The program counter that a token denotes: its decimal value, where it
/// has one and that fits in an `i32`.
pub open spec fn decimal_i32(s: Seq<char>) -> Option<i32> {
    match decimal_value(s) {
        Some(value) => if i32::MIN <= value <= i32::MAX {
            Some(value as i32)
        } else {
            None
        },
        None => None,
    }
}

/// Every token denotes a program counter.
pub open spec fn all_accepted(tokens: Seq<Seq<char>>) -> bool {
    forall|i: int| 0 <= i < tokens.len() ==> decimal_i32(#[trigger] tokens[i]) is Some
}

/// The token at index `i` denotes no program counter, and every token
/// before it denotes one.
pub open spec fn is_first_rejected(tokens: Seq<Seq<char>>, i: int) -> bool {
    &&& 0 <= i < tokens.len()
    &&& decimal_i32(tokens[i]) is None
    &&& forall|j: int| 0 <= j < i ==> decimal_i32(#[trigger] tokens[j]) is Some
}

/// What a trace text holds: the program counters of its tokens in order,
/// or, where a token denotes none, the first such token.
pub open spec fn parse_trace(text: Seq<char>) -> Result<Seq<i32>, Seq<char>> {
    let tokens = tokens(text);
    if all_accepted(tokens) {
        Ok(tokens.map_values(|token: Seq<char>| decimal_i32(token).unwrap()))
    } else {
        Err(tokens[choose|i: int| is_first_rejected(tokens, i)])
    }
}

/// A token of a trace that is no decimal number, or none that fits in an
/// `i32`.
#[derive(Debug)]
pub struct ParseError {
    /// The token as it stands in the trace, without the white space around
    /// it.
    pub token: String,
}

/// A sequence of digits denotes at least what any of its prefixes denotes.
proof fn lemma_digits_value_grows(s: Seq<char>, n: int)
    requires
        all_digits(s),
        0 <= n <= s.len(),
    ensures
        0 <= digits_value(s.take(n)) <= digits_value(s),
    decreases s.len() - n,
{
    if n == s.len() {
        assert(s.take(n) =~= s);
        lemma_digits_value_nonnegative(s);
    } else {
        lemma_digits_value_grows(s, n + 1);
        assert(s.take(n + 1).drop_last() =~= s.take(n));
        lemma_digits_value_nonnegative(s.take(n));
    }
}

/// A sequence of digits denotes a natural number.
proof fn lemma_digits_value_nonnegative(s: Seq<char>)
    requires
        all_digits(s),
    ensures
        0 <= digits_value(s),
    decreases s.len(),
{
    if s.len() > 0 {
        lemma_digits_value_nonnegative(s.drop_last());
    }
}

/// Reads the part of `chars` from `start` to `end` as a program counter.
pub fn parse_decimal(chars: &[char], start: usize, end: usize) -> (value: Option<i32>)
    requires
        start <= end <= chars.len(),
    ensures
        value == decimal_i32(chars@.subrange(start as int, end as int)),
{
    let ghost token = chars@.subrange(start as int, end as int);
    if start == end {
        return None;
    }
    let negative = chars[start] == '-';
    let first = if negative || chars[start] == '+' {
        start + 1
    } else {
        start
    };
    let ghost digits = chars@.subrange(first as int, end as int);
    if first == end {
        return None;
    }
    let mut magnitude: u64 = 0;
    let mut i = first;
    while i < end
        invariant
            start <= first <= i <= end <= chars.len(),
            token == chars@.subrange(start as int, end as int),
            digits == chars@.subrange(first as int, end as int),
            digits == if has_sign(token) {
                token.drop_first()
            } else {
                token
            },
            all_digits(digits.take(i - first)),
            magnitude == digits_value(digits.take(i - first)),
            magnitude <= 0x8000_0000,
        decreases end - i,
    {
        let c = chars[i];
        if c < '0' || c > '9' {
            assert(!is_digit(digits[i - first]));
            return None;
        }
        proof {
            let longer = digits.take(i - first + 1);
            assert(longer.drop_last() =~= digits.take(i - first));
            assert forall|k: int| 0 <= k < longer.len() implies is_digit(#[trigger] longer[k]) by {
                if k < i - first {
                    assert(longer[k] == digits.take(i - first)[k]);
                }
            }
        }
        magnitude = magnitude * 10 + (c as u32 - '0' as u32) as u64;
        i = i + 1;
        if magnitude > 0x8000_0000 {
            proof {
                if all_digits(digits) {
                    lemma_digits_value_grows(digits, i - first);
                }
            }
            return None;
        }
    }
    assert(digits.take(i - first) =~= digits);
    if negative {
        Some((0 - magnitude as i64) as i32)
    } else if magnitude <= 0x7fff_ffff {
        Some(magnitude as i32)
    } else {
        None
    }
}

/// Finds the first delimiter of `chars` at or after `from`.
fn find_delimiter(chars: &[char], from: usize) -> (at: usize)
    requires
        from <= chars.len(),
    ensures
        at == next_delimiter(chars@, from as int),
        from <= at <= chars.len(),
        at < chars.len() ==> delimiter_at(chars@, at as int),
{
    let mut i = from;
    while i < chars.len()
        invariant
            from <= i <= chars.len(),
            next_delimiter(chars@, from as int) == next_delimiter(chars@, i as int),
        decreases chars.len() - i,
    {
        if chars.len() - i >= DELIMITER_LEN && chars[i] == 'P' && chars[i + 1] == 'C' && chars[i
            + 2] == ':' && chars[i + 3] == ' ' {
            return i;
        }
        i = i + 1;
    }
    i
}

/// The delimiter is the text `"PC: "`.
pub proof fn lemma_delimiter_is_literal()
    ensures
        delimiter() == "PC: "@,
        delimiter().len() == DELIMITER_LEN,
{
    reveal_strlit("PC: ");
    assert(delimiter() =~= "PC: "@);
}

/// `next_delimiter` finds the first delimiter at or after `from`: a
/// delimiter stands where it points, unless it points to the end of the
/// text, and none stands before.
pub proof fn lemma_next_delimiter_is_first(text: Seq<char>, from: int)
    requires
        0 <= from <= text.len(),
    ensures
        from <= next_delimiter(text, from) <= text.len(),
        next_delimiter(text, from) < text.len() ==> delimiter_at(text, next_delimiter(text, from)),
        forall|i: int| from <= i < next_delimiter(text, from) ==> !delimiter_at(text, i),
    decreases text.len() - from,
{
    if from < text.len() && !delimiter_at(text, from) {
        lemma_next_delimiter_is_first(text, from + 1);
    }
}

/// Where a delimiter is left, the pieces from `from` are the piece up to it
/// and the pieces after it; where none is left, the rest of the text is the
/// one piece.
pub proof fn lemma_segments_step(text: Seq<char>, from: int)
    requires
        0 <= from <= text.len(),
    ensures
        ({
            let cut = next_delimiter(text, from);
            if cut < text.len() {
                segments_from(text, from) == seq![text.subrange(from, cut)] + segments_from(
                    text,
                    cut + DELIMITER_LEN,
                )
            } else {
                segments_from(text, from) == seq![text.subrange(from, text.len() as int)]
            }
        }),
{
    lemma_next_delimiter_is_first(text, from);
}

/// The pieces in a row, with a delimiter between each two.
pub open spec fn joined(pieces: Seq<Seq<char>>) -> Seq<char>
    decreases pieces.len(),
{
    if pieces.len() == 0 {
        Seq::empty()
    } else if pieces.len() == 1 {
        pieces[0]
    } else {
        pieces[0] + delimiter() + joined(pieces.drop_first())
    }
}

/// Cutting loses nothing: the pieces, joined by delimiters, are the text.
pub proof fn lemma_segments_rejoin(text: Seq<char>, from: int)
    requires
        0 <= from <= text.len(),
    ensures
        segments_from(text, from).len() >= 1,
        joined(segments_from(text, from)) == text.subrange(from, text.len() as int),
    decreases text.len() - from,
{
    lemma_segments_step(text, from);
    lemma_next_delimiter_is_first(text, from);
    let cut = next_delimiter(text, from);
    if cut < text.len() {
        let after = cut + DELIMITER_LEN;
        let pieces = segments_from(text, from);
        lemma_segments_rejoin(text, after);
        assert(pieces.drop_first() =~= segments_from(text, after));
        assert(text.subrange(cut, after) =~= delimiter());
        assert(text.subrange(from, cut) + text.subrange(cut, after) + text.subrange(
            after,
            text.len() as int,
        ) =~= text.subrange(from, text.len() as int));
    }
}

/// Every delimiter is cut out: no piece holds one.
pub proof fn lemma_pieces_hold_no_delimiter(text: Seq<char>, from: int, k: int, at: int)
    requires
        0 <= from <= text.len(),
        0 <= k < segments_from(text, from).len(),
    ensures
        !delimiter_at(segments_from(text, from)[k], at),
    decreases text.len() - from,
{
    lemma_segments_step(text, from);
    lemma_next_delimiter_is_first(text, from);
    let cut = next_delimiter(text, from);
    if k == 0 {
        let piece = text.subrange(from, cut);
        if delimiter_at(piece, at) {
            assert(delimiter_at(text, from + at));
        }
    } else {
        lemma_pieces_hold_no_delimiter(text, cut + DELIMITER_LEN, k - 1, at);
    }
}

/// One more piece adds its token to the tokens, unless the token is empty.
pub proof fn lemma_tokens_push(pieces: Seq<Seq<char>>, piece: Seq<char>)
    ensures
        tokens_of(pieces.push(piece)) == if trim(piece).len() > 0 {
            tokens_of(pieces).push(trim(piece))
        } else {
            tokens_of(pieces)
        },
{
    reveal(Seq::filter);
    let trimmed = pieces.push(piece).map_values(|piece: Seq<char>| trim(piece));
    assert(trimmed.drop_last() =~= pieces.map_values(|piece: Seq<char>| trim(piece)));
}

/// The tokens of pieces in a row are the tokens of the first pieces and
/// then those of the others.
pub proof fn lemma_tokens_concat(first: Seq<Seq<char>>, second: Seq<Seq<char>>)
    ensures
        tokens_of(first + second) == tokens_of(first) + tokens_of(second),
{
    let trim_piece = |piece: Seq<char>| trim(piece);
    assert((first + second).map_values(trim_piece) =~= first.map_values(trim_piece)
        + second.map_values(trim_piece));
    Seq::filter_distributes_over_add(
        first.map_values(trim_piece),
        second.map_values(trim_piece),
        |token: Seq<char>| token.len() > 0,
    );
}

/// There is at most one first rejected token.
pub proof fn lemma_first_rejected_unique(tokens: Seq<Seq<char>>, i: int, j: int)
    requires
        is_first_rejected(tokens, i),
        is_first_rejected(tokens, j),
    ensures
        i == j,
{
}

/// Reads a trace of program counters.
///
/// Returns the program counters of the trace in the order in which they
/// stand in it, duplicates included, or the first token that is no program
/// counter.
pub fn process_pc(contents: String) -> (result: Result<Vec<i32>, ParseError>)
    ensures
        match parse_trace(contents@) {
            Ok(pcs) => result is Ok && result->Ok_0@ == pcs,
            Err(token) => result is Err && result->Err_0.token@ == token,
        },
{
    let chars = to_chars(contents.as_str());
    let ghost text = contents@;
    let mut pcs: Vec<i32> = Vec::new();
    let mut start: usize = 0;
    let mut finished = false;
    let ghost mut seen: Seq<Seq<char>> = Seq::empty();
    while !finished
        invariant
            contents@ == text,
            chars@ == text,
            start <= chars.len(),
            !finished ==> segments(text) == seen + segments_from(text, start as int),
            finished ==> segments(text) == seen,
            pcs@.len() == tokens_of(seen).len(),
            forall|i: int|
                0 <= i < pcs@.len() ==> decimal_i32(#[trigger] tokens_of(seen)[i]) == Some(
                    pcs@[i],
                ),
        decreases
                if finished {
                    0
                } else {
                    chars.len() - start + 1
                },
    {
        let cut = find_delimiter(chars.as_slice(), start);
        let range = trim_range(chars.as_slice(), start, cut);
        let ghost piece = text.subrange(start as int, cut as int);
        let ghost rest = if cut < chars.len() {
            segments_from(text, cut + DELIMITER_LEN)
        } else {
            Seq::empty()
        };
        proof {
            lemma_segments_step(text, start as int);
            lemma_tokens_push(seen, piece);
            assert(segments(text) =~= seen.push(piece) + rest);
        }
        if range.0 < range.1 {
            match parse_decimal(chars.as_slice(), range.0, range.1) {
                Some(pc) => {
                    pcs.push(pc);
                },
                None => {
                    let token = contents.as_str().substring_char(range.0, range.1).to_owned();
                    proof {
                        let all = tokens(text);
                        let at = tokens_of(seen).len() as int;
                        lemma_tokens_concat(seen.push(piece), rest);
                        assert(all[at] == tokens_of(seen.push(piece))[at]);
                        assert forall|j: int| 0 <= j < at implies decimal_i32(
                            #[trigger] all[j],
                        ) is Some by {
                            assert(all[j] == tokens_of(seen)[j]);
                        }
                        assert(is_first_rejected(all, at));
                        lemma_first_rejected_unique(
                            all,
                            at,
                            choose|i: int| is_first_rejected(all, i),
                        );
                    }
                    return Err(ParseError { token });
                },
            }
        }
        proof {
            seen = seen.push(piece);
        }
        if cut < chars.len() {
            start = cut + DELIMITER_LEN;
        } else {
            finished = true;
        }
    }
    Ok(pcs)
}

} // verus!
