//! Characters and white space: what the readers of hexadecimal bytecode and
//! of program-counter traces share.

use vstd::prelude::*;

verus! {

/// `c` has the Unicode property `White_Space`.
pub open spec fn spec_is_whitespace(c: char) -> bool {
    let code = c as u32;
    ||| 0x09 <= code <= 0x0d  // tab, line feed, vertical tab, form feed, carriage return
    ||| code == 0x20  // space
    ||| code == 0x85  // next line
    ||| code == 0xa0  // no-break space
    ||| code == 0x1680  // ogham space mark
    ||| 0x2000 <= code <= 0x200a  // en quad to hair space
    ||| code == 0x2028  // line separator
    ||| code == 0x2029  // paragraph separator
    ||| code == 0x202f  // narrow no-break space
    ||| code == 0x205f  // medium mathematical space
    ||| code == 0x3000  // ideographic space
}

/// Whether `c` is white space.
#[verifier::when_used_as_spec(spec_is_whitespace)]
pub fn is_whitespace(c: char) -> (result: bool)
    ensures
        result == spec_is_whitespace(c),
{
    let code = c as u32;
    (0x09 <= code && code <= 0x0d) || code == 0x20 || code == 0x85 || code == 0xa0 || code
        == 0x1680 || (0x2000 <= code && code <= 0x200a) || code == 0x2028 || code == 0x2029
        || code == 0x202f || code == 0x205f || code == 0x3000
}

/// `s` without the white space at its start.
pub open spec fn trim_start(s: Seq<char>) -> Seq<char>
    decreases s.len(),
{
    if s.len() > 0 && is_whitespace(s.first()) {
        trim_start(s.drop_first())
    } else {
        s
    }
}

/// `s` without the white space at its end.
pub open spec fn trim_end(s: Seq<char>) -> Seq<char>
    decreases s.len(),
{
    if s.len() > 0 && is_whitespace(s.last()) {
        trim_end(s.drop_last())
    } else {
        s
    }
}

/// `s` without the white space at its start and at its end.
pub open spec fn trim(s: Seq<char>) -> Seq<char> {
    trim_end(trim_start(s))
}

/// `trim_start` drops a run of white space from the start of `s`, and stops
/// at the first character that is none.
pub proof fn lemma_trim_start(s: Seq<char>)
    ensures
        trim_start(s).len() <= s.len(),
        trim_start(s) == s.skip(s.len() - trim_start(s).len()),
        forall|i: int| 0 <= i < s.len() - trim_start(s).len() ==> is_whitespace(#[trigger] s[i]),
        trim_start(s).len() > 0 ==> !is_whitespace(trim_start(s).first()),
    decreases s.len(),
{
    if s.len() > 0 && is_whitespace(s.first()) {
        let rest = s.drop_first();
        lemma_trim_start(rest);
        let dropped = rest.len() - trim_start(rest).len();
        assert forall|i: int| 0 <= i < dropped + 1 implies is_whitespace(#[trigger] s[i]) by {
            if i > 0 {
                assert(s[i] == rest[i - 1]);
            }
        }
    }
}

/// `trim_end` drops a run of white space from the end of `s`, and stops at
/// the last character that is none.
pub proof fn lemma_trim_end(s: Seq<char>)
    ensures
        trim_end(s).len() <= s.len(),
        trim_end(s) == s.take(trim_end(s).len() as int),
        forall|i: int| trim_end(s).len() <= i < s.len() ==> is_whitespace(#[trigger] s[i]),
        trim_end(s).len() > 0 ==> !is_whitespace(trim_end(s).last()),
    decreases s.len(),
{
    if s.len() > 0 && is_whitespace(s.last()) {
        let rest = s.drop_last();
        lemma_trim_end(rest);
        assert forall|i: int| trim_end(s).len() <= i < s.len() implies is_whitespace(
            #[trigger] s[i],
        ) by {
            if i < rest.len() {
                assert(s[i] == rest[i]);
            }
        }
    }
}

/// What `trim` leaves of `s` is the part of `s` between the white space at
/// its two ends: it neither starts nor ends with white space, and outside of
/// it `s` holds nothing else.
pub proof fn lemma_trim(s: Seq<char>)
    ensures
        trim(s).len() > 0 ==> !is_whitespace(trim(s).first()) && !is_whitespace(trim(s).last()),
        ({
            let first = s.len() - trim_start(s).len();
            let last = first + trim(s).len();
            &&& 0 <= first <= last <= s.len()
            &&& trim(s) == s.subrange(first, last)
            &&& forall|i: int|
                0 <= i < first || last <= i < s.len() ==> is_whitespace(#[trigger] s[i])
        }),
{
    lemma_trim_start(s);
    lemma_trim_end(trim_start(s));
    let first = s.len() - trim_start(s).len();
    let last = first + trim(s).len();
    assert forall|i: int| last <= i < s.len() implies is_whitespace(#[trigger] s[i]) by {
        assert(s[i] == trim_start(s)[i - first]);
    }
}

/// The characters of `text`, one element for each.
pub fn to_chars(text: &str) -> (chars: Vec<char>)
    ensures
        chars@ == text@,
{
    let mut chars: Vec<char> = Vec::new();
    for c in it: text.chars()
        invariant
            it.seq() == text@,
            chars@ == text@.take(it.index()),
    {
        chars.push(c);
    }
    chars
}

/// Trims the part of `chars` from `start` to `end`: returns the bounds of
/// what is left of it without the white space at its two ends.
pub fn trim_range(chars: &[char], start: usize, end: usize) -> (range: (usize, usize))
    requires
        start <= end <= chars.len(),
    ensures
        start <= range.0 <= range.1 <= end,
        chars@.subrange(range.0 as int, range.1 as int) == trim(
            chars@.subrange(start as int, end as int),
        ),
{
    let ghost whole = chars@.subrange(start as int, end as int);
    let mut first = start;
    while first < end && is_whitespace(chars[first])
        invariant
            start <= first <= end <= chars.len(),
            trim_start(whole) == trim_start(chars@.subrange(first as int, end as int)),
        decreases end - first,
    {
        assert(chars@.subrange(first as int, end as int).drop_first() =~= chars@.subrange(
            first + 1,
            end as int,
        ));
        first = first + 1;
    }
    let ghost tail = chars@.subrange(first as int, end as int);
    let mut last = end;
    while first < last && is_whitespace(chars[last - 1])
        invariant
            first <= last <= end <= chars.len(),
            trim_end(tail) == trim_end(chars@.subrange(first as int, last as int)),
        decreases last - first,
    {
        assert(chars@.subrange(first as int, last as int).drop_last() =~= chars@.subrange(
            first as int,
            last - 1,
        ));
        last = last - 1;
    }
    (first, last)
}

} // verus!
