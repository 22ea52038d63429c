//! Counting the instruction starts that a trace visited.
//!
//! The marks that [`crate::scanner::scan`] sets double as the record of what
//! is still to be counted: an offset counts on the first visit, and its mark
//! is cleared so that later visits change nothing. Coverage is the number of
//! offsets hit over the number of offsets marked; the library hands out the
//! two numbers, and the ratio is theirs to divide.

use crate::mapping::IterableMapping;
use crate::opcode::is_plain;
use crate::scanner::{lemma_plain_code_marks_every_offset, marks_starts_of};
use vstd::prelude::*;

verus! {

/// How much of the code a trace exercised: `hits` of the `total` instruction
/// starts, with `hits <= total` and `total > 0`.
#[derive(Clone, Copy, Debug, PartialEq, Eq, Structural)]
pub struct Coverage {
    /// The number of instruction starts that the trace visited.
    pub hits: usize,
    /// The number of instruction starts.
    pub total: usize,
}

/// Why no coverage can be given.
#[derive(Clone, Copy, Debug, PartialEq, Eq, Structural)]
pub enum CoverageError {
    /// There is no instruction start, so the ratio has no denominator.
    EmptyCoverageDomain,
}

/// The trace holds the program counter `offset`.
pub open spec fn visits(trace: Seq<i32>, offset: usize) -> bool {
    exists|i: int| 0 <= i < trace.len() && #[trigger] trace[i] == offset
}

/// The offsets that count as hit: those that are marked `true` and that the
/// trace holds, each one once however often it is visited.
pub open spec fn hit_offsets(marks: Map<usize, bool>, trace: Seq<i32>) -> Set<usize> {
    Set::new(|offset: usize| marks.contains_key(offset) && marks[offset] && visits(trace, offset))
}

/// `result` is the coverage of `trace` over `marks`: the error where nothing
/// is marked, and otherwise the number of offsets hit and the number of
/// offsets marked.
pub open spec fn is_coverage_of(
    result: Result<Coverage, CoverageError>,
    marks: Map<usize, bool>,
    trace: Seq<i32>,
) -> bool {
    if marks.dom().len() == 0 {
        result == Err::<Coverage, CoverageError>(CoverageError::EmptyCoverageDomain)
    } else {
        &&& result is Ok
        &&& result->Ok_0.hits == hit_offsets(marks, trace).len()
        &&& result->Ok_0.total == marks.dom().len()
    }
}

/// A trace that is one entry longer visits what it visited before, and the
/// new entry.
proof fn lemma_visits_next(trace: Seq<i32>, n: int, offset: usize)
    requires
        0 <= n < trace.len(),
    ensures
        visits(trace.take(n + 1), offset) <==> visits(trace.take(n), offset) || trace[n] == offset,
{
    let shorter = trace.take(n);
    let longer = trace.take(n + 1);
    if visits(longer, offset) {
        let i = choose|i: int| 0 <= i < longer.len() && #[trigger] longer[i] == offset;
        if i < n {
            assert(shorter[i] == offset);
        }
    }
    if visits(shorter, offset) {
        let i = choose|i: int| 0 <= i < shorter.len() && #[trigger] shorter[i] == offset;
        assert(longer[i] == offset);
    }
    if trace[n] == offset {
        assert(longer[n] == offset);
    }
}

/// The offsets hit are among the offsets marked.
pub proof fn lemma_hits_within_marks(marks: Map<usize, bool>, trace: Seq<i32>)
    requires
        marks.dom().finite(),
    ensures
        hit_offsets(marks, trace).finite(),
        hit_offsets(marks, trace).subset_of(marks.dom()),
        hit_offsets(marks, trace).len() <= marks.dom().len(),
{
    vstd::set_lib::lemma_len_subset(hit_offsets(marks, trace), marks.dom());
}

/// Counts the marked offsets that a trace visited.
///
/// A program counter that is no marked offset is passed over, and so is
/// every visit of an offset after the first. An offset whose mark is `false`
/// on entry counts as seen already.
pub fn coverage(byte_set: IterableMapping<usize, bool>, pc_set: Vec<i32>) -> (result: Result<
    Coverage,
    CoverageError,
>)
    requires
        byte_set.wf(),
    ensures
        is_coverage_of(result, byte_set@, pc_set@),
        result matches Ok(found) ==> found.hits <= found.total && found.total > 0,
{
    let ghost fresh = byte_set@;
    let total = byte_set.total;
    if total == 0 {
        return Err(CoverageError::EmptyCoverageDomain);
    }
    let mut marks = byte_set;
    let mut hits: usize = 0;
    let mut i: usize = 0;
    proof {
        assert(hit_offsets(fresh, pc_set@.take(0)) =~= Set::empty());
    }
    while i < pc_set.len()
        invariant
            i <= pc_set.len(),
            fresh.dom().finite(),
            fresh.dom().len() == total,
            marks@.dom() == fresh.dom(),
            forall|offset: usize|
                fresh.contains_key(offset) ==> (#[trigger] marks@[offset] <==> fresh[offset]
                    && !visits(pc_set@.take(i as int), offset)),
            hits == hit_offsets(fresh, pc_set@.take(i as int)).len(),
        decreases pc_set.len() - i,
    {
        let pc = pc_set[i];
        let ghost before = hit_offsets(fresh, pc_set@.take(i as int));
        let ghost after = hit_offsets(fresh, pc_set@.take(i + 1));
        proof {
            lemma_hits_within_marks(fresh, pc_set@.take(i as int));
            lemma_hits_within_marks(fresh, pc_set@.take(i + 1));
            assert forall|offset: usize|
                visits(pc_set@.take(i + 1), offset) <==> visits(pc_set@.take(i as int), offset)
                    || pc == offset by {
                lemma_visits_next(pc_set@, i as int, offset);
            }
        }
        let unseen = pc >= 0 && match marks.at(pc as usize) {
            Some(mark) => *mark,
            None => false,
        };
        if unseen {
            assert(after =~= before.insert(pc as usize));
            hits = hits + 1;
            marks.map.insert(pc as usize, false);
        } else {
            assert(after =~= before);
        }
        i = i + 1;
    }
    proof {
        assert(pc_set@.take(pc_set@.len() as int) =~= pc_set@);
        lemma_hits_within_marks(fresh, pc_set@);
    }
    Ok(Coverage { hits, total })
}

/// Coverage is a function of the marks and the trace alone: whatever two
/// runs on the same marks and the same trace return, they return the same.
pub proof fn lemma_coverage_is_deterministic(
    marks: Map<usize, bool>,
    trace: Seq<i32>,
    first: Result<Coverage, CoverageError>,
    second: Result<Coverage, CoverageError>,
)
    requires
        is_coverage_of(first, marks, trace),
        is_coverage_of(second, marks, trace),
    ensures
        first == second,
{
}

/// Traces that hold the same program counters hit the same offsets: neither
/// the order of the entries nor how often one is repeated bears on coverage.
pub proof fn lemma_hits_ignore_order_and_repeats(
    marks: Map<usize, bool>,
    first: Seq<i32>,
    second: Seq<i32>,
)
    requires
        first.to_set() == second.to_set(),
    ensures
        hit_offsets(marks, first) == hit_offsets(marks, second),
{
    assert forall|offset: usize| visits(first, offset) <==> visits(second, offset) by {
        lemma_visits_by_set(first, second, offset);
        lemma_visits_by_set(second, first, offset);
    }
}

/// What a trace visits, a trace that holds all of its program counters
/// visits too.
proof fn lemma_visits_by_set(first: Seq<i32>, second: Seq<i32>, offset: usize)
    requires
        first.to_set().subset_of(second.to_set()),
    ensures
        visits(first, offset) ==> visits(second, offset),
{
    if visits(first, offset) {
        let i = choose|i: int| 0 <= i < first.len() && #[trigger] first[i] == offset;
        assert(first.to_set().contains(first[i]));
        assert(second.contains(first[i]));
        let j = choose|j: int| 0 <= j < second.len() && second[j] == first[i];
        assert(second[j] == offset);
    }
}

/// A program counter that is negative or that is no marked offset leaves
/// the offsets hit as they were.
pub proof fn lemma_unmarked_pc_is_ignored(marks: Map<usize, bool>, trace: Seq<i32>, pc: i32)
    requires
        pc < 0 || !marks.contains_key(pc as usize),
    ensures
        hit_offsets(marks, trace.push(pc)) == hit_offsets(marks, trace),
{
    let longer = trace.push(pc);
    assert forall|offset: usize| marks.contains_key(offset) implies (visits(longer, offset)
        <==> visits(trace, offset)) by {
        if visits(longer, offset) {
            let i = choose|i: int| 0 <= i < longer.len() && #[trigger] longer[i] == offset;
            assert(trace[i] == offset);
        }
        if visits(trace, offset) {
            let i = choose|i: int| 0 <= i < trace.len() && #[trigger] trace[i] == offset;
            assert(longer[i] == offset);
        }
    }
}

/// Where every mark is `true` and the trace visits every marked offset,
/// every marked offset is hit.
pub proof fn lemma_full_coverage(marks: Map<usize, bool>, trace: Seq<i32>)
    requires
        forall|offset: usize| #[trigger]
            marks.contains_key(offset) ==> marks[offset] && visits(trace, offset),
    ensures
        hit_offsets(marks, trace) == marks.dom(),
{
}

/// Code made of one-byte instructions alone, of which the trace visits
/// every offset, is covered in full: as many hits as bytes.
pub proof fn lemma_plain_code_visited_throughout(
    code: Seq<u8>,
    marks: IterableMapping<usize, bool>,
    trace: Seq<i32>,
    result: Result<Coverage, CoverageError>,
)
    requires
        code.len() > 0,
        forall|i: int| 0 <= i < code.len() ==> is_plain(#[trigger] code[i]),
        marks_starts_of(marks, code),
        forall|offset: usize| offset < code.len() ==> visits(trace, offset),
        is_coverage_of(result, marks@, trace),
    ensures
        result is Ok,
        result->Ok_0.hits == code.len(),
        result->Ok_0.total == code.len(),
{
    lemma_plain_code_marks_every_offset(code);
    lemma_full_coverage(marks@, trace);
}

} // verus!
