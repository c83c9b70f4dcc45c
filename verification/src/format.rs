//! The text layout of FASTQ, as functions on byte sequences.
//!
//! A record is four lines: a header that begins with `@`, the bases, a separator that
//! begins with `+`, and the qualities. Lines end with a line feed; the last line of a
//! stream may lack it. Nothing here is executable: the scanners and readers state their
//! contracts over these functions.

use vstd::prelude::*;
use crate::search::{
    is_first, is_first_match, lacks, lacks_match, lemma_occurrences_after_first,
    lemma_occurrences_none, lemma_occurrences_split, matches_at, occurrences,
};
use crate::sequence::fastq_record::BufferPosition;

verus! {

/// Line feed, the byte that ends a line.
pub const LF: u8 = 10;

/// Carriage return, which precedes the line feed in Windows line endings.
pub const CR: u8 = 13;

/// The first byte of a header line.
pub const AT: u8 = 64;

/// The first byte of a separator line.
pub const PLUS: u8 = 43;

/// The position just past the first line feed at or after `from`, or the length of `s`
/// when no line feed follows.
pub open spec fn next_line(s: Seq<u8>, from: int) -> int
    decreases s.len() - from,
{
    if from >= s.len() {
        s.len() as int
    } else if s[from] == LF {
        from + 1
    } else {
        next_line(s, from + 1)
    }
}

/// The line that begins at `from` ends with a line feed inside `s`.
pub open spec fn terminated(s: Seq<u8>, from: int) -> bool {
    from < s.len() && s[next_line(s, from) - 1] == LF
}

/// Where the line that begins at `from` ends: the position of its line feed, or the
/// length of `s` when it has none.
pub open spec fn line_end(s: Seq<u8>, from: int) -> int {
    if terminated(s, from) {
        next_line(s, from) - 1
    } else {
        s.len() as int
    }
}

/// What `next_line` is: it lies in `(from, len]`, no line feed stands before it, and
/// where the line is terminated the byte before it is the line feed.
pub proof fn lemma_next_line(s: Seq<u8>, from: int)
    requires
        0 <= from <= s.len(),
    ensures
        from <= next_line(s, from) <= s.len(),
        from < s.len() ==> from < next_line(s, from),
        forall|j: int| from <= j < next_line(s, from) - 1 ==> s[j] != LF,
        !terminated(s, from) ==> next_line(s, from) == s.len(),
        !terminated(s, from) ==> forall|j: int| from <= j < s.len() ==> s[j] != LF,
    decreases s.len() - from,
{
    if from < s.len() && s[from] != LF {
        lemma_next_line(s, from + 1);
    }
}

/// A line feed at `at` with none in `[from, at)` fixes `next_line(s, from)`.
pub proof fn lemma_next_line_at(s: Seq<u8>, from: int, at: int)
    requires
        0 <= from <= at < s.len(),
        s[at] == LF,
        forall|j: int| from <= j < at ==> s[j] != LF,
    ensures
        next_line(s, from) == at + 1,
        terminated(s, from),
    decreases at - from,
{
    if from < at {
        lemma_next_line_at(s, from + 1, at);
    }
}

/// Without a line feed at or after `from`, the line runs to the end of `s`.
pub proof fn lemma_next_line_none(s: Seq<u8>, from: int)
    requires
        0 <= from <= s.len(),
        forall|j: int| from <= j < s.len() ==> s[j] != LF,
    ensures
        next_line(s, from) == s.len(),
        !terminated(s, from),
    decreases s.len() - from,
{
    if from < s.len() {
        lemma_next_line_none(s, from + 1);
    }
}

/// The result of a byte search in the tail of `s` that begins at `from`, read as a
/// statement about `next_line`.
pub proof fn lemma_next_line_search(s: Seq<u8>, from: int, found: Option<usize>)
    requires
        0 <= from <= s.len(),
        match found {
            Some(i) => is_first(s.subrange(from, s.len() as int), LF, i as int),
            None => lacks(s.subrange(from, s.len() as int), LF),
        },
    ensures
        match found {
            Some(i) => terminated(s, from) && next_line(s, from) == from + i + 1,
            None => !terminated(s, from) && next_line(s, from) == s.len(),
        },
{
    let tail = s.subrange(from, s.len() as int);
    match found {
        Some(i) => {
            assert(tail[i as int] == s[from + i]);
            assert forall|j: int| from <= j < from + i implies s[j] != LF by {
                assert(tail[j - from] == s[j]);
            }
            lemma_next_line_at(s, from, from + i);
        },
        None => {
            assert forall|j: int| from <= j < s.len() implies s[j] != LF by {
                assert(tail[j - from] == s[j]);
            }
            lemma_next_line_none(s, from);
        },
    }
}

/// A record can be read at `p`: the byte at `p` is `@`, the header, sequence and
/// separator lines each end with a line feed inside `s`, and the separator line begins
/// with `+`. The quality line may run to the end of `s` without a line feed.
pub open spec fn record_at(s: Seq<u8>, p: int) -> bool {
    let seq = next_line(s, p);
    let sep = next_line(s, seq);
    &&& 0 <= p < s.len()
    &&& s[p] == AT
    &&& terminated(s, p)
    &&& terminated(s, seq)
    &&& sep < s.len()
    &&& s[sep] == PLUS
    &&& terminated(s, sep)
}

/// The offsets of the record that begins at `p`: each line begins just past the line
/// feed of the line before it, and the span ends where the quality line ends.
pub open spec fn layout_at(s: Seq<u8>, p: int) -> BufferPosition {
    let seq = next_line(s, p);
    let sep = next_line(s, seq);
    let qual = next_line(s, sep);
    BufferPosition {
        pos: (p as usize, line_end(s, qual) as usize),
        seq: seq as usize,
        sep: sep as usize,
        qual: qual as usize,
    }
}

/// Where the span of the record that begins at `p` ends.
pub open spec fn record_end(s: Seq<u8>, p: int) -> int {
    line_end(s, next_line(s, next_line(s, next_line(s, p))))
}

/// The layout of a record that can be read lies inside `s`, in the order of its lines,
/// and the record after it begins past it.
pub proof fn lemma_layout(s: Seq<u8>, p: int)
    requires
        record_at(s, p),
        s.len() <= usize::MAX,
    ensures
        layout_at(s, p).fits(s),
        layout_at(s, p).pos.0 == p,
        layout_at(s, p).pos.1 == record_end(s, p),
        layout_at(s, p).seq == next_line(s, p),
        layout_at(s, p).sep == next_line(s, next_line(s, p)),
        layout_at(s, p).qual == next_line(s, next_line(s, next_line(s, p))),
        p + 5 <= record_end(s, p) <= s.len(),
        record_end(s, p) < s.len() ==> s[record_end(s, p)] == LF,
        forall|j: int| layout_at(s, p).qual <= j < record_end(s, p) ==> s[j] != LF,
{
    let seq = next_line(s, p);
    let sep = next_line(s, seq);
    let qual = next_line(s, sep);
    lemma_next_line(s, p);
    lemma_next_line(s, seq);
    lemma_next_line(s, sep);
    lemma_next_line(s, qual);
    assert(s[p] != LF);
    assert(s[sep] != LF);
    assert(seq >= p + 2) by {
        if seq == p + 1 {
            assert(s[seq - 1] == LF);
        }
    }
    assert(qual >= sep + 2) by {
        if qual == sep + 1 {
            assert(s[qual - 1] == LF);
        }
    }
}

/// From `p` to its end, `s` holds nothing but records that can be read, one after the
/// other.
pub open spec fn whole_records(s: Seq<u8>, p: int) -> bool
    decreases s.len() - p,
{
    if p >= s.len() {
        true
    } else {
        record_at(s, p) && (p <= record_end(s, p) < s.len() ==> whole_records(
            s,
            record_end(s, p) + 1,
        ))
    }
}

/// The layouts of the records that a scan of `s` from `p` finds, in order: the scan
/// goes on until it reaches the end of `s` or a place where no record can be read.
pub open spec fn records_from(s: Seq<u8>, p: int) -> Seq<BufferPosition>
    decreases s.len() - p,
{
    if p >= s.len() || !record_at(s, p) {
        Seq::empty()
    } else if p <= record_end(s, p) < s.len() {
        seq![layout_at(s, p)] + records_from(s, record_end(s, p) + 1)
    } else {
        seq![layout_at(s, p)]
    }
}

/// The bytes of the record at `at`, with the line feed that closes it where it has one.
pub open spec fn record_text(s: Seq<u8>, at: BufferPosition) -> Seq<u8> {
    if at.pos.1 < s.len() {
        s.subrange(at.pos.0 as int, at.pos.1 + 1)
    } else {
        s.subrange(at.pos.0 as int, s.len() as int)
    }
}

/// The texts of the records at `layouts`, one after the other.
pub open spec fn joined(s: Seq<u8>, layouts: Seq<BufferPosition>) -> Seq<u8>
    decreases layouts.len(),
{
    if layouts.len() == 0 {
        Seq::empty()
    } else {
        record_text(s, layouts[0]) + joined(s, layouts.skip(1))
    }
}

/// Round trip, from any record boundary: where `s` holds whole records from `p` on, the
/// spans that a scan from `p` returns, each with its line feed, put together in order
/// give back `s` from `p` on. No byte is dropped and none comes twice.
pub proof fn lemma_spans_rebuild_from(s: Seq<u8>, p: int)
    requires
        0 <= p <= s.len() <= usize::MAX,
        whole_records(s, p),
    ensures
        joined(s, records_from(s, p)) == s.subrange(p, s.len() as int),
    decreases s.len() - p,
{
    if p < s.len() {
        lemma_layout(s, p);
        let e = record_end(s, p);
        let all = records_from(s, p);
        assert(all[0] == layout_at(s, p));
        if e < s.len() {
            let rest = records_from(s, e + 1);
            assert(all == seq![layout_at(s, p)] + rest);
            assert(all.skip(1) == rest);
            lemma_spans_rebuild_from(s, e + 1);
            assert(s.subrange(p, e + 1) + s.subrange(e + 1, s.len() as int) == s.subrange(
                p,
                s.len() as int,
            ));
        } else {
            assert(all.skip(1) == Seq::<BufferPosition>::empty());
            assert(joined(s, all.skip(1)) == Seq::<u8>::empty());
            assert(s.subrange(p, s.len() as int) + Seq::<u8>::empty() == s.subrange(
                p,
                s.len() as int,
            ));
        }
    } else {
        assert(s.subrange(p, s.len() as int) == Seq::<u8>::empty());
    }
}

/// Round trip: where a chunk holds whole records, the spans that a scan returns, each
/// with its line feed, put together in order are the chunk.
pub proof fn lemma_spans_rebuild(s: Seq<u8>)
    requires
        s.len() <= usize::MAX,
        whole_records(s, 0),
    ensures
        joined(s, records_from(s, 0)) == s,
{
    lemma_spans_rebuild_from(s, 0);
    assert(s.subrange(0, s.len() as int) == s);
}

/// Where the line that holds position `at` begins: just past the last line feed before
/// `at`, or at 0.
pub open spec fn line_start(s: Seq<u8>, at: int) -> int
    decreases at,
{
    if at <= 0 {
        0
    } else if s[at - 1] == LF {
        at
    } else {
        line_start(s, at - 1)
    }
}

/// A line begins at `i` with `@`, and the line before it does not begin with `+`.
///
/// This is how a header is told from a quality line that happens to begin with `@`:
/// the line before a quality line is a separator, and that begins with `+`.
pub open spec fn header_like(s: Seq<u8>, i: int) -> bool {
    &&& 0 < i < s.len()
    &&& s[i] == AT
    &&& s[i - 1] == LF
    &&& s[line_start(s, i - 1)] != PLUS
}

/// The last position before `below` that looks like the beginning of a header, or 0
/// where there is none.
pub open spec fn last_header(s: Seq<u8>, below: int) -> int
    decreases below,
{
    if below <= 1 {
        0
    } else if header_like(s, below - 1) {
        below - 1
    } else {
        last_header(s, below - 1)
    }
}

/// The first position at or after `from` that holds a line feed followed by `@`, or the
/// length of `s` where there is none.
pub open spec fn next_marker(s: Seq<u8>, from: int) -> int
    decreases s.len() - from,
{
    if from + 1 >= s.len() {
        s.len() as int
    } else if s[from] == LF && s[from + 1] == AT {
        from
    } else {
        next_marker(s, from + 1)
    }
}

/// The position reached from `from` by passing `count` lines.
pub open spec fn skip_lines(s: Seq<u8>, from: int, count: nat) -> int
    decreases count,
{
    if count == 0 {
        from
    } else {
        skip_lines(s, next_line(s, from), (count - 1) as nat)
    }
}

/// The number of line feeds in `s`.
pub open spec fn line_count(s: Seq<u8>) -> nat {
    occurrences(s, LF)
}

/// The two bytes that a chunk of a mapped file is cut at: a line feed and the `@` of
/// the header after it.
pub open spec fn marker() -> Seq<u8> {
    seq![LF, AT]
}

/// A line feed followed by `@` at `at`, with none in `[from, at)`, fixes
/// `next_marker(s, from)`.
pub proof fn lemma_next_marker_at(s: Seq<u8>, from: int, at: int)
    requires
        0 <= from <= at,
        at + 1 < s.len(),
        s[at] == LF,
        s[at + 1] == AT,
        forall|j: int| from <= j < at ==> !(s[j] == LF && #[trigger] s[j + 1] == AT),
    ensures
        next_marker(s, from) == at,
    decreases at - from,
{
    if from < at {
        assert(!(s[from] == LF && s[from + 1] == AT));
        lemma_next_marker_at(s, from + 1, at);
    }
}

/// Without a line feed followed by `@` at or after `from`, `next_marker` is the length.
pub proof fn lemma_next_marker_none(s: Seq<u8>, from: int)
    requires
        0 <= from,
        forall|j: int| from <= j && j + 1 < s.len() ==> !(s[j] == LF && #[trigger] s[j + 1] == AT),
    ensures
        next_marker(s, from) == s.len(),
    decreases s.len() - from,
{
    if from + 1 < s.len() {
        assert(!(s[from] == LF && s[from + 1] == AT));
        lemma_next_marker_none(s, from + 1);
    }
}

/// The result of a search for the marker in the tail of `s` that begins at `from`,
/// read as a statement about `next_marker`.
pub proof fn lemma_next_marker_search(s: Seq<u8>, from: int, found: Option<usize>)
    requires
        0 <= from <= s.len(),
        match found {
            Some(i) => is_first_match(s.subrange(from, s.len() as int), marker(), i as int),
            None => lacks_match(s.subrange(from, s.len() as int), marker()),
        },
    ensures
        match found {
            Some(i) => next_marker(s, from) == from + i && from + i + 1 < s.len(),
            None => next_marker(s, from) == s.len(),
        },
{
    let tail = s.subrange(from, s.len() as int);
    assert forall|j: int| 0 <= j && j + 1 < tail.len() && tail[j] == LF && tail[j + 1]
        == AT implies matches_at(tail, marker(), j) by {
        assert(tail.subrange(j, j + 2) == marker());
    }
    match found {
        Some(i) => {
            let here = tail.subrange(i as int, i + 2);
            assert(here == marker());
            assert(here[0] == tail[i as int]);
            assert(here[1] == tail[i + 1]);
            assert forall|j: int| from <= j < from + i implies !(s[j] == LF && #[trigger] s[j + 1]
                == AT) by {
                assert(!matches_at(tail, marker(), j - from));
                assert(tail[j - from] == s[j]);
                assert(tail[j - from + 1] == s[j + 1]);
            }
            lemma_next_marker_at(s, from, from + i);
        },
        None => {
            assert forall|j: int| from <= j && j + 1 < s.len() implies !(s[j] == LF
                && #[trigger] s[j + 1] == AT) by {
                assert(!matches_at(tail, marker(), j - from));
                assert(tail[j - from] == s[j]);
                assert(tail[j - from + 1] == s[j + 1]);
            }
            lemma_next_marker_none(s, from);
        },
    }
}

/// Passing one line more: the lines can be counted from the front or from the back.
pub proof fn lemma_skip_lines_step(s: Seq<u8>, from: int, count: nat)
    ensures
        skip_lines(s, from, count + 1) == next_line(s, skip_lines(s, from, count)),
    decreases count,
{
    assert(skip_lines(s, from, count + 1) == skip_lines(s, next_line(s, from), count));
    if count > 0 {
        lemma_skip_lines_step(s, next_line(s, from), (count - 1) as nat);
    } else {
        assert(skip_lines(s, next_line(s, from), 0) == next_line(s, from));
    }
}

/// Passing `a` lines and then `b` lines is passing `a + b` lines.
pub proof fn lemma_skip_lines_add(s: Seq<u8>, from: int, a: nat, b: nat)
    ensures
        skip_lines(s, from, a + b) == skip_lines(s, skip_lines(s, from, a), b),
    decreases b,
{
    if b > 0 {
        lemma_skip_lines_add(s, from, a, (b - 1) as nat);
        lemma_skip_lines_step(s, from, (a + b - 1) as nat);
        lemma_skip_lines_step(s, skip_lines(s, from, a), (b - 1) as nat);
    }
}

/// Past the end of `s` there are no lines to pass.
pub proof fn lemma_skip_lines_end(s: Seq<u8>, count: nat)
    ensures
        skip_lines(s, s.len() as int, count) == s.len(),
    decreases count,
{
    if count > 0 {
        lemma_skip_lines_end(s, (count - 1) as nat);
    }
}

/// The result of a byte search in the tail of `s` that begins at `from`, read as a
/// statement about the number of line feeds in the tail past the one that was found.
pub proof fn lemma_line_count_search(s: Seq<u8>, from: int, found: Option<usize>)
    requires
        0 <= from <= s.len(),
        match found {
            Some(i) => is_first(s.subrange(from, s.len() as int), LF, i as int),
            None => lacks(s.subrange(from, s.len() as int), LF),
        },
    ensures
        match found {
            Some(i) => line_count(s.subrange(from, s.len() as int)) == 1 + line_count(
                s.subrange(from + i + 1, s.len() as int),
            ),
            None => line_count(s.subrange(from, s.len() as int)) == 0,
        },
{
    let tail = s.subrange(from, s.len() as int);
    match found {
        Some(i) => {
            lemma_occurrences_after_first(tail, LF, i as int);
            assert(tail.subrange(i + 1, tail.len() as int) == s.subrange(
                from + i + 1,
                s.len() as int,
            ));
        },
        None => {
            lemma_occurrences_none(tail, LF);
        },
    }
}

/// The line feeds of `s` are those before `k` and those from `k` on.
pub proof fn lemma_line_count_split(s: Seq<u8>, k: int)
    requires
        0 <= k <= s.len(),
    ensures
        line_count(s) == line_count(s.subrange(0, k)) + line_count(s.subrange(k, s.len() as int)),
{
    lemma_occurrences_split(s, LF, k);
}

} // verus!
