//! Streams of records, and why the readers cut them where a record ends.
//!
//! A reader sees a window of a stream: some bytes from a place where a record begins,
//! cut off anywhere. `wellformed` says what such a window looks like when the stream is
//! sound, `boundary` says which of its positions lie between two records, and the
//! lemmas show that each of the three ways in which the readers choose a cut yields a
//! boundary.

use vstd::prelude::*;
use crate::byte_reader::{
    pair_cut, paired_lines, region_cut, stream_cut, whole_lines, ByteReader, ByteReaderMmap,
    ByteSource, Cut, FillBuffer, FillBufferPair, PairCut, PairedByteReader,
};
use crate::format::{
    header_like, joined, last_header, layout_at, lemma_layout, lemma_line_count_split,
    lemma_next_line, lemma_skip_lines_add, lemma_skip_lines_step, lemma_spans_rebuild,
    line_count, line_end, line_start, next_line, next_marker, record_at, record_end,
    records_from, skip_lines, terminated, whole_records, AT, CR, LF, PLUS,
};
use crate::search::{is_first, lemma_occurrences_after_first, lemma_occurrences_none};
use crate::sequence::fastq_record::is_nucleotide;

verus! {

/// From `p` on, `s` looks like a stream of records that was cut off somewhere: each
/// record begins with `@`, its sequence line holds letters only, with a carriage return
/// at most besides, and its separator line begins with `+`, as far as `s` reaches.
pub open spec fn wellformed(s: Seq<u8>, p: int) -> bool
    decreases s.len() - p,
{
    let seq = next_line(s, p);
    let sep = next_line(s, seq);
    let qual = next_line(s, sep);
    let next = next_line(s, qual);
    if p >= s.len() {
        true
    } else {
        &&& s[p] == AT
        &&& forall|j: int|
            seq <= j < line_end(s, seq) ==> is_nucleotide(#[trigger] s[j]) || s[j] == CR
        &&& sep < s.len() ==> s[sep] == PLUS
        &&& terminated(s, qual) && p < next <= s.len() ==> wellformed(s, next)
    }
}

/// From `p` on, no quality line of `s` begins with `@`.
pub open spec fn plain_qualities(s: Seq<u8>, p: int) -> bool
    decreases s.len() - p,
{
    let qual = next_line(s, next_line(s, next_line(s, p)));
    let next = next_line(s, qual);
    if p >= s.len() {
        true
    } else {
        &&& qual < s.len() ==> s[qual] != AT
        &&& terminated(s, qual) && p < next <= s.len() ==> plain_qualities(s, next)
    }
}

/// `to` lies between two records: it is reached from `from` by passing records that can
/// be read and that end with a line feed.
pub open spec fn boundary(s: Seq<u8>, from: int, to: int) -> bool
    decreases to - from,
{
    if from >= to {
        from == to
    } else if record_at(s, from) && from <= record_end(s, from) < to {
        boundary(s, record_end(s, from) + 1, to)
    } else {
        false
    }
}

/// The number of records between `from` and the boundary `to`.
pub open spec fn records_between(s: Seq<u8>, from: int, to: int) -> nat
    decreases to - from,
{
    if from >= to {
        0
    } else if record_at(s, from) && from <= record_end(s, from) < to {
        1 + records_between(s, record_end(s, from) + 1, to)
    } else {
        0
    }
}

/// A line feed at `at` ends the line that begins at `x`, or a line feed before it does.
pub proof fn lemma_line_ends_by(s: Seq<u8>, x: int, at: int)
    requires
        0 <= x <= at < s.len(),
        s[at] == LF,
    ensures
        terminated(s, x),
        x < next_line(s, x) <= at + 1,
        s[next_line(s, x) - 1] == LF,
        forall|j: int| x <= j < next_line(s, x) - 1 ==> s[j] != LF,
    decreases at - x,
{
    if s[x] != LF {
        lemma_line_ends_by(s, x + 1, at);
    }
}

/// The line that holds `at` begins at `from` when a line feed stands before `from` and
/// none in `[from, at)`.
pub proof fn lemma_line_start(s: Seq<u8>, from: int, at: int)
    requires
        0 < from <= at,
        s[from - 1] == LF,
        forall|j: int| from <= j < at ==> s[j] != LF,
    ensures
        line_start(s, at) == from,
    decreases at - from,
{
    if from < at {
        assert(s[at - 1] != LF);
        lemma_line_start(s, from, at - 1);
    }
}

/// In a well-formed stream, a line that begins with `@` begins a record, unless it is a
/// quality line. A quality line is ruled out where the line before does not begin with
/// `+`, and where no quality line begins with `@`.
pub proof fn lemma_header_is_boundary(s: Seq<u8>, p: int, i: int)
    requires
        0 <= p <= i < s.len(),
        wellformed(s, p),
        0 < i,
        s[i] == AT,
        s[i - 1] == LF,
        s[line_start(s, i - 1)] != PLUS || plain_qualities(s, p),
    ensures
        boundary(s, p, i),
        wellformed(s, i),
    decreases i - p,
{
    if p < i {
        let seq = next_line(s, p);
        let sep = next_line(s, seq);
        let qual = next_line(s, sep);
        let next = next_line(s, qual);
        lemma_line_ends_by(s, p, i - 1);
        if seq == i {
            lemma_next_line(s, seq);
            if line_end(s, seq) > seq {
                assert(is_nucleotide(s[seq]) || s[seq] == CR);
            }
            assert(false);
        }
        lemma_line_ends_by(s, seq, i - 1);
        if sep == i {
            assert(false);
        }
        lemma_line_ends_by(s, sep, i - 1);
        if qual == i {
            lemma_line_start(s, sep, i - 1);
            assert(false);
        }
        lemma_line_ends_by(s, qual, i - 1);
        assert(record_at(s, p));
        assert(record_end(s, p) == next - 1);
        lemma_header_is_boundary(s, next, i);
    }
}

/// Where `last_header` finds a header, the place looks like one.
pub proof fn lemma_last_header(s: Seq<u8>, below: int)
    requires
        below <= s.len(),
    ensures
        last_header(s, below) == 0 || header_like(s, last_header(s, below)),
        0 <= last_header(s, below),
        last_header(s, below) < below || last_header(s, below) == 0,
        forall|j: int| last_header(s, below) < j < below ==> !header_like(s, j),
    decreases below,
{
    if below > 1 && !header_like(s, below - 1) {
        lemma_last_header(s, below - 1);
    }
}

/// No chunk of a stream reader splits a record: in a well-formed window, the place
/// where the last header begins lies between two records, and what follows it is
/// again a well-formed window.
pub proof fn lemma_stream_cut_is_boundary(s: Seq<u8>)
    requires
        wellformed(s, 0),
        last_header(s, s.len() as int) > 0,
    ensures
        boundary(s, 0, last_header(s, s.len() as int)),
        wellformed(s, last_header(s, s.len() as int)),
{
    lemma_last_header(s, s.len() as int);
    lemma_header_is_boundary(s, 0, last_header(s, s.len() as int));
}

/// A stream reader finds a cut in a buffer that holds one record and a byte more, unless
/// the quality line begins with `+`: where a well-formed window holds a whole first
/// record whose quality line does not begin with `+`, and at least one byte of the
/// next, a header is found after the first byte.
pub proof fn lemma_cut_exists(s: Seq<u8>)
    requires
        wellformed(s, 0),
        record_at(s, 0),
        record_end(s, 0) + 1 < s.len() <= usize::MAX,
        s[next_line(s, next_line(s, next_line(s, 0)))] != PLUS,
    ensures
        last_header(s, s.len() as int) > record_end(s, 0),
{
    let qual = next_line(s, next_line(s, next_line(s, 0)));
    let e = record_end(s, 0);
    lemma_layout(s, 0);
    lemma_next_line(s, qual);
    lemma_line_start(s, qual, e);
    assert(terminated(s, qual));
    assert(next_line(s, qual) == e + 1);
    assert(wellformed(s, e + 1));
    assert(s[e + 1] == AT);
    assert(header_like(s, e + 1));
    lemma_last_header(s, s.len() as int);
}

/// Where `next_marker` finds a line feed followed by `@`, the two bytes are there.
pub proof fn lemma_next_marker(s: Seq<u8>, from: int)
    requires
        0 <= from,
    ensures
        from <= next_marker(s, from) || next_marker(s, from) == s.len(),
        next_marker(s, from) <= s.len(),
        next_marker(s, from) < s.len() ==> {
            &&& next_marker(s, from) + 1 < s.len()
            &&& s[next_marker(s, from)] == LF
            &&& s[next_marker(s, from) + 1] == AT
        },
    decreases s.len() - from,
{
    if from + 1 < s.len() && !(s[from] == LF && s[from + 1] == AT) {
        lemma_next_marker(s, from + 1);
    }
}

/// No chunk of a mapped region splits a record, where no quality line begins with `@`:
/// in a region that is well formed from `p` on, the place past the first line feed
/// that an `@` follows, at or after `from`, lies between two records.
pub proof fn lemma_region_cut_is_boundary(s: Seq<u8>, p: int, from: int)
    requires
        0 <= p <= from,
        wellformed(s, p),
        plain_qualities(s, p),
        next_marker(s, from) < s.len(),
    ensures
        boundary(s, p, next_marker(s, from) + 1),
        wellformed(s, next_marker(s, from) + 1),
{
    lemma_next_marker(s, from);
    lemma_header_is_boundary(s, p, next_marker(s, from) + 1);
}

/// Round trip for a chunk: the bytes before a boundary are rebuilt by the spans that a
/// scan of them returns, each with its line feed, put together in order.
pub proof fn lemma_chunk_round_trip(s: Seq<u8>, n: int)
    requires
        0 <= n <= s.len() <= usize::MAX,
        boundary(s, 0, n),
    ensures
        whole_records(s.subrange(0, n), 0),
        joined(s.subrange(0, n), records_from(s.subrange(0, n), 0)) == s.subrange(0, n),
{
    lemma_boundary_window(s, 0, n, 0);
    lemma_spans_rebuild(s.subrange(0, n));
}

/// Round trip for the chunks of a stream reader: a chunk that is cut from a well-formed
/// window before the stream has ended holds whole records, and the spans that a scan
/// of it returns rebuild it.
pub proof fn lemma_stream_chunk(s: Seq<u8>, n: usize)
    requires
        s.len() <= usize::MAX,
        wellformed(s, 0),
        stream_cut(s, false) == Cut::Take(n),
    ensures
        0 < n < s.len(),
        boundary(s, 0, n as int),
        wellformed(s, n as int),
        whole_records(s.subrange(0, n as int), 0),
        joined(s.subrange(0, n as int), records_from(s.subrange(0, n as int), 0)) == s.subrange(
            0,
            n as int,
        ),
{
    lemma_last_header(s, s.len() as int);
    lemma_stream_cut_is_boundary(s);
    lemma_chunk_round_trip(s, n as int);
}

/// Round trip for the chunks of a mapped region: where the region is well formed from
/// `position` on and none of its quality lines begins with `@`, a chunk that does not
/// reach the end of the region ends between two records.
pub proof fn lemma_region_chunk(region: Seq<u8>, position: int, target: int, n: usize)
    requires
        0 <= position <= region.len() <= usize::MAX,
        0 <= target,
        wellformed(region, position),
        plain_qualities(region, position),
        region_cut(region, position, target) == Cut::Take(n),
    ensures
        position + n <= region.len(),
        position + n < region.len() ==> {
            &&& boundary(region, position, position + n)
            &&& wellformed(region, position + n)
        },
{
    lemma_next_marker(region, position + target);
    if position + n < region.len() {
        lemma_region_cut_is_boundary(region, position, position + target);
    }
}

/// `x`, or `limit` where `x` is beyond it.
pub open spec fn at_most(x: int, limit: int) -> int {
    if x <= limit {
        x
    } else {
        limit
    }
}

/// Lines in a window: in the part of `s` from `a` to `b`, a line ends where it ends in
/// `s`, or at the end of the window where it goes on beyond it.
pub proof fn lemma_next_line_window(s: Seq<u8>, a: int, b: int, x: int)
    requires
        0 <= a <= b <= s.len(),
        0 <= x,
    ensures
        next_line(s.subrange(a, b), x) + a == at_most(next_line(s, a + x), b),
        terminated(s.subrange(a, b), x) <==> terminated(s, a + x) && next_line(s, a + x) <= b,
        line_end(s.subrange(a, b), x) + a <= line_end(s, a + x) || a + x > b,
    decreases b - a - x,
{
    let w = s.subrange(a, b);
    if a + x <= s.len() {
        lemma_next_line(s, a + x);
    }
    if x < w.len() {
        assert(w[x] == s[a + x]);
        if w[x] != LF {
            lemma_next_line_window(s, a, b, x + 1);
        }
    }
}

/// A window of a well-formed stream is well formed: the part of `s` from a place where
/// a record begins to any later place looks like a stream that was cut off.
pub proof fn lemma_window_wellformed(s: Seq<u8>, a: int, b: int, x: int)
    requires
        0 <= a <= b <= s.len(),
        0 <= x,
        wellformed(s, a + x),
    ensures
        wellformed(s.subrange(a, b), x),
    decreases b - a - x,
{
    let w = s.subrange(a, b);
    if x < w.len() {
        let seq = next_line(w, x);
        let sep = next_line(w, seq);
        let qual = next_line(w, sep);
        let next = next_line(w, qual);
        let seq_s = next_line(s, a + x);
        let sep_s = next_line(s, seq_s);
        let qual_s = next_line(s, sep_s);
        lemma_next_line(w, x);
        lemma_next_line(w, seq);
        lemma_next_line(w, sep);
        lemma_next_line(w, qual);
        lemma_next_line(s, a + x);
        lemma_next_line(s, seq_s);
        lemma_next_line(s, sep_s);
        lemma_next_line(s, qual_s);
        lemma_next_line_window(s, a, b, x);
        lemma_next_line_window(s, a, b, seq);
        lemma_next_line_window(s, a, b, sep);
        lemma_next_line_window(s, a, b, qual);
        assert(w[x] == s[a + x]);
        assert forall|j: int| seq <= j < line_end(w, seq) implies is_nucleotide(#[trigger] w[j])
            || w[j] == CR by {
            assert(w[j] == s[a + j]);
            assert(seq + a == seq_s);
            assert(is_nucleotide(s[a + j]) || s[a + j] == CR);
        }
        if sep < w.len() {
            assert(w[sep] == s[a + sep]);
        }
        if terminated(w, qual) && x < next <= w.len() {
            lemma_window_wellformed(s, a, b, next);
        }
    }
}

/// A boundary of a window is a boundary of the stream: passing whole records in the
/// part of `s` from `a` to `b` is passing the same records in `s`.
pub proof fn lemma_window_boundary(s: Seq<u8>, a: int, b: int, x: int, n: int)
    requires
        0 <= a <= b <= s.len(),
        0 <= x <= n <= b - a,
        boundary(s.subrange(a, b), x, n),
    ensures
        boundary(s, a + x, a + n),
        records_between(s, a + x, a + n) == records_between(s.subrange(a, b), x, n),
    decreases n - x,
{
    let w = s.subrange(a, b);
    if x < n {
        let seq = next_line(w, x);
        let sep = next_line(w, seq);
        let qual = next_line(w, sep);
        lemma_next_line(w, x);
        lemma_next_line(w, seq);
        lemma_next_line(w, sep);
        lemma_next_line(w, qual);
        lemma_next_line_window(s, a, b, x);
        lemma_next_line_window(s, a, b, seq);
        lemma_next_line_window(s, a, b, sep);
        lemma_next_line_window(s, a, b, qual);
        assert(w[x] == s[a + x]);
        assert(w[sep] == s[a + sep]);
        assert(record_at(s, a + x));
        assert(record_end(s, a + x) == record_end(w, x) + a);
        lemma_window_boundary(s, a, b, record_end(w, x) + 1, n);
    }
}

/// A well-formed stream is well formed from each of its boundaries on.
pub proof fn lemma_wellformed_at_boundary(s: Seq<u8>, p: int, q: int)
    requires
        0 <= p <= q <= s.len(),
        wellformed(s, p),
        boundary(s, p, q),
    ensures
        wellformed(s, q),
    decreases q - p,
{
    if p < q {
        let qual = next_line(s, next_line(s, next_line(s, p)));
        lemma_next_line(s, p);
        lemma_next_line(s, next_line(s, p));
        lemma_next_line(s, next_line(s, next_line(s, p)));
        lemma_next_line(s, qual);
        lemma_wellformed_at_boundary(s, record_end(s, p) + 1, q);
    }
}

/// Where no quality line begins with `@`, none does from any boundary on.
pub proof fn lemma_plain_at_boundary(s: Seq<u8>, p: int, q: int)
    requires
        0 <= p <= q <= s.len(),
        plain_qualities(s, p),
        boundary(s, p, q),
    ensures
        plain_qualities(s, q),
    decreases q - p,
{
    if p < q {
        let qual = next_line(s, next_line(s, next_line(s, p)));
        lemma_next_line(s, p);
        lemma_next_line(s, next_line(s, p));
        lemma_next_line(s, next_line(s, next_line(s, p)));
        lemma_next_line(s, qual);
        lemma_plain_at_boundary(s, record_end(s, p) + 1, q);
    }
}

/// The bytes between two boundaries are a chunk of whole records: where `b` is reached
/// from `a + x` by passing records of `s`, the part of `s` from `a` to `b` holds whole
/// records from `x` on, as many as were passed.
pub proof fn lemma_boundary_window(s: Seq<u8>, a: int, b: int, x: int)
    requires
        0 <= a <= b <= s.len(),
        0 <= x <= b - a,
        boundary(s, a + x, b),
    ensures
        whole_records(s.subrange(a, b), x),
        records_from(s.subrange(a, b), x).len() == records_between(s, a + x, b),
        a + x < b ==> s[b - 1] == LF,
    decreases b - a - x,
{
    let w = s.subrange(a, b);
    if a + x < b {
        let p = a + x;
        let seq = next_line(s, p);
        let sep = next_line(s, seq);
        let qual = next_line(s, sep);
        let e = record_end(s, p);
        lemma_next_line(s, p);
        lemma_next_line(s, seq);
        lemma_next_line(s, sep);
        lemma_next_line(s, qual);
        lemma_next_line_window(s, a, b, x);
        lemma_next_line_window(s, a, b, seq - a);
        lemma_next_line_window(s, a, b, sep - a);
        lemma_next_line_window(s, a, b, qual - a);
        assert(w[x] == s[p]);
        assert(w[sep - a] == s[sep]);
        assert(record_at(w, x));
        assert(record_end(w, x) == e - a);
        lemma_boundary_window(s, a, b, e + 1 - a);
        if e + 1 == b {
            assert(records_from(w, e + 1 - a).len() == 0);
        }
        assert(records_from(w, x) == seq![layout_at(w, x)] + records_from(w, e + 1 - a));
    }
}

/// A stream of whole records holds whole records from each of its boundaries on.
pub proof fn lemma_whole_records_at_boundary(s: Seq<u8>, p: int, q: int)
    requires
        0 <= p <= q <= s.len(),
        whole_records(s, p),
        boundary(s, p, q),
    ensures
        whole_records(s, q),
    decreases q - p,
{
    if p < q {
        lemma_whole_records_at_boundary(s, record_end(s, p) + 1, q);
    }
}

/// What follows a place in a stream of whole records is a chunk of whole records:
/// where `s` holds whole records from `a + x` on, so does the part of `s` from `a` to
/// its end, from `x` on.
pub proof fn lemma_whole_records_suffix(s: Seq<u8>, a: int, x: int)
    requires
        0 <= a <= s.len(),
        0 <= x,
        whole_records(s, a + x),
    ensures
        whole_records(s.subrange(a, s.len() as int), x),
    decreases s.len() - a - x,
{
    let b = s.len() as int;
    let w = s.subrange(a, b);
    if a + x < b {
        let p = a + x;
        let seq = next_line(s, p);
        let sep = next_line(s, seq);
        let qual = next_line(s, sep);
        lemma_next_line(s, p);
        lemma_next_line(s, seq);
        lemma_next_line(s, sep);
        lemma_next_line(s, qual);
        lemma_next_line_window(s, a, b, x);
        lemma_next_line_window(s, a, b, seq - a);
        lemma_next_line_window(s, a, b, sep - a);
        lemma_next_line_window(s, a, b, qual - a);
        assert(w[x] == s[p]);
        assert(w[sep - a] == s[sep]);
        assert(record_at(w, x));
        assert(record_end(w, x) == record_end(s, p) - a);
        if record_end(s, p) < b {
            lemma_whole_records_suffix(s, a, record_end(s, p) + 1 - a);
        }
    }
}

/// Round trip for the last chunk: where a stream of whole records has been handed over
/// up to one of its boundaries, what is left of it is a chunk of whole records, and the
/// spans that a scan of it returns rebuild it.
pub proof fn lemma_last_chunk(s: Seq<u8>, a: int)
    requires
        0 <= a <= s.len() <= usize::MAX,
        whole_records(s, 0),
        boundary(s, 0, a),
    ensures
        whole_records(s.subrange(a, s.len() as int), 0),
        joined(
            s.subrange(a, s.len() as int),
            records_from(s.subrange(a, s.len() as int), 0),
        ) == s.subrange(a, s.len() as int),
{
    lemma_whole_records_at_boundary(s, 0, a);
    lemma_whole_records_suffix(s, a, 0);
    lemma_spans_rebuild(s.subrange(a, s.len() as int));
}

/// No record is split, whatever part of the stream a reader holds: where `s` is a
/// well-formed stream, `a` a place where one of its records begins, and the reader
/// holds the part of `s` from `a` to `b`, the chunk that it cuts ends between two
/// records of `s`. The next chunk then begins where a record begins, and so on.
pub proof fn lemma_window_chunk(s: Seq<u8>, a: int, b: int, n: usize)
    requires
        0 <= a <= b <= s.len() <= usize::MAX,
        wellformed(s, a),
        stream_cut(s.subrange(a, b), false) == Cut::Take(n),
    ensures
        0 < n < b - a,
        boundary(s, a, a + n),
        wellformed(s, a + n),
        whole_records(s.subrange(a, a + n), 0),
{
    let w = s.subrange(a, b);
    lemma_window_wellformed(s, a, b, 0);
    lemma_stream_chunk(w, n);
    lemma_window_boundary(s, a, b, 0, n as int);
    lemma_wellformed_at_boundary(s, a, a + n);
    assert(w.subrange(0, n as int) == s.subrange(a, a + n));
}

/// A line that ends with a line feed holds one line feed.
pub proof fn lemma_one_line(s: Seq<u8>, x: int)
    requires
        0 <= x,
        terminated(s, x),
    ensures
        line_count(s.subrange(x, next_line(s, x))) == 1,
{
    lemma_next_line(s, x);
    let line = s.subrange(x, next_line(s, x));
    let at = next_line(s, x) - 1 - x;
    assert(line[at] == s[x + at]);
    assert forall|j: int| 0 <= j < at implies line[j] != LF by {
        assert(line[j] == s[x + j]);
    }
    assert(is_first(line, LF, at));
    lemma_occurrences_after_first(line, LF, at);
    assert(line.subrange(at + 1, line.len() as int).len() == 0);
}

/// Where line feeds are left from `x` on, the line at `x` ends with one, and past it
/// one line feed less is left.
pub proof fn lemma_line_counted(s: Seq<u8>, x: int)
    requires
        0 <= x <= s.len(),
        line_count(s.subrange(x, s.len() as int)) >= 1,
    ensures
        terminated(s, x),
        x < next_line(s, x) <= s.len(),
        line_count(s.subrange(next_line(s, x), s.len() as int)) == line_count(
            s.subrange(x, s.len() as int),
        ) - 1,
{
    let tail = s.subrange(x, s.len() as int);
    lemma_next_line(s, x);
    if !terminated(s, x) {
        assert forall|j: int| 0 <= j < tail.len() implies tail[j] != LF by {
            assert(tail[j] == s[x + j]);
        }
        lemma_occurrences_none(tail, LF);
    }
    lemma_one_line(s, x);
    let nx = next_line(s, x);
    lemma_line_count_split(tail, nx - x);
    assert(tail.subrange(0, nx - x) == s.subrange(x, nx));
    assert(tail.subrange(nx - x, tail.len() as int) == s.subrange(nx, s.len() as int));
}

/// A record that ends with a line feed is four lines.
pub proof fn lemma_record_lines(s: Seq<u8>, p: int)
    requires
        record_at(s, p),
        record_end(s, p) < s.len(),
    ensures
        skip_lines(s, p, 4) == record_end(s, p) + 1,
        line_count(s.subrange(p, record_end(s, p) + 1)) == 4,
{
    let seq = next_line(s, p);
    let sep = next_line(s, seq);
    let qual = next_line(s, sep);
    let next = next_line(s, qual);
    lemma_next_line(s, p);
    lemma_next_line(s, seq);
    lemma_next_line(s, sep);
    lemma_next_line(s, qual);
    lemma_skip_lines_step(s, p, 0);
    lemma_skip_lines_step(s, p, 1);
    lemma_skip_lines_step(s, p, 2);
    lemma_skip_lines_step(s, p, 3);
    assert(skip_lines(s, p, 0) == p);
    lemma_one_line(s, p);
    lemma_one_line(s, seq);
    lemma_one_line(s, sep);
    lemma_one_line(s, qual);
    let text = s.subrange(p, next);
    lemma_line_count_split(text, seq - p);
    let rest1 = text.subrange(seq - p, text.len() as int);
    lemma_line_count_split(rest1, sep - seq);
    let rest2 = rest1.subrange(sep - seq, rest1.len() as int);
    lemma_line_count_split(rest2, qual - sep);
    assert(text.subrange(0, seq - p) == s.subrange(p, seq));
    assert(rest1.subrange(0, sep - seq) == s.subrange(seq, sep));
    assert(rest2.subrange(0, qual - sep) == s.subrange(sep, qual));
    assert(rest2.subrange(qual - sep, rest2.len() as int) == s.subrange(qual, next));
}

/// Up to a boundary there are four lines for each record, and passing them leads to
/// the boundary.
pub proof fn lemma_boundary_lines(s: Seq<u8>, p: int, n: int)
    requires
        0 <= p <= n <= s.len(),
        boundary(s, p, n),
    ensures
        line_count(s.subrange(p, n)) == 4 * records_between(s, p, n),
        skip_lines(s, p, 4 * records_between(s, p, n)) == n,
    decreases n - p,
{
    if p < n {
        let e = record_end(s, p);
        let k = records_between(s, e + 1, n);
        lemma_record_lines(s, p);
        lemma_boundary_lines(s, e + 1, n);
        lemma_skip_lines_add(s, p, 4, 4 * k);
        let part = s.subrange(p, n);
        lemma_line_count_split(part, e + 1 - p);
        assert(part.subrange(0, e + 1 - p) == s.subrange(p, e + 1));
        assert(part.subrange(e + 1 - p, part.len() as int) == s.subrange(e + 1, n));
    } else {
        assert(s.subrange(p, n).len() == 0);
    }
}

/// In a well-formed stream every four lines are a record: passing `4 * k` lines that
/// end with a line feed leads to the boundary after `k` records.
pub proof fn lemma_lines_are_records(s: Seq<u8>, p: int, k: nat)
    requires
        0 <= p <= s.len(),
        wellformed(s, p),
        4 * k <= line_count(s.subrange(p, s.len() as int)),
    ensures
        p <= skip_lines(s, p, 4 * k) <= s.len(),
        boundary(s, p, skip_lines(s, p, 4 * k)),
        records_between(s, p, skip_lines(s, p, 4 * k)) == k,
        wellformed(s, skip_lines(s, p, 4 * k)),
    decreases k,
{
    if k > 0 {
        let seq = next_line(s, p);
        let sep = next_line(s, seq);
        let qual = next_line(s, sep);
        let next = next_line(s, qual);
        lemma_line_counted(s, p);
        lemma_line_counted(s, seq);
        lemma_line_counted(s, sep);
        lemma_line_counted(s, qual);
        assert(record_at(s, p));
        lemma_record_lines(s, p);
        lemma_lines_are_records(s, next, (k - 1) as nat);
        lemma_skip_lines_add(s, p, 4, (4 * (k - 1)) as nat);
        let to = skip_lines(s, p, 4 * k);
        assert(to == skip_lines(s, next, (4 * (k - 1)) as nat));
        assert(record_end(s, p) + 1 == next);
        assert(next <= to);
    }
}

/// Paired chunks hold the same number of records: where both streams are well formed,
/// the two chunks that a paired reader cuts by counting lines end between two records,
/// and each is a chunk of whole records, a quarter as many as the lines that were
/// counted.
pub proof fn lemma_paired_chunks(
    filled1: Seq<u8>,
    filled2: Seq<u8>,
    ended1: bool,
    ended2: bool,
    n1: usize,
    n2: usize,
)
    requires
        wellformed(filled1, 0),
        wellformed(filled2, 0),
        paired_lines(filled1, filled2) > 0,
        pair_cut(filled1, filled2, ended1, ended2) == PairCut::Take(n1, n2),
        filled1.len() <= usize::MAX,
        filled2.len() <= usize::MAX,
    ensures
        n1 <= filled1.len(),
        n2 <= filled2.len(),
        boundary(filled1, 0, n1 as int),
        boundary(filled2, 0, n2 as int),
        whole_records(filled1.subrange(0, n1 as int), 0),
        whole_records(filled2.subrange(0, n2 as int), 0),
        records_from(filled1.subrange(0, n1 as int), 0).len() == paired_lines(filled1, filled2) / 4,
        records_from(filled2.subrange(0, n2 as int), 0).len() == paired_lines(filled1, filled2) / 4,
{
    let lines = paired_lines(filled1, filled2);
    let k = lines / 4;
    assert(lines == 4 * k);
    assert(filled1.subrange(0, filled1.len() as int) == filled1);
    assert(filled2.subrange(0, filled2.len() as int) == filled2);
    lemma_lines_are_records(filled1, 0, k);
    lemma_lines_are_records(filled2, 0, k);
    lemma_boundary_window(filled1, 0, n1 as int, 0);
    lemma_boundary_window(filled2, 0, n2 as int, 0);
}

/// The shorter of two files is found out: where all records of both streams are
/// pending, both have ended, and the first holds one record more than the second, the
/// reader first hands over as many records of the first as the second holds, all of
/// the second, and then reports the mismatch; the record that has no mate is never
/// handed over.
pub proof fn lemma_shorter_file_is_reported(pending1: Seq<u8>, pending2: Seq<u8>)
    requires
        pending1.len() <= usize::MAX,
        pending2.len() <= usize::MAX,
        wellformed(pending1, 0),
        boundary(pending1, 0, pending1.len() as int),
        boundary(pending2, 0, pending2.len() as int),
        records_between(pending1, 0, pending1.len() as int) == records_between(
            pending2,
            0,
            pending2.len() as int,
        ) + 1,
    ensures
        pending2.len() == 0 ==> pair_cut(pending1, pending2, true, true) == PairCut::Mismatch,
        pending2.len() > 0 ==> {
            let n1 = skip_lines(pending1, 0, line_count(pending2));
            &&& 0 < n1 < pending1.len()
            &&& pair_cut(pending1, pending2, true, true) == PairCut::Take(
                n1 as usize,
                pending2.len() as usize,
            )
            &&& records_between(pending1, 0, n1) == records_between(
                pending2,
                0,
                pending2.len() as int,
            )
            &&& pair_cut(
                pending1.subrange(n1, pending1.len() as int),
                Seq::<u8>::empty(),
                true,
                true,
            ) == PairCut::Mismatch
        },
{
    let len1 = pending1.len() as int;
    let len2 = pending2.len() as int;
    let k = records_between(pending2, 0, len2);
    assert(pending1.subrange(0, len1) == pending1);
    assert(pending2.subrange(0, len2) == pending2);
    lemma_boundary_lines(pending1, 0, len1);
    lemma_boundary_lines(pending2, 0, len2);
    assert(record_at(pending1, 0));
    if len2 > 0 {
        assert(record_at(pending2, 0));
        assert(k > 0);
        assert(line_count(pending1) == 4 * k + 4);
        assert(line_count(pending2) == 4 * k);
        assert(whole_lines(pending1) == 4 * k + 4);
        assert(whole_lines(pending2) == 4 * k);
        assert(paired_lines(pending1, pending2) == 4 * k);
        lemma_lines_are_records(pending1, 0, k);
        let n1 = skip_lines(pending1, 0, 4 * k);
        assert(n1 != len1);
        lemma_boundary_window(pending1, 0, n1, 0);
        let rest1 = pending1.subrange(n1, len1);
        assert(rest1[0] == pending1[n1]);
        let rest2 = pending2.subrange(len2, len2);
        assert(rest2.len() == 0);
        assert(n1 > 0) by {
            lemma_boundary_lines(pending1, 0, n1);
        }
    } else {
        assert(k == 0);
    }
}

/// What a stream reader hands over before its stream has ended is a chunk of whole
/// records, and what it keeps begins where a record begins: where the bytes that the
/// reader held when it cut, the chunk and what stays pending, are well formed, the
/// chunk holds whole records, the spans that a scan of it returns rebuild it, and what
/// stays pending is well formed again.
pub proof fn lemma_stream_reader_chunk<T: ByteSource>(
    before: ByteReader<T>,
    after: ByteReader<T>,
    chunk: Seq<u8>,
)
    requires
        before.hands_over(&after, chunk),
        !after.finished(),
        wellformed(chunk + after.pending(), 0),
    ensures
        whole_records(chunk, 0),
        joined(chunk, records_from(chunk, 0)) == chunk,
        wellformed(after.pending(), 0),
{
    let filled = chunk + after.pending();
    let n = chunk.len() as usize;
    lemma_stream_chunk(filled, n);
    assert(filled.subrange(0, n as int) == chunk);
    lemma_window_wellformed(filled, n as int, filled.len() as int, 0);
    assert(filled.subrange(n as int, filled.len() as int) == after.pending());
}

/// What a reader of a mapped region hands over before the end of the region is a chunk
/// of whole records, and it stays where a record begins: where the region is well
/// formed from the position of the reader on and none of its quality lines begins with
/// `@`, the chunk holds whole records, the spans that a scan of it returns rebuild it,
/// and the same holds of the region from the new position on.
pub proof fn lemma_region_reader_chunk(
    before: ByteReaderMmap,
    after: ByteReaderMmap,
    chunk: Seq<u8>,
)
    requires
        before.wf(),
        before.hands_over(&after, chunk),
        after.position() < before.region().len(),
        wellformed(before.region(), before.position() as int),
        plain_qualities(before.region(), before.position() as int),
    ensures
        whole_records(chunk, 0),
        joined(chunk, records_from(chunk, 0)) == chunk,
        wellformed(after.region(), after.position() as int),
        plain_qualities(after.region(), after.position() as int),
{
    let region = before.region();
    let p = before.position() as int;
    let q = after.position() as int;
    lemma_region_chunk(region, p, before.target() as int, chunk.len() as usize);
    lemma_boundary_window(region, p, q, 0);
    lemma_plain_at_boundary(region, p, q);
    lemma_spans_rebuild(chunk);
}

/// Paired chunks and what stays behind them: where both streams are well formed and
/// the chunks are cut by counting lines, each chunk holds whole records, as many in the
/// one as in the other, and what follows each chunk is well formed again.
pub proof fn lemma_paired_cut(
    filled1: Seq<u8>,
    filled2: Seq<u8>,
    ended1: bool,
    ended2: bool,
    n1: usize,
    n2: usize,
)
    requires
        wellformed(filled1, 0),
        wellformed(filled2, 0),
        paired_lines(filled1, filled2) > 0,
        pair_cut(filled1, filled2, ended1, ended2) == PairCut::Take(n1, n2),
        filled1.len() <= usize::MAX,
        filled2.len() <= usize::MAX,
    ensures
        n1 <= filled1.len(),
        n2 <= filled2.len(),
        whole_records(filled1.subrange(0, n1 as int), 0),
        whole_records(filled2.subrange(0, n2 as int), 0),
        records_from(filled1.subrange(0, n1 as int), 0).len() == records_from(
            filled2.subrange(0, n2 as int),
            0,
        ).len(),
        4 * records_from(filled1.subrange(0, n1 as int), 0).len() == paired_lines(
            filled1,
            filled2,
        ),
        wellformed(filled1.subrange(n1 as int, filled1.len() as int), 0),
        wellformed(filled2.subrange(n2 as int, filled2.len() as int), 0),
{
    lemma_paired_chunks(filled1, filled2, ended1, ended2, n1, n2);
    lemma_wellformed_at_boundary(filled1, 0, n1 as int);
    lemma_wellformed_at_boundary(filled2, 0, n2 as int);
    lemma_window_wellformed(filled1, n1 as int, filled1.len() as int, 0);
    lemma_window_wellformed(filled2, n2 as int, filled2.len() as int, 0);
}

/// What a paired reader hands over by counting lines are two chunks of whole records,
/// as many in the one as in the other: where the bytes that the reader held of each
/// stream when it cut are well formed and hold four lines or more, each chunk holds
/// whole records, a quarter as many as the lines that were counted, and what stays
/// pending of each stream is well formed again.
pub proof fn lemma_paired_reader_chunks<T: ByteSource>(
    before: PairedByteReader<T>,
    after: PairedByteReader<T>,
    chunk1: Seq<u8>,
    chunk2: Seq<u8>,
)
    requires
        before.hands_over(&after, chunk1, chunk2),
        wellformed(chunk1 + after.pending().0, 0),
        wellformed(chunk2 + after.pending().1, 0),
        paired_lines(chunk1 + after.pending().0, chunk2 + after.pending().1) > 0,
    ensures
        whole_records(chunk1, 0),
        whole_records(chunk2, 0),
        records_from(chunk1, 0).len() == records_from(chunk2, 0).len(),
        4 * records_from(chunk1, 0).len() == paired_lines(
            chunk1 + after.pending().0,
            chunk2 + after.pending().1,
        ),
        wellformed(after.pending().0, 0),
        wellformed(after.pending().1, 0),
{
    let filled1 = chunk1 + after.pending().0;
    let filled2 = chunk2 + after.pending().1;
    let n1 = chunk1.len() as usize;
    let n2 = chunk2.len() as usize;
    assert(filled1.len() <= before.capacity());
    assert(filled2.len() <= before.capacity());
    assert(pair_cut(filled1, filled2, after.finished().0, after.finished().1) == PairCut::Take(
        n1,
        n2,
    ));
    lemma_paired_cut(filled1, filled2, after.finished().0, after.finished().1, n1, n2);
    assert(filled1.subrange(0, n1 as int) == chunk1);
    assert(filled2.subrange(0, n2 as int) == chunk2);
    assert(filled1.subrange(n1 as int, filled1.len() as int) == after.pending().0);
    assert(filled2.subrange(n2 as int, filled2.len() as int) == after.pending().1);
}

} // verus!
