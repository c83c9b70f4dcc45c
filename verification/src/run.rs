//! Whole runs: what holds of all the chunks that a reader hands over, one call after
//! the other, and of all the partial sums that the workers send.
//!
//! A byte source has no contract, so the bytes of a stream have no name in the
//! contract of a single call. Here a run is a sequence of reader states, each taken to
//! the next by a call that handed over a chunk, and the stream is what the run is
//! measured against: the laws hold of every run in which the reader received the bytes
//! of the stream, in order, and was told of its end at its end.

use vstd::prelude::*;
use crate::byte_reader::{
    pair_cut, paired_lines, region_cut, stream_cut, whole_lines, ByteReader, ByteReaderMmap,
    ByteSource, Cut, FillBuffer, FillBufferPair, PairCut, PairedByteReader,
};
use crate::format::{
    joined, lemma_spans_rebuild, line_count, record_end, records_from, whole_records,
};
use crate::parallel::fastq::{lemma_total_any_order, lemma_total_concat, lemma_total_push, total};
use crate::stream::{
    boundary, lemma_boundary_lines, lemma_boundary_window, lemma_last_chunk,
    lemma_paired_chunks, lemma_plain_at_boundary, lemma_region_chunk,
    lemma_wellformed_at_boundary, lemma_window_boundary, lemma_window_chunk,
    lemma_window_wellformed, plain_qualities, records_between, wellformed,
};

verus! {

/// `parts`, one after the other.
#[verifier::opaque]
pub open spec fn glued(parts: Seq<Seq<u8>>) -> Seq<u8>
    decreases parts.len(),
{
    if parts.len() == 0 {
        Seq::empty()
    } else {
        glued(parts.drop_last()) + parts.last()
    }
}

/// The first `k` of `parts`, one after the other.
pub open spec fn glued_to(parts: Seq<Seq<u8>>, k: int) -> Seq<u8> {
    glued(parts.subrange(0, k))
}

/// No parts are nothing, and all parts are all.
pub proof fn lemma_glued_ends(parts: Seq<Seq<u8>>)
    ensures
        glued_to(parts, 0) == Seq::<u8>::empty(),
        glued_to(parts, parts.len() as int) == glued(parts),
{
    reveal(glued);
    assert(parts.subrange(0, 0).len() == 0);
    assert(parts.subrange(0, parts.len() as int) == parts);
}

/// One part more is glued to the end.
pub proof fn lemma_glued_step(parts: Seq<Seq<u8>>, k: int)
    requires
        0 <= k < parts.len(),
    ensures
        glued_to(parts, k + 1) == glued_to(parts, k) + parts[k],
{
    reveal(glued);
    assert(parts.subrange(0, k + 1).drop_last() == parts.subrange(0, k));
}

/// Passing records up to one boundary and on to the next is passing them all.
pub proof fn lemma_boundary_add(s: Seq<u8>, a: int, b: int, c: int)
    requires
        a <= b <= c,
        boundary(s, a, b),
        boundary(s, b, c),
    ensures
        boundary(s, a, c),
    decreases b - a,
{
    if a < b {
        lemma_boundary_add(s, record_end(s, a) + 1, b, c);
    }
}

/// A run of a stream reader: each state is taken to the next by a call of `fill_buf`
/// that handed over the chunk of that place.
pub open spec fn stream_run<T: ByteSource>(
    states: Seq<ByteReader<T>>,
    chunks: Seq<Seq<u8>>,
) -> bool {
    &&& states.len() == chunks.len() + 1
    &&& forall|i: int|
        #![trigger chunks[i]]
        0 <= i < chunks.len() ==> states[i].hands_over(&states[i + 1], chunks[i])
}

/// In a run the reader received the bytes of `s`: what it held at each call once it
/// was filled, the chunk and what stayed pending, is the part of `s` that follows the
/// chunks before; and it was told of the end of its stream only when it held `s` to
/// its end.
pub open spec fn stream_read<T: ByteSource>(
    s: Seq<u8>,
    states: Seq<ByteReader<T>>,
    chunks: Seq<Seq<u8>>,
) -> bool {
    forall|i: int|
        #![trigger chunks[i]]
        0 <= i < chunks.len() ==> {
            let from = glued_to(chunks, i).len() as int;
            let filled = chunks[i] + states[i + 1].pending();
            &&& from + filled.len() <= s.len()
            &&& filled == s.subrange(from, from + filled.len())
            &&& states[i + 1].finished() ==> from + filled.len() == s.len()
        }
}

/// One call in a run over a stream of whole records: where the chunks before ended at
/// the boundary `from`, and the reader then held the part of `s` from there that is
/// `filled`, the chunk that it cut is whole records of `s` and ends at a boundary, or
/// at the end of `s`.
pub proof fn lemma_stream_step(s: Seq<u8>, from: int, filled: Seq<u8>, ended: bool, n: usize)
    requires
        s.len() <= usize::MAX,
        wellformed(s, 0),
        whole_records(s, 0),
        0 <= from,
        boundary(s, 0, from),
        from + filled.len() <= s.len(),
        filled == s.subrange(from, from + filled.len()),
        ended ==> from + filled.len() == s.len(),
        stream_cut(filled, ended) == Cut::Take(n),
    ensures
        0 < n <= filled.len(),
        filled.subrange(0, n as int) == s.subrange(from, from + n),
        whole_records(s.subrange(from, from + n), 0),
        joined(s.subrange(from, from + n), records_from(s.subrange(from, from + n), 0))
            == s.subrange(from, from + n),
        boundary(s, 0, from + n) || from + n == s.len(),
        ended ==> from + n == s.len(),
{
    lemma_wellformed_at_boundary(s, 0, from);
    if ended {
        lemma_last_chunk(s, from);
    } else {
        lemma_window_chunk(s, from, from + filled.len(), n);
        lemma_spans_rebuild(s.subrange(from, from + n));
        lemma_boundary_add(s, 0, from, from + n);
    }
    assert(filled.subrange(0, n as int) == s.subrange(from, from + n));
}

/// The first `k` chunks of a run over a stream of whole records: they are the
/// beginning of the stream, they end between two records or at the end of the stream,
/// and each is a chunk of whole records.
pub proof fn lemma_stream_run_to<T: ByteSource>(
    s: Seq<u8>,
    states: Seq<ByteReader<T>>,
    chunks: Seq<Seq<u8>>,
    k: int,
)
    requires
        s.len() <= usize::MAX,
        wellformed(s, 0),
        whole_records(s, 0),
        stream_run(states, chunks),
        stream_read(s, states, chunks),
        0 <= k <= chunks.len(),
    ensures
        glued_to(chunks, k).len() <= s.len(),
        glued_to(chunks, k) == s.subrange(0, glued_to(chunks, k).len() as int),
        boundary(s, 0, glued_to(chunks, k).len() as int) || glued_to(chunks, k).len() == s.len(),
        k > 0 && states[k].finished() ==> glued_to(chunks, k) == s,
        forall|i: int|
            0 <= i < k ==> whole_records(#[trigger] chunks[i], 0) && joined(
                chunks[i],
                records_from(chunks[i], 0),
            ) == chunks[i],
    decreases k,
{
    if k == 0 {
        lemma_glued_ends(chunks);
        assert(s.subrange(0, 0) == Seq::<u8>::empty());
    } else {
        let i = k - 1;
        lemma_stream_run_to(s, states, chunks, i);
        lemma_glued_step(chunks, i);
        let from = glued_to(chunks, i).len() as int;
        let chunk = chunks[i];
        let filled = chunk + states[i + 1].pending();
        let ended = states[i + 1].finished();
        let n = chunk.len() as usize;
        assert(states[i].hands_over(&states[i + 1], chunk));
        assert(stream_cut(filled, ended) == Cut::Take(n));
        assert(filled == s.subrange(from, from + filled.len()));
        assert(filled.subrange(0, chunk.len() as int) == chunk);
        if from == s.len() {
            assert(filled.len() == 0);
        }
        lemma_stream_step(s, from, filled, ended, n);
        assert(s.subrange(0, from) + s.subrange(from, from + n) == s.subrange(0, from + n));
        if ended {
            assert(s.subrange(0, s.len() as int) == s);
        }
    }
}

/// Round trip over a whole run, and no record split: where a stream reader received a
/// well-formed stream of whole records, the chunks that it handed over, in order, are
/// the beginning of the stream, nothing dropped, doubled or out of order; each chunk
/// holds whole records and is rebuilt by the spans that a scan of it returns; and once
/// the reader has handed over a chunk after the end of its stream, the chunks are the
/// stream.
pub proof fn lemma_stream_run<T: ByteSource>(
    s: Seq<u8>,
    states: Seq<ByteReader<T>>,
    chunks: Seq<Seq<u8>>,
)
    requires
        s.len() <= usize::MAX,
        wellformed(s, 0),
        whole_records(s, 0),
        stream_run(states, chunks),
        stream_read(s, states, chunks),
    ensures
        glued(chunks).len() <= s.len(),
        glued(chunks) == s.subrange(0, glued(chunks).len() as int),
        boundary(s, 0, glued(chunks).len() as int) || glued(chunks).len() == s.len(),
        chunks.len() > 0 && states.last().finished() ==> glued(chunks) == s,
        forall|i: int|
            0 <= i < chunks.len() ==> whole_records(#[trigger] chunks[i], 0) && joined(
                chunks[i],
                records_from(chunks[i], 0),
            ) == chunks[i],
{
    lemma_stream_run_to(s, states, chunks, chunks.len() as int);
    lemma_glued_ends(chunks);
}

/// A run of a reader of a mapped region, from the beginning of the region: each state
/// is taken to the next by a call of `fill_buf` that handed over the chunk of that
/// place.
pub open spec fn region_run(states: Seq<ByteReaderMmap>, chunks: Seq<Seq<u8>>) -> bool {
    &&& states.len() == chunks.len() + 1
    &&& states[0].wf()
    &&& states[0].position() == 0
    &&& forall|i: int|
        #![trigger chunks[i]]
        0 <= i < chunks.len() ==> states[i].hands_over(&states[i + 1], chunks[i])
}

/// The first `k` chunks of a run over a mapped region of whole records, none of whose
/// quality lines begins with `@`: they are the region up to the position of the
/// reader, which lies between two records or at the end of the region, and each is a
/// chunk of whole records.
pub proof fn lemma_region_run_to(states: Seq<ByteReaderMmap>, chunks: Seq<Seq<u8>>, k: int)
    requires
        region_run(states, chunks),
        wellformed(states[0].region(), 0),
        plain_qualities(states[0].region(), 0),
        whole_records(states[0].region(), 0),
        0 <= k <= chunks.len(),
    ensures
        states[k].region() == states[0].region(),
        states[k].target() == states[0].target(),
        states[k].position() <= states[0].region().len(),
        glued_to(chunks, k) == states[0].region().subrange(0, states[k].position() as int),
        boundary(states[0].region(), 0, states[k].position() as int) || states[k].position()
            == states[0].region().len(),
        forall|i: int|
            0 <= i < k ==> whole_records(#[trigger] chunks[i], 0) && joined(
                chunks[i],
                records_from(chunks[i], 0),
            ) == chunks[i],
    decreases k,
{
    let region = states[0].region();
    if k == 0 {
        lemma_glued_ends(chunks);
        assert(region.subrange(0, 0) == Seq::<u8>::empty());
    } else {
        let i = k - 1;
        lemma_region_run_to(states, chunks, i);
        lemma_glued_step(chunks, i);
        let p = states[i].position() as int;
        let q = states[i + 1].position() as int;
        let chunk = chunks[i];
        assert(states[i].hands_over(&states[i + 1], chunk));
        assert(region_cut(region, p, states[i].target() as int) == Cut::Take(chunk.len() as usize));
        assert(p < region.len());
        assert(chunk == region.subrange(p, q));
        lemma_wellformed_at_boundary(region, 0, p);
        lemma_plain_at_boundary(region, 0, p);
        lemma_region_chunk(region, p, states[i].target() as int, chunk.len() as usize);
        if q < region.len() {
            lemma_boundary_window(region, p, q, 0);
            lemma_spans_rebuild(chunk);
            lemma_boundary_add(region, 0, p, q);
        } else {
            lemma_last_chunk(region, p);
        }
        assert(region.subrange(0, p) + region.subrange(p, q) == region.subrange(0, q));
    }
}

/// Round trip over a whole run of a reader of a mapped region, and no record split:
/// where the region holds a well-formed stream of whole records, none of whose quality
/// lines begins with `@`, the chunks that the reader handed over, in order, are the
/// region up to the position of the reader, each chunk holds whole records and is
/// rebuilt by the spans that a scan of it returns, and at the end of the region the
/// chunks are the region.
pub proof fn lemma_region_run(states: Seq<ByteReaderMmap>, chunks: Seq<Seq<u8>>)
    requires
        region_run(states, chunks),
        wellformed(states[0].region(), 0),
        plain_qualities(states[0].region(), 0),
        whole_records(states[0].region(), 0),
    ensures
        glued(chunks) == states[0].region().subrange(0, states.last().position() as int),
        states.last().position() == states[0].region().len() ==> glued(chunks)
            == states[0].region(),
        forall|i: int|
            0 <= i < chunks.len() ==> whole_records(#[trigger] chunks[i], 0) && joined(
                chunks[i],
                records_from(chunks[i], 0),
            ) == chunks[i],
{
    let region = states[0].region();
    lemma_region_run_to(states, chunks, chunks.len() as int);
    lemma_glued_ends(chunks);
    assert(region.subrange(0, region.len() as int) == region);
}

/// What lies between two boundaries that are reached from the same place is reached
/// from the nearer to the farther.
pub proof fn lemma_boundary_sub(s: Seq<u8>, a: int, b: int, c: int)
    requires
        a <= b <= c,
        boundary(s, a, b),
        boundary(s, a, c),
    ensures
        boundary(s, b, c),
    decreases b - a,
{
    if a < b {
        lemma_boundary_sub(s, record_end(s, a) + 1, b, c);
    }
}

/// The records up to a boundary are those up to a boundary before it and those from
/// there on.
pub proof fn lemma_records_add(s: Seq<u8>, a: int, b: int, c: int)
    requires
        a <= b <= c,
        boundary(s, a, b),
        boundary(s, b, c),
    ensures
        records_between(s, a, c) == records_between(s, a, b) + records_between(s, b, c),
    decreases b - a,
{
    if a < b {
        lemma_records_add(s, record_end(s, a) + 1, b, c);
    }
}

/// The number of records in all of `chunks`.
#[verifier::opaque]
pub open spec fn records_in(chunks: Seq<Seq<u8>>) -> nat
    decreases chunks.len(),
{
    if chunks.len() == 0 {
        0
    } else {
        records_in(chunks.drop_last()) + records_from(chunks.last(), 0).len()
    }
}

/// The number of records in the first `k` of `chunks`.
pub open spec fn records_to(chunks: Seq<Seq<u8>>, k: int) -> nat {
    records_in(chunks.subrange(0, k))
}

/// No chunks hold no records, and all chunks hold all.
pub proof fn lemma_records_ends(chunks: Seq<Seq<u8>>)
    ensures
        records_to(chunks, 0) == 0,
        records_to(chunks, chunks.len() as int) == records_in(chunks),
{
    reveal(records_in);
    assert(chunks.subrange(0, 0).len() == 0);
    assert(chunks.subrange(0, chunks.len() as int) == chunks);
}

/// One chunk more adds its records.
pub proof fn lemma_records_step(chunks: Seq<Seq<u8>>, k: int)
    requires
        0 <= k < chunks.len(),
    ensures
        records_to(chunks, k + 1) == records_to(chunks, k) + records_from(chunks[k], 0).len(),
{
    reveal(records_in);
    assert(chunks.subrange(0, k + 1).drop_last() == chunks.subrange(0, k));
}

/// A run of a paired reader: each state is taken to the next by a call of `fill_buf`
/// that handed over the two chunks of that place.
pub open spec fn paired_run<T: ByteSource>(
    states: Seq<PairedByteReader<T>>,
    chunks1: Seq<Seq<u8>>,
    chunks2: Seq<Seq<u8>>,
) -> bool {
    &&& states.len() == chunks1.len() + 1
    &&& chunks2.len() == chunks1.len()
    &&& forall|i: int|
        #![trigger chunks1[i]]
        0 <= i < chunks1.len() ==> states[i].hands_over(&states[i + 1], chunks1[i], chunks2[i])
}

/// What a reader held of a stream at the `i`-th call of a run, once it was filled, is
/// the part of `s` that follows the chunks before; and the reader was told of the end
/// of the stream only when it held `s` to its end.
pub open spec fn held_of(
    s: Seq<u8>,
    chunks: Seq<Seq<u8>>,
    i: int,
    pending: Seq<u8>,
    ended: bool,
) -> bool {
    let from = glued_to(chunks, i).len() as int;
    let filled = chunks[i] + pending;
    &&& from + filled.len() <= s.len()
    &&& filled == s.subrange(from, from + filled.len())
    &&& ended ==> from + filled.len() == s.len()
}

/// In a run the reader received the bytes of `s1` from its first stream and those of
/// `s2` from its second.
pub open spec fn paired_read<T: ByteSource>(
    s1: Seq<u8>,
    s2: Seq<u8>,
    states: Seq<PairedByteReader<T>>,
    chunks1: Seq<Seq<u8>>,
    chunks2: Seq<Seq<u8>>,
) -> bool {
    forall|i: int|
        #![trigger chunks1[i]]
        0 <= i < chunks1.len() ==> {
            &&& held_of(s1, chunks1, i, states[i + 1].pending().0, states[i + 1].finished().0)
            &&& held_of(s2, chunks2, i, states[i + 1].pending().1, states[i + 1].finished().1)
        }
}

/// A well-formed stream of whole records, each of which ends with a line feed.
pub open spec fn complete(s: Seq<u8>) -> bool {
    &&& s.len() <= usize::MAX
    &&& wellformed(s, 0)
    &&& boundary(s, 0, s.len() as int)
}

/// What is left of a complete stream from a boundary on holds four lines or more,
/// unless nothing is left.
pub proof fn lemma_rest_has_lines(s: Seq<u8>, from: int)
    requires
        complete(s),
        0 <= from < s.len(),
        boundary(s, 0, from),
    ensures
        whole_lines(s.subrange(from, s.len() as int)) >= 4,
{
    lemma_boundary_sub(s, 0, from, s.len() as int);
    lemma_boundary_lines(s, from, s.len() as int);
    let r = records_between(s, from, s.len() as int);
    assert(r >= 1);
    assert(line_count(s.subrange(from, s.len() as int)) == 4 * r);
    assert((4 * r) % 4 == 0) by (nonlinear_arith);
}

/// One call in a run over two complete streams: where the chunks before ended at the
/// boundaries `from1` and `from2`, and the reader then held the parts of the streams
/// from there that are `filled1` and `filled2`, the two chunks that it cut are whole
/// records of their streams, as many of the one as of the other, and end at boundaries.
pub proof fn lemma_paired_step(
    s1: Seq<u8>,
    s2: Seq<u8>,
    from1: int,
    from2: int,
    filled1: Seq<u8>,
    filled2: Seq<u8>,
    ended1: bool,
    ended2: bool,
    n1: usize,
    n2: usize,
)
    requires
        complete(s1),
        complete(s2),
        0 <= from1,
        0 <= from2,
        boundary(s1, 0, from1),
        boundary(s2, 0, from2),
        from1 + filled1.len() <= s1.len(),
        from2 + filled2.len() <= s2.len(),
        filled1 == s1.subrange(from1, from1 + filled1.len()),
        filled2 == s2.subrange(from2, from2 + filled2.len()),
        ended1 ==> from1 + filled1.len() == s1.len(),
        ended2 ==> from2 + filled2.len() == s2.len(),
        pair_cut(filled1, filled2, ended1, ended2) == PairCut::Take(n1, n2),
    ensures
        n1 <= filled1.len(),
        n2 <= filled2.len(),
        filled1.subrange(0, n1 as int) == s1.subrange(from1, from1 + n1),
        filled2.subrange(0, n2 as int) == s2.subrange(from2, from2 + n2),
        whole_records(s1.subrange(from1, from1 + n1), 0),
        whole_records(s2.subrange(from2, from2 + n2), 0),
        boundary(s1, from1, from1 + n1),
        boundary(s2, from2, from2 + n2),
        records_from(s1.subrange(from1, from1 + n1), 0).len() == records_between(
            s1,
            from1,
            from1 + n1,
        ),
        records_from(s2.subrange(from2, from2 + n2), 0).len() == records_between(
            s2,
            from2,
            from2 + n2,
        ),
        records_between(s1, from1, from1 + n1) == records_between(s2, from2, from2 + n2),
{
    if paired_lines(filled1, filled2) == 0 {
        assert(filled1.len() > 0 && filled2.len() > 0);
        assert(ended1 && ended2);
        lemma_rest_has_lines(s1, from1);
        lemma_rest_has_lines(s2, from2);
        assert(false);
    }
    let m1 = filled1.len() as int;
    let m2 = filled2.len() as int;
    lemma_wellformed_at_boundary(s1, 0, from1);
    lemma_wellformed_at_boundary(s2, 0, from2);
    lemma_window_wellformed(s1, from1, from1 + m1, 0);
    lemma_window_wellformed(s2, from2, from2 + m2, 0);
    lemma_paired_chunks(filled1, filled2, ended1, ended2, n1, n2);
    lemma_window_boundary(s1, from1, from1 + m1, 0, n1 as int);
    lemma_window_boundary(s2, from2, from2 + m2, 0, n2 as int);
    lemma_boundary_window(filled1, 0, n1 as int, 0);
    lemma_boundary_window(filled2, 0, n2 as int, 0);
    assert(filled1.subrange(0, n1 as int) == s1.subrange(from1, from1 + n1));
    assert(filled2.subrange(0, n2 as int) == s2.subrange(from2, from2 + n2));
}

/// The first `k` pairs of chunks of a run over two complete streams: they are the
/// beginnings of the streams, they end between two records, each chunk holds whole
/// records, and the two chunks of a pair hold equally many; so as many records of the
/// one stream have been handed over as of the other.
pub proof fn lemma_paired_run_to<T: ByteSource>(
    s1: Seq<u8>,
    s2: Seq<u8>,
    states: Seq<PairedByteReader<T>>,
    chunks1: Seq<Seq<u8>>,
    chunks2: Seq<Seq<u8>>,
    k: int,
)
    requires
        complete(s1),
        complete(s2),
        paired_run(states, chunks1, chunks2),
        paired_read(s1, s2, states, chunks1, chunks2),
        0 <= k <= chunks1.len(),
    ensures
        glued_to(chunks1, k).len() <= s1.len(),
        glued_to(chunks2, k).len() <= s2.len(),
        glued_to(chunks1, k) == s1.subrange(0, glued_to(chunks1, k).len() as int),
        glued_to(chunks2, k) == s2.subrange(0, glued_to(chunks2, k).len() as int),
        boundary(s1, 0, glued_to(chunks1, k).len() as int),
        boundary(s2, 0, glued_to(chunks2, k).len() as int),
        records_to(chunks1, k) == records_between(s1, 0, glued_to(chunks1, k).len() as int),
        records_to(chunks2, k) == records_between(s2, 0, glued_to(chunks2, k).len() as int),
        records_to(chunks1, k) == records_to(chunks2, k),
        forall|i: int|
            #![trigger chunks1[i]]
            0 <= i < k ==> {
                &&& whole_records(chunks1[i], 0)
                &&& whole_records(chunks2[i], 0)
                &&& records_from(chunks1[i], 0).len() == records_from(chunks2[i], 0).len()
            },
    decreases k,
{
    if k == 0 {
        lemma_glued_ends(chunks1);
        lemma_glued_ends(chunks2);
        lemma_records_ends(chunks1);
        lemma_records_ends(chunks2);
        assert(s1.subrange(0, 0) == Seq::<u8>::empty());
        assert(s2.subrange(0, 0) == Seq::<u8>::empty());
    } else {
        let i = k - 1;
        lemma_paired_run_to(s1, s2, states, chunks1, chunks2, i);
        lemma_glued_step(chunks1, i);
        lemma_glued_step(chunks2, i);
        lemma_records_step(chunks1, i);
        lemma_records_step(chunks2, i);
        let from1 = glued_to(chunks1, i).len() as int;
        let from2 = glued_to(chunks2, i).len() as int;
        let filled1 = chunks1[i] + states[i + 1].pending().0;
        let filled2 = chunks2[i] + states[i + 1].pending().1;
        let ended1 = states[i + 1].finished().0;
        let ended2 = states[i + 1].finished().1;
        let n1 = chunks1[i].len() as usize;
        let n2 = chunks2[i].len() as usize;
        assert(states[i].hands_over(&states[i + 1], chunks1[i], chunks2[i]));
        assert(held_of(s1, chunks1, i, states[i + 1].pending().0, ended1));
        assert(held_of(s2, chunks2, i, states[i + 1].pending().1, ended2));
        assert(pair_cut(filled1, filled2, ended1, ended2) == PairCut::Take(n1, n2));
        assert(filled1.subrange(0, chunks1[i].len() as int) == chunks1[i]);
        assert(filled2.subrange(0, chunks2[i].len() as int) == chunks2[i]);
        lemma_paired_step(s1, s2, from1, from2, filled1, filled2, ended1, ended2, n1, n2);
        lemma_boundary_add(s1, 0, from1, from1 + n1);
        lemma_boundary_add(s2, 0, from2, from2 + n2);
        lemma_records_add(s1, 0, from1, from1 + n1);
        lemma_records_add(s2, 0, from2, from2 + n2);
        assert(s1.subrange(0, from1) + s1.subrange(from1, from1 + n1) == s1.subrange(
            0,
            from1 + n1,
        ));
        assert(s2.subrange(0, from2) + s2.subrange(from2, from2 + n2) == s2.subrange(
            0,
            from2 + n2,
        ));
    }
}

/// Pairs over a whole run: where a paired reader received two complete streams, the
/// chunks that it handed over are the beginnings of the two streams, and hold as many
/// records of the one as of the other, pair of chunks by pair of chunks.
///
/// So where the streams hold equally many records, as many pairs have been handed over
/// as there are records once a stream has been handed over whole. Where they do not,
/// the reader never hands over both streams whole, and of the longer stream it never
/// hands over more records than the shorter one holds: the record that has no mate
/// stays behind.
pub proof fn lemma_paired_run<T: ByteSource>(
    s1: Seq<u8>,
    s2: Seq<u8>,
    states: Seq<PairedByteReader<T>>,
    chunks1: Seq<Seq<u8>>,
    chunks2: Seq<Seq<u8>>,
)
    requires
        complete(s1),
        complete(s2),
        paired_run(states, chunks1, chunks2),
        paired_read(s1, s2, states, chunks1, chunks2),
    ensures
        glued(chunks1) == s1.subrange(0, glued(chunks1).len() as int),
        glued(chunks2) == s2.subrange(0, glued(chunks2).len() as int),
        records_in(chunks1) == records_in(chunks2),
        records_in(chunks1) <= records_between(s1, 0, s1.len() as int),
        records_in(chunks2) <= records_between(s2, 0, s2.len() as int),
        glued(chunks1) == s1 ==> records_in(chunks1) == records_between(s1, 0, s1.len() as int),
        glued(chunks2) == s2 ==> records_in(chunks2) == records_between(s2, 0, s2.len() as int),
        records_between(s1, 0, s1.len() as int) != records_between(s2, 0, s2.len() as int)
            ==> !(glued(chunks1) == s1 && glued(chunks2) == s2),
        forall|i: int|
            #![trigger chunks1[i]]
            0 <= i < chunks1.len() ==> {
                &&& whole_records(chunks1[i], 0)
                &&& whole_records(chunks2[i], 0)
                &&& records_from(chunks1[i], 0).len() == records_from(chunks2[i], 0).len()
            },
{
    let k = chunks1.len() as int;
    lemma_paired_run_to(s1, s2, states, chunks1, chunks2, k);
    lemma_glued_ends(chunks1);
    lemma_glued_ends(chunks2);
    lemma_records_ends(chunks1);
    lemma_records_ends(chunks2);
    let off1 = glued(chunks1).len() as int;
    let off2 = glued(chunks2).len() as int;
    lemma_boundary_sub(s1, 0, off1, s1.len() as int);
    lemma_boundary_sub(s2, 0, off2, s2.len() as int);
    lemma_records_add(s1, 0, off1, s1.len() as int);
    lemma_records_add(s2, 0, off2, s2.len() as int);
}

/// The values of all of `runs`, run after run.
pub open spec fn all_of(runs: Seq<Seq<usize>>) -> Seq<usize>
    decreases runs.len(),
{
    if runs.len() == 0 {
        Seq::empty()
    } else {
        all_of(runs.drop_last()) + runs.last()
    }
}

/// Where each worker sent as much as its callbacks returned, all workers together sent
/// as much as all callbacks returned.
pub proof fn lemma_totals_agree(values: Seq<Seq<usize>>, sent: Seq<Seq<usize>>)
    requires
        values.len() == sent.len(),
        forall|w: int| 0 <= w < sent.len() ==> total(#[trigger] sent[w]) == total(values[w]),
    ensures
        total(all_of(sent)) == total(all_of(values)),
    decreases sent.len(),
{
    if sent.len() > 0 {
        let fewer_values = values.drop_last();
        let fewer_sent = sent.drop_last();
        assert forall|w: int| 0 <= w < fewer_sent.len() implies total(#[trigger] fewer_sent[w])
            == total(fewer_values[w]) by {
            assert(fewer_sent[w] == sent[w]);
            assert(fewer_values[w] == values[w]);
        }
        lemma_totals_agree(fewer_values, fewer_sent);
        lemma_total_concat(all_of(fewer_sent), sent.last());
        lemma_total_concat(all_of(fewer_values), values.last());
        assert(total(sent[sent.len() - 1]) == total(values[sent.len() - 1]));
    }
}

/// The account of the collector over a whole run: where each of `sums` is the one
/// before and the partial sum that was `received` then, the last is the first and the
/// sum of all that was received.
pub proof fn lemma_collected(sums: Seq<nat>, received: Seq<usize>)
    requires
        sums.len() == received.len() + 1,
        forall|i: int| 0 <= i < received.len() ==> sums[i + 1] == sums[i] + #[trigger] received[i],
    ensures
        sums.last() == sums[0] + total(received),
    decreases received.len(),
{
    if received.len() > 0 {
        let fewer = received.drop_last();
        let before = sums.drop_last();
        assert forall|i: int| 0 <= i < fewer.len() implies before[i + 1] == before[i]
            + #[trigger] fewer[i] by {
            assert(fewer[i] == received[i]);
        }
        lemma_collected(before, fewer);
        lemma_total_push(fewer, received.last());
        assert(fewer.push(received.last()) == received);
        assert(sums[received.len() as int] == sums[received.len() - 1] + received[received.len()
            - 1]);
    }
}

/// The total of a parallel run does not depend on the number of workers, on how the
/// records were dealt out to them, or on the order in which their partial sums came in.
///
/// `values[w]` is what the callback returned for the records of worker `w` and
/// `sent[w]` the partial sums that the worker sent, the last one at the end of the
/// stream: together they are as much as the values, as the worker's account has it.
/// `received` is what reached the collector, in the order in which it came, and `all`
/// what the callback returns for all records, in the order of the file. Then the
/// collector has added up the sum of `all`.
pub proof fn lemma_run_total(
    values: Seq<Seq<usize>>,
    sent: Seq<Seq<usize>>,
    received: Seq<usize>,
    all: Seq<usize>,
)
    requires
        values.len() == sent.len(),
        forall|w: int| 0 <= w < sent.len() ==> total(#[trigger] sent[w]) == total(values[w]),
        received.to_multiset() == all_of(sent).to_multiset(),
        all.to_multiset() == all_of(values).to_multiset(),
    ensures
        total(received) == total(all),
{
    lemma_total_any_order(received, all_of(sent));
    lemma_totals_agree(values, sent);
    lemma_total_any_order(all, all_of(values));
}

} // verus!
