//! Readers that cut a byte stream into chunks of whole records.

use vstd::prelude::*;
use vstd::slice::slice_subrange;
use crate::format::{
    last_header, lemma_line_count_search, lemma_line_count_split, lemma_next_line_search,
    lemma_next_marker_search, lemma_skip_lines_add, lemma_skip_lines_end,
    lemma_skip_lines_step, line_count, line_start, marker, next_marker, skip_lines, AT, LF,
    PLUS,
};
use crate::search::{count_byte, find_byte, find_bytes};

verus! {

/// The error type of the standard library's I/O, carried through unread.
#[verifier::external_type_specification]
#[verifier::external_body]
pub struct ExIoError(std::io::Error);

/// Why reading stopped.
#[derive(Debug)]
pub enum ReadError {
    /// The byte source failed; its error is handed on as it came.
    Io(std::io::Error),
    /// The byte source handed over more bytes than it was asked for.
    SourceOverrun,
    /// A byte that must begin a header or a separator line is something else, or a
    /// line that must end is cut off.
    Boundary,
    /// A record does not fit into the buffer.
    RecordTooLarge,
    /// One of two paired streams has ended while the other still holds records.
    LengthMismatch,
    /// A record holds a letter outside `A`, `C`, `G`, `T`, `N`, or its quality line is
    /// not as long as its sequence line.
    InvalidRecord,
}

impl ReadError {
    /// Whether a run has to be given up on this error. A failure of the byte source and
    /// a mismatch of two paired files are for the caller to deal with; a source that
    /// hands over too much, a broken boundary, a record that does not fit and an
    /// invalid record end the run.
    pub open spec fn fatal(&self) -> bool {
        !(self is Io || self is LengthMismatch)
    }

    /// Whether a run has to be given up on this error.
    pub fn is_fatal(&self) -> (r: bool)
        ensures
            r == self.fatal(),
    {
        match self {
            ReadError::Io(_) => false,
            ReadError::LengthMismatch => false,
            ReadError::SourceOverrun => true,
            ReadError::Boundary => true,
            ReadError::RecordTooLarge => true,
            ReadError::InvalidRecord => true,
        }
    }
}

/// Anything that bytes can be read from, piece by piece.
pub trait ByteSource {
    /// Hands over the next bytes of the stream, at most `max` of them. An empty result
    /// means that the stream has ended.
    fn pull(&mut self, max: usize) -> Result<Vec<u8>, std::io::Error>;
}

/// A source of chunks that end where a record ends.
pub trait FillBuffer {
    /// The invariant of the source.
    spec fn ready(&self) -> bool;

    /// Whether a call of `fill_buf` that takes the source from `self` to `after` may
    /// hand over `chunk`.
    spec fn hands_over(&self, after: &Self, chunk: Seq<u8>) -> bool;

    /// Whether a call of `fill_buf` that takes the source from `self` to `after` may
    /// find the input at its end.
    spec fn ends(&self, after: &Self) -> bool;

    /// Whether a call of `fill_buf` that takes the source from `self` to `after` may
    /// fail with `error`.
    spec fn fails(&self, after: &Self, error: ReadError) -> bool;

    /// Copies the next chunk to the front of `buffer`, which grows where the chunk
    /// needs it and never shrinks, and returns the chunk's length; `None` at the end of
    /// the input. After `None` and after an error `buffer` is as it was.
    fn fill_buf(&mut self, buffer: &mut Vec<u8>) -> (r: Result<Option<usize>, ReadError>)
        requires
            old(self).ready(),
        ensures
            final(self).ready(),
            match r {
                Ok(Some(n)) => {
                    &&& n > 0
                    &&& n <= final(buffer)@.len()
                    &&& old(buffer)@.len() <= final(buffer)@.len()
                    &&& old(self).hands_over(final(self), final(buffer)@.subrange(0, n as int))
                },
                Ok(None) => old(self).ends(final(self)) && final(buffer)@ == old(buffer)@,
                Err(e) => old(self).fails(final(self), e) && final(buffer)@ == old(buffer)@,
            },
    ;
}

/// A source of pairs of chunks that hold the same number of records.
pub trait FillBufferPair {
    /// The invariant of the source.
    spec fn ready(&self) -> bool;

    /// Whether a call of `fill_buf` that takes the source from `self` to `after` may
    /// hand over `chunk1` and `chunk2`.
    spec fn hands_over(&self, after: &Self, chunk1: Seq<u8>, chunk2: Seq<u8>) -> bool;

    /// Whether a call of `fill_buf` that takes the source from `self` to `after` may
    /// find the input at its end.
    spec fn ends(&self, after: &Self) -> bool;

    /// Whether a call of `fill_buf` that takes the source from `self` to `after` may
    /// fail with `error`.
    spec fn fails(&self, after: &Self, error: ReadError) -> bool;

    /// Copies the next chunk of each stream to the front of its buffer, which grows
    /// where the chunk needs it and never shrinks, and returns the two lengths; `None`
    /// at the end of the input. After `None` and after an error the buffers are as they
    /// were.
    fn fill_buf(&mut self, buffer1: &mut Vec<u8>, buffer2: &mut Vec<u8>) -> (r: Result<
        Option<(usize, usize)>,
        ReadError,
    >)
        requires
            old(self).ready(),
        ensures
            final(self).ready(),
            match r {
                Ok(Some((n1, n2))) => {
                    &&& n1 > 0
                    &&& n2 > 0
                    &&& n1 <= final(buffer1)@.len()
                    &&& n2 <= final(buffer2)@.len()
                    &&& old(buffer1)@.len() <= final(buffer1)@.len()
                    &&& old(buffer2)@.len() <= final(buffer2)@.len()
                    &&& old(self).hands_over(
                        final(self),
                        final(buffer1)@.subrange(0, n1 as int),
                        final(buffer2)@.subrange(0, n2 as int),
                    )
                },
                Ok(None) => {
                    &&& old(self).ends(final(self))
                    &&& final(buffer1)@ == old(buffer1)@
                    &&& final(buffer2)@ == old(buffer2)@
                },
                Err(e) => {
                    &&& old(self).fails(final(self), e)
                    &&& final(buffer1)@ == old(buffer1)@
                    &&& final(buffer2)@ == old(buffer2)@
                },
            },
    ;
}

/// Whether `a` is the beginning of `b`.
pub open spec fn begins(a: Seq<u8>, b: Seq<u8>) -> bool {
    a.len() <= b.len() && b.subrange(0, a.len() as int) == a
}

/// What a reader holds of a stream after it was asked to fill up, against what it held
/// before: `filled` begins with what was `pending` and is no longer than `capacity`.
/// Where the stream had `finished` or the reader was full, no source is asked: the
/// reader holds what it held, and the stream has `ended` as it had finished.
pub open spec fn refilled(
    pending: Seq<u8>,
    finished: bool,
    capacity: usize,
    filled: Seq<u8>,
    ended: bool,
) -> bool {
    &&& begins(pending, filled)
    &&& filled.len() <= capacity
    &&& finished || pending.len() == capacity ==> filled == pending && ended == finished
}

/// The number of bytes that a source is asked for: as many as `pending` lacks of
/// `capacity`.
pub fn room(pending: &Vec<u8>, capacity: usize) -> (r: usize)
    requires
        pending@.len() <= capacity,
    ensures
        r == capacity - pending@.len(),
{
    capacity - pending.len()
}

/// Appends to `pending` what a source handed over when it was asked for the
/// `capacity - pending.len()` bytes that are still missing.
///
/// Returns whether the source has ended, which it says by handing over nothing. More
/// bytes than were asked for are refused with `SourceOverrun`, and `pending` stays as it
/// was.
pub fn accept_bytes(pending: &mut Vec<u8>, capacity: usize, bytes: &[u8]) -> (r: Result<
    bool,
    ReadError,
>)
    requires
        old(pending)@.len() <= capacity,
    ensures
        final(pending)@.len() <= capacity,
        match r {
            Ok(ended) => {
                &&& bytes@.len() <= capacity - old(pending)@.len()
                &&& ended == (bytes@.len() == 0)
                &&& final(pending)@ == old(pending)@ + bytes@
            },
            Err(e) => {
                &&& e is SourceOverrun
                &&& bytes@.len() > capacity - old(pending)@.len()
                &&& final(pending)@ == old(pending)@
            },
        },
{
    if bytes.len() > capacity - pending.len() {
        return Err(ReadError::SourceOverrun);
    }
    pending.extend_from_slice(bytes);
    assert(pending@ == old(pending)@ + bytes@);
    Ok(bytes.len() == 0)
}

/// Reads from `source` until `pending` holds `capacity` bytes or the source has ended.
///
/// What was pending stays at the front. On success either the source has ended, and
/// `finished` is set, or `pending` is full. The source is asked only while it has not
/// finished and `pending` is not full, each time for the `room` that is left; so the
/// call succeeds, and changes nothing, where it begins finished or full.
pub fn fill_from<T: ByteSource>(
    source: &mut T,
    pending: &mut Vec<u8>,
    capacity: usize,
    finished: &mut bool,
) -> (r: Result<(), ReadError>)
    requires
        old(pending)@.len() <= capacity,
    ensures
        refilled(old(pending)@, *old(finished), capacity, final(pending)@, *final(finished)),
        match r {
            Ok(_) => *final(finished) || final(pending)@.len() == capacity,
            Err(e) => {
                &&& e is Io || e is SourceOverrun
                &&& !*old(finished)
                &&& old(pending)@.len() < capacity
                &&& !*final(finished)
            },
        },
{
    assert(pending@.subrange(0, pending@.len() as int) == pending@);
    while !*finished && pending.len() < capacity
        invariant
            pending@.len() <= capacity,
            refilled(old(pending)@, *old(finished), capacity, pending@, *finished),
        decreases capacity - pending@.len() + if *finished { 0int } else { 1int },
    {
        let ghost before = pending@;
        let bytes = match source.pull(room(pending, capacity)) {
            Ok(bytes) => bytes,
            Err(e) => {
                return Err(ReadError::Io(e));
            },
        };
        match accept_bytes(pending, capacity, bytes.as_slice()) {
            Ok(ended) => {
                *finished = ended;
            },
            Err(e) => {
                return Err(e);
            },
        }
        assert(begins(old(pending)@, pending@)) by {
            assert(pending@.subrange(0, old(pending)@.len() as int) == before.subrange(
                0,
                old(pending)@.len() as int,
            ));
        }
    }
    Ok(())
}

/// Copies `chunk` to the front of `buffer`, which grows where it is shorter than the
/// chunk and keeps its length where it is not.
pub fn copy_to_front(buffer: &mut Vec<u8>, chunk: &[u8])
    ensures
        final(buffer)@.subrange(0, chunk@.len() as int) == chunk@,
        final(buffer)@.len() == if old(buffer)@.len() < chunk@.len() {
            chunk@.len()
        } else {
            old(buffer)@.len()
        },
{
    let keep = buffer.len();
    buffer.clear();
    buffer.extend_from_slice(chunk);
    assert(buffer@ == chunk@);
    if buffer.len() < keep {
        buffer.resize(keep, 0);
    }
}

/// Moves the first `n` bytes of `pending` to the front of `buffer`, which grows where
/// it is shorter than `n`; what follows them in `pending` moves to its front.
pub fn hand_over(pending: &mut Vec<u8>, n: usize, buffer: &mut Vec<u8>)
    requires
        n <= old(pending)@.len(),
    ensures
        final(pending)@ == old(pending)@.subrange(n as int, old(pending)@.len() as int),
        final(buffer)@.subrange(0, n as int) == old(pending)@.subrange(0, n as int),
        final(buffer)@.len() == if old(buffer)@.len() < n {
            n as nat
        } else {
            old(buffer)@.len()
        },
{
    let rest = pending.split_off(n);
    copy_to_front(buffer, pending.as_slice());
    *pending = rest;
}

/// Where the last line of `s` begins that looks like a header: it begins with `@`, and
/// the line before it does not begin with `+`. Returns 0 where there is no such line
/// after the first.
pub fn last_record_start(s: &[u8]) -> (r: usize)
    ensures
        r == last_header(s@, s@.len() as int),
        r < s@.len() || r == 0,
{
    let mut i = s.len();
    while i > 1
        invariant
            i <= s@.len(),
            last_header(s@, s@.len() as int) == last_header(s@, i as int),
        decreases i,
    {
        let at = i - 1;
        if s[at] == AT && s[at - 1] == LF {
            let mut j = at - 1;
            while j > 0 && s[j - 1] != LF
                invariant
                    j <= at - 1,
                    at < s@.len(),
                    line_start(s@, at - 1) == line_start(s@, j as int),
                decreases j,
            {
                j -= 1;
            }
            if s[j] != PLUS {
                return at;
            }
        }
        i -= 1;
    }
    0
}

/// Where a reader cuts what it holds.
#[derive(Debug, Clone, Copy, PartialEq, Eq, Structural)]
pub enum Cut {
    /// The input has ended and nothing is left.
    Drained,
    /// No record ends inside what the reader may hold.
    TooLarge,
    /// The next chunk is the first bytes of what the reader holds, this many.
    Take(usize),
}

/// Where a paired reader cuts what it holds of its two streams.
#[derive(Debug, Clone, Copy, PartialEq, Eq, Structural)]
pub enum PairCut {
    /// Both streams have ended and nothing is left.
    Drained,
    /// One stream has nothing left while the other has.
    Mismatch,
    /// What is held of a stream, or what would stay of it, does not begin with `@`.
    Misaligned,
    /// No record ends inside what the reader may hold of one of the streams.
    TooLarge,
    /// The next chunks are the first bytes of what the reader holds, this many of the
    /// first stream and of the second.
    Take(usize, usize),
}

/// Where a stream reader cuts `pending`. Once the stream has ended the chunk is all
/// that is pending; before that it ends where the last header begins.
pub open spec fn stream_cut(pending: Seq<u8>, ended: bool) -> Cut {
    let at = last_header(pending, pending.len() as int);
    if ended {
        if pending.len() == 0 {
            Cut::Drained
        } else {
            Cut::Take(pending.len() as usize)
        }
    } else if at == 0 {
        Cut::TooLarge
    } else {
        Cut::Take(at as usize)
    }
}

/// Where a reader of a mapped region cuts the chunk that begins at `position`.
///
/// Where no more than `target` bytes are left, they are the chunk. Else the chunk runs
/// to the first line feed at or after `position + target` that an `@` follows, the line
/// feed included, or to the end of the region where there is none. A chunk of more
/// than twice `target` bytes is too large.
pub open spec fn region_cut(region: Seq<u8>, position: int, target: int) -> Cut {
    let left = region.len() - position;
    let found = next_marker(region, position + target);
    let n = if found < region.len() {
        found + 1 - position
    } else {
        left
    };
    if left <= 0 {
        Cut::Drained
    } else if target >= left {
        Cut::Take(left as usize)
    } else if n - target > target {
        Cut::TooLarge
    } else {
        Cut::Take(n as usize)
    }
}

/// The number of lines of `pending` that make up whole records: its line feeds,
/// rounded down to a multiple of four.
pub open spec fn whole_lines(pending: Seq<u8>) -> nat {
    (line_count(pending) - line_count(pending) % 4) as nat
}

/// The number of lines that both streams can hand over as whole records.
pub open spec fn paired_lines(pending1: Seq<u8>, pending2: Seq<u8>) -> nat {
    if whole_lines(pending1) <= whole_lines(pending2) {
        whole_lines(pending1)
    } else {
        whole_lines(pending2)
    }
}

/// Nothing is pending, or what is pending begins with `@`.
pub open spec fn starts_record(pending: Seq<u8>) -> bool {
    pending.len() == 0 || pending[0] == AT
}

/// Where a paired reader cuts what is pending of its two streams.
///
/// The chunks hold the same number of lines, as many whole records as both streams
/// have pending. Where that is none and both streams have ended, the chunks are all
/// that is pending.
pub open spec fn pair_cut(
    pending1: Seq<u8>,
    pending2: Seq<u8>,
    ended1: bool,
    ended2: bool,
) -> PairCut {
    let lines = paired_lines(pending1, pending2);
    let n1 = if lines > 0 {
        skip_lines(pending1, 0, lines)
    } else {
        pending1.len() as int
    };
    let n2 = if lines > 0 {
        skip_lines(pending2, 0, lines)
    } else {
        pending2.len() as int
    };
    if ended1 && ended2 && pending1.len() == 0 && pending2.len() == 0 {
        PairCut::Drained
    } else if !starts_record(pending1) || !starts_record(pending2) {
        PairCut::Misaligned
    } else if (pending1.len() == 0 || pending2.len() == 0) && pending1.len() != pending2.len() {
        PairCut::Mismatch
    } else if lines == 0 && !(ended1 && ended2) {
        PairCut::TooLarge
    } else if !starts_record(pending1.subrange(n1, pending1.len() as int)) || !starts_record(
        pending2.subrange(n2, pending2.len() as int),
    ) {
        PairCut::Misaligned
    } else {
        PairCut::Take(n1 as usize, n2 as usize)
    }
}

/// Decides where a stream reader cuts `pending`.
pub fn cut_stream(pending: &[u8], ended: bool) -> (r: Cut)
    ensures
        r == stream_cut(pending@, ended),
        r matches Cut::Take(n) ==> 0 < n <= pending@.len(),
{
    if ended {
        if pending.len() == 0 {
            Cut::Drained
        } else {
            Cut::Take(pending.len())
        }
    } else {
        let at = last_record_start(pending);
        if at == 0 {
            Cut::TooLarge
        } else {
            Cut::Take(at)
        }
    }
}

/// Decides where a reader of a mapped region cuts the chunk that begins at `position`.
pub fn cut_region(region: &[u8], position: usize, target: usize) -> (r: Cut)
    ensures
        r == region_cut(region@, position as int, target as int),
        r matches Cut::Take(n) ==> 0 < n <= region@.len() - position,
{
    if position >= region.len() {
        return Cut::Drained;
    }
    let left = region.len() - position;
    if target >= left {
        return Cut::Take(left);
    }
    let from = position + target;
    let needle: [u8; 2] = [LF, AT];
    assert(needle@ == marker());
    let found = find_bytes(slice_subrange(region, from, region.len()), needle.as_slice());
    proof {
        lemma_next_marker_search(region@, from as int, found);
    }
    let n = match found {
        Some(i) => target + i + 1,
        None => left,
    };
    if n - target > target {
        Cut::TooLarge
    } else {
        Cut::Take(n)
    }
}

/// The position just past the first `count` lines of `s`, or the length of `s` where it
/// has fewer lines.
pub fn end_of_lines(s: &[u8], count: usize) -> (r: usize)
    ensures
        r == skip_lines(s@, 0, count as nat),
        r <= s@.len(),
        count <= line_count(s@) ==> {
            &&& count <= r
            &&& line_count(s@.subrange(0, r as int)) == count
            &&& count > 0 ==> s@[r - 1] == LF
        },
{
    let n = s.len();
    let mut from: usize = 0;
    let mut passed: usize = 0;
    assert(s@.subrange(0, n as int) == s@);
    while passed < count
        invariant
            n == s@.len(),
            passed <= count,
            passed <= from <= n,
            from == skip_lines(s@, 0, passed as nat),
            line_count(s@.subrange(from as int, n as int)) + passed == line_count(s@),
            passed > 0 ==> s@[from - 1] == LF,
        decreases count - passed,
    {
        let found = find_byte(LF, slice_subrange(s, from, n));
        proof {
            lemma_next_line_search(s@, from as int, found);
            lemma_line_count_search(s@, from as int, found);
            lemma_skip_lines_step(s@, 0, passed as nat);
        }
        match found {
            Some(i) => {
                from = from + i + 1;
            },
            None => {
                proof {
                    lemma_skip_lines_add(s@, 0, (passed + 1) as nat, (count - passed - 1) as nat);
                    lemma_skip_lines_end(s@, (count - passed - 1) as nat);
                }
                return n;
            },
        }
        passed += 1;
    }
    proof {
        lemma_line_count_split(s@, from as int);
    }
    from
}

/// The number of lines that both streams can hand over as whole records, or `None`
/// where that is none.
fn load_lines(pending1: &[u8], pending2: &[u8]) -> (r: Option<usize>)
    ensures
        match r {
            Some(lines) => lines > 0 && lines == paired_lines(pending1@, pending2@),
            None => paired_lines(pending1@, pending2@) == 0,
        },
{
    let count1 = count_byte(LF, pending1);
    let count2 = count_byte(LF, pending2);
    let lines1 = count1 - count1 % 4;
    let lines2 = count2 - count2 % 4;
    let lines = if lines1 <= lines2 {
        lines1
    } else {
        lines2
    };
    if lines > 0 {
        Some(lines)
    } else {
        None
    }
}

/// The number of lines and the two lengths of the chunks that a paired reader hands
/// over, or `None` where no record ends inside what is pending of a stream that has not
/// ended.
fn byte_pos(pending1: &[u8], pending2: &[u8], ended: bool) -> (r: Option<(usize, usize, usize)>)
    ensures
        match r {
            Some((lines, n1, n2)) => {
                &&& lines == paired_lines(pending1@, pending2@)
                &&& lines > 0 || ended
                &&& n1 <= pending1@.len()
                &&& n2 <= pending2@.len()
                &&& lines <= n1
                &&& lines <= n2
                &&& n1 == if lines > 0 {
                    skip_lines(pending1@, 0, lines as nat)
                } else {
                    pending1@.len() as int
                }
                &&& n2 == if lines > 0 {
                    skip_lines(pending2@, 0, lines as nat)
                } else {
                    pending2@.len() as int
                }
            },
            None => paired_lines(pending1@, pending2@) == 0 && !ended,
        },
{
    match load_lines(pending1, pending2) {
        Some(lines) => {
            let n1 = end_of_lines(pending1, lines);
            let n2 = end_of_lines(pending2, lines);
            Some((lines, n1, n2))
        },
        None => {
            if ended {
                Some((0, pending1.len(), pending2.len()))
            } else {
                None
            }
        },
    }
}

/// Decides where a paired reader cuts what is pending of its two streams.
pub fn cut_pair(pending1: &[u8], pending2: &[u8], ended1: bool, ended2: bool) -> (r: PairCut)
    ensures
        r == pair_cut(pending1@, pending2@, ended1, ended2),
        r matches PairCut::Take(n1, n2) ==> 0 < n1 <= pending1@.len() && 0 < n2 <= pending2@.len(),
{
    let len1 = pending1.len();
    let len2 = pending2.len();
    if ended1 && ended2 && len1 == 0 && len2 == 0 {
        return PairCut::Drained;
    }
    if (len1 > 0 && pending1[0] != AT) || (len2 > 0 && pending2[0] != AT) {
        return PairCut::Misaligned;
    }
    if (len1 == 0 || len2 == 0) && len1 != len2 {
        return PairCut::Mismatch;
    }
    let (n1, n2) = match byte_pos(pending1, pending2, ended1 && ended2) {
        Some((_lines, n1, n2)) => (n1, n2),
        None => {
            return PairCut::TooLarge;
        },
    };
    proof {
        let rest1 = pending1@.subrange(n1 as int, len1 as int);
        let rest2 = pending2@.subrange(n2 as int, len2 as int);
        if n1 < len1 {
            assert(rest1[0] == pending1@[n1 as int]);
        }
        if n2 < len2 {
            assert(rest2[0] == pending2@[n2 as int]);
        }
    }
    if (n1 < len1 && pending1[n1] != AT) || (n2 < len2 && pending2[n2] != AT) {
        return PairCut::Misaligned;
    }
    PairCut::Take(n1, n2)
}

/// A reader that takes chunks of whole records from a region of bytes that is all in
/// memory, such as a mapped file.
pub struct ByteReaderMmap<'a> {
    mmap: &'a [u8],
    buffer_fill: usize,
    position: usize,
}

impl<'a> ByteReaderMmap<'a> {
    /// The whole region.
    pub closed spec fn region(&self) -> Seq<u8> {
        self.mmap@
    }

    /// Where the next chunk begins.
    pub closed spec fn position(&self) -> usize {
        self.position
    }

    /// The length that a chunk has before it is extended to the end of a record.
    pub closed spec fn target(&self) -> usize {
        self.buffer_fill
    }

    /// The position is inside the region, whose length is one that a machine can hold.
    pub open spec fn wf(&self) -> bool {
        self.position() <= self.region().len() <= usize::MAX
    }

    /// A reader at the beginning of `region` whose chunks have `buffer_size` bytes and
    /// what it takes to end them where a record ends.
    pub fn with_capacity(region: &'a [u8], buffer_size: usize) -> (r: ByteReaderMmap<'a>)
        ensures
            r.wf(),
            r.region() == region@,
            r.position() == 0,
            r.target() == buffer_size,
    {
        assert(region@.len() <= usize::MAX) by {
            assert(region.len() == region@.len());
        }
        ByteReaderMmap { mmap: region, buffer_fill: buffer_size, position: 0 }
    }
}

impl<'a> FillBuffer for ByteReaderMmap<'a> {
    open spec fn ready(&self) -> bool {
        self.wf()
    }

    /// The chunk is the part of the region from the position before the call to the
    /// position after it, and it ends where `region_cut` says.
    open spec fn hands_over(&self, after: &Self, chunk: Seq<u8>) -> bool {
        &&& after.region() == self.region()
        &&& after.target() == self.target()
        &&& region_cut(self.region(), self.position() as int, self.target() as int) == Cut::Take(
            chunk.len() as usize,
        )
        &&& after.position() == self.position() + chunk.len()
        &&& chunk == self.region().subrange(self.position() as int, after.position() as int)
    }

    /// The reader is at the end of the region, and stays there.
    open spec fn ends(&self, after: &Self) -> bool {
        &&& after.region() == self.region()
        &&& after.target() == self.target()
        &&& region_cut(self.region(), self.position() as int, self.target() as int)
            == Cut::Drained
        &&& after.position() == self.position()
    }

    /// The only failure is a chunk that `region_cut` finds too large; the reader then
    /// stays where it is.
    open spec fn fails(&self, after: &Self, error: ReadError) -> bool {
        &&& after.region() == self.region()
        &&& after.target() == self.target()
        &&& error is RecordTooLarge
        &&& region_cut(self.region(), self.position() as int, self.target() as int)
            == Cut::TooLarge
        &&& after.position() == self.position()
    }

    /// Hands over the next chunk of the region.
    ///
    /// The result is `None` at the end of the region, and `RecordTooLarge` where the
    /// chunk would have more than twice the target length; the reader then stays where
    /// it is.
    fn fill_buf(&mut self, buffer: &mut Vec<u8>) -> (r: Result<Option<usize>, ReadError>)
        ensures
            final(self).region() == old(self).region(),
            final(self).target() == old(self).target(),
    {
        match cut_region(self.mmap, self.position, self.buffer_fill) {
            Cut::Drained => Ok(None),
            Cut::TooLarge => Err(ReadError::RecordTooLarge),
            Cut::Take(n) => {
                assert(self.position + n <= self.mmap.len());
                let end = self.position + n;
                copy_to_front(buffer, slice_subrange(self.mmap, self.position, end));
                self.position = end;
                Ok(Some(n))
            },
        }
    }
}

/// A reader that takes bytes from a stream and hands them on in chunks of whole
/// records.
///
/// It keeps up to `capacity` bytes that were read and not yet handed on. Each chunk
/// is cut where the last header begins that these bytes hold; what follows the cut
/// stays for the next chunk.
pub struct ByteReader<T: ByteSource> {
    file: T,
    buffer: Vec<u8>,
    capacity: usize,
    finished: bool,
}

impl<T: ByteSource> ByteReader<T> {
    /// The bytes that were read and not yet handed on.
    pub closed spec fn pending(&self) -> Seq<u8> {
        self.buffer@
    }

    /// The largest number of bytes that the reader keeps.
    pub closed spec fn capacity(&self) -> usize {
        self.capacity
    }

    /// Whether the stream has reported its end.
    pub closed spec fn finished(&self) -> bool {
        self.finished
    }

    /// The reader keeps no more bytes than its capacity.
    pub open spec fn wf(&self) -> bool {
        self.pending().len() <= self.capacity()
    }

    /// The stream has ended or the reader is full.
    pub open spec fn filled(&self) -> bool {
        self.finished() || self.pending().len() == self.capacity()
    }

    /// A reader on `reader` that keeps up to `chunk_size` bytes, filled for the first
    /// time. A reader that keeps nothing asks its source for nothing, and is made
    /// without fail.
    pub fn new(reader: T, chunk_size: usize) -> (r: Result<ByteReader<T>, ReadError>)
        ensures
            match r {
                Ok(br) => {
                    &&& br.wf()
                    &&& br.capacity() == chunk_size
                    &&& br.filled()
                    &&& chunk_size == 0 ==> br.pending().len() == 0 && !br.finished()
                },
                Err(e) => (e is Io || e is SourceOverrun) && chunk_size > 0,
            },
    {
        let mut br = ByteReader {
            file: reader,
            buffer: Vec::new(),
            capacity: chunk_size,
            finished: false,
        };
        match br.read() {
            Ok(_) => Ok(br),
            Err(e) => Err(e),
        }
    }

    /// Reads from the stream until the reader is full or the stream has ended.
    ///
    /// Returns the number of bytes that are pending afterwards, or `None` where the
    /// stream had ended before the call. What was pending stays at the front. The
    /// stream is asked only where it has not ended and the reader is not full: a full
    /// reader stays as it is and returns its capacity.
    pub fn read(&mut self) -> (r: Result<Option<usize>, ReadError>)
        requires
            old(self).wf(),
        ensures
            final(self).wf(),
            final(self).capacity() == old(self).capacity(),
            refilled(
                old(self).pending(),
                old(self).finished(),
                old(self).capacity(),
                final(self).pending(),
                final(self).finished(),
            ),
            match r {
                Ok(Some(n)) => {
                    &&& !old(self).finished()
                    &&& n == final(self).pending().len()
                    &&& final(self).filled()
                },
                Ok(None) => old(self).finished(),
                Err(e) => {
                    &&& e is Io || e is SourceOverrun
                    &&& !old(self).finished()
                    &&& old(self).pending().len() < old(self).capacity()
                    &&& !final(self).finished()
                },
            },
    {
        if self.finished {
            assert(self.buffer@.subrange(0, self.buffer@.len() as int) == self.buffer@);
            return Ok(None);
        }
        match fill_from(&mut self.file, &mut self.buffer, self.capacity, &mut self.finished) {
            Ok(()) => Ok(Some(self.buffer.len())),
            Err(e) => Err(e),
        }
    }
}

impl<T: ByteSource> FillBuffer for ByteReader<T> {
    open spec fn ready(&self) -> bool {
        self.wf()
    }

    /// With `filled` for the chunk followed by what is pending afterwards: `filled` is
    /// what the reader held once it was filled up, so it is what was pending where the
    /// stream had ended or the reader was full; it is as much as the reader could get;
    /// and the chunk ends where `stream_cut` says.
    open spec fn hands_over(&self, after: &Self, chunk: Seq<u8>) -> bool {
        let filled = chunk + after.pending();
        &&& after.capacity() == self.capacity()
        &&& refilled(self.pending(), self.finished(), self.capacity(), filled, after.finished())
        &&& after.finished() || filled.len() == self.capacity()
        &&& stream_cut(filled, after.finished()) == Cut::Take(chunk.len() as usize)
    }

    /// The stream has ended and nothing is pending, nor was before the call.
    open spec fn ends(&self, after: &Self) -> bool {
        &&& after.capacity() == self.capacity()
        &&& refilled(
            self.pending(),
            self.finished(),
            self.capacity(),
            after.pending(),
            after.finished(),
        )
        &&& after.finished()
        &&& after.pending().len() == 0
    }

    /// The stream may fail, or hand over too much, where it is asked: where it had not
    /// ended and the reader was not full. What was pending is then still there. Else
    /// the only failure is a filled reader in which `stream_cut` finds no place to cut.
    open spec fn fails(&self, after: &Self, error: ReadError) -> bool {
        let asked = !self.finished() && self.pending().len() < self.capacity();
        &&& after.capacity() == self.capacity()
        &&& refilled(
            self.pending(),
            self.finished(),
            self.capacity(),
            after.pending(),
            after.finished(),
        )
        &&& match error {
            ReadError::Io(_) => asked && !after.finished(),
            ReadError::SourceOverrun => asked && !after.finished(),
            ReadError::RecordTooLarge => after.filled() && stream_cut(
                after.pending(),
                after.finished(),
            ) == Cut::TooLarge,
            _ => false,
        }
    }

    /// Fills the reader from the stream, then hands over the next chunk.
    ///
    /// Once the stream has ended, the chunk is everything that is pending, and the
    /// result is `None` when nothing is. Before that, the chunk ends where the last
    /// header begins in the full buffer; where there is none after the first byte, a
    /// record is longer than the buffer and the result is `RecordTooLarge`. After an
    /// error nothing has been handed over.
    fn fill_buf(&mut self, buffer: &mut Vec<u8>) -> (r: Result<Option<usize>, ReadError>)
        ensures
            final(self).capacity() == old(self).capacity(),
    {
        match self.read() {
            Ok(_) => {},
            Err(e) => {
                return Err(e);
            },
        }
        let ghost filled = self.buffer@;
        match cut_stream(self.buffer.as_slice(), self.finished) {
            Cut::Drained => Ok(None),
            Cut::TooLarge => Err(ReadError::RecordTooLarge),
            Cut::Take(n) => {
                hand_over(&mut self.buffer, n, buffer);
                proof {
                    let chunk = buffer@.subrange(0, n as int);
                    assert(chunk + self.buffer@ == filled);
                }
                Ok(Some(n))
            },
        }
    }
}

/// A reader that takes bytes from two streams and hands them on in pairs of chunks
/// that hold the same number of records.
pub struct PairedByteReader<T: ByteSource> {
    file1: T,
    file2: T,
    buffer1: Vec<u8>,
    buffer2: Vec<u8>,
    capacity: usize,
    finished1: bool,
    finished2: bool,
}

impl<T: ByteSource> PairedByteReader<T> {
    /// The bytes of each stream that were read and not yet handed on.
    pub closed spec fn pending(&self) -> (Seq<u8>, Seq<u8>) {
        (self.buffer1@, self.buffer2@)
    }

    /// The largest number of bytes that the reader keeps of each stream.
    pub closed spec fn capacity(&self) -> usize {
        self.capacity
    }

    /// Whether each stream has reported its end.
    pub closed spec fn finished(&self) -> (bool, bool) {
        (self.finished1, self.finished2)
    }

    /// The reader keeps no more bytes of a stream than its capacity.
    pub open spec fn wf(&self) -> bool {
        &&& self.pending().0.len() <= self.capacity()
        &&& self.pending().1.len() <= self.capacity()
    }

    /// Of each stream: it has ended, or the reader holds as much of it as it can.
    pub open spec fn filled(&self) -> bool {
        &&& self.finished().0 || self.pending().0.len() == self.capacity()
        &&& self.finished().1 || self.pending().1.len() == self.capacity()
    }

    /// Both streams have ended and nothing is pending.
    pub open spec fn is_done(&self) -> bool {
        &&& self.finished().0
        &&& self.finished().1
        &&& self.pending().0.len() == 0
        &&& self.pending().1.len() == 0
    }

    /// Of one stream nothing is pending while of the other something is.
    pub open spec fn is_invalid(&self) -> bool {
        &&& self.pending().0.len() == 0 || self.pending().1.len() == 0
        &&& self.pending().0.len() != self.pending().1.len()
    }

    /// What is pending of each stream begins with `@`, where anything is pending.
    pub open spec fn is_aligned(&self) -> bool {
        starts_record(self.pending().0) && starts_record(self.pending().1)
    }

    /// What this reader holds of each stream is what `before` held, filled up: see
    /// `refilled`. Of a stream that had ended, or of which `before` was full, it holds
    /// what `before` held.
    pub open spec fn extends(&self, before: &Self) -> bool {
        &&& self.capacity() == before.capacity()
        &&& refilled(
            before.pending().0,
            before.finished().0,
            before.capacity(),
            self.pending().0,
            self.finished().0,
        )
        &&& refilled(
            before.pending().1,
            before.finished().1,
            before.capacity(),
            self.pending().1,
            self.finished().1,
        )
    }

    /// A reader on two streams that keeps up to `buff_capacity` bytes of each. Nothing
    /// is read before the first call that asks for it.
    pub fn new(file1: T, file2: T, buff_capacity: usize) -> (r: PairedByteReader<T>)
        ensures
            r.wf(),
            r.capacity() == buff_capacity,
            r.pending().0.len() == 0,
            r.pending().1.len() == 0,
            r.finished() == (false, false),
    {
        PairedByteReader {
            file1: file1,
            file2: file2,
            buffer1: Vec::new(),
            buffer2: Vec::new(),
            capacity: buff_capacity,
            finished1: false,
            finished2: false,
        }
    }

    /// Whether both streams have ended and nothing is pending.
    pub fn done(&self) -> (r: bool)
        ensures
            r == self.is_done(),
    {
        self.finished1 && self.finished2 && self.buffer1.len() == 0 && self.buffer2.len() == 0
    }

    /// Whether of one stream nothing is pending while of the other something is: the
    /// mark of two files with different numbers of records.
    pub fn invalid(&self) -> (r: bool)
        ensures
            r == self.is_invalid(),
    {
        (self.buffer1.len() == 0 || self.buffer2.len() == 0) && self.buffer1.len()
            != self.buffer2.len()
    }

    /// Reads from each stream until the reader is full of it or the stream has ended,
    /// then checks that what is pending of each begins with `@`.
    ///
    /// A stream is asked only where it has not ended and the reader is not full of it.
    /// So where the reader is filled already, it stays as it is, and the call succeeds
    /// if and only if what is pending is aligned.
    pub fn fill_both_buffs(&mut self) -> (r: Result<(), ReadError>)
        requires
            old(self).wf(),
        ensures
            final(self).wf(),
            final(self).extends(old(self)),
            match r {
                Ok(_) => final(self).filled() && final(self).is_aligned(),
                Err(e) => {
                    &&& e is Io || e is SourceOverrun || e is Boundary
                    &&& e is Io || e is SourceOverrun ==> !old(self).filled()
                    &&& e is Boundary ==> final(self).filled() && !final(self).is_aligned()
                },
            },
    {
        match fill_from(&mut self.file1, &mut self.buffer1, self.capacity, &mut self.finished1) {
            Ok(()) => {},
            Err(e) => {
                assert(self.buffer2@.subrange(0, self.buffer2@.len() as int) == self.buffer2@);
                return Err(e);
            },
        }
        match fill_from(&mut self.file2, &mut self.buffer2, self.capacity, &mut self.finished2) {
            Ok(()) => {},
            Err(e) => {
                return Err(e);
            },
        }
        if !self.aligned() {
            return Err(ReadError::Boundary);
        }
        Ok(())
    }

    /// Whether what is pending of each stream begins with `@`, where anything is
    /// pending.
    fn aligned(&self) -> (r: bool)
        ensures
            r == self.is_aligned(),
    {
        (self.buffer1.len() == 0 || self.buffer1[0] == AT) && (self.buffer2.len() == 0
            || self.buffer2[0] == AT)
    }

    /// Fills the reader, unless both streams have ended, and checks that the streams
    /// still go together.
    ///
    /// Returns `None` where both streams had ended before the call. Where what is
    /// pending of a stream does not begin with `@`, the result is `Boundary`. Where
    /// nothing is pending of one stream and something of the other, the files hold
    /// different numbers of records and the result is `LengthMismatch`. A stream can
    /// make the call fail only where it is asked: not where the reader is filled
    /// already.
    pub fn read(&mut self) -> (r: Result<Option<()>, ReadError>)
        requires
            old(self).wf(),
        ensures
            final(self).wf(),
            final(self).extends(old(self)),
            match r {
                Ok(step) => {
                    &&& final(self).filled()
                    &&& final(self).is_aligned()
                    &&& !final(self).is_invalid()
                    &&& step is None <==> old(self).finished().0 && old(self).finished().1
                },
                Err(e) => {
                    &&& e is Io || e is SourceOverrun || e is Boundary || e is LengthMismatch
                    &&& e is Io || e is SourceOverrun ==> !old(self).filled()
                    &&& e is Boundary ==> final(self).filled() && !final(self).is_aligned()
                    &&& e is LengthMismatch ==> {
                        &&& final(self).filled()
                        &&& final(self).is_aligned()
                        &&& final(self).is_invalid()
                    }
                },
            },
    {
        let ended = self.finished1 && self.finished2;
        if !ended {
            match self.fill_both_buffs() {
                Ok(()) => {},
                Err(e) => {
                    return Err(e);
                },
            }
        } else {
            assert(self.buffer1@.subrange(0, self.buffer1@.len() as int) == self.buffer1@);
            assert(self.buffer2@.subrange(0, self.buffer2@.len() as int) == self.buffer2@);
            if !self.aligned() {
                return Err(ReadError::Boundary);
            }
        }
        if self.invalid() {
            return Err(ReadError::LengthMismatch);
        }
        if ended {
            Ok(None)
        } else {
            Ok(Some(()))
        }
    }
}

impl<T: ByteSource> FillBufferPair for PairedByteReader<T> {
    open spec fn ready(&self) -> bool {
        self.wf()
    }

    /// With `filled1` and `filled2` for each chunk followed by what is pending of its
    /// stream afterwards: each is what the reader held of the stream once it was filled
    /// up, so it is what was pending where the stream had ended or the reader was full
    /// of it; each is as much as the reader could get; and the chunks end where
    /// `pair_cut` says.
    open spec fn hands_over(&self, after: &Self, chunk1: Seq<u8>, chunk2: Seq<u8>) -> bool {
        let filled1 = chunk1 + after.pending().0;
        let filled2 = chunk2 + after.pending().1;
        &&& after.capacity() == self.capacity()
        &&& refilled(
            self.pending().0,
            self.finished().0,
            self.capacity(),
            filled1,
            after.finished().0,
        )
        &&& refilled(
            self.pending().1,
            self.finished().1,
            self.capacity(),
            filled2,
            after.finished().1,
        )
        &&& after.finished().0 || filled1.len() == self.capacity()
        &&& after.finished().1 || filled2.len() == self.capacity()
        &&& pair_cut(filled1, filled2, after.finished().0, after.finished().1) == PairCut::Take(
            chunk1.len() as usize,
            chunk2.len() as usize,
        )
    }

    /// Both streams have ended and nothing is pending, nor was before the call.
    open spec fn ends(&self, after: &Self) -> bool {
        after.extends(self) && after.is_done()
    }

    /// A stream may fail, or hand over too much, where it is asked: not where the
    /// reader was filled already. Else the failure is the one that `pair_cut` finds in
    /// the filled reader. What was pending is still there.
    open spec fn fails(&self, after: &Self, error: ReadError) -> bool {
        let found = pair_cut(
            after.pending().0,
            after.pending().1,
            after.finished().0,
            after.finished().1,
        );
        &&& after.extends(self)
        &&& match error {
            ReadError::Io(_) => !self.filled(),
            ReadError::SourceOverrun => !self.filled(),
            ReadError::LengthMismatch => after.filled() && found == PairCut::Mismatch,
            ReadError::Boundary => after.filled() && found == PairCut::Misaligned,
            ReadError::RecordTooLarge => after.filled() && found == PairCut::TooLarge,
            ReadError::InvalidRecord => false,
        }
    }

    /// Fills the reader from both streams, then hands over the next pair of chunks.
    ///
    /// The result follows `pair_cut`, applied to what is pending once the reader is
    /// filled: `None` when both streams are drained, `LengthMismatch` when only one is,
    /// `Boundary` where a stream is not aligned with its records, `RecordTooLarge`
    /// where a record does not fit. After an error nothing has been handed over.
    fn fill_buf(&mut self, buffer1: &mut Vec<u8>, buffer2: &mut Vec<u8>) -> (r: Result<
        Option<(usize, usize)>,
        ReadError,
    >)
        ensures
            final(self).capacity() == old(self).capacity(),
    {
        match self.read() {
            Ok(_) => {},
            Err(e) => {
                return Err(e);
            },
        }
        let ghost filled1 = self.buffer1@;
        let ghost filled2 = self.buffer2@;
        match cut_pair(
            self.buffer1.as_slice(),
            self.buffer2.as_slice(),
            self.finished1,
            self.finished2,
        ) {
            PairCut::Drained => Ok(None),
            PairCut::Mismatch => Err(ReadError::LengthMismatch),
            PairCut::Misaligned => Err(ReadError::Boundary),
            PairCut::TooLarge => Err(ReadError::RecordTooLarge),
            PairCut::Take(n1, n2) => {
                hand_over(&mut self.buffer1, n1, buffer1);
                hand_over(&mut self.buffer2, n2, buffer2);
                proof {
                    assert(buffer1@.subrange(0, n1 as int) + self.buffer1@ == filled1);
                    assert(buffer2@.subrange(0, n2 as int) + self.buffer2@ == filled2);
                }
                Ok(Some((n1, n2)))
            },
        }
    }
}

} // verus!
