//! Scanners that walk a filled buffer record by record.

use vstd::prelude::*;
use vstd::slice::slice_subrange;
use crate::byte_reader::{FillBuffer, FillBufferPair, ReadError};
use crate::format::{
    lemma_layout, lemma_next_line_search, layout_at, record_at, record_end, records_from, AT, LF,
    PLUS,
};
use crate::search::find_byte;
use crate::sequence::fastq_record::{BufferPosition, RefRecord};

verus! {

/// The outcome of moving a position to the next record of a chunk.
#[derive(Debug, Clone, Copy, PartialEq, Eq, Structural)]
pub enum Advance {
    /// The position is at the end of the chunk and was left as it was.
    Exhausted,
    /// The position now holds the layout of the next record.
    Located,
    /// No record can be read where the next one must begin; the position was left as
    /// it was.
    Broken,
}

/// Moves `position` from the record it holds to the one after it in `chunk`.
///
/// The next record begins at `position.cursor()`: at 0 after a reset, else one past the
/// end of the span that `position` holds.
pub fn advance(chunk: &[u8], position: &mut BufferPosition) -> (r: Advance)
    ensures
        match r {
            Advance::Exhausted => {
                &&& old(position).cursor() >= chunk@.len()
                &&& *final(position) == *old(position)
            },
            Advance::Located => {
                &&& old(position).cursor() < chunk@.len()
                &&& record_at(chunk@, old(position).cursor())
                &&& *final(position) == layout_at(chunk@, old(position).cursor())
                &&& final(position).fits(chunk@)
                &&& final(position).cursor() == record_end(chunk@, old(position).cursor()) + 1
            },
            Advance::Broken => {
                &&& old(position).cursor() < chunk@.len()
                &&& !record_at(chunk@, old(position).cursor())
                &&& *final(position) == *old(position)
            },
        },
{
    let start: usize = if position.pos.1 == 0 {
        0
    } else if position.pos.1 >= chunk.len() {
        return Advance::Exhausted;
    } else {
        position.pos.1 + 1
    };
    if start >= chunk.len() {
        return Advance::Exhausted;
    }
    let mut found = BufferPosition { pos: (start, start), seq: 0, sep: 0, qual: 0 };
    match PairedFastqReader::find_position(chunk, &mut found) {
        Some(()) => {
            proof {
                lemma_layout(chunk@, start as int);
            }
            *position = found;
            Advance::Located
        },
        None => Advance::Broken,
    }
}

/// A scanner over one buffer.
pub struct FastqReader {
    buffer: Vec<u8>,
    buffer_size: usize,
    buf_pos: BufferPosition,
}

/// A scanner over two buffers that hold the records of a pair of files.
pub struct PairedFastqReader {
    buffer1: Vec<u8>,
    buffer1_fill: usize,
    buffer2: Vec<u8>,
    buffer2_fill: usize,
    buf1_pos: BufferPosition,
    buf2_pos: BufferPosition,
}

impl FastqReader {
    /// The filled part of the buffer is inside it, and so is the position.
    pub closed spec fn wf(&self) -> bool {
        &&& self.buffer_size <= self.buffer@.len()
        &&& self.buf_pos.pos.1 <= self.buffer_size
    }

    /// The chunk that is being scanned: the filled part of the buffer.
    pub closed spec fn chunk(&self) -> Seq<u8> {
        self.buffer@.subrange(0, self.buffer_size as int)
    }

    /// The layout of the record that was returned last.
    pub closed spec fn position(&self) -> BufferPosition {
        self.buf_pos
    }

    /// The length of the buffer, filled or not.
    pub closed spec fn capacity(&self) -> nat {
        self.buffer@.len()
    }

    /// Where the next record begins.
    pub open spec fn cursor(&self) -> int {
        self.position().cursor()
    }

    /// The records that are still ahead.
    pub open spec fn ahead(&self) -> Seq<BufferPosition> {
        records_from(self.chunk(), self.cursor())
    }

    /// A scanner with a buffer of 2^20 bytes.
    pub fn new() -> (r: FastqReader)
        ensures
            r.wf(),
            r.chunk().len() == 0,
            r.cursor() == 0,
            r.capacity() == 1048576,
    {
        FastqReader::with_capacity(1048576)
    }

    /// A scanner with a buffer of `capacity` bytes, none of them filled.
    pub fn with_capacity(capacity: usize) -> (r: FastqReader)
        ensures
            r.wf(),
            r.chunk().len() == 0,
            r.cursor() == 0,
            r.capacity() == capacity,
    {
        FastqReader {
            buffer: vec![0u8; capacity],
            buffer_size: 0,
            buf_pos: BufferPosition { pos: (0, 0), seq: 0, sep: 0, qual: 0 },
        }
    }

    /// The chunk that is being scanned.
    pub fn buffer(&self) -> (r: &[u8])
        requires
            self.wf(),
        ensures
            r@ == self.chunk(),
    {
        slice_subrange(self.buffer.as_slice(), 0, self.buffer_size)
    }

    /// The length of the chunk that is being scanned.
    pub fn buffer_size(&self) -> (r: usize)
        requires
            self.wf(),
        ensures
            r == self.chunk().len(),
    {
        self.buffer_size
    }

    /// Sets the scanner to the beginning of its buffer and takes the next chunk from
    /// `br`. The buffer grows where the chunk needs it.
    ///
    /// After `Ok(Some(()))` the scanner holds the chunk that `br` handed over. After
    /// `Ok(None)`, at the end of the input, and after an error it holds the chunk that
    /// it held before.
    pub fn load_batch<T: FillBuffer>(&mut self, br: &mut T) -> (r: Result<Option<()>, ReadError>)
        requires
            old(self).wf(),
            old(br).ready(),
        ensures
            final(self).wf(),
            final(br).ready(),
            final(self).cursor() == 0,
            final(self).capacity() >= old(self).capacity(),
            match r {
                Ok(Some(_)) => {
                    &&& old(br).hands_over(final(br), final(self).chunk())
                    &&& final(self).chunk().len() > 0
                },
                Ok(None) => old(br).ends(final(br)) && final(self).chunk() == old(self).chunk(),
                Err(e) => {
                    &&& old(br).fails(final(br), e)
                    &&& final(self).chunk() == old(self).chunk()
                },
            },
    {
        self.buf_pos.reset(0);
        match br.fill_buf(&mut self.buffer) {
            Ok(Some(bytes)) => {
                self.buffer_size = bytes;
                Ok(Some(()))
            },
            Ok(None) => Ok(None),
            Err(e) => Err(e),
        }
    }

    /// Takes the next chunk from a reader that is shared with other workers. The caller
    /// holds the lock of the reader for the time of the call, and for no longer: the
    /// chunk is copied into the buffer of this scanner, so that the scan needs no lock.
    ///
    /// The outcome is that of `load_batch`.
    pub fn load_batch_par<T: FillBuffer>(&mut self, br: &mut T) -> (r: Result<
        Option<()>,
        ReadError,
    >)
        requires
            old(self).wf(),
            old(br).ready(),
        ensures
            final(self).wf(),
            final(br).ready(),
            final(self).cursor() == 0,
            final(self).capacity() >= old(self).capacity(),
            match r {
                Ok(Some(_)) => {
                    &&& old(br).hands_over(final(br), final(self).chunk())
                    &&& final(self).chunk().len() > 0
                },
                Ok(None) => old(br).ends(final(br)) && final(self).chunk() == old(self).chunk(),
                Err(e) => {
                    &&& old(br).fails(final(br), e)
                    &&& final(self).chunk() == old(self).chunk()
                },
            },
    {
        self.load_batch(br)
    }

    /// Moves to the next record of the chunk and returns a view of it; `None` when the
    /// chunk is exhausted and the caller has to load the next one.
    ///
    /// The caller vouches that a record can be read where the next one begins, as it
    /// can in every chunk of whole records. `next` makes no such demand.
    pub fn next_position(&mut self) -> (r: Option<RefRecord<'_>>)
        requires
            old(self).wf(),
            old(self).cursor() < old(self).chunk().len() ==> record_at(
                old(self).chunk(),
                old(self).cursor(),
            ),
        ensures
            final(self).wf(),
            final(self).chunk() == old(self).chunk(),
            final(self).capacity() == old(self).capacity(),
            match r {
                Some(rec) => {
                    &&& old(self).cursor() < old(self).chunk().len()
                    &&& rec.buffer@ == old(self).chunk()
                    &&& *rec.buf_pos == layout_at(old(self).chunk(), old(self).cursor())
                    &&& rec.wf()
                    &&& final(self).position() == *rec.buf_pos
                    &&& old(self).ahead() == seq![*rec.buf_pos] + final(self).ahead()
                },
                None => {
                    &&& old(self).cursor() >= old(self).chunk().len()
                    &&& final(self).position() == old(self).position()
                },
            },
    {
        let chunk = slice_subrange(self.buffer.as_slice(), 0, self.buffer_size);
        match advance(chunk, &mut self.buf_pos) {
            Advance::Located => Some(RefRecord { buffer: chunk, buf_pos: &self.buf_pos }),
            _ => None,
        }
    }

    /// Moves to the next record of the chunk and returns a view of it.
    ///
    /// Returns `None` when the chunk is exhausted, and `Boundary` where no record can
    /// be read at the place where the next one must begin; the scanner then stays where
    /// it was.
    pub fn next(&mut self) -> (r: Option<Result<RefRecord<'_>, ReadError>>)
        requires
            old(self).wf(),
        ensures
            final(self).wf(),
            final(self).chunk() == old(self).chunk(),
            final(self).capacity() == old(self).capacity(),
            match r {
                Some(Ok(rec)) => {
                    &&& old(self).cursor() < old(self).chunk().len()
                    &&& record_at(old(self).chunk(), old(self).cursor())
                    &&& rec.buffer@ == old(self).chunk()
                    &&& *rec.buf_pos == layout_at(old(self).chunk(), old(self).cursor())
                    &&& rec.wf()
                    &&& final(self).position() == *rec.buf_pos
                    &&& old(self).ahead() == seq![*rec.buf_pos] + final(self).ahead()
                },
                Some(Err(e)) => {
                    &&& e is Boundary
                    &&& old(self).cursor() < old(self).chunk().len()
                    &&& !record_at(old(self).chunk(), old(self).cursor())
                    &&& final(self).position() == old(self).position()
                },
                None => {
                    &&& old(self).cursor() >= old(self).chunk().len()
                    &&& final(self).position() == old(self).position()
                },
            },
    {
        let chunk = slice_subrange(self.buffer.as_slice(), 0, self.buffer_size);
        match advance(chunk, &mut self.buf_pos) {
            Advance::Located => Some(Ok(RefRecord { buffer: chunk, buf_pos: &self.buf_pos })),
            Advance::Broken => Some(Err(ReadError::Boundary)),
            Advance::Exhausted => None,
        }
    }
}

impl PairedFastqReader {
    /// The filled part of each buffer is inside it, and so is each position.
    pub closed spec fn wf(&self) -> bool {
        &&& self.buffer1_fill <= self.buffer1@.len()
        &&& self.buffer2_fill <= self.buffer2@.len()
        &&& self.buf1_pos.pos.1 <= self.buffer1_fill
        &&& self.buf2_pos.pos.1 <= self.buffer2_fill
    }

    /// The two chunks that are being scanned.
    pub closed spec fn chunks(&self) -> (Seq<u8>, Seq<u8>) {
        (
            self.buffer1@.subrange(0, self.buffer1_fill as int),
            self.buffer2@.subrange(0, self.buffer2_fill as int),
        )
    }

    /// The layouts of the two records that were returned last.
    pub closed spec fn positions(&self) -> (BufferPosition, BufferPosition) {
        (self.buf1_pos, self.buf2_pos)
    }

    /// The lengths of the two buffers, filled or not.
    pub closed spec fn capacities(&self) -> (nat, nat) {
        (self.buffer1@.len(), self.buffer2@.len())
    }

    /// Where the next record begins in each chunk.
    pub open spec fn cursors(&self) -> (int, int) {
        (self.positions().0.cursor(), self.positions().1.cursor())
    }

    /// The records that are still ahead in each chunk.
    pub open spec fn ahead(&self) -> (Seq<BufferPosition>, Seq<BufferPosition>) {
        (
            records_from(self.chunks().0, self.cursors().0),
            records_from(self.chunks().1, self.cursors().1),
        )
    }

    /// The first chunk is exhausted.
    pub open spec fn first_done(&self) -> bool {
        self.cursors().0 >= self.chunks().0.len()
    }

    /// The second chunk is exhausted.
    pub open spec fn second_done(&self) -> bool {
        self.cursors().1 >= self.chunks().1.len()
    }

    /// A scanner with two buffers of `capacity` bytes, none of them filled.
    pub fn new(capacity: usize) -> (r: PairedFastqReader)
        ensures
            r.wf(),
            r.chunks().0.len() == 0,
            r.chunks().1.len() == 0,
            r.cursors() == (0int, 0int),
            r.capacities() == (capacity as nat, capacity as nat),
    {
        PairedFastqReader {
            buffer1: vec![0u8; capacity],
            buffer1_fill: 0,
            buffer2: vec![0u8; capacity],
            buffer2_fill: 0,
            buf1_pos: BufferPosition { pos: (0, 0), seq: 0, sep: 0, qual: 0 },
            buf2_pos: BufferPosition { pos: (0, 0), seq: 0, sep: 0, qual: 0 },
        }
    }

    /// The two chunks that are being scanned.
    pub fn buffers(&self) -> (r: (&[u8], &[u8]))
        requires
            self.wf(),
        ensures
            r.0@ == self.chunks().0,
            r.1@ == self.chunks().1,
    {
        (
            slice_subrange(self.buffer1.as_slice(), 0, self.buffer1_fill),
            slice_subrange(self.buffer2.as_slice(), 0, self.buffer2_fill),
        )
    }

    /// Sets the scanner to the beginning of its buffers and takes the next pair of
    /// chunks from `reader`. A worker calls this while it holds the lock of the shared
    /// reader.
    ///
    /// After `Ok(Some(()))` the scanner holds the two chunks that `reader` handed over.
    /// After `Ok(None)`, at the end of the input, and after an error it holds the
    /// chunks that it held before.
    pub fn load_batch_par<R: FillBufferPair>(&mut self, reader: &mut R) -> (r: Result<
        Option<()>,
        ReadError,
    >)
        requires
            old(self).wf(),
            old(reader).ready(),
        ensures
            final(self).wf(),
            final(reader).ready(),
            final(self).cursors() == (0int, 0int),
            final(self).capacities().0 >= old(self).capacities().0,
            final(self).capacities().1 >= old(self).capacities().1,
            match r {
                Ok(Some(_)) => {
                    &&& old(reader).hands_over(
                        final(reader),
                        final(self).chunks().0,
                        final(self).chunks().1,
                    )
                    &&& final(self).chunks().0.len() > 0
                    &&& final(self).chunks().1.len() > 0
                },
                Ok(None) => {
                    &&& old(reader).ends(final(reader))
                    &&& final(self).chunks() == old(self).chunks()
                },
                Err(e) => {
                    &&& old(reader).fails(final(reader), e)
                    &&& final(self).chunks() == old(self).chunks()
                },
            },
    {
        self.buf1_pos.reset(0);
        self.buf2_pos.reset(0);
        match reader.fill_buf(&mut self.buffer1, &mut self.buffer2) {
            Ok(Some((pos1, pos2))) => {
                self.buffer1_fill = pos1;
                self.buffer2_fill = pos2;
                Ok(Some(()))
            },
            Ok(None) => Ok(None),
            Err(e) => Err(e),
        }
    }

    /// Moves to the next record of each chunk and returns views of the two; `None` when
    /// both chunks are exhausted and the caller has to load the next pair.
    ///
    /// The caller vouches that the chunks are exhausted together, and that a record can
    /// be read in each where the next one begins. `next` makes no such demand.
    pub fn next_position(&mut self) -> (r: Option<(RefRecord<'_>, RefRecord<'_>)>)
        requires
            old(self).wf(),
            old(self).first_done() == old(self).second_done(),
            !old(self).first_done() ==> record_at(old(self).chunks().0, old(self).cursors().0),
            !old(self).second_done() ==> record_at(old(self).chunks().1, old(self).cursors().1),
        ensures
            final(self).wf(),
            final(self).chunks() == old(self).chunks(),
            final(self).capacities() == old(self).capacities(),
            match r {
                Some((rec1, rec2)) => {
                    &&& !old(self).first_done()
                    &&& !old(self).second_done()
                    &&& rec1.buffer@ == old(self).chunks().0
                    &&& rec2.buffer@ == old(self).chunks().1
                    &&& *rec1.buf_pos == layout_at(old(self).chunks().0, old(self).cursors().0)
                    &&& *rec2.buf_pos == layout_at(old(self).chunks().1, old(self).cursors().1)
                    &&& rec1.wf()
                    &&& rec2.wf()
                    &&& final(self).positions() == (*rec1.buf_pos, *rec2.buf_pos)
                    &&& old(self).ahead().0 == seq![*rec1.buf_pos] + final(self).ahead().0
                    &&& old(self).ahead().1 == seq![*rec2.buf_pos] + final(self).ahead().1
                },
                None => {
                    &&& old(self).first_done()
                    &&& old(self).second_done()
                    &&& final(self).positions() == old(self).positions()
                },
            },
    {
        let chunk1 = slice_subrange(self.buffer1.as_slice(), 0, self.buffer1_fill);
        let chunk2 = slice_subrange(self.buffer2.as_slice(), 0, self.buffer2_fill);
        let step1 = advance(chunk1, &mut self.buf1_pos);
        let step2 = advance(chunk2, &mut self.buf2_pos);
        match (step1, step2) {
            (Advance::Located, Advance::Located) => Some(
                (
                    RefRecord { buffer: chunk1, buf_pos: &self.buf1_pos },
                    RefRecord { buffer: chunk2, buf_pos: &self.buf2_pos },
                ),
            ),
            _ => None,
        }
    }

    /// Moves to the next record of each chunk and returns views of the two.
    ///
    /// Returns `None` when both chunks are exhausted. Where only one of them is, the
    /// chunks hold different numbers of records and the result is `LengthMismatch`;
    /// where no record can be read in one of them, it is `Boundary`. After an error the
    /// scanner stays where it was.
    pub fn next(&mut self) -> (r: Option<Result<(RefRecord<'_>, RefRecord<'_>), ReadError>>)
        requires
            old(self).wf(),
        ensures
            final(self).wf(),
            final(self).chunks() == old(self).chunks(),
            final(self).capacities() == old(self).capacities(),
            match r {
                Some(Ok((rec1, rec2))) => {
                    &&& !old(self).first_done()
                    &&& !old(self).second_done()
                    &&& record_at(old(self).chunks().0, old(self).cursors().0)
                    &&& record_at(old(self).chunks().1, old(self).cursors().1)
                    &&& rec1.buffer@ == old(self).chunks().0
                    &&& rec2.buffer@ == old(self).chunks().1
                    &&& *rec1.buf_pos == layout_at(old(self).chunks().0, old(self).cursors().0)
                    &&& *rec2.buf_pos == layout_at(old(self).chunks().1, old(self).cursors().1)
                    &&& rec1.wf()
                    &&& rec2.wf()
                    &&& final(self).positions() == (*rec1.buf_pos, *rec2.buf_pos)
                    &&& old(self).ahead().0 == seq![*rec1.buf_pos] + final(self).ahead().0
                    &&& old(self).ahead().1 == seq![*rec2.buf_pos] + final(self).ahead().1
                },
                Some(Err(e)) => {
                    &&& final(self).positions() == old(self).positions()
                    &&& if old(self).first_done() != old(self).second_done() {
                        e is LengthMismatch
                    } else {
                        &&& e is Boundary
                        &&& !old(self).first_done()
                        &&& {
                            ||| !record_at(old(self).chunks().0, old(self).cursors().0)
                            ||| !record_at(old(self).chunks().1, old(self).cursors().1)
                        }
                    }
                },
                None => {
                    &&& old(self).first_done()
                    &&& old(self).second_done()
                    &&& final(self).positions() == old(self).positions()
                },
            },
    {
        let chunk1 = slice_subrange(self.buffer1.as_slice(), 0, self.buffer1_fill);
        let chunk2 = slice_subrange(self.buffer2.as_slice(), 0, self.buffer2_fill);
        let mut next1 = self.buf1_pos;
        let mut next2 = self.buf2_pos;
        let step1 = advance(chunk1, &mut next1);
        let step2 = advance(chunk2, &mut next2);
        match (step1, step2) {
            (Advance::Exhausted, Advance::Exhausted) => None,
            (Advance::Exhausted, _) => Some(Err(ReadError::LengthMismatch)),
            (_, Advance::Exhausted) => Some(Err(ReadError::LengthMismatch)),
            (Advance::Located, Advance::Located) => {
                self.buf1_pos = next1;
                self.buf2_pos = next2;
                Some(
                    Ok(
                        (
                            RefRecord { buffer: chunk1, buf_pos: &self.buf1_pos },
                            RefRecord { buffer: chunk2, buf_pos: &self.buf2_pos },
                        ),
                    ),
                )
            },
            _ => Some(Err(ReadError::Boundary)),
        }
    }

    /// Locates the record of `buffer` that begins at `buffer_pos.pos.1`.
    ///
    /// Returns `Some` and stores the record's layout in `buffer_pos` where a record can
    /// be read there; returns `None` and leaves `buffer_pos` as it is where none can.
    pub fn find_position(buffer: &[u8], buffer_pos: &mut BufferPosition) -> (r: Option<()>)
        ensures
            match r {
                Some(_) => {
                    &&& record_at(buffer@, old(buffer_pos).pos.1 as int)
                    &&& *final(buffer_pos) == layout_at(buffer@, old(buffer_pos).pos.1 as int)
                },
                None => {
                    &&& !record_at(buffer@, old(buffer_pos).pos.1 as int)
                    &&& *final(buffer_pos) == *old(buffer_pos)
                },
            },
    {
        let n = buffer.len();
        let start = buffer_pos.pos.1;
        if start >= n || buffer[start] != AT {
            return None;
        }
        let found1 = find_byte(LF, slice_subrange(buffer, start, n));
        proof {
            lemma_next_line_search(buffer@, start as int, found1);
        }
        let pos1: usize = match found1 {
            Some(i) => start + i + 1,
            None => {
                return None;
            },
        };
        let found2 = find_byte(LF, slice_subrange(buffer, pos1, n));
        proof {
            lemma_next_line_search(buffer@, pos1 as int, found2);
        }
        let pos2: usize = match found2 {
            Some(i) => pos1 + i + 1,
            None => {
                return None;
            },
        };
        if pos2 >= n || buffer[pos2] != PLUS {
            return None;
        }
        let found3 = find_byte(LF, slice_subrange(buffer, pos2, n));
        proof {
            lemma_next_line_search(buffer@, pos2 as int, found3);
        }
        let pos3: usize = match found3 {
            Some(i) => pos2 + i + 1,
            None => {
                return None;
            },
        };
        let found4 = find_byte(LF, slice_subrange(buffer, pos3, n));
        proof {
            lemma_next_line_search(buffer@, pos3 as int, found4);
        }
        let pos4: usize = match found4 {
            Some(i) => pos3 + i,
            None => n,
        };
        buffer_pos.pos = (start, pos4);
        buffer_pos.seq = pos1;
        buffer_pos.sep = pos2;
        buffer_pos.qual = pos3;
        Some(())
    }
}

} // verus!
