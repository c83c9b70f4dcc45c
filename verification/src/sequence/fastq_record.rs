//! The position of one record inside a buffer, and the view that reads through it.

use vstd::prelude::*;
use vstd::slice::slice_subrange;
use crate::format::{lemma_next_line_search, next_line, terminated, CR, LF, PLUS};
use crate::search::find_byte;

verus! {

/// Where one record lies in a buffer.
///
/// `pos` is the span of the whole record: it begins at the `@` and ends at the line
/// feed that closes the quality line, or at the end of the data where that line feed is
/// missing. `seq`, `sep` and `qual` are where the second, third and fourth line begin.
#[derive(Debug, Clone, Copy)]
pub struct BufferPosition {
    pub pos: (usize, usize),
    pub seq: usize,
    pub sep: usize,
    pub qual: usize,
}

/// The four lines of a record, in the order in which a scanner meets them.
#[derive(Debug, Copy, Clone, Eq, PartialEq, Ord, PartialOrd)]
pub enum SearchPosition {
    Id,
    Sequence,
    Separator,
    Quality,
}

/// How lines end: with a carriage return before the line feed, or without.
#[derive(Debug, PartialEq, Eq, Structural, Hash, Copy, Clone)]
pub enum LineEnding {
    Windows,
    Unix,
}

/// `line` without one carriage return at its end.
pub open spec fn trimmed(line: Seq<u8>) -> Seq<u8> {
    if line.len() > 0 && line.last() == CR {
        line.drop_last()
    } else {
        line
    }
}

/// One of the five letters a sequence line may hold: `A`, `C`, `G`, `T`, `N`.
pub open spec fn is_nucleotide(b: u8) -> bool {
    b == 65 || b == 67 || b == 71 || b == 84 || b == 78
}

/// One of the four unambiguous letters: `A`, `C`, `G`, `T`.
pub open spec fn is_base(b: u8) -> bool {
    b == 65 || b == 67 || b == 71 || b == 84
}

/// The line ending of the first line of `bytes`: none where the line has no line feed,
/// else `Windows` exactly when a carriage return stands before the line feed.
pub open spec fn line_ending_of(bytes: Seq<u8>) -> Option<LineEnding> {
    let at = next_line(bytes, 0) - 1;
    if !terminated(bytes, 0) {
        None
    } else if at > 0 && bytes[at - 1] == CR {
        Some(LineEnding::Windows)
    } else {
        Some(LineEnding::Unix)
    }
}

/// Removes a final carriage return from a line.
pub fn trim_cr(line: &[u8]) -> (r: &[u8])
    ensures
        r@ == trimmed(line@),
{
    let n = line.len();
    if n > 0 && line[n - 1] == CR {
        let r = slice_subrange(line, 0, n - 1);
        assert(r@ == line@.drop_last());
        r
    } else {
        line
    }
}

/// Detects the line ending of `bytes` from its first line.
pub fn find_line_ending(bytes: &[u8]) -> (r: Option<LineEnding>)
    ensures
        r == line_ending_of(bytes@),
{
    if bytes.len() > 0 {
        let found = find_byte(LF, bytes);
        proof {
            assert(bytes@.subrange(0, bytes@.len() as int) == bytes@);
            lemma_next_line_search(bytes@, 0, found);
        }
        if let Some(idx) = found {
            if idx > 0 && bytes[idx - 1] == CR {
                return Some(LineEnding::Windows);
            }
            return Some(LineEnding::Unix);
        }
    }
    None
}

impl LineEnding {
    /// The bytes of this line ending.
    pub open spec fn bytes(self) -> Seq<u8> {
        match self {
            LineEnding::Windows => seq![CR, LF],
            LineEnding::Unix => seq![LF],
        }
    }

    /// The bytes that end a line.
    pub fn to_bytes(&self) -> (r: Vec<u8>)
        ensures
            r@ == self.bytes(),
    {
        match self {
            LineEnding::Windows => {
                let mut v: Vec<u8> = Vec::new();
                v.push(CR);
                v.push(LF);
                assert(v@ == seq![CR, LF]);
                v
            },
            LineEnding::Unix => {
                let mut v: Vec<u8> = Vec::new();
                v.push(LF);
                assert(v@ == seq![LF]);
                v
            },
        }
    }
}

impl Default for BufferPosition {
    fn default() -> (r: Self)
        ensures
            r == (BufferPosition { pos: (0, 0), seq: 0, sep: 0, qual: 0 }),
    {
        BufferPosition { pos: (0, 0), seq: 0, sep: 0, qual: 0 }
    }
}

impl BufferPosition {
    /// The offsets are in the order of the four lines, and each of the first three
    /// lines has room for what it must hold: the `@` and a line feed, a line feed, the
    /// `+` and a line feed.
    pub open spec fn wf(&self) -> bool {
        &&& self.pos.0 + 2 <= self.seq
        &&& self.seq + 1 <= self.sep
        &&& self.sep + 2 <= self.qual
        &&& self.qual <= self.pos.1
    }

    /// The position is well formed and lies inside `buffer`.
    pub open spec fn fits(&self, buffer: Seq<u8>) -> bool {
        self.wf() && self.pos.1 <= buffer.len()
    }

    /// The header line, between the `@` and its line feed, lies inside `buffer`.
    pub open spec fn has_head(&self, buffer: Seq<u8>) -> bool {
        self.pos.0 + 2 <= self.seq <= buffer.len() + 1
    }

    /// The sequence line, up to its line feed, lies inside `buffer`.
    pub open spec fn has_seq(&self, buffer: Seq<u8>) -> bool {
        self.seq + 1 <= self.sep <= buffer.len() + 1
    }

    /// The quality line lies inside `buffer`.
    pub open spec fn has_qual(&self, buffer: Seq<u8>) -> bool {
        self.qual <= self.pos.1 <= buffer.len()
    }

    /// The header of the record in `buffer`: after the `@`, without the line ending.
    pub open spec fn head_of(&self, buffer: Seq<u8>) -> Seq<u8> {
        trimmed(buffer.subrange(self.pos.0 + 1, self.seq - 1))
    }

    /// The sequence line of the record in `buffer`, without the line ending.
    pub open spec fn seq_of(&self, buffer: Seq<u8>) -> Seq<u8> {
        trimmed(buffer.subrange(self.seq as int, self.sep - 1))
    }

    /// The quality line of the record in `buffer`, without the line ending.
    pub open spec fn qual_of(&self, buffer: Seq<u8>) -> Seq<u8> {
        trimmed(buffer.subrange(self.qual as int, self.pos.1 as int))
    }

    /// The record in `buffer` has as many qualities as letters, and every letter is one
    /// of `A`, `C`, `G`, `T`, `N`.
    pub open spec fn valid_in(&self, buffer: Seq<u8>) -> bool {
        &&& self.seq_of(buffer).len() == self.qual_of(buffer).len()
        &&& forall|i: int|
            0 <= i < self.seq_of(buffer).len() ==> is_nucleotide(#[trigger] self.seq_of(buffer)[i])
    }

    /// The record in `buffer` has as many qualities as letters, and every letter is one
    /// of `A`, `C`, `G`, `T`.
    pub open spec fn perfect_in(&self, buffer: Seq<u8>) -> bool {
        &&& self.seq_of(buffer).len() == self.qual_of(buffer).len()
        &&& forall|i: int|
            0 <= i < self.seq_of(buffer).len() ==> is_base(#[trigger] self.seq_of(buffer)[i])
    }

    /// Where the record after this one begins: at 0 before the first record, else one
    /// past the end of the span.
    pub open spec fn cursor(&self) -> int {
        if self.pos.1 == 0 {
            0
        } else {
            self.pos.1 + 1
        }
    }

    /// Whether no record has been located since the last reset.
    pub fn is_new(&self) -> (r: bool)
        ensures
            r == (self.pos.1 == 0),
    {
        self.pos.1 == 0
    }

    /// Forgets the located record: the span is set to begin at `start`, with no end.
    pub fn reset(&mut self, start: usize)
        ensures
            final(self).pos == (start, 0usize),
            final(self).seq == old(self).seq,
            final(self).sep == old(self).sep,
            final(self).qual == old(self).qual,
    {
        self.pos = (start, 0);
    }

    /// The header line, after the `@`.
    pub fn head<'a>(&'a self, buffer: &'a [u8]) -> (r: &'a [u8])
        requires
            self.has_head(buffer@),
        ensures
            r@ == self.head_of(buffer@),
    {
        trim_cr(slice_subrange(buffer, self.pos.0 + 1, self.seq - 1))
    }

    /// The sequence line.
    pub fn seq<'a>(&'a self, buffer: &'a [u8]) -> (r: &'a [u8])
        requires
            self.has_seq(buffer@),
        ensures
            r@ == self.seq_of(buffer@),
    {
        trim_cr(slice_subrange(buffer, self.seq, self.sep - 1))
    }

    /// The quality line.
    pub fn qual<'a>(&'a self, buffer: &'a [u8]) -> (r: &'a [u8])
        requires
            self.has_qual(buffer@),
        ensures
            r@ == self.qual_of(buffer@),
    {
        trim_cr(slice_subrange(buffer, self.qual, self.pos.1))
    }
}

/// A record that borrows its bytes from a buffer.
#[derive(Debug, Clone, Copy)]
pub struct RefRecord<'a> {
    pub buffer: &'a [u8],
    pub buf_pos: &'a BufferPosition,
}

impl<'a> RefRecord<'a> {
    /// The position is well formed and lies inside the buffer, so that every line of
    /// the record can be read.
    pub open spec fn wf(&self) -> bool {
        self.buf_pos.fits(self.buffer@)
    }

    /// The header, as a sequence of bytes.
    pub open spec fn head_bytes(&self) -> Seq<u8> {
        self.buf_pos.head_of(self.buffer@)
    }

    /// The sequence line, as a sequence of bytes.
    pub open spec fn seq_bytes(&self) -> Seq<u8> {
        self.buf_pos.seq_of(self.buffer@)
    }

    /// The quality line, as a sequence of bytes.
    pub open spec fn qual_bytes(&self) -> Seq<u8> {
        self.buf_pos.qual_of(self.buffer@)
    }

    /// As many qualities as letters, and every letter one of `A`, `C`, `G`, `T`, `N`.
    pub open spec fn is_valid(&self) -> bool {
        self.buf_pos.valid_in(self.buffer@)
    }

    /// As many qualities as letters, and every letter one of `A`, `C`, `G`, `T`.
    pub open spec fn is_perfect(&self) -> bool {
        self.buf_pos.perfect_in(self.buffer@)
    }

    /// The header line, after the `@`, without the line ending.
    pub fn head(&self) -> (r: &[u8])
        requires
            self.buf_pos.has_head(self.buffer@),
        ensures
            r@ == self.head_bytes(),
    {
        self.buf_pos.head(self.buffer)
    }

    /// The sequence line, without the line ending.
    pub fn seq(&self) -> (r: &[u8])
        requires
            self.buf_pos.has_seq(self.buffer@),
        ensures
            r@ == self.seq_bytes(),
    {
        self.buf_pos.seq(self.buffer)
    }

    /// The quality line, without the line ending.
    pub fn qual(&self) -> (r: &[u8])
        requires
            self.buf_pos.has_qual(self.buffer@),
        ensures
            r@ == self.qual_bytes(),
    {
        self.buf_pos.qual(self.buffer)
    }

    /// The record as text, without the `@`: header, sequence, a bare `+` and qualities,
    /// with a line feed between them.
    pub open spec fn text(&self) -> Seq<u8> {
        self.head_bytes() + seq![LF] + self.seq_bytes() + seq![LF, PLUS, LF] + self.qual_bytes()
    }

    /// The record as text, without the `@`: header, sequence, a bare `+` and qualities,
    /// with a line feed between them.
    pub fn formatted(&self) -> (r: Vec<u8>)
        requires
            self.buf_pos.has_head(self.buffer@),
            self.buf_pos.has_seq(self.buffer@),
            self.buf_pos.has_qual(self.buffer@),
        ensures
            r@ == self.text(),
    {
        let mut out: Vec<u8> = Vec::new();
        out.extend_from_slice(self.head());
        out.push(LF);
        out.extend_from_slice(self.seq());
        out.push(LF);
        out.push(PLUS);
        out.push(LF);
        out.extend_from_slice(self.qual());
        assert(out@ == self.text());
        out
    }

    /// Whether the record has one quality per letter and only the letters
    /// `A`, `C`, `G`, `T`, `N`.
    pub fn valid(&self) -> (r: bool)
        requires
            self.buf_pos.has_seq(self.buffer@),
            self.buf_pos.has_qual(self.buffer@),
        ensures
            r == self.is_valid(),
    {
        let seq = self.seq();
        let qual = self.qual();
        if seq.len() != qual.len() {
            return false;
        }
        let mut i: usize = 0;
        while i < seq.len()
            invariant
                i <= seq.len(),
                seq@ == self.seq_bytes(),
                forall|j: int| 0 <= j < i ==> is_nucleotide(#[trigger] seq@[j]),
            decreases seq.len() - i,
        {
            let c = seq[i];
            if !(c == 65 || c == 67 || c == 71 || c == 84 || c == 78) {
                return false;
            }
            i += 1;
        }
        true
    }

    /// Whether the record is valid and holds no `N`.
    pub fn perfect(&self) -> (r: bool)
        requires
            self.buf_pos.has_seq(self.buffer@),
            self.buf_pos.has_qual(self.buffer@),
        ensures
            r == self.is_perfect(),
    {
        let seq = self.seq();
        let qual = self.qual();
        if seq.len() != qual.len() {
            return false;
        }
        let mut i: usize = 0;
        while i < seq.len()
            invariant
                i <= seq.len(),
                seq@ == self.seq_bytes(),
                forall|j: int| 0 <= j < i ==> is_base(#[trigger] seq@[j]),
            decreases seq.len() - i,
        {
            let c = seq[i];
            if !(c == 65 || c == 67 || c == 71 || c == 84) {
                return false;
            }
            i += 1;
        }
        true
    }
}

} // verus!
