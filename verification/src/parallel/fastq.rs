//! What one worker of a parallel run does with the chunks it takes, and how the partial
//! sums of all workers add up.
//!
//! Threads, the lock round the shared reader and the channel to the collector are not
//! here: a worker is handed a loaded scanner, and hands back the partial sums that it
//! has to send.

use vstd::prelude::*;
use vstd::seq_lib::{commutative_foldl, lemma_fold_left_permutation};
use crate::byte_reader::ReadError;
use crate::fastq_reader::{FastqReader, PairedFastqReader};
use crate::format::{layout_at, lemma_layout, record_at, record_end, whole_records};
use crate::sequence::fastq_record::{BufferPosition, RefRecord};

verus! {

/// The number of records after which a worker sends its partial sum.
pub const BATCH_RECORDS: usize = 10000;

/// The sum of `parts`.
pub open spec fn total(parts: Seq<usize>) -> nat {
    parts.fold_left(0nat, |sum: nat, part: usize| sum + part as nat)
}

/// One part more adds its value to the sum.
pub proof fn lemma_total_push(parts: Seq<usize>, part: usize)
    ensures
        total(parts.push(part)) == total(parts) + part,
{
    assert(parts.push(part).drop_last() == parts);
}

/// Sums add up over any split: the sum of two runs of parts, one after the other, is
/// the sum of their sums. So it does not matter how the records are dealt out to
/// chunks and workers.
pub proof fn lemma_total_concat(a: Seq<usize>, b: Seq<usize>)
    ensures
        total(a + b) == total(a) + total(b),
    decreases b.len(),
{
    if b.len() == 0 {
        assert(a + b == a);
    } else {
        lemma_total_concat(a, b.drop_last());
        assert((a + b).drop_last() == a + b.drop_last());
    }
}

/// Sums do not depend on the order: two runs of the same parts, in whatever order each,
/// have the same sum. So it does not matter in which order the partial sums of the
/// workers reach the collector.
pub proof fn lemma_total_any_order(a: Seq<usize>, b: Seq<usize>)
    requires
        a.to_multiset() == b.to_multiset(),
    ensures
        total(a) == total(b),
{
    let f = |sum: nat, part: usize| sum + part as nat;
    assert(commutative_foldl(f));
    lemma_fold_left_permutation(a, b, f, 0nat);
}

/// The account that a worker keeps between two partial sums: the number of records
/// since the last one, and the sum of what the callback returned for them.
pub struct WorkerTally {
    count: usize,
    pending: usize,
}

impl WorkerTally {
    /// The number of records since the last partial sum.
    pub closed spec fn count(&self) -> nat {
        self.count as nat
    }

    /// The sum that has not been sent yet.
    pub closed spec fn pending(&self) -> nat {
        self.pending as nat
    }

    /// A batch is never more than full.
    pub open spec fn wf(&self) -> bool {
        self.count() <= BATCH_RECORDS
    }

    /// An empty account.
    pub fn new() -> (r: WorkerTally)
        ensures
            r.wf(),
            r.count() == 0,
            r.pending() == 0,
    {
        WorkerTally { count: 0, pending: 0 }
    }

    /// Enters the value that the callback returned for one record.
    ///
    /// Returns the partial sum to send when this record is the first after a full
    /// batch; the account is then empty but for this record's place in the next batch.
    /// Where the sum would not fit, what has been summed so far is returned for sending
    /// and the value opens the next sum. Nothing is lost: what is returned and what
    /// stays pending are together what was pending and the value.
    pub fn record(&mut self, value: usize) -> (r: Option<usize>)
        requires
            old(self).wf(),
        ensures
            final(self).wf(),
            r == if old(self).pending() + value > usize::MAX {
                Some(old(self).pending() as usize)
            } else if old(self).count() + 1 > BATCH_RECORDS {
                Some((old(self).pending() + value) as usize)
            } else {
                None::<usize>
            },
            final(self).pending() == if old(self).pending() + value > usize::MAX {
                value as int
            } else if old(self).count() + 1 > BATCH_RECORDS {
                0int
            } else {
                old(self).pending() + value
            },
            final(self).count() == if old(self).pending() + value > usize::MAX {
                1int
            } else if old(self).count() + 1 > BATCH_RECORDS {
                old(self).count() + 1 - BATCH_RECORDS
            } else {
                old(self).count() as int + 1
            },
            final(self).pending() + match r {
                Some(part) => part as nat,
                None => 0nat,
            } == old(self).pending() + value,
    {
        match self.pending.checked_add(value) {
            None => {
                let part = self.pending;
                self.pending = value;
                self.count = 1;
                Some(part)
            },
            Some(sum) => {
                self.count = self.count + 1;
                if self.count > BATCH_RECORDS {
                    self.pending = 0;
                    self.count = self.count - BATCH_RECORDS;
                    Some(sum)
                } else {
                    self.pending = sum;
                    None
                }
            },
        }
    }

    /// Closes the account at the end of the stream: returns the sum that has not been
    /// sent yet and leaves the account empty.
    pub fn finish(&mut self) -> (r: usize)
        ensures
            r == old(self).pending(),
            final(self).wf(),
            final(self).pending() == 0,
            final(self).count() == 0,
    {
        let part = self.pending;
        self.pending = 0;
        self.count = 0;
        part
    }
}

/// The account of the collector: the sum of the partial sums that have reached it.
pub struct Collector {
    total: u64,
}

impl Collector {
    /// The sum so far.
    pub closed spec fn sum(&self) -> nat {
        self.total as nat
    }

    /// A collector that has received nothing.
    pub fn new() -> (r: Collector)
        ensures
            r.sum() == 0,
    {
        Collector { total: 0 }
    }

    /// Adds a partial sum. Returns `false`, and leaves the sum as it is, where the sum
    /// would not fit into 64 bits.
    pub fn add(&mut self, part: usize) -> (r: bool)
        ensures
            r == (old(self).sum() + part <= u64::MAX),
            final(self).sum() == if r {
                old(self).sum() + part
            } else {
                old(self).sum() as int
            },
    {
        match self.total.checked_add(part as u64) {
            Some(sum) => {
                self.total = sum;
                true
            },
            None => false,
        }
    }

    /// The sum of everything that was added.
    pub fn total(&self) -> (r: u64)
        ensures
            r == self.sum(),
    {
        self.total
    }
}

/// `value` is what `f` may return for the record of `chunk` that lies at `at`.
pub open spec fn applied<F: Fn(&RefRecord) -> usize>(
    f: &F,
    chunk: Seq<u8>,
    at: BufferPosition,
    value: usize,
) -> bool {
    exists|rec: RefRecord|
        #![trigger f.ensures((&rec,), value)]
        rec.buffer@ == chunk && *rec.buf_pos == at && f.ensures((&rec,), value)
}

/// `values` are what `f` returned for the records at `layouts`, one for each in order,
/// and they are accounted for: the partial sums in `sent` and what is pending `after`
/// are together what was pending `before` and the sum of the values.
pub open spec fn tallied<F: Fn(&RefRecord) -> usize>(
    f: &F,
    chunk: Seq<u8>,
    layouts: Seq<BufferPosition>,
    values: Seq<usize>,
    sent: Seq<usize>,
    before: nat,
    after: nat,
) -> bool {
    &&& values.len() == layouts.len()
    &&& forall|k: int|
        0 <= k < layouts.len() ==> applied(f, chunk, layouts[k], #[trigger] values[k])
    &&& total(sent) + after == before + total(values)
}

/// Every record at `layouts` is valid in `chunk`.
pub open spec fn all_valid(chunk: Seq<u8>, layouts: Seq<BufferPosition>) -> bool {
    forall|k: int| 0 <= k < layouts.len() ==> (#[trigger] layouts[k]).valid_in(chunk)
}

/// Scans what is left of the chunk that `reader` holds: checks each record, calls `f`
/// for it, and enters what `f` returns into `tally`. The partial sums that fall due are
/// appended to `parts`, for the caller to send. Returns the number of records.
///
/// The result is `InvalidRecord` where one of the records that can be read is not
/// valid, and `Boundary` where all of these are valid and the scan then comes to a
/// place where no record can be read. The records before that place are accounted for
/// all the same, and they are all valid: `f` is never called for a record that is not.
pub fn process_batch<F: Fn(&RefRecord) -> usize>(
    reader: &mut FastqReader,
    f: &F,
    tally: &mut WorkerTally,
    parts: &mut Vec<usize>,
) -> (r: Result<usize, ReadError>)
    requires
        old(reader).wf(),
        old(tally).wf(),
        forall|rec: RefRecord| rec.wf() ==> #[trigger] f.requires((&rec,)),
    ensures
        final(reader).wf(),
        final(reader).chunk() == old(reader).chunk(),
        final(tally).wf(),
        old(parts)@.len() <= final(parts)@.len(),
        final(parts)@.subrange(0, old(parts)@.len() as int) == old(parts)@,
        exists|values: Seq<usize>|
            {
                &&& values.len() <= old(reader).ahead().len()
                &&& r matches Ok(n) ==> values.len() == n
                &&& all_valid(
                    old(reader).chunk(),
                    old(reader).ahead().subrange(0, values.len() as int),
                )
                &&& #[trigger] tallied(
                    f,
                    old(reader).chunk(),
                    old(reader).ahead().subrange(0, values.len() as int),
                    values,
                    final(parts)@.subrange(old(parts)@.len() as int, final(parts)@.len() as int),
                    old(tally).pending(),
                    final(tally).pending(),
                )
            },
        match r {
            Ok(n) => {
                &&& whole_records(old(reader).chunk(), old(reader).cursor())
                &&& all_valid(old(reader).chunk(), old(reader).ahead())
                &&& n == old(reader).ahead().len()
                &&& final(reader).cursor() >= final(reader).chunk().len()
            },
            Err(e) => if all_valid(old(reader).chunk(), old(reader).ahead()) {
                e is Boundary && !whole_records(old(reader).chunk(), old(reader).cursor())
            } else {
                e is InvalidRecord
            },
        },
{
    let size = reader.buffer_size();
    let first = parts.len();
    let ghost chunk = reader.chunk();
    let ghost all = reader.ahead();
    let ghost start = reader.cursor();
    let ghost before = tally.pending();
    let ghost mut values = Seq::<usize>::empty();
    let mut n: usize = 0;
    proof {
        assert(all.subrange(0, 0) + reader.ahead() == all);
        assert(parts@.subrange(0, first as int) == parts@);
        assert(parts@.subrange(first as int, first as int) == Seq::<usize>::empty());
    }
    loop
        invariant
            chunk == old(reader).chunk(),
            all == old(reader).ahead(),
            start == old(reader).cursor(),
            before == old(tally).pending(),
            reader.wf(),
            reader.chunk() == chunk,
            chunk.len() == size,
            tally.wf(),
            forall|rec: RefRecord| rec.wf() ==> #[trigger] f.requires((&rec,)),
            n == values.len(),
            n <= all.len(),
            n <= reader.position().pos.1,
            all == all.subrange(0, n as int) + reader.ahead(),
            all_valid(chunk, all.subrange(0, n as int)),
            first == old(parts)@.len(),
            first <= parts@.len(),
            parts@.subrange(0, first as int) == old(parts)@,
            tallied(
                f,
                chunk,
                all.subrange(0, n as int),
                values,
                parts@.subrange(first as int, parts@.len() as int),
                before,
                tally.pending(),
            ),
            whole_records(chunk, start) <==> whole_records(chunk, reader.cursor()),
        decreases reader.ahead().len(),
    {
        let ghost here = reader.cursor();
        let ghost ahead = reader.ahead();
        let value = match reader.next() {
            None => {
                proof {
                    assert(ahead.len() == 0);
                    assert(all.subrange(0, n as int) == all);
                }
                return Ok(n);
            },
            Some(Err(e)) => {
                proof {
                    assert(ahead.len() == 0);
                    assert(all.subrange(0, n as int) == all);
                }
                return Err(e);
            },
            Some(Ok(rec)) => {
                proof {
                    lemma_layout(chunk, here);
                    assert(ahead[0] == *rec.buf_pos);
                    assert(all[n as int] == *rec.buf_pos);
                }
                if !rec.valid() {
                    return Err(ReadError::InvalidRecord);
                }
                let value = f(&rec);
                assert(applied(f, chunk, all[n as int], value));
                value
            },
        };
        let ghost sent = parts@.subrange(first as int, parts@.len() as int);
        match tally.record(value) {
            Some(part) => {
                parts.push(part);
                proof {
                    assert(parts@.subrange(first as int, parts@.len() as int) == sent.push(part));
                    lemma_total_push(sent, part);
                }
            },
            None => {},
        }
        proof {
            lemma_total_push(values, value);
            values = values.push(value);
            assert(all.subrange(0, n + 1) == all.subrange(0, n as int).push(all[n as int]));
            assert(all.subrange(0, n + 1) + reader.ahead() == all) by {
                assert(ahead == seq![all[n as int]] + reader.ahead());
            }
        }
        n = n + 1;
        assert(tallied(
            f,
            chunk,
            all.subrange(0, n as int),
            values,
            parts@.subrange(first as int, parts@.len() as int),
            before,
            tally.pending(),
        ));
    }
}

/// How the scan of a pair of chunks ends.
pub enum PairScan {
    /// Both chunks are exhausted together.
    Done,
    /// One chunk is exhausted before the other.
    Mismatch,
    /// No record can be read where one must begin.
    Broken,
    /// A record is not valid.
    Invalid,
}

/// `x`, or the length of `s` where `x` is past it.
pub open spec fn clamped(s: Seq<u8>, x: int) -> int {
    if x >= s.len() {
        s.len() as int
    } else {
        x
    }
}

/// How the scan of two chunks ends that begins at `x1` in the first and at `x2` in the
/// second, and takes one record of each in turn.
pub open spec fn pair_scan(chunk1: Seq<u8>, x1: int, chunk2: Seq<u8>, x2: int) -> PairScan
    decreases chunk1.len() - x1,
{
    let done1 = x1 >= chunk1.len();
    let done2 = x2 >= chunk2.len();
    let next1 = clamped(chunk1, record_end(chunk1, x1) + 1);
    let next2 = clamped(chunk2, record_end(chunk2, x2) + 1);
    if done1 && done2 {
        PairScan::Done
    } else if done1 || done2 {
        PairScan::Mismatch
    } else if !record_at(chunk1, x1) || !record_at(chunk2, x2) {
        PairScan::Broken
    } else if !layout_at(chunk1, x1).valid_in(chunk1) || !layout_at(chunk2, x2).valid_in(chunk2) {
        PairScan::Invalid
    } else if x1 < next1 {
        pair_scan(chunk1, next1, chunk2, next2)
    } else {
        PairScan::Broken
    }
}

/// `value` is what `f` may return for the records of `chunk1` at `at1` and of `chunk2`
/// at `at2`.
pub open spec fn applied_pair<F: Fn(&RefRecord, &RefRecord) -> usize>(
    f: &F,
    chunk1: Seq<u8>,
    at1: BufferPosition,
    chunk2: Seq<u8>,
    at2: BufferPosition,
    value: usize,
) -> bool {
    exists|rec1: RefRecord, rec2: RefRecord|
        #![trigger f.ensures((&rec1, &rec2), value)]
        {
            &&& rec1.buffer@ == chunk1
            &&& *rec1.buf_pos == at1
            &&& rec2.buffer@ == chunk2
            &&& *rec2.buf_pos == at2
            &&& f.ensures((&rec1, &rec2), value)
        }
}

/// `values` are what `f` returned for the pairs of records at `layouts1` and
/// `layouts2`, one for each pair in order, and they are accounted for: the partial sums
/// in `sent` and what is pending `after` are together what was pending `before` and
/// the sum of the values.
pub open spec fn tallied_pairs<F: Fn(&RefRecord, &RefRecord) -> usize>(
    f: &F,
    chunk1: Seq<u8>,
    layouts1: Seq<BufferPosition>,
    chunk2: Seq<u8>,
    layouts2: Seq<BufferPosition>,
    values: Seq<usize>,
    sent: Seq<usize>,
    before: nat,
    after: nat,
) -> bool {
    &&& values.len() == layouts1.len()
    &&& values.len() == layouts2.len()
    &&& forall|k: int|
        0 <= k < values.len() ==> applied_pair(
            f,
            chunk1,
            layouts1[k],
            chunk2,
            layouts2[k],
            #[trigger] values[k],
        )
    &&& total(sent) + after == before + total(values)
}

/// Scans what is left of the two chunks that `reader` holds, one record of each in
/// turn: checks the two records, calls `f` for them, and enters what `f` returns into
/// `tally`. The partial sums that fall due are appended to `parts`, for the caller to
/// send. Returns the number of pairs.
///
/// The result is `LengthMismatch` where one chunk is exhausted before the other,
/// `Boundary` where no record can be read in one of them, and `InvalidRecord` where a
/// record is not valid, whichever the scan meets first. The pairs before that place
/// are accounted for all the same, and their records are all valid: `f` is never
/// called for a pair with a record that is not.
pub fn process_pair_batch<F: Fn(&RefRecord, &RefRecord) -> usize>(
    reader: &mut PairedFastqReader,
    f: &F,
    tally: &mut WorkerTally,
    parts: &mut Vec<usize>,
) -> (r: Result<usize, ReadError>)
    requires
        old(reader).wf(),
        old(tally).wf(),
        forall|rec1: RefRecord, rec2: RefRecord|
            rec1.wf() && rec2.wf() ==> #[trigger] f.requires((&rec1, &rec2)),
    ensures
        final(reader).wf(),
        final(reader).chunks() == old(reader).chunks(),
        final(tally).wf(),
        old(parts)@.len() <= final(parts)@.len(),
        final(parts)@.subrange(0, old(parts)@.len() as int) == old(parts)@,
        match pair_scan(
            old(reader).chunks().0,
            clamped(old(reader).chunks().0, old(reader).cursors().0),
            old(reader).chunks().1,
            clamped(old(reader).chunks().1, old(reader).cursors().1),
        ) {
            PairScan::Done => r is Ok,
            PairScan::Mismatch => r matches Err(e) && e is LengthMismatch,
            PairScan::Broken => r matches Err(e) && e is Boundary,
            PairScan::Invalid => r matches Err(e) && e is InvalidRecord,
        },
        r matches Ok(n) ==> {
            &&& n == old(reader).ahead().0.len()
            &&& n == old(reader).ahead().1.len()
            &&& final(reader).first_done()
            &&& final(reader).second_done()
        },
        exists|values: Seq<usize>|
            {
                &&& values.len() <= old(reader).ahead().0.len()
                &&& values.len() <= old(reader).ahead().1.len()
                &&& r matches Ok(n) ==> values.len() == n
                &&& all_valid(
                    old(reader).chunks().0,
                    old(reader).ahead().0.subrange(0, values.len() as int),
                )
                &&& all_valid(
                    old(reader).chunks().1,
                    old(reader).ahead().1.subrange(0, values.len() as int),
                )
                &&& #[trigger] tallied_pairs(
                    f,
                    old(reader).chunks().0,
                    old(reader).ahead().0.subrange(0, values.len() as int),
                    old(reader).chunks().1,
                    old(reader).ahead().1.subrange(0, values.len() as int),
                    values,
                    final(parts)@.subrange(old(parts)@.len() as int, final(parts)@.len() as int),
                    old(tally).pending(),
                    final(tally).pending(),
                )
            },
{
    let (view1, view2) = reader.buffers();
    let size1 = view1.len();
    let size2 = view2.len();
    let first = parts.len();
    let ghost chunk1 = reader.chunks().0;
    let ghost chunk2 = reader.chunks().1;
    let ghost all1 = reader.ahead().0;
    let ghost all2 = reader.ahead().1;
    let ghost start1 = clamped(chunk1, reader.cursors().0);
    let ghost start2 = clamped(chunk2, reader.cursors().1);
    let ghost before = tally.pending();
    let ghost mut values = Seq::<usize>::empty();
    let mut n: usize = 0;
    proof {
        assert(all1.subrange(0, 0) + reader.ahead().0 == all1);
        assert(all2.subrange(0, 0) + reader.ahead().1 == all2);
        assert(parts@.subrange(0, first as int) == parts@);
        assert(parts@.subrange(first as int, first as int) == Seq::<usize>::empty());
    }
    loop
        invariant
            chunk1 == old(reader).chunks().0,
            chunk2 == old(reader).chunks().1,
            all1 == old(reader).ahead().0,
            all2 == old(reader).ahead().1,
            start1 == clamped(chunk1, old(reader).cursors().0),
            start2 == clamped(chunk2, old(reader).cursors().1),
            before == old(tally).pending(),
            reader.wf(),
            reader.chunks() == (chunk1, chunk2),
            chunk1.len() == size1,
            chunk2.len() == size2,
            tally.wf(),
            forall|rec1: RefRecord, rec2: RefRecord|
                rec1.wf() && rec2.wf() ==> #[trigger] f.requires((&rec1, &rec2)),
            n == values.len(),
            n <= all1.len(),
            n <= all2.len(),
            n <= reader.positions().0.pos.1,
            all1 == all1.subrange(0, n as int) + reader.ahead().0,
            all2 == all2.subrange(0, n as int) + reader.ahead().1,
            all_valid(chunk1, all1.subrange(0, n as int)),
            all_valid(chunk2, all2.subrange(0, n as int)),
            first == old(parts)@.len(),
            first <= parts@.len(),
            parts@.subrange(0, first as int) == old(parts)@,
            tallied_pairs(
                f,
                chunk1,
                all1.subrange(0, n as int),
                chunk2,
                all2.subrange(0, n as int),
                values,
                parts@.subrange(first as int, parts@.len() as int),
                before,
                tally.pending(),
            ),
            pair_scan(chunk1, start1, chunk2, start2) == pair_scan(
                chunk1,
                clamped(chunk1, reader.cursors().0),
                chunk2,
                clamped(chunk2, reader.cursors().1),
            ),
        decreases reader.ahead().0.len(),
    {
        let ghost here1 = reader.cursors().0;
        let ghost here2 = reader.cursors().1;
        let ghost ahead1 = reader.ahead().0;
        let ghost ahead2 = reader.ahead().1;
        let value = match reader.next() {
            None => {
                proof {
                    assert(ahead1.len() == 0);
                    assert(ahead2.len() == 0);
                    assert(all1.subrange(0, n as int) == all1);
                    assert(all2.subrange(0, n as int) == all2);
                }
                return Ok(n);
            },
            Some(Err(e)) => {
                return Err(e);
            },
            Some(Ok((rec1, rec2))) => {
                proof {
                    lemma_layout(chunk1, here1);
                    lemma_layout(chunk2, here2);
                    assert(ahead1[0] == *rec1.buf_pos);
                    assert(ahead2[0] == *rec2.buf_pos);
                    assert(all1[n as int] == *rec1.buf_pos);
                    assert(all2[n as int] == *rec2.buf_pos);
                }
                if !rec1.valid() || !rec2.valid() {
                    return Err(ReadError::InvalidRecord);
                }
                let value = f(&rec1, &rec2);
                assert(applied_pair(f, chunk1, all1[n as int], chunk2, all2[n as int], value));
                value
            },
        };
        let ghost sent = parts@.subrange(first as int, parts@.len() as int);
        match tally.record(value) {
            Some(part) => {
                parts.push(part);
                proof {
                    assert(parts@.subrange(first as int, parts@.len() as int) == sent.push(part));
                    lemma_total_push(sent, part);
                }
            },
            None => {},
        }
        proof {
            lemma_total_push(values, value);
            values = values.push(value);
            assert(all1.subrange(0, n + 1) + reader.ahead().0 == all1) by {
                assert(all1.subrange(0, n + 1) == all1.subrange(0, n as int).push(all1[n as int]));
                assert(ahead1 == seq![all1[n as int]] + reader.ahead().0);
            }
            assert(all2.subrange(0, n + 1) + reader.ahead().1 == all2) by {
                assert(all2.subrange(0, n + 1) == all2.subrange(0, n as int).push(all2[n as int]));
                assert(ahead2 == seq![all2[n as int]] + reader.ahead().1);
            }
        }
        n = n + 1;
        assert(tallied_pairs(
            f,
            chunk1,
            all1.subrange(0, n as int),
            chunk2,
            all2.subrange(0, n as int),
            values,
            parts@.subrange(first as int, parts@.len() as int),
            before,
            tally.pending(),
        ));
    }
}

} // verus!
