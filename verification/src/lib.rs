//! Chunked reading of FASTQ files and zero-copy splitting of the chunks into records.
//!
//! The readers in [`byte_reader`] cut a byte stream, a pair of streams or a region of
//! memory into chunks that end where a record ends. The scanners in [`fastq_reader`]
//! walk a chunk record by record and hand out views, defined in [`sequence`], that
//! borrow from it. [`parallel`] holds what a worker of a parallel run does with the
//! chunks it takes.
//!
//! [`format`] describes the text layout that all contracts are stated over, and
//! [`stream`] proves that the cuts of the readers lie between records, and [`run`] what
//! follows for all the chunks of a run. [`search`] is where the `memchr` crate is
//! called.

pub mod search;
pub mod format;
pub mod stream;
pub mod run;
pub mod sequence;
pub mod byte_reader;
pub mod fastq_reader;
pub mod parallel;
pub mod utils;
