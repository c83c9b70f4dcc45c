pub mod fastq;
