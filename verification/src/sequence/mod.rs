pub mod fastq_record;
