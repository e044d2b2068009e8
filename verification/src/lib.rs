//! Split paired-end FASTQ inputs into fixed-size chunk files.
//!
//! The library holds the verified core: deciding whether a path names a
//! gzip-compressed file, naming the numbered chunk files, and partitioning a
//! stream of lines into chunks of `records_per_chunk * 4` lines each.
//! Opening, decompressing and writing the actual files is I/O and stays with
//! the caller, which drives a [`chunker::ChunkWriter`] one line at a time.

pub mod chunker;
pub mod errors;
pub mod naming;
pub mod reader;
