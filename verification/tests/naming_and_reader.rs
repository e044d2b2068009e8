use fastq_chunker::errors::ChunkError;
use fastq_chunker::naming::{get_file_name, usize_to_decimal, ReadType};
use fastq_chunker::reader::{path_is_gz, source_kind_of, SourceKind};

#[test]
fn decimal_rendering() {
    assert_eq!(usize_to_decimal(0), "0");
    assert_eq!(usize_to_decimal(7), "7");
    assert_eq!(usize_to_decimal(10), "10");
    assert_eq!(usize_to_decimal(907), "907");
    assert_eq!(usize_to_decimal(123456), "123456");
}

#[test]
fn file_names_encode_prefix_index_and_mate() {
    assert_eq!(get_file_name(0, &ReadType::R1, "chunk"), "chunk_0_R1.fastq");
    assert_eq!(get_file_name(0, &ReadType::R2, "chunk"), "chunk_0_R2.fastq");
    assert_eq!(get_file_name(12, &ReadType::R1, "prefix"), "prefix_12_R1.fastq");
    assert_eq!(get_file_name(1000, &ReadType::R2, "out"), "out_1000_R2.fastq");
}

#[test]
fn gz_suffix_is_detected_case_sensitively() {
    assert!(path_is_gz("reads.fastq.gz"));
    assert!(path_is_gz("a.gz"));
    assert!(path_is_gz(".gz"));
    assert!(!path_is_gz("reads.fastq"));
    assert!(!path_is_gz("reads.GZ"));
    assert!(!path_is_gz("gz"));
    assert!(!path_is_gz(""));
    assert!(!path_is_gz("archive.gzip"));
}

#[test]
fn source_kind_follows_the_suffix() {
    assert_eq!(source_kind_of("r1.fastq.gz"), SourceKind::GzipCompressed);
    assert_eq!(source_kind_of("r1.fastq"), SourceKind::PlainText);
}

#[test]
fn error_messages_name_their_cause() {
    assert_eq!(ChunkError::OpenError.message(), "cannot open input file");
    assert_eq!(
        ChunkError::DecodeError.message(),
        "input is not valid text or the compressed stream is corrupt"
    );
    assert_eq!(ChunkError::DirectoryCreateError.message(), "cannot create output directory");
    assert_eq!(ChunkError::WriteError.message(), "cannot create or write an output file");
}

#[test]
fn error_variants_are_distinct() {
    assert_ne!(ChunkError::OpenError, ChunkError::WriteError);
    assert_ne!(ChunkError::DecodeError, ChunkError::DirectoryCreateError);
    assert_eq!(ChunkError::OpenError, ChunkError::OpenError);
}
