use fastq_chunker::chunker::{
    chunk_lines, line_record_bytes, lines_per_chunk_of, ChunkWriter, LINES_PER_READ,
};

fn numbered_lines(n: usize) -> Vec<String> {
    let mut lines: Vec<String> = Vec::new();
    let mut i: usize = 0;
    while i < n {
        lines.push(format!("line{}", i));
        i += 1;
    }
    lines
}

#[test]
fn lines_per_chunk_is_records_times_four() {
    assert_eq!(LINES_PER_READ, 4);
    assert_eq!(lines_per_chunk_of(1), 4);
    assert_eq!(lines_per_chunk_of(2), 8);
    assert_eq!(lines_per_chunk_of(1000), 4000);
}

#[test]
fn twelve_lines_two_records_per_chunk() {
    // records-per-chunk = 2, so the threshold is 8 lines; 12 input lines
    // give file 0 the first 8 lines and file 1 the remaining 4.
    let lines = numbered_lines(12);
    let threshold = lines_per_chunk_of(2);
    assert_eq!(threshold, 8);
    let chunks = chunk_lines(&lines, threshold);
    assert_eq!(chunks.len(), 2);
    assert_eq!(chunks[0], lines[0..8].to_vec());
    assert_eq!(chunks[1], lines[8..12].to_vec());
}

#[test]
fn empty_input_single_empty_chunk() {
    let lines: Vec<String> = Vec::new();
    let chunks = chunk_lines(&lines, 8);
    assert_eq!(chunks.len(), 1);
    assert!(chunks[0].is_empty());
}

#[test]
fn file_count_is_ceiling_of_lines_over_threshold() {
    // 10 lines at 4 per chunk: ceil(10 / 4) = 3 files of 4, 4 and 2 lines.
    let lines = numbered_lines(10);
    let chunks = chunk_lines(&lines, 4);
    assert_eq!(chunks.len(), 3);
    assert_eq!(chunks[0].len(), 4);
    assert_eq!(chunks[1].len(), 4);
    assert_eq!(chunks[2].len(), 2);
}

#[test]
fn exact_multiple_has_no_trailing_empty_file() {
    // 8 lines at 4 per chunk: exactly 2 full files and no empty third one.
    let lines = numbered_lines(8);
    let chunks = chunk_lines(&lines, 4);
    assert_eq!(chunks.len(), 2);
    assert_eq!(chunks[0].len(), 4);
    assert_eq!(chunks[1].len(), 4);
}

#[test]
fn single_line_input() {
    let lines = numbered_lines(1);
    let chunks = chunk_lines(&lines, 4000);
    assert_eq!(chunks.len(), 1);
    assert_eq!(chunks[0], lines);
}

#[test]
fn concatenation_reproduces_input() {
    let lines = numbered_lines(13);
    let chunks = chunk_lines(&lines, 5);
    let mut rebuilt: Vec<String> = Vec::new();
    for chunk in &chunks {
        for line in chunk {
            rebuilt.push(line.clone());
        }
    }
    assert_eq!(rebuilt, lines);
}

#[test]
fn partial_trailing_record_is_kept() {
    // 6 lines is one full record plus a malformed 2-line tail; the tail
    // still lands in the chunk files with no validation.
    let lines = numbered_lines(6);
    let chunks = chunk_lines(&lines, 4);
    assert_eq!(chunks.len(), 2);
    assert_eq!(chunks[1], lines[4..6].to_vec());
}

#[test]
fn mates_of_different_lengths_have_independent_counts() {
    // R1 has 12 lines, R2 has 4: at 8 lines per chunk the counts are 2
    // and 1, each depending only on its own input.
    let r1 = numbered_lines(12);
    let r2 = numbered_lines(4);
    let r1_chunks = chunk_lines(&r1, 8);
    let r2_chunks = chunk_lines(&r2, 8);
    assert_eq!(r1_chunks.len(), 2);
    assert_eq!(r2_chunks.len(), 1);
}

#[test]
fn writer_opens_a_new_file_exactly_when_a_chunk_fills() {
    let mut writer = ChunkWriter::new(2);
    assert_eq!(writer.push_line("a"), None);
    assert_eq!(writer.push_line("b"), None);
    assert_eq!(writer.push_line("c"), Some(1));
    assert_eq!(writer.push_line("d"), None);
    assert_eq!(writer.push_line("e"), Some(2));
    assert_eq!(writer.chunk_index, 2);
    assert_eq!(writer.lines_in_current, 1);
}

#[test]
fn line_bytes_end_with_a_single_newline() {
    assert_eq!(line_record_bytes("@read0"), b"@read0\n".to_vec());
    assert_eq!(line_record_bytes(""), b"\n".to_vec());
}

#[test]
fn writer_starts_at_chunk_zero() {
    let writer = ChunkWriter::new(8);
    assert_eq!(writer.chunk_index, 0);
    assert_eq!(writer.lines_in_current, 0);
}
