use juanlog::engine::LogEngine;
use juanlog::indexing::{LAZY_CHUNK_SIZE, PARALLEL_CHUNK_SIZE};
use juanlog::models::Piece;
use juanlog::scan::count_newlines;
use juanlog::text::split_lines;

fn indexed(data: &[u8]) -> LogEngine<'_> {
    let mut e = LogEngine::new(data);
    if !e.is_fixed_width {
        e.build_index_sequential(LAZY_CHUNK_SIZE);
    }
    e.sync_pieces();
    e
}

#[test]
fn new_engine_knows_no_lines_until_indexed() {
    let data = b"one\ntwo\nthree\n";
    let mut e = LogEngine::new(data);
    assert!(!e.is_fixed_width);
    assert_eq!(e.total_lines(), 0);
    e.build_index_sequential(4);
    assert!(e.index.is_finished);
    assert_eq!(e.index.original_total_lines, 3);
    assert_eq!(e.total_lines(), 0);
    e.sync_pieces();
    assert_eq!(e.total_lines(), 3);
}

#[test]
fn last_line_without_newline_counts() {
    let e = indexed(b"one\ntwo");
    assert_eq!(e.index.original_total_lines, 2);
    let e = indexed(b"\r");
    assert_eq!(e.index.original_total_lines, 1);
    let e = indexed(b"");
    assert_eq!(e.index.original_total_lines, 0);
}

#[test]
fn index_steps_record_chunk_starts() {
    let data = b"aa\nbb\ncc\ndd\n";
    let mut e = LogEngine::new(data);
    assert!(e.index_step(5));
    assert_eq!(e.bytes_processed, 5);
    assert_eq!(e.index.original_total_lines, 1);
    assert!(e.index_step(5));
    assert!(e.index_step(5));
    assert!(!e.index_step(5));
    assert_eq!(e.index.chunks.len(), 3);
    assert_eq!(e.index.chunks[1].byte_offset, 5);
    assert_eq!(e.index.chunks[1].start_line, 1);
    assert_eq!(e.index.chunks[2].start_line, 3);
    e.finish_index();
    assert_eq!(e.index.original_total_lines, 4);
}

#[test]
fn chunk_counts_give_the_same_index() {
    let mut data = Vec::new();
    for i in 0..5000 {
        data.extend_from_slice(format!("line {}\n", i).as_bytes());
    }
    let chunk = 1000;
    let counts: Vec<usize> = data.chunks(chunk).map(count_newlines).collect();
    let mut a = LogEngine::new(&data);
    a.index_from_chunk_counts(&counts, chunk);
    let mut b = LogEngine::new(&data);
    b.build_index_sequential(chunk);
    assert_eq!(a.index.original_total_lines, 5000);
    assert_eq!(a.index.original_total_lines, b.index.original_total_lines);
    assert_eq!(a.index.chunks.len(), b.index.chunks.len());
    for (x, y) in a.index.chunks.iter().zip(b.index.chunks.iter()) {
        assert_eq!(x.byte_offset, y.byte_offset);
        assert_eq!(x.start_line, y.start_line);
    }
    assert!(PARALLEL_CHUNK_SIZE > 0);
}

#[test]
fn line_offsets_follow_line_breaks() {
    let data = b"ab\ncd\r\nef\rgh";
    let e = indexed(data);
    assert_eq!(e.line_to_byte_offset(0), 0);
    assert_eq!(e.line_to_byte_offset(1), 3);
    assert_eq!(e.line_to_byte_offset(2), 7);
    // past the indexed lines: end of file once indexing is finished
    assert_eq!(e.line_to_byte_offset(50), data.len());
}

#[test]
fn offsets_across_chunks() {
    let mut data = Vec::new();
    for i in 0..100 {
        data.extend_from_slice(format!("{:04}\n", i).as_bytes());
    }
    let mut e = LogEngine::new(&data);
    e.build_index_sequential(50);
    e.sync_pieces();
    // chunk boundaries fall on line starts here (lines are 5 bytes)
    for line in 0..100usize {
        assert_eq!(e.line_to_byte_offset(line), line * 5);
    }
}

#[test]
fn original_bytes_span_lines() {
    let data = b"l0\nl1\nl2\nl3";
    let e = indexed(data);
    assert_eq!(e.get_original_bytes(1, 2), b"l1\nl2\n");
    assert_eq!(e.get_original_bytes(3, 5), b"l3");
    assert_eq!(e.get_original_bytes(0, 0), b"");
    assert_eq!(e.get_original_bytes(9, 1), b"");
}

#[test]
fn find_piece_and_split() {
    let data = b"a\nb\nc\nd\n";
    let mut e = indexed(data);
    assert_eq!(e.find_piece_idx(2), (0, 2));
    assert_eq!(e.find_piece_idx(4), (1, 0));
    e.split_piece_at(0, 2);
    assert_eq!(e.pieces.len(), 2);
    assert_eq!(e.pieces[0].line_count(), 2);
    assert_eq!(e.find_piece_idx(2), (1, 0));
    assert_eq!(e.total_lines(), 4);
    assert_eq!(e.get_block(0, 4), "a\nb\nc\nd\n");
    // cuts at either end leave the pieces alone
    e.split_piece_at(1, 0);
    e.split_piece_at(1, 2);
    e.split_piece_at(7, 1);
    assert_eq!(e.pieces.len(), 2);
}

#[test]
fn sync_grows_the_last_piece() {
    let data = b"a\nb\nc\nd\n";
    let mut e = LogEngine::new(data);
    assert!(e.index_step(4));
    e.sync_pieces();
    assert_eq!(e.total_lines(), 2);
    assert_eq!(e.pieces.len(), 1);
    assert!(e.index_step(4));
    e.sync_pieces();
    assert_eq!(e.total_lines(), 4);
    assert_eq!(e.pieces.len(), 1);
    match e.pieces[0] {
        Piece::Original { start_line, line_count } => {
            assert_eq!(start_line, 0);
            assert_eq!(line_count, 4);
        }
        _ => panic!("expected a file piece"),
    }
}

#[test]
fn split_lines_drops_the_empty_tail() {
    assert_eq!(split_lines(""), Vec::<String>::new());
    assert_eq!(split_lines("a"), vec!["a".to_string()]);
    assert_eq!(split_lines("a\n"), vec!["a".to_string()]);
    assert_eq!(split_lines("a\nb"), vec!["a".to_string(), "b".to_string()]);
    assert_eq!(split_lines("\n"), vec!["".to_string()]);
    assert_eq!(split_lines("é\n\nü"), vec!["é".to_string(), "".to_string(), "ü".to_string()]);
}

#[test]
fn every_indexing_step_grows_the_index() {
    let data = b"one\ntwo\nthree\nfour\nfive";
    let mut e = LogEngine::new(data);
    let mut seen: Vec<(usize, usize, usize)> = Vec::new();
    let mut offsets: Vec<u64> = Vec::new();
    while e.index_step(6) {
        let chunks: Vec<u64> = e.index.chunks.iter().map(|c| c.byte_offset).collect();
        assert_eq!(&chunks[..offsets.len()], &offsets[..]);
        offsets = chunks;
        seen.push((e.bytes_processed, e.index.original_total_lines, e.index.chunks.len()));
    }
    for w in seen.windows(2) {
        assert!(w[0].0 < w[1].0);
        assert!(w[0].1 <= w[1].1);
        assert_eq!(w[0].2 + 1, w[1].2);
    }
    assert!(!e.index.is_finished);
    let before = e.index.original_total_lines;
    e.finish_index();
    assert!(e.index.is_finished);
    assert_eq!(before, 4);
    assert_eq!(e.index.original_total_lines, 5);
    e.finish_index();
    assert!(e.index.is_finished);
    assert_eq!(e.index.original_total_lines, 5);
}
