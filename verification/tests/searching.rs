use juanlog::engine::LogEngine;
use juanlog::indexing::LAZY_CHUNK_SIZE;

fn indexed(data: &[u8]) -> LogEngine<'_> {
    let mut e = LogEngine::new(data);
    e.build_index_sequential(LAZY_CHUNK_SIZE);
    e.sync_pieces();
    e
}

#[test]
fn forward_search_finds_the_first_line() {
    let data = b"alpha\nbeta\ngamma\nbeta again\n";
    let mut e = indexed(data);
    assert_eq!(e.search_forward(b"beta", 0, 100), Some(1));
    assert_eq!(e.search_forward(b"beta", 2, 100), Some(3));
    assert_eq!(e.search_forward(b"beta", 2, 2), None);
    assert_eq!(e.search_forward(b"delta", 0, 100), None);
    assert_eq!(e.search_forward(b"", 0, 100), None);
}

#[test]
fn forward_search_in_memory_lines() {
    let data = b"one\ntwo\n";
    let mut e = indexed(data);
    e.apply_edit(1, 0, "needle here\n");
    assert_eq!(e.search_forward(b"needle", 0, 10), Some(1));
    assert_eq!(e.search_forward(b"two", 0, 10), Some(2));
}

#[test]
fn backward_search_finds_the_last_line() {
    let data = b"x1\nfoo\nx2\nfoo\nx3\n";
    let mut e = indexed(data);
    assert_eq!(e.search_backward(b"foo", 4, 0), Some(3));
    assert_eq!(e.search_backward(b"foo", 2, 0), Some(1));
    assert_eq!(e.search_backward(b"foo", 0, 0), None);
    assert_eq!(e.search_backward(b"foo", 4, 4), None);
    assert_eq!(e.search_backward(b"", 4, 0), None);
}

#[test]
fn backward_search_in_memory_lines() {
    let data = b"a\nb\n";
    let mut e = indexed(data);
    e.apply_edit(2, 0, "hit 1\nmiss\nhit 2\n");
    assert_eq!(e.search_backward(b"hit", 4, 0), Some(4));
    assert_eq!(e.search_backward(b"hit", 3, 0), Some(2));
}

#[test]
fn background_search_scans_to_the_end() {
    let data = b"p\nq\nr\nneedle\ns\n";
    let mut e = indexed(data);
    e.apply_edit(1, 0, "first needle\n");
    assert_eq!(e.search_from(b"needle", 0), Some(1));
    assert_eq!(e.search_from(b"needle", 2), Some(4));
    assert_eq!(e.search_from(b"absent", 0), None);
    assert_eq!(e.search_from(b"", 0), None);
    let (idx, off) = e.find_piece_idx(4);
    assert_eq!(e.search_piece(b"needle", idx, off), Some(0));
}

#[test]
fn searches_over_mixed_lines_find_the_nearest_match() {
    let data = b"alpha\nbeta\ngamma\n";
    let mut e = indexed(data);
    e.apply_edit(1, 0, "delta");
    // alpha, delta, beta, gamma
    assert_eq!(e.search_forward(b"ta", 0, 10), Some(1));
    assert_eq!(e.search_forward(b"ta", 2, 10), Some(2));
    assert_eq!(e.search_forward(b"mm", 0, 10), Some(3));
    assert_eq!(e.search_forward(b"zz", 0, 10), None);
    assert_eq!(e.search_backward(b"ta", 3, 0), Some(2));
    assert_eq!(e.search_backward(b"ta", 1, 0), Some(1));
    assert_eq!(e.search_backward(b"alp", 3, 0), Some(0));
    assert_eq!(e.search_backward(b"mm", 2, 0), None);
}

#[test]
fn backward_search_from_past_the_end_counts_from_the_start_line() {
    // The walk starts at the last line but numbers it as the start line.
    let data = b"a\nb\nc\n";
    let mut e = indexed(data);
    assert_eq!(e.search_backward(b"a", 10, 0), Some(8));
}

#[test]
fn backward_search_reads_an_empty_file_piece_as_one_line() {
    // An edit before any line was indexed leaves an empty file piece first.
    let data = b"q\nw\n";
    let mut e = LogEngine::new(data);
    e.apply_edit(0, 0, "x");
    e.build_index_sequential(LAZY_CHUNK_SIZE);
    e.sync_pieces();
    assert_eq!(e.get_block(0, 3), "x\nq\nw\n");
    assert_eq!(e.search_forward(b"q", 0, 10), Some(1));
    assert_eq!(e.search_backward(b"q", 0, 0), Some(0));
}

#[test]
fn fixed_width_search_numbers_a_match_by_its_byte_position() {
    // Line 1 starts at byte 4091 (after the comma); a match at byte 4092 is
    // counted by width, as line 0.
    let mut data = vec![b'a'; 20000];
    data[4090] = b',';
    data[4092] = b'Z';
    let mut e = LogEngine::new(&data);
    assert!(e.is_fixed_width);
    assert_eq!(e.line_to_byte_offset(1), 4091);
    assert_eq!(e.search_forward(b"Z", 0, 10), Some(0));
}

#[test]
fn backward_search_in_an_empty_document_finds_nothing() {
    let data = b"a\n";
    let mut e = indexed(data);
    e.apply_edit(0, 1, "");
    assert_eq!(e.total_lines(), 0);
    assert!(e.pieces.is_empty());
    assert_eq!(e.search_backward(b"a", 0, 0), None);
    assert_eq!(e.search_forward(b"a", 0, 0), None);
}

#[test]
fn backward_search_from_the_largest_start_line() {
    let data = b"a\nb\nc\n";
    let mut e = indexed(data);
    assert_eq!(e.search_backward(b"c", usize::MAX, 0), Some(usize::MAX));
}

#[test]
fn backward_search_reads_an_emptied_document_through_its_empty_file_piece() {
    // The empty file piece left by an edit made before indexing outlives the
    // deletion of every line, and a backward search still reads file line 0
    // through it.
    let data = b"a\n";
    let mut e = LogEngine::new(data);
    e.apply_edit(0, 0, "x");
    e.build_index_sequential(LAZY_CHUNK_SIZE);
    e.sync_pieces();
    e.apply_edit(0, 2, "");
    assert_eq!(e.total_lines(), 0);
    assert_eq!(e.pieces.len(), 1);
    assert_eq!(e.search_backward(b"a", 0, 0), Some(0));
}

#[test]
fn edits_leave_no_empty_piece_once_lines_are_indexed() {
    let data = b"a\nb\nc\n";
    let mut e = indexed(data);
    e.apply_edit(1, 1, "x\ny\n");
    e.apply_edit(0, 2, "");
    e.apply_edit(2, 0, "z");
    assert!(e.pieces.iter().all(|p| p.line_count() > 0));
    e.apply_edit(0, 10, "");
    assert!(e.pieces.is_empty());
    assert_eq!(e.search_backward(b"a", 0, 0), None);
}
