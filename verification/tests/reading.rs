use juanlog::engine::LogEngine;
use juanlog::indexing::LAZY_CHUNK_SIZE;

fn indexed(data: &[u8]) -> LogEngine<'_> {
    let mut e = LogEngine::new(data);
    if !e.is_fixed_width {
        e.build_index_sequential(LAZY_CHUNK_SIZE);
    }
    e.sync_pieces();
    e
}

#[test]
fn block_of_file_lines() {
    let data = b"l0\nl1\nl2\nl3\n";
    let mut e = indexed(data);
    assert_eq!(e.get_block(1, 2), "l1\nl2\n");
    assert_eq!(e.get_block(3, 10), "l3\n");
    assert_eq!(e.get_block(4, 1), "");
    assert_eq!(e.get_block(0, 0), "");
}

#[test]
fn block_adds_missing_final_newline() {
    let data = b"x\ny";
    let mut e = indexed(data);
    assert_eq!(e.get_block(0, 2), "x\ny\n");
}

#[test]
fn block_replaces_invalid_utf8() {
    let data = b"ok\n\xff\xfe\n";
    let mut e = indexed(data);
    assert_eq!(e.get_block(1, 1), "\u{FFFD}\u{FFFD}\n");
}

#[test]
fn fixed_width_files_are_cut_in_lines() {
    let data = vec![b'a'; 20000];
    let mut e = LogEngine::new(&data);
    assert!(e.is_fixed_width);
    assert_eq!(e.index.original_total_lines, 5);
    assert_eq!(e.total_lines(), 5);
    let block = e.get_block(0, 2);
    assert_eq!(block.len(), 4096 * 2 + 2);
    let last = e.get_block(4, 1);
    assert_eq!(last.len(), 20000 - 4 * 4096 + 1);
}

#[test]
fn fixed_width_cuts_prefer_delimiters() {
    let mut data = vec![b'a'; 20000];
    data[4090] = b',';
    let e = indexed(&data);
    assert!(e.is_fixed_width);
    assert_eq!(e.line_to_byte_offset(1), 4091);
    assert_eq!(e.line_to_byte_offset(0), 0);
    assert_eq!(e.line_to_byte_offset(9), 20000);
}

#[test]
fn eof_block_reads_the_tail() {
    let data = b"a\nb\nc\nd\n";
    let mut e = indexed(data);
    assert_eq!(e.get_eof_block(2), "c\nd\n");
    assert_eq!(e.get_eof_block(10), "a\nb\nc\nd\n");
    assert_eq!(e.get_eof_block(0), "");
    let data2 = b"a\nb\nc";
    let mut e2 = indexed(data2);
    assert_eq!(e2.get_eof_block(1), "b\nc\n");
    let empty = b"";
    let mut e3 = indexed(empty);
    assert_eq!(e3.get_eof_block(3), "");
}

#[test]
fn eof_block_of_fixed_width_file() {
    let data = vec![b'q'; 25000];
    let mut e = LogEngine::new(&data);
    assert!(e.is_fixed_width);
    let tail = e.get_eof_block(1);
    assert_eq!(tail.len(), 25000 - 6 * 4096 + 1);
}

#[test]
fn line_offsets_follow_newlines() {
    let data = b"ab\ncd\r\nef\n\ngh";
    let e = indexed(data);
    assert_eq!(e.line_to_byte_offset(0), 0);
    assert_eq!(e.line_to_byte_offset(1), 3);
    assert_eq!(e.line_to_byte_offset(2), 7);
    assert_eq!(e.line_to_byte_offset(3), 10);
    assert_eq!(e.line_to_byte_offset(4), 11);
    assert_eq!(e.line_to_byte_offset(5), data.len());
}

#[test]
fn original_bytes_are_whole_lines() {
    let data = b"one\ntwo\r\nthree\nfour";
    let e = indexed(data);
    assert_eq!(e.get_original_bytes(1, 2), b"two\r\nthree\n");
    assert_eq!(e.get_original_bytes(0, 1), b"one\n");
    assert_eq!(e.get_original_bytes(3, 1), b"four");
}

#[test]
fn small_chunks_find_the_same_line_starts() {
    let data = b"aa\nbb\ncc\ndd";
    let mut e = LogEngine::new(data);
    e.build_index_sequential(6);
    e.sync_pieces();
    // chunks begin at bytes 0 and 6, both line starts.
    assert_eq!(e.line_to_byte_offset(0), 0);
    assert_eq!(e.line_to_byte_offset(1), 3);
    assert_eq!(e.line_to_byte_offset(2), 6);
    assert_eq!(e.line_to_byte_offset(3), 9);
    assert_eq!(e.get_original_bytes(1, 2), b"bb\ncc\n");
}

#[test]
fn chunk_starting_inside_a_line_takes_that_line() {
    // Chunks of 2 bytes begin at 0, 2 and 4, all before the first newline,
    // so all claim line 0 and the last of them is used for it.
    let data = b"aaaaa\nb\n";
    let mut e = LogEngine::new(data);
    e.build_index_sequential(2);
    e.sync_pieces();
    assert_eq!(e.line_to_byte_offset(0), 4);
    assert_eq!(e.line_to_byte_offset(1), 6);
}
