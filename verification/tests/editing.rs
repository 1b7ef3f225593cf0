use juanlog::engine::LogEngine;
use juanlog::indexing::LAZY_CHUNK_SIZE;
use juanlog::models::Piece;

fn indexed(data: &[u8]) -> LogEngine<'_> {
    let mut e = LogEngine::new(data);
    e.build_index_sequential(LAZY_CHUNK_SIZE);
    e.sync_pieces();
    e
}

#[test]
fn inserted_lines_read_back() {
    let data = b"a\nb\nc\n";
    let mut e = indexed(data);
    e.apply_edit(1, 0, "x\ny\n");
    assert_eq!(e.total_lines(), 5);
    assert_eq!(e.get_block(1, 2), "x\ny\n");
    assert_eq!(e.get_block(0, 5), "a\nx\ny\nb\nc\n");
}

#[test]
fn deleting_lines_drops_them() {
    let data = b"a\nb\nc\nd\n";
    let mut e = indexed(data);
    e.apply_edit(1, 2, "");
    assert_eq!(e.total_lines(), 2);
    assert_eq!(e.get_block(0, 10), "a\nd\n");
    assert_eq!(e.wasted_memory_lines, 0);
}

#[test]
fn replacing_a_line() {
    let data = b"a\nb\nc\n";
    let mut e = indexed(data);
    e.apply_edit(1, 1, "B");
    assert_eq!(e.get_block(0, 3), "a\nB\nc\n");
    e.apply_edit(1, 1, "BB");
    assert_eq!(e.get_block(0, 3), "a\nBB\nc\n");
    // the replaced memory line is no longer referenced
    assert_eq!(e.wasted_memory_lines, 1);
    assert_eq!(e.memory_buffer.len(), 2);
}

#[test]
fn edits_past_the_end_append() {
    let data = b"a\n";
    let mut e = indexed(data);
    e.apply_edit(10, 3, "z");
    assert_eq!(e.total_lines(), 2);
    assert_eq!(e.get_block(0, 5), "a\nz\n");
}

#[test]
fn deleting_more_than_remains_stops_at_the_end() {
    let data = b"a\nb\nc\n";
    let mut e = indexed(data);
    e.apply_edit(1, 100, "");
    assert_eq!(e.total_lines(), 1);
    assert_eq!(e.get_block(0, 3), "a\n");
}

#[test]
fn deleting_inside_a_memory_piece_counts_waste() {
    let data = b"";
    let mut e = indexed(data);
    e.apply_edit(0, 0, "1\n2\n3\n4\n");
    e.apply_edit(1, 2, "");
    assert_eq!(e.get_block(0, 4), "1\n4\n");
    assert_eq!(e.wasted_memory_lines, 2);
}

#[test]
fn compaction_keeps_the_document() {
    let data = b"a\nb\n";
    let mut e = indexed(data);
    e.apply_edit(1, 0, "m1\nm2\nm3\n");
    e.apply_edit(2, 1, "");
    e.apply_edit(0, 0, "top\n");
    let before = e.get_block(0, 100);
    e.compact_memory();
    assert_eq!(e.wasted_memory_lines, 0);
    assert_eq!(e.memory_buffer.len(), 3);
    assert_eq!(e.get_block(0, 100), before);
    assert_eq!(before, "top\na\nm1\nm3\nb\n");
}

#[test]
fn many_edits_trigger_compaction() {
    let data = b"x\n";
    let mut e = indexed(data);
    for _ in 0..10_002 {
        e.apply_edit(0, 1, "y");
    }
    assert!(e.wasted_memory_lines <= 10_000);
    assert!(e.memory_buffer.len() <= 10_001);
    assert_eq!(e.get_block(0, 5), "y\n");
}

#[test]
fn edits_take_in_new_index_lines_first() {
    let data = b"a\nb\nc\nd\n";
    let mut e = LogEngine::new(data);
    assert!(e.index_step(4));
    e.apply_edit(0, 1, "A");
    assert_eq!(e.indexed_lines_added, 2);
    assert_eq!(e.get_block(0, 10), "A\nb\n");
    e.build_index_sequential(4);
    assert_eq!(e.get_block(0, 10), "A\nb\nc\nd\n");
}

#[test]
fn piece_structure_after_an_insert() {
    let data = b"a\nb\n";
    let mut e = indexed(data);
    e.apply_edit(1, 0, "new");
    assert_eq!(e.pieces.len(), 3);
    match e.pieces[1] {
        Piece::Memory { start_idx, line_count } => {
            assert_eq!(start_idx, 0);
            assert_eq!(line_count, 1);
        }
        _ => panic!("expected a memory piece"),
    }
}

#[test]
fn deleting_inserted_lines_restores_the_document() {
    let data = b"a\nb\nc\n";
    let mut e = indexed(data);
    e.apply_edit(1, 0, "x\ny");
    assert_eq!(e.get_block(0, 10), "a\nx\ny\nb\nc\n");
    e.apply_edit(1, 2, "");
    assert_eq!(e.get_block(0, 10), "a\nb\nc\n");
    e.apply_edit(7, 0, "tail");
    assert_eq!(e.get_block(0, 10), "a\nb\nc\ntail\n");
    e.apply_edit(3, 1, "");
    assert_eq!(e.get_block(0, 10), "a\nb\nc\n");
}

#[test]
fn compaction_runs_once_unused_lines_pass_the_threshold() {
    let data = b"a\n";
    let mut e = indexed(data);
    let text = "x\n".repeat(10_001);
    e.apply_edit(0, 0, &text);
    assert_eq!(e.memory_buffer.len(), 10_001);
    e.apply_edit(0, 10_000, "");
    assert_eq!(e.wasted_memory_lines, 10_000);
    assert_eq!(e.memory_buffer.len(), 10_001);
    e.apply_edit(0, 1, "z");
    assert_eq!(e.wasted_memory_lines, 0);
    assert_eq!(e.memory_buffer.len(), 1);
    assert_eq!(e.get_block(0, 5), "z\na\n");
}

#[test]
fn edit_appends_its_lines_to_the_memory_buffer() {
    let data = b"a\nb\nc\n";
    let mut e = indexed(data);
    e.apply_edit(1, 1, "X\nY\n");
    assert_eq!(e.total_lines(), 4);
    assert_eq!(e.memory_buffer, vec!["X".to_string(), "Y".to_string()]);
    assert_eq!(e.get_block(0, 10), "a\nX\nY\nc\n");
    e.apply_edit(0, 0, "Z");
    assert_eq!(e.memory_buffer, vec!["X".to_string(), "Y".to_string(), "Z".to_string()]);
}
