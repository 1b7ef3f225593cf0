use juanlog::models::{AtomicOffset, ChunkMeta, IndexState, Piece};
use std::sync::atomic::Ordering;

#[test]
fn piece_line_count_reads_either_variant() {
    let a = Piece::Original { start_line: 3, line_count: 7 };
    let b = Piece::Memory { start_idx: 1, line_count: 2 };
    assert_eq!(a.line_count(), 7);
    assert_eq!(b.line_count(), 2);
}

#[test]
fn atomic_offset_stores_and_loads() {
    let a = AtomicOffset::new(5);
    assert_eq!(a.load(Ordering::SeqCst), 5);
    a.store(1 << 40, Ordering::SeqCst);
    assert_eq!(a.load(Ordering::Relaxed), 1 << 40);
}

#[test]
fn index_state_holds_chunks() {
    let idx = IndexState {
        chunks: vec![ChunkMeta { byte_offset: 0, start_line: 0 }],
        original_total_lines: 4,
        is_finished: false,
        indexing_time_ms: 0,
    };
    assert_eq!(idx.chunks.len(), 1);
    assert_eq!(idx.chunks[0].byte_offset, 0);
}
