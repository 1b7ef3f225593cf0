//! The plain data of the engine: pieces, index chunks, the index state.
use std::sync::atomic::AtomicU64;
use std::sync::atomic::Ordering;
use vstd::prelude::*;

verus! {

/// A 64-bit offset shared between threads.
pub struct AtomicOffset {
    val: AtomicU64,
}

impl AtomicOffset {
    pub fn new(v: u64) -> (r: Self) {
        AtomicOffset { val: AtomicU64::new(v) }
    }

    /// Reads the current value. Other threads may store at any time, so
    /// nothing is known of the value read.
    pub fn load(&self, order: Ordering) -> u64 {
        self.val.load(order)
    }

    pub fn store(&self, v: u64, order: Ordering) {
        self.val.store(v, order)
    }
}

/// A run of consecutive lines of the document.
/// `Original` points at lines of the read-only file, `Memory` at lines
/// held in the engine's memory buffer.
#[derive(Clone, Copy, Debug)]
pub enum Piece {
    Original { start_line: usize, line_count: usize },
    Memory { start_idx: usize, line_count: usize },
}

impl Piece {
    /// Number of lines the piece spans.
    pub open spec fn count(self) -> nat {
        match self {
            Piece::Original { line_count, .. } => line_count as nat,
            Piece::Memory { line_count, .. } => line_count as nat,
        }
    }

    pub fn line_count(&self) -> (r: usize)
        ensures
            r == self.count(),
    {
        match self {
            Piece::Original { line_count, .. } => *line_count,
            Piece::Memory { line_count, .. } => *line_count,
        }
    }
}

/// Where a chunk of the file starts, in bytes and in lines.
#[derive(Clone, Copy, Debug)]
pub struct ChunkMeta {
    pub byte_offset: u64,
    pub start_line: usize,
}

/// The sparse line index of the file.
#[derive(Clone, Debug)]
pub struct IndexState {
    pub chunks: Vec<ChunkMeta>,
    pub original_total_lines: usize,
    pub is_finished: bool,
    pub indexing_time_ms: u128,
}

} // verus!
