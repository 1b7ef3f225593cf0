//! The writes that save the document, and how many bytes they make.
use crate::engine::LogEngine;
use crate::models::Piece;
use crate::scan::NEWLINE;
use vstd::prelude::*;
use vstd::utf8::encode_utf8;

verus! {

/// One write of a save: a range of the file's bytes, a memory line, or a
/// line break.
#[derive(Clone, Copy, Debug)]
pub enum SaveSegment {
    Bytes { start: usize, end: usize },
    Line { index: usize },
    Newline,
}

impl<'a> LogEngine<'a> {
    /// The bytes that one segment writes.
    pub open spec fn segment_bytes(self, seg: SaveSegment) -> Seq<u8> {
        match seg {
            SaveSegment::Bytes { start, end } => self.data@.subrange(start as int, end as int),
            SaveSegment::Line { index } => encode_utf8(self.mem()[index as int]),
            SaveSegment::Newline => seq![NEWLINE],
        }
    }

    /// A segment that refers to the file and the memory buffer within bounds.
    pub open spec fn segment_ok(self, seg: SaveSegment) -> bool {
        match seg {
            SaveSegment::Bytes { start, end } => start <= end <= self.data@.len(),
            SaveSegment::Line { index } => index < self.memory_buffer@.len(),
            SaveSegment::Newline => true,
        }
    }

    /// The bytes that the segments write, one after the other.
    pub open spec fn plan_bytes(self, segs: Seq<SaveSegment>) -> Seq<u8>
        decreases segs.len(),
    {
        if segs.len() == 0 {
            seq![]
        } else {
            self.plan_bytes(segs.drop_last()) + self.segment_bytes(segs.last())
        }
    }

    /// Bytes saved for the fixed-width lines `from..from + n`: each line's
    /// bytes, without line breaks.
    pub open spec fn fixed_save_bytes(self, from: int, n: nat) -> Seq<u8>
        decreases n,
    {
        if n == 0 {
            seq![]
        } else {
            let k = from + n - 1;
            let a = self.offset_of(k);
            let b = self.offset_of(k + 1);
            self.fixed_save_bytes(from, (n - 1) as nat) + (if a < b {
                self.data@.subrange(a, b)
            } else {
                seq![]
            })
        }
    }

    /// Bytes saved for the memory lines `from..from + n`: each line, followed
    /// by a line break unless the file is fixed-width.
    pub open spec fn memory_save_bytes(self, from: int, n: nat) -> Seq<u8>
        decreases n,
    {
        if n == 0 {
            seq![]
        } else {
            self.memory_save_bytes(from, (n - 1) as nat) + encode_utf8(self.mem()[from + n - 1]) + (
            if self.is_fixed_width {
                seq![]
            } else {
                seq![NEWLINE]
            })
        }
    }

    /// Bytes saved for piece `p`. File lines of a file with line breaks are
    /// saved as they are, with a line break added when they end without one.
    pub open spec fn piece_save_bytes(self, p: Piece) -> Seq<u8> {
        match p {
            Piece::Original { start_line, line_count } => if self.is_fixed_width {
                self.fixed_save_bytes(start_line as int, line_count as nat)
            } else {
                let b = self.original_bytes(start_line as int, line_count as int);
                if b.len() > 0 && b.last() != NEWLINE {
                    b.push(NEWLINE)
                } else {
                    b
                }
            },
            Piece::Memory { start_idx, line_count } => self.memory_save_bytes(
                start_idx as int,
                line_count as nat,
            ),
        }
    }

    /// Bytes of the saved document: those of each piece in turn.
    pub open spec fn save_bytes(self, n: int) -> Seq<u8>
        decreases n,
    {
        if n <= 0 {
            seq![]
        } else {
            self.save_bytes(n - 1) + self.piece_save_bytes(self.pieces@[n - 1])
        }
    }

    /// The writes that save piece `piece_idx`.
    pub fn save_plan(&self, piece_idx: usize) -> (r: Vec<SaveSegment>)
        requires
            self.wf(),
            piece_idx < self.pieces@.len(),
        ensures
            self.plan_bytes(r@) == self.piece_save_bytes(self.pieces@[piece_idx as int]),
            forall|k: int| 0 <= k < r@.len() ==> #[trigger] self.segment_ok(r@[k]),
    {
        let mut plan: Vec<SaveSegment> = Vec::new();
        let piece = self.pieces[piece_idx];
        assert(self.pieces@[piece_idx as int] == piece);
        match piece {
            Piece::Original { start_line, line_count } => {
                if self.is_fixed_width {
                    let mut i: usize = 0;
                    while i < line_count
                        invariant
                            self.wf(),
                            self.is_fixed_width,
                            i <= line_count,
                            start_line + line_count <= usize::MAX,
                            self.plan_bytes(plan@) == self.fixed_save_bytes(start_line as int, i as nat),
                            forall|k: int| 0 <= k < plan@.len() ==> #[trigger] self.segment_ok(plan@[k]),
                        decreases line_count - i,
                    {
                        let l_start = self.line_to_byte_offset(start_line + i);
                        let l_end = self.line_to_byte_offset(start_line + i + 1);
                        let ghost before = plan@;
                        if l_start < l_end {
                            plan.push(SaveSegment::Bytes { start: l_start, end: l_end });
                            proof {
                                assert(plan@.drop_last() =~= before);
                                assert forall|k: int| 0 <= k < plan@.len() implies #[trigger] self.segment_ok(plan@[k]) by {
                                    if k < before.len() {
                                        assert(plan@[k] == before[k]);
                                    }
                                }
                            }
                        } else {
                            assert(self.fixed_save_bytes(start_line as int, (i + 1) as nat) =~= self.fixed_save_bytes(start_line as int, i as nat));
                        }
                        i = i + 1;
                    }
                } else {
                    let bytes = self.get_original_bytes(start_line, line_count);
                    let ghost b = bytes@;
                    let blen = bytes.len();
                    if blen > 0 {
                        let start = self.line_to_byte_offset(start_line);
                        proof {
                            assert(b == self.original_bytes(start_line as int, line_count as int));
                            assert(b =~= self.data@.subrange(start as int, start + blen));
                        }
                        plan.push(SaveSegment::Bytes { start, end: start + blen });
                        proof {
                            let e = Seq::<SaveSegment>::empty();
                            assert(plan@.drop_last() =~= e);
                            assert(self.plan_bytes(e) == Seq::<u8>::empty());
                            assert(plan@.last() == (SaveSegment::Bytes { start, end: (start + blen) as usize }));
                            assert(self.plan_bytes(plan@) =~= b);
                        }
                        if bytes[blen - 1] != NEWLINE {
                            let ghost before = plan@;
                            plan.push(SaveSegment::Newline);
                            proof {
                                assert(plan@.drop_last() =~= before);
                                assert(self.plan_bytes(plan@) =~= b.push(NEWLINE));
                            }
                        }
                    } else {
                        proof {
                            assert(self.plan_bytes(plan@) =~= b);
                        }
                    }
                }
            },
            Piece::Memory { start_idx, line_count } => {
                let mut i: usize = 0;
                while i < line_count
                    invariant
                        self.wf(),
                        i <= line_count,
                        start_idx + line_count <= self.memory_buffer@.len(),
                        self.plan_bytes(plan@) == self.memory_save_bytes(start_idx as int, i as nat),
                        forall|k: int| 0 <= k < plan@.len() ==> #[trigger] self.segment_ok(plan@[k]),
                    decreases line_count - i,
                {
                    let ghost before = plan@;
                    plan.push(SaveSegment::Line { index: start_idx + i });
                    proof {
                        assert(plan@.drop_last() =~= before);
                        assert(plan@.last() == (SaveSegment::Line { index: (start_idx + i) as usize }));
                        assert(self.plan_bytes(plan@) == self.plan_bytes(before) + encode_utf8(self.mem()[start_idx + i]));
                    }
                    if !self.is_fixed_width {
                        let ghost mid = plan@;
                        plan.push(SaveSegment::Newline);
                        proof {
                            assert(plan@.drop_last() =~= mid);
                            assert(plan@.last() == SaveSegment::Newline);
                            assert(self.plan_bytes(plan@) == self.plan_bytes(mid) + seq![NEWLINE]);
                        }
                    }
                    proof {
                        assert(self.plan_bytes(plan@) =~= self.memory_save_bytes(start_idx as int, (i + 1) as nat));
                        assert forall|k: int| 0 <= k < plan@.len() implies #[trigger] self.segment_ok(plan@[k]) by {
                            if k < before.len() {
                                assert(plan@[k] == before[k]);
                            }
                        }
                    }
                    i = i + 1;
                }
            },
        }
        plan
    }

    /// Bytes counted for the memory lines `from..from + n`: each line's
    /// length, plus one for its line break unless the file is fixed-width.
    pub open spec fn memory_byte_count(self, from: int, n: nat) -> int
        decreases n,
    {
        if n == 0 {
            0
        } else {
            self.memory_byte_count(from, (n - 1) as nat) + encode_utf8(self.mem()[from + n - 1]).len()
                + (if self.is_fixed_width {
                0int
            } else {
                1int
            })
        }
    }

    /// Bytes counted for piece `p` when reporting save progress: for file
    /// lines, the distance from the start of the first to the start of the
    /// line after the piece (0 when reversed).
    pub open spec fn piece_byte_count(self, p: Piece) -> int {
        match p {
            Piece::Original { start_line, line_count } => {
                let a = self.offset_of(start_line as int);
                let b = self.offset_of(start_line + line_count);
                if b > a {
                    b - a
                } else {
                    0
                }
            },
            Piece::Memory { start_idx, line_count } => self.memory_byte_count(
                start_idx as int,
                line_count as nat,
            ),
        }
    }

    /// Bytes counted for the first `n` pieces.
    pub open spec fn save_byte_count(self, n: int) -> int
        decreases n,
    {
        if n <= 0 {
            0
        } else {
            self.save_byte_count(n - 1) + self.piece_byte_count(self.pieces@[n - 1])
        }
    }

    /// The size a save is expected to write, for progress reports; capped at
    /// `usize::MAX`.
    pub fn save_total_bytes(&self) -> (r: usize)
        requires
            self.wf(),
        ensures
            r == (if self.save_byte_count(self.pieces@.len() as int) < usize::MAX {
                self.save_byte_count(self.pieces@.len() as int)
            } else {
                usize::MAX as int
            }),
    {
        let mut total: usize = 0;
        let mut p: usize = 0;
        while p < self.pieces.len()
            invariant
                self.wf(),
                p <= self.pieces@.len(),
                total == (if self.save_byte_count(p as int) < usize::MAX {
                    self.save_byte_count(p as int)
                } else {
                    usize::MAX as int
                }),
                self.save_byte_count(p as int) >= 0,
            decreases self.pieces@.len() - p,
        {
            let piece = self.pieces[p];
            assert(self.pieces@[p as int] == piece);
            match piece {
                Piece::Original { start_line, line_count } => {
                    let start = self.line_to_byte_offset(start_line);
                    let end = self.line_to_byte_offset(start_line + line_count);
                    total = total.saturating_add(end.saturating_sub(start));
                },
                Piece::Memory { start_idx, line_count } => {
                    let ghost t0 = self.save_byte_count(p as int);
                    let mut i: usize = 0;
                    while i < line_count
                        invariant
                            self.wf(),
                            i <= line_count,
                            start_idx + line_count <= self.memory_buffer@.len(),
                            t0 >= 0,
                            self.memory_byte_count(start_idx as int, i as nat) >= 0,
                            total == (if t0 + self.memory_byte_count(start_idx as int, i as nat) < usize::MAX {
                                t0 + self.memory_byte_count(start_idx as int, i as nat)
                            } else {
                                usize::MAX as int
                            }),
                        decreases line_count - i,
                    {
                        let line_len = self.memory_buffer[start_idx + i].as_str().as_bytes().len();
                        assert(self.mem()[start_idx + i] == self.memory_buffer@[start_idx + i]@);
                        total = total.saturating_add(line_len);
                        if !self.is_fixed_width {
                            total = total.saturating_add(1);
                        }
                        i = i + 1;
                    }
                },
            }
            p = p + 1;
        }
        total
    }
}

} // verus!
