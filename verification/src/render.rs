//! Reading blocks of lines as text.
use crate::document::{lemma_doc_at, prefix};
use crate::engine::{file_run, synced_pieces, LogEngine};
use crate::index::calc_offset;
use crate::models::Piece;
use crate::outside::{lossy_string, utf8_lossy};
use crate::scan::NEWLINE;
use crate::text::{lacks_final_newline, lacks_newline_at_end};
use vstd::prelude::*;
use vstd::string::StringExecFns;

verus! {

/// `s` ended with a line break, unless it is empty or already ends with one.
pub open spec fn terminated(s: Seq<char>) -> Seq<char> {
    if lacks_final_newline(s) {
        s.push('\n')
    } else {
        s
    }
}

/// Piece `i` holds document line `line`.
pub open spec fn holds_line(ps: Seq<Piece>, line: int, i: int) -> bool {
    0 <= i < ps.len() && prefix(ps, i) <= line < prefix(ps, i + 1)
}

/// Lines spanned by the first pieces never decrease as pieces are added.
pub proof fn lemma_prefix_mono(ps: Seq<Piece>, i: int, j: int)
    requires
        0 <= i <= j <= ps.len(),
    ensures
        prefix(ps, i) <= prefix(ps, j),
    decreases j - i,
{
    if i < j {
        lemma_prefix_mono(ps, i, j - 1);
        lemma_doc_at(ps, j - 1, seq![]);
    }
}

/// Only one piece holds a given line.
pub proof fn lemma_holds_line_unique(ps: Seq<Piece>, line: int, i: int, j: int)
    requires
        holds_line(ps, line, i),
        holds_line(ps, line, j),
    ensures
        i == j,
{
    if i < j {
        lemma_prefix_mono(ps, i + 1, j);
    }
    if j < i {
        lemma_prefix_mono(ps, j + 1, i);
    }
}

impl<'a> LogEngine<'a> {
    /// The file bytes from the start of line `from` to the start of line
    /// `to`; empty when the second comes first.
    pub open spec fn span_bytes(self, from: int, to: int) -> Seq<u8> {
        let a = self.offset_of(from);
        let b = self.offset_of(to);
        if a <= b {
            self.data@.subrange(a, b)
        } else {
            Seq::<u8>::empty()
        }
    }

    /// Text of the `n` fixed-width lines from `from` on: each line's bytes,
    /// when it has any, then a line break.
    pub open spec fn fixed_text(self, from: int, n: nat) -> Seq<char>
        decreases n,
    {
        if n == 0 {
            seq![]
        } else {
            let k = from + n - 1;
            let a = self.offset_of(k);
            let b = self.offset_of(k + 1);
            self.fixed_text(from, (n - 1) as nat) + (if a < b {
                utf8_lossy(self.data@.subrange(a, b))
            } else {
                seq![]
            }) + seq!['\n']
        }
    }

    /// Text of the `n` memory lines from `start` on, each followed by a line break.
    pub open spec fn memory_text(self, start: int, n: nat) -> Seq<char>
        decreases n,
    {
        if n == 0 {
            seq![]
        } else {
            self.memory_text(start, (n - 1) as nat) + self.mem()[start + n - 1] + seq!['\n']
        }
    }

    /// Text of `take` lines of piece `p` from its line `off` on.
    pub open spec fn segment_text(self, p: Piece, off: int, take: nat) -> Seq<char> {
        if take == 0 {
            seq![]
        } else {
            match p {
            Piece::Memory { start_idx, .. } => self.memory_text(start_idx + off, take),
            Piece::Original { start_line, .. } => if self.is_fixed_width {
                self.fixed_text(start_line + off, take)
            } else {
                terminated(utf8_lossy(self.span_bytes(start_line + off, start_line + off + take)))
            },
            }
        }
    }

    /// Text of `want` lines, from line `off` of piece `idx` on, across pieces.
    pub open spec fn render_from(self, idx: int, off: int, want: nat) -> Seq<char>
        decreases self.pieces@.len() - idx,
    {
        if want == 0 || idx < 0 || idx >= self.pieces@.len() {
            seq![]
        } else {
            let count = self.pieces@[idx].count() - off;
            let take = if count < want { count } else { want as int };
            self.segment_text(self.pieces@[idx], off, take as nat) + self.render_from(
                idx + 1,
                0,
                (want - take) as nat,
            )
        }
    }

    /// Text of `n` document lines from `start` on; empty when `n` is 0 or
    /// `start` is past the end.
    pub open spec fn block_text(self, start: int, n: nat) -> Seq<char> {
        if n == 0 || start >= self.line_total() {
            seq![]
        } else {
            let i = choose|i: int| holds_line(self.pieces@, start, i);
            self.render_from(i, start - prefix(self.pieces@, i), n)
        }
    }

    /// The bytes of `line_count` file lines from `start_line` on: from the
    /// start of the first to the start of the one after the last, clipped to
    /// the file; empty when there are none.
    pub open spec fn original_bytes(self, start_line: int, line_count: int) -> Seq<u8> {
        let len = self.data@.len() as int;
        let a = self.offset_of(start_line);
        let b0 = self.offset_of(start_line + line_count);
        let b = if b0 < len { b0 } else { len };
        if line_count == 0 || a >= len || a > b {
            Seq::<u8>::empty()
        } else {
            self.data@.subrange(a, b)
        }
    }

    /// Byte offset at which file line `line` starts.
    pub fn line_to_byte_offset(&self, line: usize) -> (r: usize)
        requires
            self.wf(),
        ensures
            r == self.offset_of(line as int),
            r <= self.data@.len(),
    {
        calc_offset(
            &self.index,
            self.bytes_processed,
            self.data,
            line,
            self.is_fixed_width,
            self.fixed_width_size,
        )
    }

    /// The file bytes of `line_count` lines from `start_line` on.
    pub fn get_original_bytes(&self, start_line: usize, line_count: usize) -> (r: &[u8])
        requires
            self.wf(),
            start_line + line_count <= usize::MAX,
        ensures
            r@ == self.original_bytes(start_line as int, line_count as int),
            r@.len() <= self.data@.len(),
    {
        if line_count == 0 {
            return &self.data[0..0];
        }
        let start = self.line_to_byte_offset(start_line);
        let end = self.line_to_byte_offset(start_line + line_count);
        if start >= self.data.len() {
            return &self.data[0..0];
        }
        let end = if end < self.data.len() {
            end
        } else {
            self.data.len()
        };
        if start > end {
            return &self.data[0..0];
        }
        &self.data[start..end]
    }

    /// Appends the `take` memory lines from `first` on, each with a line break.
    fn push_memory_lines(&self, block: &mut String, first: usize, take: usize)
        requires
            self.wf(),
            first + take <= self.memory_buffer@.len(),
        ensures
            final(block)@ == old(block)@ + self.memory_text(first as int, take as nat),
    {
        let mut i: usize = 0;
        while i < take
            invariant
                self.wf(),
                i <= take,
                first + take <= self.memory_buffer@.len(),
                block@ == old(block)@ + self.memory_text(first as int, i as nat),
            decreases take - i,
        {
            proof {
                reveal_strlit("\n");
            }
            let ghost before = block@;
            block.append(self.memory_buffer[first + i].as_str());
            block.append("\n");
            proof {
                assert(self.mem()[first + i] == self.memory_buffer@[first + i]@);
                assert(block@ =~= before + self.mem()[first + i] + seq!['\n']);
                assert(self.memory_text(first as int, (i + 1) as nat) == self.memory_text(
                    first as int,
                    i as nat,
                ) + self.mem()[first + i] + seq!['\n']);
            }
            i = i + 1;
        }
    }

    /// Appends the `take` fixed-width lines from `first` on, each with a line break.
    fn push_fixed_lines(&self, block: &mut String, first: usize, take: usize)
        requires
            self.wf(),
            self.is_fixed_width,
            first + take <= usize::MAX,
        ensures
            final(block)@ == old(block)@ + self.fixed_text(first as int, take as nat),
    {
        let mut current = self.line_to_byte_offset(first);
        let mut i: usize = 0;
        while i < take
            invariant
                self.wf(),
                self.is_fixed_width,
                i <= take,
                first + take <= usize::MAX,
                current == self.offset_of(first + i),
                current <= self.data@.len(),
                block@ == old(block)@ + self.fixed_text(first as int, i as nat),
            decreases take - i,
        {
            proof {
                reveal_strlit("\n");
            }
            let ghost before = block@;
            let next = self.line_to_byte_offset(first + i + 1);
            let ghost piece_text = if current < next {
                utf8_lossy(self.data@.subrange(current as int, next as int))
            } else {
                Seq::<char>::empty()
            };
            if current < next {
                let s = lossy_string(&self.data[current..next]);
                block.append(s.as_str());
            }
            block.append("\n");
            proof {
                assert(block@ =~= before + piece_text + seq!['\n']);
                assert(self.fixed_text(first as int, (i + 1) as nat) == self.fixed_text(
                    first as int,
                    i as nat,
                ) + piece_text + seq!['\n']);
            }
            current = next;
            i = i + 1;
        }
    }

    /// Appends the file lines `from..to` as one decoded span, ended with a
    /// line break when it lacks one.
    fn push_file_span(&self, block: &mut String, from: usize, to: usize)
        requires
            self.wf(),
        ensures
            final(block)@ == old(block)@ + terminated(utf8_lossy(self.span_bytes(from as int, to as int))),
    {
        proof {
            reveal_strlit("\n");
        }
        let start_byte = self.line_to_byte_offset(from);
        let end_byte = self.line_to_byte_offset(to);
        let bytes = if start_byte <= end_byte {
            &self.data[start_byte..end_byte]
        } else {
            &self.data[0..0]
        };
        assert(bytes@ =~= self.span_bytes(from as int, to as int));
        let s = lossy_string(bytes);
        let ghost before = block@;
        block.append(s.as_str());
        if lacks_newline_at_end(&s) {
            block.append("\n");
            assert(block@ =~= before + s@.push('\n'));
        }
    }

    /// Appends the text of `take` lines of piece `idx`, from its line `off` on.
    fn push_segment(&self, block: &mut String, idx: usize, off: usize, take: usize)
        requires
            self.wf(),
            idx < self.pieces@.len(),
            off + take <= self.pieces@[idx as int].count(),
        ensures
            final(block)@ == old(block)@ + self.segment_text(self.pieces@[idx as int], off as int, take as nat),
    {
        if take == 0 {
            assert(old(block)@ + Seq::<char>::empty() =~= old(block)@);
            return;
        }
        let piece = self.pieces[idx];
        match piece {
            Piece::Memory { start_idx, .. } => {
                assert(self.pieces@[idx as int] == piece);
                self.push_memory_lines(block, start_idx + off, take);
            },
            Piece::Original { start_line, .. } => {
                assert(self.pieces@[idx as int] == piece);
                if self.is_fixed_width {
                    self.push_fixed_lines(block, start_line + off, take);
                } else {
                    self.push_file_span(block, start_line + off, start_line + off + take);
                }
            },
        }
    }

    /// Text of `num_lines` document lines from `start_line` on, after taking
    /// in newly indexed file lines. Memory lines each end with a line break;
    /// file lines come as their bytes, decoded lossily, ended with a line
    /// break when they lack one.
    pub fn get_block(&mut self, start_line: usize, num_lines: usize) -> (r: String)
        requires
            old(self).wf(),
        ensures
            final(self).wf(),
            final(self).same_but_pieces(*old(self)),
            final(self).indexed_lines_added == old(self).index.original_total_lines,
            final(self).pieces@ == synced_pieces(
                old(self).pieces@,
                old(self).indexed_lines_added as int,
                old(self).index.original_total_lines as int,
            ),
            final(self).doc() == old(self).doc() + file_run(
                old(self).indexed_lines_added as int,
                old(self).index.original_total_lines - old(self).indexed_lines_added,
            ),
            r@ == final(self).block_text(start_line as int, num_lines as nat),
    {
        self.sync_pieces();
        let mut block = String::new();
        if num_lines == 0 || start_line >= self.total_lines() {
            return block;
        }
        let (mut piece_idx, mut offset) = self.find_piece_idx(start_line);
        let ghost i0 = piece_idx as int;
        let ghost off0 = offset as int;
        proof {
            let c = choose|i: int| holds_line(self.pieces@, start_line as int, i);
            assert(holds_line(self.pieces@, start_line as int, i0));
            lemma_holds_line_unique(self.pieces@, start_line as int, c, i0);
            lemma_doc_at(self.pieces@, i0, self.mem());
        }
        let mut collected: usize = 0;
        while collected < num_lines && piece_idx < self.pieces.len()
            invariant
                self.wf(),
                collected <= num_lines,
                piece_idx <= self.pieces@.len(),
                piece_idx < self.pieces@.len() ==> offset <= self.pieces@[piece_idx as int].count(),
                block@ + self.render_from(piece_idx as int, offset as int, (num_lines - collected) as nat)
                    == self.render_from(i0, off0, num_lines as nat),
            decreases self.pieces@.len() - piece_idx,
        {
            let piece = self.pieces[piece_idx];
            let count = piece.line_count() - offset;
            let want = num_lines - collected;
            let take = if count < want {
                count
            } else {
                want
            };
            let ghost before = block@;
            self.push_segment(&mut block, piece_idx, offset, take);
            proof {
                assert(block@ + self.render_from(piece_idx + 1, 0, (want - take) as nat) =~= before
                    + self.render_from(piece_idx as int, offset as int, want as nat));
            }
            collected = collected + take;
            offset = 0;
            piece_idx = piece_idx + 1;
        }
        proof {
            assert(block@ =~= block@ + self.render_from(piece_idx as int, offset as int, (num_lines - collected) as nat));
        }
        block
    }

    /// Text of the last `n` lines of the file: in fixed-width files the last
    /// `n` fixed-width lines the pieces count; otherwise the bytes after the
    /// `(n + 1)`-th `\n` from the end (all of them when there are fewer),
    /// decoded lossily and ended with a line break when they lack one.
    pub open spec fn eof_text(self, n: nat) -> Seq<char> {
        let len = self.data@.len() as int;
        if len == 0 || n == 0 {
            seq![]
        } else if self.is_fixed_width {
            let total = self.line_total() as int;
            let first = if total > n { total - n } else { 0 };
            self.fixed_text(first, n)
        } else {
            terminated(utf8_lossy(self.data@.subrange(eof_start(self.data@, len, 0, n), len)))
        }
    }

    /// Reads the last `num_lines` lines of the file straight from its bytes,
    /// without the index or the edits.
    pub fn get_eof_block(&mut self, num_lines: usize) -> (r: String)
        requires
            old(self).wf(),
        ensures
            *final(self) == *old(self),
            r@ == old(self).eof_text(num_lines as nat),
    {
        let mut block = String::new();
        if self.data.len() == 0 || num_lines == 0 {
            return block;
        }
        if self.is_fixed_width {
            let total = self.total_lines();
            let start_line = total.saturating_sub(num_lines);
            self.push_fixed_lines(&mut block, start_line, num_lines);
            proof {
                assert(block@ =~= self.eof_text(num_lines as nat));
            }
            return block;
        }
        let len = self.data.len();
        let mut found: usize = 0;
        let mut start_byte: usize = 0;
        let mut done = false;
        let mut i = len;
        let ghost target = eof_start(self.data@, len as int, 0, num_lines as nat);
        while i > 0 && !done
            invariant
                i <= len,
                len == self.data@.len(),
                found <= len - i,
                !done ==> found <= num_lines,
                !done ==> start_byte == 0,
                !done ==> eof_start(self.data@, i as int, found as nat, num_lines as nat) == target,
                done ==> start_byte == target,
                start_byte <= len,
            decreases i,
        {
            i = i - 1;
            if self.data[i] == NEWLINE {
                found = found + 1;
                if found > num_lines {
                    start_byte = i + 1;
                    done = true;
                }
            }
        }
        proof {
            if !done {
                assert(eof_start(self.data@, 0, found as nat, num_lines as nat) == 0);
            }
        }
        let s = lossy_string(&self.data[start_byte..len]);
        block.append(s.as_str());
        if lacks_newline_at_end(&s) {
            proof {
                reveal_strlit("\n");
            }
            block.append("\n");
        }
        proof {
            assert(self.data@.subrange(start_byte as int, len as int) == self.data@.subrange(target, self.data@.len() as int));
            assert(block@ =~= terminated(s@));
        }
        block
    }
}

/// Where the text of the last `n` lines starts, scanning back from `i` having
/// seen `found` newlines: just after the `(n + 1)`-th newline from the end,
/// or at 0.
pub open spec fn eof_start(s: Seq<u8>, i: int, found: nat, n: nat) -> int
    decreases i,
{
    if i <= 0 {
        0
    } else if s[i - 1] == NEWLINE && found + 1 > n {
        i
    } else {
        eof_start(s, i - 1, found + (if s[i - 1] == NEWLINE { 1nat } else { 0nat }), n)
    }
}

} // verus!
