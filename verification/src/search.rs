//! Forward, backward and resumable searches over the document.
use crate::document::{lemma_doc_at, lemma_nonempty_of_empty_doc, pieces_nonempty, prefix};
use crate::engine::{file_run, synced_pieces, LogEngine};
use crate::models::Piece;
use crate::outside::{memmem_find, memmem_rfind, occurs_at};
use crate::render::{holds_line, lemma_holds_line_unique};
use crate::scan::{count_newlines, count_nl, lemma_count_byte_bound, NEWLINE};
use vstd::prelude::*;
use vstd::utf8::encode_utf8;

verus! {

/// Where `q` first occurs in `h`, if it does.
pub open spec fn first_occurrence(h: Seq<u8>, q: Seq<u8>) -> Option<int> {
    if exists|k: int| occurs_at(h, q, k) {
        Some(
            choose|k: int|
                occurs_at(h, q, k) && forall|j: int| 0 <= j < k ==> !#[trigger] occurs_at(h, q, j),
        )
    } else {
        None
    }
}

/// Where `q` last occurs in `h`, if it does.
pub open spec fn last_occurrence(h: Seq<u8>, q: Seq<u8>) -> Option<int> {
    if exists|k: int| occurs_at(h, q, k) {
        Some(choose|k: int| occurs_at(h, q, k) && forall|j: int| k < j ==> !#[trigger] occurs_at(h, q, j))
    } else {
        None
    }
}

/// A line number as a `usize` addition gives it when it may wrap around:
/// past `usize::MAX` it starts again from 0.
pub open spec fn wrap_line(l: int) -> usize {
    if l > usize::MAX {
        (l - usize::MAX - 1) as usize
    } else {
        l as usize
    }
}

/// The UTF-8 bytes of `line` hold `q`.
pub open spec fn line_has(line: Seq<char>, q: Seq<u8>) -> bool {
    exists|k: int| occurs_at(encode_utf8(line), q, k)
}

proof fn lemma_first_occurrence(h: Seq<u8>, q: Seq<u8>, r: Option<usize>)
    requires
        match r {
            Some(i) => occurs_at(h, q, i as int) && forall|k: int|
                0 <= k < i ==> !#[trigger] occurs_at(h, q, k),
            None => forall|k: int| !#[trigger] occurs_at(h, q, k),
        },
    ensures
        match r {
            Some(i) => first_occurrence(h, q) == Some(i as int),
            None => first_occurrence(h, q) is None,
        },
{
    if let Some(i) = r {
        let c = choose|k: int|
            occurs_at(h, q, k) && forall|j: int| 0 <= j < k ==> !#[trigger] occurs_at(h, q, j);
        assert(occurs_at(h, q, i as int));
        if c < i {
            assert(!occurs_at(h, q, c));
        }
        if c > i {
            assert(!occurs_at(h, q, i as int));
        }
    }
}

proof fn lemma_last_occurrence(h: Seq<u8>, q: Seq<u8>, r: Option<usize>)
    requires
        match r {
            Some(i) => occurs_at(h, q, i as int) && forall|k: int| i < k ==> !#[trigger] occurs_at(h, q, k),
            None => forall|k: int| !#[trigger] occurs_at(h, q, k),
        },
    ensures
        match r {
            Some(i) => last_occurrence(h, q) == Some(i as int),
            None => last_occurrence(h, q) is None,
        },
{
    if let Some(i) = r {
        let c = choose|k: int| occurs_at(h, q, k) && forall|j: int| k < j ==> !#[trigger] occurs_at(h, q, j);
        assert(occurs_at(h, q, i as int));
        if c < i {
            assert(!occurs_at(h, q, i as int));
        }
        if c > i {
            assert(!occurs_at(h, q, c));
        }
    }
}

impl<'a> LogEngine<'a> {
    /// The piece and offset within it of document line `line`; the end of
    /// the pieces when the line is past the end of the document.
    pub open spec fn position(self, line: int) -> (int, int) {
        if 0 <= line < self.line_total() {
            let i = choose|i: int| holds_line(self.pieces@, line, i);
            (i, line - prefix(self.pieces@, i))
        } else {
            (self.pieces@.len() as int, 0)
        }
    }

    /// Lines before byte `pos` of a span of file lines: fixed-width lines
    /// are counted by width, others by `\n` bytes.
    pub open spec fn lines_before(self, bytes: Seq<u8>, pos: int) -> int {
        if self.is_fixed_width {
            pos / (self.fixed_width_size as int)
        } else {
            count_nl(bytes.subrange(0, pos)) as int
        }
    }

    /// The first `i` in `from_i..n` whose memory line `from + i` holds `q`.
    pub open spec fn first_line_with(self, from: int, i: int, n: int, q: Seq<u8>) -> Option<int>
        decreases n - i,
    {
        if i >= n {
            None
        } else if line_has(self.mem()[from + i], q) {
            Some(i)
        } else {
            self.first_line_with(from, i + 1, n, q)
        }
    }

    /// Search of `q` from line `off` of piece `idx` on, where that line is
    /// document line `current`, up to document line `end`. File lines are
    /// searched as one span of bytes per piece; memory lines one by one.
    pub open spec fn search_walk(self, q: Seq<u8>, idx: int, off: int, current: int, end: int) -> Option<
        int,
    >
        decreases self.pieces@.len() - idx,
    {
        if idx < 0 || idx >= self.pieces@.len() || current > end {
            None
        } else {
            let p = self.pieces@[idx];
            let avail = p.count() - off;
            let ts = if avail < end - current + 1 { avail } else { end - current + 1 };
            let found = match p {
                Piece::Original { start_line, .. } => {
                    let bytes = self.original_bytes(start_line + off, ts);
                    match first_occurrence(bytes, q) {
                        Some(pos) => Some(current + self.lines_before(bytes, pos)),
                        None => None,
                    }
                },
                Piece::Memory { start_idx, .. } => match self.first_line_with(
                    start_idx + off,
                    0,
                    ts,
                    q,
                ) {
                    Some(i) => Some(current + i),
                    None => None,
                },
            };
            if found is Some {
                found
            } else {
                self.search_walk(q, idx + 1, 0, current + avail, end)
            }
        }
    }

    /// The first match of `query` in the memory lines `from..from + n`.
    fn first_memory_line_with(&self, query: &[u8], from: usize, n: usize) -> (r: Option<usize>)
        requires
            self.wf(),
            query@.len() > 0,
            from + n <= self.memory_buffer@.len(),
        ensures
            r matches Some(i) ==> self.first_line_with(from as int, 0, n as int, query@) == Some(i as int) && i < n,
            r is None ==> self.first_line_with(from as int, 0, n as int, query@) is None,
    {
        let mut i: usize = 0;
        while i < n
            invariant
                self.wf(),
                query@.len() > 0,
                i <= n,
                from + n <= self.memory_buffer@.len(),
                self.first_line_with(from as int, i as int, n as int, query@) == self.first_line_with(
                    from as int,
                    0,
                    n as int,
                    query@,
                ),
            decreases n - i,
        {
            let line = self.memory_buffer[from + i].as_str().as_bytes();
            assert(self.mem()[from + i] == self.memory_buffer@[from + i]@);
            if memmem_find(line, query).is_some() {
                return Some(i);
            }
            i = i + 1;
        }
        None
    }

    /// Searches `query` from document line `start_line` to `end_line` (both
    /// included), after taking in newly indexed file lines; the document
    /// line at which it was found, or `None`. An empty query finds nothing.
    pub fn search_forward(&mut self, query: &[u8], start_line: usize, end_line: usize) -> (r: Option<usize>)
        requires
            old(self).wf(),
            end_line < usize::MAX,
        ensures
            final(self).wf(),
            query@.len() == 0 ==> *final(self) == *old(self) && r is None,
            query@.len() > 0 ==> {
                &&& final(self).same_but_pieces(*old(self))
                &&& final(self).indexed_lines_added == old(self).index.original_total_lines
                &&& final(self).pieces@ == synced_pieces(
                    old(self).pieces@,
                    old(self).indexed_lines_added as int,
                    old(self).index.original_total_lines as int,
                )
                &&& final(self).doc() == old(self).doc() + file_run(
                    old(self).indexed_lines_added as int,
                    old(self).index.original_total_lines - old(self).indexed_lines_added,
                )
                &&& r == (match final(self).search_walk(
                    query@,
                    final(self).position(start_line as int).0,
                    final(self).position(start_line as int).1,
                    start_line as int,
                    end_line as int,
                ) {
                    Some(l) => Some(l as usize),
                    None => None::<usize>,
                })
            },
    {
        if query.len() == 0 {
            return None;
        }
        self.sync_pieces();
        let (mut piece_idx, mut offset) = self.find_piece_idx(start_line);
        proof {
            self.lemma_total_bound();
            if piece_idx < self.pieces@.len() {
                let c = choose|i: int| holds_line(self.pieces@, start_line as int, i);
                assert(holds_line(self.pieces@, start_line as int, piece_idx as int));
                lemma_holds_line_unique(self.pieces@, start_line as int, c, piece_idx as int);
                lemma_doc_at(self.pieces@, piece_idx as int, self.mem());
            }
        }
        let ghost target = self.search_walk(
            query@,
            self.position(start_line as int).0,
            self.position(start_line as int).1,
            start_line as int,
            end_line as int,
        );
        let mut current = start_line;
        let ghost s1 = *self;
        while piece_idx < self.pieces.len()
            invariant
                *self == s1,
                s1.same_but_pieces(*old(self)),
                s1.indexed_lines_added == old(self).index.original_total_lines,
                s1.pieces@ == synced_pieces(
                    old(self).pieces@,
                    old(self).indexed_lines_added as int,
                    old(self).index.original_total_lines as int,
                ),
                s1.doc() == old(self).doc() + file_run(
                    old(self).indexed_lines_added as int,
                    old(self).index.original_total_lines - old(self).indexed_lines_added,
                ),
                target == s1.search_walk(
                    query@,
                    s1.position(start_line as int).0,
                    s1.position(start_line as int).1,
                    start_line as int,
                    end_line as int,
                ),
                self.wf(),
                query@.len() > 0,
                end_line < usize::MAX,
                piece_idx <= self.pieces@.len(),
                piece_idx < self.pieces@.len() ==> {
                    &&& offset <= self.pieces@[piece_idx as int].count()
                    &&& current == prefix(self.pieces@, piece_idx as int) + offset
                },
                self.search_walk(query@, piece_idx as int, offset as int, current as int, end_line as int)
                    == target,
            decreases self.pieces@.len() - piece_idx,
        {
            if current > end_line {
                return None;
            }
            proof {
                lemma_doc_at(self.pieces@, piece_idx as int, self.mem());
                self.lemma_total_bound();
            }
            let piece = self.pieces[piece_idx];
            let available = piece.line_count() - offset;
            let span = end_line - current + 1;
            let lines_to_search = if available < span {
                available
            } else {
                span
            };
            match piece {
                Piece::Original { start_line: p_start, .. } => {
                    assert(self.pieces@[piece_idx as int] == piece);
                    let bytes = self.get_original_bytes(p_start + offset, lines_to_search);
                    let found = memmem_find(bytes, query);
                    proof {
                        lemma_first_occurrence(bytes@, query@, found);
                    }
                    if let Some(pos) = found {
                        proof {
                            lemma_count_byte_bound(bytes@.subrange(0, pos as int), crate::scan::NEWLINE);
                            assert(bytes@.len() <= self.data@.len());
                            self.lemma_total_bound();
                            crate::document::lemma_total_split(self.pieces@);
                        }
                        let lines = if self.is_fixed_width {
                            pos / self.fixed_width_size
                        } else {
                            count_newlines(&bytes[0..pos])
                        };
                        return Some(current + lines);
                    }
                },
                Piece::Memory { start_idx, .. } => {
                    assert(self.pieces@[piece_idx as int] == piece);
                    if let Some(i) = self.first_memory_line_with(
                        query,
                        start_idx + offset,
                        lines_to_search,
                    ) {
                        proof {
                            self.lemma_total_bound();
                            crate::document::lemma_total_split(self.pieces@);
                        }
                        assert(self.search_walk(query@, piece_idx as int, offset as int, current as int, end_line as int) == Some(current + i));
                        return Some(current + i);
                    }
                },
            }
            current = current + available;
            offset = 0;
            piece_idx = piece_idx + 1;
        }
        None
    }

    /// The last `i` in `lo..=i` whose memory line `from + i` holds `q`.
    pub open spec fn last_line_with(self, from: int, lo: int, i: int, q: Seq<u8>) -> Option<int>
        decreases i - lo + 1,
    {
        if i < lo {
            None
        } else if line_has(self.mem()[from + i], q) {
            Some(i)
        } else {
            self.last_line_with(from, lo, i - 1, q)
        }
    }

    /// Where a backward search of line `line` starts: its piece and offset,
    /// or the last line of the last piece when the line is past the end.
    pub open spec fn back_position(self, line: int) -> (int, int) {
        if 0 <= line < self.line_total() {
            self.position(line)
        } else {
            let last = self.pieces@.len() - 1;
            let c = self.pieces@[last].count();
            (last, if c >= 1 { c - 1 } else { 0 })
        }
    }

    /// Backward search of `q` from line `off` of piece `idx`, taken to be
    /// document line `current`, down to document line `end`. File lines are
    /// searched as one span of bytes per piece for the last match; memory
    /// lines one by one, last first.
    pub open spec fn search_back_walk(self, q: Seq<u8>, idx: int, off: int, current: int, end: int) -> Option<int>
        decreases idx,
    {
        if idx < 0 || idx >= self.pieces@.len() || current < end {
            None
        } else {
            let psl = if current >= off { current - off } else { 0 };
            let p = self.pieces@[idx];
            let skip = if end > psl { end - psl } else { 0 };
            let ltf = off + 1 - skip;
            let found = match p {
                Piece::Original { start_line, .. } => {
                    let bytes = self.original_bytes(start_line + skip, ltf);
                    match last_occurrence(bytes, q) {
                        Some(pos) => Some(psl + skip + self.lines_before(bytes, pos)),
                        None => None,
                    }
                },
                Piece::Memory { start_idx, .. } => if off < p.count() {
                    match self.last_line_with(start_idx as int, skip, off, q) {
                        Some(i) => Some(psl + i),
                        None => None,
                    }
                } else {
                    None
                },
            };
            if found is Some {
                found
            } else if idx == 0 {
                None
            } else {
                let c = self.pieces@[idx - 1].count();
                self.search_back_walk(
                    q,
                    idx - 1,
                    if c >= 1 { c - 1 } else { 0 },
                    if psl >= 1 { psl - 1 } else { 0 },
                    end,
                )
            }
        }
    }

    /// The last match of `query` in the memory lines `from + lo ..= from + hi`.
    fn last_memory_line_with(&self, query: &[u8], from: usize, lo: usize, hi: usize) -> (r: Option<usize>)
        requires
            self.wf(),
            query@.len() > 0,
            lo <= hi,
            from + hi < self.memory_buffer@.len(),
        ensures
            r matches Some(i) ==> self.last_line_with(from as int, lo as int, hi as int, query@) == Some(i as int) && lo <= i <= hi,
            r is None ==> self.last_line_with(from as int, lo as int, hi as int, query@) is None,
    {
        let mut i: usize = hi + 1;
        while i > lo
            invariant
                self.wf(),
                query@.len() > 0,
                lo <= i <= hi + 1,
                from + hi < self.memory_buffer@.len(),
                self.last_line_with(from as int, lo as int, i - 1, query@) == self.last_line_with(
                    from as int,
                    lo as int,
                    hi as int,
                    query@,
                ),
            decreases i,
        {
            i = i - 1;
            let line = self.memory_buffer[from + i].as_str().as_bytes();
            assert(self.mem()[from + i] == self.memory_buffer@[from + i]@);
            if memmem_find(line, query).is_some() {
                return Some(i);
            }
        }
        None
    }

    /// A document with no lines and no file pieces holds no match, however
    /// the backward walk starts.
    proof fn lemma_back_walk_none(self, q: Seq<u8>, idx: int, off: int, current: int, end: int)
        requires
            forall|i: int|
                0 <= i < self.pieces@.len() ==> (#[trigger] self.pieces@[i] is Memory
                    && self.pieces@[i].count() == 0),
        ensures
            self.search_back_walk(q, idx, off, current, end) is None,
        decreases idx,
    {
        if 0 < idx < self.pieces@.len() && current >= end {
            let c = self.pieces@[idx - 1].count();
            let psl = if current >= off { current - off } else { 0 };
            self.lemma_back_walk_none(
                q,
                idx - 1,
                if c >= 1 { c - 1 } else { 0 },
                if psl >= 1 { psl - 1 } else { 0 },
                end,
            );
        }
    }

    /// An empty document: every piece spans no line.
    proof fn lemma_empty_pieces(self)
        requires
            self.line_total() == 0,
        ensures
            forall|i: int| 0 <= i < self.pieces@.len() ==> #[trigger] self.pieces@[i].count() == 0,
    {
        assert forall|i: int| 0 <= i < self.pieces@.len() implies #[trigger] self.pieces@[i].count() == 0 by {
            lemma_doc_at(self.pieces@, i, self.mem());
        }
    }

    /// Searches `query` backward from document line `start_line` down to
    /// `end_line`, after taking in newly indexed file lines; the document
    /// line at which the last match before the start was found, or `None`.
    /// An empty query finds nothing.
    #[verifier::rlimit(40)]
    pub fn search_backward(&mut self, query: &[u8], start_line: usize, end_line: usize) -> (r: Option<usize>)
        requires
            old(self).wf(),
        ensures
            final(self).wf(),
            query@.len() == 0 ==> *final(self) == *old(self) && r is None,
            query@.len() > 0 ==> {
                &&& final(self).same_but_pieces(*old(self))
                &&& final(self).indexed_lines_added == old(self).index.original_total_lines
                &&& final(self).pieces@ == synced_pieces(
                    old(self).pieces@,
                    old(self).indexed_lines_added as int,
                    old(self).index.original_total_lines as int,
                )
                &&& final(self).doc() == old(self).doc() + file_run(
                    old(self).indexed_lines_added as int,
                    old(self).index.original_total_lines - old(self).indexed_lines_added,
                )
                &&& r == (match final(self).search_back_walk(
                    query@,
                    final(self).back_position(start_line as int).0,
                    final(self).back_position(start_line as int).1,
                    start_line as int,
                    end_line as int,
                ) {
                    Some(l) => Some(wrap_line(l)),
                    None => None::<usize>,
                })
                &&& final(self).line_total() == 0 && (forall|i: int|
                    0 <= i < final(self).pieces@.len() ==> !(#[trigger] final(self).pieces@[i] is Original)) ==> r is None
                &&& final(self).line_total() == 0 && pieces_nonempty(final(self).pieces@) ==> r is None
            },
    {
        if query.len() == 0 {
            return None;
        }
        self.sync_pieces();
        if self.pieces.len() == 0 {
            return None;
        }
        let (mut piece_idx, mut offset) = self.find_piece_idx(start_line);
        proof {
            if self.line_total() == 0 && pieces_nonempty(self.pieces@) {
                lemma_nonempty_of_empty_doc(self.pieces@);
            }
            self.lemma_total_bound();
            if piece_idx < self.pieces@.len() {
                let c = choose|i: int| holds_line(self.pieces@, start_line as int, i);
                assert(holds_line(self.pieces@, start_line as int, piece_idx as int));
                lemma_holds_line_unique(self.pieces@, start_line as int, c, piece_idx as int);
                lemma_doc_at(self.pieces@, piece_idx as int, self.mem());
            }
        }
        if piece_idx >= self.pieces.len() {
            piece_idx = self.pieces.len() - 1;
            offset = self.pieces[piece_idx].line_count().saturating_sub(1);
        }
        let ghost target = self.search_back_walk(
            query@,
            self.back_position(start_line as int).0,
            self.back_position(start_line as int).1,
            start_line as int,
            end_line as int,
        );
        let ghost empty_doc = self.line_total() == 0 && (forall|i: int|
            0 <= i < self.pieces@.len() ==> !(#[trigger] self.pieces@[i] is Original));
        proof {
            if empty_doc {
                self.lemma_empty_pieces();
                assert forall|i: int| 0 <= i < self.pieces@.len() implies (#[trigger] self.pieces@[i] is Memory
                    && self.pieces@[i].count() == 0) by {
                    assert(!(self.pieces@[i] is Original));
                }
                self.lemma_back_walk_none(
                    query@,
                    self.back_position(start_line as int).0,
                    self.back_position(start_line as int).1,
                    start_line as int,
                    end_line as int,
                );
            }
        }
        let mut current = start_line;
        let mut go = true;
        let ghost s1 = *self;
        while go
            invariant
                *self == s1,
                s1.same_but_pieces(*old(self)),
                s1.indexed_lines_added == old(self).index.original_total_lines,
                s1.pieces@ == synced_pieces(
                    old(self).pieces@,
                    old(self).indexed_lines_added as int,
                    old(self).index.original_total_lines as int,
                ),
                s1.doc() == old(self).doc() + file_run(
                    old(self).indexed_lines_added as int,
                    old(self).index.original_total_lines - old(self).indexed_lines_added,
                ),
                target == s1.search_back_walk(
                    query@,
                    s1.back_position(start_line as int).0,
                    s1.back_position(start_line as int).1,
                    start_line as int,
                    end_line as int,
                ),
                self.wf(),
                query@.len() > 0,
                current <= start_line,
                go ==> piece_idx < self.pieces@.len(),
                go ==> offset <= self.pieces@[piece_idx as int].count(),
                go ==> self.search_back_walk(query@, piece_idx as int, offset as int, current as int, end_line as int) == target,
                !go ==> target is None,
                empty_doc == (s1.line_total() == 0 && (forall|i: int|
                    0 <= i < s1.pieces@.len() ==> !(#[trigger] s1.pieces@[i] is Original))),
                empty_doc ==> target is None,
                !(s1.line_total() == 0 && pieces_nonempty(s1.pieces@)),
            decreases piece_idx + (if go { 1int } else { 0int }),
        {
            proof {
                self.lemma_total_bound();
                crate::document::lemma_total_split(self.pieces@);
            }
            let piece_start = current.saturating_sub(offset);
            if current < end_line {
                go = false;
            } else {
                let piece = self.pieces[piece_idx];
                let skip = if end_line > piece_start {
                    end_line - piece_start
                } else {
                    0
                };
                let lines_to_fetch = offset + 1 - skip;
                match piece {
                    Piece::Original { start_line: p_start, .. } => {
                        assert(self.pieces@[piece_idx as int] == piece);
                        let bytes = self.get_original_bytes(p_start + skip, lines_to_fetch);
                        let found = memmem_rfind(bytes, query);
                        proof {
                            lemma_last_occurrence(bytes@, query@, found);
                        }
                        if let Some(pos) = found {
                            proof {
                                lemma_count_byte_bound(bytes@.subrange(0, pos as int), crate::scan::NEWLINE);
                            }
                            let lines = if self.is_fixed_width {
                                pos / self.fixed_width_size
                            } else {
                                count_newlines(&bytes[0..pos])
                            };
                            return Some((piece_start + skip).wrapping_add(lines));
                        }
                    },
                    Piece::Memory { start_idx, line_count } => {
                        assert(self.pieces@[piece_idx as int] == piece);
                        if offset < line_count {
                            if let Some(i) = self.last_memory_line_with(query, start_idx, skip, offset) {
                                assert(self.search_back_walk(query@, piece_idx as int, offset as int, current as int, end_line as int) == Some(piece_start + i));
                                return Some(piece_start + i);
                            }
                        }
                    },
                }
                if piece_idx == 0 {
                    go = false;
                } else {
                    piece_idx = piece_idx - 1;
                    offset = self.pieces[piece_idx].line_count().saturating_sub(1);
                    current = piece_start.saturating_sub(1);
                }
            }
        }
        None
    }

    /// The UTF-8 bytes of the `n` memory lines from `from` on, each followed
    /// by `\n`.
    pub open spec fn joined_lines(self, from: int, n: nat) -> Seq<u8>
        decreases n,
    {
        if n == 0 {
            seq![]
        } else {
            self.joined_lines(from, (n - 1) as nat) + encode_utf8(self.mem()[from + n - 1]) + seq![
                NEWLINE,
            ]
        }
    }

    /// The bytes in which a background search looks for a match in piece
    /// `p` from its line `off` on: for file lines, the bytes from the start of
    /// that line to the start of the line after the piece, clipped to the
    /// file; for memory lines, those lines joined.
    pub open spec fn scan_bytes(self, p: Piece, off: int) -> Seq<u8> {
        match p {
            Piece::Original { start_line, line_count } => {
                let len = self.data@.len() as int;
                let a = self.offset_of(start_line + off);
                let b0 = self.offset_of(start_line + line_count);
                let b = if b0 < len { b0 } else { len };
                if a < b {
                    self.data@.subrange(a, b)
                } else {
                    Seq::<u8>::empty()
                }
            },
            Piece::Memory { start_idx, line_count } => self.joined_lines(
                start_idx + off,
                (line_count - off) as nat,
            ),
        }
    }

    /// The line, counted from line `off` of piece `p`, of the first match of
    /// `q` in the piece's bytes, if any.
    pub open spec fn piece_hit(self, q: Seq<u8>, p: Piece, off: int) -> Option<int> {
        let bytes = self.scan_bytes(p, off);
        match first_occurrence(bytes, q) {
            Some(pos) => Some(self.lines_before(bytes, pos)),
            None => None,
        }
    }

    /// Background search of `q` from line `off` of piece `idx`, document
    /// line `current`, to the end of the document.
    pub open spec fn scan_walk(self, q: Seq<u8>, idx: int, off: int, current: int) -> Option<int>
        decreases self.pieces@.len() - idx,
    {
        if idx < 0 || idx >= self.pieces@.len() {
            None
        } else {
            match self.piece_hit(q, self.pieces@[idx], off) {
                Some(l) => Some(current + l),
                None => self.scan_walk(q, idx + 1, 0, current + self.pieces@[idx].count() - off),
            }
        }
    }

    /// Looks for `query` in piece `piece_idx` from its line `offset` on; the
    /// line of the first match, counted from there.
    pub fn search_piece(&self, query: &[u8], piece_idx: usize, offset: usize) -> (r: Option<usize>)
        requires
            self.wf(),
            query@.len() > 0,
            piece_idx < self.pieces@.len(),
            offset <= self.pieces@[piece_idx as int].count(),
        ensures
            r matches Some(l) ==> self.piece_hit(query@, self.pieces@[piece_idx as int], offset as int)
                == Some(l as int),
            r is None ==> self.piece_hit(query@, self.pieces@[piece_idx as int], offset as int) is None,
    {
        let piece = self.pieces[piece_idx];
        assert(self.pieces@[piece_idx as int] == piece);
        let mut joined: Vec<u8> = Vec::new();
        let bytes: &[u8] = match piece {
            Piece::Original { start_line: p_start, line_count } => {
                let start_byte = self.line_to_byte_offset(p_start + offset);
                let end_byte = self.line_to_byte_offset(p_start + line_count);
                let end_byte = if end_byte < self.data.len() {
                    end_byte
                } else {
                    self.data.len()
                };
                if start_byte < end_byte {
                    &self.data[start_byte..end_byte]
                } else {
                    &self.data[0..0]
                }
            },
            Piece::Memory { start_idx, line_count } => {
                let mut i = offset;
                while i < line_count
                    invariant
                        self.wf(),
                        offset <= i <= line_count,
                        start_idx + line_count <= self.memory_buffer@.len(),
                        joined@ == self.joined_lines(start_idx + offset, (i - offset) as nat),
                    decreases line_count - i,
                {
                    let line = self.memory_buffer[start_idx + i].as_str().as_bytes();
                    assert(self.mem()[start_idx + i] == self.memory_buffer@[start_idx + i]@);
                    joined.extend_from_slice(line);
                    joined.push(NEWLINE);
                    proof {
                        assert(joined@ =~= self.joined_lines(start_idx + offset, (i + 1 - offset) as nat));
                    }
                    i = i + 1;
                }
                joined.as_slice()
            },
        };
        assert(bytes@ == self.scan_bytes(piece, offset as int));
        let found = memmem_find(bytes, query);
        proof {
            lemma_first_occurrence(bytes@, query@, found);
        }
        match found {
            Some(pos) => {
                proof {
                    lemma_count_byte_bound(bytes@.subrange(0, pos as int), NEWLINE);
                }
                let lines = if self.is_fixed_width {
                    pos / self.fixed_width_size
                } else {
                    count_newlines(&bytes[0..pos])
                };
                Some(lines)
            },
            None => None,
        }
    }

    /// Background search of `query` from document line `start_line` to the
    /// end of the document, on a state whose pieces are up to date; the
    /// document line of the first match, or `None` (also when that line
    /// number does not fit in a `usize`).
    pub fn search_from(&self, query: &[u8], start_line: usize) -> (r: Option<usize>)
        requires
            self.wf(),
        ensures
            query@.len() == 0 ==> r is None,
            query@.len() > 0 ==> r == (match self.scan_walk(
                query@,
                self.position(start_line as int).0,
                self.position(start_line as int).1,
                start_line as int,
            ) {
                Some(l) => if l <= usize::MAX {
                    Some(l as usize)
                } else {
                    None::<usize>
                },
                None => None::<usize>,
            }),
    {
        if query.len() == 0 {
            return None;
        }
        let (mut piece_idx, mut offset) = self.find_piece_idx(start_line);
        proof {
            self.lemma_total_bound();
            if piece_idx < self.pieces@.len() {
                let c = choose|i: int| holds_line(self.pieces@, start_line as int, i);
                assert(holds_line(self.pieces@, start_line as int, piece_idx as int));
                lemma_holds_line_unique(self.pieces@, start_line as int, c, piece_idx as int);
                lemma_doc_at(self.pieces@, piece_idx as int, self.mem());
            }
        }
        let ghost target = self.scan_walk(
            query@,
            self.position(start_line as int).0,
            self.position(start_line as int).1,
            start_line as int,
        );
        let mut current = start_line;
        while piece_idx < self.pieces.len()
            invariant
                self.wf(),
                query@.len() > 0,
                piece_idx <= self.pieces@.len(),
                piece_idx < self.pieces@.len() ==> {
                    &&& offset <= self.pieces@[piece_idx as int].count()
                    &&& current == prefix(self.pieces@, piece_idx as int) + offset
                },
                self.scan_walk(query@, piece_idx as int, offset as int, current as int) == target,
                target == self.scan_walk(
                    query@,
                    self.position(start_line as int).0,
                    self.position(start_line as int).1,
                    start_line as int,
                ),
            decreases self.pieces@.len() - piece_idx,
        {
            proof {
                lemma_doc_at(self.pieces@, piece_idx as int, self.mem());
                self.lemma_total_bound();
                crate::document::lemma_total_split(self.pieces@);
            }
            if let Some(l) = self.search_piece(query, piece_idx, offset) {
                return current.checked_add(l);
            }
            let count = self.pieces[piece_idx].line_count();
            current = current + (count - offset);
            offset = 0;
            piece_idx = piece_idx + 1;
        }
        None
    }

    /// One step of a background search: looks at piece `piece_idx` from its
    /// line `offset` on, that line being document line `current`. Reports the
    /// document line of a match, or where to go on, or that the search is
    /// over (past the last piece, or a match whose line does not fit).
    pub fn search_step(&self, query: &[u8], piece_idx: usize, offset: usize, current: usize) -> (r: ScanStep)
        requires
            self.wf(),
            query@.len() > 0,
            piece_idx <= self.pieces@.len(),
            piece_idx < self.pieces@.len() ==> {
                &&& offset <= self.pieces@[piece_idx as int].count()
                &&& current == prefix(self.pieces@, piece_idx as int) + offset
            },
        ensures
            piece_idx == self.pieces@.len() ==> r is Done,
            match r {
                ScanStep::Found(l) => self.scan_walk(query@, piece_idx as int, offset as int, current as int)
                    == Some(l as int),
                ScanStep::Next { piece_idx: p, offset: o, current: c } => {
                    &&& p == piece_idx + 1
                    &&& o == 0
                    &&& c == current + self.pieces@[piece_idx as int].count() - offset
                    &&& self.scan_walk(query@, piece_idx as int, offset as int, current as int)
                        == self.scan_walk(query@, p as int, 0, c as int)
                    &&& p < self.pieces@.len() ==> c == prefix(self.pieces@, p as int)
                },
                ScanStep::Done => piece_idx == self.pieces@.len() || (self.scan_walk(
                    query@,
                    piece_idx as int,
                    offset as int,
                    current as int,
                ) matches Some(x) && x > usize::MAX),
            },
    {
        if piece_idx >= self.pieces.len() {
            return ScanStep::Done;
        }
        proof {
            lemma_doc_at(self.pieces@, piece_idx as int, self.mem());
            self.lemma_total_bound();
            crate::document::lemma_total_split(self.pieces@);
        }
        if let Some(l) = self.search_piece(query, piece_idx, offset) {
            return match current.checked_add(l) {
                Some(line) => ScanStep::Found(line),
                None => ScanStep::Done,
            };
        }
        let count = self.pieces[piece_idx].line_count();
        ScanStep::Next { piece_idx: piece_idx + 1, offset: 0, current: current + (count - offset) }
    }
}

/// What one step of a background search found.
#[derive(Clone, Copy, Debug)]
pub enum ScanStep {
    /// A match on this document line.
    Found(usize),
    /// No match in the piece; go on from here.
    Next { piece_idx: usize, offset: usize, current: usize },
    /// Nothing more to search.
    Done,
}

} // verus!
