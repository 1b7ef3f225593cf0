//! The engine: a piece table over a read-only file and its line index, with
//! the invariant its operations keep.
use crate::document::{
    doc_of, file_lines, file_within, lemma_doc_at, lemma_doc_concat, lemma_doc_len,
    lemma_total_concat, lemma_total_single, lemma_total_split, memory_lines, memory_within,
    memory_disjoint, piece_lines, pieces_nonempty, prefix, total, LineSource,
};
use crate::index::{index_ok, line_offset};
use crate::models::{IndexState, Piece};
use crate::scan::{has_monster_line, is_monster_line, nl_free};
use vstd::prelude::*;
use vstd::utf8::encode_utf8;

verus! {

/// Width of a line in a file without usable line breaks.
pub const FIXED_WIDTH_SIZE: usize = 4096usize;

/// How much of the file is sampled to decide whether it has usable lines.
pub const SAMPLE_SIZE: usize = 65536usize;

/// The piece table over a read-only file, with its line index.
#[derive(Clone)]
pub struct LogEngine<'a> {
    /// The file's bytes.
    pub data: &'a [u8],
    /// Line index of the file, built progressively.
    pub index: IndexState,
    /// How many bytes of the file the index covers so far.
    pub bytes_processed: usize,
    /// The document, as a sequence of runs of lines.
    pub pieces: Vec<Piece>,
    /// How many of the file's indexed lines the pieces took in.
    pub indexed_lines_added: usize,
    /// Lines of text inserted by edits.
    pub memory_buffer: Vec<String>,
    /// Memory lines that no piece refers to any more.
    pub wasted_memory_lines: usize,
    /// The file has no usable line breaks and is cut into fixed-width lines.
    pub is_fixed_width: bool,
    pub fixed_width_size: usize,
}

/// The pieces after taking in the file lines `indexed..current`: the last
/// piece grows when it ends at `indexed`, else a new piece is appended.
pub open spec fn synced_pieces(ps: Seq<Piece>, indexed: int, current: int) -> Seq<Piece> {
    let appended = ps.push(
        Piece::Original { start_line: indexed as usize, line_count: (current - indexed) as usize },
    );
    if current <= indexed {
        ps
    } else if ps.len() == 0 {
        appended
    } else {
        match ps.last() {
            Piece::Original { start_line, line_count } => if start_line + line_count == indexed {
                ps.update(
                    ps.len() - 1,
                    Piece::Original {
                        start_line,
                        line_count: (line_count + (current - indexed)) as usize,
                    },
                )
            } else {
                appended
            },
            _ => appended,
        }
    }
}

/// The first `off` lines of piece `p`.
pub open spec fn piece_head(p: Piece, off: int) -> Piece {
    match p {
        Piece::Original { start_line, .. } => Piece::Original {
            start_line,
            line_count: off as usize,
        },
        Piece::Memory { start_idx, .. } => Piece::Memory { start_idx, line_count: off as usize },
    }
}

/// Piece `p` without its first `off` lines.
pub open spec fn piece_tail(p: Piece, off: int) -> Piece {
    match p {
        Piece::Original { start_line, line_count } => Piece::Original {
            start_line: (start_line + off) as usize,
            line_count: (line_count - off) as usize,
        },
        Piece::Memory { start_idx, line_count } => Piece::Memory {
            start_idx: (start_idx + off) as usize,
            line_count: (line_count - off) as usize,
        },
    }
}

/// The pieces after cutting piece `idx` in two after `off` lines; unchanged
/// when the cut would fall at either end of the piece or beyond the pieces.
pub open spec fn split_pieces(ps: Seq<Piece>, idx: int, off: int) -> Seq<Piece> {
    if off <= 0 || idx < 0 || idx >= ps.len() || off >= ps[idx].count() {
        ps
    } else {
        ps.subrange(0, idx) + seq![piece_head(ps[idx], off), piece_tail(ps[idx], off)]
            + ps.subrange(idx + 1, ps.len() as int)
    }
}

/// The `n` file lines from `from` on, as document lines.
pub open spec fn file_run(from: int, n: int) -> Seq<LineSource> {
    Seq::new(n as nat, |k: int| LineSource::File(from + k))
}

/// Cutting a piece in two keeps the document, the line counts, and the
/// bounds on the lines the pieces refer to.
pub proof fn lemma_split_pieces(
    ps: Seq<Piece>,
    idx: int,
    off: int,
    mem: Seq<Seq<char>>,
    n_file: int,
    n_mem: int,
)
    requires
        file_within(ps, n_file),
        memory_within(ps, n_mem),
        n_file <= usize::MAX,
        n_mem <= usize::MAX,
    ensures
        doc_of(split_pieces(ps, idx, off), mem) == doc_of(ps, mem),
        total(split_pieces(ps, idx, off)) == total(ps),
        file_lines(split_pieces(ps, idx, off)) == file_lines(ps),
        memory_lines(split_pieces(ps, idx, off)) == memory_lines(ps),
        file_within(split_pieces(ps, idx, off), n_file),
        memory_within(split_pieces(ps, idx, off), n_mem),
        split_pieces(ps, idx, off).len() == (if split_pieces(ps, idx, off) == ps { ps.len() } else { ps.len() + 1 }),
{
    if off <= 0 || idx < 0 || idx >= ps.len() || off >= ps[idx].count() {
        return;
    }
    let piece = ps[idx];
    let ps1 = split_pieces(ps, idx, off);
    let a = ps.subrange(0, idx);
    let b = ps.subrange(idx + 1, ps.len() as int);
    let h = piece_head(piece, off);
    let t = piece_tail(piece, off);
    assert(seq![h, t] =~= seq![h] + seq![t]);
    lemma_doc_concat(a + seq![h, t], b, mem);
    lemma_doc_concat(a, seq![h, t], mem);
    lemma_total_concat(a + seq![h, t], b);
    lemma_total_concat(a, seq![h, t]);
    lemma_total_concat(a + seq![piece], b);
    lemma_total_concat(a, seq![piece]);
    lemma_doc_concat(a + seq![piece], b, mem);
    lemma_doc_concat(a, seq![piece], mem);
    lemma_doc_concat(seq![h], seq![t], mem);
    lemma_total_concat(seq![h], seq![t]);
    lemma_total_single(h);
    lemma_total_single(t);
    lemma_total_single(piece);
    assert(ps[idx] == piece);
    match piece {
        Piece::Original { start_line, line_count } => {
            assert(start_line + line_count <= n_file);
            assert(piece_lines(piece, mem) =~= piece_lines(h, mem) + piece_lines(t, mem));
        },
        Piece::Memory { start_idx, line_count } => {
            assert(start_idx + line_count <= n_mem);
            assert(piece_lines(piece, mem) =~= piece_lines(h, mem) + piece_lines(t, mem));
        },
    }
    assert(ps =~= a + seq![piece] + b);
    assert(doc_of(ps1, mem) =~= doc_of(ps, mem));
    assert(ps1.len() == ps.len() + 1);
    assert(ps1 != ps);
    assert forall|i: int| 0 <= i < ps1.len() implies (
    #[trigger] ps1[i] matches Piece::Original { start_line, line_count } ==> start_line
        + line_count <= n_file) by {
        if i < idx {
            assert(ps1[i] == ps[i]);
        } else if i > idx + 1 {
            assert(ps1[i] == ps[i - 1]);
        } else {
            assert(ps[idx] == piece);
        }
    }
    assert forall|i: int| 0 <= i < ps1.len() implies (
    #[trigger] ps1[i] matches Piece::Memory { start_idx, line_count } ==> start_idx
        + line_count <= n_mem) by {
        if i < idx {
            assert(ps1[i] == ps[i]);
        } else if i > idx + 1 {
            assert(ps1[i] == ps[i - 1]);
        } else {
            assert(ps[idx] == piece);
        }
    }
}

/// After cutting piece `idx` after `off` lines, the first `idx + 1` pieces
/// span `off` more lines than the first `idx` did, and the first `idx`
/// pieces are unchanged.
pub proof fn lemma_split_prefix(ps: Seq<Piece>, idx: int, off: int)
    requires
        0 <= idx < ps.len(),
        0 < off < ps[idx].count(),
    ensures
        split_pieces(ps, idx, off).len() == ps.len() + 1,
        split_pieces(ps, idx, off).subrange(0, idx) == ps.subrange(0, idx),
        prefix(split_pieces(ps, idx, off), idx + 1) == prefix(ps, idx) + off,
        split_pieces(ps, idx, off)[idx] == piece_head(ps[idx], off),
        piece_head(ps[idx], off).count() == off,
        piece_head(ps[idx], off) is Memory <==> ps[idx] is Memory,
{
    let sp = split_pieces(ps, idx, off);
    let a = ps.subrange(0, idx);
    let h = piece_head(ps[idx], off);
    assert(sp.subrange(0, idx + 1) =~= a + seq![h]);
    assert(sp.subrange(0, idx) =~= a);
    lemma_total_concat(a, seq![h]);
    lemma_total_single(h);
}

/// Cutting a piece in two keeps every piece spanning at least one line.
pub proof fn lemma_split_nonempty(ps: Seq<Piece>, idx: int, off: int)
    requires
        pieces_nonempty(ps),
    ensures
        pieces_nonempty(split_pieces(ps, idx, off)),
{
    let sp = split_pieces(ps, idx, off);
    if !(off <= 0 || idx < 0 || idx >= ps.len() || off >= ps[idx].count()) {
        assert forall|k: int| 0 <= k < sp.len() implies (#[trigger] sp[k]).count() > 0 by {
            if k < idx {
                assert(sp[k] == ps[k]);
            } else if k > idx + 1 {
                assert(sp[k] == ps[k - 1]);
            }
        }
    }
}

/// Taking in file lines keeps every piece spanning at least one line.
pub proof fn lemma_synced_nonempty(ps: Seq<Piece>, indexed: int, current: int)
    requires
        pieces_nonempty(ps),
        0 <= indexed,
        current <= usize::MAX,
    ensures
        pieces_nonempty(synced_pieces(ps, indexed, current)),
{
    let sp = synced_pieces(ps, indexed, current);
    if current > indexed {
        assert forall|k: int| 0 <= k < sp.len() implies (#[trigger] sp[k]).count() > 0 by {
            if k < ps.len() - 1 {
                assert(sp[k] == ps[k]);
            } else if k == ps.len() - 1 {
                assert(ps[k].count() > 0);
            }
        }
    }
}

impl<'a> LogEngine<'a> {
    /// The memory buffer, by characters.
    pub open spec fn mem(self) -> Seq<Seq<char>> {
        self.memory_buffer@.map_values(|s: String| s@)
    }

    /// No memory line holds a line break.
    pub open spec fn memory_nl_free(self) -> bool {
        forall|k: int| 0 <= k < self.mem().len() ==> #[trigger] nl_free(encode_utf8(self.mem()[k]))
    }

    /// The document: each line, in order, with where it comes from.
    pub open spec fn doc(self) -> Seq<LineSource> {
        doc_of(self.pieces@, self.mem())
    }

    /// Number of lines in the document.
    pub open spec fn line_total(self) -> nat {
        total(self.pieces@)
    }

    /// The line index is well formed for a file of `self.data` bytes.
    pub open spec fn index_wf(self) -> bool {
        &&& index_ok(self.index, self.data@.len() as int, self.is_fixed_width)
        &&& self.index.original_total_lines <= self.data@.len() + 1
        &&& self.bytes_processed <= self.data@.len()
        &&& !self.index.is_finished ==> self.index.original_total_lines <= self.bytes_processed
        &&& (!self.is_fixed_width && self.index.chunks@.len() == 0) ==> self.bytes_processed == 0
        &&& forall|i: int|
            0 <= i < self.index.chunks@.len() ==> (#[trigger] self.index.chunks@[i]).byte_offset
                < self.bytes_processed
    }

    /// Byte offset at which file line `line` starts, by the current index.
    pub open spec fn offset_of(self, line: int) -> int {
        line_offset(
            self.index,
            self.bytes_processed as int,
            self.data@,
            line,
            self.is_fixed_width,
            self.fixed_width_size as int,
        )
    }

    /// The engine's invariant.
    pub open spec fn wf(self) -> bool {
        &&& 2 * self.data@.len() + self.memory_buffer@.len() < usize::MAX
        &&& self.fixed_width_size == FIXED_WIDTH_SIZE
        &&& self.index_wf()
        &&& self.indexed_lines_added <= self.index.original_total_lines
        &&& file_within(self.pieces@, self.indexed_lines_added as int)
        &&& memory_within(self.pieces@, self.memory_buffer@.len() as int)
        &&& memory_disjoint(self.pieces@)
        &&& file_lines(self.pieces@) <= self.indexed_lines_added
        &&& memory_lines(self.pieces@) + self.wasted_memory_lines == self.memory_buffer@.len()
    }

    /// `self` and `other` differ at most in their pieces and in how many
    /// file lines the pieces took in.
    pub open spec fn same_but_pieces(self, other: Self) -> bool {
        &&& self.data@ == other.data@
        &&& self.index == other.index
        &&& self.bytes_processed == other.bytes_processed
        &&& self.memory_buffer@ == other.memory_buffer@
        &&& self.wasted_memory_lines == other.wasted_memory_lines
        &&& self.is_fixed_width == other.is_fixed_width
        &&& self.fixed_width_size == other.fixed_width_size
    }

    pub proof fn lemma_total_bound(self)
        requires
            self.wf(),
        ensures
            self.line_total() <= usize::MAX,
            self.line_total() <= self.data@.len() + 1 + self.memory_buffer@.len(),
            self.doc().len() == self.line_total(),
    {
        lemma_total_split(self.pieces@);
        lemma_doc_len(self.pieces@, self.mem());
    }

    /// Sets up the engine over a file's bytes. A file whose first
    /// `SAMPLE_SIZE` bytes hold a line of `MONSTER_LINE_LEN` bytes is cut into
    /// lines of `FIXED_WIDTH_SIZE` bytes, all known at once; otherwise no line
    /// is known until the index is built.
    pub fn new(data: &'a [u8]) -> (r: Self)
        requires
            data@.len() <= isize::MAX,
        ensures
            r.wf(),
            r.data@ == data@,
            r.is_fixed_width == has_monster_line(
                data@.subrange(0, if data@.len() < SAMPLE_SIZE { data@.len() as int } else { SAMPLE_SIZE as int }),
            ),
            r.is_fixed_width ==> {
                &&& r.index.original_total_lines == (data@.len() + FIXED_WIDTH_SIZE - 1) / (FIXED_WIDTH_SIZE as int)
                &&& r.index.is_finished
                &&& r.bytes_processed == data@.len()
                &&& r.pieces@ == seq![Piece::Original { start_line: 0, line_count: r.index.original_total_lines }]
                &&& r.indexed_lines_added == r.index.original_total_lines
            },
            !r.is_fixed_width ==> {
                &&& r.index.original_total_lines == 0
                &&& !r.index.is_finished
                &&& r.bytes_processed == 0
                &&& r.pieces@ == seq![Piece::Original { start_line: 0, line_count: 0 }]
                &&& r.indexed_lines_added == 0
            },
            r.index.chunks@.len() == 0,
            r.memory_buffer@.len() == 0,
            r.memory_nl_free(),
            r.wasted_memory_lines == 0,
            r.fixed_width_size == FIXED_WIDTH_SIZE,
            r.index_accurate(),
    {
        let len = data.len();
        let sample_size = if len < SAMPLE_SIZE { len } else { SAMPLE_SIZE };
        let is_fixed_width = is_monster_line(&data[0..sample_size]);
        let fixed_width_size = FIXED_WIDTH_SIZE;
        let mut total_lines: usize = 0;
        let mut bytes_processed: usize = 0;
        if is_fixed_width {
            total_lines = len / fixed_width_size + if len % fixed_width_size != 0 { 1usize } else { 0usize };
            bytes_processed = len;
            assert(total_lines == (len + FIXED_WIDTH_SIZE - 1) / (FIXED_WIDTH_SIZE as int)) by (nonlinear_arith)
                requires
                    fixed_width_size == FIXED_WIDTH_SIZE,
                    total_lines == len / fixed_width_size + if len % fixed_width_size != 0 { 1int } else { 0int },
            ;
        }
        let mut pieces: Vec<Piece> = Vec::new();
        pieces.push(Piece::Original { start_line: 0, line_count: total_lines });
        let r = LogEngine {
            data,
            index: IndexState {
                chunks: Vec::new(),
                original_total_lines: total_lines,
                is_finished: is_fixed_width,
                indexing_time_ms: 0,
            },
            bytes_processed,
            pieces,
            indexed_lines_added: total_lines,
            memory_buffer: Vec::new(),
            wasted_memory_lines: 0,
            is_fixed_width,
            fixed_width_size,
        };
        proof {
            lemma_total_single(Piece::Original { start_line: 0, line_count: total_lines });
            assert(r.pieces@ =~= seq![Piece::Original { start_line: 0, line_count: total_lines }]);
            assert(crate::scan::count_nl(data@.subrange(0, 0)) == 0) by {
                assert(data@.subrange(0, 0) =~= Seq::<u8>::empty());
            }
        }
        r
    }

    /// Number of lines in the document.
    pub fn total_lines(&self) -> (r: usize)
        requires
            self.wf(),
        ensures
            r == self.line_total(),
            r == self.doc().len(),
    {
        proof {
            self.lemma_total_bound();
        }
        let mut sum: usize = 0;
        let mut i: usize = 0;
        while i < self.pieces.len()
            invariant
                self.wf(),
                i <= self.pieces@.len(),
                sum == prefix(self.pieces@, i as int),
            decreases self.pieces@.len() - i,
        {
            proof {
                lemma_doc_at(self.pieces@, i as int, self.mem());
                self.lemma_total_bound();
            }
            sum = sum + self.pieces[i].line_count();
            i = i + 1;
        }
        proof {
            assert(self.pieces@.subrange(0, i as int) =~= self.pieces@);
            self.lemma_total_bound();
        }
        sum
    }

    /// Finds the piece holding `logical_line` and the line's offset in it;
    /// `(pieces.len(), 0)` when the line is past the end of the document.
    pub fn find_piece_idx(&self, logical_line: usize) -> (r: (usize, usize))
        requires
            self.wf(),
        ensures
            r.0 <= self.pieces@.len(),
            r.0 < self.pieces@.len() ==> {
                &&& prefix(self.pieces@, r.0 as int) <= logical_line < prefix(self.pieces@, r.0 + 1)
                &&& r.1 == logical_line - prefix(self.pieces@, r.0 as int)
            },
            r.0 == self.pieces@.len() ==> logical_line >= self.line_total() && r.1 == 0,
    {
        let mut current: usize = 0;
        let mut i: usize = 0;
        while i < self.pieces.len()
            invariant
                self.wf(),
                i <= self.pieces@.len(),
                current == prefix(self.pieces@, i as int),
                logical_line >= current,
            decreases self.pieces@.len() - i,
        {
            proof {
                lemma_doc_at(self.pieces@, i as int, self.mem());
                self.lemma_total_bound();
            }
            let count = self.pieces[i].line_count();
            if logical_line < current + count {
                return (i, logical_line - current);
            }
            current = current + count;
            i = i + 1;
        }
        proof {
            assert(self.pieces@.subrange(0, i as int) =~= self.pieces@);
        }
        (self.pieces.len(), 0)
    }

    /// Takes into the pieces the file lines that the index found since the
    /// last call.
    pub fn sync_pieces(&mut self)
        requires
            old(self).wf(),
        ensures
            final(self).wf(),
            final(self).same_but_pieces(*old(self)),
            final(self).pieces@ == synced_pieces(
                old(self).pieces@,
                old(self).indexed_lines_added as int,
                old(self).index.original_total_lines as int,
            ),
            final(self).indexed_lines_added == old(self).index.original_total_lines,
            final(self).doc() == old(self).doc() + file_run(
                old(self).indexed_lines_added as int,
                old(self).index.original_total_lines - old(self).indexed_lines_added,
            ),
    {
        let current_original = self.index.original_total_lines;
        let ghost ps0 = self.pieces@;
        let ghost mem = self.mem();
        if current_original > self.indexed_lines_added {
            let diff = current_original - self.indexed_lines_added;
            let mut extended = false;
            let n = self.pieces.len();
            if n > 0 {
                let last = self.pieces[n - 1];
                match last {
                    Piece::Original { start_line, line_count } => {
                        assert(ps0[n - 1] == last);
                        if start_line + line_count == self.indexed_lines_added {
                            self.pieces.set(
                                n - 1,
                                Piece::Original { start_line, line_count: line_count + diff },
                            );
                            extended = true;
                            proof {
                                let ps1 = self.pieces@;
                                assert(ps1.drop_last() =~= ps0.drop_last());
                                assert(piece_lines(ps1.last(), mem) =~= piece_lines(ps0.last(), mem)
                                    + file_run(start_line + line_count, diff as int));
                                assert(doc_of(ps1, mem) =~= doc_of(ps0, mem) + file_run(
                                    start_line + line_count,
                                    diff as int,
                                ));
                                assert forall|i: int| 0 <= i < ps1.len() implies (
                                #[trigger] ps1[i] matches Piece::Original { start_line, line_count } ==> start_line
                                    + line_count <= current_original) by {
                                    if i < ps1.len() - 1 {
                                        assert(ps1[i] == ps0[i]);
                                    }
                                }
                                assert forall|i: int| 0 <= i < ps1.len() implies (
                                #[trigger] ps1[i] matches Piece::Memory { start_idx, line_count } ==> start_idx
                                    + line_count <= self.memory_buffer@.len()) by {
                                    if i < ps1.len() - 1 {
                                        assert(ps1[i] == ps0[i]);
                                    }
                                }
                            }
                        }
                    },
                    _ => {},
                }
            }
            if !extended {
                self.pieces.push(
                    Piece::Original { start_line: self.indexed_lines_added, line_count: diff },
                );
                proof {
                    let ps1 = self.pieces@;
                    assert(ps1.drop_last() =~= ps0);
                    assert(piece_lines(ps1.last(), mem) =~= file_run(
                        old(self).indexed_lines_added as int,
                        diff as int,
                    ));
                    assert forall|i: int| 0 <= i < ps1.len() implies (
                    #[trigger] ps1[i] matches Piece::Original { start_line, line_count } ==> start_line
                        + line_count <= current_original) by {
                        if i < ps1.len() - 1 {
                            assert(ps1[i] == ps0[i]);
                        }
                    }
                    assert forall|i: int| 0 <= i < ps1.len() implies (
                    #[trigger] ps1[i] matches Piece::Memory { start_idx, line_count } ==> start_idx
                        + line_count <= self.memory_buffer@.len()) by {
                        if i < ps1.len() - 1 {
                            assert(ps1[i] == ps0[i]);
                        }
                    }
                }
            }
            self.indexed_lines_added = current_original;
        } else {
            proof {
                assert(old(self).doc() + file_run(
                    old(self).indexed_lines_added as int,
                    old(self).index.original_total_lines - old(self).indexed_lines_added,
                ) =~= old(self).doc());
            }
        }
    }

    /// Cuts piece `idx` in two after `off` lines, leaving the document as it is.
    #[verifier::spinoff_prover]
    #[verifier::rlimit(30)]
    pub(crate) fn split_piece_raw(&mut self, idx: usize, off: usize)
        requires
            old(self).wf(),
        ensures
            final(self).wf(),
            final(self).same_but_pieces(*old(self)),
            final(self).indexed_lines_added == old(self).indexed_lines_added,
            final(self).pieces@ == split_pieces(old(self).pieces@, idx as int, off as int),
            final(self).doc() == old(self).doc(),
            pieces_nonempty(old(self).pieces@) ==> pieces_nonempty(final(self).pieces@),
    {
        if off == 0 || idx >= self.pieces.len() {
            return;
        }
        let piece = self.pieces[idx];
        if off >= piece.line_count() {
            return;
        }
        let ghost ps0 = self.pieces@;
        let ghost mem = self.mem();
        match piece {
            Piece::Original { start_line, line_count } => {
                self.pieces.set(idx, Piece::Original { start_line, line_count: off });
                self.pieces.insert(
                    idx + 1,
                    Piece::Original { start_line: start_line + off, line_count: line_count - off },
                );
            },
            Piece::Memory { start_idx, line_count } => {
                self.pieces.set(idx, Piece::Memory { start_idx, line_count: off });
                self.pieces.insert(
                    idx + 1,
                    Piece::Memory { start_idx: start_idx + off, line_count: line_count - off },
                );
            },
        }
        proof {
            lemma_split_pieces(ps0, idx as int, off as int, mem, self.indexed_lines_added as int, self.memory_buffer@.len() as int);
            assert(self.pieces@ =~= split_pieces(ps0, idx as int, off as int));
            if pieces_nonempty(ps0) {
                lemma_split_nonempty(ps0, idx as int, off as int);
            }
        }
    }

    /// Takes in newly indexed file lines, then cuts piece `piece_idx` in two
    /// after `offset` lines. The document is that of the first step.
    pub fn split_piece_at(&mut self, piece_idx: usize, offset: usize)
        requires
            old(self).wf(),
        ensures
            final(self).wf(),
            final(self).same_but_pieces(*old(self)),
            final(self).indexed_lines_added == old(self).index.original_total_lines,
            final(self).pieces@ == split_pieces(
                synced_pieces(
                    old(self).pieces@,
                    old(self).indexed_lines_added as int,
                    old(self).index.original_total_lines as int,
                ),
                piece_idx as int,
                offset as int,
            ),
            final(self).doc() == old(self).doc() + file_run(
                old(self).indexed_lines_added as int,
                old(self).index.original_total_lines - old(self).indexed_lines_added,
            ),
    {
        self.sync_pieces();
        self.split_piece_raw(piece_idx, offset);
    }
}

} // verus!
