//! Building the line index, chunk by chunk or from per-chunk counts.
use crate::engine::LogEngine;
use crate::index::CARRIAGE_RETURN;
use crate::models::ChunkMeta;
use crate::scan::{count_newlines, count_nl, lemma_count_byte_bound, lemma_count_byte_concat, NEWLINE};
use vstd::prelude::*;

verus! {

/// Chunk size of the background indexer.
pub const LAZY_CHUNK_SIZE: usize = 5242880usize;

/// Chunk size of the parallel indexer.
pub const PARALLEL_CHUNK_SIZE: usize = 1048576usize;

/// Number of lines of a file of `data` bytes holding `counted` newlines: one
/// more when the last byte ends no line (neither `\n` nor `\r`), and at least
/// one for a non-empty file.
pub open spec fn final_line_count(data: Seq<u8>, counted: int) -> int {
    if data.len() == 0 {
        counted
    } else {
        let t = counted + (if data.last() != NEWLINE && data.last() != CARRIAGE_RETURN {
            1int
        } else {
            0int
        });
        if t == 0 {
            1
        } else {
            t
        }
    }
}

/// Sum of the first `n` counts.
pub open spec fn sum_counts(s: Seq<usize>, n: int) -> int
    decreases n,
{
    if n <= 0 {
        0
    } else {
        sum_counts(s, n - 1) + s[n - 1]
    }
}

/// Length of chunk `i` of a file of `len` bytes cut into chunks of `cs`.
pub open spec fn chunk_len(len: int, cs: int, i: int) -> int {
    if len - i * cs < cs {
        len - i * cs
    } else {
        cs
    }
}

/// Newlines in `[a, c)` are those in `[a, b)` and in `[b, c)`.
proof fn lemma_count_split(d: Seq<u8>, a: int, b: int, c: int)
    requires
        0 <= a <= b <= c <= d.len(),
    ensures
        count_nl(d.subrange(a, c)) == count_nl(d.subrange(a, b)) + count_nl(d.subrange(b, c)),
{
    lemma_count_byte_concat(d.subrange(a, b), d.subrange(b, c), NEWLINE);
    assert(d.subrange(a, b) + d.subrange(b, c) =~= d.subrange(a, c));
}

impl<'a> LogEngine<'a> {
    /// The index agrees with the file: each chunk starts after as many lines
    /// as there are `\n` before it, and the line total is that of the bytes
    /// processed so far, or of the whole file once indexing is finished.
    pub open spec fn index_accurate(self) -> bool {
        let chunks = self.index.chunks@;
        &&& forall|i: int|
            0 <= i < chunks.len() ==> #[trigger] chunks[i].start_line == count_nl(
                self.data@.subrange(0, chunks[i].byte_offset as int),
            )
        &&& (!self.is_fixed_width && !self.index.is_finished) ==> self.index.original_total_lines
            == count_nl(self.data@.subrange(0, self.bytes_processed as int))
        &&& (!self.is_fixed_width && self.index.is_finished) ==> self.index.original_total_lines
            == final_line_count(self.data@, count_nl(self.data@) as int)
    }

    /// The index of `later` grew out of that of `self`: no fewer bytes
    /// covered, no fewer lines, the chunks of `self` kept as the first ones,
    /// and a finished index still finished.
    pub open spec fn index_grows_to(self, later: Self) -> bool {
        &&& self.bytes_processed <= later.bytes_processed
        &&& self.index.original_total_lines <= later.index.original_total_lines
        &&& self.index.chunks@.len() <= later.index.chunks@.len()
        &&& later.index.chunks@.subrange(0, self.index.chunks@.len() as int) == self.index.chunks@
        &&& self.index.is_finished ==> later.index.is_finished
    }

    /// `self` and `other` differ at most in their index and how much of the
    /// file it covers.
    pub open spec fn same_but_index(self, other: Self) -> bool {
        &&& self.data@ == other.data@
        &&& self.pieces@ == other.pieces@
        &&& self.indexed_lines_added == other.indexed_lines_added
        &&& self.memory_buffer@ == other.memory_buffer@
        &&& self.wasted_memory_lines == other.wasted_memory_lines
        &&& self.is_fixed_width == other.is_fixed_width
        &&& self.fixed_width_size == other.fixed_width_size
    }

    /// Indexes the next chunk of at most `chunk_size` bytes: records where it
    /// starts and adds its newlines to the line total. `false` when the whole
    /// file was processed already.
    pub fn index_step(&mut self, chunk_size: usize) -> (r: bool)
        requires
            old(self).wf(),
            !old(self).is_fixed_width,
            !old(self).index.is_finished,
            chunk_size > 0,
        ensures
            final(self).wf(),
            final(self).same_but_index(*old(self)),
            final(self).index.is_finished == old(self).index.is_finished,
            final(self).index.indexing_time_ms == old(self).index.indexing_time_ms,
            r == (old(self).bytes_processed < old(self).data@.len()),
            !r ==> *final(self) == *old(self),
            final(self).bytes_processed >= old(self).bytes_processed,
            final(self).index.original_total_lines >= old(self).index.original_total_lines,
            final(self).index.chunks@.len() >= old(self).index.chunks@.len(),
            old(self).index_grows_to(*final(self)),
            r ==> {
                let start = old(self).bytes_processed as int;
                let len = old(self).data@.len() as int;
                let end = if start + chunk_size < len { start + chunk_size } else { len };
                &&& final(self).bytes_processed == end
                &&& final(self).index.chunks@ == old(self).index.chunks@.push(
                    ChunkMeta {
                        byte_offset: start as u64,
                        start_line: old(self).index.original_total_lines,
                    },
                )
                &&& final(self).index.original_total_lines == old(self).index.original_total_lines
                    + count_nl(old(self).data@.subrange(start, end))
            },
            old(self).index_accurate() ==> final(self).index_accurate(),
    {
        let offset = self.bytes_processed;
        let len = self.data.len();
        if offset >= len {
            assert(self.index.chunks@.subrange(0, self.index.chunks@.len() as int) =~= self.index.chunks@);
            return false;
        }
        let end = if chunk_size < len - offset {
            offset + chunk_size
        } else {
            len
        };
        let count = count_newlines(&self.data[offset..end]);
        let ghost old_chunks = self.index.chunks@;
        let ghost total0 = self.index.original_total_lines;
        proof {
            lemma_count_byte_bound(self.data@.subrange(offset as int, end as int), NEWLINE);
        }
        self.index.chunks.push(ChunkMeta { byte_offset: offset as u64, start_line: self.index.original_total_lines });
        self.index.original_total_lines = self.index.original_total_lines + count;
        self.bytes_processed = end;
        proof {
            let chunks = self.index.chunks@;
            assert(chunks =~= old_chunks.push(ChunkMeta { byte_offset: offset as u64, start_line: total0 }));
            assert(chunks.subrange(0, old_chunks.len() as int) =~= old_chunks);
            assert forall|i: int| 0 <= i < chunks.len() implies #[trigger] chunks[i].byte_offset <= len
                && chunks[i].start_line <= self.index.original_total_lines by {
                if i < old_chunks.len() {
                    assert(chunks[i] == old_chunks[i]);
                    assert(old_chunks[i].byte_offset <= len);
                } else {
                    assert(chunks[i].byte_offset == offset);
                }
            }
            assert forall|i: int, j: int|
                0 <= i <= j < chunks.len() implies #[trigger] chunks[i].start_line
                <= #[trigger] chunks[j].start_line by {
                if j < old_chunks.len() {
                    assert(chunks[i] == old_chunks[i]);
                    assert(chunks[j] == old_chunks[j]);
                    assert(old_chunks[i].start_line <= old_chunks[j].start_line);
                } else if i < old_chunks.len() {
                    assert(chunks[i] == old_chunks[i]);
                    assert(old_chunks[i].byte_offset <= len);
                }
            }
            if old_chunks.len() == 0 {
                assert(chunks[0].byte_offset == 0);
            } else {
                assert(chunks[0] == old_chunks[0]);
            }
            if old(self).index_accurate() {
                let d = self.data@;
                lemma_count_byte_concat(d.subrange(0, offset as int), d.subrange(offset as int, end as int), NEWLINE);
                assert(d.subrange(0, offset as int) + d.subrange(offset as int, end as int) =~= d.subrange(0, end as int));
                assert forall|i: int| 0 <= i < chunks.len() implies #[trigger] chunks[i].start_line
                    == count_nl(d.subrange(0, chunks[i].byte_offset as int)) by {
                    if i < old_chunks.len() {
                        assert(chunks[i] == old_chunks[i]);
                    }
                }
            }
        }
        true
    }

    /// Completes the index once every chunk was processed: the last line
    /// counts when no line break ends the file, and a non-empty file has at
    /// least one line.
    pub fn finish_index(&mut self)
        requires
            old(self).wf(),
            !old(self).is_fixed_width,
            old(self).bytes_processed == old(self).data@.len(),
        ensures
            final(self).wf(),
            final(self).same_but_index(*old(self)),
            final(self).index.chunks@ == old(self).index.chunks@,
            final(self).index.indexing_time_ms == old(self).index.indexing_time_ms,
            final(self).bytes_processed == old(self).bytes_processed,
            final(self).index.is_finished,
            final(self).index.original_total_lines >= old(self).index.original_total_lines,
            old(self).index.is_finished ==> final(self).index == old(self).index,
            old(self).index_grows_to(*final(self)),
            !old(self).index.is_finished ==> final(self).index.original_total_lines == final_line_count(
                old(self).data@,
                old(self).index.original_total_lines as int,
            ),
            old(self).index_accurate() ==> final(self).index_accurate(),
    {
        assert(self.index.chunks@.subrange(0, self.index.chunks@.len() as int) =~= self.index.chunks@);
        if self.index.is_finished {
            return;
        }
        let len = self.data.len();
        let mut final_lines = self.index.original_total_lines;
        if len > 0 {
            let last = self.data[len - 1];
            if last != NEWLINE && last != CARRIAGE_RETURN {
                final_lines = final_lines + 1;
            }
            if final_lines == 0 {
                final_lines = 1;
            }
        }
        self.index.original_total_lines = final_lines;
        self.index.is_finished = true;
        proof {
            assert(self.data@.subrange(0, len as int) =~= self.data@);
        }
    }

    /// The chunks that indexing from byte `from` in steps of `cs` adds, after
    /// the `base` chunks there already were, starting at line `lines`: the
    /// `k`-th new chunk starts at byte `from + k * cs`, after the lines
    /// counted up to there.
    pub open spec fn chunks_from(self, base: int, from: int, lines: int, cs: int) -> bool {
        let chunks = self.index.chunks@;
        forall|j: int|
            base <= j < chunks.len() ==> #[trigger] chunks[j] == (ChunkMeta {
                byte_offset: (from + (j - base) * cs) as u64,
                start_line: (lines + count_nl(self.data@.subrange(from, from + (j - base) * cs))) as usize,
            }) && from + (j - base) * cs < self.data@.len()
    }

    /// Indexes the rest of the file chunk by chunk, from where indexing got
    /// to, then completes the index: one chunk per `chunk_size` bytes, each
    /// starting after the lines counted up to it, and the line total of the
    /// whole file.
    #[verifier::spinoff_prover]
    pub fn build_index_sequential(&mut self, chunk_size: usize)
        requires
            old(self).wf(),
            !old(self).is_fixed_width,
            !old(self).index.is_finished,
            chunk_size > 0,
        ensures
            final(self).wf(),
            final(self).same_but_index(*old(self)),
            final(self).index.indexing_time_ms == old(self).index.indexing_time_ms,
            final(self).index.is_finished,
            final(self).bytes_processed == final(self).data@.len(),
            final(self).index.chunks@.len() >= old(self).index.chunks@.len(),
            final(self).index.chunks@.subrange(0, old(self).index.chunks@.len() as int)
                == old(self).index.chunks@,
            final(self).chunks_from(
                old(self).index.chunks@.len() as int,
                old(self).bytes_processed as int,
                old(self).index.original_total_lines as int,
                chunk_size as int,
            ),
            old(self).bytes_processed + (final(self).index.chunks@.len() - old(self).index.chunks@.len())
                * chunk_size >= final(self).data@.len(),
            final(self).index.original_total_lines == final_line_count(
                final(self).data@,
                old(self).index.original_total_lines + count_nl(
                    old(self).data@.subrange(old(self).bytes_processed as int, old(self).data@.len() as int),
                ),
            ),
            old(self).index_accurate() ==> final(self).index_accurate(),
            old(self).index_grows_to(*final(self)),
    {
        let ghost acc = self.index_accurate();
        let ghost c0 = self.index.chunks@;
        let ghost b0 = self.bytes_processed as int;
        let ghost t0 = self.index.original_total_lines as int;
        let ghost d = self.data@;
        let ghost cs = chunk_size as int;
        proof {
            assert(d.subrange(b0, b0) =~= Seq::<u8>::empty());
            assert(self.index.chunks@.subrange(0, c0.len() as int) =~= c0);
        }
        loop
            invariant
                self.wf(),
                !self.is_fixed_width,
                !self.index.is_finished,
                chunk_size > 0,
                cs == chunk_size,
                0 <= b0,
                0 <= t0,
                self.same_but_index(*old(self)),
                self.data@ == d,
                self.index.indexing_time_ms == old(self).index.indexing_time_ms,
                acc ==> self.index_accurate(),
                self.index.chunks@.len() >= c0.len(),
                self.index.chunks@.subrange(0, c0.len() as int) == c0,
                self.chunks_from(c0.len() as int, b0, t0, cs),
                b0 <= self.bytes_processed <= d.len(),
                self.bytes_processed == (if b0 + (self.index.chunks@.len() - c0.len()) * cs < d.len() {
                    b0 + (self.index.chunks@.len() - c0.len()) * cs
                } else {
                    d.len() as int
                }),
                self.index.original_total_lines == t0 + count_nl(d.subrange(b0, self.bytes_processed as int)),
            ensures
                self.bytes_processed == d.len(),
                self.wf(),
                !self.is_fixed_width,
                !self.index.is_finished,
                self.same_but_index(*old(self)),
                self.data@ == d,
                self.index.indexing_time_ms == old(self).index.indexing_time_ms,
                acc ==> self.index_accurate(),
                self.index.chunks@.len() >= c0.len(),
                self.index.chunks@.subrange(0, c0.len() as int) == c0,
                self.chunks_from(c0.len() as int, b0, t0, cs),
                b0 + (self.index.chunks@.len() - c0.len()) * cs >= d.len(),
                self.index.original_total_lines == t0 + count_nl(d.subrange(b0, d.len() as int)),
            decreases self.data@.len() - self.bytes_processed,
        {
            let ghost prior = *self;
            let more = self.index_step(chunk_size);
            if !more {
                break;
            }
            proof {
                let k = prior.index.chunks@.len() - c0.len();
                let pb = prior.bytes_processed as int;
                let nb = self.bytes_processed as int;
                assert(b0 <= pb);
                assert(pb <= nb);
                assert(nb <= d.len());
                assert(k * cs >= 0) by (nonlinear_arith)
                    requires
                        k >= 0,
                        cs > 0,
                ;
                assert((k + 1) * cs == k * cs + cs) by (nonlinear_arith);
                assert(pb == b0 + k * cs);
                let chunks = self.index.chunks@;
                assert(chunks.subrange(0, c0.len() as int) =~= prior.index.chunks@.subrange(0, c0.len() as int));
                assert forall|j: int| c0.len() <= j < chunks.len() implies #[trigger] chunks[j] == (ChunkMeta {
                    byte_offset: (b0 + (j - c0.len()) * cs) as u64,
                    start_line: (t0 + count_nl(d.subrange(b0, b0 + (j - c0.len()) * cs))) as usize,
                }) && b0 + (j - c0.len()) * cs < d.len() by {
                    if j < prior.index.chunks@.len() {
                        assert(chunks[j] == prior.index.chunks@[j]);
                    } else {
                        assert(j - c0.len() == k);
                    }
                }
                lemma_count_split(d, b0, pb, nb);
            }
        }
        let ghost before = *self;
        self.finish_index();
        proof {
            let chunks = self.index.chunks@;
            assert(chunks == before.index.chunks@);
            assert forall|j: int| c0.len() <= j < chunks.len() implies #[trigger] chunks[j] == (ChunkMeta {
                byte_offset: (b0 + (j - c0.len()) * cs) as u64,
                start_line: (t0 + count_nl(d.subrange(b0, b0 + (j - c0.len()) * cs))) as usize,
            }) && b0 + (j - c0.len()) * cs < d.len() by {
                assert(chunks[j] == before.index.chunks@[j]);
            }
            assert(self.chunks_from(c0.len() as int, b0, t0, cs));
            assert(c0.len() == old(self).index.chunks@.len());
            assert(b0 == old(self).bytes_processed);
            assert(t0 == old(self).index.original_total_lines);
        }
    }

    /// Installs the index built from per-chunk newline counts: chunk `i`
    /// starts at byte `i * chunk_size` after as many lines as the counts
    /// before it; the total is completed as by `finish_index`.
    pub fn index_from_chunk_counts(&mut self, line_counts: &Vec<usize>, chunk_size: usize)
        requires
            old(self).wf(),
            !old(self).is_fixed_width,
            old(self).index.chunks@.len() == 0,
            old(self).indexed_lines_added == 0,
            chunk_size > 0,
            line_counts@.len() * chunk_size >= old(self).data@.len(),
            (line_counts@.len() - 1) * chunk_size < old(self).data@.len(),
            forall|i: int|
                0 <= i < line_counts@.len() ==> #[trigger] line_counts@[i] <= chunk_len(
                    old(self).data@.len() as int,
                    chunk_size as int,
                    i,
                ),
        ensures
            final(self).wf(),
            final(self).same_but_index(*old(self)),
            final(self).index.indexing_time_ms == old(self).index.indexing_time_ms,
            final(self).index.is_finished,
            final(self).bytes_processed == final(self).data@.len(),
            final(self).index.chunks@.len() == line_counts@.len(),
            forall|i: int|
                0 <= i < line_counts@.len() ==> #[trigger] final(self).index.chunks@[i] == (ChunkMeta {
                    byte_offset: (i * chunk_size) as u64,
                    start_line: sum_counts(line_counts@, i) as usize,
                }),
            final(self).index.original_total_lines == final_line_count(
                final(self).data@,
                sum_counts(line_counts@, line_counts@.len() as int),
            ),
            (forall|i: int|
                0 <= i < line_counts@.len() ==> #[trigger] line_counts@[i] == count_nl(
                    old(self).data@.subrange(
                        i * chunk_size,
                        i * chunk_size + chunk_len(old(self).data@.len() as int, chunk_size as int, i),
                    ),
                )) ==> final(self).index_accurate(),
    {
        let n = line_counts.len();
        let len = self.data.len();
        let ghost d = self.data@;
        let mut chunks: Vec<ChunkMeta> = Vec::new();
        let mut current: usize = 0;
        let mut i: usize = 0;
        let ghost exact = forall|i: int|
            0 <= i < line_counts@.len() ==> #[trigger] line_counts@[i] == count_nl(
                d.subrange(i * chunk_size, i * chunk_size + chunk_len(len as int, chunk_size as int, i)),
            );
        while i < n
            invariant
                n == line_counts@.len(),
                len == d.len(),
                d == self.data@,
                chunk_size > 0,
                n * chunk_size >= len,
                (n - 1) * chunk_size < len,
                forall|k: int|
                    0 <= k < n ==> #[trigger] line_counts@[k] <= chunk_len(len as int, chunk_size as int, k),
                i <= n,
                chunks@.len() == i,
                current == sum_counts(line_counts@, i as int),
                current <= i * chunk_size,
                current <= len,
                i < n ==> i * chunk_size < len,
                forall|k: int|
                    0 <= k < i ==> #[trigger] chunks@[k] == (ChunkMeta {
                        byte_offset: (k * chunk_size) as u64,
                        start_line: sum_counts(line_counts@, k) as usize,
                    }),
                forall|k: int| 0 <= k < i ==> #[trigger] chunks@[k].start_line <= current,
                forall|k: int, j: int|
                    0 <= k <= j < i ==> #[trigger] chunks@[k].start_line <= #[trigger] chunks@[j].start_line,
                exact == (forall|i: int|
                    0 <= i < line_counts@.len() ==> #[trigger] line_counts@[i] == count_nl(
                        d.subrange(i * chunk_size, i * chunk_size + chunk_len(len as int, chunk_size as int, i)),
                    )),
                exact ==> current == count_nl(d.subrange(0, if i * chunk_size < len { i * chunk_size } else { len as int })),
                exact ==> forall|k: int|
                    0 <= k < i ==> #[trigger] chunks@[k].start_line == count_nl(d.subrange(0, k * chunk_size)),
            decreases n - i,
        {
            let offset = i * chunk_size;
            let ghost cl = chunk_len(len as int, chunk_size as int, i as int);
            assert(line_counts@[i as int] <= cl);
            proof {
                assert(i * chunk_size + chunk_size == (i + 1) * chunk_size) by (nonlinear_arith);
                if i + 1 < n {
                    assert((i + 1) * chunk_size <= (n - 1) * chunk_size) by (nonlinear_arith)
                        requires
                            i + 1 <= n - 1,
                    ;
                }
            }
            let ghost chunks0 = chunks@;
            chunks.push(ChunkMeta { byte_offset: offset as u64, start_line: current });
            proof {
                let nxt = if (i + 1) * chunk_size < len { (i + 1) * chunk_size } else { len as int };
                assert(offset + cl == nxt);
                if exact {
                    let a = d.subrange(0, offset as int);
                    let b = d.subrange(offset as int, offset + cl);
                    lemma_count_byte_concat(a, b, NEWLINE);
                    assert(a + b =~= d.subrange(0, offset + cl));
                    assert(line_counts@[i as int] == count_nl(b));
                }
                assert forall|k: int| 0 <= k < i + 1 implies #[trigger] chunks@[k].start_line <= current + line_counts@[i as int] by {
                    if k < i {
                        assert(chunks@[k] == chunks0[k]);
                    }
                }
                assert forall|k: int, j: int|
                    0 <= k <= j < i + 1 implies #[trigger] chunks@[k].start_line <= #[trigger] chunks@[j].start_line by {
                    if k < i {
                        assert(chunks@[k] == chunks0[k]);
                    }
                    if j < i {
                        assert(chunks@[j] == chunks0[j]);
                    }
                }
                assert forall|k: int| 0 <= k < i + 1 implies #[trigger] chunks@[k] == (ChunkMeta {
                        byte_offset: (k * chunk_size) as u64,
                        start_line: sum_counts(line_counts@, k) as usize,
                    }) by {
                    if k < i {
                        assert(chunks@[k] == chunks0[k]);
                    }
                }
                if exact {
                    assert forall|k: int| 0 <= k < i + 1 implies #[trigger] chunks@[k].start_line == count_nl(d.subrange(0, k * chunk_size)) by {
                        if k < i {
                            assert(chunks@[k] == chunks0[k]);
                        }
                    }
                }
            }
            current = current + line_counts[i];
            i = i + 1;
        }
        let mut final_lines = current;
        if len > 0 {
            let last = self.data[len - 1];
            if last != NEWLINE && last != CARRIAGE_RETURN {
                final_lines = final_lines + 1;
            }
            if final_lines == 0 {
                final_lines = 1;
            }
        }
        self.index.chunks = chunks;
        self.index.original_total_lines = final_lines;
        self.index.is_finished = true;
        self.bytes_processed = len;
        proof {
            let ch = self.index.chunks@;
            assert forall|k: int| 0 <= k < ch.len() implies #[trigger] ch[k].byte_offset < len
                && ch[k].start_line <= final_lines by {
                assert(k * chunk_size < len) by (nonlinear_arith)
                    requires
                        0 <= k < n,
                        (n - 1) * chunk_size < len,
                        chunk_size > 0,
                ;
            }
            assert forall|a: int, b: int| 0 <= a < b < ch.len() implies #[trigger] ch[a].byte_offset
                < #[trigger] ch[b].byte_offset by {
                assert(a * chunk_size < b * chunk_size) by (nonlinear_arith)
                    requires
                        0 <= a < b,
                        chunk_size > 0,
                ;
                assert(b * chunk_size < len) by (nonlinear_arith)
                    requires
                        0 <= b < n,
                        (n - 1) * chunk_size < len,
                        chunk_size > 0,
                ;
            }
            if n > 0 {
                assert(ch[0].byte_offset == 0);
                assert(ch[0].start_line == 0);
            }
            if len == 0 {
                assert(n == 0) by (nonlinear_arith)
                    requires
                        (n - 1) * chunk_size < len,
                        len == 0,
                        chunk_size > 0,
                ;
            }
            if exact {
                assert(n * chunk_size >= len);
                assert(d.subrange(0, len as int) =~= d);
                assert forall|k: int| 0 <= k < ch.len() implies #[trigger] ch[k].start_line == count_nl(
                    self.data@.subrange(0, ch[k].byte_offset as int),
                ) by {
                    assert(k * chunk_size < len) by (nonlinear_arith)
                        requires
                            0 <= k < n,
                            (n - 1) * chunk_size < len,
                            chunk_size > 0,
                    ;
                }
            }
        }
    }

    /// Records how long building the index took.
    pub fn set_indexing_time(&mut self, ms: u128)
        requires
            old(self).wf(),
        ensures
            final(self).wf(),
            final(self).index.indexing_time_ms == ms,
            final(self).index.chunks@ == old(self).index.chunks@,
            final(self).index.original_total_lines == old(self).index.original_total_lines,
            final(self).index.is_finished == old(self).index.is_finished,
            final(self).same_but_index(*old(self)),
            final(self).bytes_processed == old(self).bytes_processed,
    {
        self.index.indexing_time_ms = ms;
    }
}

} // verus!
