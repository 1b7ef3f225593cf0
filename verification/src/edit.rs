//! Edits: deleting and inserting lines, and compacting the memory buffer.
use crate::document::{
    doc_of, file_lines, lemma_doc_at, lemma_doc_concat, lemma_doc_len, lemma_doc_mem_extend,
    lemma_insert_piece, lemma_remove_piece, lemma_total_concat, lemma_total_single, memory_lines,
    memory_within, piece_lines, prefix, splice, text_count, total, LineSource, doc_texts,
    lemma_packed_disjoint, lemma_packed_texts, memory_packed, pieces_nonempty, lemma_nonempty_edit,
};
use crate::engine::{file_run, lemma_split_prefix, synced_pieces, LogEngine};
use crate::models::Piece;
use crate::scan::nl_free;
use crate::text::{edit_lines, split_lines};
use vstd::prelude::*;
use vstd::utf8::encode_utf8;

verus! {

/// Once this many memory lines are unreferenced, the memory buffer is compacted.
pub const COMPACT_THRESHOLD: usize = 10000usize;

/// The document lines of inserted text.
pub open spec fn text_run(lines: Seq<Seq<char>>) -> Seq<LineSource> {
    lines.map_values(|l: Seq<char>| LineSource::Text(l))
}

/// The pieces keep their kinds, counts and file lines; only where their
/// memory lines are kept may change.
pub open spec fn same_shape(a: Seq<Piece>, b: Seq<Piece>) -> bool {
    &&& a.len() == b.len()
    &&& forall|i: int|
        0 <= i < a.len() ==> {
            &&& (#[trigger] a[i]).count() == b[i].count()
            &&& a[i] is Original <==> b[i] is Original
            &&& a[i] is Original ==> a[i] == b[i]
        }
}

impl<'a> LogEngine<'a> {
    /// Rebuilds the memory buffer from the lines the pieces refer to, in
    /// piece order, dropping the rest.
    pub fn compact_memory(&mut self)
        requires
            old(self).wf(),
        ensures
            final(self).wf(),
            final(self).doc() == old(self).doc(),
            final(self).wasted_memory_lines == 0,
            final(self).memory_buffer@.len() == memory_lines(final(self).pieces@),
            forall|i: int|
                0 <= i < final(self).pieces@.len() ==> (#[trigger] final(self).pieces@[i] matches Piece::Memory {
                    start_idx,
                    ..
                } ==> start_idx == memory_lines(final(self).pieces@.subrange(0, i))),
            final(self).mem() == doc_texts(final(self).doc()),
            old(self).memory_nl_free() ==> final(self).memory_nl_free(),
            same_shape(final(self).pieces@, old(self).pieces@),
            final(self).data@ == old(self).data@,
            final(self).index == old(self).index,
            final(self).bytes_processed == old(self).bytes_processed,
            final(self).indexed_lines_added == old(self).indexed_lines_added,
            final(self).is_fixed_width == old(self).is_fixed_width,
            final(self).fixed_width_size == old(self).fixed_width_size,
    {
        let ghost ps0 = self.pieces@;
        let ghost mem0 = self.mem();
        let ghost n_mem = self.memory_buffer@.len();
        let ghost nlf = old(self).memory_nl_free();
        let mut new_buf: Vec<String> = Vec::new();
        let mut i: usize = 0;
        proof {
            crate::document::lemma_total_split(ps0);
        }
        while i < self.pieces.len()
            invariant
                old(self).wf(),
                ps0 == old(self).pieces@,
                self.same_but_pieces(*old(self)),
                self.indexed_lines_added == old(self).indexed_lines_added,
                self.pieces@.len() == ps0.len(),
                i <= ps0.len(),
                self.memory_buffer@.len() == n_mem,
                self.mem() == mem0,
                forall|k: int| i <= k < ps0.len() ==> #[trigger] self.pieces@[k] == ps0[k],
                same_shape(self.pieces@, ps0),
                memory_within(ps0, n_mem as int),
                n_mem <= usize::MAX,
                nlf ==> forall|k: int| 0 <= k < mem0.len() ==> #[trigger] nl_free(encode_utf8(mem0[k])),
                nlf ==> forall|j: int| 0 <= j < new_buf@.len() ==> #[trigger] nl_free(encode_utf8(new_buf@[j]@)),
                forall|j: int|
                    0 <= j < i ==> (#[trigger] self.pieces@[j] matches Piece::Memory { start_idx, .. }
                        ==> start_idx == memory_lines(self.pieces@.subrange(0, j))),
                memory_within(self.pieces@.subrange(0, i as int), new_buf@.len() as int),
                new_buf@.len() == memory_lines(self.pieces@.subrange(0, i as int)),
                memory_lines(ps0) <= n_mem,
                memory_lines(self.pieces@.subrange(0, i as int)) == memory_lines(ps0.subrange(0, i as int)),
                doc_of(self.pieces@.subrange(0, i as int), new_buf@.map_values(|s: String| s@))
                    == doc_of(ps0.subrange(0, i as int), mem0),
            decreases ps0.len() - i,
        {
            let ghost ps_before = self.pieces@;
            let ghost buf_before = new_buf@;
            let p = self.pieces[i];
            proof {
                lemma_doc_at(ps0, i as int, mem0);
                assert(ps0.subrange(0, i + 1) =~= ps0.subrange(0, i as int) + seq![ps0[i as int]]);
                assert(p == ps0[i as int]);
                lemma_total_concat(ps0.subrange(0, i as int), seq![ps0[i as int]]);
                lemma_total_concat(ps0.subrange(0, i + 1), ps0.subrange(i + 1, ps0.len() as int));
                assert(ps0 =~= ps0.subrange(0, i + 1) + ps0.subrange(i + 1, ps0.len() as int));
                lemma_total_single(ps0[i as int]);
            }
            match p {
                Piece::Memory { start_idx, line_count } => {
                    assert(start_idx + line_count <= n_mem);
                    let new_start = new_buf.len();
                    let mut k: usize = 0;
                    while k < line_count
                        invariant
                            k <= line_count,
                            start_idx + line_count <= self.memory_buffer@.len(),
                            self.memory_buffer@.len() <= usize::MAX,
                            self.mem() == mem0,
                            new_buf@.len() == new_start + k,
                            new_start == buf_before.len(),
                            new_start + line_count <= memory_lines(ps0),
                            memory_lines(ps0) <= usize::MAX,
                            forall|j: int| 0 <= j < new_start ==> #[trigger] new_buf@[j] == buf_before[j],
                            forall|j: int|
                                0 <= j < k ==> #[trigger] new_buf@[new_start + j]@ == mem0[start_idx + j],
                            nlf ==> forall|k: int| 0 <= k < mem0.len() ==> #[trigger] nl_free(encode_utf8(mem0[k])),
                            nlf ==> forall|j: int| 0 <= j < new_buf@.len() ==> #[trigger] nl_free(encode_utf8(new_buf@[j]@)),
                        decreases line_count - k,
                    {
                        let line = self.memory_buffer[start_idx + k].clone();
                        proof {
                            assert(self.mem()[start_idx + k] == self.memory_buffer@[start_idx + k]@);
                        }
                        new_buf.push(line);
                        proof {
                            if nlf {
                                assert(nl_free(encode_utf8(mem0[start_idx + k])));
                                assert(new_buf@[new_start + k]@ == mem0[start_idx + k]);
                            }
                        }
                        k = k + 1;
                    }
                    self.pieces.set(i, Piece::Memory { start_idx: new_start, line_count });
                    proof {
                        let newp = Piece::Memory { start_idx: new_start, line_count };
                        let nm = new_buf@.map_values(|s: String| s@);
                        let bm = buf_before.map_values(|s: String| s@);
                        let pre = ps_before.subrange(0, i as int);
                        assert(self.pieces@.subrange(0, i as int) =~= pre);
                        assert(self.pieces@.subrange(0, i + 1) =~= pre.push(newp));
                        lemma_doc_mem_extend(pre, bm, nm);
                        lemma_doc_concat(pre, seq![newp], nm);
                        lemma_total_concat(pre, seq![newp]);
                        lemma_total_single(newp);
                        assert(pre + seq![newp] =~= pre.push(newp));
                        assert(piece_lines(newp, nm) =~= piece_lines(ps0[i as int], mem0));
                        assert forall|j: int| 0 <= j < i + 1 implies (#[trigger] self.pieces@[j] matches Piece::Memory {
                            start_idx,
                            ..
                        } ==> start_idx == memory_lines(self.pieces@.subrange(0, j))) by {
                            assert(self.pieces@.subrange(0, j) =~= ps_before.subrange(0, j));
                            if j < i {
                                assert(self.pieces@[j] == ps_before[j]);
                            }
                        }
                        lemma_doc_concat(ps0.subrange(0, i as int), seq![ps0[i as int]], mem0);
                        assert(ps0.subrange(0, i as int) + seq![ps0[i as int]] =~= ps0.subrange(0, i + 1));
                        assert forall|j: int| 0 <= j < i + 1 implies (
                        #[trigger] self.pieces@.subrange(0, i + 1)[j] matches Piece::Memory {
                            start_idx,
                            line_count,
                        } ==> start_idx + line_count <= new_buf@.len()) by {
                            if j < i {
                                assert(self.pieces@.subrange(0, i + 1)[j] == pre[j]);
                            }
                        }
                    }
                },
                Piece::Original { .. } => {
                    proof {
                        let nm = new_buf@.map_values(|s: String| s@);
                        let pre = ps_before.subrange(0, i as int);
                        assert(self.pieces@.subrange(0, i + 1) =~= pre.push(p));
                        lemma_doc_concat(pre, seq![p], nm);
                        lemma_total_concat(pre, seq![p]);
                        lemma_total_single(p);
                        assert(pre + seq![p] =~= pre.push(p));
                        assert(piece_lines(p, nm) =~= piece_lines(ps0[i as int], mem0));
                        lemma_doc_concat(ps0.subrange(0, i as int), seq![ps0[i as int]], mem0);
                        assert(ps0.subrange(0, i as int) + seq![ps0[i as int]] =~= ps0.subrange(0, i + 1));
                        assert forall|j: int| 0 <= j < i + 1 implies (
                        #[trigger] self.pieces@.subrange(0, i + 1)[j] matches Piece::Memory {
                            start_idx,
                            line_count,
                        } ==> start_idx + line_count <= new_buf@.len()) by {
                            if j < i {
                                assert(self.pieces@.subrange(0, i + 1)[j] == pre[j]);
                            }
                        }
                    }
                },
            }
            i = i + 1;
        }
        proof {
            assert(self.pieces@.subrange(0, i as int) =~= self.pieces@);
            assert(ps0.subrange(0, i as int) =~= ps0);
            assert forall|k: int| 0 <= k < self.pieces@.len() implies (
            #[trigger] self.pieces@[k] matches Piece::Original { start_line, line_count } ==> start_line
                + line_count <= self.indexed_lines_added) by {
                assert(ps0[k] is Original ==> self.pieces@[k] == ps0[k]);
            }
            lemma_same_shape_file_lines(self.pieces@, ps0);
        }
        self.memory_buffer = new_buf;
        self.wasted_memory_lines = 0;
        proof {
            let m = self.mem();
            assert(memory_packed(self.pieces@));
            lemma_packed_disjoint(self.pieces@);
            lemma_packed_texts(self.pieces@, m);
            assert(m.subrange(0, m.len() as int) =~= m);
        }
    }
}

impl<'a> LogEngine<'a> {
    /// Deletes up to `num_deleted` lines from the start of piece `piece_idx` on.
    #[verifier::rlimit(40)]
    fn delete_from_piece(&mut self, piece_idx: usize, num_deleted: usize)
        requires
            old(self).wf(),
            piece_idx <= old(self).pieces@.len(),
        ensures
            final(self).wf(),
            final(self).data@ == old(self).data@,
            final(self).index == old(self).index,
            final(self).bytes_processed == old(self).bytes_processed,
            final(self).is_fixed_width == old(self).is_fixed_width,
            final(self).fixed_width_size == old(self).fixed_width_size,
            final(self).indexed_lines_added == old(self).indexed_lines_added,
            final(self).memory_buffer@ == old(self).memory_buffer@,
            piece_idx <= final(self).pieces@.len(),
            prefix(final(self).pieces@, piece_idx as int) == prefix(old(self).pieces@, piece_idx as int),
            ({
                let d = old(self).doc();
                let s = prefix(old(self).pieces@, piece_idx as int) as int;
                let e = if s + num_deleted < d.len() { s + num_deleted } else { d.len() as int };
                final(self).doc() == d.subrange(0, s) + d.subrange(e, d.len() as int)
            }),
            pieces_nonempty(old(self).pieces@) ==> pieces_nonempty(final(self).pieces@),
    {
        let ghost doc0 = self.doc();
        let ghost mem0 = self.mem();
        let ghost memv0 = self.memory_buffer@;
        let ghost indexed = self.indexed_lines_added as int;
        let ghost s = prefix(self.pieces@, piece_idx as int) as int;
        proof {
            self.lemma_total_bound();
            if piece_idx < self.pieces@.len() {
                lemma_doc_at(self.pieces@, piece_idx as int, mem0);
            } else {
                assert(self.pieces@.subrange(0, piece_idx as int) =~= self.pieces@);
            }
            assert(doc0.subrange(0, s) + doc0.subrange(s, doc0.len() as int) =~= doc0);
        }
        let mut remaining = num_deleted;
        while remaining > 0 && piece_idx < self.pieces.len()
            invariant
                self.wf(),
                self.data@ == old(self).data@,
                self.index == old(self).index,
                self.bytes_processed == old(self).bytes_processed,
                self.is_fixed_width == old(self).is_fixed_width,
                self.fixed_width_size == old(self).fixed_width_size,
                self.indexed_lines_added == old(self).indexed_lines_added,
                self.indexed_lines_added == indexed,
                self.memory_buffer@ == memv0,
                self.mem() == mem0,
                piece_idx <= self.pieces@.len(),
                prefix(self.pieces@, piece_idx as int) == s,
                remaining <= num_deleted,
                0 <= s,
                s + (num_deleted - remaining) <= doc0.len(),
                self.doc() == doc0.subrange(0, s) + doc0.subrange(
                    s + (num_deleted - remaining),
                    doc0.len() as int,
                ),
                pieces_nonempty(old(self).pieces@) ==> pieces_nonempty(self.pieces@),
            decreases self.pieces@.len() - piece_idx, remaining,
        {
            let ghost ps = self.pieces@;
            let ghost del = num_deleted - remaining;
            let p = self.pieces[piece_idx];
            let count = p.line_count();
            proof {
                lemma_doc_at(ps, piece_idx as int, mem0);
                self.lemma_total_bound();
            }
            if count <= remaining {
                proof {
                    if pieces_nonempty(ps) {
                        lemma_nonempty_edit(ps, piece_idx as int, p);
                    }
                    lemma_remove_piece(ps, piece_idx as int, mem0, indexed, memv0.len() as int);
                    crate::document::lemma_total_split(ps);
                    let d = self.doc();
                    assert(d.subrange(0, s) =~= doc0.subrange(0, s));
                    assert(d.subrange(s + count, total(ps) as int) =~= doc0.subrange(
                        s + del + count,
                        doc0.len() as int,
                    ));
                }
                match p {
                    Piece::Memory { .. } => {
                        self.wasted_memory_lines = self.wasted_memory_lines + count;
                    },
                    _ => {},
                }
                self.pieces.remove(piece_idx);
                remaining = remaining - count;
            } else {
                self.split_piece_raw(piece_idx, remaining);
                let ghost ps2 = self.pieces@;
                proof {
                    if pieces_nonempty(ps2) {
                        lemma_nonempty_edit(ps2, piece_idx as int, p);
                    }
                    lemma_split_prefix(ps, piece_idx as int, remaining as int);
                    lemma_doc_at(ps2, piece_idx as int, mem0);
                    lemma_remove_piece(ps2, piece_idx as int, mem0, indexed, memv0.len() as int);
                    crate::document::lemma_total_split(ps2);
                    self.lemma_total_bound();
                    assert(prefix(ps2, piece_idx as int) == s) by {
                        assert(ps2.subrange(0, piece_idx as int) == ps.subrange(0, piece_idx as int));
                    }
                    let d = self.doc();
                    assert(d.subrange(0, s) =~= doc0.subrange(0, s));
                    assert(d.subrange(s + remaining, total(ps2) as int) =~= doc0.subrange(
                        s + del + remaining,
                        doc0.len() as int,
                    ));
                }
                let head = self.pieces[piece_idx];
                match head {
                    Piece::Memory { .. } => {
                        self.wasted_memory_lines = self.wasted_memory_lines + remaining;
                    },
                    _ => {},
                }
                self.pieces.remove(piece_idx);
                remaining = 0;
            }
        }
        proof {
            self.lemma_total_bound();
            if piece_idx == self.pieces@.len() {
                assert(self.pieces@.subrange(0, piece_idx as int) =~= self.pieces@);
            }
        }
    }

    /// Inserts the lines of `new_text` before piece `piece_idx`.
    fn insert_text_at(&mut self, piece_idx: usize, new_text: &str)
        requires
            old(self).wf(),
            piece_idx <= old(self).pieces@.len(),
            2 * old(self).data@.len() + old(self).memory_buffer@.len() + edit_lines(new_text@).len()
                < usize::MAX,
        ensures
            final(self).wf(),
            final(self).data@ == old(self).data@,
            final(self).index == old(self).index,
            final(self).bytes_processed == old(self).bytes_processed,
            final(self).is_fixed_width == old(self).is_fixed_width,
            final(self).fixed_width_size == old(self).fixed_width_size,
            final(self).indexed_lines_added == old(self).indexed_lines_added,
            final(self).wasted_memory_lines == old(self).wasted_memory_lines,
            final(self).memory_buffer@.len() == old(self).memory_buffer@.len() + edit_lines(new_text@).len(),
            final(self).mem() == old(self).mem() + edit_lines(new_text@),
            old(self).memory_nl_free() ==> final(self).memory_nl_free(),
            ({
                let d = old(self).doc();
                let s = prefix(old(self).pieces@, piece_idx as int) as int;
                final(self).doc() == d.subrange(0, s) + text_run(edit_lines(new_text@)) + d.subrange(
                    s,
                    d.len() as int,
                )
            }),
            pieces_nonempty(old(self).pieces@) ==> pieces_nonempty(final(self).pieces@),
    {
        let ghost doc0 = self.doc();
        let ghost mem0 = self.mem();
        let ghost memv0 = self.memory_buffer@;
        let ghost ps = self.pieces@;
        let ghost s = prefix(self.pieces@, piece_idx as int) as int;
        let ghost lines_spec = edit_lines(new_text@);
        proof {
            self.lemma_total_bound();
            lemma_insert_piece(ps, piece_idx as int, Piece::Memory { start_idx: 0, line_count: 0 }, mem0);
            lemma_doc_len(ps.subrange(0, piece_idx as int), mem0);
            if piece_idx < ps.len() {
                lemma_doc_at(ps, piece_idx as int, mem0);
            } else {
                assert(ps.subrange(0, piece_idx as int) =~= ps);
            }
            assert(doc0.subrange(0, s) + doc0.subrange(s, doc0.len() as int) =~= doc0);
            crate::document::lemma_concat_cancel(
                doc_of(ps.subrange(0, piece_idx as int), mem0),
                doc_of(ps.subrange(piece_idx as int, ps.len() as int), mem0),
                doc0.subrange(0, s),
                doc0.subrange(s, doc0.len() as int),
            );
        }
        if !new_text.is_empty() {
            let mut lines = split_lines(new_text);
            if lines.len() > 0 {
                let ghost lv = lines@;
                let start_idx = self.memory_buffer.len();
                let line_count = lines.len();
                self.memory_buffer.append(&mut lines);
                let newp = Piece::Memory { start_idx, line_count };
                self.pieces.insert(piece_idx, newp);
                proof {
                    if pieces_nonempty(ps) {
                        lemma_nonempty_edit(ps, piece_idx as int, newp);
                    }
                    let mem1 = self.mem();
                    assert(mem1.len() == mem0.len() + lv.len());
                    assert forall|k: int| 0 <= k < mem0.len() implies mem0[k] == mem1[k] by {
                        assert(self.memory_buffer@[k] == memv0[k]);
                    }
                    assert(memory_within(ps.subrange(0, piece_idx as int), mem0.len() as int)) by {
                        assert forall|k: int| 0 <= k < piece_idx implies (#[trigger] ps.subrange(0, piece_idx as int)[k] matches Piece::Memory { start_idx, line_count } ==> start_idx + line_count <= mem0.len()) by {
                            assert(ps.subrange(0, piece_idx as int)[k] == ps[k]);
                        }
                    }
                    assert(memory_within(ps.subrange(piece_idx as int, ps.len() as int), mem0.len() as int)) by {
                        assert forall|k: int| 0 <= k < ps.len() - piece_idx implies (#[trigger] ps.subrange(piece_idx as int, ps.len() as int)[k] matches Piece::Memory { start_idx, line_count } ==> start_idx + line_count <= mem0.len()) by {
                            assert(ps.subrange(piece_idx as int, ps.len() as int)[k] == ps[piece_idx + k]);
                        }
                    }
                    lemma_doc_mem_extend(ps.subrange(0, piece_idx as int), mem0, mem1);
                    lemma_doc_mem_extend(ps.subrange(piece_idx as int, ps.len() as int), mem0, mem1);
                    lemma_insert_piece(ps, piece_idx as int, newp, mem1);
                    assert(piece_lines(newp, mem1) =~= text_run(lines_spec));
                    assert forall|k: int| 0 <= k < self.pieces@.len() implies (
                    #[trigger] self.pieces@[k] matches Piece::Original { start_line, line_count } ==> start_line
                        + line_count <= self.indexed_lines_added) by {
                        if k < piece_idx {
                            assert(self.pieces@[k] == ps[k]);
                        } else if k > piece_idx {
                            assert(self.pieces@[k] == ps[k - 1]);
                        }
                    }
                    assert forall|k: int| 0 <= k < self.pieces@.len() implies (
                    #[trigger] self.pieces@[k] matches Piece::Memory { start_idx, line_count } ==> start_idx
                        + line_count <= self.memory_buffer@.len()) by {
                        if k < piece_idx {
                            assert(self.pieces@[k] == ps[k]);
                        } else if k > piece_idx {
                            assert(self.pieces@[k] == ps[k - 1]);
                        }
                    }
                    assert(self.doc() =~= doc0.subrange(0, s) + text_run(lines_spec) + doc0.subrange(
                        s,
                        doc0.len() as int,
                    ));
                    assert(mem1 =~= mem0 + lines_spec) by {
                        assert forall|k: int| 0 <= k < mem1.len() implies mem1[k] == (mem0 + lines_spec)[k] by {
                            if k < mem0.len() {
                                assert(mem0[k] == mem1[k]);
                            } else {
                                assert(self.memory_buffer@[k] == lv[k - mem0.len()]);
                                assert(lv[k - mem0.len()]@ == lines_spec[k - mem0.len()]);
                            }
                        }
                    }
                    if old(self).memory_nl_free() {
                        assert forall|k: int| 0 <= k < mem1.len() implies #[trigger] nl_free(encode_utf8(mem1[k])) by {
                            if k < mem0.len() {
                                assert(mem0[k] == mem1[k]);
                                assert(nl_free(encode_utf8(mem0[k])));
                            } else {
                                assert(self.memory_buffer@[k] == lv[k - mem0.len()]);
                                assert(nl_free(encode_utf8(lv[k - mem0.len()]@)));
                            }
                        }
                    }
                }
            } else {
                proof {
                    assert(text_run(lines_spec) =~= Seq::<LineSource>::empty());
                    assert(self.doc() =~= doc0.subrange(0, s) + text_run(lines_spec) + doc0.subrange(
                        s,
                        doc0.len() as int,
                    ));
                }
            }
        } else {
            proof {
                assert(new_text@ =~= Seq::<char>::empty());
                assert(vstd::utf8::encode_utf8(new_text@) =~= Seq::<u8>::empty());
                assert(crate::text::split_nl(Seq::<u8>::empty()) == seq![Seq::<u8>::empty()]);
                assert(crate::text::split_nl(Seq::<u8>::empty()).last() == Seq::<u8>::empty());
                assert(crate::text::text_lines(Seq::<u8>::empty()) =~= Seq::<Seq<u8>>::empty());
                assert(text_run(lines_spec) =~= Seq::<LineSource>::empty());
                assert(self.doc() =~= doc0.subrange(0, s) + text_run(lines_spec) + doc0.subrange(
                    s,
                    doc0.len() as int,
                ));
            }
        }
    }

    /// Replaces `num_deleted` lines from `start_line` on by the lines of
    /// `new_text`, after taking in newly indexed file lines. Deleting past the
    /// end stops at the end; a start past the end inserts at the end.
    pub fn apply_edit(&mut self, start_line: usize, num_deleted: usize, new_text: &str)
        requires
            old(self).wf(),
            2 * old(self).data@.len() + old(self).memory_buffer@.len() + edit_lines(new_text@).len()
                < usize::MAX,
        ensures
            final(self).wf(),
            final(self).doc() == splice(
                old(self).doc() + file_run(
                    old(self).indexed_lines_added as int,
                    old(self).index.original_total_lines - old(self).indexed_lines_added,
                ),
                start_line as int,
                num_deleted as int,
                text_run(edit_lines(new_text@)),
            ),
            final(self).data@ == old(self).data@,
            final(self).index == old(self).index,
            final(self).bytes_processed == old(self).bytes_processed,
            final(self).indexed_lines_added == old(self).index.original_total_lines,
            final(self).is_fixed_width == old(self).is_fixed_width,
            final(self).fixed_width_size == old(self).fixed_width_size,
            final(self).wasted_memory_lines <= COMPACT_THRESHOLD,
            ({
                let unused = old(self).memory_buffer@.len() + edit_lines(new_text@).len() - text_count(
                    final(self).doc(),
                );
                &&& final(self).wasted_memory_lines == if unused > COMPACT_THRESHOLD {
                    0
                } else {
                    unused
                }
                &&& final(self).memory_buffer@.len() == if unused > COMPACT_THRESHOLD {
                    text_count(final(self).doc())
                } else {
                    old(self).memory_buffer@.len() + edit_lines(new_text@).len()
                }
                &&& unused <= COMPACT_THRESHOLD ==> final(self).mem() == old(self).mem() + edit_lines(
                    new_text@,
                )
                &&& unused > COMPACT_THRESHOLD ==> final(self).mem() == doc_texts(final(self).doc())
            }),
            old(self).memory_nl_free() ==> final(self).memory_nl_free(),
            pieces_nonempty(
                synced_pieces(
                    old(self).pieces@,
                    old(self).indexed_lines_added as int,
                    old(self).index.original_total_lines as int,
                ),
            ) ==> pieces_nonempty(final(self).pieces@),
    {
        self.sync_pieces();
        let ghost doc0 = self.doc();
        let ghost mem0 = self.mem();
        proof {
            self.lemma_total_bound();
        }
        let ghost s: int = if start_line < doc0.len() { start_line as int } else { doc0.len() as int };
        let (mut piece_idx, offset) = self.find_piece_idx(start_line);
        if piece_idx < self.pieces.len() {
            let ghost ps_a = self.pieces@;
            proof {
                lemma_doc_at(ps_a, piece_idx as int, mem0);
            }
            self.split_piece_raw(piece_idx, offset);
            proof {
                if offset > 0 {
                    lemma_split_prefix(ps_a, piece_idx as int, offset as int);
                }
            }
            if offset > 0 {
                piece_idx = piece_idx + 1;
            }
        } else {
            proof {
                assert(self.pieces@.subrange(0, piece_idx as int) =~= self.pieces@);
            }
        }
        assert(prefix(self.pieces@, piece_idx as int) == s);
        self.delete_from_piece(piece_idx, num_deleted);
        let ghost doc1 = self.doc();
        self.insert_text_at(piece_idx, new_text);
        proof {
            let e = if s + num_deleted < doc0.len() { s + num_deleted } else { doc0.len() as int };
            assert(doc1.subrange(0, s) =~= doc0.subrange(0, s));
            assert(doc1.subrange(s, doc1.len() as int) =~= doc0.subrange(e, doc0.len() as int));
        }
        proof {
            crate::document::lemma_text_count_doc(self.pieces@, self.mem());
        }
        if self.wasted_memory_lines > COMPACT_THRESHOLD {
            let ghost ps_c = self.pieces@;
            self.compact_memory();
            proof {
                crate::document::lemma_text_count_doc(self.pieces@, self.mem());
                if pieces_nonempty(ps_c) {
                    assert forall|k: int| 0 <= k < self.pieces@.len() implies (#[trigger] self.pieces@[k]).count() > 0 by {
                        assert(ps_c[k].count() > 0);
                    }
                }
            }
        }
    }
}

/// Pieces of the same shape span as many file lines.
pub proof fn lemma_same_shape_file_lines(a: Seq<Piece>, b: Seq<Piece>)
    requires
        same_shape(a, b),
    ensures
        file_lines(a) == file_lines(b),
    decreases a.len(),
{
    if a.len() > 0 {
        assert(same_shape(a.drop_last(), b.drop_last())) by {
            assert forall|i: int| 0 <= i < a.drop_last().len() implies {
                &&& (#[trigger] a.drop_last()[i]).count() == b.drop_last()[i].count()
                &&& a.drop_last()[i] is Original <==> b.drop_last()[i] is Original
                &&& a.drop_last()[i] is Original ==> a.drop_last()[i] == b.drop_last()[i]
            } by {
                assert(a.drop_last()[i] == a[i]);
                assert(b.drop_last()[i] == b[i]);
            }
        }
        lemma_same_shape_file_lines(a.drop_last(), b.drop_last());
        assert(a.last() == a[a.len() - 1]);
        assert(b.last() == b[b.len() - 1]);
    }
}

} // verus!
