//! Properties of the library that span several operations.
use crate::document::{
    doc_of, lemma_doc_at, lemma_doc_concat, piece_lines, prefix, splice, total, LineSource,
};
use crate::edit::text_run;
use crate::engine::{LogEngine, FIXED_WIDTH_SIZE};
use crate::index::{chunk_for_line, line_offset};
use crate::lines::{
    at_line_start, lemma_between_one, lemma_between_split, lemma_count_at_line_start,
    lemma_nl_end_unique, lemma_nl_skip, lemma_nl_skip_mono, lemma_skip_from, lemma_skip_lines_nl,
    line_start, lone_cr_free, nl_between, nl_skip,
};
use crate::models::{ChunkMeta, Piece};
use crate::outside::utf8_lossy;
use crate::render::{eof_start, holds_line, lemma_holds_line_unique, terminated};
use crate::scan::{count_nl, lemma_safe_cut_range, NEWLINE};
use crate::text::{edit_lines, lemma_encode_concat};
use vstd::prelude::*;
use vstd::utf8::{encode_utf8, is_ascii_chars, is_ascii_chars_encode_utf8};

verus! {

/// The lines, each followed by a line break, one after the other.
pub open spec fn lines_text(ls: Seq<Seq<char>>) -> Seq<char>
    decreases ls.len(),
{
    if ls.len() == 0 {
        seq![]
    } else {
        lines_text(ls.drop_last()) + ls.last() + seq!['\n']
    }
}

pub proof fn lemma_lines_text_concat(a: Seq<Seq<char>>, b: Seq<Seq<char>>)
    ensures
        lines_text(a + b) == lines_text(a) + lines_text(b),
    decreases b.len(),
{
    if b.len() == 0 {
        assert(a + b =~= a);
        assert(lines_text(a) + lines_text(b) =~= lines_text(a));
    } else {
        lemma_lines_text_concat(a, b.drop_last());
        assert((a + b).drop_last() =~= a + b.drop_last());
        assert(lines_text(a + b) =~= lines_text(a) + lines_text(b));
    }
}

proof fn lemma_memory_text(e: LogEngine, start: int, n: nat)
    requires
        0 <= start,
        start + n <= e.mem().len(),
    ensures
        e.memory_text(start, n) == lines_text(e.mem().subrange(start, start + n)),
    decreases n,
{
    if n > 0 {
        lemma_memory_text(e, start, (n - 1) as nat);
        assert(e.mem().subrange(start, start + n).drop_last() =~= e.mem().subrange(start, start + n - 1));
    } else {
        assert(e.mem().subrange(start, start + n) =~= Seq::<Seq<char>>::empty());
    }
}

/// Rendering from line `off` of piece `idx`: when the document lines there
/// are all text lines, the result is their text.
proof fn lemma_render_text(e: LogEngine, idx: int, off: int, want: nat, lines: Seq<Seq<char>>)
    requires
        e.wf(),
        0 <= idx <= e.pieces@.len(),
        0 <= off,
        idx < e.pieces@.len() ==> off <= e.pieces@[idx].count(),
        idx == e.pieces@.len() ==> off == 0 && want == 0,
        lines.len() == want,
        prefix(e.pieces@, idx) + off + want <= e.line_total(),
        e.doc().subrange(prefix(e.pieces@, idx) + off, prefix(e.pieces@, idx) + off + want)
            == text_run(lines),
    ensures
        e.render_from(idx, off, want) == lines_text(lines),
    decreases e.pieces@.len() - idx,
{
    if want == 0 {
        assert(lines =~= Seq::<Seq<char>>::empty());
        return;
    }
    let ps = e.pieces@;
    let mem = e.mem();
    let p = ps[idx];
    let q = prefix(ps, idx) + off;
    let count = p.count() - off;
    let take = if count < want { count } else { want as int };
    lemma_doc_at(ps, idx, mem);
    e.lemma_total_bound();
    let d = e.doc();
    // The piece's lines sit at prefix(idx).. in the document.
    assert forall|k: int| 0 <= k < p.count() implies d[prefix(ps, idx) + k] == #[trigger] piece_lines(p, mem)[k] by {
        assert(d[prefix(ps, idx) + k] == (doc_of(ps.subrange(0, idx), mem) + piece_lines(p, mem))[prefix(ps, idx) + k]);
    }
    let first = lines.subrange(0, take);
    let rest = lines.subrange(take, want as int);
    assert(lines =~= first + rest);
    lemma_lines_text_concat(first, rest);
    if take > 0 {
        // A text line there means the piece is a memory piece.
        assert(d[q] == text_run(lines)[0]);
        match p {
            Piece::Original { start_line, .. } => {
                assert(piece_lines(p, mem)[off] == LineSource::File(start_line + off));
                assert(false);
            },
            Piece::Memory { start_idx, line_count } => {
                assert(ps[idx] == p);
                assert(start_idx + line_count <= mem.len());
                lemma_memory_text(e, start_idx + off, take as nat);
                assert forall|k: int| 0 <= k < take implies #[trigger] mem.subrange(
                    start_idx + off,
                    start_idx + off + take,
                )[k] == first[k] by {
                    assert(d[q + k] == text_run(lines)[k]);
                    assert(piece_lines(p, mem)[off + k] == LineSource::Text(mem[start_idx + off + k]));
                }
                assert(mem.subrange(start_idx + off, start_idx + off + take) =~= first);
                assert(e.segment_text(p, off, take as nat) == lines_text(first));
            },
        }
    } else {
        assert(first =~= Seq::<Seq<char>>::empty());
        assert(e.segment_text(p, off, take as nat) == lines_text(first));
    }
    // The rest starts after this piece, or is empty.
    if want - take > 0 {
        assert(take == count);
        assert(idx + 1 < ps.len()) by {
            if idx + 1 == ps.len() {
                assert(ps.subrange(idx + 1, ps.len() as int) =~= Seq::<Piece>::empty());
                assert(total(ps.subrange(idx + 1, ps.len() as int)) == 0);
            }
        }
        assert(prefix(ps, idx + 1) == q + take);
        let dd = d.subrange(q, q + want);
        assert(d.subrange(q + take, q + want) =~= dd.subrange(take, want as int));
        assert(text_run(lines).subrange(take, want as int) =~= text_run(rest));
        lemma_render_text(e, idx + 1, 0, (want - take) as nat, rest);
    } else {
        assert(rest =~= Seq::<Seq<char>>::empty());
        assert(lines_text(rest) =~= Seq::<char>::empty());
    }
    assert(e.render_from(idx, off, want) == e.segment_text(p, off, take as nat) + e.render_from(
        idx + 1,
        0,
        (want - take) as nat,
    ));
}

/// A block read over document lines that are all text lines gives back
/// those lines, each followed by a line break: what an edit wrote is what a
/// read returns.
pub proof fn law_text_reads_back(e: LogEngine, start: int, lines: Seq<Seq<char>>)
    requires
        e.wf(),
        0 <= start,
        start + lines.len() <= e.line_total(),
        e.doc().subrange(start, start + lines.len()) == text_run(lines),
    ensures
        forall|n: nat|
            n <= lines.len() ==> #[trigger] e.block_text(start, n) == lines_text(lines.subrange(0, n as int)),
{
    assert forall|n: nat| n <= lines.len() implies #[trigger] e.block_text(start, n) == lines_text(
        lines.subrange(0, n as int),
    ) by {
        if n == 0 {
            assert(lines.subrange(0, 0) =~= Seq::<Seq<char>>::empty());
        } else {
            let ps = e.pieces@;
            e.lemma_total_bound();
            lemma_find_holder(ps, start);
            let i = choose|i: int| holds_line(ps, start, i);
            let off = start - prefix(ps, i);
            lemma_doc_at(ps, i, e.mem());
            let whole = e.doc().subrange(start, start + lines.len());
            assert(e.doc().subrange(start, start + n) =~= whole.subrange(0, n as int));
            assert(text_run(lines).subrange(0, n as int) =~= text_run(lines.subrange(0, n as int)));
            assert(e.doc().subrange(start, start + n) =~= text_run(lines.subrange(0, n as int)));
            lemma_render_text(e, i, off, n, lines.subrange(0, n as int));
        }
    }
}

/// Some piece holds each line of the document.
pub proof fn lemma_find_holder(ps: Seq<Piece>, line: int)
    requires
        0 <= line < total(ps),
    ensures
        exists|i: int| holds_line(ps, line, i),
{
    lemma_find_holder_from(ps, line, 0);
}

proof fn lemma_find_holder_from(ps: Seq<Piece>, line: int, i: int)
    requires
        0 <= i <= ps.len(),
        prefix(ps, i) <= line < total(ps),
    ensures
        exists|j: int| holds_line(ps, line, j),
    decreases ps.len() - i,
{
    if i == ps.len() {
        assert(ps.subrange(0, i) =~= ps);
    } else {
        lemma_doc_at(ps, i, seq![]);
        if line < prefix(ps, i + 1) {
            assert(holds_line(ps, line, i));
        } else {
            lemma_find_holder_from(ps, line, i + 1);
        }
    }
}

/// An edit puts the lines of its text at its start line, or at the end of
/// the document when it starts past the end.
pub proof fn law_edit_places_text(
    synced: Seq<LineSource>,
    edited: Seq<LineSource>,
    start: int,
    deleted: int,
    text: Seq<char>,
)
    requires
        0 <= start,
        0 <= deleted,
        edited == splice(synced, start, deleted, text_run(edit_lines(text))),
    ensures
        ({
            let s = if start < synced.len() { start } else { synced.len() as int };
            edited.subrange(s, s + edit_lines(text).len()) == text_run(edit_lines(text))
        }),
{
    let s = if start < synced.len() { start } else { synced.len() as int };
    let t = text_run(edit_lines(text));
    assert(edited.subrange(s, s + t.len()) =~= t);
}

/// Among sorted chunks, one that starts at or before `line` leads to the
/// last such chunk, which `chunk_for_line` picks.
proof fn lemma_chunk_for_line(chunks: Seq<ChunkMeta>, line: int, i: int)
    requires
        0 <= i < chunks.len(),
        chunks[i].start_line <= line,
        forall|a: int, b: int|
            0 <= a <= b < chunks.len() ==> #[trigger] chunks[a].start_line
                <= #[trigger] chunks[b].start_line,
    ensures
        0 <= chunk_for_line(chunks, line) < chunks.len(),
        chunks[chunk_for_line(chunks, line)].start_line <= line,
        chunk_for_line(chunks, line) + 1 < chunks.len() ==> chunks[chunk_for_line(chunks, line)
            + 1].start_line > line,
    decreases chunks.len() - i,
{
    if i + 1 < chunks.len() && chunks[i + 1].start_line <= line {
        lemma_chunk_for_line(chunks, line, i + 1);
    } else {
        assert(0 <= i < chunks.len() && chunks[i].start_line <= line && (i + 1 < chunks.len()
            ==> chunks[i + 1].start_line > line));
    }
}

/// The index finds where a line starts: for a line the index has counted,
/// the byte offset the engine computes is just past the line's `\n`-counted
/// predecessor lines, provided every `\r` before that line is part of a
/// `\r\n`, and no index chunk that begins at this line begins inside it.
pub proof fn law_index_finds_line_start(e: LogEngine, line: nat)
    requires
        e.wf(),
        e.index_accurate(),
        !e.is_fixed_width,
        line < e.index.original_total_lines,
        lone_cr_free(e.data@, 0, line_start(e.data@, line)),
        forall|k: int|
            0 <= k < e.index.chunks@.len() && (#[trigger] e.index.chunks@[k]).start_line == line
                ==> at_line_start(e.data@, e.index.chunks@[k].byte_offset as int),
    ensures
        e.offset_of(line as int) == line_start(e.data@, line),
{
    reveal(line_offset);
    let s = e.data@;
    let chunks = e.index.chunks@;
    lemma_chunk_for_line(chunks, line as int, 0);
    let k = chunk_for_line(chunks, line as int);
    let c = chunks[k];
    let b = c.byte_offset as int;
    let n = (line - c.start_line) as nat;
    assert(c.start_line == count_nl(s.subrange(0, b)));
    lemma_skip_from(s, b, n);
    assert(nl_skip(s, b, n) == line_start(s, line));
    lemma_skip_lines_nl(s, b, n);
}

/// Reading file lines gives their bytes: `n` counted lines from line `a`
/// are the bytes from where line `a` starts to where line `a + n` starts,
/// line breaks included, where the index finds both of those starts.
pub proof fn law_file_lines_read_back(e: LogEngine, a: nat, n: nat)
    requires
        e.wf(),
        e.index_accurate(),
        !e.is_fixed_width,
        a + n < e.index.original_total_lines,
        lone_cr_free(e.data@, 0, line_start(e.data@, a + n)),
        forall|k: int|
            0 <= k < e.index.chunks@.len() && ((#[trigger] e.index.chunks@[k]).start_line == a
                || e.index.chunks@[k].start_line == a + n) ==> at_line_start(
                e.data@,
                e.index.chunks@[k].byte_offset as int,
            ),
    ensures
        e.original_bytes(a as int, n as int) == e.data@.subrange(
            line_start(e.data@, a),
            line_start(e.data@, a + n),
        ),
{
    let s = e.data@;
    lemma_nl_skip_mono(s, 0, a, n);
    law_index_finds_line_start(e, a);
    law_index_finds_line_start(e, a + n);
    if n == 0 || line_start(s, a) >= s.len() {
        assert(s.subrange(line_start(s, a), line_start(s, a + n)) =~= Seq::<u8>::empty());
    }
}

/// The lines of a fixed-width file start in order, the first at byte 0 and
/// every line from the last one on at the end of the file.
proof fn lemma_fixed_offsets(e: LogEngine, k: nat)
    requires
        e.wf(),
        e.is_fixed_width,
        e.index.original_total_lines == (e.data@.len() + FIXED_WIDTH_SIZE - 1) / (
        FIXED_WIDTH_SIZE as int),
    ensures
        e.offset_of(0) == 0,
        0 <= e.offset_of(k as int) <= e.offset_of(k + 1int) <= e.data@.len(),
        k >= e.index.original_total_lines ==> e.offset_of(k as int) == e.data@.len(),
{
    reveal(line_offset);
    let len = e.data@.len() as int;
    let total = e.index.original_total_lines as int;
    let fw = FIXED_WIDTH_SIZE as int;
    assert(total * fw >= len && (total - 1) * fw < len) by (nonlinear_arith)
        requires
            total == (len + fw - 1) / fw,
            fw == 4096,
            len >= 0,
    ;
    assert(k * fw <= (k + 1) * fw - fw) by (nonlinear_arith);
    if k >= total {
        assert(k * fw >= total * fw) by (nonlinear_arith)
            requires
                k >= total,
                fw > 0,
        ;
    }
    lemma_safe_cut_range(e.data@, k * fw);
    lemma_safe_cut_range(e.data@, (k + 1) * fw);
}

/// A fixed-width file's lines saved one after the other give the bytes up
/// to where line `n` starts.
proof fn lemma_fixed_save(e: LogEngine, n: nat)
    requires
        e.wf(),
        e.is_fixed_width,
        e.index.original_total_lines == (e.data@.len() + FIXED_WIDTH_SIZE - 1) / (
        FIXED_WIDTH_SIZE as int),
    ensures
        e.fixed_save_bytes(0, n) == e.data@.subrange(0, e.offset_of(n as int)),
    decreases n,
{
    lemma_fixed_offsets(e, 0);
    if n == 0 {
        assert(e.data@.subrange(0, 0) =~= Seq::<u8>::empty());
    } else {
        let m = (n - 1) as nat;
        lemma_fixed_save(e, m);
        lemma_fixed_offsets(e, m);
        let a = e.offset_of(m as int);
        let b = e.offset_of(n as int);
        assert(a + 0 == e.offset_of(0 + n - 1));
        if a < b {
            assert(e.data@.subrange(0, a) + e.data@.subrange(a, b) =~= e.data@.subrange(0, b));
        } else {
            assert(e.data@.subrange(0, a) + Seq::<u8>::empty() =~= e.data@.subrange(0, b));
        }
    }
}

/// Saving a file that was not edited writes it back: a fixed-width file
/// unchanged, and a fully indexed file with line breaks unchanged but for a
/// line break added at its end when it has none, provided no index chunk
/// other than the first claims the first line.
pub proof fn law_unedited_save(e: LogEngine)
    requires
        e.wf(),
        e.index_accurate(),
        e.index.is_finished,
        e.pieces@ == seq![Piece::Original { start_line: 0, line_count: e.index.original_total_lines }],
        e.is_fixed_width ==> e.index.original_total_lines == (e.data@.len() + FIXED_WIDTH_SIZE - 1)
            / (FIXED_WIDTH_SIZE as int),
        forall|k: int|
            0 <= k < e.index.chunks@.len() && (#[trigger] e.index.chunks@[k]).start_line == 0
                ==> e.index.chunks@[k].byte_offset == 0,
    ensures
        e.is_fixed_width ==> e.save_bytes(1) == e.data@,
        !e.is_fixed_width ==> e.save_bytes(1) == if e.data@.len() > 0 && e.data@.last() != NEWLINE {
            e.data@.push(NEWLINE)
        } else {
            e.data@
        },
{
    let s = e.data@;
    let total = e.index.original_total_lines;
    let p = e.pieces@[0];
    assert(e.save_bytes(1) == e.save_bytes(0) + e.piece_save_bytes(p));
    assert(e.save_bytes(0) + e.piece_save_bytes(p) =~= e.piece_save_bytes(p));
    if e.is_fixed_width {
        lemma_fixed_save(e, total as nat);
        lemma_fixed_offsets(e, total as nat);
        assert(s.subrange(0, s.len() as int) =~= s);
    } else {
        reveal(line_offset);
        assert(e.offset_of(total as int) == s.len());
        if total > 0 {
            let chunks = e.index.chunks@;
            lemma_chunk_for_line(chunks, 0, 0);
            let k = chunk_for_line(chunks, 0);
            assert(chunks[k].start_line == 0);
            assert(e.offset_of(0) == 0);
            if s.len() > 0 {
                assert(s.subrange(0, s.len() as int) =~= s);
            }
        }
        if s.len() == 0 {
            assert(e.original_bytes(0, total as int) =~= s);
        }
    }
}

proof fn lemma_encode_newline()
    ensures
        encode_utf8(seq!['\n']) == seq![NEWLINE],
{
    let s = seq!['\n'];
    assert(is_ascii_chars(s));
    is_ascii_chars_encode_utf8(s);
    assert(encode_utf8(s) =~= seq![NEWLINE]);
}

/// What a save writes for memory lines of a file with line breaks: their
/// text, each line followed by a line break.
proof fn lemma_memory_save(e: LogEngine, from: int, n: nat)
    requires
        !e.is_fixed_width,
        0 <= from,
        from + n <= e.mem().len(),
    ensures
        e.memory_save_bytes(from, n) == encode_utf8(lines_text(e.mem().subrange(from, from + n))),
    decreases n,
{
    let sub = e.mem().subrange(from, from + n);
    if n == 0 {
        assert(sub =~= Seq::<Seq<char>>::empty());
        assert(encode_utf8(Seq::<char>::empty()) =~= Seq::<u8>::empty());
    } else {
        lemma_memory_save(e, from, (n - 1) as nat);
        assert(sub.drop_last() =~= e.mem().subrange(from, from + n - 1));
        assert(sub.last() == e.mem()[from + n - 1]);
        lemma_encode_concat(lines_text(sub.drop_last()) + sub.last(), seq!['\n']);
        lemma_encode_concat(lines_text(sub.drop_last()), sub.last());
        lemma_encode_newline();
    }
}

/// What a save writes for the first `n` pieces, when their lines are the
/// text lines `ls`.
proof fn lemma_save_text(e: LogEngine, n: int, ls: Seq<Seq<char>>)
    requires
        e.wf(),
        !e.is_fixed_width,
        0 <= n <= e.pieces@.len(),
        doc_of(e.pieces@.subrange(0, n), e.mem()) == text_run(ls),
    ensures
        e.save_bytes(n) == encode_utf8(lines_text(ls)),
    decreases n,
{
    let ps = e.pieces@;
    let mem = e.mem();
    if n == 0 {
        assert(ps.subrange(0, 0) =~= Seq::<Piece>::empty());
        assert(text_run(ls).len() == ls.len());
        assert(ls =~= Seq::<Seq<char>>::empty());
        assert(encode_utf8(Seq::<char>::empty()) =~= Seq::<u8>::empty());
        return;
    }
    let p = ps[n - 1];
    assert(ps.subrange(0, n) =~= ps.subrange(0, n - 1) + seq![p]);
    lemma_doc_concat(ps.subrange(0, n - 1), seq![p], mem);
    assert(seq![p].drop_last() =~= Seq::<Piece>::empty());
    assert(doc_of(Seq::<Piece>::empty(), mem) =~= Seq::<LineSource>::empty());
    assert(doc_of(seq![p], mem) =~= piece_lines(p, mem));
    let d1 = doc_of(ps.subrange(0, n - 1), mem);
    let m = d1.len() as int;
    assert(text_run(ls).len() == ls.len());
    let l1 = ls.subrange(0, m);
    let l2 = ls.subrange(m, ls.len() as int);
    assert(ls =~= l1 + l2);
    assert(d1 =~= text_run(l1)) by {
        assert(d1 =~= text_run(ls).subrange(0, m));
    }
    assert(piece_lines(p, mem) =~= text_run(l2)) by {
        assert(piece_lines(p, mem) =~= text_run(ls).subrange(m, ls.len() as int));
    }
    lemma_save_text(e, n - 1, l1);
    lemma_lines_text_concat(l1, l2);
    lemma_encode_concat(lines_text(l1), lines_text(l2));
    match p {
        Piece::Original { start_line, line_count } => {
            if line_count > 0 {
                assert(piece_lines(p, mem)[0] == LineSource::File(start_line as int));
                assert(text_run(l2)[0] == LineSource::Text(l2[0]));
                assert(false);
            }
            assert(l2 =~= Seq::<Seq<char>>::empty());
            assert(e.piece_save_bytes(p) =~= Seq::<u8>::empty());
            assert(encode_utf8(Seq::<char>::empty()) =~= Seq::<u8>::empty());
        },
        Piece::Memory { start_idx, line_count } => {
            assert(ps[n - 1] == p);
            assert(start_idx + line_count <= mem.len());
            assert(l2 =~= mem.subrange(start_idx as int, start_idx + line_count)) by {
                assert forall|k: int| 0 <= k < l2.len() implies l2[k] == mem[start_idx + k] by {
                    assert(piece_lines(p, mem)[k] == LineSource::Text(mem[start_idx + k]));
                    assert(text_run(l2)[k] == LineSource::Text(l2[k]));
                }
            }
            lemma_memory_save(e, start_idx as int, line_count as nat);
        },
    }
    assert(e.save_bytes(n) == e.save_bytes(n - 1) + e.piece_save_bytes(ps[n - 1]));
}

/// Saving a document whose lines are all text lines, in a file with line
/// breaks, writes those lines, each followed by a line break: what edits
/// wrote is what a save writes.
pub proof fn law_text_saves_back(e: LogEngine, lines: Seq<Seq<char>>)
    requires
        e.wf(),
        !e.is_fixed_width,
        e.doc() == text_run(lines),
    ensures
        e.save_bytes(e.pieces@.len() as int) == encode_utf8(lines_text(lines)),
{
    assert(e.pieces@.subrange(0, e.pieces@.len() as int) =~= e.pieces@);
    lemma_save_text(e, e.pieces@.len() as int, lines);
}

/// Deleting the lines an edit inserted, where it inserted them, gives back
/// the document as it was; and an edit with no text inserts nothing, so
/// such a deletion is itself an edit.
pub proof fn law_delete_undoes_insert(before: Seq<LineSource>, start: int, text: Seq<char>)
    requires
        0 <= start,
    ensures
        edit_lines(Seq::<char>::empty()) == Seq::<Seq<char>>::empty(),
        ({
            let ins = text_run(edit_lines(text));
            let s = if start < before.len() { start } else { before.len() as int };
            splice(splice(before, start, 0, ins), s, ins.len() as int, text_run(edit_lines(Seq::<char>::empty())))
                == before
        }),
{
    let e: Seq<char> = Seq::empty();
    assert(encode_utf8(e) =~= Seq::<u8>::empty());
    assert(edit_lines(e) =~= Seq::<Seq<char>>::empty());
    let ins = text_run(edit_lines(text));
    let s = if start < before.len() { start } else { before.len() as int };
    let mid = splice(before, start, 0, ins);
    assert(mid.subrange(0, s) =~= before.subrange(0, s));
    assert(mid.subrange(s + ins.len(), mid.len() as int) =~= before.subrange(s, before.len() as int));
    assert(text_run(edit_lines(e)) =~= Seq::<LineSource>::empty());
    assert(splice(mid, s, ins.len() as int, text_run(edit_lines(e))) =~= before);
}

/// Scanning back from byte `i` for the start of the tail: it lands where
/// line `count - n` starts, `count` being the file's newlines, or at the
/// start when there are no more than `n` newlines.
proof fn lemma_eof_start(s: Seq<u8>, i: int, n: nat)
    requires
        0 <= i <= s.len(),
        n < count_nl(s) ==> nl_between(s, 0, i) >= count_nl(s) - n,
    ensures
        eof_start(s, i, nl_between(s, i, s.len() as int), n) == if n < count_nl(s) {
            line_start(s, (count_nl(s) - n) as nat)
        } else {
            0
        },
    decreases i,
{
    let len = s.len() as int;
    assert(s.subrange(0, len) =~= s);
    let total = count_nl(s);
    lemma_between_split(s, 0, i, len);
    if i <= 0 {
        assert(s.subrange(0, 0) =~= Seq::<u8>::empty());
        return;
    }
    let found = nl_between(s, i, len);
    lemma_between_split(s, i - 1, i, len);
    lemma_between_split(s, 0, i - 1, i);
    lemma_between_one(s, i - 1);
    if s[i - 1] == NEWLINE && found + 1 > n {
        if n < total {
            let m = (total - n) as nat;
            lemma_count_at_line_start(s, m);
            lemma_nl_skip(s, 0, m);
            lemma_nl_end_unique(s, 0, i, line_start(s, m));
        }
    } else {
        lemma_eof_start(s, i - 1, n);
    }
}

/// The end-of-file block is the text of the file from where its line
/// `count - n` starts, `count` being its number of newlines (from its start
/// when `n` reaches that count), with a final line break: the last `n`
/// lines of a file that ends with a line break, and one line more of one
/// that does not.
pub proof fn law_eof_block_is_file_tail(e: LogEngine, n: nat)
    requires
        e.wf(),
        !e.is_fixed_width,
        n > 0,
        e.data@.len() > 0,
    ensures
        e.eof_text(n) == terminated(
            utf8_lossy(
                e.data@.subrange(
                    if n < count_nl(e.data@) {
                        line_start(e.data@, (count_nl(e.data@) - n) as nat)
                    } else {
                        0
                    },
                    e.data@.len() as int,
                ),
            ),
        ),
{
    let s = e.data@;
    let len = s.len() as int;
    assert(s.subrange(len, len) =~= Seq::<u8>::empty());
    assert(s.subrange(0, len) =~= s);
    lemma_eof_start(s, len, n);
}

/// Reading a file that was not edited gives the text of its lines: `n`
/// lines from line `start` (no further than the last line) are the decoded
/// bytes from where line `start` starts to where the line after the last
/// one read starts, with a final line break, where the index places those
/// two lines where they start.
pub proof fn law_unedited_block_reads_lines(e: LogEngine, start: nat, n: nat)
    requires
        e.wf(),
        !e.is_fixed_width,
        e.pieces@ == seq![Piece::Original { start_line: 0, line_count: e.pieces@[0].count() as usize }],
        start < e.pieces@[0].count(),
        n >= 1,
        ({
            let m = if n < e.pieces@[0].count() - start { n } else { (e.pieces@[0].count() - start) as nat };
            &&& e.offset_of(start as int) == line_start(e.data@, start)
            &&& e.offset_of((start + m) as int) == line_start(e.data@, start + m)
        }),
    ensures
        ({
            let m = if n < e.pieces@[0].count() - start { n } else { (e.pieces@[0].count() - start) as nat };
            e.block_text(start as int, n) == terminated(
                utf8_lossy(e.data@.subrange(line_start(e.data@, start), line_start(e.data@, start + m))),
            )
        }),
{
    let ps = e.pieces@;
    let m = if n < ps[0].count() - start { n } else { (ps[0].count() - start) as nat };
    lemma_doc_at(ps, 0, e.mem());
    assert(ps.subrange(0, 0) =~= Seq::<Piece>::empty());
    assert(ps.subrange(1, 1) =~= Seq::<Piece>::empty());
    assert(holds_line(ps, start as int, 0));
    let i = choose|i: int| holds_line(ps, start as int, i);
    lemma_holds_line_unique(ps, start as int, i, 0);
    lemma_nl_skip_mono(e.data@, 0, start, m);
    assert(e.render_from(1, 0, (n - m) as nat) == Seq::<char>::empty());
    assert(e.render_from(0, start as int, n) == e.segment_text(ps[0], start as int, m) + e.render_from(
        1,
        0,
        (n - m) as nat,
    ));
    assert(e.segment_text(ps[0], start as int, m) + Seq::<char>::empty() =~= e.segment_text(ps[0], start as int, m));
}

/// Indexing only ever grows the index: a state reached from another by
/// steps that each grow the index grew out of it too.
pub proof fn law_index_grows_transitively(a: LogEngine, b: LogEngine, c: LogEngine)
    requires
        a.index_grows_to(b),
        b.index_grows_to(c),
    ensures
        a.index_grows_to(c),
{
    let n = a.index.chunks@.len() as int;
    assert(c.index.chunks@.subrange(0, n) =~= c.index.chunks@.subrange(0, b.index.chunks@.len() as int).subrange(0, n));
}

/// The bytes of each of the `n` file lines from line `from` on, from where
/// the index places the line to where it places the next one.
pub open spec fn line_spans(e: LogEngine, from: int, n: nat) -> Seq<Seq<u8>> {
    Seq::new(n, |i: int| e.data@.subrange(e.offset_of(from + i), e.offset_of(from + i + 1)))
}

/// The text of a line's bytes: decoded, and nothing for no bytes.
pub open spec fn span_text(b: Seq<u8>) -> Seq<char> {
    if b.len() == 0 {
        seq![]
    } else {
        utf8_lossy(b)
    }
}

proof fn lemma_fixed_spans(e: LogEngine, from: nat, n: nat)
    requires
        e.wf(),
        e.is_fixed_width,
        e.index.original_total_lines == (e.data@.len() + FIXED_WIDTH_SIZE - 1) / (
        FIXED_WIDTH_SIZE as int),
    ensures
        e.fixed_text(from as int, n) == lines_text(line_spans(e, from as int, n).map_values(|b: Seq<u8>| span_text(b))),
        line_spans(e, from as int, n).flatten() == e.data@.subrange(e.offset_of(from as int), e.offset_of(from + n as int)),
    decreases n,
{
    let sp = line_spans(e, from as int, n);
    lemma_fixed_offsets(e, from);
    if n == 0 {
        assert(sp =~= Seq::<Seq<u8>>::empty());
        assert(sp.map_values(|b: Seq<u8>| span_text(b)) =~= Seq::<Seq<char>>::empty());
        assert(e.data@.subrange(e.offset_of(from as int), e.offset_of(from as int)) =~= Seq::<u8>::empty());
    } else {
        let m = (n - 1) as nat;
        lemma_fixed_spans(e, from, m);
        lemma_fixed_offsets(e, from + m);
        let sp0 = line_spans(e, from as int, m);
        let a = e.offset_of(from + m as int);
        let b = e.offset_of(from + n as int);
        assert(from + n == from + m + 1);
        assert(sp =~= sp0.push(e.data@.subrange(a, b)));
        sp0.lemma_flatten_push(e.data@.subrange(a, b));
        lemma_fixed_mono(e, from, m);
        assert(e.data@.subrange(e.offset_of(from as int), a) + e.data@.subrange(a, b) =~= e.data@.subrange(
            e.offset_of(from as int),
            b,
        ));
        let ts = sp.map_values(|b: Seq<u8>| span_text(b));
        assert(ts.drop_last() =~= sp0.map_values(|b: Seq<u8>| span_text(b)));
        assert(ts.last() == span_text(e.data@.subrange(a, b)));
        if a == b {
            assert(e.data@.subrange(a, b).len() == 0);
        }
    }
}

/// Line `from + m` starts no earlier than line `from`.
proof fn lemma_fixed_mono(e: LogEngine, from: nat, m: nat)
    requires
        e.wf(),
        e.is_fixed_width,
        e.index.original_total_lines == (e.data@.len() + FIXED_WIDTH_SIZE - 1) / (
        FIXED_WIDTH_SIZE as int),
    ensures
        e.offset_of(from as int) <= e.offset_of(from + m as int),
    decreases m,
{
    lemma_fixed_offsets(e, from);
    if m > 0 {
        lemma_fixed_mono(e, from, (m - 1) as nat);
        lemma_fixed_offsets(e, (from + m - 1) as nat);
    }
}

/// Reading a fixed-width file that was not edited gives its lines as the
/// index places them: of `n` lines from line `start` (no further than the
/// last line), each is the decoded bytes from where its line starts to
/// where the next one starts, followed by a line break; and those spans
/// follow each other without gap or overlap, so that together they are the
/// file's bytes from the first line's start to the start of the line after
/// the last.
pub proof fn law_fixed_block_reads_line_spans(e: LogEngine, start: nat, n: nat)
    requires
        e.wf(),
        e.is_fixed_width,
        e.index.original_total_lines == (e.data@.len() + FIXED_WIDTH_SIZE - 1) / (
        FIXED_WIDTH_SIZE as int),
        e.pieces@ == seq![Piece::Original { start_line: 0, line_count: e.index.original_total_lines }],
        start < e.index.original_total_lines,
    ensures
        ({
            let m = if n < e.index.original_total_lines - start { n } else { (e.index.original_total_lines - start) as nat };
            &&& e.block_text(start as int, n) == lines_text(
                line_spans(e, start as int, m).map_values(|b: Seq<u8>| span_text(b)),
            )
            &&& line_spans(e, start as int, m).flatten() == e.data@.subrange(
                e.offset_of(start as int),
                e.offset_of(start + m as int),
            )
        }),
{
    let ps = e.pieces@;
    let total = e.index.original_total_lines;
    let m = if n < total - start { n } else { (total - start) as nat };
    lemma_fixed_spans(e, start, m);
    if n > 0 {
        lemma_doc_at(ps, 0, e.mem());
        assert(ps.subrange(0, 0) =~= Seq::<Piece>::empty());
        assert(ps.subrange(1, 1) =~= Seq::<Piece>::empty());
        assert(holds_line(ps, start as int, 0));
        let i = choose|i: int| holds_line(ps, start as int, i);
        lemma_holds_line_unique(ps, start as int, i, 0);
        assert(e.render_from(1, 0, (n - m) as nat) == Seq::<char>::empty());
        assert(e.render_from(0, start as int, n) == e.segment_text(ps[0], start as int, m) + e.render_from(
            1,
            0,
            (n - m) as nat,
        ));
        assert(e.segment_text(ps[0], start as int, m) + Seq::<char>::empty() =~= e.segment_text(
            ps[0],
            start as int,
            m,
        ));
    } else {
        assert(line_spans(e, start as int, 0).map_values(|b: Seq<u8>| span_text(b)) =~= Seq::<Seq<char>>::empty());
    }
}

} // verus!
