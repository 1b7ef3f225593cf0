//! The document a piece table stands for: its lines, where each comes from,
//! and how pieces and splices change it.
use crate::models::Piece;
use vstd::prelude::*;

verus! {

/// Where a line of the document comes from: a line of the file, by number,
/// or a line of text held in memory, by its characters.
pub enum LineSource {
    File(int),
    Text(Seq<char>),
}

/// Total number of lines that the pieces span.
pub open spec fn total(ps: Seq<Piece>) -> nat
    decreases ps.len(),
{
    if ps.len() == 0 {
        0
    } else {
        total(ps.drop_last()) + ps.last().count()
    }
}

/// Number of file lines that the pieces span.
pub open spec fn file_lines(ps: Seq<Piece>) -> nat
    decreases ps.len(),
{
    if ps.len() == 0 {
        0
    } else {
        file_lines(ps.drop_last()) + (if ps.last() is Original {
            ps.last().count()
        } else {
            0
        })
    }
}

/// Number of memory lines that the pieces span.
pub open spec fn memory_lines(ps: Seq<Piece>) -> nat
    decreases ps.len(),
{
    if ps.len() == 0 {
        0
    } else {
        memory_lines(ps.drop_last()) + (if ps.last() is Memory {
            ps.last().count()
        } else {
            0
        })
    }
}

/// Number of lines spanned by the first `i` pieces.
pub open spec fn prefix(ps: Seq<Piece>, i: int) -> nat {
    total(ps.subrange(0, i))
}

/// The lines one piece contributes to the document.
pub open spec fn piece_lines(p: Piece, mem: Seq<Seq<char>>) -> Seq<LineSource> {
    match p {
        Piece::Original { start_line, line_count } => Seq::new(
            line_count as nat,
            |k: int| LineSource::File(start_line + k),
        ),
        Piece::Memory { start_idx, line_count } => Seq::new(
            line_count as nat,
            |k: int| LineSource::Text(mem[start_idx + k]),
        ),
    }
}

/// The document that a piece table describes.
pub open spec fn doc_of(ps: Seq<Piece>, mem: Seq<Seq<char>>) -> Seq<LineSource>
    decreases ps.len(),
{
    if ps.len() == 0 {
        seq![]
    } else {
        doc_of(ps.drop_last(), mem) + piece_lines(ps.last(), mem)
    }
}

/// The document after replacing `deleted` lines at `start` by `inserted`
/// (both clamped to the document).
pub open spec fn splice(
    doc: Seq<LineSource>,
    start: int,
    deleted: int,
    inserted: Seq<LineSource>,
) -> Seq<LineSource> {
    let s = if start < doc.len() { start } else { doc.len() as int };
    let e = if s + deleted < doc.len() { s + deleted } else { doc.len() as int };
    doc.subrange(0, s) + inserted + doc.subrange(e, doc.len() as int)
}

pub proof fn lemma_total_concat(a: Seq<Piece>, b: Seq<Piece>)
    ensures
        total(a + b) == total(a) + total(b),
        file_lines(a + b) == file_lines(a) + file_lines(b),
        memory_lines(a + b) == memory_lines(a) + memory_lines(b),
    decreases b.len(),
{
    if b.len() == 0 {
        assert(a + b =~= a);
    } else {
        lemma_total_concat(a, b.drop_last());
        assert((a + b).drop_last() =~= a + b.drop_last());
    }
}

pub proof fn lemma_total_split(ps: Seq<Piece>)
    ensures
        total(ps) == file_lines(ps) + memory_lines(ps),
    decreases ps.len(),
{
    if ps.len() > 0 {
        lemma_total_split(ps.drop_last());
    }
}

pub proof fn lemma_total_single(p: Piece)
    ensures
        total(seq![p]) == p.count(),
        file_lines(seq![p]) == (if p is Original { p.count() } else { 0 }),
        memory_lines(seq![p]) == (if p is Memory { p.count() } else { 0 }),
        forall|mem: Seq<Seq<char>>| #[trigger] doc_of(seq![p], mem) == piece_lines(p, mem),
{
    let e = Seq::<Piece>::empty();
    assert(seq![p].drop_last() =~= e);
    assert(seq![p].last() == p);
    assert(total(e) == 0);
    assert(file_lines(e) == 0);
    assert(memory_lines(e) == 0);
    assert forall|mem: Seq<Seq<char>>| #[trigger] doc_of(seq![p], mem) == piece_lines(p, mem) by {
        assert(doc_of(e, mem) == Seq::<LineSource>::empty());
        assert(doc_of(seq![p], mem) =~= piece_lines(p, mem));
    }
}

pub proof fn lemma_doc_concat(a: Seq<Piece>, b: Seq<Piece>, mem: Seq<Seq<char>>)
    ensures
        doc_of(a + b, mem) == doc_of(a, mem) + doc_of(b, mem),
    decreases b.len(),
{
    if b.len() == 0 {
        assert(a + b =~= a);
        assert(doc_of(a, mem) + doc_of(b, mem) =~= doc_of(a, mem));
    } else {
        lemma_doc_concat(a, b.drop_last(), mem);
        assert((a + b).drop_last() =~= a + b.drop_last());
        assert(doc_of(a + b, mem) =~= doc_of(a, mem) + doc_of(b, mem));
    }
}

pub proof fn lemma_doc_len(ps: Seq<Piece>, mem: Seq<Seq<char>>)
    ensures
        doc_of(ps, mem).len() == total(ps),
    decreases ps.len(),
{
    if ps.len() > 0 {
        lemma_doc_len(ps.drop_last(), mem);
    }
}

/// Splitting the pieces at `i` splits the document at `prefix(ps, i)`.
pub proof fn lemma_doc_at(ps: Seq<Piece>, i: int, mem: Seq<Seq<char>>)
    requires
        0 <= i < ps.len(),
    ensures
        doc_of(ps, mem) == doc_of(ps.subrange(0, i), mem) + piece_lines(ps[i], mem) + doc_of(
            ps.subrange(i + 1, ps.len() as int),
            mem,
        ),
        total(ps) == prefix(ps, i) + ps[i].count() + total(ps.subrange(i + 1, ps.len() as int)),
        prefix(ps, i + 1) == prefix(ps, i) + ps[i].count(),
        doc_of(ps.subrange(0, i), mem).len() == prefix(ps, i),
{
    let a = ps.subrange(0, i);
    let b = ps.subrange(i + 1, ps.len() as int);
    assert(ps =~= a + seq![ps[i]] + b);
    lemma_doc_concat(a + seq![ps[i]], b, mem);
    lemma_doc_concat(a, seq![ps[i]], mem);
    lemma_total_concat(a + seq![ps[i]], b);
    lemma_total_concat(a, seq![ps[i]]);
    lemma_total_single(ps[i]);
    assert(ps.subrange(0, i + 1) =~= a + seq![ps[i]]);
    lemma_doc_len(a, mem);
}

/// Two pieces do not both refer to one line of the memory buffer.
pub open spec fn pieces_apart(a: Piece, b: Piece) -> bool {
    match (a, b) {
        (Piece::Memory { start_idx: s1, line_count: c1 }, Piece::Memory { start_idx: s2, line_count: c2 }) => s1
            + c1 <= s2 || s2 + c2 <= s1,
        _ => true,
    }
}

/// No two pieces refer to one line of the memory buffer.
pub open spec fn memory_disjoint(ps: Seq<Piece>) -> bool {
    forall|i: int, j: int| 0 <= i < j < ps.len() ==> pieces_apart(#[trigger] ps[i], #[trigger] ps[j])
}

/// The pieces' memory lines all lie below `n`.
pub open spec fn memory_within(ps: Seq<Piece>, n: int) -> bool {
    forall|i: int|
        0 <= i < ps.len() ==> (#[trigger] ps[i] matches Piece::Memory { start_idx, line_count } ==> start_idx
            + line_count <= n)
}

/// The pieces' file lines all lie below `n`.
pub open spec fn file_within(ps: Seq<Piece>, n: int) -> bool {
    forall|i: int|
        0 <= i < ps.len() ==> (#[trigger] ps[i] matches Piece::Original { start_line, line_count } ==> start_line
            + line_count <= n)
}

/// Every piece spans at least one line.
pub open spec fn pieces_nonempty(ps: Seq<Piece>) -> bool {
    forall|i: int| 0 <= i < ps.len() ==> (#[trigger] ps[i]).count() > 0
}

/// Pieces that each span a line, none of which is left in a document of no
/// lines: there are none.
pub proof fn lemma_nonempty_of_empty_doc(ps: Seq<Piece>)
    requires
        pieces_nonempty(ps),
        total(ps) == 0,
    ensures
        ps.len() == 0,
{
    if ps.len() > 0 {
        assert(ps[ps.len() - 1].count() > 0);
    }
}

/// Taking a piece out, or putting in one that spans a line, keeps every
/// piece spanning a line.
pub proof fn lemma_nonempty_edit(ps: Seq<Piece>, i: int, p: Piece)
    requires
        pieces_nonempty(ps),
    ensures
        0 <= i < ps.len() ==> pieces_nonempty(ps.remove(i)),
        0 <= i <= ps.len() && p.count() > 0 ==> pieces_nonempty(ps.insert(i, p)),
{
    if 0 <= i < ps.len() {
        assert forall|k: int| 0 <= k < ps.remove(i).len() implies (#[trigger] ps.remove(i)[k]).count() > 0 by {
            if k < i {
                assert(ps.remove(i)[k] == ps[k]);
            } else {
                assert(ps.remove(i)[k] == ps[k + 1]);
            }
        }
    }
    if 0 <= i <= ps.len() && p.count() > 0 {
        assert forall|k: int| 0 <= k < ps.insert(i, p).len() implies (#[trigger] ps.insert(i, p)[k]).count() > 0 by {
            if k < i {
                assert(ps.insert(i, p)[k] == ps[k]);
            } else if k > i {
                assert(ps.insert(i, p)[k] == ps[k - 1]);
            }
        }
    }
}

/// Growing the memory buffer leaves the document unchanged.
pub proof fn lemma_doc_mem_extend(ps: Seq<Piece>, mem: Seq<Seq<char>>, mem2: Seq<Seq<char>>)
    requires
        memory_within(ps, mem.len() as int),
        mem.len() <= mem2.len(),
        forall|k: int| 0 <= k < mem.len() ==> mem[k] == mem2[k],
    ensures
        doc_of(ps, mem) == doc_of(ps, mem2),
    decreases ps.len(),
{
    if ps.len() > 0 {
        lemma_doc_mem_extend(ps.drop_last(), mem, mem2);
        assert(ps.last() == ps[ps.len() - 1]);
        assert(piece_lines(ps.last(), mem) =~= piece_lines(ps.last(), mem2));
    }
}

} // verus!

verus! {

/// Removing piece `i` removes its lines from the document.
pub proof fn lemma_remove_piece(ps: Seq<Piece>, i: int, mem: Seq<Seq<char>>, n_file: int, n_mem: int)
    requires
        0 <= i < ps.len(),
        file_within(ps, n_file),
        memory_within(ps, n_mem),
    ensures
        doc_of(ps.remove(i), mem) == doc_of(ps, mem).subrange(0, prefix(ps, i) as int) + doc_of(
            ps,
            mem,
        ).subrange((prefix(ps, i) + ps[i].count()) as int, total(ps) as int),
        prefix(ps.remove(i), i) == prefix(ps, i),
        total(ps.remove(i)) == total(ps) - ps[i].count(),
        file_lines(ps.remove(i)) == file_lines(ps) - (if ps[i] is Original { ps[i].count() } else { 0 }),
        memory_lines(ps.remove(i)) == memory_lines(ps) - (if ps[i] is Memory { ps[i].count() } else { 0 }),
        file_within(ps.remove(i), n_file),
        memory_within(ps.remove(i), n_mem),
{
    let a = ps.subrange(0, i);
    let b = ps.subrange(i + 1, ps.len() as int);
    let p = ps[i];
    lemma_doc_at(ps, i, mem);
    assert(ps.remove(i) =~= a + b);
    lemma_doc_concat(a, b, mem);
    lemma_total_concat(a, b);
    lemma_total_concat(a + seq![p], b);
    lemma_total_concat(a, seq![p]);
    lemma_total_single(p);
    assert(ps =~= a + seq![p] + b);
    lemma_doc_len(a, mem);
    lemma_doc_len(ps, mem);
    lemma_total_single(p);
    assert(piece_lines(p, mem).len() == p.count()) by {
        match p {
            Piece::Original { .. } => {},
            Piece::Memory { .. } => {},
        }
    }
    let d = doc_of(ps, mem);
    assert(d.subrange(0, prefix(ps, i) as int) =~= doc_of(a, mem));
    assert(d.subrange((prefix(ps, i) + p.count()) as int, total(ps) as int) =~= doc_of(b, mem));
    assert(ps.remove(i).subrange(0, i) =~= a);
    assert forall|k: int| 0 <= k < ps.remove(i).len() implies (
    #[trigger] ps.remove(i)[k] matches Piece::Original { start_line, line_count } ==> start_line
        + line_count <= n_file) by {
        if k < i {
            assert(ps.remove(i)[k] == ps[k]);
        } else {
            assert(ps.remove(i)[k] == ps[k + 1]);
        }
    }
    assert forall|k: int| 0 <= k < ps.remove(i).len() implies (
    #[trigger] ps.remove(i)[k] matches Piece::Memory { start_idx, line_count } ==> start_idx
        + line_count <= n_mem) by {
        if k < i {
            assert(ps.remove(i)[k] == ps[k]);
        } else {
            assert(ps.remove(i)[k] == ps[k + 1]);
        }
    }
}

/// Inserting piece `p` at `i` inserts its lines into the document.
pub proof fn lemma_insert_piece(ps: Seq<Piece>, i: int, p: Piece, mem: Seq<Seq<char>>)
    requires
        0 <= i <= ps.len(),
    ensures
        doc_of(ps.insert(i, p), mem) == doc_of(ps.subrange(0, i), mem) + piece_lines(p, mem)
            + doc_of(ps.subrange(i, ps.len() as int), mem),
        doc_of(ps, mem) == doc_of(ps.subrange(0, i), mem) + doc_of(ps.subrange(i, ps.len() as int), mem),
        total(ps.insert(i, p)) == total(ps) + p.count(),
        file_lines(ps.insert(i, p)) == file_lines(ps) + (if p is Original { p.count() } else { 0 }),
        memory_lines(ps.insert(i, p)) == memory_lines(ps) + (if p is Memory { p.count() } else { 0 }),
{
    let a = ps.subrange(0, i);
    let b = ps.subrange(i, ps.len() as int);
    assert(ps.insert(i, p) =~= a + seq![p] + b);
    assert(ps =~= a + b);
    lemma_doc_concat(a + seq![p], b, mem);
    lemma_doc_concat(a, seq![p], mem);
    lemma_doc_concat(a, b, mem);
    lemma_total_concat(a + seq![p], b);
    lemma_total_concat(a, seq![p]);
    lemma_total_concat(a, b);
    lemma_total_single(p);
}

} // verus!

verus! {

/// Two concatenations that agree, with first parts of one length, agree part by part.
pub proof fn lemma_concat_cancel<A>(x: Seq<A>, y: Seq<A>, a: Seq<A>, b: Seq<A>)
    requires
        x + y == a + b,
        x.len() == a.len(),
    ensures
        x == a,
        y == b,
{
    assert forall|k: int| 0 <= k < x.len() implies x[k] == a[k] by {
        assert((x + y)[k] == x[k]);
        assert((a + b)[k] == a[k]);
    }
    assert(x =~= a);
    assert(y.len() == (x + y).len() - x.len());
    assert(b.len() == (a + b).len() - a.len());
    assert forall|k: int| 0 <= k < y.len() implies y[k] == b[k] by {
        assert((x + y)[x.len() + k] == y[k]);
        assert((a + b)[a.len() + k] == b[k]);
    }
    assert(y =~= b);
}

} // verus!

verus! {

/// Number of text lines (lines held in memory) in a document.
pub open spec fn text_count(d: Seq<LineSource>) -> nat
    decreases d.len(),
{
    if d.len() == 0 {
        0
    } else {
        text_count(d.drop_last()) + (if d.last() is Text {
            1nat
        } else {
            0nat
        })
    }
}

pub proof fn lemma_text_count_concat(a: Seq<LineSource>, b: Seq<LineSource>)
    ensures
        text_count(a + b) == text_count(a) + text_count(b),
    decreases b.len(),
{
    if b.len() == 0 {
        assert(a + b =~= a);
    } else {
        lemma_text_count_concat(a, b.drop_last());
        assert((a + b).drop_last() =~= a + b.drop_last());
    }
}

proof fn lemma_text_count_piece(p: Piece, mem: Seq<Seq<char>>, n: nat)
    requires
        n <= p.count(),
    ensures
        text_count(piece_lines(p, mem).subrange(0, n as int)) == (if p is Memory {
            n
        } else {
            0
        }),
    decreases n,
{
    let l = piece_lines(p, mem);
    if n == 0 {
        assert(l.subrange(0, 0) =~= Seq::<LineSource>::empty());
    } else {
        lemma_text_count_piece(p, mem, (n - 1) as nat);
        assert(l.subrange(0, n as int).drop_last() =~= l.subrange(0, n - 1));
    }
}

/// The text lines of a document are the memory lines its pieces span.
pub proof fn lemma_text_count_doc(ps: Seq<Piece>, mem: Seq<Seq<char>>)
    ensures
        text_count(doc_of(ps, mem)) == memory_lines(ps),
    decreases ps.len(),
{
    if ps.len() > 0 {
        lemma_text_count_doc(ps.drop_last(), mem);
        let p = ps.last();
        lemma_text_count_concat(doc_of(ps.drop_last(), mem), piece_lines(p, mem));
        lemma_text_count_piece(p, mem, p.count());
        assert(piece_lines(p, mem).subrange(0, p.count() as int) =~= piece_lines(p, mem));
    }
}

/// The text lines of a document, in order.
pub open spec fn doc_texts(d: Seq<LineSource>) -> Seq<Seq<char>>
    decreases d.len(),
{
    if d.len() == 0 {
        seq![]
    } else {
        doc_texts(d.drop_last()) + match d.last() {
            LineSource::Text(l) => seq![l],
            LineSource::File(_) => Seq::<Seq<char>>::empty(),
        }
    }
}

pub proof fn lemma_doc_texts_concat(a: Seq<LineSource>, b: Seq<LineSource>)
    ensures
        doc_texts(a + b) == doc_texts(a) + doc_texts(b),
    decreases b.len(),
{
    if b.len() == 0 {
        assert(a + b =~= a);
        assert(doc_texts(a) + doc_texts(b) =~= doc_texts(a));
    } else {
        lemma_doc_texts_concat(a, b.drop_last());
        assert((a + b).drop_last() =~= a + b.drop_last());
        assert(doc_texts(a + b) =~= doc_texts(a) + doc_texts(b));
    }
}

proof fn lemma_doc_texts_piece(p: Piece, mem: Seq<Seq<char>>, n: nat)
    requires
        n <= p.count(),
        p matches Piece::Memory { start_idx, line_count } ==> start_idx + line_count <= mem.len(),
    ensures
        doc_texts(piece_lines(p, mem).subrange(0, n as int)) == match p {
            Piece::Memory { start_idx, .. } => mem.subrange(start_idx as int, start_idx + n),
            Piece::Original { .. } => Seq::<Seq<char>>::empty(),
        },
    decreases n,
{
    let l = piece_lines(p, mem);
    if n == 0 {
        assert(l.subrange(0, 0) =~= Seq::<LineSource>::empty());
        if let Piece::Memory { start_idx, .. } = p {
            assert(mem.subrange(start_idx as int, start_idx as int) =~= Seq::<Seq<char>>::empty());
        }
    } else {
        lemma_doc_texts_piece(p, mem, (n - 1) as nat);
        assert(l.subrange(0, n as int).drop_last() =~= l.subrange(0, n - 1));
        if let Piece::Memory { start_idx, .. } = p {
            assert(mem.subrange(start_idx as int, start_idx + n) =~= mem.subrange(
                start_idx as int,
                start_idx + n - 1,
            ).push(mem[start_idx + n - 1]));
        }
    }
}

/// Memory pieces that take their lines one after the other from the start
/// of the buffer, in piece order.
pub open spec fn memory_packed(ps: Seq<Piece>) -> bool {
    forall|i: int|
        0 <= i < ps.len() ==> (#[trigger] ps[i] matches Piece::Memory { start_idx, .. } ==> start_idx
            == memory_lines(ps.subrange(0, i)))
}

/// Packed pieces' text lines are the buffer's first lines, in order.
pub proof fn lemma_packed_texts(ps: Seq<Piece>, mem: Seq<Seq<char>>)
    requires
        memory_packed(ps),
        memory_lines(ps) <= mem.len(),
    ensures
        doc_texts(doc_of(ps, mem)) == mem.subrange(0, memory_lines(ps) as int),
    decreases ps.len(),
{
    if ps.len() == 0 {
        assert(mem.subrange(0, 0) =~= Seq::<Seq<char>>::empty());
        return;
    }
    let q = ps.drop_last();
    let p = ps.last();
    assert forall|i: int| 0 <= i < q.len() implies (#[trigger] q[i] matches Piece::Memory {
        start_idx,
        ..
    } ==> start_idx == memory_lines(q.subrange(0, i))) by {
        assert(q[i] == ps[i]);
        assert(q.subrange(0, i) =~= ps.subrange(0, i));
    }
    lemma_packed_texts(q, mem);
    lemma_doc_texts_concat(doc_of(q, mem), piece_lines(p, mem));
    lemma_doc_texts_piece(p, mem, p.count());
    assert(piece_lines(p, mem).subrange(0, p.count() as int) =~= piece_lines(p, mem));
    assert(ps[ps.len() - 1] == p);
    assert(ps.subrange(0, ps.len() - 1) =~= q);
    if let Piece::Memory { start_idx, line_count } = p {
        assert(mem.subrange(0, memory_lines(q) as int) + mem.subrange(
            start_idx as int,
            start_idx + line_count,
        ) =~= mem.subrange(0, memory_lines(ps) as int));
    } else {
        assert(mem.subrange(0, memory_lines(q) as int) + Seq::<Seq<char>>::empty() =~= mem.subrange(
            0,
            memory_lines(ps) as int,
        ));
    }
}

proof fn lemma_memory_lines_prefix(ps: Seq<Piece>, i: int, j: int)
    requires
        0 <= i < j <= ps.len(),
    ensures
        memory_lines(ps.subrange(0, i)) + (if ps[i] is Memory { ps[i].count() } else { 0 })
            <= memory_lines(ps.subrange(0, j)),
    decreases j - i,
{
    if j == i + 1 {
        assert(ps.subrange(0, j).drop_last() =~= ps.subrange(0, i));
        assert(ps.subrange(0, j).last() == ps[i]);
    } else {
        lemma_memory_lines_prefix(ps, i, j - 1);
        assert(ps.subrange(0, j).drop_last() =~= ps.subrange(0, j - 1));
    }
}

/// Packed memory pieces refer to separate lines of the buffer.
pub proof fn lemma_packed_disjoint(ps: Seq<Piece>)
    requires
        memory_packed(ps),
    ensures
        memory_disjoint(ps),
{
    assert forall|i: int, j: int| 0 <= i < j < ps.len() implies pieces_apart(#[trigger] ps[i], #[trigger] ps[j]) by {
        lemma_memory_lines_prefix(ps, i, j);
    }
}

} // verus!

