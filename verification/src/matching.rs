//! What a search finds, stated over the document's lines.
use crate::document::{doc_of, lemma_doc_at, piece_lines, prefix, LineSource};
use crate::engine::LogEngine;
use crate::index::{line_offset, CARRIAGE_RETURN};
use crate::indexing::final_line_count;
use crate::laws::{law_index_finds_line_start, lemma_find_holder};
use crate::lines::{
    at_line_start, lemma_between_mono, lemma_between_one, lemma_between_split,
    lemma_count_at_line_start, lemma_in_line, lemma_line_end, lemma_line_of, lemma_line_start_past,
    lemma_nl_end_unique, lemma_nl_skip, lemma_nl_skip_mono, line_start, lone_cr_free, nl_between,
};
use crate::models::Piece;
use crate::outside::occurs_at;
use crate::render::{holds_line, lemma_prefix_mono};
use crate::scan::{count_nl, lemma_count_byte_concat, nl_free, NEWLINE};
use crate::search::{first_occurrence, last_occurrence, line_has};
use vstd::prelude::*;
use vstd::utf8::encode_utf8;

verus! {

/// The bytes of line `k` of `s`, its line break included.
pub open spec fn file_line_bytes(s: Seq<u8>, k: nat) -> Seq<u8> {
    s.subrange(line_start(s, k), line_start(s, k + 1))
}

/// Line `k` of `s` holds `q` in its bytes.
pub open spec fn file_line_has(s: Seq<u8>, k: nat, q: Seq<u8>) -> bool {
    exists|i: int| #[trigger] occurs_at(file_line_bytes(s, k), q, i)
}

impl<'a> LogEngine<'a> {
    /// Document line `j` holds `q`: a text line in its UTF-8 bytes, a file
    /// line in its bytes.
    pub open spec fn doc_line_has(self, j: int, q: Seq<u8>) -> bool {
        match self.doc()[j] {
            LineSource::Text(l) => line_has(l, q),
            LineSource::File(k) => file_line_has(self.data@, k as nat, q),
        }
    }

    /// The first document line from `from` to `to`, both included, that
    /// holds `q`.
    pub open spec fn first_doc_line(self, q: Seq<u8>, from: int, to: int) -> Option<int>
        decreases to + 1 - from,
    {
        if from > to {
            None
        } else if self.doc_line_has(from, q) {
            Some(from)
        } else {
            self.first_doc_line(q, from + 1, to)
        }
    }

    /// The index places file line `k`, and the one after it, where they
    /// start.
    pub open spec fn file_line_located(self, k: int) -> bool {
        &&& 0 <= k
        &&& self.offset_of(k) == line_start(self.data@, k as nat)
        &&& self.offset_of(k + 1) == line_start(self.data@, (k + 1) as nat)
    }

    /// Document line `j`, when it is a file line, is placed where it starts.
    pub open spec fn line_located(self, j: int) -> bool {
        match self.doc()[j] {
            LineSource::File(k) => self.file_line_located(k),
            LineSource::Text(_) => true,
        }
    }

    proof fn lemma_first_found(self, q: Seq<u8>, from: int, to: int, x: int)
        requires
            from <= x <= to,
            self.doc_line_has(x, q),
            forall|j: int| from <= j < x ==> !#[trigger] self.doc_line_has(j, q),
        ensures
            self.first_doc_line(q, from, to) == Some(x),
        decreases x - from,
    {
        if from < x {
            self.lemma_first_found(q, from + 1, to, x);
        }
    }

    proof fn lemma_first_none(self, q: Seq<u8>, from: int, to: int)
        requires
            forall|j: int| from <= j <= to ==> !#[trigger] self.doc_line_has(j, q),
        ensures
            self.first_doc_line(q, from, to) is None,
        decreases to + 1 - from,
    {
        if from <= to {
            self.lemma_first_none(q, from + 1, to);
        }
    }

    /// What `first_doc_line` finds: a line that holds `q` with none before
    /// it, or no line at all.
    proof fn lemma_first_shape(self, q: Seq<u8>, from: int, to: int)
        ensures
            self.first_doc_line(q, from, to) matches Some(x) ==> {
                &&& from <= x <= to
                &&& self.doc_line_has(x, q)
                &&& forall|j: int| from <= j < x ==> !#[trigger] self.doc_line_has(j, q)
            },
            self.first_doc_line(q, from, to) is None ==> forall|j: int|
                from <= j <= to ==> !#[trigger] self.doc_line_has(j, q),
        decreases to + 1 - from,
    {
        if from <= to {
            self.lemma_first_shape(q, from + 1, to);
        }
    }

    /// Searching a longer range finds what a shorter one found, and past
    /// lines without the query the search goes on where they end.
    proof fn lemma_first_extend(self, q: Seq<u8>, from: int, mid: int, to: int)
        requires
            from <= mid <= to + 1,
        ensures
            self.first_doc_line(q, from, mid - 1) is Some ==> self.first_doc_line(q, from, to)
                == self.first_doc_line(q, from, mid - 1),
            self.first_doc_line(q, from, mid - 1) is None ==> self.first_doc_line(q, from, to)
                == self.first_doc_line(q, mid, to),
        decreases mid - from,
    {
        self.lemma_first_shape(q, from, mid - 1);
        if let Some(x) = self.first_doc_line(q, from, mid - 1) {
            self.lemma_first_found(q, from, to, x);
        } else if from < mid {
            self.lemma_first_extend(q, from + 1, mid, to);
        }
    }
}

/// Where `q` occurs in `h`, it occurs a first time.
proof fn lemma_exists_least(h: Seq<u8>, q: Seq<u8>, k0: int)
    requires
        occurs_at(h, q, k0),
    ensures
        exists|k: int|
            occurs_at(h, q, k) && forall|j: int| 0 <= j < k ==> !#[trigger] occurs_at(h, q, j),
    decreases k0,
{
    if exists|j: int| 0 <= j < k0 && #[trigger] occurs_at(h, q, j) {
        let j = choose|j: int| 0 <= j < k0 && #[trigger] occurs_at(h, q, j);
        lemma_exists_least(h, q, j);
    } else {
        assert(occurs_at(h, q, k0) && forall|j: int| 0 <= j < k0 ==> !#[trigger] occurs_at(h, q, j));
    }
}

/// `first_occurrence` names an occurrence with none before it, or there is
/// none at all.
proof fn lemma_first_occurrence_shape(h: Seq<u8>, q: Seq<u8>)
    ensures
        first_occurrence(h, q) matches Some(k) ==> occurs_at(h, q, k) && forall|j: int|
            0 <= j < k ==> !#[trigger] occurs_at(h, q, j),
        first_occurrence(h, q) is None ==> forall|k: int| !#[trigger] occurs_at(h, q, k),
{
    if exists|k: int| occurs_at(h, q, k) {
        let k0 = choose|k: int| occurs_at(h, q, k);
        lemma_exists_least(h, q, k0);
    }
}

/// A query without line breaks found in the bytes of lines `a0..a0 + ts`
/// lies inside one of those lines: the one numbered by the newlines before
/// it.
proof fn lemma_block_hit(s: Seq<u8>, q: Seq<u8>, a0: nat, ts: nat, pos: int)
    requires
        q.len() > 0,
        forall|k: int| 0 <= k < q.len() ==> q[k] != NEWLINE,
        occurs_at(s.subrange(line_start(s, a0), line_start(s, a0 + ts)), q, pos),
    ensures
        ({
            let a = line_start(s, a0);
            let t = nl_between(s, a, a + pos);
            &&& t < ts
            &&& occurs_at(file_line_bytes(s, a0 + t), q, a + pos - line_start(s, a0 + t))
        }),
{
    let a = line_start(s, a0);
    let b = line_start(s, a0 + ts);
    let block = s.subrange(a, b);
    lemma_nl_skip_mono(s, 0, a0, ts);
    let x = a + pos;
    let len = s.len() as int;
    assert(x < b);
    if a0 > nl_between(s, 0, len) {
        lemma_line_start_past(s, a0);
    }
    lemma_count_at_line_start(s, a0);
    let f = nl_between(s, 0, x);
    lemma_line_of(s, x);
    lemma_between_mono(s, a, x);
    let t = nl_between(s, a, x);
    assert(a0 + t == f);
    if f >= a0 + ts {
        lemma_nl_skip_mono(s, 0, a0 + ts, (f - (a0 + ts)) as nat);
        assert(a0 + ts + (f - (a0 + ts)) as nat == f);
    }
    let e = line_start(s, f + 1);
    lemma_nl_skip_mono(s, 0, f, 1);
    if e < x + q.len() {
        lemma_line_end(s, f);
        assert(block[pos + (e - 1 - x)] == s[e - 1]);
        assert(block.subrange(pos, pos + q.len())[e - 1 - x] == q[e - 1 - x]);
        assert(false);
    }
    let lb = file_line_bytes(s, f);
    let ls = line_start(s, f);
    assert(lb.subrange(x - ls, x - ls + q.len()) =~= block.subrange(pos, pos + q.len()));
}

/// A line among `a0..a0 + ts` that holds the query puts it in the bytes of
/// those lines, after as many newlines as lines before it.
proof fn lemma_line_hit(s: Seq<u8>, q: Seq<u8>, a0: nat, ts: nat, t: nat, i: int)
    requires
        q.len() > 0,
        t < ts,
        occurs_at(file_line_bytes(s, a0 + t), q, i),
    ensures
        ({
            let a = line_start(s, a0);
            let x = line_start(s, a0 + t) + i;
            &&& occurs_at(s.subrange(a, line_start(s, a0 + ts)), q, x - a)
            &&& nl_between(s, a, x) == t
            &&& a <= x <= s.len()
        }),
{
    let a = line_start(s, a0);
    let b = line_start(s, a0 + ts);
    let f = a0 + t;
    let ls = line_start(s, f);
    lemma_nl_skip_mono(s, 0, a0, t);
    lemma_nl_skip_mono(s, 0, f + 1, (ts - t - 1) as nat);
    assert(f + 1 + (ts - t - 1) as nat == a0 + ts);
    lemma_nl_skip_mono(s, 0, f, 1);
    let x = ls + i;
    let len = s.len() as int;
    assert(x < line_start(s, f + 1));
    lemma_in_line(s, f, x);
    if a0 > nl_between(s, 0, len) {
        lemma_line_start_past(s, a0);
    }
    lemma_count_at_line_start(s, a0);
    lemma_between_mono(s, a, x);
    let lb = file_line_bytes(s, f);
    let block = s.subrange(a, b);
    assert(block.subrange(x - a, x - a + q.len()) =~= lb.subrange(i, i + q.len()));
}

impl<'a> LogEngine<'a> {
    /// Searching the bytes of lines `a0..a0 + ts` of `s` at once finds the
    /// first of them, as document lines from `current` on, that holds the
    /// query, when those document lines hold it just where those lines do.
    proof fn lemma_block_first(self, q: Seq<u8>, s: Seq<u8>, a0: nat, ts: nat, current: int)
        requires
            q.len() > 0,
            forall|k: int| 0 <= k < q.len() ==> q[k] != NEWLINE,
            ts >= 1,
            forall|t: nat| t < ts ==> #[trigger] self.doc_line_has(current + t, q) == file_line_has(
                s,
                a0 + t,
                q,
            ),
        ensures
            ({
                let a = line_start(s, a0);
                match first_occurrence(s.subrange(a, line_start(s, a0 + ts)), q) {
                    Some(pos) => Some(current + nl_between(s, a, a + pos)),
                    None => None,
                }
            }) == self.first_doc_line(q, current, current + ts - 1),
    {
        let a = line_start(s, a0);
        let b = line_start(s, a0 + ts);
        let block = s.subrange(a, b);
        lemma_nl_skip_mono(s, 0, a0, ts);
        lemma_first_occurrence_shape(block, q);
        match first_occurrence(block, q) {
            Some(pos) => {
                let tp = nl_between(s, a, a + pos);
                lemma_block_hit(s, q, a0, ts, pos);
                assert(self.doc_line_has(current + tp, q));
                assert forall|j: int| current <= j < current + tp implies !#[trigger] self.doc_line_has(j, q) by {
                    let t = (j - current) as nat;
                    assert(current + t == j);
                    if self.doc_line_has(j, q) {
                        let i = choose|i: int| #[trigger] occurs_at(file_line_bytes(s, a0 + t), q, i);
                        lemma_line_hit(s, q, a0, ts, t, i);
                        let x = line_start(s, a0 + t) + i;
                        assert(pos <= x - a);
                        lemma_between_mono(s, a, a + pos);
                        lemma_between_mono(s, a, x);
                        lemma_between_mono(s, a + pos, x);
                    }
                }
                self.lemma_first_found(q, current, current + ts - 1, current + tp);
            },
            None => {
                assert forall|j: int| current <= j <= current + ts - 1 implies !#[trigger] self.doc_line_has(j, q) by {
                    let t = (j - current) as nat;
                    assert(current + t == j);
                    if self.doc_line_has(j, q) {
                        let i = choose|i: int| #[trigger] occurs_at(file_line_bytes(s, a0 + t), q, i);
                        lemma_line_hit(s, q, a0, ts, t, i);
                    }
                }
                self.lemma_first_none(q, current, current + ts - 1);
            },
        }
    }

    /// Searching the bytes of file lines `a0..a0 + ts` at once finds the
    /// first of them, as document lines from `current` on, that holds the
    /// query.
    proof fn lemma_file_block(self, q: Seq<u8>, a0: nat, ts: nat, current: int)
        requires
            !self.is_fixed_width,
            q.len() > 0,
            forall|k: int| 0 <= k < q.len() ==> q[k] != NEWLINE,
            ts >= 1,
            self.offset_of(a0 as int) == line_start(self.data@, a0),
            self.offset_of((a0 + ts) as int) == line_start(self.data@, a0 + ts),
            forall|t: int| 0 <= t < ts ==> #[trigger] self.doc()[current + t] == LineSource::File(a0 + t),
        ensures
            (match first_occurrence(self.original_bytes(a0 as int, ts as int), q) {
                Some(pos) => Some(current + self.lines_before(self.original_bytes(a0 as int, ts as int), pos)),
                None => None,
            }) == self.first_doc_line(q, current, current + ts - 1),
    {
        let s = self.data@;
        let a = line_start(s, a0);
        let b = line_start(s, a0 + ts);
        let block = s.subrange(a, b);
        lemma_nl_skip_mono(s, 0, a0, ts);
        if a >= s.len() {
            assert(block =~= Seq::<u8>::empty());
        }
        assert(self.original_bytes(a0 as int, ts as int) == block);
        self.lemma_file_lines_have(q, a0, ts, current);
        self.lemma_block_first(q, s, a0, ts, current);
        lemma_first_occurrence_shape(block, q);
        if let Some(pos) = first_occurrence(block, q) {
            assert(block.subrange(0, pos) =~= s.subrange(a, a + pos));
        }
    }

    /// Document lines that are the file lines `a0..a0 + ts` hold the query
    /// just where those file lines do.
    proof fn lemma_file_lines_have(self, q: Seq<u8>, a0: nat, ts: nat, current: int)
        requires
            forall|t: int| 0 <= t < ts ==> #[trigger] self.doc()[current + t] == LineSource::File(a0 + t),
        ensures
            forall|t: nat| t < ts ==> #[trigger] self.doc_line_has(current + t, q) == file_line_has(
                self.data@,
                a0 + t,
                q,
            ),
    {
        assert forall|t: nat| t < ts implies #[trigger] self.doc_line_has(current + t, q)
            == file_line_has(self.data@, a0 + t, q) by {
            let k = (a0 + t) as int;
            assert(self.doc()[current + t as int] == LineSource::File(k));
            assert(k as nat == a0 + t);
        }
    }
}

impl<'a> LogEngine<'a> {
    /// Searching memory lines one by one finds the first of them, as
    /// document lines from `current` on, that holds the query.
    proof fn lemma_memory_block(self, q: Seq<u8>, from: int, i: int, ts: int, current: int)
        requires
            0 <= i <= ts,
            forall|t: int|
                0 <= t < ts ==> #[trigger] self.doc()[current + t] == LineSource::Text(
                    self.mem()[from + t],
                ),
        ensures
            (match self.first_line_with(from, i, ts, q) {
                Some(k) => Some(current + k),
                None => None,
            }) == self.first_doc_line(q, current + i, current + ts - 1),
        decreases ts - i,
    {
        if i < ts {
            assert(self.doc()[current + i] == LineSource::Text(self.mem()[from + i]));
            self.lemma_memory_block(q, from, i + 1, ts, current);
        }
    }

    /// The search walk over the pieces finds the first document line from
    /// `current` to `end` (and within the document) that holds the query.
    proof fn lemma_walk(self, q: Seq<u8>, idx: int, off: int, current: int, end: int)
        requires
            self.wf(),
            !self.is_fixed_width,
            q.len() > 0,
            forall|k: int| 0 <= k < q.len() ==> q[k] != NEWLINE,
            0 <= idx <= self.pieces@.len(),
            idx < self.pieces@.len() ==> 0 <= off <= self.pieces@[idx].count(),
            idx == self.pieces@.len() ==> off == 0,
            current == prefix(self.pieces@, idx) + off,
            forall|j: int|
                current <= j <= end && j < self.line_total() ==> #[trigger] self.line_located(j),
        ensures
            self.search_walk(q, idx, off, current, end) == self.first_doc_line(
                q,
                current,
                if end < self.line_total() - 1 {
                    end
                } else {
                    self.line_total() - 1
                },
            ),
        decreases self.pieces@.len() - idx,
    {
        let ps = self.pieces@;
        let mem = self.mem();
        let total = self.line_total() as int;
        let m = if end < total - 1 {
            end
        } else {
            total - 1
        };
        if idx == ps.len() {
            assert(ps.subrange(0, idx) =~= ps);
            return;
        }
        if current > end {
            return;
        }
        let p = ps[idx];
        lemma_doc_at(ps, idx, mem);
        lemma_prefix_mono(ps, idx + 1, ps.len() as int);
        assert(ps.subrange(0, ps.len() as int) =~= ps);
        let d = self.doc();
        assert forall|k: int| 0 <= k < p.count() implies d[prefix(ps, idx) + k]
            == #[trigger] piece_lines(p, mem)[k] by {
            assert(d[prefix(ps, idx) + k] == (doc_of(ps.subrange(0, idx), mem) + piece_lines(p, mem))[prefix(ps, idx) + k]);
        }
        let avail = p.count() - off;
        let ts = if avail < end - current + 1 {
            avail
        } else {
            end - current + 1
        };
        let found = match p {
            Piece::Original { start_line, .. } => {
                let bytes = self.original_bytes(start_line + off, ts);
                match first_occurrence(bytes, q) {
                    Some(pos) => Some(current + self.lines_before(bytes, pos)),
                    None => None,
                }
            },
            Piece::Memory { start_idx, .. } => match self.first_line_with(start_idx + off, 0, ts, q) {
                Some(i) => Some(current + i),
                None => None,
            },
        };
        assert(found == self.first_doc_line(q, current, current + ts - 1)) by {
            match p {
                Piece::Original { start_line, line_count } => {
                    if ts == 0 {
                        lemma_first_occurrence_shape(self.original_bytes(start_line + off, ts), q);
                    } else {
                        let a0 = (start_line + off) as nat;
                        assert forall|t: int| 0 <= t < ts implies #[trigger] self.doc()[current + t]
                            == LineSource::File(a0 + t) by {
                            assert(piece_lines(p, mem)[off + t] == LineSource::File(start_line + off + t));
                        }
                        assert(self.line_located(current));
                        assert(self.doc()[current + 0] == LineSource::File(a0 + 0int));
                        assert(self.line_located(current + ts - 1));
                        assert(self.doc()[current + (ts - 1)] == LineSource::File(a0 + (ts - 1)));
                        assert(a0 + (ts - 1) + 1 == a0 + ts);
                        self.lemma_file_block(q, a0, ts as nat, current);
                    }
                },
                Piece::Memory { start_idx, line_count } => {
                    assert forall|t: int| 0 <= t < ts implies #[trigger] self.doc()[current + t]
                        == LineSource::Text(mem[start_idx + off + t]) by {
                        assert(piece_lines(p, mem)[off + t] == LineSource::Text(mem[start_idx + off + t]));
                    }
                    self.lemma_memory_block(q, start_idx + off, 0, ts, current);
                },
            }
        }
        self.lemma_first_extend(q, current, current + ts, m);
        if found is None {
            if ts == avail {
                self.lemma_walk(q, idx + 1, 0, current + avail, end);
            } else {
                assert(self.search_walk(q, idx + 1, 0, current + avail, end) is None);
                assert(self.first_doc_line(q, current + ts, m) is None);
            }
        }
    }
}

/// A search finds the first document line, from `start` to `end` and
/// within the document, that holds the query: for a query without line
/// breaks, in a file with line breaks, wherever the index places each file
/// line searched, and the line after it, where it starts.
pub proof fn law_search_finds_first_match(e: LogEngine, q: Seq<u8>, start: int, end: int)
    requires
        e.wf(),
        !e.is_fixed_width,
        q.len() > 0,
        forall|k: int| 0 <= k < q.len() ==> q[k] != NEWLINE,
        0 <= start,
        forall|j: int| start <= j <= end && j < e.line_total() ==> #[trigger] e.line_located(j),
    ensures
        e.search_walk(q, e.position(start).0, e.position(start).1, start, end) == e.first_doc_line(
            q,
            start,
            if end < e.line_total() - 1 {
                end
            } else {
                e.line_total() - 1
            },
        ),
{
    let ps = e.pieces@;
    if start < e.line_total() {
        lemma_find_holder(ps, start);
        let i = choose|i: int| holds_line(ps, start, i);
        lemma_doc_at(ps, i, e.mem());
        e.lemma_walk(q, i, start - prefix(ps, i), start, end);
    }
}

/// Where `q` occurs in `h`, it occurs a last time.
proof fn lemma_exists_greatest(h: Seq<u8>, q: Seq<u8>, k0: int)
    requires
        occurs_at(h, q, k0),
    ensures
        exists|k: int| occurs_at(h, q, k) && forall|j: int| k < j ==> !#[trigger] occurs_at(h, q, j),
    decreases h.len() - k0,
{
    if exists|j: int| k0 < j && #[trigger] occurs_at(h, q, j) {
        let j = choose|j: int| k0 < j && #[trigger] occurs_at(h, q, j);
        lemma_exists_greatest(h, q, j);
    } else {
        assert(occurs_at(h, q, k0) && forall|j: int| k0 < j ==> !#[trigger] occurs_at(h, q, j));
    }
}

/// `last_occurrence` names an occurrence with none after it, or there is
/// none at all.
proof fn lemma_last_occurrence_shape(h: Seq<u8>, q: Seq<u8>)
    ensures
        last_occurrence(h, q) matches Some(k) ==> occurs_at(h, q, k) && forall|j: int|
            k < j ==> !#[trigger] occurs_at(h, q, j),
        last_occurrence(h, q) is None ==> forall|k: int| !#[trigger] occurs_at(h, q, k),
{
    if exists|k: int| occurs_at(h, q, k) {
        let k0 = choose|k: int| occurs_at(h, q, k);
        lemma_exists_greatest(h, q, k0);
    }
}

impl<'a> LogEngine<'a> {
    /// The last document line from `from` to `to`, both included, that
    /// holds `q`.
    pub open spec fn last_doc_line(self, q: Seq<u8>, from: int, to: int) -> Option<int>
        decreases to + 1 - from,
    {
        if from > to {
            None
        } else if self.doc_line_has(to, q) {
            Some(to)
        } else {
            self.last_doc_line(q, from, to - 1)
        }
    }

    proof fn lemma_last_found(self, q: Seq<u8>, from: int, to: int, x: int)
        requires
            from <= x <= to,
            self.doc_line_has(x, q),
            forall|j: int| x < j <= to ==> !#[trigger] self.doc_line_has(j, q),
        ensures
            self.last_doc_line(q, from, to) == Some(x),
        decreases to - x,
    {
        if x < to {
            self.lemma_last_found(q, from, to - 1, x);
        }
    }

    proof fn lemma_last_none(self, q: Seq<u8>, from: int, to: int)
        requires
            forall|j: int| from <= j <= to ==> !#[trigger] self.doc_line_has(j, q),
        ensures
            self.last_doc_line(q, from, to) is None,
        decreases to + 1 - from,
    {
        if from <= to {
            self.lemma_last_none(q, from, to - 1);
        }
    }

    proof fn lemma_last_shape(self, q: Seq<u8>, from: int, to: int)
        ensures
            self.last_doc_line(q, from, to) matches Some(x) ==> {
                &&& from <= x <= to
                &&& self.doc_line_has(x, q)
                &&& forall|j: int| x < j <= to ==> !#[trigger] self.doc_line_has(j, q)
            },
            self.last_doc_line(q, from, to) is None ==> forall|j: int|
                from <= j <= to ==> !#[trigger] self.doc_line_has(j, q),
        decreases to + 1 - from,
    {
        if from <= to {
            self.lemma_last_shape(q, from, to - 1);
        }
    }

    /// Searching backward over a longer range finds what a shorter one at
    /// its top found, and past lines without the query goes on below them.
    proof fn lemma_last_extend(self, q: Seq<u8>, from: int, mid: int, to: int)
        requires
            from <= mid <= to + 1,
        ensures
            self.last_doc_line(q, mid, to) is Some ==> self.last_doc_line(q, from, to)
                == self.last_doc_line(q, mid, to),
            self.last_doc_line(q, mid, to) is None ==> self.last_doc_line(q, from, to)
                == self.last_doc_line(q, from, mid - 1),
    {
        self.lemma_last_shape(q, mid, to);
        self.lemma_last_shape(q, from, mid - 1);
        if let Some(x) = self.last_doc_line(q, mid, to) {
            self.lemma_last_found(q, from, to, x);
        } else if let Some(y) = self.last_doc_line(q, from, mid - 1) {
            self.lemma_last_found(q, from, to, y);
        } else {
            self.lemma_last_none(q, from, to);
        }
    }

    /// Searching the bytes of file lines `a0..a0 + ts` for the last match
    /// finds the last of them, as document lines from `first` on, that holds
    /// the query.
    proof fn lemma_file_block_last(self, q: Seq<u8>, a0: nat, ts: nat, first: int)
        requires
            !self.is_fixed_width,
            q.len() > 0,
            forall|k: int| 0 <= k < q.len() ==> q[k] != NEWLINE,
            ts >= 1,
            self.offset_of(a0 as int) == line_start(self.data@, a0),
            self.offset_of((a0 + ts) as int) == line_start(self.data@, a0 + ts),
            forall|t: int| 0 <= t < ts ==> #[trigger] self.doc()[first + t] == LineSource::File(a0 + t),
        ensures
            (match last_occurrence(self.original_bytes(a0 as int, ts as int), q) {
                Some(pos) => Some(first + self.lines_before(self.original_bytes(a0 as int, ts as int), pos)),
                None => None,
            }) == self.last_doc_line(q, first, first + ts - 1),
    {
        let s = self.data@;
        let a = line_start(s, a0);
        let b = line_start(s, a0 + ts);
        let block = s.subrange(a, b);
        lemma_nl_skip_mono(s, 0, a0, ts);
        if a >= s.len() {
            assert(block =~= Seq::<u8>::empty());
        }
        assert(self.original_bytes(a0 as int, ts as int) == block);
        lemma_last_occurrence_shape(block, q);
        assert forall|t: nat| t < ts implies #[trigger] self.doc_line_has(first + t, q)
            == file_line_has(s, a0 + t, q) by {
            let k = (a0 + t) as int;
            assert(self.doc()[first + t as int] == LineSource::File(k));
            assert(k as nat == a0 + t);
        }
        match last_occurrence(block, q) {
            Some(pos) => {
                let tp = nl_between(s, a, a + pos);
                assert(block.subrange(0, pos) =~= s.subrange(a, a + pos));
                assert(self.lines_before(block, pos) == tp);
                lemma_block_hit(s, q, a0, ts, pos);
                assert(self.doc_line_has(first + tp, q));
                assert forall|j: int| first + tp < j <= first + ts - 1 implies !#[trigger] self.doc_line_has(j, q) by {
                    let t = (j - first) as nat;
                    assert(first + t == j);
                    if self.doc_line_has(j, q) {
                        let i = choose|i: int| #[trigger] occurs_at(file_line_bytes(s, a0 + t), q, i);
                        lemma_line_hit(s, q, a0, ts, t, i);
                        let x = line_start(s, a0 + t) + i;
                        assert(x - a <= pos);
                        lemma_between_mono(s, a, a + pos);
                        lemma_between_mono(s, a, x);
                        lemma_between_mono(s, x, a + pos);
                    }
                }
                self.lemma_last_found(q, first, first + ts - 1, first + tp);
            },
            None => {
                assert forall|j: int| first <= j <= first + ts - 1 implies !#[trigger] self.doc_line_has(j, q) by {
                    let t = (j - first) as nat;
                    assert(first + t == j);
                    if self.doc_line_has(j, q) {
                        let i = choose|i: int| #[trigger] occurs_at(file_line_bytes(s, a0 + t), q, i);
                        lemma_line_hit(s, q, a0, ts, t, i);
                    }
                }
                self.lemma_last_none(q, first, first + ts - 1);
            },
        }
    }

    /// Searching memory lines last first finds the last of them, as
    /// document lines from `base + lo` on, that holds the query.
    proof fn lemma_memory_block_last(self, q: Seq<u8>, from: int, lo: int, i: int, base: int)
        requires
            forall|t: int|
                lo <= t <= i ==> #[trigger] self.doc()[base + t] == LineSource::Text(self.mem()[from + t]),
        ensures
            (match self.last_line_with(from, lo, i, q) {
                Some(k) => Some(base + k),
                None => None,
            }) == self.last_doc_line(q, base + lo, base + i),
        decreases i - lo + 1,
    {
        if lo <= i {
            assert(self.doc()[base + i] == LineSource::Text(self.mem()[from + i]));
            self.lemma_memory_block_last(q, from, lo, i - 1, base);
        }
    }
}

impl<'a> LogEngine<'a> {
    /// The backward walk over the pieces finds the last document line from
    /// `end` to `current` that holds the query.
    #[verifier::spinoff_prover]
    #[verifier::rlimit(40)]
    proof fn lemma_back_walk(self, q: Seq<u8>, idx: int, off: int, current: int, end: int)
        requires
            self.wf(),
            !self.is_fixed_width,
            q.len() > 0,
            forall|k: int| 0 <= k < q.len() ==> q[k] != NEWLINE,
            0 <= end,
            0 <= idx < self.pieces@.len(),
            0 <= off < self.pieces@[idx].count(),
            current == prefix(self.pieces@, idx) + off,
            forall|i: int| 0 <= i <= idx ==> #[trigger] self.pieces@[i].count() > 0,
            forall|j: int| end <= j <= current ==> #[trigger] self.line_located(j),
        ensures
            self.search_back_walk(q, idx, off, current, end) == self.last_doc_line(q, end, current),
        decreases idx,
    {
        if current < end {
            return;
        }
        let ps = self.pieces@;
        let mem = self.mem();
        let p = ps[idx];
        lemma_doc_at(ps, idx, mem);
        let d = self.doc();
        assert forall|k: int| 0 <= k < p.count() implies d[prefix(ps, idx) + k]
            == #[trigger] piece_lines(p, mem)[k] by {
            assert(d[prefix(ps, idx) + k] == (doc_of(ps.subrange(0, idx), mem) + piece_lines(p, mem))[prefix(ps, idx) + k]);
        }
        let psl = current - off;
        assert(psl == prefix(ps, idx));
        let skip = if end > psl {
            end - psl
        } else {
            0
        };
        let ltf = off + 1 - skip;
        let lo = psl + skip;
        let found = match p {
            Piece::Original { start_line, .. } => {
                let bytes = self.original_bytes(start_line + skip, ltf);
                match last_occurrence(bytes, q) {
                    Some(pos) => Some(psl + skip + self.lines_before(bytes, pos)),
                    None => None,
                }
            },
            Piece::Memory { start_idx, .. } => if off < p.count() {
                match self.last_line_with(start_idx as int, skip, off, q) {
                    Some(i) => Some(psl + i),
                    None => None,
                }
            } else {
                None
            },
        };
        assert(found == self.last_doc_line(q, lo, current)) by {
            match p {
                Piece::Original { start_line, line_count } => {
                    let a0 = (start_line + skip) as nat;
                    assert forall|t: int| 0 <= t < ltf implies #[trigger] self.doc()[lo + t]
                        == LineSource::File(a0 + t) by {
                        assert(piece_lines(p, mem)[skip + t] == LineSource::File(start_line + skip + t));
                    }
                    assert(self.line_located(lo));
                    assert(self.doc()[lo + 0] == LineSource::File(a0 + 0int));
                    assert(self.line_located(current));
                    assert(self.doc()[lo + (ltf - 1)] == LineSource::File(a0 + (ltf - 1)));
                    assert(a0 + (ltf - 1) + 1 == a0 + ltf);
                    self.lemma_file_block_last(q, a0, ltf as nat, lo);
                },
                Piece::Memory { start_idx, line_count } => {
                    assert forall|t: int| skip <= t <= off implies #[trigger] self.doc()[psl + t]
                        == LineSource::Text(mem[start_idx + t]) by {
                        assert(piece_lines(p, mem)[t] == LineSource::Text(mem[start_idx + t]));
                    }
                    self.lemma_memory_block_last(q, start_idx as int, skip, off, psl);
                },
            }
        }
        self.lemma_last_extend(q, end, lo, current);
        if found is None && idx > 0 {
            let c = ps[idx - 1].count();
            assert(ps[idx - 1].count() > 0);
            lemma_doc_at(ps, idx - 1, mem);
            if skip > 0 {
                assert(self.search_back_walk(q, idx - 1, c - 1, psl - 1, end) is None);
            } else {
                self.lemma_back_walk(q, idx - 1, c - 1, psl - 1, end);
            }
        }
    }
}

/// A backward search finds the last document line, from `end` up to
/// `start`, that holds the query: for a start within the document, a query
/// without line breaks, in a file with line breaks, wherever no piece up to
/// the start's is empty and the index places each file line searched, and
/// the line after it, where it starts.
pub proof fn law_search_back_finds_last_match(e: LogEngine, q: Seq<u8>, start: int, end: int)
    requires
        e.wf(),
        !e.is_fixed_width,
        q.len() > 0,
        forall|k: int| 0 <= k < q.len() ==> q[k] != NEWLINE,
        0 <= end,
        0 <= start < e.line_total(),
        forall|i: int| 0 <= i <= e.position(start).0 ==> #[trigger] e.pieces@[i].count() > 0,
        forall|j: int| end <= j <= start ==> #[trigger] e.line_located(j),
    ensures
        e.search_back_walk(q, e.back_position(start).0, e.back_position(start).1, start, end)
            == e.last_doc_line(q, end, start),
{
    let ps = e.pieces@;
    lemma_find_holder(ps, start);
    let i = choose|i: int| holds_line(ps, start, i);
    lemma_doc_at(ps, i, e.mem());
    e.lemma_back_walk(q, i, start - prefix(ps, i), start, end);
}

proof fn lemma_count_nl_free(b: Seq<u8>)
    requires
        nl_free(b),
    ensures
        count_nl(b) == 0,
    decreases b.len(),
{
    if b.len() > 0 {
        lemma_count_nl_free(b.drop_last());
    }
}

/// A query without line breaks occurs in a line followed by its line break
/// just where it occurs in the line.
proof fn lemma_has_before_newline(e: Seq<u8>, q: Seq<u8>)
    requires
        q.len() > 0,
        forall|k: int| 0 <= k < q.len() ==> q[k] != NEWLINE,
    ensures
        (exists|k: int| #[trigger] occurs_at(e, q, k)) == (exists|k: int|
            #[trigger] occurs_at(e + seq![NEWLINE], q, k)),
{
    let f = e + seq![NEWLINE];
    if exists|k: int| #[trigger] occurs_at(e, q, k) {
        let k = choose|k: int| #[trigger] occurs_at(e, q, k);
        assert(f.subrange(k, k + q.len()) =~= e.subrange(k, k + q.len()));
        assert(occurs_at(f, q, k));
    }
    if exists|k: int| #[trigger] occurs_at(f, q, k) {
        let k = choose|k: int| #[trigger] occurs_at(f, q, k);
        if k + q.len() == f.len() {
            assert(f.subrange(k, k + q.len())[q.len() - 1] == f[f.len() - 1]);
            assert(false);
        }
        assert(e.subrange(k, k + q.len()) =~= f.subrange(k, k + q.len()));
        assert(occurs_at(e, q, k));
    }
}

impl<'a> LogEngine<'a> {
    /// Memory lines joined: each line joined adds one newline, and fewer
    /// lines joined are a prefix of more.
    proof fn lemma_joined(self, from: int, n: nat)
        requires
            0 <= from,
            from + n <= self.mem().len(),
            self.memory_nl_free(),
        ensures
            count_nl(self.joined_lines(from, n)) == n,
            forall|t: nat| t <= n ==> #[trigger] self.joined_lines(from, t).len() <= self.joined_lines(from, n).len(),
            forall|t: nat| t <= n ==> self.joined_lines(from, n).subrange(0, self.joined_lines(from, t).len() as int)
                == #[trigger] self.joined_lines(from, t),
        decreases n,
    {
        let j = self.joined_lines(from, n);
        if n == 0 {
            assert(j.subrange(0, 0) =~= j);
            return;
        }
        let m = (n - 1) as nat;
        self.lemma_joined(from, m);
        let jm = self.joined_lines(from, m);
        let en = encode_utf8(self.mem()[from + m]);
        assert(nl_free(en));
        lemma_count_nl_free(en);
        lemma_count_byte_concat(jm + en, seq![NEWLINE], NEWLINE);
        lemma_count_byte_concat(jm, en, NEWLINE);
        assert(seq![NEWLINE].drop_last() =~= Seq::<u8>::empty());
        assert(count_nl(seq![NEWLINE].drop_last()) == 0);
        assert(count_nl(seq![NEWLINE]) == 1);
        assert forall|t: nat| t <= n implies self.joined_lines(from, n).subrange(0, self.joined_lines(from, t).len() as int)
            == #[trigger] self.joined_lines(from, t) by {
            if t == n {
                assert(j.subrange(0, j.len() as int) =~= j);
            } else {
                assert(j.subrange(0, self.joined_lines(from, t).len() as int) =~= jm.subrange(0, self.joined_lines(from, t).len() as int));
            }
        }
    }

    /// The lines of memory lines joined are those memory lines, each with
    /// its line break, and they start where the lines before them end.
    proof fn lemma_joined_lines(self, from: int, n: nat)
        requires
            0 <= from,
            from + n <= self.mem().len(),
            self.memory_nl_free(),
        ensures
            forall|t: nat| t <= n ==> line_start(self.joined_lines(from, n), t) == #[trigger] self.joined_lines(from, t).len(),
            forall|t: nat| t < n ==> #[trigger] file_line_bytes(self.joined_lines(from, n), t) == encode_utf8(
                self.mem()[from + t],
            ) + seq![NEWLINE],
    {
        let s = self.joined_lines(from, n);
        self.lemma_joined(from, n);
        assert forall|t: nat| t <= n implies line_start(s, t) == #[trigger] self.joined_lines(from, t).len() by {
            self.lemma_joined(from, t);
            let jt = self.joined_lines(from, t);
            let p = jt.len() as int;
            if t > 0 {
                assert(s.subrange(0, p) == jt);
                assert(s[p - 1] == jt[p - 1]);
                assert(jt[p - 1] == NEWLINE);
                lemma_nl_skip(s, 0, t);
                lemma_nl_end_unique(s, 0, p, line_start(s, t));
            }
        }
        assert forall|t: nat| t < n implies #[trigger] file_line_bytes(s, t) == encode_utf8(self.mem()[from + t]) + seq![
            NEWLINE,
        ] by {
            let jt = self.joined_lines(from, t);
            let j1 = self.joined_lines(from, t + 1);
            assert(line_start(s, t) == jt.len());
            assert(line_start(s, t + 1) == j1.len());
            assert(s.subrange(0, j1.len() as int) == j1);
            assert(file_line_bytes(s, t) =~= j1.subrange(jt.len() as int, j1.len() as int));
            assert(j1 == jt + encode_utf8(self.mem()[from + t]) + seq![NEWLINE]);
            assert(j1.subrange(jt.len() as int, j1.len() as int) =~= encode_utf8(self.mem()[from + t]) + seq![NEWLINE]);
        }
    }

    /// Searching memory lines joined at once finds the first of them, as
    /// document lines from `current` on, that holds the query.
    proof fn lemma_joined_block(self, q: Seq<u8>, from: int, n: nat, current: int)
        requires
            !self.is_fixed_width,
            self.memory_nl_free(),
            q.len() > 0,
            forall|k: int| 0 <= k < q.len() ==> q[k] != NEWLINE,
            n >= 1,
            0 <= from,
            from + n <= self.mem().len(),
            forall|t: int| 0 <= t < n ==> #[trigger] self.doc()[current + t] == LineSource::Text(self.mem()[from + t]),
        ensures
            (match first_occurrence(self.joined_lines(from, n), q) {
                Some(pos) => Some(current + self.lines_before(self.joined_lines(from, n), pos)),
                None => None,
            }) == self.first_doc_line(q, current, current + n - 1),
    {
        let s = self.joined_lines(from, n);
        self.lemma_joined_lines(from, n);
        assert forall|t: nat| t < n implies #[trigger] self.doc_line_has(current + t, q) == file_line_has(s, 0 + t, q) by {
            assert(self.doc()[current + t as int] == LineSource::Text(self.mem()[from + t]));
            assert(file_line_bytes(s, t) == encode_utf8(self.mem()[from + t]) + seq![NEWLINE]);
            lemma_has_before_newline(encode_utf8(self.mem()[from + t]), q);
            assert(0 + t == t);
        }
        assert(line_start(s, 0) == self.joined_lines(from, 0).len());
        assert(line_start(s, 0 + n) == s.len());
        assert(s.subrange(0, s.len() as int) =~= s);
        self.lemma_block_first(q, s, 0, n, current);
        lemma_first_occurrence_shape(s, q);
    }
}

impl<'a> LogEngine<'a> {
    /// The background walk over the pieces finds the first document line
    /// from `current` on that holds the query.
    proof fn lemma_scan_walk(self, q: Seq<u8>, idx: int, off: int, current: int)
        requires
            self.wf(),
            !self.is_fixed_width,
            self.memory_nl_free(),
            q.len() > 0,
            forall|k: int| 0 <= k < q.len() ==> q[k] != NEWLINE,
            0 <= idx <= self.pieces@.len(),
            idx < self.pieces@.len() ==> 0 <= off <= self.pieces@[idx].count(),
            idx == self.pieces@.len() ==> off == 0,
            current == prefix(self.pieces@, idx) + off,
            forall|j: int| current <= j < self.line_total() ==> #[trigger] self.line_located(j),
        ensures
            self.scan_walk(q, idx, off, current) == self.first_doc_line(q, current, self.line_total() - 1),
        decreases self.pieces@.len() - idx,
    {
        let ps = self.pieces@;
        let mem = self.mem();
        let total = self.line_total() as int;
        if idx == ps.len() {
            assert(ps.subrange(0, idx) =~= ps);
            return;
        }
        let p = ps[idx];
        lemma_doc_at(ps, idx, mem);
        lemma_prefix_mono(ps, idx + 1, ps.len() as int);
        assert(ps.subrange(0, ps.len() as int) =~= ps);
        let d = self.doc();
        assert forall|k: int| 0 <= k < p.count() implies d[prefix(ps, idx) + k]
            == #[trigger] piece_lines(p, mem)[k] by {
            assert(d[prefix(ps, idx) + k] == (doc_of(ps.subrange(0, idx), mem) + piece_lines(p, mem))[prefix(ps, idx) + k]);
        }
        let avail = p.count() - off;
        let hit = match self.piece_hit(q, p, off) {
            Some(l) => Some(current + l),
            None => None,
        };
        assert(hit == self.first_doc_line(q, current, current + avail - 1)) by {
            let bytes = self.scan_bytes(p, off);
            lemma_first_occurrence_shape(bytes, q);
            match p {
                Piece::Original { start_line, line_count } => {
                    let a0 = (start_line + off) as nat;
                    if avail == 0 {
                        assert(bytes =~= Seq::<u8>::empty());
                    } else {
                        let s = self.data@;
                        assert forall|t: int| 0 <= t < avail implies #[trigger] self.doc()[current + t]
                            == LineSource::File(a0 + t) by {
                            assert(piece_lines(p, mem)[off + t] == LineSource::File(start_line + off + t));
                        }
                        assert(self.line_located(current));
                        assert(self.doc()[current + 0] == LineSource::File(a0 + 0int));
                        assert(self.line_located(current + avail - 1));
                        assert(self.doc()[current + (avail - 1)] == LineSource::File(a0 + (avail - 1)));
                        assert(a0 + (avail - 1) + 1 == a0 + avail);
                        let a = line_start(s, a0);
                        let b = line_start(s, (a0 + avail) as nat);
                        lemma_nl_skip_mono(s, 0, a0, avail as nat);
                        assert(bytes =~= s.subrange(a, b));
                        self.lemma_file_lines_have(q, a0, avail as nat, current);
                        self.lemma_block_first(q, s, a0, avail as nat, current);
                        if let Some(pos) = first_occurrence(bytes, q) {
                            assert(bytes.subrange(0, pos) =~= s.subrange(a, a + pos));
                        }
                    }
                },
                Piece::Memory { start_idx, line_count } => {
                    assert(start_idx + line_count <= mem.len());
                    if avail == 0 {
                        assert(bytes =~= Seq::<u8>::empty());
                    } else {
                        assert forall|t: int| 0 <= t < avail implies #[trigger] self.doc()[current + t]
                            == LineSource::Text(mem[start_idx + off + t]) by {
                            assert(piece_lines(p, mem)[off + t] == LineSource::Text(mem[start_idx + off + t]));
                        }
                        self.lemma_joined_block(q, start_idx + off, avail as nat, current);
                    }
                },
            }
        }
        self.lemma_first_extend(q, current, current + avail, total - 1);
        if hit is None {
            self.lemma_scan_walk(q, idx + 1, 0, current + avail);
        }
    }
}

/// A background search finds the first document line from `start` on that
/// holds the query: for a query without line breaks, in a file with line
/// breaks, with memory lines that hold no line break, wherever the index
/// places each file line searched, and the line after it, where it starts.
pub proof fn law_background_search_finds_first_match(e: LogEngine, q: Seq<u8>, start: int)
    requires
        e.wf(),
        !e.is_fixed_width,
        e.memory_nl_free(),
        q.len() > 0,
        forall|k: int| 0 <= k < q.len() ==> q[k] != NEWLINE,
        0 <= start,
        forall|j: int| start <= j < e.line_total() ==> #[trigger] e.line_located(j),
    ensures
        e.scan_walk(q, e.position(start).0, e.position(start).1, start) == e.first_doc_line(
            q,
            start,
            e.line_total() - 1,
        ),
{
    let ps = e.pieces@;
    if start < e.line_total() {
        lemma_find_holder(ps, start);
        let i = choose|i: int| holds_line(ps, start, i);
        lemma_doc_at(ps, i, e.mem());
        e.lemma_scan_walk(q, i, start - prefix(ps, i), start);
    } else {
        assert(e.scan_walk(q, ps.len() as int, 0, start) is None);
    }
}

/// Where every `\r` starts a `\r\n`, a fully indexed file's line count
/// names the line that starts at its end.
proof fn lemma_line_start_total(s: Seq<u8>)
    requires
        s.len() > 0,
        lone_cr_free(s, 0, s.len() as int),
    ensures
        final_line_count(s, count_nl(s) as int) >= 0,
        line_start(s, final_line_count(s, count_nl(s) as int) as nat) == s.len(),
{
    let len = s.len() as int;
    assert(s.subrange(0, len) =~= s);
    let c = count_nl(s);
    assert(nl_between(s, 0, len) == c);
    if s.last() == NEWLINE {
        lemma_between_split(s, 0, len - 1, len);
        lemma_between_one(s, len - 1);
        lemma_nl_skip(s, 0, c);
        let q = line_start(s, c);
        if q < len {
            lemma_between_split(s, 0, q, len);
            lemma_between_some_at(s, q, len - 1, len);
        }
    } else if s.last() == CARRIAGE_RETURN {
        assert(s[len - 1] == CARRIAGE_RETURN);
        assert(false);
    } else {
        lemma_line_start_past(s, c + 1);
    }
}

proof fn lemma_between_some_at(s: Seq<u8>, a: int, k: int, b: int)
    requires
        0 <= a <= k < b <= s.len(),
        s[k] == NEWLINE,
    ensures
        nl_between(s, a, b) >= 1,
{
    lemma_between_split(s, a, k, b);
    lemma_between_split(s, k, k + 1, b);
    lemma_between_one(s, k);
}

/// A file line of the document is one the pieces took in from the index.
proof fn lemma_doc_file_line(e: LogEngine, j: int)
    requires
        e.wf(),
        0 <= j < e.line_total(),
    ensures
        e.doc()[j] matches LineSource::File(k) ==> 0 <= k && k + 1 <= e.indexed_lines_added,
{
    let ps = e.pieces@;
    lemma_find_holder(ps, j);
    let i = choose|i: int| holds_line(ps, j, i);
    lemma_doc_at(ps, i, e.mem());
    let d = e.doc();
    let off = j - prefix(ps, i);
    assert(d[j] == (doc_of(ps.subrange(0, i), e.mem()) + piece_lines(ps[i], e.mem()))[j]);
    assert(d[j] == piece_lines(ps[i], e.mem())[off]);
}

/// Under the conditions of `law_lines_located`, file line `k` and the line
/// after it are placed where they start.
proof fn lemma_file_line_located(e: LogEngine, k: nat)
    requires
        e.wf(),
        e.index_accurate(),
        !e.is_fixed_width,
        e.index.is_finished,
        lone_cr_free(e.data@, 0, e.data@.len() as int),
        forall|c: int|
            0 <= c < e.index.chunks@.len() ==> at_line_start(
                e.data@,
                (#[trigger] e.index.chunks@[c]).byte_offset as int,
            ),
        k + 1 <= e.index.original_total_lines,
    ensures
        e.file_line_located(k as int),
{
    let s = e.data@;
    let total = e.index.original_total_lines;
    lemma_nl_skip_mono(s, 0, k, 1);
    law_index_finds_line_start(e, k);
    if k + 1 < total {
        law_index_finds_line_start(e, (k + 1) as nat);
    } else {
        reveal(line_offset);
        lemma_line_start_total(s);
        assert(e.offset_of((k + 1) as int) == s.len());
    }
}

/// In a fully indexed file whose index chunks all begin where lines begin,
/// and whose `\r` bytes all start a `\r\n`, the index places every file
/// line of the document, and the line after it, where they start.
pub proof fn law_lines_located(e: LogEngine)
    requires
        e.wf(),
        e.index_accurate(),
        !e.is_fixed_width,
        e.index.is_finished,
        lone_cr_free(e.data@, 0, e.data@.len() as int),
        forall|k: int|
            0 <= k < e.index.chunks@.len() ==> at_line_start(
                e.data@,
                (#[trigger] e.index.chunks@[k]).byte_offset as int,
            ),
    ensures
        forall|j: int| 0 <= j < e.line_total() ==> #[trigger] e.line_located(j),
{
    assert forall|j: int| 0 <= j < e.line_total() implies #[trigger] e.line_located(j) by {
        lemma_doc_file_line(e, j);
        if let LineSource::File(k) = e.doc()[j] {
            lemma_file_line_located(e, k as nat);
        }
    }
}

/// The occurrence with none before it is the first occurrence.
proof fn lemma_first_occurrence_is(h: Seq<u8>, q: Seq<u8>, p: int)
    requires
        occurs_at(h, q, p),
        forall|j: int| 0 <= j < p ==> !#[trigger] occurs_at(h, q, j),
    ensures
        first_occurrence(h, q) == Some(p),
{
    lemma_first_occurrence_shape(h, q);
    let k = first_occurrence(h, q)->0;
    if k < p {
        assert(occurs_at(h, q, k));
    } else if p < k {
        assert(!occurs_at(h, q, p));
    }
}

/// The occurrence with none after it is the last occurrence.
proof fn lemma_last_occurrence_is(h: Seq<u8>, q: Seq<u8>, p: int)
    requires
        occurs_at(h, q, p),
        forall|j: int| p < j ==> !#[trigger] occurs_at(h, q, j),
    ensures
        last_occurrence(h, q) == Some(p),
{
    lemma_last_occurrence_shape(h, q);
    let k = last_occurrence(h, q)->0;
    if k > p {
        assert(occurs_at(h, q, k));
    } else if p > k {
        assert(!occurs_at(h, q, p));
    }
}

/// The first document line a backward search looks at in a piece: the
/// later of `end` and the piece's first line, line `current` being line
/// `off` of the piece.
pub open spec fn back_first(off: int, current: int, end: int) -> int {
    if end > current - off {
        end
    } else {
        current - off
    }
}

impl<'a> LogEngine<'a> {
    /// The bytes a search scans in file piece `idx`: its lines from line
    /// `off`, document line `current`, up to document line `end`.
    pub open spec fn forward_window(self, idx: int, off: int, current: int, end: int) -> Seq<u8> {
        let avail = self.pieces@[idx].count() - off;
        let ts = if avail < end - current + 1 { avail } else { end - current + 1 };
        self.original_bytes(self.pieces@[idx]->Original_start_line + off, ts)
    }

    /// The bytes a backward search scans in file piece `idx`: its lines
    /// from document line `back_first(off, current, end)` to document line
    /// `current`, which is line `off` of the piece.
    pub open spec fn backward_window(self, idx: int, off: int, current: int, end: int) -> Seq<u8> {
        let f = back_first(off, current, end);
        self.original_bytes(self.pieces@[idx]->Original_start_line + (f - (current - off)), current - f + 1)
    }
}

/// Byte `p` lies in the `p / FIXED_WIDTH_SIZE`-th run of
/// `FIXED_WIDTH_SIZE` bytes.
proof fn lemma_width_block(p: int)
    requires
        0 <= p,
    ensures
        (p / 4096) * 4096 <= p < (p / 4096 + 1) * 4096,
{
}

/// In a file cut into fixed-width lines, a search that first finds the
/// query at byte `p` of the file lines it searches in a piece (lines `off`
/// on of piece `idx`, the first being document line `current`) reports the
/// line `l` counted by width from there: `p` lies in the `(l - current)`-th
/// run of `fixed_width_size` bytes from where those lines start.
#[verifier::spinoff_prover]
#[verifier::rlimit(40)]
pub proof fn law_fixed_width_search_counts_by_width(
    e: LogEngine,
    q: Seq<u8>,
    idx: int,
    off: int,
    current: int,
    end: int,
    p: int,
)
    requires
        e.wf(),
        e.is_fixed_width,
        0 <= idx < e.pieces@.len(),
        e.pieces@[idx] is Original,
        0 <= off <= e.pieces@[idx].count(),
        current <= end,
        occurs_at(e.forward_window(idx, off, current, end), q, p),
        forall|j: int| 0 <= j < p ==> !#[trigger] occurs_at(e.forward_window(idx, off, current, end), q, j),
    ensures
        e.search_walk(q, idx, off, current, end) matches Some(l) && (l - current) * (
        e.fixed_width_size as int) <= p < (l - current + 1) * (e.fixed_width_size as int),
{
    let h = e.forward_window(idx, off, current, end);
    lemma_first_occurrence_is(h, q, p);
    lemma_width_block(p);
    assert(e.lines_before(h, p) == p / 4096);
    assert(e.search_walk(q, idx, off, current, end) == Some(current + p / 4096));
}

/// In a file cut into fixed-width lines, a backward search that last finds
/// the query at byte `p` of the file lines it searches in a piece (from
/// document line `f = back_first(off, current, end)` up to line `current`,
/// which is line `off` of piece `idx`) reports the line `l` counted by
/// width from line `f`: `p` lies in the `(l - f)`-th run of
/// `fixed_width_size` bytes from where line `f` starts.
#[verifier::spinoff_prover]
#[verifier::rlimit(40)]
pub proof fn law_fixed_width_back_search_counts_by_width(
    e: LogEngine,
    q: Seq<u8>,
    idx: int,
    off: int,
    current: int,
    end: int,
    p: int,
)
    requires
        e.wf(),
        e.is_fixed_width,
        0 <= idx < e.pieces@.len(),
        e.pieces@[idx] is Original,
        0 <= off <= current,
        end <= current,
        occurs_at(e.backward_window(idx, off, current, end), q, p),
        forall|j: int| p < j ==> !#[trigger] occurs_at(e.backward_window(idx, off, current, end), q, j),
    ensures
        e.search_back_walk(q, idx, off, current, end) matches Some(l) && (l - back_first(off, current, end)) * (
        e.fixed_width_size as int) <= p < (l - back_first(off, current, end) + 1) * (e.fixed_width_size as int),
{
    let f = back_first(off, current, end);
    let h = e.backward_window(idx, off, current, end);
    lemma_last_occurrence_is(h, q, p);
    lemma_width_block(p);
    let psl = current - off;
    let skip = if end > psl { end - psl } else { 0 };
    assert(psl + skip == f);
    assert(off + 1 - skip == current - f + 1);
    assert(e.lines_before(h, p) == p / 4096);
    assert(e.search_back_walk(q, idx, off, current, end) == Some(f + p / 4096));
}

/// In a file cut into fixed-width lines, a background search that first
/// finds the query at byte `p` of the bytes it scans in a file piece (from
/// the start of line `off` of piece `idx`, document line `current`, to the
/// end of the piece) reports the line counted by width from there, both for
/// the piece alone and for the search as a whole: `p` lies in the
/// `(l - current)`-th run of `fixed_width_size` bytes.
#[verifier::spinoff_prover]
#[verifier::rlimit(40)]
pub proof fn law_fixed_width_background_search_counts_by_width(
    e: LogEngine,
    q: Seq<u8>,
    idx: int,
    off: int,
    current: int,
    p: int,
)
    requires
        e.wf(),
        e.is_fixed_width,
        0 <= idx < e.pieces@.len(),
        e.pieces@[idx] is Original,
        occurs_at(e.scan_bytes(e.pieces@[idx], off), q, p),
        forall|j: int| 0 <= j < p ==> !#[trigger] occurs_at(e.scan_bytes(e.pieces@[idx], off), q, j),
    ensures
        e.piece_hit(q, e.pieces@[idx], off) matches Some(h) && h * (e.fixed_width_size as int) <= p < (h
            + 1) * (e.fixed_width_size as int),
        e.scan_walk(q, idx, off, current) matches Some(l) && (l - current) * (
        e.fixed_width_size as int) <= p < (l - current + 1) * (e.fixed_width_size as int),
{
    lemma_first_occurrence_is(e.scan_bytes(e.pieces@[idx], off), q, p);
    lemma_width_block(p);
    assert(e.piece_hit(q, e.pieces@[idx], off) == Some(p / 4096));
    assert(e.scan_walk(q, idx, off, current) == Some(current + p / 4096));
}

} // verus!
