//! The sparse line index and where it places each line.
use crate::models::{ChunkMeta, IndexState};
use crate::outside::memchr2_from;
use crate::scan::{find_safe_cut, safe_cut, NEWLINE};
use vstd::prelude::*;

verus! {

pub const CARRIAGE_RETURN: u8 = 13u8;

/// `\n` or `\r`: a byte that ends a line.
pub open spec fn is_term(b: u8) -> bool {
    b == NEWLINE || b == CARRIAGE_RETURN
}

/// Position of the first line-ending byte at or after `from`, or the length
/// when there is none.
pub open spec fn next_term(s: Seq<u8>, from: int) -> int
    decreases s.len() - from,
{
    if from >= s.len() {
        s.len() as int
    } else if is_term(s[from]) {
        from
    } else {
        next_term(s, from + 1)
    }
}

/// Position reached from `off` by skipping `n` line endings, where `\r\n`
/// counts as one; the length when the bytes run out first.
pub open spec fn skip_lines(s: Seq<u8>, off: int, n: nat) -> int
    decreases n,
{
    if n == 0 || off >= s.len() {
        off
    } else {
        let p = next_term(s, off);
        if p >= s.len() {
            s.len() as int
        } else {
            let q = if s[p] == CARRIAGE_RETURN && p + 1 < s.len() && s[p + 1] == NEWLINE {
                p + 2
            } else {
                p + 1
            };
            skip_lines(s, q, (n - 1) as nat)
        }
    }
}

/// The last chunk that starts at or before `line`.
pub open spec fn chunk_for_line(chunks: Seq<ChunkMeta>, line: int) -> int {
    choose|k: int|
        0 <= k < chunks.len() && (#[trigger] chunks[k]).start_line <= line && (k + 1 < chunks.len()
            ==> chunks[k + 1].start_line > line)
}

/// The index is usable for a file of `len` bytes: its chunks start at the
/// beginning, in line order and at increasing bytes, within the file, and there are chunks once the
/// index knows of lines (except for fixed-width files, which need none).
pub open spec fn index_ok(index: IndexState, len: int, is_fixed_width: bool) -> bool {
    let chunks = index.chunks@;
    &&& (!is_fixed_width && index.original_total_lines > 0) ==> chunks.len() > 0
    &&& chunks.len() > 0 ==> chunks[0].byte_offset == 0 && chunks[0].start_line == 0
    &&& forall|i: int|
        0 <= i < chunks.len() ==> #[trigger] chunks[i].byte_offset <= len && chunks[i].start_line
            <= index.original_total_lines
    &&& forall|i: int, j: int|
        0 <= i <= j < chunks.len() ==> #[trigger] chunks[i].start_line <= #[trigger] chunks[j].start_line
    &&& forall|i: int, j: int|
        0 <= i < j < chunks.len() ==> #[trigger] chunks[i].byte_offset < #[trigger] chunks[j].byte_offset
}

/// Byte offset at which line `line` starts.
/// Fixed-width files: the safe cut near `line * fixed_width_size`.
/// Otherwise, for lines the index knows: from the last chunk starting at or
/// before the line, skip the remaining line endings. Past the indexed lines:
/// the end of the file when indexing is finished, else as far as it got.
#[verifier::opaque]
pub open spec fn line_offset(
    index: IndexState,
    bytes_processed: int,
    data: Seq<u8>,
    line: int,
    is_fixed_width: bool,
    fixed_width_size: int,
) -> int {
    if is_fixed_width {
        let base = if line * fixed_width_size < data.len() {
            line * fixed_width_size
        } else {
            data.len() as int
        };
        if base == 0 || base == data.len() {
            base
        } else {
            safe_cut(data, base)
        }
    } else if line >= index.original_total_lines {
        if index.is_finished {
            data.len() as int
        } else {
            bytes_processed
        }
    } else {
        let k = chunk_for_line(index.chunks@, line);
        let c = index.chunks@[k];
        skip_lines(data, c.byte_offset as int, (line - c.start_line) as nat)
    }
}

proof fn lemma_next_term(s: Seq<u8>, from: int, p: int)
    requires
        0 <= from <= p <= s.len(),
        forall|k: int| from <= k < p ==> !is_term(s[k]),
        p < s.len() ==> is_term(s[p]),
    ensures
        next_term(s, from) == p,
    decreases p - from,
{
    if from < p {
        lemma_next_term(s, from + 1, p);
    }
}

pub proof fn lemma_skip_lines_bound(s: Seq<u8>, off: int, n: nat)
    requires
        0 <= off <= s.len(),
    ensures
        off <= skip_lines(s, off, n) <= s.len(),
    decreases n,
{
    if n > 0 && off < s.len() {
        let p = next_term(s, off);
        lemma_next_term_bound(s, off);
        if p < s.len() {
            let q = if s[p] == CARRIAGE_RETURN && p + 1 < s.len() && s[p + 1] == NEWLINE {
                p + 2
            } else {
                p + 1
            };
            lemma_skip_lines_bound(s, q, (n - 1) as nat);
        }
    }
}

pub proof fn lemma_next_term_bound(s: Seq<u8>, from: int)
    requires
        0 <= from,
    ensures
        from <= s.len() ==> from <= next_term(s, from) <= s.len(),
        next_term(s, from) < s.len() ==> is_term(s[next_term(s, from)]),
    decreases s.len() - from,
{
    if from < s.len() && !is_term(s[from]) {
        lemma_next_term_bound(s, from + 1);
    }
}

/// Byte offset at which line `line` starts; see `line_offset`.
pub fn calc_offset(
    index: &IndexState,
    bytes_processed: usize,
    mmap: &[u8],
    line: usize,
    is_fixed_width: bool,
    fixed_width_size: usize,
) -> (r: usize)
    requires
        index_ok(*index, mmap@.len() as int, is_fixed_width),
        bytes_processed <= mmap@.len(),
    ensures
        r == line_offset(
            *index,
            bytes_processed as int,
            mmap@,
            line as int,
            is_fixed_width,
            fixed_width_size as int,
        ),
        r <= mmap@.len(),
{
    reveal(line_offset);
    if is_fixed_width {
        let base = match line.checked_mul(fixed_width_size) {
            Some(b) => if b < mmap.len() {
                b
            } else {
                mmap.len()
            },
            None => mmap.len(),
        };
        if base == 0 || base == mmap.len() {
            return base;
        }
        return find_safe_cut(mmap, base);
    }
    if line >= index.original_total_lines {
        return if index.is_finished {
            mmap.len()
        } else {
            bytes_processed
        };
    }
    let chunks = &index.chunks;
    let n = chunks.len();
    let mut base: usize = 0;
    let mut len: usize = n;
    while len > 1
        invariant
            chunks@ == index.chunks@,
            n == chunks@.len(),
            n > 0,
            1 <= len,
            base + len <= n,
            chunks@[base as int].start_line <= line,
            base + len < n ==> chunks@[base + len].start_line > line,
            index_ok(*index, mmap@.len() as int, is_fixed_width),
        decreases len,
    {
        let half = len / 2;
        let mid = base + half;
        if chunks[mid].start_line <= line {
            base = mid;
        } else {
            proof {
                if base + (len - half) < n {
                    assert(chunks@[mid as int].start_line <= chunks@[base + (len - half)].start_line);
                }
            }
        }
        len = len - half;
    }
    let chunk_idx = if base + 1 < n && chunks[base + 1].start_line <= line {
        base + 1
    } else {
        base
    };
    let ghost k = chunk_for_line(chunks@, line as int);
    proof {
        let c = chunk_idx as int;
        assert(0 <= c < chunks@.len() && chunks@[c].start_line <= line && (c + 1 < chunks@.len()
            ==> chunks@[c + 1].start_line > line));
        if k < c {
            assert(chunks@[k + 1].start_line <= chunks@[c].start_line);
        }
        if k > c {
            assert(chunks@[c + 1].start_line <= chunks@[k].start_line);
        }
        assert(k == c);
    }
    let chunk = chunks[chunk_idx];
    let ml = mmap.len();
    assert(chunks@[chunk_idx as int].byte_offset <= ml);
    let mut offset: usize = chunk.byte_offset as usize;
    let mut skip: usize = line - chunk.start_line;
    let ghost target = skip_lines(mmap@, offset as int, skip as nat);
    while skip > 0 && offset < mmap.len()
        invariant
            offset <= mmap@.len(),
            skip_lines(mmap@, offset as int, skip as nat) == target,
        decreases skip,
    {
        match memchr2_from(NEWLINE, CARRIAGE_RETURN, mmap, offset) {
            Some(pos) => {
                let p = offset + pos;
                proof {
                    lemma_next_term(mmap@, offset as int, p as int);
                }
                offset = p + 1;
                if mmap[p] == CARRIAGE_RETURN && offset < mmap.len() && mmap[offset] == NEWLINE {
                    offset = offset + 1;
                }
                skip = skip - 1;
            },
            None => {
                proof {
                    lemma_next_term(mmap@, offset as int, mmap@.len() as int);
                }
                offset = mmap.len();
                skip = 0;
            },
        }
    }
    assert(skip_lines(mmap@, offset as int, skip as nat) == offset);
    offset
}

} // verus!
