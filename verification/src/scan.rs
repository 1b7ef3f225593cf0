//! Byte scans: counting newlines, spotting files without line breaks, and
//! where fixed-width lines are cut.
use vstd::prelude::*;

verus! {

pub const NEWLINE: u8 = 10u8;

/// Number of occurrences of byte `x` in `s`.
pub open spec fn count_byte(s: Seq<u8>, x: u8) -> nat
    decreases s.len(),
{
    if s.len() == 0 {
        0
    } else {
        count_byte(s.drop_last(), x) + (if s.last() == x { 1nat } else { 0nat })
    }
}

/// Number of `\n` bytes in `s`.
pub open spec fn count_nl(s: Seq<u8>) -> nat {
    count_byte(s, NEWLINE)
}

/// No byte of `b` is a newline.
pub open spec fn nl_free(b: Seq<u8>) -> bool {
    forall|i: int| 0 <= i < b.len() ==> b[i] != NEWLINE
}

pub proof fn lemma_count_byte_concat(a: Seq<u8>, b: Seq<u8>, x: u8)
    ensures
        count_byte(a + b, x) == count_byte(a, x) + count_byte(b, x),
    decreases b.len(),
{
    if b.len() == 0 {
        assert(a + b =~= a);
    } else {
        lemma_count_byte_concat(a, b.drop_last(), x);
        assert((a + b).drop_last() =~= a + b.drop_last());
    }
}

pub proof fn lemma_count_byte_bound(s: Seq<u8>, x: u8)
    ensures
        count_byte(s, x) <= s.len(),
    decreases s.len(),
{
    if s.len() > 0 {
        lemma_count_byte_bound(s.drop_last(), x);
    }
}

/// Counts the `\n` bytes of `bytes`.
pub fn count_newlines(bytes: &[u8]) -> (r: usize)
    ensures
        r == count_nl(bytes@),
{
    let mut count: usize = 0;
    let mut i: usize = 0;
    while i < bytes.len()
        invariant
            i <= bytes.len(),
            count == count_nl(bytes@.subrange(0, i as int)),
            count <= i,
        decreases bytes.len() - i,
    {
        proof {
            assert(bytes@.subrange(0, i + 1).drop_last() =~= bytes@.subrange(0, i as int));
        }
        if bytes[i] == NEWLINE {
            count = count + 1;
        }
        i = i + 1;
    }
    proof {
        assert(bytes@.subrange(0, i as int) =~= bytes@);
    }
    count
}

/// A line is "monstrous" when it runs this many bytes without a newline.
pub const MONSTER_LINE_LEN: usize = 10000usize;

/// True when `s` holds `MONSTER_LINE_LEN` consecutive bytes without a `\n`.
pub open spec fn has_monster_line(s: Seq<u8>) -> bool {
    exists|start: int|
        0 <= start && start + MONSTER_LINE_LEN <= s.len() && #[trigger] no_newline_in(
            s,
            start,
            start + MONSTER_LINE_LEN,
        )
}

/// No `\n` in `s[from..to]`.
pub open spec fn no_newline_in(s: Seq<u8>, from: int, to: int) -> bool {
    forall|k: int| from <= k < to ==> s[k] != NEWLINE
}

/// Detects a line of at least `MONSTER_LINE_LEN` bytes in `chunk`.
pub fn is_monster_line(chunk: &[u8]) -> (r: bool)
    ensures
        r == has_monster_line(chunk@),
{
    let mut run: usize = 0;
    let mut i: usize = 0;
    while i < chunk.len()
        invariant
            i <= chunk.len(),
            run <= i,
            run < MONSTER_LINE_LEN,
            no_newline_in(chunk@, i - run, i as int),
            i - run > 0 ==> chunk@[i - run - 1] == NEWLINE,
            forall|start: int|
                0 <= start && start + MONSTER_LINE_LEN <= i ==> !#[trigger] no_newline_in(
                    chunk@,
                    start,
                    start + MONSTER_LINE_LEN,
                ),
        decreases chunk.len() - i,
    {
        if chunk[i] == NEWLINE {
            run = 0;
            proof {
                assert forall|start: int|
                    0 <= start && start + MONSTER_LINE_LEN <= i + 1 implies !#[trigger] no_newline_in(
                    chunk@,
                    start,
                    start + MONSTER_LINE_LEN,
                ) by {
                    if start + MONSTER_LINE_LEN == i + 1 {
                        assert(chunk@[i as int] == NEWLINE);
                    }
                }
            }
        } else {
            run = run + 1;
            if run >= MONSTER_LINE_LEN {
                proof {
                    let start = i + 1 - MONSTER_LINE_LEN;
                    assert(no_newline_in(chunk@, start, start + MONSTER_LINE_LEN));
                }
                return true;
            }
            proof {
                assert forall|start: int|
                    0 <= start && start + MONSTER_LINE_LEN <= i + 1 implies !#[trigger] no_newline_in(
                    chunk@,
                    start,
                    start + MONSTER_LINE_LEN,
                ) by {
                    if start + MONSTER_LINE_LEN == i + 1 {
                        assert(chunk@[i - (run - 1) - 1] == NEWLINE);
                    }
                }
            }
        }
        i = i + 1;
    }
    false
}

/// Bytes after which a fixed-width line may be cut without splitting a token.
pub open spec fn is_cut_byte(b: u8) -> bool {
    b == 44u8 || b == 32u8 || b == 125u8 || b == 93u8
}

/// How far back from the nominal cut a safe cut is looked for.
pub const CUT_WINDOW: usize = 128usize;

/// The byte that a word-at-a-time test for cut byte `b` also flags when it
/// directly follows a flagged byte in the same word: `b` with its lowest bit
/// flipped (`-` after `,`, `!` after a space, `|` after `}`, `\\` after `]`).
pub open spec fn cut_partner(b: u8) -> u8 {
    if b == 44u8 {
        45u8
    } else if b == 32u8 {
        33u8
    } else if b == 125u8 {
        124u8
    } else {
        92u8
    }
}

/// The last cut byte in `[lo, hi)`, if any.
pub open spec fn last_cut(s: Seq<u8>, lo: int, hi: int) -> Option<int>
    decreases hi - lo,
{
    if hi <= lo {
        None
    } else if is_cut_byte(s[hi - 1]) {
        Some(hi - 1)
    } else {
        last_cut(s, lo, hi - 1)
    }
}

/// The end of the run of `p` bytes right after `j`, before `end`.
pub open spec fn run_end(s: Seq<u8>, j: int, end: int, p: u8) -> int
    decreases end - j,
{
    if j + 1 < end && s[j + 1] == p {
        run_end(s, j + 1, end, p)
    } else {
        j
    }
}

/// The cut that the 8-byte word at `start` gives: just after its last cut
/// byte and the run of that byte's partner right after it, within the word.
pub open spec fn word_cut(s: Seq<u8>, start: int) -> Option<int> {
    match last_cut(s, start, start + 8) {
        Some(j) => Some(run_end(s, j, start + 8, cut_partner(s[j])) + 1),
        None => None,
    }
}

/// The safe cut found scanning down from `i`: whole 8-byte words while
/// they reach above `limit`, then single bytes down to `limit`; `base` when
/// nothing is found.
pub open spec fn cut_from(s: Seq<u8>, i: int, limit: int, base: int) -> int
    decreases i,
{
    if i >= 8 && i > limit {
        match word_cut(s, i - 8) {
            Some(c) => c,
            None => cut_from(s, i - 8, limit, base),
        }
    } else {
        match last_cut(s, limit, i) {
            Some(j) => j + 1,
            None => base,
        }
    }
}

/// The lowest position that a safe cut for nominal position `base` looks at.
pub open spec fn cut_limit(base: int) -> int {
    if base > CUT_WINDOW { base - CUT_WINDOW } else { 0 }
}

/// The safe cut found scanning down from `i` in 32-byte blocks while they
/// reach above `limit`: just after the last cut byte of the first block
/// that holds one; when no block does, the word-by-word cut from `base`.
pub open spec fn block_cut(s: Seq<u8>, i: int, limit: int, base: int) -> int
    decreases i,
{
    if i >= 32 && i > limit {
        match last_cut(s, i - 32, i) {
            Some(j) => j + 1,
            None => block_cut(s, i - 32, limit, base),
        }
    } else {
        cut_from(s, base, limit, base)
    }
}

/// The safe cut for nominal position `base`: the cut found scanning the
/// `CUT_WINDOW` bytes before `base` in 32-byte blocks from the top, then
/// word by word from the top, or `base` itself when there is none.
pub open spec fn safe_cut(s: Seq<u8>, base: int) -> int {
    block_cut(s, base, cut_limit(base), base)
}

proof fn lemma_last_cut_range(s: Seq<u8>, lo: int, hi: int)
    ensures
        last_cut(s, lo, hi) matches Some(j) ==> lo <= j < hi,
    decreases hi - lo,
{
    if hi > lo && !is_cut_byte(s[hi - 1]) {
        lemma_last_cut_range(s, lo, hi - 1);
    }
}

proof fn lemma_run_end_range(s: Seq<u8>, j: int, end: int, p: u8)
    ensures
        j <= run_end(s, j, end, p),
        j < end ==> run_end(s, j, end, p) < end,
    decreases end - j,
{
    if j + 1 < end && s[j + 1] == p {
        lemma_run_end_range(s, j + 1, end, p);
    }
}

proof fn lemma_cut_from_range(s: Seq<u8>, i: int, limit: int, base: int)
    requires
        0 <= limit <= i <= base,
        limit == 0 || (i - limit) % 8 == 0,
    ensures
        cut_from(s, i, limit, base) == base || limit < cut_from(s, i, limit, base) <= i,
    decreases i,
{
    if i >= 8 && i > limit {
        lemma_last_cut_range(s, i - 8, i);
        if let Some(j) = last_cut(s, i - 8, i) {
            lemma_run_end_range(s, j, i, cut_partner(s[j]));
        } else {
            lemma_cut_from_range(s, i - 8, limit, base);
        }
    } else {
        lemma_last_cut_range(s, limit, i);
    }
}

proof fn lemma_block_cut_range(s: Seq<u8>, i: int, limit: int, base: int)
    requires
        0 <= limit <= i <= base,
        limit == 0 || (i - limit) % 32 == 0,
        limit == 0 || (base - limit) % 8 == 0,
    ensures
        block_cut(s, i, limit, base) == base || limit < block_cut(s, i, limit, base) <= base,
    decreases i,
{
    if i >= 32 && i > limit {
        lemma_last_cut_range(s, i - 32, i);
        if last_cut(s, i - 32, i) is None {
            lemma_block_cut_range(s, i - 32, limit, base);
        }
    } else {
        lemma_cut_from_range(s, base, limit, base);
    }
}

/// A safe cut moves the nominal cut back by less than `CUT_WINDOW` bytes,
/// and never forward.
pub proof fn lemma_safe_cut_range(s: Seq<u8>, base: int)
    requires
        0 <= base,
    ensures
        0 <= safe_cut(s, base) <= base,
        base > CUT_WINDOW ==> safe_cut(s, base) > base - CUT_WINDOW,
{
    lemma_block_cut_range(s, base, cut_limit(base), base);
}

/// The last cut byte in `mmap[lo..hi)`.
fn last_cut_in(mmap: &[u8], lo: usize, hi: usize) -> (r: Option<usize>)
    requires
        lo <= hi <= mmap@.len(),
    ensures
        match r {
            Some(j) => last_cut(mmap@, lo as int, hi as int) == Some(j as int) && lo <= j < hi
                && is_cut_byte(mmap@[j as int]),
            None => last_cut(mmap@, lo as int, hi as int) is None,
        },
    decreases hi - lo,
{
    if hi <= lo {
        return None;
    }
    let b = mmap[hi - 1];
    if b == 44u8 || b == 32u8 || b == 125u8 || b == 93u8 {
        Some(hi - 1)
    } else {
        last_cut_in(mmap, lo, hi - 1)
    }
}

/// Moves a fixed-width cut position back to just after a `,`, ` `, `}` or
/// `]` within the preceding `CUT_WINDOW` bytes. Whole 32-byte blocks are
/// scanned first, from the top; the first block that holds a cut byte gives
/// the cut just after its last one. When no block does, the window is
/// scanned again word by word from the top, as a word-at-a-time test does:
/// within a word, the cut also passes over the partner bytes that directly
/// follow the cut byte.
pub fn find_safe_cut(mmap: &[u8], base: usize) -> (r: usize)
    requires
        base <= mmap@.len(),
    ensures
        r == safe_cut(mmap@, base as int),
        r <= base,
{
    let limit = base.saturating_sub(CUT_WINDOW);
    let mut off = base;
    while off >= 32 && off > limit
        invariant
            limit <= off <= base <= mmap@.len(),
            limit == cut_limit(base as int),
            limit == 0 || (off - limit) % 32 == 0,
            block_cut(mmap@, off as int, limit as int, base as int) == safe_cut(mmap@, base as int),
        decreases off,
    {
        off = off - 32;
        match last_cut_in(mmap, off, off + 32) {
            Some(j) => {
                return j + 1;
            },
            None => {},
        }
    }
    word_scan_cut(mmap, base)
}

/// The word-by-word safe cut for nominal position `base`.
fn word_scan_cut(mmap: &[u8], base: usize) -> (r: usize)
    requires
        base <= mmap@.len(),
    ensures
        r == cut_from(mmap@, base as int, cut_limit(base as int), base as int),
        r <= base,
{
    let limit = base.saturating_sub(CUT_WINDOW);
    let mut i = base;
    while i >= 8 && i > limit
        invariant
            limit <= base <= mmap@.len(),
            limit <= i <= base,
            limit == 0 || (i - limit) % 8 == 0,
            limit == cut_limit(base as int),
            cut_from(mmap@, i as int, limit as int, base as int) == cut_from(mmap@, base as int, limit as int, base as int),
        decreases i,
    {
        i = i - 8;
        match last_cut_in(mmap, i, i + 8) {
            Some(j) => {
                let p: u8 = if mmap[j] == 44u8 {
                    45u8
                } else if mmap[j] == 32u8 {
                    33u8
                } else if mmap[j] == 125u8 {
                    124u8
                } else {
                    92u8
                };
                let end = i + 8;
                let mut e = j;
                while e + 1 < end && mmap[e + 1] == p
                    invariant
                        i <= j <= e < end,
                        end == i + 8,
                        end <= mmap@.len(),
                        run_end(mmap@, e as int, end as int, p) == run_end(mmap@, j as int, end as int, p),
                    decreases end - e,
                {
                    e = e + 1;
                }
                return e + 1;
            },
            None => {},
        }
    }
    match last_cut_in(mmap, limit, i) {
        Some(j) => j + 1,
        None => base,
    }
}

} // verus!
