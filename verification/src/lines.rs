//! Where lines start in a byte sequence, counted by `\n` alone, and how that
//! relates to the index's way of skipping line endings.
use crate::index::{is_term, lemma_next_term_bound, next_term, skip_lines, CARRIAGE_RETURN};
use crate::scan::{count_nl, lemma_count_byte_concat, NEWLINE};
use vstd::prelude::*;

verus! {

/// Position of the first `\n` at or after `from`, or the length when there
/// is none.
pub open spec fn next_nl(s: Seq<u8>, from: int) -> int
    decreases s.len() - from,
{
    if from >= s.len() {
        s.len() as int
    } else if s[from] == NEWLINE {
        from
    } else {
        next_nl(s, from + 1)
    }
}

/// Position just past the `n`-th `\n` at or after `off`; the length when
/// there are fewer.
pub open spec fn nl_skip(s: Seq<u8>, off: int, n: nat) -> int
    decreases n,
{
    if n == 0 || off >= s.len() {
        off
    } else {
        let p = next_nl(s, off);
        if p >= s.len() {
            s.len() as int
        } else {
            nl_skip(s, p + 1, (n - 1) as nat)
        }
    }
}

/// Where line `n` of `s` starts, lines being ended by `\n`: just past the
/// `n`-th `\n`, or the end of `s` when it has fewer.
pub open spec fn line_start(s: Seq<u8>, n: nat) -> int {
    nl_skip(s, 0, n)
}

/// Every `\r` in `[from, to)` is the first half of a `\r\n`.
pub open spec fn lone_cr_free(s: Seq<u8>, from: int, to: int) -> bool {
    forall|i: int|
        from <= i < to && #[trigger] s[i] == CARRIAGE_RETURN ==> i + 1 < s.len() && s[i + 1]
            == NEWLINE
}

/// `b` is where some line of `s` starts.
pub open spec fn at_line_start(s: Seq<u8>, b: int) -> bool {
    b == 0 || (0 < b <= s.len() && s[b - 1] == NEWLINE)
}

/// Newlines among the bytes in `[a, b)`.
pub open spec fn nl_between(s: Seq<u8>, a: int, b: int) -> nat {
    count_nl(s.subrange(a, b))
}

proof fn lemma_next_nl(s: Seq<u8>, from: int)
    requires
        0 <= from <= s.len(),
    ensures
        from <= next_nl(s, from) <= s.len(),
        next_nl(s, from) < s.len() ==> s[next_nl(s, from)] == NEWLINE,
        forall|k: int| from <= k < next_nl(s, from) ==> s[k] != NEWLINE,
    decreases s.len() - from,
{
    if from < s.len() && s[from] != NEWLINE {
        lemma_next_nl(s, from + 1);
    }
}

pub proof fn lemma_between_split(s: Seq<u8>, a: int, b: int, c: int)
    requires
        0 <= a <= b <= c <= s.len(),
    ensures
        nl_between(s, a, c) == nl_between(s, a, b) + nl_between(s, b, c),
{
    lemma_count_byte_concat(s.subrange(a, b), s.subrange(b, c), NEWLINE);
    assert(s.subrange(a, b) + s.subrange(b, c) =~= s.subrange(a, c));
}

pub proof fn lemma_between_one(s: Seq<u8>, p: int)
    requires
        0 <= p < s.len(),
    ensures
        nl_between(s, p, p + 1) == (if s[p] == NEWLINE { 1nat } else { 0nat }),
{
    let t = s.subrange(p, p + 1);
    assert(t.drop_last() =~= Seq::<u8>::empty());
    assert(count_nl(t.drop_last()) == 0);
    assert(t.last() == s[p]);
}

proof fn lemma_between_none(s: Seq<u8>, a: int, b: int)
    requires
        0 <= a <= b <= s.len(),
        forall|k: int| a <= k < b ==> s[k] != NEWLINE,
    ensures
        nl_between(s, a, b) == 0,
    decreases b - a,
{
    if a < b {
        lemma_between_none(s, a, b - 1);
        lemma_between_split(s, a, b - 1, b);
        lemma_between_one(s, b - 1);
    } else {
        assert(s.subrange(a, b) =~= Seq::<u8>::empty());
    }
}

proof fn lemma_between_some(s: Seq<u8>, a: int, k: int, b: int)
    requires
        0 <= a <= k < b <= s.len(),
        s[k] == NEWLINE,
    ensures
        nl_between(s, a, b) >= 1,
{
    lemma_between_split(s, a, k, b);
    lemma_between_split(s, k, k + 1, b);
    lemma_between_one(s, k);
}

/// What `nl_skip` reaches: just past the `n`-th newline from `off` when there
/// are that many, else the end.
pub proof fn lemma_nl_skip(s: Seq<u8>, off: int, n: nat)
    requires
        0 <= off <= s.len(),
    ensures
        off <= nl_skip(s, off, n) <= s.len(),
        n >= 1 && nl_between(s, off, s.len() as int) >= n ==> {
            let q = nl_skip(s, off, n);
            &&& off < q
            &&& s[q - 1] == NEWLINE
            &&& nl_between(s, off, q) == n
        },
        n >= 1 && nl_between(s, off, s.len() as int) < n ==> nl_skip(s, off, n) == s.len(),
    decreases n,
{
    if n == 0 {
        return;
    }
    let len = s.len() as int;
    if off >= len {
        assert(s.subrange(off, len) =~= Seq::<u8>::empty());
        return;
    }
    let p = next_nl(s, off);
    lemma_next_nl(s, off);
    if p >= len {
        lemma_between_none(s, off, len);
        return;
    }
    lemma_between_none(s, off, p);
    lemma_between_split(s, off, p, p + 1);
    lemma_between_one(s, p);
    lemma_between_split(s, off, p + 1, len);
    lemma_nl_skip(s, p + 1, (n - 1) as nat);
    if n >= 2 {
        let q = nl_skip(s, off, n);
        if nl_between(s, off, len) >= n {
            lemma_between_split(s, off, p + 1, q);
        }
    }
}

/// Two places each just past a newline, with the same count of newlines
/// from `off`, are the same place.
pub proof fn lemma_nl_end_unique(s: Seq<u8>, off: int, q1: int, q2: int)
    requires
        0 <= off < q1 <= s.len(),
        off < q2 <= s.len(),
        s[q1 - 1] == NEWLINE,
        s[q2 - 1] == NEWLINE,
        nl_between(s, off, q1) == nl_between(s, off, q2),
    ensures
        q1 == q2,
{
    if q1 < q2 {
        lemma_between_split(s, off, q1, q2);
        lemma_between_some(s, q1, q2 - 1, q2);
    } else if q2 < q1 {
        lemma_between_split(s, off, q2, q1);
        lemma_between_some(s, q2, q1 - 1, q1);
    }
}

/// Skipping `k` newlines from `b` lands where line `j + k` starts, `j` being
/// the newlines before `b`; for `k == 0` only when `b` starts a line.
pub proof fn lemma_skip_from(s: Seq<u8>, b: int, k: nat)
    requires
        0 <= b <= s.len(),
        k >= 1 || at_line_start(s, b),
    ensures
        nl_skip(s, b, k) == line_start(s, nl_between(s, 0, b) + k),
{
    let len = s.len() as int;
    let j = nl_between(s, 0, b);
    lemma_between_split(s, 0, b, len);
    lemma_nl_skip(s, b, k);
    lemma_nl_skip(s, 0, j + k);
    if k >= 1 {
        if nl_between(s, b, len) >= k {
            let q = nl_skip(s, b, k);
            lemma_between_split(s, 0, b, q);
            lemma_nl_end_unique(s, 0, q, line_start(s, j + k));
        }
    } else if b > 0 {
        lemma_between_some(s, 0, b - 1, b);
        lemma_between_split(s, 0, b, len);
        lemma_nl_end_unique(s, 0, b, line_start(s, j));
    }
}

/// Where `\r` only ever comes before `\n`, skipping line endings the index's
/// way (`\n`, `\r` or `\r\n`) is skipping newlines.
pub proof fn lemma_skip_lines_nl(s: Seq<u8>, off: int, n: nat)
    requires
        0 <= off <= s.len(),
        lone_cr_free(s, off, nl_skip(s, off, n)),
    ensures
        skip_lines(s, off, n) == nl_skip(s, off, n),
    decreases n,
{
    let len = s.len() as int;
    if n == 0 || off >= len {
        return;
    }
    let p = next_term(s, off);
    let pn = next_nl(s, off);
    lemma_next_term_bound(s, off);
    lemma_next_nl(s, off);
    lemma_next_term_le(s, off, pn);
    if p >= len {
        return;
    }
    if s[p] == NEWLINE {
        lemma_next_nl_at(s, off, p);
        lemma_nl_skip(s, p + 1, (n - 1) as nat);
        lemma_skip_lines_nl(s, p + 1, (n - 1) as nat);
    } else {
        assert(s[p] == CARRIAGE_RETURN);
        if pn < len {
            lemma_nl_skip(s, pn + 1, (n - 1) as nat);
        }
        assert(p < nl_skip(s, off, n));
        assert(p + 1 < len && s[p + 1] == NEWLINE);
        lemma_next_nl_at(s, off, p + 1);
        lemma_nl_skip(s, p + 2, (n - 1) as nat);
        lemma_skip_lines_nl(s, p + 2, (n - 1) as nat);
    }
}

/// The first line ending is no later than the first newline.
proof fn lemma_next_term_le(s: Seq<u8>, from: int, pn: int)
    requires
        0 <= from <= pn <= s.len(),
        pn < s.len() ==> s[pn] == NEWLINE,
    ensures
        next_term(s, from) <= pn,
        forall|k: int| from <= k < next_term(s, from) ==> !is_term(s[k]),
    decreases s.len() - from,
{
    if from < s.len() && !is_term(s[from]) {
        lemma_next_term_le(s, from + 1, pn);
    }
}

/// `next_nl` from `from` is `p` when `p` holds the first newline there.
proof fn lemma_next_nl_at(s: Seq<u8>, from: int, p: int)
    requires
        0 <= from <= p < s.len(),
        s[p] == NEWLINE,
        forall|k: int| from <= k < p ==> s[k] != NEWLINE,
    ensures
        next_nl(s, from) == p,
    decreases p - from,
{
    if from < p {
        lemma_next_nl_at(s, from + 1, p);
    }
}

/// Skipping more newlines never lands earlier.
pub proof fn lemma_nl_skip_mono(s: Seq<u8>, off: int, m: nat, n: nat)
    requires
        0 <= off <= s.len(),
    ensures
        off <= nl_skip(s, off, m) <= nl_skip(s, off, m + n) <= s.len(),
    decreases m,
{
    lemma_nl_skip(s, off, m);
    lemma_nl_skip(s, off, m + n);
    if m == 0 {
        return;
    }
    if off < s.len() {
        let p = next_nl(s, off);
        lemma_next_nl(s, off);
        if p < s.len() {
            lemma_nl_skip_mono(s, p + 1, (m - 1) as nat, n);
            assert((m + n - 1) as nat == (m - 1) as nat + n);
        }
    }
}

/// Just past the `n`-th newline there are exactly `n` newlines before, when
/// `s` has that many.
pub proof fn lemma_count_at_line_start(s: Seq<u8>, n: nat)
    requires
        n <= nl_between(s, 0, s.len() as int),
    ensures
        nl_between(s, 0, line_start(s, n)) == n,
{
    lemma_nl_skip(s, 0, n);
    if n == 0 {
        assert(s.subrange(0, 0) =~= Seq::<u8>::empty());
    }
}

/// Where a line starts past the newlines of `s`: at its end.
pub proof fn lemma_line_start_past(s: Seq<u8>, n: nat)
    requires
        n > nl_between(s, 0, s.len() as int),
    ensures
        line_start(s, n) == s.len(),
{
    lemma_nl_skip(s, 0, n);
}

/// Byte `x` lies in the line numbered by the newlines before it.
pub proof fn lemma_line_of(s: Seq<u8>, x: int)
    requires
        0 <= x < s.len(),
    ensures
        line_start(s, nl_between(s, 0, x)) <= x < line_start(s, nl_between(s, 0, x) + 1),
{
    let len = s.len() as int;
    let f = nl_between(s, 0, x);
    lemma_between_split(s, 0, x, len);
    lemma_nl_skip(s, 0, f);
    lemma_nl_skip(s, 0, f + 1);
    if f >= 1 {
        let q = line_start(s, f);
        if q > x {
            lemma_between_split(s, 0, x, q);
            lemma_between_some(s, x, q - 1, q);
        }
    }
    if nl_between(s, 0, len) >= f + 1 {
        let q = line_start(s, f + 1);
        if q <= x {
            lemma_between_split(s, 0, q, x);
        }
    }
}

/// Every byte from where line `f` starts to where the next one starts is
/// preceded by exactly `f` newlines.
pub proof fn lemma_in_line(s: Seq<u8>, f: nat, x: int)
    requires
        0 <= x < s.len(),
        line_start(s, f) <= x < line_start(s, f + 1),
    ensures
        nl_between(s, 0, x) == f,
{
    let g = nl_between(s, 0, x);
    lemma_line_of(s, x);
    if g < f {
        lemma_nl_skip_mono(s, 0, g + 1, (f - g - 1) as nat);
        assert(g + 1 + (f - g - 1) as nat == f);
    } else if g > f {
        lemma_nl_skip_mono(s, 0, f + 1, (g - f - 1) as nat);
        assert(f + 1 + (g - f - 1) as nat == g);
    }
}

/// A line that ends before the end of `s` ends with a newline.
pub proof fn lemma_line_end(s: Seq<u8>, f: nat)
    requires
        line_start(s, f + 1) < s.len() || nl_between(s, 0, s.len() as int) >= f + 1,
    ensures
        nl_between(s, 0, s.len() as int) >= f + 1,
        0 < line_start(s, f + 1) <= s.len(),
        s[line_start(s, f + 1) - 1] == NEWLINE,
{
    lemma_nl_skip(s, 0, f + 1);
}

/// Newlines before `x` never decrease as `x` grows.
pub proof fn lemma_between_mono(s: Seq<u8>, x: int, y: int)
    requires
        0 <= x <= y <= s.len(),
    ensures
        nl_between(s, 0, x) <= nl_between(s, 0, y),
        nl_between(s, x, y) == nl_between(s, 0, y) - nl_between(s, 0, x),
{
    lemma_between_split(s, 0, x, y);
}

} // verus!
