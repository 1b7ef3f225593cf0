//! The calls into `memchr` and std whose results the library trusts.
use vstd::prelude::*;

verus! {

/// `needle` occurs in `hay` at position `i`.
pub open spec fn occurs_at(hay: Seq<u8>, needle: Seq<u8>, i: int) -> bool {
    0 <= i && i + needle.len() <= hay.len() && hay.subrange(i, i + needle.len()) == needle
}

/// Calls `memchr::memchr2` on `hay[from..]`: the first position (counted
/// from `from`) holding `n1` or `n2`, or `None` when no byte there does.
/// The memchr documentation promises exactly this.
#[verifier::external_body]
pub fn memchr2_from(n1: u8, n2: u8, hay: &[u8], from: usize) -> (r: Option<usize>)
    requires
        from <= hay@.len(),
    ensures
        match r {
            Some(i) => {
                &&& from + i < hay@.len()
                &&& (hay@[from + i] == n1 || hay@[from + i] == n2)
                &&& forall|k: int| from <= k < from + i ==> hay@[k] != n1 && hay@[k] != n2
            },
            None => forall|k: int| from <= k < hay@.len() ==> hay@[k] != n1 && hay@[k] != n2,
        },
{
    memchr::memchr2(n1, n2, &hay[from..])
}

/// Calls `memchr::memmem::find`: the first position at which `needle`
/// occurs in `hay`, or `None` when it occurs nowhere. The memchr
/// documentation promises exactly this ("the index of the first occurrence").
#[verifier::external_body]
pub fn memmem_find(hay: &[u8], needle: &[u8]) -> (r: Option<usize>)
    requires
        needle@.len() > 0,
    ensures
        match r {
            Some(i) => occurs_at(hay@, needle@, i as int) && forall|k: int|
                0 <= k < i ==> !#[trigger] occurs_at(hay@, needle@, k),
            None => forall|k: int| !#[trigger] occurs_at(hay@, needle@, k),
        },
{
    memchr::memmem::find(hay, needle)
}

/// Calls `memchr::memmem::rfind`: the last position at which `needle`
/// occurs in `hay`, or `None` when it occurs nowhere. The memchr
/// documentation promises exactly this ("the index of the last occurrence").
#[verifier::external_body]
pub fn memmem_rfind(hay: &[u8], needle: &[u8]) -> (r: Option<usize>)
    requires
        needle@.len() > 0,
    ensures
        match r {
            Some(i) => occurs_at(hay@, needle@, i as int) && forall|k: int|
                i < k ==> !#[trigger] occurs_at(hay@, needle@, k),
            None => forall|k: int| !#[trigger] occurs_at(hay@, needle@, k),
        },
{
    memchr::memmem::rfind(hay, needle)
}

/// What `String::from_utf8_lossy` makes of `bytes`: their decoding, with
/// each invalid sequence replaced by U+FFFD.
pub uninterp spec fn utf8_lossy(bytes: Seq<u8>) -> Seq<char>;

/// Calls `String::from_utf8_lossy`. Its result is named `utf8_lossy`; the
/// one fact stated of it is what std documents for valid input: valid UTF-8
/// is decoded as it is.
#[verifier::external_body]
pub fn lossy_string(bytes: &[u8]) -> (r: String)
    ensures
        r@ == utf8_lossy(bytes@),
        vstd::utf8::valid_utf8(bytes@) ==> r@ == vstd::utf8::decode_utf8(bytes@),
{
    String::from_utf8_lossy(bytes).into_owned()
}

} // verus!
