//! Paged access to a file's bytes: the interface, and the arithmetic of the
//! two ways of holding a file (mapped whole, or read in fixed windows).
use vstd::prelude::*;

verus! {

/// Bytes of the file that one window holds.
pub const WINDOW_SIZE: u64 = 268435456;

/// Windows kept in memory at once.
pub const MAX_WINDOWS: usize = 4;

/// Read access to the bytes of one file, however they are held.
pub trait LogPager: Send + Sync {
    /// The file's length in bytes.
    fn len(&self) -> u64;

    fn is_empty(&self) -> bool {
        self.len() == 0
    }

    /// Bytes from `offset` on, at most `len` of them, and fewer where the
    /// pager's current window ends first; a caller that needs more loops.
    fn get_chunk(&self, offset: u64, len: usize) -> &[u8];

    fn get_byte(&self, offset: u64) -> u8;

    fn last_byte(&self) -> Option<u8> {
        let length = self.len();
        if length > 0 {
            Some(self.get_byte(length - 1))
        } else {
            None
        }
    }

    /// A hint that `offset` will be read soon; pagers may ignore it.
    fn prefetch(&self, offset: u64) {
    }

    fn advise_sequential(&self);

    fn advise_random(&self);

    fn advise_will_need(&self, offset: u64, len: usize);
}

/// The bytes of `data` from `offset` on, at most `len` of them.
pub open spec fn chunk_spec(data: Seq<u8>, offset: int, len: int) -> Seq<u8> {
    if offset >= data.len() {
        Seq::empty()
    } else if offset + len < data.len() {
        data.subrange(offset, offset + len)
    } else {
        data.subrange(offset, data.len() as int)
    }
}

/// The chunk of a file held whole in memory: from `offset` on, at most `len`
/// bytes, cut at the end of the file.
pub fn chunk_at(data: &[u8], offset: u64, len: usize) -> (r: &[u8])
    ensures
        r@ == chunk_spec(data@, offset as int, len as int),
{
    if offset >= data.len() as u64 {
        return &data[0..0];
    }
    let start = offset as usize;
    let end = if len < data.len() - start {
        start + len
    } else {
        data.len()
    };
    &data[start..end]
}

/// Where a read falls among the windows of a windowed pager.
pub struct WindowSpan {
    /// Which window holds the first byte.
    pub window_id: u32,
    /// The first byte's place inside that window.
    pub local_offset: usize,
    /// How many bytes to take from there, not past the window's end.
    pub read_len: usize,
}

/// Locates the read of `len` bytes at `offset` in a file of `file_len`
/// bytes. `None` when nothing is to be read: `offset` is at or past the end,
/// `len` is zero, or the window's number does not fit in a `u32`.
pub fn window_span(offset: u64, len: usize, file_len: u64) -> (r: Option<WindowSpan>)
    ensures
        r is None <==> (offset >= file_len || len == 0 || offset / WINDOW_SIZE > u32::MAX),
        r matches Some(s) ==> {
            &&& s.window_id == offset / WINDOW_SIZE
            &&& s.local_offset == offset % WINDOW_SIZE
            &&& s.read_len == if len + s.local_offset > WINDOW_SIZE {
                WINDOW_SIZE - s.local_offset
            } else {
                len as int
            }
        },
{
    if offset >= file_len || len == 0 {
        return None;
    }
    let id = offset / WINDOW_SIZE;
    if id > u32::MAX as u64 {
        return None;
    }
    let local = (offset % WINDOW_SIZE) as usize;
    let room = WINDOW_SIZE as usize - local;
    let read_len = if len > room {
        room
    } else {
        len
    };
    Some(WindowSpan { window_id: id as u32, local_offset: local, read_len })
}

/// Bytes that window `window_id` holds of a file of `file_len` bytes: a
/// whole window, or what is left before the end of the file.
pub fn window_bytes(window_id: u32, file_len: u64) -> (r: usize)
    ensures
        r as int == if file_len - window_id * WINDOW_SIZE >= WINDOW_SIZE {
            WINDOW_SIZE as int
        } else if file_len >= window_id * WINDOW_SIZE {
            file_len - window_id * WINDOW_SIZE
        } else {
            0
        },
{
    let start = window_id as u64 * WINDOW_SIZE;
    let left = file_len.saturating_sub(start);
    if left >= WINDOW_SIZE {
        WINDOW_SIZE as usize
    } else {
        left as usize
    }
}

/// The window to drop when the cache is full: the one read longest ago,
/// the first of them where several were read at the same moment.
pub fn least_recent(stamps: &Vec<u64>) -> (r: usize)
    requires
        stamps@.len() > 0,
    ensures
        r < stamps@.len(),
        forall|i: int| 0 <= i < stamps@.len() ==> stamps@[r as int] <= stamps@[i],
        forall|i: int| 0 <= i < r ==> stamps@[i] > stamps@[r as int],
{
    let mut best: usize = 0;
    let mut i: usize = 1;
    while i < stamps.len()
        invariant
            0 < i <= stamps@.len(),
            best < i,
            forall|j: int| 0 <= j < i ==> stamps@[best as int] <= stamps@[j],
            forall|j: int| 0 <= j < best ==> stamps@[j] > stamps@[best as int],
        decreases stamps@.len() - i,
    {
        if stamps[i] < stamps[best] {
            best = i;
        }
        i = i + 1;
    }
    best
}

} // verus!
