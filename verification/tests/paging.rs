use juanlog::pager::{chunk_at, least_recent, window_bytes, window_span, LogPager, WINDOW_SIZE};

struct InMemory(Vec<u8>);

impl LogPager for InMemory {
    fn len(&self) -> u64 {
        self.0.len() as u64
    }
    fn get_chunk(&self, offset: u64, len: usize) -> &[u8] {
        chunk_at(&self.0, offset, len)
    }
    fn get_byte(&self, offset: u64) -> u8 {
        self.0[offset as usize]
    }
    fn advise_sequential(&self) {}
    fn advise_random(&self) {}
    fn advise_will_need(&self, _offset: u64, _len: usize) {}
}

#[test]
fn chunk_at_cuts_at_the_end() {
    let data = b"hello world";
    assert_eq!(chunk_at(data, 0, 5), b"hello");
    assert_eq!(chunk_at(data, 6, 100), b"world");
    assert_eq!(chunk_at(data, 11, 3), b"");
    assert_eq!(chunk_at(data, 50, 3), b"");
    assert_eq!(chunk_at(data, 3, 0), b"");
}

#[test]
fn default_methods_of_the_pager() {
    let p = InMemory(b"abc\n".to_vec());
    assert!(!p.is_empty());
    assert_eq!(p.last_byte(), Some(b'\n'));
    assert_eq!(p.get_chunk(1, 2), b"bc");
    let e = InMemory(Vec::new());
    assert!(e.is_empty());
    assert_eq!(e.last_byte(), None);
}

#[test]
fn window_span_inside_one_window() {
    let s = window_span(WINDOW_SIZE + 10, 100, 3 * WINDOW_SIZE).unwrap();
    assert_eq!(s.window_id, 1);
    assert_eq!(s.local_offset, 10);
    assert_eq!(s.read_len, 100);
}

#[test]
fn window_span_stops_at_the_window_end() {
    let s = window_span(WINDOW_SIZE - 4, 100, 3 * WINDOW_SIZE).unwrap();
    assert_eq!(s.window_id, 0);
    assert_eq!(s.local_offset as u64, WINDOW_SIZE - 4);
    assert_eq!(s.read_len, 4);
}

#[test]
fn window_span_refuses_empty_reads() {
    assert!(window_span(10, 0, 100).is_none());
    assert!(window_span(100, 5, 100).is_none());
    assert!(window_span(200, 5, 100).is_none());
}

#[test]
fn window_bytes_of_the_last_window() {
    assert_eq!(window_bytes(0, 3 * WINDOW_SIZE) as u64, WINDOW_SIZE);
    assert_eq!(window_bytes(2, 2 * WINDOW_SIZE + 7), 7);
    assert_eq!(window_bytes(5, 100), 0);
}

#[test]
fn least_recent_takes_the_first_oldest() {
    assert_eq!(least_recent(&vec![5, 3, 9, 3]), 1);
    assert_eq!(least_recent(&vec![1]), 0);
    assert_eq!(least_recent(&vec![4, 4, 4]), 0);
    assert_eq!(least_recent(&vec![8, 7, 6, 5]), 3);
}
