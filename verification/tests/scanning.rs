use juanlog::scan::{count_newlines, find_safe_cut, is_monster_line};

#[test]
fn count_newlines_counts_only_line_feeds() {
    assert_eq!(count_newlines(b""), 0);
    assert_eq!(count_newlines(b"abc"), 0);
    assert_eq!(count_newlines(b"a\nb\nc"), 2);
    assert_eq!(count_newlines(b"a\r\nb\r\n"), 2);
    assert_eq!(count_newlines(b"\r\r\r"), 0);
    assert_eq!(count_newlines(b"\n\n\n\n"), 4);
}

#[test]
fn count_newlines_on_large_input() {
    let mut data = Vec::new();
    for i in 0..100_000u32 {
        data.push(if i % 7 == 0 { b'\n' } else { b'x' });
    }
    let expected = data.iter().filter(|&&b| b == b'\n').count();
    assert_eq!(count_newlines(&data), expected);
}

#[test]
fn monster_line_needs_ten_thousand_bytes_without_newline() {
    assert!(!is_monster_line(b""));
    assert!(!is_monster_line(&vec![b'a'; 9999]));
    assert!(is_monster_line(&vec![b'a'; 10000]));
    let mut broken = vec![b'a'; 10000];
    broken[5000] = b'\n';
    assert!(!is_monster_line(&broken));
    let mut late = vec![b'\n'; 3];
    late.extend(vec![b'z'; 10000]);
    assert!(is_monster_line(&late));
}

#[test]
fn safe_cut_moves_back_to_a_delimiter() {
    let data = b"aaaa,bbbbbbbbbb";
    // the last delimiter before position 10 is the comma at 4
    assert_eq!(find_safe_cut(data, 10), 5);
    let plain = vec![b'q'; 300];
    assert_eq!(find_safe_cut(&plain, 250), 250);
    // a delimiter further back than 128 bytes is not used
    let mut far = vec![b'q'; 300];
    far[10] = b' ';
    assert_eq!(find_safe_cut(&far, 250), 250);
    // the nearest of several delimiters wins
    let mut several = vec![b'q'; 300];
    several[200] = b'}';
    several[240] = b']';
    assert_eq!(find_safe_cut(&several, 250), 241);
    assert_eq!(find_safe_cut(&several, 0), 0);
}

#[test]
fn safe_cut_passes_over_partner_bytes_in_the_same_word() {
    // Scanned as 8-byte words from the top, a `-` right after a `,` in the
    // same word is taken with it.
    assert_eq!(find_safe_cut(b"aaaaaa,-aaaaaaaa", 16), 8);
    assert_eq!(find_safe_cut(b"aaaa,--aaaaaaaaa", 16), 7);
    assert_eq!(find_safe_cut(b"aa]\\\\aaaaaaaaaaa", 16), 5);
    // not past the end of the word
    assert_eq!(find_safe_cut(b"aaaaaaa,-aaaaaaa", 16), 8);
    // single bytes below the last whole word are taken as they are
    assert_eq!(find_safe_cut(b"a,-aaaaaaaaaa", 13), 2);
}

#[test]
fn safe_cut_scans_whole_blocks_first() {
    // From position 40 the block [8, 40) is scanned first; its last cut byte
    // is the comma at 30, and the `-` after it is not taken.
    let mut data = vec![b'a'; 40];
    data[30] = b',';
    data[31] = b'-';
    assert_eq!(find_safe_cut(&data, 40), 31);
    // With no cut byte in that block, the window is scanned word by word
    // from the top, and the partner byte in the same word is taken.
    let mut low = vec![b'a'; 40];
    low[2] = b',';
    low[3] = b'-';
    assert_eq!(find_safe_cut(&low, 40), 4);
    // a block is found before a later cut byte in a lower block
    let mut two = vec![b'q'; 300];
    two[130] = b' ';
    two[131] = b'!';
    two[200] = b',';
    assert_eq!(find_safe_cut(&two, 250), 201);
}
