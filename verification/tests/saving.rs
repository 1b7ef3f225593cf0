use juanlog::engine::LogEngine;
use juanlog::indexing::LAZY_CHUNK_SIZE;
use juanlog::save::SaveSegment;

fn indexed(data: &[u8]) -> LogEngine<'_> {
    let mut e = LogEngine::new(data);
    if !e.is_fixed_width {
        e.build_index_sequential(LAZY_CHUNK_SIZE);
    }
    e.sync_pieces();
    e
}

fn saved(e: &LogEngine) -> Vec<u8> {
    let mut out = Vec::new();
    for p in 0..e.pieces.len() {
        for seg in e.save_plan(p) {
            match seg {
                SaveSegment::Bytes { start, end } => out.extend_from_slice(&e.data[start..end]),
                SaveSegment::Line { index } => out.extend_from_slice(e.memory_buffer[index].as_bytes()),
                SaveSegment::Newline => out.push(b'\n'),
            }
        }
    }
    out
}

#[test]
fn unedited_file_saves_as_is() {
    let data = b"a\nb\nc\n";
    let e = indexed(data);
    assert_eq!(saved(&e), data.to_vec());
}

#[test]
fn saving_adds_final_newline() {
    let data = b"a\nb";
    let e = indexed(data);
    assert_eq!(saved(&e), b"a\nb\n".to_vec());
}

#[test]
fn edits_are_saved() {
    let data = b"a\nb\nc\n";
    let mut e = indexed(data);
    e.apply_edit(1, 1, "B1\nB2");
    assert_eq!(saved(&e), b"a\nB1\nB2\nc\n".to_vec());
    assert_eq!(e.save_total_bytes(), 2 + 6 + 2);
}

#[test]
fn fixed_width_save_keeps_bytes() {
    let data = vec![b'k'; 12000];
    let e = indexed(&data);
    assert!(e.is_fixed_width);
    assert_eq!(saved(&e), data);
    assert_eq!(e.save_total_bytes(), 12000);
}

#[test]
fn fixed_width_save_with_cuts_keeps_bytes() {
    let mut data = vec![b'k'; 13000];
    data[4000] = b',';
    data[8150] = b' ';
    data[12250] = b']';
    let e = indexed(&data);
    assert!(e.is_fixed_width);
    assert_eq!(e.line_to_byte_offset(1), 4001);
    assert_eq!(saved(&e), data);
}

#[test]
fn unedited_save_with_crlf_lines() {
    let data = b"a\r\nb\r\nc";
    let e = indexed(data);
    assert_eq!(saved(&e), b"a\r\nb\r\nc\n".to_vec());
}

#[test]
fn first_line_claimed_by_a_later_chunk_is_cut_short() {
    // Chunks of 2 bytes at 0, 2 and 4 all count no newline before them; the
    // last of them is taken as the start of line 0.
    let data = b"aaaaa\nb\n";
    let mut e = LogEngine::new(data);
    e.build_index_sequential(2);
    e.sync_pieces();
    assert_eq!(saved(&e), b"a\nb\n".to_vec());
}

#[test]
fn document_of_edited_lines_saves_as_text() {
    let data = b"a\nb\n";
    let mut e = indexed(data);
    e.apply_edit(0, 2, "x\ny");
    assert_eq!(e.total_lines(), 2);
    assert_eq!(saved(&e), b"x\ny\n".to_vec());
}
