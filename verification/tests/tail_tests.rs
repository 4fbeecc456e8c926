use tailgate::tail::TailCursor;
use tailgate::tail::drain;

#[test]
fn cursor_starts_at_zero() {
    let c = TailCursor::new();
    assert_eq!(c.offset, 0);
}

#[test]
fn drain_yields_all_complete_lines_in_order() {
    let content: Vec<u8> = b"alpha\nbeta\ngamma\n".to_vec();
    let mut cursor = TailCursor::new();
    let records = drain(&mut cursor, &content);
    assert_eq!(records.len(), 3);
    assert_eq!(records[0].bytes, b"alpha".to_vec());
    assert_eq!(records[1].bytes, b"beta".to_vec());
    assert_eq!(records[2].bytes, b"gamma".to_vec());
    assert_eq!(cursor.offset, content.len());
}

#[test]
fn drain_withholds_incomplete_trailing_line() {
    let content: Vec<u8> = b"alpha\nbet".to_vec();
    let mut cursor = TailCursor::new();
    let records = drain(&mut cursor, &content);
    assert_eq!(records.len(), 1);
    assert_eq!(records[0].bytes, b"alpha".to_vec());
    assert_eq!(cursor.offset, 6);
}

#[test]
fn drain_emits_completed_line_after_append() {
    let mut content: Vec<u8> = b"alpha\nbet".to_vec();
    let mut cursor = TailCursor::new();
    let first = drain(&mut cursor, &content);
    assert_eq!(first.len(), 1);
    content.extend_from_slice(b"a\n");
    let second = drain(&mut cursor, &content);
    assert_eq!(second.len(), 1);
    assert_eq!(second[0].bytes, b"beta".to_vec());
    assert_eq!(cursor.offset, content.len());
}

#[test]
fn redrain_at_fixed_length_yields_nothing() {
    let content: Vec<u8> = b"one\ntwo\npart".to_vec();
    let mut cursor = TailCursor::new();
    let first = drain(&mut cursor, &content);
    assert_eq!(first.len(), 2);
    let offset_after = cursor.offset;
    let second = drain(&mut cursor, &content);
    assert_eq!(second.len(), 0);
    assert_eq!(cursor.offset, offset_after);
}

#[test]
fn drain_handles_empty_lines() {
    let content: Vec<u8> = b"\n\nx\n".to_vec();
    let mut cursor = TailCursor::new();
    let records = drain(&mut cursor, &content);
    assert_eq!(records.len(), 3);
    assert_eq!(records[0].bytes, Vec::<u8>::new());
    assert_eq!(records[1].bytes, Vec::<u8>::new());
    assert_eq!(records[2].bytes, b"x".to_vec());
}

#[test]
fn drain_from_empty_content_yields_nothing() {
    let content: Vec<u8> = Vec::new();
    let mut cursor = TailCursor::new();
    let records = drain(&mut cursor, &content);
    assert_eq!(records.len(), 0);
    assert_eq!(cursor.offset, 0);
}
