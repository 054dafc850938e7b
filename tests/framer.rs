use line_broadcast::LineFramer;

#[test]
fn lines_split_across_reads_come_out_whole() {
    let mut f = LineFramer::new();
    let first = f.feed(b"abc\ndef\ng");
    assert_eq!(first, vec!["abc".to_string(), "def".to_string()]);
    assert_eq!(f.pending(), b"g");
    let second = f.feed(b"hi\n");
    assert_eq!(second, vec!["ghi".to_string()]);
    assert_eq!(f.pending(), b"");
}

#[test]
fn feeding_at_once_or_in_pieces_agrees() {
    let mut whole = LineFramer::new();
    let all = whole.feed(b"abc\ndef\nghi\n");
    let mut pieces = LineFramer::new();
    let mut parts = pieces.feed(b"abc\ndef\ng");
    parts.extend(pieces.feed(b"hi\n"));
    assert_eq!(all, parts);
    assert_eq!(all, vec!["abc".to_string(), "def".to_string(), "ghi".to_string()]);
}

#[test]
fn no_partial_line_is_emitted() {
    let mut f = LineFramer::new();
    assert!(f.feed(b"partial").is_empty());
    assert!(f.feed(b"").is_empty());
    assert_eq!(f.pending(), b"partial");
}

#[test]
fn empty_lines_are_lines() {
    let mut f = LineFramer::new();
    assert_eq!(f.feed(b"\n\n"), vec![String::new(), String::new()]);
}

#[test]
fn invalid_utf8_is_replaced_not_rejected() {
    let mut f = LineFramer::new();
    let lines = f.feed(&[b'a', 0xff, b'b', b'\n']);
    assert_eq!(lines, vec!["a\u{fffd}b".to_string()]);
}

#[test]
fn multibyte_text_survives_a_split() {
    let mut f = LineFramer::new();
    let bytes = "héllo\n".as_bytes();
    assert!(f.feed(&bytes[..2]).is_empty());
    assert_eq!(f.feed(&bytes[2..]), vec!["héllo".to_string()]);
}
