use esp_monitor::lineread::LineSplitter;

#[test]
fn single_chunk_multiple_lines() {
    let mut s = LineSplitter::new();
    let lines = s.feed(b"hello\nworld\n");
    assert_eq!(lines, vec!["hello", "world"]);
}

#[test]
fn partial_line_buffered_across_calls() {
    let mut s = LineSplitter::new();
    assert!(s.feed(b"hel").is_empty());
    assert!(s.feed(b"lo wor").is_empty());
    let lines = s.feed(b"ld\n");
    assert_eq!(lines, vec!["hello world"]);
}

#[test]
fn crlf_line_endings_stripped() {
    let mut s = LineSplitter::new();
    let lines = s.feed(b"hello\r\nworld\r\n");
    assert_eq!(lines, vec!["hello", "world"]);
}

#[test]
fn empty_lines_preserved() {
    let mut s = LineSplitter::new();
    let lines = s.feed(b"a\n\nb\n");
    assert_eq!(lines, vec!["a", "", "b"]);
}

#[test]
fn no_newline_yields_nothing() {
    let mut s = LineSplitter::new();
    assert!(s.feed(b"no newline here").is_empty());
}

#[test]
fn invalid_utf8_is_lossily_decoded_not_dropped() {
    let mut s = LineSplitter::new();
    let mut chunk = b"before ".to_vec();
    chunk.push(0xFF); // invalid UTF-8 byte
    chunk.extend_from_slice(b" after\n");
    let lines = s.feed(&chunk);
    assert_eq!(lines.len(), 1);
    assert!(lines[0].contains("before"));
    assert!(lines[0].contains("after"));
}

#[test]
fn byte_at_a_time_feed_matches_bulk_feed() {
    let mut s = LineSplitter::new();
    let mut out = Vec::new();
    for b in b"one\ntwo\nthree\n" {
        out.extend(s.feed(&[*b]));
    }
    assert_eq!(out, vec!["one", "two", "three"]);
}

#[test]
fn invalid_utf8_becomes_a_replacement_character() {
    let mut s = LineSplitter::new();
    assert_eq!(s.feed(&[b'a', 0xFF, b'b', b'\n']), vec!["a\u{FFFD}b"]);
}

#[test]
fn multibyte_text_split_between_chunks_comes_back_whole() {
    let mut s = LineSplitter::default();
    let bytes = "gr\u{fc}\u{df}e \u{1F980}\r\n".as_bytes();
    let mut out = Vec::new();
    for b in bytes {
        out.extend(s.feed(&[*b]));
    }
    assert_eq!(out, vec!["gr\u{fc}\u{df}e \u{1F980}"]);
}

#[test]
fn only_one_carriage_return_is_stripped() {
    let mut s = LineSplitter::new();
    assert_eq!(s.feed(b"a\r\r\nb\rc\n\r\n"), vec!["a\r", "b\rc", ""]);
}

#[test]
fn carriage_return_and_newline_in_different_chunks() {
    let mut s = LineSplitter::new();
    assert!(s.feed(b"line\r").is_empty());
    assert_eq!(s.feed(b"\nnext"), vec!["line"]);
    assert!(s.feed(b"").is_empty());
    assert_eq!(s.feed(b"\n"), vec!["next"]);
}
