use phonopaper::bytes::{
    find_bytes, matches_at, parse_usize_token, rfind_bytes, skip_whitespace, trim_ascii_end_at,
    whitespace_len,
};

#[test]
fn find_first_and_last_occurrences() {
    let hay = b"<<a>> <<b>>";
    assert_eq!(find_bytes(hay, b"<<", 0), Some(0));
    assert_eq!(find_bytes(hay, b"<<", 1), Some(6));
    assert_eq!(find_bytes(hay, b"<<", 7), None);
    assert_eq!(rfind_bytes(hay, b"<<", 6), Some(0));
    assert_eq!(rfind_bytes(hay, b"<<", 7), Some(6));
    assert_eq!(rfind_bytes(hay, b"<<", 0), None);
    assert!(matches_at(hay, b">>", 3));
    assert!(!matches_at(hay, b">>", 10));
}

#[test]
fn unicode_whitespace_lengths() {
    assert_eq!(whitespace_len(b" x", 0), 1);
    assert_eq!(whitespace_len("\u{a0}".as_bytes(), 0), 2);
    assert_eq!(whitespace_len("\u{3000}".as_bytes(), 0), 3);
    assert_eq!(whitespace_len("\u{2029}".as_bytes(), 0), 3);
    assert_eq!(whitespace_len(b"x", 0), 0);
    assert_eq!(whitespace_len("\u{e9}".as_bytes(), 0), 0);
    let text = " \t\u{2003}\n42".as_bytes();
    assert_eq!(skip_whitespace(text, 0), text.len() - 2);
}

#[test]
fn usize_tokens() {
    assert_eq!(parse_usize_token(b"42 rest", 0), Some(42));
    assert_eq!(parse_usize_token(b"+7", 0), Some(7));
    assert_eq!(parse_usize_token(b"+", 0), None);
    assert_eq!(parse_usize_token(b"12a", 0), None);
    assert_eq!(parse_usize_token(b"-3", 0), None);
    assert_eq!(parse_usize_token(b"", 0), None);
    assert_eq!(parse_usize_token("5\u{a0}".as_bytes(), 0), Some(5));
    assert_eq!(
        parse_usize_token(b"18446744073709551615", 0),
        Some(usize::MAX).filter(|_| usize::BITS == 64)
    );
    assert_eq!(parse_usize_token(b"18446744073709551616", 0), None);
}

#[test]
fn trailing_ascii_whitespace_is_trimmed() {
    let data = b"abc \r\n\x0b";
    assert_eq!(trim_ascii_end_at(data, 0, 6), 3);
    // Vertical tab is not ASCII whitespace in the sense of u8::is_ascii_whitespace.
    assert_eq!(trim_ascii_end_at(data, 0, 7), 7);
    assert_eq!(trim_ascii_end_at(data, 4, 6), 4);
}
