use http_server::bytes::{
    append, equal, find, is_number, is_word, parse_number, push_decimal, render_number, rfind,
    split, split_whitespace, suffix_after_last, to_vec, trim, whitespace,
};

#[test]
fn find_gives_the_first_occurrence() {
    assert_eq!(find(b"a/b/c", 0, b'/'), 1);
    assert_eq!(find(b"a/b/c", 2, b'/'), 3);
    assert_eq!(find(b"a/b/c", 1, b'/'), 1);
}

#[test]
fn find_gives_the_length_when_the_byte_is_absent() {
    assert_eq!(find(b"abc", 0, b'/'), 3);
    assert_eq!(find(b"a/bc", 2, b'/'), 4);
    assert_eq!(find(b"", 0, b'/'), 0);
}

#[test]
fn rfind_gives_the_last_occurrence() {
    assert_eq!(rfind(b"/echo/abc", b'/'), Some(5));
    assert_eq!(rfind(b"/", b'/'), Some(0));
    assert_eq!(rfind(b"abc", b'/'), None);
    assert_eq!(rfind(b"", b'/'), None);
}

#[test]
fn suffix_after_last_takes_what_follows_the_last_separator() {
    assert_eq!(suffix_after_last(b"/echo/abc", b'/'), Some(&b"abc"[..]));
    assert_eq!(suffix_after_last(b"/echo/", b'/'), Some(&b""[..]));
    assert_eq!(suffix_after_last(b"echo", b'/'), None);
}

#[test]
fn split_keeps_empty_pieces() {
    assert_eq!(split(b"a&b", b'&'), vec![b"a".to_vec(), b"b".to_vec()]);
    assert_eq!(split(b"a&&b&", b'&'), vec![b"a".to_vec(), vec![], b"b".to_vec(), vec![]]);
    assert_eq!(split(b"&", b'&'), vec![Vec::<u8>::new(), vec![]]);
}

#[test]
fn split_of_nothing_is_one_empty_piece() {
    assert_eq!(split(b"", b'&'), vec![Vec::<u8>::new()]);
    assert_eq!(split(b"abc", b'&'), vec![b"abc".to_vec()]);
}

#[test]
fn split_whitespace_skips_runs_of_whitespace() {
    assert_eq!(
        split_whitespace(b"GET / HTTP/1.1"),
        vec![b"GET".to_vec(), b"/".to_vec(), b"HTTP/1.1".to_vec()]
    );
    assert_eq!(
        split_whitespace(b"  GET \t /  HTTP/1.1 "),
        vec![b"GET".to_vec(), b"/".to_vec(), b"HTTP/1.1".to_vec()]
    );
    assert_eq!(split_whitespace(b""), Vec::<Vec<u8>>::new());
    assert_eq!(split_whitespace(b" \t\r "), Vec::<Vec<u8>>::new());
}

#[test]
fn whitespace_is_the_five_ascii_bytes() {
    for b in 0u8..=255 {
        let expected = b == b' ' || b == b'\t' || b == b'\n' || b == 0x0c || b == b'\r';
        assert_eq!(whitespace(b), expected);
    }
}

#[test]
fn trim_removes_whitespace_at_both_ends_only() {
    assert_eq!(trim(b"  gzip \t"), b"gzip");
    assert_eq!(trim(b"gzip"), b"gzip");
    assert_eq!(trim(b" a b "), b"a b");
    assert_eq!(trim(b"   "), b"");
    assert_eq!(trim(b""), b"");
}

#[test]
fn parse_number_reads_decimal_digits() {
    assert_eq!(parse_number(b"0"), Some(0));
    assert_eq!(parse_number(b"42"), Some(42));
    assert_eq!(parse_number(b"007"), Some(7));
    assert_eq!(parse_number(b"+15"), Some(15));
    assert_eq!(parse_number(b"1234567890"), Some(1234567890));
}

#[test]
fn parse_number_reads_the_largest_usize() {
    let text = usize::MAX.to_string();
    assert_eq!(parse_number(text.as_bytes()), Some(usize::MAX));
}

#[test]
fn parse_number_refuses_what_is_no_number() {
    assert_eq!(parse_number(b""), None);
    assert_eq!(parse_number(b"+"), None);
    assert_eq!(parse_number(b"-1"), None);
    assert_eq!(parse_number(b"1 "), None);
    assert_eq!(parse_number(b" 1"), None);
    assert_eq!(parse_number(b"12a"), None);
    assert_eq!(parse_number(b"++1"), None);
}

#[test]
fn parse_number_refuses_what_a_usize_cannot_hold() {
    let mut text = usize::MAX.to_string().into_bytes();
    text.push(b'0');
    assert_eq!(parse_number(&text), None);
    assert!(is_number(&text));
    assert_eq!(parse_number(b"99999999999999999999999999999999999999999"), None);
}

#[test]
fn is_number_accepts_digits_with_an_optional_plus() {
    assert!(is_number(b"0"));
    assert!(is_number(b"+0"));
    assert!(is_number(b"99999999999999999999999999999999999999999"));
    assert!(!is_number(b""));
    assert!(!is_number(b"+"));
    assert!(!is_number(b"1.5"));
    assert!(!is_number(b"0x10"));
}

#[test]
fn render_number_writes_decimal_without_leading_zeros() {
    assert_eq!(render_number(0), b"0".to_vec());
    assert_eq!(render_number(7), b"7".to_vec());
    assert_eq!(render_number(10), b"10".to_vec());
    assert_eq!(render_number(404), b"404".to_vec());
    assert_eq!(render_number(usize::MAX), usize::MAX.to_string().into_bytes());
}

#[test]
fn rendered_numbers_read_back() {
    for n in [0usize, 1, 9, 10, 99, 100, 65535, 1 << 40] {
        assert_eq!(parse_number(&render_number(n)), Some(n));
    }
}

#[test]
fn push_decimal_appends() {
    let mut out = b"n=".to_vec();
    push_decimal(&mut out, 120);
    assert_eq!(out, b"n=120".to_vec());
}

#[test]
fn append_and_to_vec_copy_bytes() {
    let mut out = to_vec(b"ab");
    append(&mut out, b"cd");
    append(&mut out, b"");
    assert_eq!(out, b"abcd".to_vec());
}

#[test]
fn equal_compares_byte_for_byte() {
    assert!(equal(b"abc", b"abc"));
    assert!(equal(b"", b""));
    assert!(!equal(b"abc", b"abd"));
    assert!(!equal(b"abc", b"ab"));
    assert!(!equal(b"GET", b"get"));
}

#[test]
fn is_word_compares_with_text() {
    assert!(is_word(b"gzip", "gzip"));
    assert!(!is_word(b"gzip ", "gzip"));
    assert!(!is_word(b"GZIP", "gzip"));
}
