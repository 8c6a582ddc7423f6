use http_server::fields::Fields;
use http_server::request::{
    parse_headers, parse_method, parse_query, read_body, read_head, split_header, HTTPMethod,
    ParseError, Request,
};

fn value<'a>(fields: &'a Fields, name: &[u8]) -> Option<&'a [u8]> {
    fields.get(name).map(|v| v.as_slice())
}

fn error(input: &[u8]) -> ParseError {
    match Request::new(input) {
        Ok(_) => panic!("the request was accepted"),
        Err(e) => e,
    }
}

#[test]
fn parses_a_bare_request_line() {
    let request = Request::new(b"GET /echo/abc HTTP/1.1\r\n\r\n").unwrap();
    assert_eq!(request.http_method, HTTPMethod::Get);
    assert_eq!(request.target, b"/echo/abc".to_vec());
    assert_eq!(request.http_version, b"HTTP/1.1".to_vec());
    assert!(request.headers.is_empty());
    assert!(request.body.is_none());
    assert!(request.path_variables.is_empty());
    assert!(request.query_params.is_empty());
}

#[test]
fn parses_headers_and_body() {
    let request = Request::new(
        b"POST /files/a HTTP/1.1\r\nHost: localhost:4221\r\nContent-Length: 5\r\n\r\nhello",
    )
    .unwrap();
    assert_eq!(request.http_method, HTTPMethod::Post);
    assert_eq!(request.target, b"/files/a".to_vec());
    assert_eq!(request.headers.len(), 2);
    assert_eq!(value(&request.headers, b"Host"), Some(&b"localhost:4221"[..]));
    assert_eq!(value(&request.headers, b"Content-Length"), Some(&b"5"[..]));
    assert_eq!(request.body, Some(b"hello".to_vec()));
}

#[test]
fn line_feeds_alone_delimit_lines_too() {
    let request = Request::new(b"GET / HTTP/1.0\nHost: a\nContent-Length: 2\n\nhi").unwrap();
    assert_eq!(request.http_version, b"HTTP/1.0".to_vec());
    assert_eq!(value(&request.headers, b"Host"), Some(&b"a"[..]));
    assert_eq!(request.body, Some(b"hi".to_vec()));
}

#[test]
fn the_version_is_not_validated() {
    let request = Request::new(b"GET / whatever\r\n\r\n").unwrap();
    assert_eq!(request.http_version, b"whatever".to_vec());
}

#[test]
fn the_head_may_end_with_the_stream() {
    let request = Request::new(b"GET / HTTP/1.1\r\nHost: a").unwrap();
    assert_eq!(value(&request.headers, b"Host"), Some(&b"a"[..]));
    assert!(request.body.is_none());
    let request = Request::new(b"GET / HTTP/1.1").unwrap();
    assert!(request.headers.is_empty());
}

#[test]
fn query_parameters_are_split_from_the_target() {
    let request = Request::new(b"GET /search?q=rust&lang=en HTTP/1.1\r\n\r\n").unwrap();
    assert_eq!(request.target, b"/search".to_vec());
    assert_eq!(request.query_params.len(), 2);
    assert_eq!(value(&request.query_params, b"q"), Some(&b"rust"[..]));
    assert_eq!(value(&request.query_params, b"lang"), Some(&b"en"[..]));
}

#[test]
fn a_query_part_without_equals_is_refused() {
    assert_eq!(error(b"GET /search?bad HTTP/1.1\r\n\r\n"), ParseError::MalformedQueryParam);
    assert_eq!(error(b"GET /search?a=1&bad HTTP/1.1\r\n\r\n"), ParseError::MalformedQueryParam);
    assert_eq!(error(b"GET /search? HTTP/1.1\r\n\r\n"), ParseError::MalformedQueryParam);
    assert_eq!(error(b"GET /search?a=1& HTTP/1.1\r\n\r\n"), ParseError::MalformedQueryParam);
}

#[test]
fn a_query_is_split_at_the_first_question_mark_and_the_first_equals() {
    let request = Request::new(b"GET /s?a=b=c&d=?e HTTP/1.1\r\n\r\n").unwrap();
    assert_eq!(request.target, b"/s".to_vec());
    assert_eq!(value(&request.query_params, b"a"), Some(&b"b=c"[..]));
    assert_eq!(value(&request.query_params, b"d"), Some(&b"?e"[..]));
}

#[test]
fn the_last_of_two_query_parameters_with_one_name_stays() {
    let request = Request::new(b"GET /s?a=1&b=2&a=3 HTTP/1.1\r\n\r\n").unwrap();
    assert_eq!(request.query_params.len(), 2);
    assert_eq!(value(&request.query_params, b"a"), Some(&b"3"[..]));
    assert_eq!(value(&request.query_params, b"b"), Some(&b"2"[..]));
}

#[test]
fn query_names_and_values_may_be_empty() {
    let request = Request::new(b"GET /s?=v&k= HTTP/1.1\r\n\r\n").unwrap();
    assert_eq!(value(&request.query_params, b""), Some(&b"v"[..]));
    assert_eq!(value(&request.query_params, b"k"), Some(&b""[..]));
}

#[test]
fn a_request_line_needs_exactly_three_words() {
    assert_eq!(error(b"GET /\r\n\r\n"), ParseError::MalformedRequestLine);
    assert_eq!(error(b"GET / HTTP/1.1 extra\r\n\r\n"), ParseError::MalformedRequestLine);
    assert_eq!(error(b"GET\r\n\r\n"), ParseError::MalformedRequestLine);
}

#[test]
fn an_empty_stream_has_no_request_line() {
    assert_eq!(error(b""), ParseError::MalformedRequestLine);
    assert_eq!(error(b"\r\n"), ParseError::MalformedRequestLine);
    assert_eq!(error(b"\r\nGET / HTTP/1.1\r\n\r\n"), ParseError::MalformedRequestLine);
}

#[test]
fn words_of_the_request_line_are_separated_by_any_whitespace() {
    let request = Request::new(b"GET \t /a   HTTP/1.1\r\n\r\n").unwrap();
    assert_eq!(request.http_method, HTTPMethod::Get);
    assert_eq!(request.target, b"/a".to_vec());
    assert_eq!(request.http_version, b"HTTP/1.1".to_vec());
}

#[test]
fn only_get_and_post_are_supported() {
    assert_eq!(error(b"PUT / HTTP/1.1\r\n\r\n"), ParseError::UnsupportedMethod);
    assert_eq!(error(b"DELETE / HTTP/1.1\r\n\r\n"), ParseError::UnsupportedMethod);
    assert_eq!(error(b"get / HTTP/1.1\r\n\r\n"), ParseError::UnsupportedMethod);
    assert_eq!(error(b"GETS / HTTP/1.1\r\n\r\n"), ParseError::UnsupportedMethod);
    assert_eq!(Request::new(b"POST / HTTP/1.1\r\n\r\n").unwrap().http_method, HTTPMethod::Post);
}

#[test]
fn a_header_line_needs_its_separator_exactly_once() {
    assert_eq!(error(b"GET / HTTP/1.1\r\nHost\r\n\r\n"), ParseError::MalformedHeader);
    assert_eq!(error(b"GET / HTTP/1.1\r\nHost:a\r\n\r\n"), ParseError::MalformedHeader);
    assert_eq!(error(b"GET / HTTP/1.1\r\nHost: a: b\r\n\r\n"), ParseError::MalformedHeader);
    assert_eq!(error(b"GET / HTTP/1.1\r\n \r\n\r\n"), ParseError::MalformedHeader);
    assert_eq!(error(b"GET / HTTP/1.1\r\nA: b\r\nC\r\n\r\n"), ParseError::MalformedHeader);
}

#[test]
fn a_header_may_hold_colons_without_a_space_after_them() {
    let request = Request::new(b"GET / HTTP/1.1\r\nHost: localhost:4221\r\nA:b: c\r\n\r\n").unwrap();
    assert_eq!(value(&request.headers, b"Host"), Some(&b"localhost:4221"[..]));
    assert_eq!(value(&request.headers, b"A:b"), Some(&b"c"[..]));
}

#[test]
fn header_names_and_values_may_be_empty() {
    let request = Request::new(b"GET / HTTP/1.1\r\n: v\r\nK: \r\n\r\n").unwrap();
    assert_eq!(value(&request.headers, b""), Some(&b"v"[..]));
    assert_eq!(value(&request.headers, b"K"), Some(&b""[..]));
}

#[test]
fn the_last_of_two_headers_with_one_name_stays() {
    let request = Request::new(b"GET / HTTP/1.1\r\nA: 1\r\nB: 2\r\nA: 3\r\n\r\n").unwrap();
    assert_eq!(request.headers.len(), 2);
    assert_eq!(value(&request.headers, b"A"), Some(&b"3"[..]));
}

#[test]
fn header_names_are_case_sensitive() {
    let request = Request::new(b"GET / HTTP/1.1\r\ncontent-length: 5\r\n\r\nhello").unwrap();
    assert!(request.body.is_none());
    assert_eq!(value(&request.headers, b"content-length"), Some(&b"5"[..]));
    assert_eq!(value(&request.headers, b"Content-Length"), None);
}

#[test]
fn a_length_of_zero_gives_an_empty_body() {
    let request = Request::new(b"POST / HTTP/1.1\r\nContent-Length: 0\r\n\r\n").unwrap();
    assert_eq!(request.body, Some(Vec::new()));
}

#[test]
fn no_length_gives_no_body() {
    let request = Request::new(b"POST / HTTP/1.1\r\nHost: a\r\n\r\nignored").unwrap();
    assert_eq!(request.body, None);
}

#[test]
fn the_body_is_exactly_as_long_as_announced() {
    let request = Request::new(b"POST / HTTP/1.1\r\nContent-Length: 3\r\n\r\nabcdef").unwrap();
    assert_eq!(request.body, Some(b"abc".to_vec()));
}

#[test]
fn the_body_is_not_read_line_by_line() {
    let request = Request::new(b"POST / HTTP/1.1\r\nContent-Length: 6\r\n\r\na\r\n\r\nb").unwrap();
    assert_eq!(request.body, Some(b"a\r\n\r\nb".to_vec()));
}

#[test]
fn a_body_cut_short_is_refused() {
    assert_eq!(
        error(b"POST / HTTP/1.1\r\nContent-Length: 10\r\n\r\nabc"),
        ParseError::TruncatedBody
    );
    assert_eq!(error(b"POST / HTTP/1.1\r\nContent-Length: 1\r\n\r\n"), ParseError::TruncatedBody);
    assert_eq!(error(b"POST / HTTP/1.1\r\nContent-Length: 1"), ParseError::TruncatedBody);
}

#[test]
fn a_length_beyond_any_stream_is_a_body_cut_short() {
    assert_eq!(
        error(b"POST / HTTP/1.1\r\nContent-Length: 99999999999999999999999999\r\n\r\nabc"),
        ParseError::TruncatedBody
    );
}

#[test]
fn a_length_that_is_no_number_is_a_malformed_header() {
    assert_eq!(error(b"POST / HTTP/1.1\r\nContent-Length: abc\r\n\r\n"), ParseError::MalformedHeader);
    assert_eq!(error(b"POST / HTTP/1.1\r\nContent-Length: -1\r\n\r\n"), ParseError::MalformedHeader);
    assert_eq!(error(b"POST / HTTP/1.1\r\nContent-Length: \r\n\r\n"), ParseError::MalformedHeader);
    assert_eq!(error(b"POST / HTTP/1.1\r\nContent-Length: 1 \r\n\r\nab"), ParseError::MalformedHeader);
}

#[test]
fn a_length_may_carry_a_plus_sign() {
    let request = Request::new(b"POST / HTTP/1.1\r\nContent-Length: +2\r\n\r\nhi").unwrap();
    assert_eq!(request.body, Some(b"hi".to_vec()));
}

#[test]
fn faults_are_reported_in_the_order_of_reading() {
    assert_eq!(error(b"PUT /s?bad\r\nHost\r\n\r\n"), ParseError::MalformedRequestLine);
    assert_eq!(error(b"PUT /s?bad HTTP/1.1\r\nHost\r\n\r\n"), ParseError::UnsupportedMethod);
    assert_eq!(error(b"GET /s?bad HTTP/1.1\r\nHost\r\n\r\n"), ParseError::MalformedQueryParam);
    assert_eq!(
        error(b"GET /s?a=1 HTTP/1.1\r\nHost\r\nContent-Length: 9\r\n\r\n"),
        ParseError::MalformedHeader
    );
    assert_eq!(
        error(b"GET /s?a=1 HTTP/1.1\r\nHost: a\r\nContent-Length: 9\r\n\r\n"),
        ParseError::TruncatedBody
    );
}

#[test]
fn a_carriage_return_without_line_feed_is_part_of_the_line() {
    let request = Request::new(b"GET / HTTP/1.1\r\nA: b\rc\r\n\r\n").unwrap();
    assert_eq!(value(&request.headers, b"A"), Some(&b"b\rc"[..]));
}

#[test]
fn read_head_stops_at_the_empty_line() {
    let (lines, consumed, closed) = read_head(b"a\r\nb\n\r\nrest");
    assert_eq!(lines, vec![b"a".to_vec(), b"b".to_vec()]);
    assert_eq!(consumed, 7);
    assert!(closed);
}

#[test]
fn read_head_reads_to_the_end_without_an_empty_line() {
    let (lines, consumed, closed) = read_head(b"a\r\nb");
    assert_eq!(lines, vec![b"a".to_vec(), b"b".to_vec()]);
    assert_eq!(consumed, 4);
    assert!(!closed);
    let (lines, consumed, closed) = read_head(b"a\r\n");
    assert_eq!(lines, vec![b"a".to_vec()]);
    assert_eq!(consumed, 3);
    assert!(!closed);
    let (lines, consumed, closed) = read_head(b"");
    assert!(lines.is_empty());
    assert_eq!(consumed, 0);
    assert!(!closed);
}

#[test]
fn parse_method_knows_two_methods() {
    assert_eq!(parse_method(b"GET"), Some(HTTPMethod::Get));
    assert_eq!(parse_method(b"POST"), Some(HTTPMethod::Post));
    assert_eq!(parse_method(b"HEAD"), None);
    assert_eq!(parse_method(b""), None);
}

#[test]
fn parse_query_reads_pairs() {
    let params = parse_query(b"q=rust&lang=en").unwrap();
    assert_eq!(value(&params, b"q"), Some(&b"rust"[..]));
    assert_eq!(value(&params, b"lang"), Some(&b"en"[..]));
    assert!(parse_query(b"q").is_none());
    assert!(parse_query(b"").is_none());
}

#[test]
fn split_header_splits_at_the_separator() {
    assert_eq!(split_header(b"Host: a"), Some((b"Host".to_vec(), b"a".to_vec())));
    assert_eq!(split_header(b": "), Some((Vec::new(), Vec::new())));
    assert_eq!(split_header(b"a:: b"), Some((b"a:".to_vec(), b"b".to_vec())));
    assert_eq!(split_header(b"Host:a"), None);
    assert_eq!(split_header(b"a: b: c"), None);
    assert_eq!(split_header(b":"), None);
    assert_eq!(split_header(b""), None);
}

#[test]
fn parse_headers_starts_where_it_is_told() {
    let lines = vec![b"GET / HTTP/1.1".to_vec(), b"A: 1".to_vec(), b"B: 2".to_vec()];
    let headers = parse_headers(&lines, 1).unwrap();
    assert_eq!(headers.len(), 2);
    assert_eq!(value(&headers, b"B"), Some(&b"2"[..]));
    assert!(parse_headers(&lines, 0).is_none());
    assert!(parse_headers(&lines, 3).unwrap().is_empty());
}

#[test]
fn read_body_takes_the_announced_bytes() {
    let mut headers = Fields::new();
    assert_eq!(read_body(&headers, b"abc"), Ok(None));
    headers.insert(b"Content-Length".to_vec(), b"2".to_vec());
    assert_eq!(read_body(&headers, b"abc"), Ok(Some(b"ab".to_vec())));
    assert_eq!(read_body(&headers, b"a"), Err(ParseError::TruncatedBody));
    headers.insert(b"Content-Length".to_vec(), b"two".to_vec());
    assert_eq!(read_body(&headers, b"abc"), Err(ParseError::MalformedHeader));
}

#[test]
fn every_fault_has_its_message() {
    assert_eq!(
        ParseError::MalformedRequestLine.message(),
        "the request line is not made of three words"
    );
    assert_eq!(ParseError::UnsupportedMethod.message(), "the method is not supported");
    assert_eq!(ParseError::MalformedHeader.message(), "a header is malformed");
    assert_eq!(ParseError::MalformedQueryParam.message(), "a query parameter has no value");
    assert_eq!(ParseError::TruncatedBody.message(), "the body is shorter than announced");
}

#[test]
fn a_cloned_request_holds_the_same() {
    let request = Request::new(
        b"POST /a?x=1 HTTP/1.1\r\nHost: h\r\nContent-Length: 2\r\n\r\nhi",
    )
    .unwrap();
    let copy = request.clone();
    assert_eq!(copy.http_method, HTTPMethod::Post);
    assert_eq!(copy.target, request.target);
    assert_eq!(copy.http_version, request.http_version);
    assert_eq!(value(&copy.headers, b"Host"), Some(&b"h"[..]));
    assert_eq!(value(&copy.query_params, b"x"), Some(&b"1"[..]));
    assert_eq!(copy.body, Some(b"hi".to_vec()));
    assert!(copy.path_variables.is_empty());
}

#[test]
fn read_tells_whether_the_head_is_closed() {
    let (read, closed) = Request::read(b"GET / HTTP/1.1\r\n");
    assert!(read.is_ok());
    assert!(!closed);
    let (read, closed) = Request::read(b"GET / HTTP/1.1\r\n\r\n");
    assert!(read.is_ok());
    assert!(closed);
    let (read, closed) = Request::read(b"GET / HTTP/1.1\r\nContent-Length: 4\r\n\r\nab");
    assert_eq!(read.err(), Some(ParseError::TruncatedBody));
    assert!(closed);
    let (read, closed) = Request::read(b"");
    assert_eq!(read.err(), Some(ParseError::MalformedRequestLine));
    assert!(!closed);
}
