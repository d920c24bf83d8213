use http_server::handler::{handle_client, handle_request};
use http_server::request::{content_length, request_complete, ParseError, Request};
use http_server::response::Response;

fn reply_for(input: &str) -> String {
    handle_client(input.as_bytes())
}

fn wire(status: &str, body: &str) -> String {
    format!(
        "HTTP/1.1 {}\r\nContent-Length: {}\r\nContent-Type: text/plain\r\n\r\n{}",
        status,
        body.len(),
        body
    )
}

#[test]
fn root_path_is_ok_and_empty() {
    assert_eq!(reply_for("GET / HTTP/1.1\r\n\r\n"), wire("200 OK", ""));
    assert_eq!(
        reply_for("POST / HTTP/1.1\r\nHost: localhost\r\nUser-Agent: x\r\n\r\n"),
        wire("200 OK", "")
    );
}

#[test]
fn bare_echo_is_ok_and_empty() {
    assert_eq!(reply_for("GET /echo HTTP/1.1\r\n\r\n"), wire("200 OK", ""));
}

#[test]
fn echo_returns_rest_of_path() {
    assert_eq!(reply_for("GET /echo/abc HTTP/1.1\r\n\r\n"), wire("200 OK", "abc"));
    assert_eq!(reply_for("GET /echo/ HTTP/1.1\r\n\r\n"), wire("200 OK", ""));
}

#[test]
fn echo_strips_only_leading_prefix() {
    assert_eq!(
        reply_for("GET /echo/abc/echo/def HTTP/1.1\r\n\r\n"),
        wire("200 OK", "abc/echo/def")
    );
}

#[test]
fn echo_multibyte_body_counts_bytes() {
    let r = reply_for("GET /echo/h\u{e9}llo HTTP/1.1\r\n\r\n");
    assert_eq!(r, "HTTP/1.1 200 OK\r\nContent-Length: 6\r\nContent-Type: text/plain\r\n\r\nh\u{e9}llo");
}

#[test]
fn other_paths_are_not_found() {
    assert_eq!(reply_for("GET /index.html HTTP/1.1\r\n\r\n"), wire("404 Not Found", ""));
    assert_eq!(reply_for("GET /echoes HTTP/1.1\r\n\r\n"), wire("404 Not Found", ""));
    assert_eq!(reply_for("GET /ECHO/abc HTTP/1.1\r\n\r\n"), wire("404 Not Found", ""));
    assert_eq!(reply_for("GET x/echo/abc HTTP/1.1\r\n\r\n"), wire("404 Not Found", ""));
}

#[test]
fn response_wire_form_is_exact() {
    let r = Response::new("200 OK", "hello");
    assert_eq!(
        r.to_string(),
        "HTTP/1.1 200 OK\r\nContent-Length: 5\r\nContent-Type: text/plain\r\n\r\nhello"
    );
    let big = "x".repeat(1234);
    let r = Response::new("404 Not Found", &big);
    assert!(r.to_string().starts_with("HTTP/1.1 404 Not Found\r\nContent-Length: 1234\r\n"));
}

fn length_read_back(body: &str) -> usize {
    let text = Response::new("200 OK", body).to_string();
    let head = text.split("\r\n\r\n").next().unwrap();
    let headers: Vec<Vec<u8>> = head.split("\r\n").skip(1).map(|l| l.as_bytes().to_vec()).collect();
    content_length(&headers)
}

#[test]
fn content_length_round_trips() {
    assert_eq!(length_read_back(""), 0);
    assert_eq!(length_read_back("plain ascii text"), 16);
    assert_eq!(length_read_back("\u{e9}\u{20ac}\u{1f600}"), 9);
    assert_eq!(length_read_back(&"y".repeat(100)), 100);
}

#[test]
fn request_fields_are_split() {
    let req = Request::new(b"GET /echo/abc HTTP/1.1\r\nHost: localhost:4221\r\nAccept: */*\r\n\r\n").unwrap();
    assert_eq!(req.method, "GET");
    assert_eq!(req.path, "/echo/abc");
    assert_eq!(req.version, "HTTP/1.1");
    assert_eq!(req.headers, vec![b"Host: localhost:4221".to_vec(), b"Accept: */*".to_vec()]);
    assert_eq!(req.body, None);
}

#[test]
fn extra_tokens_after_version_are_ignored() {
    let req = Request::new(b"GET / HTTP/1.1 extra\r\n\r\n").unwrap();
    assert_eq!(req.version, "HTTP/1.1");
}

#[test]
fn no_content_length_means_no_body() {
    let req = Request::new(b"POST /x HTTP/1.1\r\nHost: a\r\n\r\ntrailing bytes").unwrap();
    assert_eq!(req.body, None);
}

#[test]
fn content_length_reads_exactly_that_many_bytes() {
    let req = Request::new(b"POST /x HTTP/1.1\r\nContent-Length: 5\r\n\r\nhelloworld").unwrap();
    assert_eq!(req.body, Some(b"hello".to_vec()));
}

#[test]
fn content_length_is_case_insensitive() {
    let req = Request::new(b"POST /x HTTP/1.1\r\ncOnTeNt-LeNgTh:  3 \r\n\r\nabcdef").unwrap();
    assert_eq!(req.body, Some(b"abc".to_vec()));
}

#[test]
fn zero_or_bad_content_length_reads_no_body() {
    let req = Request::new(b"POST /x HTTP/1.1\r\nContent-Length: 0\r\n\r\nabc").unwrap();
    assert_eq!(req.body, None);
    let req = Request::new(b"POST /x HTTP/1.1\r\nContent-Length: five\r\n\r\nabc").unwrap();
    assert_eq!(req.body, None);
    let req = Request::new(b"POST /x HTTP/1.1\r\nContent-Length: -2\r\n\r\nabc").unwrap();
    assert_eq!(req.body, None);
    let req = Request::new(b"POST /x HTTP/1.1\r\nContent-Length: 99999999999999999999999\r\n\r\nabc").unwrap();
    assert_eq!(req.body, None);
}

#[test]
fn plus_signed_content_length_is_read() {
    let req = Request::new(b"POST /x HTTP/1.1\r\nContent-Length: +2\r\n\r\nabc").unwrap();
    assert_eq!(req.body, Some(b"ab".to_vec()));
}

#[test]
fn short_body_is_truncated() {
    let r = Request::new(b"POST /x HTTP/1.1\r\nContent-Length: 10\r\n\r\nabc");
    assert_eq!(r.err(), Some(ParseError::TruncatedBody));
    assert_eq!(
        reply_for("POST /x HTTP/1.1\r\nContent-Length: 10\r\n\r\nabc"),
        wire("400 Bad Request", "")
    );
}

#[test]
fn two_token_request_line_is_malformed() {
    assert_eq!(Request::new(b"GET /\r\n").err(), Some(ParseError::MalformedRequestLine));
    assert_eq!(Request::new(b"GET\r\n\r\n").err(), Some(ParseError::MalformedRequestLine));
    assert_eq!(Request::new(b"").err(), Some(ParseError::MalformedRequestLine));
    assert_eq!(reply_for("GET /\r\n"), wire("400 Bad Request", ""));
}

#[test]
fn non_utf8_request_line_is_malformed() {
    let r = Request::new(b"GET /\xff\xfe HTTP/1.1\r\n\r\n");
    assert_eq!(r.err(), Some(ParseError::MalformedRequestLine));
}

#[test]
fn header_lookup_folds_case_and_trims() {
    let req = Request::new(b"GET / HTTP/1.1\r\nContent-Type:   Text/HTML  \r\nX-A: 1\r\nx-a: 2\r\n\r\n").unwrap();
    assert_eq!(req.get_header(b"content-type"), b"text/html".to_vec());
    assert_eq!(req.get_header(b"  CONTENT-TYPE "), b"text/html".to_vec());
    assert_eq!(req.get_header(b"x-a"), b"1".to_vec());
    assert_eq!(req.get_header(b"accept"), Vec::<u8>::new());
}

#[test]
fn header_lookup_removes_every_name_occurrence() {
    let req = Request::new(b"GET / HTTP/1.1\r\nX-Tag: a x-tag: b\r\n\r\n").unwrap();
    assert_eq!(req.get_header(b"X-Tag"), b"a  b".to_vec());
}

#[test]
fn header_lines_are_trimmed_and_kept_in_order() {
    let req = Request::new(b"GET / HTTP/1.1\r\n  A: 1  \r\nB: 2\nA: 3\r\n\r\n").unwrap();
    assert_eq!(req.headers, vec![b"A: 1".to_vec(), b"B: 2".to_vec(), b"A: 3".to_vec()]);
}

#[test]
fn head_ends_at_end_of_input() {
    let req = Request::new(b"GET / HTTP/1.1\r\nHost: a").unwrap();
    assert_eq!(req.headers, vec![b"Host: a".to_vec()]);
    assert_eq!(req.body, None);
}

#[test]
fn completeness_waits_for_blank_line_and_body() {
    assert!(!request_complete(b""));
    assert!(!request_complete(b"GET / HTTP/1.1\r\nHost: a\r\n"));
    assert!(request_complete(b"GET / HTTP/1.1\r\nHost: a\r\n\r\n"));
    assert!(!request_complete(b"POST / HTTP/1.1\r\nContent-Length: 4\r\n\r\nab"));
    assert!(request_complete(b"POST / HTTP/1.1\r\nContent-Length: 4\r\n\r\nabcd"));
    assert!(request_complete(b"POST / HTTP/1.1\r\nContent-Length: 4\r\n\r\nabcdef"));
}

#[test]
fn routing_ignores_method() {
    let get = Request::new(b"GET /echo/z HTTP/1.1\r\n\r\n").unwrap();
    let put = Request::new(b"PUT /echo/z HTTP/1.1\r\n\r\n").unwrap();
    let a = handle_request(&get);
    let b = handle_request(&put);
    assert_eq!(a.status, b.status);
    assert_eq!(a.body, "z");
    assert_eq!(b.body, "z");
}

#[test]
fn many_connections_get_their_own_echo() {
    let inputs: Vec<String> = (0..64).map(|i| format!("GET /echo/id{} HTTP/1.1\r\n\r\n", i)).collect();
    let replies: Vec<String> = inputs.iter().map(|s| handle_client(s.as_bytes())).collect();
    for (i, r) in replies.iter().enumerate() {
        assert_eq!(*r, wire("200 OK", &format!("id{}", i)));
    }
}

#[test]
fn header_lookup_matches_whole_name_only() {
    let req = Request::new(b"GET / HTTP/1.1\r\nContent-Length-X: 9\r\n\r\n").unwrap();
    assert_eq!(req.get_header(b"content-length"), Vec::<u8>::new());
    let req = Request::new(b"GET / HTTP/1.1\r\nContent-Length-X: 9\r\nContent-Length: 5\r\n\r\nhello").unwrap();
    assert_eq!(req.get_header(b"content-length"), b"5".to_vec());
    let req = Request::new(b"GET / HTTP/1.1\r\nHost : example\r\n\r\n").unwrap();
    assert_eq!(req.get_header(b"host"), b"host : example".to_vec());
}

#[test]
fn prefixed_header_before_real_length_still_reads_body() {
    let req = Request::new(b"POST /x HTTP/1.1\r\nContent-Length-Extra: 1\r\nContent-Length: 5\r\n\r\nhelloworld").unwrap();
    assert_eq!(req.body, Some(b"hello".to_vec()));
}

#[test]
fn header_values_lose_unicode_white_space() {
    let req = Request::new("GET / HTTP/1.1\r\nX: a\u{a0}\r\nY:\u{3000}b\u{2003}\u{85}\r\n\r\n".as_bytes()).unwrap();
    assert_eq!(req.get_header(b"x"), b"a".to_vec());
    assert_eq!(req.get_header(b"y"), b"b".to_vec());
}

#[test]
fn bare_newline_header_lines_are_skipped() {
    let req = Request::new(b"GET / HTTP/1.1\r\nA: 1\n\nB: 2\r\n\r\n").unwrap();
    assert_eq!(req.headers, vec![b"A: 1".to_vec(), b"B: 2".to_vec()]);
}
