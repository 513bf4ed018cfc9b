use http_request::parser::Header;
use http_request::parser::ParseError;
use http_request::parser::Request;
use http_request::parser::Span;

fn sl<'a>(buf: &'a [u8], s: Span) -> &'a [u8] {
    &buf[s.start..s.end]
}

fn get<'a>(buf: &'a [u8], hs: &[Header], name: &[u8]) -> Option<&'a [u8]> {
    for h in hs {
        if sl(buf, h.name) == name {
            return Some(sl(buf, h.value));
        }
    }
    None
}

#[test]
fn test_make_request() {
    let buff = b"GET / HTTP/1.1\r\nHost: localhost:8000\r\nUser-Agent: curl/7.58.0\r\nAccept: */*\r\n\r\n";
    let request = Request::new(buff).unwrap();

    assert_eq!(sl(buff, request.method), b"GET");
    assert_eq!(sl(buff, request.path), b"/");
    assert_eq!(sl(buff, request.version), b"HTTP/1.1");
}

#[test]
fn test_parse_request_line() {
    let request = b"GET / HTTP/1.1\r\nHost: localhost:8000\r\nUser-Agent: curl/7.58.0\r\nAccept: */*\r\n\r\n";
    let (m, p, v) = Request::parse_request_line(request).unwrap();
    assert_eq!(
        (sl(request, m), sl(request, p), sl(request, v)),
        (b"GET".as_slice(), b"/".as_slice(), b"HTTP/1.1".as_slice())
    );
}

#[test]
fn test_read_headers() {
    let request = b"GET / HTTP/1.1\r\nHost: localhost:8000\r\nUser-Agent: curl/7.58.0\r\nAccept: */*\r\n\r\n";
    let parsed = Request::parse_headers(request);
    assert_eq!(get(request, &parsed, b"Host"), Some(b"localhost:8000".as_slice()));
    assert_eq!(get(request, &parsed, b"User-Agent"), Some(b"curl/7.58.0".as_slice()));
    assert_eq!(get(request, &parsed, b"Accept"), Some(b"*/*".as_slice()));
    assert_eq!(parsed.len(), 3);
}

#[test]
fn test_parse_body() {
    let request = b"POST / HTTP/1.1\r\nHost: localhost:8000\r\nUser-Agent: curl/7.58.0\r\nAccept: */*\r\nContent-Length: 7\r\nContent-Type: application/x-www-form-urlencoded\r\n\r\nFoo=Bar";
    let body = Request::parse_body(request);
    assert_eq!(body.map(|b| sl(request, b)), Some(b"Foo=Bar".as_slice()));
}

#[test]
fn test_round_trip_structure() {
    let buff = b"GET /foo HTTP/1.1\r\nHost: x\r\n\r\n";
    let request = Request::new(buff).unwrap();
    assert_eq!(sl(buff, request.method), b"GET");
    assert_eq!(sl(buff, request.path), b"/foo");
    assert_eq!(sl(buff, request.version), b"HTTP/1.1");
    assert_eq!(request.headers.len(), 1);
    assert_eq!(get(buff, &request.headers, b"Host"), Some(b"x".as_slice()));
    assert_eq!(request.body, None);
}

#[test]
fn test_duplicate_header_overwritten() {
    let buff = b"GET / HTTP/1.1\r\nX-Tag: first\r\nX-Tag: second\r\n\r\n";
    let request = Request::new(buff).unwrap();
    assert_eq!(request.headers.len(), 1);
    assert_eq!(get(buff, &request.headers, b"X-Tag"), Some(b"second".as_slice()));
}

#[test]
fn test_header_order_irrelevant() {
    let one = b"GET / HTTP/1.1\r\nAlpha: 1\r\nBeta: 2\r\n\r\n";
    let two = b"GET / HTTP/1.1\r\nBeta: 2\r\nAlpha: 1\r\n\r\n";
    let r1 = Request::new(one).unwrap();
    let r2 = Request::new(two).unwrap();
    assert_eq!(r1.headers.len(), r2.headers.len());
    assert_eq!(get(one, &r1.headers, b"Alpha"), get(two, &r2.headers, b"Alpha"));
    assert_eq!(get(one, &r1.headers, b"Beta"), get(two, &r2.headers, b"Beta"));
}

#[test]
fn test_body_presence() {
    let with_body = b"POST / HTTP/1.1\r\nContent-Length: 7\r\n\r\nFoo=Bar";
    let request = Request::new(with_body).unwrap();
    assert_eq!(request.body.map(|b| sl(with_body, b)), Some(b"Foo=Bar".as_slice()));

    let no_separator = b"POST / HTTP/1.1\r\nContent-Length: 7\r\n";
    assert_eq!(Request::new(no_separator).unwrap().body, None);

    let nothing_after = b"POST / HTTP/1.1\r\nContent-Length: 7\r\n\r\n";
    assert_eq!(Request::new(nothing_after).unwrap().body, None);
}

#[test]
fn test_greedy_request_line_capture() {
    let buff = b"GET /foo bar HTTP/1.1\r\nHost: x\r\n\r\n";
    let request = Request::new(buff).unwrap();
    assert_eq!(sl(buff, request.method), b"GET /foo");
    assert_eq!(sl(buff, request.path), b"bar");
    assert_eq!(sl(buff, request.version), b"HTTP/1.1");
}

#[test]
fn test_malformed_request_line_fails() {
    assert_eq!(Request::new(b"").err(), Some(ParseError::MalformedRequestLine));
    assert_eq!(
        Request::new(b"GET / HTTP/1.1").err(),
        Some(ParseError::MalformedRequestLine)
    );
    assert_eq!(
        Request::new(b"GET / HTTP/1.1\nHost: x\r\n").err(),
        Some(ParseError::MalformedRequestLine)
    );
    assert_eq!(Request::new(b"GET /\r\n").err(), Some(ParseError::MalformedRequestLine));
    assert_eq!(Request::new(b"NOSPACES\r\n").err(), Some(ParseError::MalformedRequestLine));
}

#[test]
fn test_empty_headers_buffer() {
    let buff = b"GET / HTTP/1.1\r\n";
    let request = Request::new(buff).unwrap();
    assert_eq!(request.headers.len(), 0);
    assert_eq!(request.body, None);
}

#[test]
fn test_parse_idempotent() {
    let buff = b"POST /x HTTP/1.1\r\nHost: h\r\nA: b\r\n\r\npayload";
    let first = Request::new(buff).unwrap();
    let second = Request::new(buff).unwrap();
    assert_eq!(first.method, second.method);
    assert_eq!(first.path, second.path);
    assert_eq!(first.version, second.version);
    assert_eq!(first.headers, second.headers);
    assert_eq!(first.body, second.body);
    assert_eq!(first, second);
}

#[test]
fn test_header_value_lookup() {
    let buff = b"GET / HTTP/1.1\r\nHost: here\r\n\r\n";
    let request = Request::new(buff).unwrap();
    let v = request.header_value(buff, b"Host");
    assert_eq!(v.map(|s| sl(buff, s)), Some(b"here".as_slice()));
    assert_eq!(request.header_value(buff, b"Missing"), None);
}

#[test]
fn test_header_line_shapes() {
    let buff = b"GET / HTTP/1.1\r\nPadded:    wide\r\nA: B: C\r\nEmpty: \r\n\r\n";
    let request = Request::new(buff).unwrap();
    assert_eq!(get(buff, &request.headers, b"Padded"), Some(b"wide".as_slice()));
    assert_eq!(get(buff, &request.headers, b"A: B"), Some(b"C".as_slice()));
    assert_eq!(get(buff, &request.headers, b"A"), None);
    assert_eq!(get(buff, &request.headers, b"Empty"), Some(b"".as_slice()));
}

#[test]
fn test_body_keeps_later_separators() {
    let buff = b"POST / HTTP/1.1\r\n\r\nchunk\r\n\r\nmore";
    let request = Request::new(buff).unwrap();
    assert_eq!(request.body.map(|b| sl(buff, b)), Some(b"chunk\r\n\r\nmore".as_slice()));
}
