use http_server::{Method, ParseError, Request, Response, StringMap, Uri};

fn text(s: &str) -> String {
    s.to_string()
}

#[test]
fn request_line_round_trips() {
    let raw = b"GET /index.html HTTP/1.1\r\nHost: localhost\r\n\r\n";
    let req = Request::parse(raw).unwrap();
    assert_eq!(req.method, Method::GET);
    assert_eq!(req.uri.path, "/index.html");
    assert!(req.uri.query.is_none());
    assert_eq!(req.protocolo, "HTTP/1.1");
    let out = req.as_bytes();
    assert!(out.starts_with(b"GET /index.html HTTP/1.1\r\n"));
}

#[test]
fn request_line_round_trips_for_each_method() {
    let names = [
        ("GET", Method::GET),
        ("POST", Method::POST),
        ("PUT", Method::PUT),
        ("DELETE", Method::DELETE),
        ("HEAD", Method::HEAD),
        ("CONNECT", Method::CONNECT),
        ("OPTIONS", Method::OPTIONS),
        ("TRACE", Method::TRACE),
        ("PATCH", Method::PATCH),
    ];
    for (name, m) in names {
        let line = format!("{} /a/b HTTP/1.0", name);
        let raw = format!("{}\r\n\r\n", line);
        let req = Request::parse(raw.as_bytes()).unwrap();
        assert_eq!(req.method, m);
        assert_eq!(req.uri.path, "/a/b");
        assert_eq!(req.protocolo, "HTTP/1.0");
        assert!(req.as_bytes().starts_with(format!("{}\r\n", line).as_bytes()));
        assert_eq!(m.to_string(), name);
    }
}

#[test]
fn request_with_query_keeps_method_path_and_version() {
    let req = Request::parse(b"POST /search?q=rust HTTP/1.1\r\n\r\n").unwrap();
    assert_eq!(req.method, Method::POST);
    assert_eq!(req.uri.path, "/search");
    assert_eq!(req.protocolo, "HTTP/1.1");
    assert_eq!(req.as_bytes(), b"POST /search?q=rust HTTP/1.1\r\n\r\n".to_vec());
}

#[test]
fn request_headers_and_body() {
    let raw = b"POST /form HTTP/1.1\r\nHost: example.org\r\nContent-Length: 5\r\nno colon here\r\nX-Time: 12: 30\r\n\r\nhello";
    let req = Request::parse(raw).unwrap();
    assert_eq!(req.header.len(), 3);
    assert_eq!(req.header.get("Host").unwrap(), "example.org");
    assert_eq!(req.header.get("Content-Length").unwrap(), "5");
    assert_eq!(req.header.get("X-Time").unwrap(), "12: 30");
    assert!(req.header.get("host").is_none());
    assert_eq!(req.body, Some(b"hello".to_vec()));
}

#[test]
fn request_duplicate_header_last_wins() {
    let raw = b"GET / HTTP/1.1\r\nA: 1\r\nA: 2\r\n\r\n";
    let req = Request::parse(raw).unwrap();
    assert_eq!(req.header.len(), 1);
    assert_eq!(req.header.get("A").unwrap(), "2");
}

#[test]
fn request_without_blank_line_has_no_body() {
    let req = Request::parse(b"GET / HTTP/1.1\r\nHost: a").unwrap();
    assert_eq!(req.header.get("Host").unwrap(), "a");
    assert!(req.body.is_none());
    let bare = Request::parse(b"GET / HTTP/1.1\r\n").unwrap();
    assert_eq!(bare.header.len(), 0);
    assert!(bare.body.is_none());
}

#[test]
fn request_without_line_terminator_is_malformed() {
    assert!(matches!(Request::parse(b"GET / HTTP/1.1"), Err(ParseError::MalformedStatusLine)));
}

#[test]
fn written_request_with_query_parses_back() {
    let req = Request::parse(b"PUT /items?id=7&sort=asc HTTP/1.0\r\nA: b\r\n\r\nxyz").unwrap();
    let again = Request::parse(&req.as_bytes()).unwrap();
    assert_eq!(again.method, Method::PUT);
    assert_eq!(again.uri.path, "/items");
    assert_eq!(again.protocolo, "HTTP/1.0");
    let q = again.uri.query.unwrap();
    assert_eq!(q.get("id").unwrap(), "7");
    assert_eq!(q.get("sort").unwrap(), "asc");
    assert_eq!(again.body, Some(b"xyz".to_vec()));
}

#[test]
fn request_body_is_binary_safe() {
    let mut raw = b"PUT /blob HTTP/1.1\r\n\r\n".to_vec();
    raw.extend_from_slice(&[0u8, 255, 128, 13, 10]);
    let req = Request::parse(&raw).unwrap();
    assert_eq!(req.body, Some(vec![0u8, 255, 128, 13, 10]));
}

#[test]
fn request_with_too_few_tokens_is_malformed() {
    assert!(matches!(Request::parse(b"GET /\r\n\r\n"), Err(ParseError::MalformedStatusLine)));
    assert!(matches!(Request::parse(b""), Err(ParseError::MalformedStatusLine)));
    assert!(matches!(Request::parse(b"GET\r\n"), Err(ParseError::MalformedStatusLine)));
}

#[test]
fn request_with_unknown_method_fails() {
    assert!(matches!(Request::parse(b"FETCH / HTTP/1.1\r\n\r\n"), Err(ParseError::UnknownMethod)));
    assert!(matches!(Request::parse(b"get / HTTP/1.1\r\n\r\n"), Err(ParseError::UnknownMethod)));
}

#[test]
fn request_with_non_text_target_is_malformed() {
    assert!(matches!(
        Request::parse(b"GET /\xff HTTP/1.1\r\n\r\n"),
        Err(ParseError::MalformedRequest)
    ));
}

#[test]
fn request_extra_tokens_are_ignored() {
    let req = Request::parse(b"GET / HTTP/1.1 extra\r\n\r\n").unwrap();
    assert_eq!(req.protocolo, "HTTP/1.1");
}

#[test]
fn method_parse_and_names() {
    assert!(matches!(Method::parse("DELETE"), Ok(Method::DELETE)));
    assert!(matches!(Method::parse("PATCH"), Ok(Method::PATCH)));
    assert!(matches!(Method::parse("Patch"), Err(ParseError::UnknownMethod)));
    assert_eq!(Method::OPTIONS.name(), b"OPTIONS".to_vec());
}

#[test]
fn query_string_parses_to_path_and_map() {
    let uri = Uri::parse("/search?q=rust&lang=en");
    assert_eq!(uri.path, "/search");
    let q = uri.query.unwrap();
    assert_eq!(q.len(), 2);
    assert_eq!(q.get("q").unwrap(), "rust");
    assert_eq!(q.get("lang").unwrap(), "en");
}

#[test]
fn query_key_without_equals_binds_empty_value() {
    let uri = Uri::parse("/search?flag");
    assert_eq!(uri.path, "/search");
    let q = uri.query.unwrap();
    assert_eq!(q.len(), 1);
    assert_eq!(q.get("flag").unwrap(), "");
}

#[test]
fn query_duplicate_key_last_wins_and_value_truncates_at_equals() {
    let uri = Uri::parse("/p?a=1&b=x=y&a=3");
    let q = uri.query.unwrap();
    assert_eq!(q.len(), 2);
    assert_eq!(q.get("a").unwrap(), "3");
    assert_eq!(q.get("b").unwrap(), "x");
}

#[test]
fn uri_without_query() {
    let uri = Uri::parse("/plain/path");
    assert_eq!(uri.path, "/plain/path");
    assert!(uri.query.is_none());
    assert_eq!(uri.as_bytes(), b"/plain/path".to_vec());
    let empty = Uri::parse("/p?");
    assert_eq!(empty.path, "/p");
    assert_eq!(empty.query.unwrap().get("").unwrap(), "");
}

#[test]
fn uri_writes_query_back() {
    let uri = Uri::parse("/s?x=1&y=2");
    assert_eq!(uri.as_bytes(), b"/s?x=1&y=2".to_vec());
    let copy = uri.clone();
    assert_eq!(copy.as_bytes(), b"/s?x=1&y=2".to_vec());
}

#[test]
fn request_target_query_is_parsed() {
    let req = Request::parse(b"GET /search?q=rust&lang=en HTTP/1.1\r\n\r\n").unwrap();
    assert_eq!(req.uri.path, "/search");
    let q = req.uri.query.unwrap();
    assert_eq!(q.get("q").unwrap(), "rust");
    assert_eq!(q.get("lang").unwrap(), "en");
}

#[test]
fn response_serializes_exactly() {
    let mut header = StringMap::new();
    header.insert(text("Content-Type"), text("text/plain"));
    header.insert(text("X-A"), text("b"));
    let resp = Response {
        protocolo: text("HTTP/1.1"),
        status: text("200 OK"),
        header,
        body: vec![0u8, 159, 146, 150],
    };
    let mut expected = b"HTTP/1.1 200 OK\r\nContent-Type: text/plain\r\nX-A: b\r\n\r\n".to_vec();
    expected.extend_from_slice(&[0u8, 159, 146, 150]);
    assert_eq!(resp.as_bytes(), expected);
    assert_eq!(resp.clone().as_bytes(), expected);
}

#[test]
fn string_map_insert_replaces() {
    let mut m = StringMap::new();
    m.insert(text("k"), text("1"));
    m.insert(text("j"), text("2"));
    m.insert(text("k"), text("3"));
    assert_eq!(m.len(), 2);
    assert_eq!(m.get("k").unwrap(), "3");
    assert_eq!(m.get("j").unwrap(), "2");
    assert!(m.get("z").is_none());
    assert_eq!(m.get_ignoring_case("K").unwrap(), "3");
    assert!(m.get_ignoring_case("Z").is_none());
    let mut out = Vec::new();
    m.push_header_lines(&mut out);
    assert_eq!(out, b"k: 3\r\nj: 2\r\n".to_vec());
}
