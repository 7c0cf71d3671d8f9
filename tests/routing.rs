use http_server::{
    HttpServer, Method, Request, Response, RouteTable, StringMap, get_content_type, not_found,
};

const NOT_FOUND_BODY: &str =
    "<html>\r\n<body>\r\n\t<h1>404</h1>\r\n\t<p>Page Not Found</p>\r\n</body>\r\n</html>";

type Handler = Box<dyn Fn(&Request) -> Response>;

fn segs(parts: &[&str]) -> Vec<String> {
    parts.iter().map(|p| p.to_string()).collect()
}

fn request(raw: &str) -> Request {
    Request::parse(raw.as_bytes()).unwrap()
}

fn no_handlers() -> RouteTable<Handler> {
    RouteTable::new()
}

fn text_response(status: &str, body: &str) -> Response {
    Response {
        protocolo: "HTTP/1.1".to_string(),
        status: status.to_string(),
        header: StringMap::new(),
        body: body.as_bytes().to_vec(),
    }
}

#[test]
fn static_file_is_served_with_type_and_bytes() {
    let mut server = HttpServer::new();
    let bytes = vec![137u8, 80, 78, 71, 0, 255];
    server.add_static_file("", &segs(&["img", "logo.png"]), bytes.clone());
    let resp = server.dispatch(&request("GET /img/logo.png HTTP/1.1\r\n\r\n"), &no_handlers());
    assert_eq!(resp.status, "200 OK");
    assert_eq!(resp.protocolo, "HTTP/1.1");
    assert_eq!(resp.header.get("Content-Type").unwrap(), "image/png");
    assert_eq!(resp.body, bytes);
}

#[test]
fn static_file_under_mount_prefix() {
    let mut server = HttpServer::new();
    server.add_static_file("static", &segs(&["app.js"]), b"let x = 1;".to_vec());
    let resp = server.dispatch(&request("GET /static/app.js HTTP/1.1\r\n\r\n"), &no_handlers());
    assert_eq!(resp.status, "200 OK");
    assert_eq!(resp.header.get("Content-Type").unwrap(), "text/javascript");
    assert_eq!(resp.body, b"let x = 1;".to_vec());
    let missing = server.dispatch(&request("GET /app.js HTTP/1.1\r\n\r\n"), &no_handlers());
    assert_eq!(missing.status, "404 NOT FOUND");
}

#[test]
fn static_file_without_extension_is_plain_text() {
    let mut server = HttpServer::new();
    server.add_static_file("", &segs(&["LICENSE"]), b"MIT".to_vec());
    server.add_static_file("", &segs(&[".hidden"]), b"h".to_vec());
    let a = server.lookup(Method::GET, "/LICENSE").unwrap();
    assert_eq!(a.header.get("Content-Type").unwrap(), "text/plain");
    let b = server.lookup(Method::GET, "/.hidden").unwrap();
    assert_eq!(b.header.get("Content-Type").unwrap(), "text/plain");
}

#[test]
fn root_index_answers_slash() {
    let mut server = HttpServer::new();
    server.add_static_file("", &segs(&["index.html"]), b"<h1>home</h1>".to_vec());
    let root = server.dispatch(&request("GET / HTTP/1.1\r\n\r\n"), &no_handlers());
    let direct = server.dispatch(&request("GET /index.html HTTP/1.1\r\n\r\n"), &no_handlers());
    assert_eq!(root.status, "200 OK");
    assert_eq!(root.body, direct.body);
    assert_eq!(root.body, b"<h1>home</h1>".to_vec());
    assert_eq!(root.header.get("Content-Type").unwrap(), "text/html; charset=UTF-8");
}

#[test]
fn nested_index_answers_directory_with_and_without_slash() {
    let mut server = HttpServer::new();
    server.add_static_file("", &segs(&["docs", "index.html"]), b"docs".to_vec());
    for path in ["/docs/index.html", "/docs", "/docs/"] {
        let resp = server.lookup(Method::GET, path).unwrap();
        assert_eq!(resp.body, b"docs".to_vec());
    }
    assert!(server.lookup(Method::GET, "/").is_none());
}

#[test]
fn mounted_index_answers_prefix() {
    let mut server = HttpServer::new();
    server.add_static_file("site", &segs(&["index.html"]), b"s".to_vec());
    for path in ["/site/index.html", "/site", "/site/"] {
        assert_eq!(server.lookup(Method::GET, path).unwrap().body, b"s".to_vec());
    }
}

#[test]
fn unmatched_path_gets_not_found() {
    let server = HttpServer::new();
    let resp = server.dispatch(&request("GET /nothing HTTP/1.1\r\n\r\n"), &no_handlers());
    assert_eq!(resp.status, "404 NOT FOUND");
    assert_eq!(resp.protocolo, "HTTP/1.1");
    assert_eq!(resp.header.get("Content-Type").unwrap(), "text/html; charset=UTF-8");
    assert_eq!(resp.body, NOT_FOUND_BODY.as_bytes().to_vec());
}

#[test]
fn other_method_gets_not_found() {
    let mut server = HttpServer::new();
    server.add_static_file("", &segs(&["a.txt"]), b"a".to_vec());
    let resp = server.dispatch(&request("POST /a.txt HTTP/1.1\r\n\r\n"), &no_handlers());
    assert_eq!(resp.status, "404 NOT FOUND");
}

#[test]
fn not_found_page_bytes() {
    let expected = format!(
        "HTTP/1.1 404 NOT FOUND\r\nContent-Type: text/html; charset=UTF-8\r\n\r\n{}",
        NOT_FOUND_BODY
    );
    assert_eq!(not_found().as_bytes(), expected.into_bytes());
}

#[test]
fn second_route_for_same_key_wins() {
    let mut server = HttpServer::new();
    server.add_route(Method::GET, "/x".to_string(), text_response("200 OK", "first"));
    server.add_route(Method::GET, "/x".to_string(), text_response("201 Created", "second"));
    let resp = server.dispatch(&request("GET /x HTTP/1.1\r\n\r\n"), &no_handlers());
    assert_eq!(resp.status, "201 Created");
    assert_eq!(resp.body, b"second".to_vec());
}

#[test]
fn second_handler_for_same_key_wins() {
    let server = HttpServer::new();
    let mut handlers: RouteTable<Handler> = RouteTable::new();
    handlers.insert(Method::POST, "/h".to_string(), Box::new(|_r: &Request| text_response("200 OK", "one")));
    handlers.insert(Method::POST, "/h".to_string(), Box::new(|_r: &Request| text_response("200 OK", "two")));
    let resp = server.dispatch(&request("POST /h HTTP/1.1\r\n\r\n"), &handlers);
    assert_eq!(resp.body, b"two".to_vec());
}

#[test]
fn handler_answers_when_no_static_route() {
    let mut server = HttpServer::new();
    server.add_route(Method::GET, "/both".to_string(), text_response("200 OK", "static"));
    let mut handlers: RouteTable<Handler> = RouteTable::new();
    handlers.insert(
        Method::GET,
        "/echo".to_string(),
        Box::new(|r: &Request| text_response("200 OK", &r.uri.path)),
    );
    handlers.insert(Method::GET, "/both".to_string(), Box::new(|_r: &Request| text_response("200 OK", "dynamic")));
    let echo = server.dispatch(&request("GET /echo?x=1 HTTP/1.1\r\n\r\n"), &handlers);
    assert_eq!(echo.body, b"/echo".to_vec());
    let both = server.dispatch(&request("GET /both HTTP/1.1\r\n\r\n"), &handlers);
    assert_eq!(both.body, b"static".to_vec());
    let none = server.dispatch(&request("DELETE /echo HTTP/1.1\r\n\r\n"), &handlers);
    assert_eq!(none.status, "404 NOT FOUND");
}

#[test]
fn respond_writes_dispatched_response() {
    let mut server = HttpServer::new();
    server.add_static_file("", &segs(&["a.css"]), b"body{}".to_vec());
    let out = server.respond(b"GET /a.css HTTP/1.1\r\nHost: h\r\n\r\n", &no_handlers());
    assert_eq!(out, b"HTTP/1.1 200 OK\r\nContent-Type: text/css\r\n\r\nbody{}".to_vec());
}

#[test]
fn respond_to_malformed_request_is_not_found() {
    let server = HttpServer::new();
    assert_eq!(server.respond(b"garbage", &no_handlers()), not_found().as_bytes());
    assert_eq!(server.respond(b"BREW / HTTP/1.1\r\n\r\n", &no_handlers()), not_found().as_bytes());
}

#[test]
fn clone_keeps_routes() {
    let mut server = HttpServer::new();
    server.add_static_file("", &segs(&["a.json"]), b"{}".to_vec());
    let copy = server.clone();
    let resp = copy.lookup(Method::GET, "/a.json").unwrap();
    assert_eq!(resp.header.get("Content-Type").unwrap(), "application/json");
    assert_eq!(resp.body, b"{}".to_vec());
}

#[test]
fn content_types_follow_the_table() {
    let table = [
        ("html", "text/html; charset=UTF-8"),
        ("css", "text/css"),
        ("js", "text/javascript"),
        ("png", "image/png"),
        ("jpg", "image/jpeg"),
        ("jpeg", "image/jpeg"),
        ("gif", "image/gif"),
        ("ico", "image/x-icon"),
        ("svg", "image/svg+xml"),
        ("mid", "audio/midi"),
        ("mp3", "audio/mpeg"),
        ("wav", "audio/wav"),
        ("mp4", "video/mp4"),
        ("json", "application/json"),
        ("txt", "text/plain"),
        ("", "text/plain"),
    ];
    for (ext, mime) in table {
        let (name, value) = get_content_type(ext);
        assert_eq!(name, "Content-Type");
        assert_eq!(value, mime);
    }
}

#[test]
fn content_type_ignores_case() {
    assert_eq!(get_content_type("PNG").1, "image/png");
    assert_eq!(get_content_type("Html").1, "text/html; charset=UTF-8");
    assert_eq!(get_content_type("JpEg").1, "image/jpeg");
}

#[test]
fn backslashes_become_slashes_in_static_paths() {
    let mut server = HttpServer::new();
    server.add_static_file("a\\b", &segs(&["c\\d", "f.txt"]), b"f".to_vec());
    assert_eq!(server.lookup(Method::GET, "/a/b/c/d/f.txt").unwrap().body, b"f".to_vec());
    assert!(server.lookup(Method::GET, "/a\\b/c\\d/f.txt").is_none());
    server.add_static_file("x\\y", &segs(&["index.html"]), b"i".to_vec());
    for path in ["/x/y/index.html", "/x/y/", "/x/y"] {
        assert_eq!(server.lookup(Method::GET, path).unwrap().body, b"i".to_vec());
    }
}
