//! The server's route table of static files and the dispatch rules that pick
//! the response to a request.

use vstd::prelude::*;
use vstd::utf8::*;
use crate::bytes::text_eq;
use crate::message::{
    Request, RequestModel, Response, ResponseModel, request_of, response_bytes,
};
use crate::method::Method;
use crate::mime::{content_type_name, content_type_of, get_content_type};
use crate::route::{RouteKey, RouteTable};
use crate::string_map::StringMap;

verus! {

broadcast use vstd::seq::group_seq_axioms;

/// The routes of a server: what each (method, path) answers.
pub type Routes = Map<RouteKey, ResponseModel>;

/// The protocol version that this server answers with.
pub open spec fn http_version() -> Seq<char> {
    "HTTP/1.1"@
}

/// The page sent when nothing answers a request.
pub open spec fn not_found_page() -> Seq<char> {
    "<html>\r\n<body>\r\n\t<h1>404</h1>\r\n\t<p>Page Not Found</p>\r\n</body>\r\n</html>"@
}

/// The response sent when nothing answers a request.
pub open spec fn not_found_model() -> ResponseModel {
    ResponseModel {
        version: http_version(),
        status: "404 NOT FOUND"@,
        headers: seq![(content_type_name(), "text/html; charset=UTF-8"@)],
        body: encode_utf8(not_found_page()),
    }
}

/// The position of the last `.` in `name`, or -1.
pub open spec fn last_dot(name: Seq<char>) -> int
    decreases name.len(),
{
    if name.len() == 0 {
        -1
    } else if name.last() == '.' {
        name.len() - 1
    } else {
        last_dot(name.drop_last())
    }
}

/// The extension of the file name `name`: what follows its last `.`, unless
/// that dot starts the name; empty when there is none.
pub open spec fn extension(name: Seq<char>) -> Seq<char> {
    let d = last_dot(name);
    if d > 0 {
        name.subrange(d + 1, name.len() as int)
    } else {
        Seq::empty()
    }
}

/// The response that serves a file named `name` with bytes `content`.
pub open spec fn static_response(name: Seq<char>, content: Seq<u8>) -> ResponseModel {
    ResponseModel {
        version: http_version(),
        status: "200 OK"@,
        headers: seq![(content_type_name(), content_type_of(extension(name)))],
        body: content,
    }
}

/// `s` with every `\\` turned into `/`, so that a path reads the same
/// whatever separator the host uses.
pub open spec fn slashes(s: Seq<char>) -> Seq<char> {
    s.map_values(|c: char| if c == '\\' { '/' } else { c })
}

/// The segments of a relative path joined by `/`, each with its `\\`
/// separators turned into `/`.
pub open spec fn join_path(segs: Seq<Seq<char>>) -> Seq<char>
    decreases segs.len(),
{
    if segs.len() == 0 {
        Seq::empty()
    } else if segs.len() == 1 {
        slashes(segs[0])
    } else {
        join_path(segs.drop_last()) + "/"@ + slashes(segs.last())
    }
}

/// Where static files are mounted: `/` for an empty prefix, else `/<at>/`,
/// with the `\\` separators of `at` turned into `/`.
pub open spec fn mount_point(at: Seq<char>) -> Seq<char> {
    if at.len() == 0 {
        "/"@
    } else {
        "/"@ + slashes(at) + "/"@
    }
}

/// The path at which the file with relative path `segs` is served; every
/// `\\` in `at` and in the segments stands as `/` in it.
pub open spec fn file_route(at: Seq<char>, segs: Seq<Seq<char>>) -> Seq<char> {
    mount_point(at) + join_path(segs)
}

/// The path of the directory holding that file, with a trailing `/`; every
/// `\\` in `at` and in the segments stands as `/` in it.
pub open spec fn dir_route(at: Seq<char>, segs: Seq<Seq<char>>) -> Seq<char> {
    if segs.len() > 1 {
        mount_point(at) + join_path(segs.drop_last()) + "/"@
    } else {
        mount_point(at)
    }
}

/// Whether the directory of that file has a path without a trailing `/`
/// (only the root of an empty mount prefix has none).
pub open spec fn has_bare_dir(at: Seq<char>, segs: Seq<Seq<char>>) -> bool {
    segs.len() > 1 || at.len() > 0
}

/// The path of the directory holding that file, without a trailing `/`;
/// every `\\` in `at` and in the segments stands as `/` in it.
pub open spec fn bare_dir_route(at: Seq<char>, segs: Seq<Seq<char>>) -> Seq<char> {
    if segs.len() > 1 {
        mount_point(at) + join_path(segs.drop_last())
    } else {
        "/"@ + slashes(at)
    }
}

/// Whether a file of this name also answers for its directory.
pub open spec fn is_index(name: Seq<char>) -> bool {
    name == "index.html"@
}

/// `routes` after registering the file with relative path `segs` and bytes
/// `content` under the mount prefix `at`: a GET of its path answers the file;
/// an `index.html` also answers a GET of its directory, with and without the
/// trailing `/`.
pub open spec fn with_static_file(
    routes: Routes,
    at: Seq<char>,
    segs: Seq<Seq<char>>,
    content: Seq<u8>,
) -> Routes {
    let resp = static_response(segs.last(), content);
    let r1 = routes.insert((Method::GET, file_route(at, segs)), resp);
    if is_index(segs.last()) {
        let r2 = r1.insert((Method::GET, dir_route(at, segs)), resp);
        if has_bare_dir(at, segs) {
            r2.insert((Method::GET, bare_dir_route(at, segs)), resp)
        } else {
            r2
        }
    } else {
        r1
    }
}

/// The key that a request is routed by.
pub open spec fn request_key(r: RequestModel) -> RouteKey {
    (r.method, r.uri.path)
}

/// Views of a list of texts.
pub open spec fn texts(v: Seq<String>) -> Seq<Seq<char>> {
    v.map_values(|s: String| s@)
}

/// `s` holds no `\\`.
pub open spec fn no_backslash(s: Seq<char>) -> bool {
    forall|i: int| 0 <= i < s.len() ==> #[trigger] s[i] != '\\'
}

proof fn lemma_join_no_backslash(segs: Seq<Seq<char>>)
    ensures
        no_backslash(join_path(segs)),
    decreases segs.len(),
{
    reveal_strlit("/");
    if segs.len() > 1 {
        lemma_join_no_backslash(segs.drop_last());
    }
}

/// No path that registering a static file binds holds a `\\`.
pub proof fn law_static_paths_use_slashes(at: Seq<char>, segs: Seq<Seq<char>>)
    requires
        segs.len() > 0,
    ensures
        no_backslash(file_route(at, segs)),
        no_backslash(dir_route(at, segs)),
        no_backslash(bare_dir_route(at, segs)),
{
    reveal_strlit("/");
    lemma_join_no_backslash(segs);
    lemma_join_no_backslash(segs.drop_last());
}

/// Every registered static file is served: once a file is registered, a GET
/// of its path is bound to a `200 OK` response whose content type is the one
/// that its extension stands for and whose body is the file's bytes.
pub proof fn law_static_file_served(
    routes: Routes,
    at: Seq<char>,
    segs: Seq<Seq<char>>,
    content: Seq<u8>,
)
    requires
        segs.len() > 0,
    ensures
        ({
            let after = with_static_file(routes, at, segs, content);
            let k = (Method::GET, file_route(at, segs));
            &&& after.contains_key(k)
            &&& after[k].version == http_version()
            &&& after[k].status == "200 OK"@
            &&& after[k].headers == seq![(content_type_name(), content_type_of(extension(segs.last())))]
            &&& after[k].body == content
        }),
{
}

/// An `index.html` answers for its directory: after registering it, a GET of
/// the directory's path (with the trailing `/`, and without it unless that
/// leaves nothing) is bound to the same response as a GET of the file itself.
/// At the root of an empty mount prefix this makes `/` serve `/index.html`.
pub proof fn law_index_answers_directory(
    routes: Routes,
    at: Seq<char>,
    segs: Seq<Seq<char>>,
    content: Seq<u8>,
)
    requires
        segs.len() > 0,
        is_index(segs.last()),
    ensures
        ({
            let after = with_static_file(routes, at, segs, content);
            let file = after[(Method::GET, file_route(at, segs))];
            &&& after.contains_key((Method::GET, file_route(at, segs)))
            &&& after.contains_key((Method::GET, dir_route(at, segs)))
            &&& after[(Method::GET, dir_route(at, segs))] == file
            &&& has_bare_dir(at, segs) ==> after.contains_key(
                (Method::GET, bare_dir_route(at, segs)),
            ) && after[(Method::GET, bare_dir_route(at, segs))] == file
        }),
        at.len() == 0 && segs.len() == 1 ==> dir_route(at, segs) == "/"@ && file_route(at, segs)
            == "/"@ + "index.html"@,
{
    if at.len() == 0 && segs.len() == 1 {
        reveal_strlit("index.html");
        assert(slashes(segs[0]) =~= segs[0]);
    }
}

/// Of two bindings of the same (method, path), only the second stays in
/// effect.
pub proof fn law_last_write_wins(
    routes: Routes,
    method: Method,
    path: Seq<char>,
    first: ResponseModel,
    second: ResponseModel,
)
    ensures
        routes.insert((method, path), first).insert((method, path), second) == routes.insert(
            (method, path),
            second,
        ),
        routes.insert((method, path), first).insert((method, path), second)[(method, path)]
            == second,
{
    assert(routes.insert((method, path), first).insert((method, path), second) =~= routes.insert(
        (method, path),
        second,
    ));
}

/// The response sent when nothing answers a request.
pub fn not_found() -> (r: Response)
    ensures
        r@ == not_found_model(),
{
    let mut header = StringMap::new();
    header.insert("Content-Type".to_owned(), "text/html; charset=UTF-8".to_owned());
    let page = "<html>\r\n<body>\r\n\t<h1>404</h1>\r\n\t<p>Page Not Found</p>\r\n</body>\r\n</html>";
    let mut body: Vec<u8> = Vec::new();
    crate::bytes::push_text(&mut body, page);
    let r = Response {
        protocolo: "HTTP/1.1".to_owned(),
        status: "404 NOT FOUND".to_owned(),
        header,
        body,
    };
    assert(r@.headers =~= not_found_model().headers);
    assert(r@.body =~= not_found_model().body);
    r
}

/// The response sent when a request is too large to take.
pub open spec fn too_large_model() -> ResponseModel {
    ResponseModel {
        version: http_version(),
        status: "413 PAYLOAD TOO LARGE"@,
        headers: seq![(content_type_name(), "text/html; charset=UTF-8"@)],
        body: encode_utf8(
            "<html>\r\n<body>\r\n\t<h1>413</h1>\r\n\t<p>Payload Too Large</p>\r\n</body>\r\n</html>"@,
        ),
    }
}

/// The response sent when a request is too large to take.
pub fn too_large() -> (r: Response)
    ensures
        r@ == too_large_model(),
{
    let mut header = StringMap::new();
    header.insert("Content-Type".to_owned(), "text/html; charset=UTF-8".to_owned());
    let page = "<html>\r\n<body>\r\n\t<h1>413</h1>\r\n\t<p>Payload Too Large</p>\r\n</body>\r\n</html>";
    let mut body: Vec<u8> = Vec::new();
    crate::bytes::push_text(&mut body, page);
    let r = Response {
        protocolo: "HTTP/1.1".to_owned(),
        status: "413 PAYLOAD TOO LARGE".to_owned(),
        header,
        body,
    };
    assert(r@.headers =~= too_large_model().headers);
    assert(r@.body =~= too_large_model().body);
    r
}

/// The extension of the file name `name`.
fn file_extension(name: &str) -> (r: &str)
    ensures
        r@ == extension(name@),
{
    let n = name.unicode_len();
    let mut i: usize = n;
    assert(name@.subrange(0, n as int) =~= name@);
    while i > 0 && name.get_char(i - 1) != '.'
        invariant
            i <= n == name@.len(),
            last_dot(name@) == last_dot(name@.subrange(0, i as int)),
        decreases i,
    {
        assert(name@.subrange(0, i as int).drop_last() =~= name@.subrange(0, i - 1));
        i -= 1;
    }
    if i == 0 {
        assert(name@.subrange(0, 0).len() == 0);
        name.substring_char(0, 0)
    } else {
        assert(name@.subrange(0, i as int).last() == '.');
        if i == 1 {
            name.substring_char(0, 0)
        } else {
            name.substring_char(i, n)
        }
    }
}

/// `s` with every `\\` turned into `/`.
fn slashed(s: &str) -> (r: String)
    ensures
        r@ == slashes(s@),
{
    proof {
        reveal_strlit("/");
    }
    let n = s.unicode_len();
    let mut r = String::new();
    let mut i: usize = 0;
    while i < n
        invariant
            i <= n == s@.len(),
            "/"@ == seq!['/'],
            r@ == slashes(s@.subrange(0, i as int)),
        decreases n - i,
    {
        let c = s.get_char(i);
        if c == '\\' {
            r.append("/");
        } else {
            r.append(s.substring_char(i, i + 1));
        }
        assert(slashes(s@.subrange(0, i + 1)) =~= slashes(s@.subrange(0, i as int)).push(
            if c == '\\' {
                '/'
            } else {
                c
            },
        ));
        i += 1;
    }
    assert(s@.subrange(0, n as int) =~= s@);
    r
}

/// The first `k` segments joined by `/`, with their `\\` turned into `/`.
fn join_segments(segs: &Vec<String>, k: usize) -> (r: String)
    requires
        k <= segs@.len(),
    ensures
        r@ == join_path(texts(segs@).subrange(0, k as int)),
{
    let ghost t = texts(segs@);
    let mut r = String::new();
    let mut i: usize = 0;
    while i < k
        invariant
            i <= k <= segs@.len(),
            t == texts(segs@),
            r@ == join_path(t.subrange(0, i as int)),
        decreases k - i,
    {
        if i > 0 {
            r.append("/");
        }
        let seg = slashed(segs[i].as_str());
        r.append(seg.as_str());
        assert(t.subrange(0, i + 1).drop_last() =~= t.subrange(0, i as int));
        assert(t[i as int] == segs@[i as int]@);
        if i == 0 {
            assert(r@ =~= join_path(t.subrange(0, 1)));
        }
        i += 1;
    }
    r
}

/// Concatenation of texts.
fn cat(a: &str, b: &str) -> (r: String)
    ensures
        r@ == a@ + b@,
{
    let mut r = a.to_owned();
    r.append(b);
    r
}

/// A server: a table of routes answered with fixed responses.
pub struct HttpServer {
    contexts: RouteTable<Response>,
}

impl View for HttpServer {
    type V = Routes;

    closed spec fn view(&self) -> Routes {
        self.contexts@.map_values(|r: Response| r@)
    }
}

impl HttpServer {
    /// A server with no routes.
    pub fn new() -> (r: HttpServer)
        ensures
            r@ == Map::<RouteKey, ResponseModel>::empty(),
    {
        let r = HttpServer { contexts: RouteTable::new() };
        assert(r@ =~= Map::<RouteKey, ResponseModel>::empty());
        r
    }

    /// A copy of the server's routes.
    pub fn clone(&self) -> (r: HttpServer)
        ensures
            r@ == self@,
    {
        let r = HttpServer { contexts: self.contexts.clone() };
        assert(r@ =~= self@);
        r
    }

    /// Binds `(method, path)` to `response`; the last binding of a key wins.
    pub fn add_route(&mut self, method: Method, path: String, response: Response)
        ensures
            final(self)@ == old(self)@.insert((method, path@), response@),
    {
        self.contexts.insert(method, path, response);
        assert(self@ =~= old(self)@.insert((method, path@), response@));
    }

    /// The response bound to `(method, path)`, if any. Only the exact path
    /// matches.
    pub fn lookup(&self, method: Method, path: &str) -> (r: Option<&Response>)
        ensures
            match r {
                Some(v) => self@.contains_key((method, path@)) && v@ == self@[(method, path@)],
                None => !self@.contains_key((method, path@)),
            },
    {
        self.contexts.get(method, path)
    }

    /// Registers a file found under the static root: `segments` is its path
    /// relative to that root, one segment per directory level and the file
    /// name last, and `content` its bytes. The bytes are kept, not read again.
    pub fn add_static_file(&mut self, at: &str, segments: &Vec<String>, content: Vec<u8>)
        requires
            segments@.len() > 0,
        ensures
            final(self)@ == with_static_file(old(self)@, at@, texts(segments@), content@),
    {
        let ghost segs = texts(segments@);
        let k = segments.len() - 1;
        let name = segments[k].as_str();
        assert(segs.last() == name@);
        let (ct_name, ct_value) = get_content_type(file_extension(name));
        let mut header = StringMap::new();
        header.insert(ct_name, ct_value);
        let response = Response {
            protocolo: "HTTP/1.1".to_owned(),
            status: "200 OK".to_owned(),
            header,
            body: content,
        };
        assert(response@.headers =~= static_response(segs.last(), content@).headers);
        let at_slashed = slashed(at);
        let mount = if at.is_empty() {
            "/".to_owned()
        } else {
            let m = cat("/", at_slashed.as_str());
            cat(m.as_str(), "/")
        };
        let dirs = join_segments(segments, k);
        let all = join_segments(segments, k + 1);
        assert(segs.subrange(0, k + 1) =~= segs);
        assert(segs.subrange(0, k as int) =~= segs.drop_last());
        let file_path = cat(mount.as_str(), all.as_str());
        if text_eq(name, "index.html") {
            let dir_path = if k > 0 {
                let d = cat(mount.as_str(), dirs.as_str());
                cat(d.as_str(), "/")
            } else {
                mount.clone()
            };
            let bare = if k > 0 {
                Some(cat(mount.as_str(), dirs.as_str()))
            } else if !at.is_empty() {
                Some(cat("/", at_slashed.as_str()))
            } else {
                None
            };
            let r2 = response.clone();
            self.add_route(Method::GET, file_path, response);
            match bare {
                Some(b) => {
                    let r3 = r2.clone();
                    self.add_route(Method::GET, dir_path, r2);
                    self.add_route(Method::GET, b, r3);
                },
                None => {
                    self.add_route(Method::GET, dir_path, r2);
                },
            }
        } else {
            self.add_route(Method::GET, file_path, response);
        }
    }

    /// The response to `request`: the response bound to its method and exact
    /// path if there is one; else what the handler bound to that key returns;
    /// else the not-found page. A path bound only under another method gets
    /// the not-found page.
    pub fn dispatch<F: Fn(&Request) -> Response>(
        &self,
        request: &Request,
        handlers: &RouteTable<F>,
    ) -> (r: Response)
        requires
            handlers@.contains_key(request_key(request@)) ==> handlers@[request_key(
                request@,
            )].requires((request,)),
        ensures
            self@.contains_key(request_key(request@)) ==> r@ == self@[request_key(request@)],
            !self@.contains_key(request_key(request@)) && handlers@.contains_key(
                request_key(request@),
            ) ==> handlers@[request_key(request@)].ensures((request,), r),
            !self@.contains_key(request_key(request@)) && !handlers@.contains_key(
                request_key(request@),
            ) ==> r@ == not_found_model(),
    {
        let path = request.uri.path.as_str();
        match self.lookup(request.method, path) {
            Some(resp) => resp.clone(),
            None => match handlers.get(request.method, path) {
                Some(handler) => handler(request),
                None => not_found(),
            },
        }
    }

    /// The bytes to send back for the request bytes `raw`: the wire form of
    /// the dispatched response, or of the not-found page when `raw` holds no
    /// request.
    pub fn respond<F: Fn(&Request) -> Response>(&self, raw: &[u8], handlers: &RouteTable<F>) -> (r:
        Vec<u8>)
        requires
            forall|k: RouteKey, q: &Request|
                handlers@.contains_key(k) ==> #[trigger] handlers@[k].requires((q,)),
        ensures
            match request_of(raw@) {
                Err(_) => r@ == response_bytes(not_found_model()),
                Ok(m) => if self@.contains_key(request_key(m)) {
                    r@ == response_bytes(self@[request_key(m)])
                } else if handlers@.contains_key(request_key(m)) {
                    exists|q: Request, resp: Response|
                        q@ == m && handlers@[request_key(m)].ensures((&q,), resp) && r@
                            == response_bytes(resp@)
                } else {
                    r@ == response_bytes(not_found_model())
                },
            },
    {
        match Request::parse(raw) {
            Ok(request) => {
                let resp = self.dispatch(&request, handlers);
                resp.as_bytes()
            },
            Err(_) => not_found().as_bytes(),
        }
    }
}

} // verus!
