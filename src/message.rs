//! Requests and responses, and their wire forms.

use vstd::prelude::*;
use vstd::utf8::*;
use crate::bytes::{
    AMPERSAND, CR, EQUALS, LF, QUESTION, SP, colon_sp, crlf, crlf2, find, find_bytes, find_from, is_utf8, lacks,
    lemma_ascii_valid, lemma_find_byte, lemma_find_crlf, lemma_find_from_bounds, lemma_piece_valid,
    push_all, push_text, text_of,
};
use crate::method::{Method, ParseError, lemma_method_name, method_name, method_of};
use crate::string_map::{Entries, StringMap, header_block, insert_entry, query_text};
use crate::uri::{Uri, UriModel, uri_bytes, uri_of};

verus! {

broadcast use vstd::seq::group_seq_axioms;

/// The abstract value of a [`Request`].
pub struct RequestModel {
    pub method: Method,
    pub uri: UriModel,
    pub version: Seq<char>,
    pub headers: Entries,
    pub body: Option<Seq<u8>>,
}

/// The abstract value of a [`Response`].
pub struct ResponseModel {
    pub version: Seq<char>,
    pub status: Seq<char>,
    pub headers: Entries,
    pub body: Seq<u8>,
}

/// `acc` with the header line `line` added: the name is the text before the
/// first `": "`, the value all text after it. A line without `": "`, or one
/// that is not UTF-8 text, adds nothing.
pub open spec fn header_entry(acc: Entries, line: Seq<u8>) -> Entries {
    let c = find(line, colon_sp());
    if valid_utf8(line) && c >= 0 {
        insert_entry(
            acc,
            decode_utf8(line.subrange(0, c)),
            decode_utf8(line.subrange(c + 2, line.len() as int)),
        )
    } else {
        acc
    }
}

/// `acc` with every CR LF-separated line of `b` added in order, so that the
/// last of two equal names wins.
pub open spec fn header_entries(b: Seq<u8>, acc: Entries) -> Entries
    decreases b.len(),
{
    let i = find(b, crlf());
    if 0 <= i && i + 2 <= b.len() {
        header_entries(b.subrange(i + 2, b.len() as int), header_entry(acc, b.subrange(0, i)))
    } else {
        header_entry(acc, b)
    }
}

/// The request line of `b`: everything before the first CR LF (meaningful
/// when there is one).
pub open spec fn request_line(b: Seq<u8>) -> Seq<u8> {
    b.subrange(0, find(b, crlf()))
}

/// The header block of `b`: the bytes between the end of the request line and
/// the first blank line (or the end of `b`).
pub open spec fn header_bytes(b: Seq<u8>) -> Seq<u8> {
    let e = find(b, crlf());
    let d = find(b, crlf2());
    let head_end = if d < 0 {
        b.len() as int
    } else {
        d
    };
    if 0 <= e && e + 2 <= head_end {
        b.subrange(e + 2, head_end)
    } else {
        Seq::empty()
    }
}

/// The body of `b`: everything after the first blank line, if there is one.
pub open spec fn body_bytes(b: Seq<u8>) -> Option<Seq<u8>> {
    let d = find(b, crlf2());
    if d < 0 {
        None
    } else {
        Some(b.subrange(d + 4, b.len() as int))
    }
}

/// The request that the bytes `b` hold, or why they hold none.
///
/// The request line must end in CR LF. It is split at single spaces: the
/// first token is the method, the second the target, the third the version;
/// further tokens are ignored.
pub open spec fn request_of(b: Seq<u8>) -> Result<RequestModel, ParseError> {
    let line = request_line(b);
    let s1 = find(line, seq![SP]);
    let s2 = find_from(line, seq![SP], s1 + 1);
    if find(b, crlf()) < 0 || s1 < 0 || s2 < 0 {
        Err(ParseError::MalformedStatusLine)
    } else {
        let s3 = find_from(line, seq![SP], s2 + 1);
        let target = line.subrange(s1 + 1, s2);
        let version = line.subrange(
            s2 + 1,
            if s3 < 0 {
                line.len() as int
            } else {
                s3
            },
        );
        match method_of(line.subrange(0, s1)) {
            None => Err(ParseError::UnknownMethod),
            Some(m) => if !valid_utf8(target) || !valid_utf8(version) {
                Err(ParseError::MalformedRequest)
            } else {
                Ok(
                    RequestModel {
                        method: m,
                        uri: uri_of(target),
                        version: decode_utf8(version),
                        headers: header_entries(header_bytes(b), Seq::empty()),
                        body: body_bytes(b),
                    },
                )
            },
        }
    }
}

/// The request line of `r` on the wire, without its CR LF.
pub open spec fn request_line_bytes(r: RequestModel) -> Seq<u8> {
    method_name(r.method) + seq![SP] + uri_bytes(r.uri) + seq![SP] + encode_utf8(r.version)
}

/// The wire form of `r`.
pub open spec fn request_bytes(r: RequestModel) -> Seq<u8> {
    request_line_bytes(r) + crlf() + header_block(r.headers) + crlf() + match r.body {
        Some(b) => b,
        None => Seq::empty(),
    }
}

/// The wire form of `r`: status line, header lines, a blank line, then the
/// body bytes as they are.
pub open spec fn response_bytes(r: ResponseModel) -> Seq<u8> {
    encode_utf8(r.version) + seq![SP] + encode_utf8(r.status) + crlf() + header_block(r.headers)
        + crlf() + r.body
}

/// A request target made of `path` and, if present, the query text `query`.
pub open spec fn target_bytes(path: Seq<u8>, query: Option<Seq<u8>>) -> Seq<u8> {
    match query {
        None => path,
        Some(q) => path + seq![QUESTION] + q,
    }
}

/// A request whose request line is `<method> <target> <version>`, followed by
/// CR LF and then `rest`.
pub open spec fn request_text(m: Method, target: Seq<u8>, version: Seq<u8>, rest: Seq<u8>) -> Seq<
    u8,
> {
    method_name(m) + seq![SP] + target + seq![SP] + version + crlf() + rest
}

/// A request line of three tokens, followed by CR LF, parses to those
/// tokens.
proof fn lemma_request_text(m: Method, target: Seq<u8>, version: Seq<u8>, rest: Seq<u8>)
    requires
        valid_utf8(target),
        valid_utf8(version),
        lacks(target, SP),
        lacks(target, CR),
        lacks(version, SP),
        lacks(version, CR),
    ensures
        request_of(request_text(m, target, version, rest)) is Ok,
        request_of(request_text(m, target, version, rest))->Ok_0.method == m,
        request_of(request_text(m, target, version, rest))->Ok_0.uri == uri_of(target),
        request_of(request_text(m, target, version, rest))->Ok_0.version == decode_utf8(version),
{
    let name = method_name(m);
    let line = name + seq![SP] + target + seq![SP] + version;
    let b = request_text(m, target, version, rest);
    lemma_method_name(m);
    assert(b =~= line + crlf() + rest);
    let n1 = name.len() as int;
    let n2 = n1 + 1 + target.len();
    assert forall|j: int| 0 <= j < line.len() implies #[trigger] b[j] != CR by {
        assert(b[j] == line[j]);
        if j < n1 {
            assert(line[j] == name[j]);
            assert(name[j] < 128);
        } else if n1 < j < n2 {
            assert(line[j] == target[j - n1 - 1]);
        } else if j > n2 {
            assert(line[j] == version[j - n2 - 1]);
        }
    }
    lemma_find_crlf(b, 0, line.len() as int);
    assert(request_line(b) =~= line);
    assert forall|j: int| 0 <= j < n1 implies #[trigger] line[j] != SP by {
        assert(line[j] == name[j]);
    }
    lemma_find_byte(line, SP, 0, n1);
    assert forall|j: int| n1 + 1 <= j < n2 implies #[trigger] line[j] != SP by {
        assert(line[j] == target[j - n1 - 1]);
    }
    lemma_find_byte(line, SP, n1 + 1, n2);
    assert forall|j: int| n2 + 1 <= j < line.len() implies #[trigger] line[j] != SP by {
        assert(line[j] == version[j - n2 - 1]);
    }
    lemma_find_byte(line, SP, n2 + 1, line.len() as int);
    assert(line.subrange(0, n1) =~= name);
    assert(line.subrange(n1 + 1, n2) =~= target);
    assert(line.subrange(n2 + 1, line.len() as int) =~= version);
}

/// A target made of a path and an optional query is text holding no space
/// and no CR, and its path is the given one.
proof fn lemma_target(path: Seq<u8>, query: Option<Seq<u8>>)
    requires
        valid_utf8(path),
        lacks(path, SP),
        lacks(path, CR),
        lacks(path, QUESTION),
        query matches Some(q) ==> valid_utf8(q) && lacks(q, SP) && lacks(q, CR),
    ensures
        valid_utf8(target_bytes(path, query)),
        lacks(target_bytes(path, query), SP),
        lacks(target_bytes(path, query), CR),
        uri_of(target_bytes(path, query)).path == decode_utf8(path),
        uri_of(target_bytes(path, query)).query is None <==> query is None,
{
    let target = target_bytes(path, query);
    match query {
        None => {
            lemma_find_byte(target, QUESTION, 0, target.len() as int);
        },
        Some(q) => {
            assert forall|i: int| 0 <= i < target.len() implies #[trigger] target[i] != SP
                && target[i] != CR by {
                if i < path.len() {
                    assert(target[i] == path[i]);
                } else if i > path.len() {
                    assert(target[i] == q[i - path.len() - 1]);
                }
            }
            lemma_ascii_valid(seq![QUESTION]);
            valid_utf8_concat(path, seq![QUESTION]);
            valid_utf8_concat(path + seq![QUESTION], q);
            assert forall|j: int| 0 <= j < path.len() implies #[trigger] target[j] != QUESTION by {
                assert(target[j] == path[j]);
            }
            lemma_find_byte(target, QUESTION, 0, path.len() as int);
            assert(target.subrange(0, path.len() as int) =~= path);
        },
    }
}

/// Parsing a request line and writing the request out again keeps its
/// method, path and version exactly: for a path and version that are UTF-8
/// text holding no space and no CR (and a path holding no `?`), and an
/// optional query of the same kind, the request parses; its method, path and
/// version are the ones written; and its request line, written out again,
/// is the one it was read from when there is no query, and otherwise starts
/// with the same method, path and `?` and ends with the same version.
pub proof fn law_request_line_round_trip(
    m: Method,
    path: Seq<u8>,
    query: Option<Seq<u8>>,
    version: Seq<u8>,
    rest: Seq<u8>,
)
    requires
        valid_utf8(path),
        valid_utf8(version),
        lacks(path, SP),
        lacks(path, CR),
        lacks(path, QUESTION),
        lacks(version, SP),
        lacks(version, CR),
        query matches Some(q) ==> valid_utf8(q) && lacks(q, SP) && lacks(q, CR),
    ensures
        request_of(request_text(m, target_bytes(path, query), version, rest)) is Ok,
        ({
            let r = request_of(request_text(m, target_bytes(path, query), version, rest))->Ok_0;
            &&& r.method == m
            &&& r.uri == uri_of(target_bytes(path, query))
            &&& encode_utf8(r.uri.path) == path
            &&& encode_utf8(r.version) == version
            &&& query is None ==> request_line_bytes(r) == method_name(m) + seq![SP] + path
                + seq![SP] + version
            &&& query is Some ==> exists|q2: Seq<u8>|
                request_line_bytes(r) == method_name(m) + seq![SP] + path + seq![QUESTION] + q2
                    + seq![SP] + version
        }),
{
    let target = target_bytes(path, query);
    lemma_target(path, query);
    lemma_request_text(m, target, version, rest);
    decode_utf8_encode_utf8(path);
    decode_utf8_encode_utf8(version);
    let r = request_of(request_text(m, target, version, rest))->Ok_0;
    match r.uri.query {
        None => {
            assert(request_line_bytes(r) =~= method_name(m) + seq![SP] + path + seq![SP] + version);
        },
        Some(q) => {
            let q2 = query_text(q);
            assert(request_line_bytes(r) =~= method_name(m) + seq![SP] + path + seq![QUESTION] + q2
                + seq![SP] + version);
        },
    }
}

/// The query text of a map is UTF-8 text.
proof fn lemma_query_text_valid(q: Entries)
    ensures
        valid_utf8(query_text(q)),
    decreases q.len(),
{
    lemma_ascii_valid(seq![EQUALS]);
    lemma_ascii_valid(seq![AMPERSAND]);
    if q.len() == 0 {
        lemma_ascii_valid(query_text(q));
    } else {
        let k = encode_utf8(q.last().0);
        let v = encode_utf8(q.last().1);
        encode_utf8_valid_utf8(q.last().0);
        encode_utf8_valid_utf8(q.last().1);
        valid_utf8_concat(k, seq![EQUALS]);
        valid_utf8_concat(k + seq![EQUALS], v);
        if q.len() > 1 {
            lemma_query_text_valid(q.drop_last());
            valid_utf8_concat(query_text(q.drop_last()), seq![AMPERSAND]);
            valid_utf8_concat(query_text(q.drop_last()) + seq![AMPERSAND], k);
            valid_utf8_concat(query_text(q.drop_last()) + seq![AMPERSAND] + k, seq![EQUALS]);
            valid_utf8_concat(query_text(q.drop_last()) + seq![AMPERSAND] + k + seq![EQUALS], v);
        } else {
            assert(q[0] == q.last());
        }
    }
}

/// A request written out parses back to the same method, path and version,
/// with a query or without one, as long as its written path holds no space,
/// CR or `?`, its written version no space or CR, and its written query no
/// space or CR.
pub proof fn law_written_request_parses_back(r: RequestModel)
    requires
        lacks(encode_utf8(r.uri.path), SP),
        lacks(encode_utf8(r.uri.path), CR),
        lacks(encode_utf8(r.uri.path), QUESTION),
        lacks(encode_utf8(r.version), SP),
        lacks(encode_utf8(r.version), CR),
        r.uri.query matches Some(q) ==> lacks(query_text(q), SP) && lacks(query_text(q), CR),
    ensures
        request_of(request_bytes(r)) is Ok,
        request_of(request_bytes(r))->Ok_0.method == r.method,
        request_of(request_bytes(r))->Ok_0.uri.path == r.uri.path,
        request_of(request_bytes(r))->Ok_0.version == r.version,
{
    let path = encode_utf8(r.uri.path);
    let version = encode_utf8(r.version);
    let query = match r.uri.query {
        Some(q) => Some(query_text(q)),
        None => None,
    };
    if let Some(q) = r.uri.query {
        lemma_query_text_valid(q);
    }
    encode_utf8_valid_utf8(r.uri.path);
    encode_utf8_valid_utf8(r.version);
    let rest = header_block(r.headers) + crlf() + match r.body {
        Some(b) => b,
        None => Seq::empty(),
    };
    assert(request_text(r.method, target_bytes(path, query), version, rest) =~= request_bytes(r));
    law_request_line_round_trip(r.method, path, query, version, rest);
    let p = request_of(request_bytes(r))->Ok_0;
    encode_utf8_decode_utf8(p.uri.path);
    encode_utf8_decode_utf8(r.uri.path);
    encode_utf8_decode_utf8(p.version);
    encode_utf8_decode_utf8(r.version);
}

/// A parsed request.
pub struct Request {
    pub method: Method,
    pub uri: Uri,
    pub protocolo: String,
    pub header: StringMap,
    pub body: Option<Vec<u8>>,
}

impl View for Request {
    type V = RequestModel;

    open spec fn view(&self) -> RequestModel {
        RequestModel {
            method: self.method,
            uri: self.uri@,
            version: self.protocolo@,
            headers: self.header@,
            body: match self.body {
                Some(b) => Some(b@),
                None => None,
            },
        }
    }
}

/// A response.
pub struct Response {
    pub protocolo: String,
    pub status: String,
    pub header: StringMap,
    pub body: Vec<u8>,
}

impl View for Response {
    type V = ResponseModel;

    open spec fn view(&self) -> ResponseModel {
        ResponseModel {
            version: self.protocolo@,
            status: self.status@,
            headers: self.header@,
            body: self.body@,
        }
    }
}

/// A copy of `b[lo..hi]`.
fn copy_range(b: &[u8], lo: usize, hi: usize) -> (r: Vec<u8>)
    requires
        lo <= hi <= b@.len(),
    ensures
        r@ == b@.subrange(lo as int, hi as int),
{
    let mut r: Vec<u8> = Vec::new();
    push_all(&mut r, &b[lo..hi]);
    r
}

/// Reads the header block `b` into a map.
fn parse_headers(b: &[u8]) -> (r: StringMap)
    ensures
        r@ == header_entries(b@, Seq::empty()),
{
    let mut m = StringMap::new();
    let nl = vec![CR, LF];
    assert(nl@ =~= crlf());
    let sep = vec![':' as u8, SP];
    assert(sep@ =~= colon_sp());
    let n = b.len();
    let mut pos: usize = 0;
    assert(b@.subrange(0, n as int) =~= b@);
    loop
        invariant
            pos <= n == b@.len(),
            nl@ == crlf(),
            sep@ == colon_sp(),
            header_entries(b@, Seq::empty()) == header_entries(
                b@.subrange(pos as int, n as int),
                m@,
            ),
        decreases n - pos,
    {
        let rest = &b[pos..n];
        let ghost r = rest@;
        let (line_end, next) = match find_bytes(rest, nl.as_slice(), 0) {
            Some(i) => {
                proof {
                    lemma_find_from_bounds(r, nl@, 0);
                }
                (i, Some(pos + i + 2))
            },
            None => (rest.len(), None),
        };
        let line = &rest[0..line_end];
        if is_utf8(line) {
            match find_bytes(line, sep.as_slice(), 0) {
                Some(c) => {
                    proof {
                        lemma_find_from_bounds(line@, sep@, 0);
                        assert(line@.subrange(c as int, c + 2)[0] == sep@[0]);
                        assert(line@.subrange(c as int, c + 2)[1] == sep@[1]);
                        lemma_piece_valid(line@, 0, c as int);
                        lemma_piece_valid(line@, c + 2, line@.len() as int);
                    }
                    let key = text_of(&line[0..c]);
                    let value = text_of(&line[c + 2..line_end]);
                    m.insert(key, value);
                },
                None => {},
            }
        }
        match next {
            Some(p) => {
                assert(r.subrange(line_end + 2, r.len() as int) =~= b@.subrange(p as int, n as int));
                pos = p;
            },
            None => {
                assert(line@ =~= r);
                return m;
            },
        }
    }
}

/// The header map of the message `b`.
pub(crate) fn head_headers(b: &[u8]) -> (r: StringMap)
    ensures
        r@ == header_entries(header_bytes(b@), Seq::empty()),
{
    let n = b.len();
    let nl = vec![CR, LF];
    assert(nl@ =~= crlf());
    let found_nl = find_bytes(b, nl.as_slice(), 0);
    proof {
        lemma_find_from_bounds(b@, nl@, 0);
    }
    let blank = vec![CR, LF, CR, LF];
    assert(blank@ =~= crlf2());
    let found_blank = find_bytes(b, blank.as_slice(), 0);
    proof {
        lemma_find_from_bounds(b@, blank@, 0);
    }
    let head_end = match found_blank {
        Some(d) => d,
        None => n,
    };
    let header = match found_nl {
        Some(e) => if e + 2 <= head_end {
            parse_headers(&b[e + 2..head_end])
        } else {
            StringMap::new()
        },
        None => StringMap::new(),
    };
    assert(header@ == header_entries(header_bytes(b@), Seq::empty())) by {
        if header_bytes(b@).len() == 0 {
            assert(header_bytes(b@) =~= Seq::<u8>::empty());
        }
    }
    header
}

impl Request {
    /// Reads a request from the bytes `b`.
    ///
    /// The whole message must be in `b`: nothing here waits for more bytes.
    pub fn parse(b: &[u8]) -> (r: Result<Request, ParseError>)
        ensures
            match request_of(b@) {
                Ok(m) => r matches Ok(q) && q@ == m,
                Err(e) => r == Err::<Request, ParseError>(e),
            },
    {
        let n = b.len();
        let nl = vec![CR, LF];
        assert(nl@ =~= crlf());
        let sp = vec![SP];
        assert(sp@ =~= seq![SP]);
        let found_nl = find_bytes(b, nl.as_slice(), 0);
        proof {
            lemma_find_from_bounds(b@, nl@, 0);
        }
        let line_end = match found_nl {
            Some(e) => e,
            None => return Err(ParseError::MalformedStatusLine),
        };
        let line = &b[0..line_end];
        assert(line@ =~= request_line(b@));
        let s1 = match find_bytes(line, sp.as_slice(), 0) {
            None => return Err(ParseError::MalformedStatusLine),
            Some(i) => i,
        };
        proof {
            lemma_find_from_bounds(line@, sp@, 0);
        }
        let s2 = match find_bytes(line, sp.as_slice(), s1 + 1) {
            None => return Err(ParseError::MalformedStatusLine),
            Some(i) => i,
        };
        proof {
            lemma_find_from_bounds(line@, sp@, s1 + 1);
        }
        let s3 = match find_bytes(line, sp.as_slice(), s2 + 1) {
            None => line_end,
            Some(i) => i,
        };
        proof {
            lemma_find_from_bounds(line@, sp@, s2 + 1);
        }
        let method = match Method::from_bytes(&line[0..s1]) {
            Ok(m) => m,
            Err(e) => return Err(e),
        };
        let target = &line[s1 + 1..s2];
        let version = &line[s2 + 1..s3];
        if !is_utf8(target) || !is_utf8(version) {
            return Err(ParseError::MalformedRequest);
        }
        let uri = Uri::from_bytes(target);
        let protocolo = text_of(version);
        let header = head_headers(b);
        let blank = vec![CR, LF, CR, LF];
        assert(blank@ =~= crlf2());
        let found_blank = find_bytes(b, blank.as_slice(), 0);
        proof {
            lemma_find_from_bounds(b@, blank@, 0);
        }
        let body = match found_blank {
            Some(d) => Some(copy_range(b, d + 4, n)),
            None => None,
        };
        let r = Request { method, uri, protocolo, header, body };
        assert(r@ == request_of(b@).unwrap());
        Ok(r)
    }

    /// The wire form of the request.
    pub fn as_bytes(&self) -> (r: Vec<u8>)
        ensures
            r@ == request_bytes(self@),
    {
        let mut out = self.method.name();
        out.push(SP);
        self.uri.push_bytes(&mut out);
        out.push(SP);
        push_text(&mut out, self.protocolo.as_str());
        out.push(CR);
        out.push(LF);
        self.header.push_header_lines(&mut out);
        out.push(CR);
        out.push(LF);
        match &self.body {
            Some(b) => push_all(&mut out, b.as_slice()),
            None => {},
        }
        assert(out@ =~= request_bytes(self@));
        out
    }

    /// A copy of the request.
    pub fn clone(&self) -> (r: Request)
        ensures
            r@ == self@,
    {
        let body = match &self.body {
            Some(b) => {
                assert(b@.subrange(0, b@.len() as int) =~= b@);
                Some(copy_range(b.as_slice(), 0, b.len()))
            },
            None => None,
        };
        Request {
            method: self.method,
            uri: self.uri.clone(),
            protocolo: self.protocolo.clone(),
            header: self.header.clone(),
            body,
        }
    }
}

impl Response {
    /// The wire form of the response: `<version> <status>`, CR LF, the header
    /// lines, a blank line, then the body bytes as they are.
    pub fn as_bytes(&self) -> (r: Vec<u8>)
        ensures
            r@ == response_bytes(self@),
    {
        let mut out: Vec<u8> = Vec::new();
        push_text(&mut out, self.protocolo.as_str());
        out.push(SP);
        push_text(&mut out, self.status.as_str());
        out.push(CR);
        out.push(LF);
        self.header.push_header_lines(&mut out);
        out.push(CR);
        out.push(LF);
        push_all(&mut out, self.body.as_slice());
        assert(out@ =~= response_bytes(self@));
        out
    }

    /// A copy of the response.
    pub fn clone(&self) -> (r: Response)
        ensures
            r@ == self@,
    {
        let body = copy_range(self.body.as_slice(), 0, self.body.len());
        assert(self.body@.subrange(0, self.body@.len() as int) =~= self.body@);
        Response {
            protocolo: self.protocolo.clone(),
            status: self.status.clone(),
            header: self.header.clone(),
            body,
        }
    }
}

} // verus!
