//! Request targets: a path and an optional query map.

use vstd::prelude::*;
use vstd::utf8::*;
use crate::bytes::{
    AMPERSAND, EQUALS, QUESTION, find, find_bytes, find_from, lemma_find_from_bounds,
    lemma_piece_valid, push_text, text_of,
};
use crate::string_map::{Entries, StringMap, insert_entry, query_text};

verus! {

broadcast use vstd::seq::group_seq_axioms;

/// The abstract value of a [`Uri`].
pub struct UriModel {
    pub path: Seq<char>,
    pub query: Option<Entries>,
}

/// `acc` with the parameter `p` of a query string added: the key is the text
/// before the first `=`, the value the text between it and the next `=` (or
/// the end); a parameter without `=` binds its whole text to the empty value.
pub open spec fn insert_param(acc: Entries, p: Seq<u8>) -> Entries {
    let e = find(p, seq![EQUALS]);
    if e < 0 {
        insert_entry(acc, decode_utf8(p), Seq::empty())
    } else {
        let r = find_from(p, seq![EQUALS], e + 1);
        let end = if r < 0 {
            p.len() as int
        } else {
            r
        };
        insert_entry(acc, decode_utf8(p.subrange(0, e)), decode_utf8(p.subrange(e + 1, end)))
    }
}

/// `acc` with every `&`-separated parameter of `b` added, in order, so that
/// the last of two equal keys wins.
pub open spec fn query_entries(b: Seq<u8>, acc: Entries) -> Entries
    decreases b.len(),
{
    let a = find(b, seq![AMPERSAND]);
    if 0 <= a < b.len() {
        query_entries(b.subrange(a + 1, b.len() as int), insert_param(acc, b.subrange(0, a)))
    } else {
        insert_param(acc, b)
    }
}

/// The target `b` read as a path and an optional query: the path is the text
/// before the first `?`; the query, present only when there is a `?`, is what
/// follows it.
pub open spec fn uri_of(b: Seq<u8>) -> UriModel {
    let q = find(b, seq![QUESTION]);
    if q < 0 {
        UriModel { path: decode_utf8(b), query: None }
    } else {
        UriModel {
            path: decode_utf8(b.subrange(0, q)),
            query: Some(query_entries(b.subrange(q + 1, b.len() as int), Seq::empty())),
        }
    }
}

/// The wire form of a target.
pub open spec fn uri_bytes(u: UriModel) -> Seq<u8> {
    match u.query {
        None => encode_utf8(u.path),
        Some(q) => encode_utf8(u.path) + seq![QUESTION] + query_text(q),
    }
}

/// A request target.
pub struct Uri {
    pub path: String,
    pub query: Option<StringMap>,
}

impl View for Uri {
    type V = UriModel;

    open spec fn view(&self) -> UriModel {
        UriModel {
            path: self.path@,
            query: match self.query {
                Some(q) => Some(q@),
                None => None,
            },
        }
    }
}

/// Adds the parameter `b[lo..hi]` to `m`.
fn add_param(m: &mut StringMap, b: &[u8], lo: usize, hi: usize)
    requires
        valid_utf8(b@),
        lo <= hi <= b@.len(),
        lo == 0 || b@[lo - 1] < 128,
        hi == b@.len() || b@[hi as int] < 128,
    ensures
        final(m)@ == insert_param(old(m)@, b@.subrange(lo as int, hi as int)),
{
    let p = &b[lo..hi];
    let eq = vec![EQUALS];
    assert(eq@ =~= seq![EQUALS]);
    proof {
        lemma_piece_valid(b@, lo as int, hi as int);
    }
    match find_bytes(p, eq.as_slice(), 0) {
        None => {
            let key = text_of(p);
            m.insert(key, String::new());
        },
        Some(e) => {
            proof {
                lemma_find_from_bounds(p@, eq@, 0);
            }
            let end = match find_bytes(p, eq.as_slice(), e + 1) {
                None => p.len(),
                Some(r) => {
                    proof {
                        lemma_find_from_bounds(p@, eq@, e + 1);
                    }
                    r
                },
            };
            proof {
                assert(p@[e as int] == EQUALS) by {
                    assert(p@.subrange(e as int, e + 1)[0] == eq@[0]);
                }
                if end < p@.len() {
                    assert(p@.subrange(end as int, end + 1)[0] == eq@[0]);
                }
                lemma_piece_valid(b@, lo as int, hi as int);
                lemma_piece_valid(p@, 0, e as int);
                lemma_piece_valid(p@, e + 1, end as int);
            }
            let key = text_of(&p[0..e]);
            let value = text_of(&p[e + 1..end]);
            m.insert(key, value);
        },
    }
}

/// Parses the query text `b` into a map.
fn parse_query(b: &[u8]) -> (r: StringMap)
    requires
        valid_utf8(b@),
    ensures
        r@ == query_entries(b@, Seq::empty()),
{
    let mut m = StringMap::new();
    let amp = vec![AMPERSAND];
    assert(amp@ =~= seq![AMPERSAND]);
    let mut pos: usize = 0;
    assert(b@.subrange(0, b@.len() as int) =~= b@);
    loop
        invariant
            pos <= b@.len(),
            amp@ == seq![AMPERSAND],
            valid_utf8(b@),
            pos == 0 || b@[pos - 1] == AMPERSAND,
            query_entries(b@, Seq::empty()) == query_entries(
                b@.subrange(pos as int, b@.len() as int),
                m@,
            ),
        decreases b@.len() - pos,
    {
        let rest = &b[pos..b.len()];
        let ghost r = rest@;
        match find_bytes(rest, amp.as_slice(), 0) {
            Some(a) => {
                proof {
                    lemma_find_from_bounds(r, amp@, 0);
                    assert(r.subrange(a as int, a + 1)[0] == amp@[0]);
                    assert(r.subrange(a + 1, r.len() as int) =~= b@.subrange(
                        pos + a + 1,
                        b@.len() as int,
                    ));
                    assert(r.subrange(0, a as int) =~= b@.subrange(pos as int, pos + a));
                }
                add_param(&mut m, b, pos, pos + a);
                pos = pos + a + 1;
            },
            None => {
                assert(r =~= b@.subrange(pos as int, b@.len() as int));
                add_param(&mut m, b, pos, b.len());
                return m;
            },
        }
    }
}

impl Uri {
    /// Reads the target `b`, which must be UTF-8 text.
    pub fn from_bytes(b: &[u8]) -> (r: Uri)
        requires
            valid_utf8(b@),
        ensures
            r@ == uri_of(b@),
    {
        let qm = vec![QUESTION];
        assert(qm@ =~= seq![QUESTION]);
        match find_bytes(b, qm.as_slice(), 0) {
            None => Uri { path: text_of(b), query: None },
            Some(q) => {
                proof {
                    lemma_find_from_bounds(b@, qm@, 0);
                    assert(q + 1 <= b@.len());
                    assert(b@.subrange(q as int, q + 1)[0] == qm@[0]);
                    lemma_piece_valid(b@, 0, q as int);
                    lemma_piece_valid(b@, q + 1, b@.len() as int);
                }
                let n = b.len();
                let path = text_of(&b[0..q]);
                let query = parse_query(&b[q + 1..n]);
                Uri { path, query: Some(query) }
            },
        }
    }

    /// Reads the target text `s`.
    pub fn parse(s: &str) -> (r: Uri)
        ensures
            r@ == uri_of(encode_utf8(s@)),
    {
        proof {
            encode_utf8_valid_utf8(s@);
        }
        Uri::from_bytes(s.as_bytes())
    }

    /// Appends the wire form of the target to `out`.
    pub fn push_bytes(&self, out: &mut Vec<u8>)
        ensures
            final(out)@ == old(out)@ + uri_bytes(self@),
    {
        push_text(out, self.path.as_str());
        match &self.query {
            None => {},
            Some(q) => {
                out.push(QUESTION);
                q.push_query(out);
            },
        }
        assert(out@ =~= old(out)@ + uri_bytes(self@));
    }

    /// The wire form of the target.
    pub fn as_bytes(&self) -> (r: Vec<u8>)
        ensures
            r@ == uri_bytes(self@),
    {
        let mut out: Vec<u8> = Vec::new();
        self.push_bytes(&mut out);
        assert(out@ =~= uri_bytes(self@));
        out
    }

    /// A copy of the target.
    pub fn clone(&self) -> (r: Uri)
        ensures
            r@ == self@,
    {
        let query = match &self.query {
            None => None,
            Some(q) => Some(q.clone()),
        };
        Uri { path: self.path.clone(), query }
    }
}

} // verus!
