//! Request methods and parse errors.

use vstd::prelude::*;
use vstd::utf8::*;
use crate::bytes::{SP, all_ascii, bytes_eq, lemma_ascii_valid, text_of};

verus! {

/// An HTTP request method.
#[derive(PartialEq, Eq, Structural, Clone, Copy, Debug, Hash)]
pub enum Method {
    GET,
    POST,
    PUT,
    DELETE,
    HEAD,
    CONNECT,
    OPTIONS,
    TRACE,
    PATCH,
}

/// Why a request could not be parsed.
#[derive(PartialEq, Eq, Structural, Clone, Copy, Debug)]
pub enum ParseError {
    /// The request line has fewer than three space-separated tokens.
    MalformedStatusLine,
    /// The method token names no known method.
    UnknownMethod,
    /// The target or the version of the request line is not UTF-8 text.
    MalformedRequest,
}

/// The token that names `m` on the wire.
pub open spec fn method_name(m: Method) -> Seq<u8> {
    match m {
        Method::GET => seq!['G' as u8, 'E' as u8, 'T' as u8],
        Method::POST => seq!['P' as u8, 'O' as u8, 'S' as u8, 'T' as u8],
        Method::PUT => seq!['P' as u8, 'U' as u8, 'T' as u8],
        Method::DELETE => seq!['D' as u8, 'E' as u8, 'L' as u8, 'E' as u8, 'T' as u8, 'E' as u8],
        Method::HEAD => seq!['H' as u8, 'E' as u8, 'A' as u8, 'D' as u8],
        Method::CONNECT => seq![
            'C' as u8,
            'O' as u8,
            'N' as u8,
            'N' as u8,
            'E' as u8,
            'C' as u8,
            'T' as u8,
        ],
        Method::OPTIONS => seq![
            'O' as u8,
            'P' as u8,
            'T' as u8,
            'I' as u8,
            'O' as u8,
            'N' as u8,
            'S' as u8,
        ],
        Method::TRACE => seq!['T' as u8, 'R' as u8, 'A' as u8, 'C' as u8, 'E' as u8],
        Method::PATCH => seq!['P' as u8, 'A' as u8, 'T' as u8, 'C' as u8, 'H' as u8],
    }
}

/// Every method, in declaration order.
pub open spec fn all_methods() -> Seq<Method> {
    seq![
        Method::GET,
        Method::POST,
        Method::PUT,
        Method::DELETE,
        Method::HEAD,
        Method::CONNECT,
        Method::OPTIONS,
        Method::TRACE,
        Method::PATCH,
    ]
}

/// The method that the token `tok` names, if any. Matching is exact and
/// case-sensitive.
pub open spec fn method_of(tok: Seq<u8>) -> Option<Method> {
    if exists|m: Method| method_name(m) == tok {
        Some(choose|m: Method| method_name(m) == tok)
    } else {
        None
    }
}

/// Method names are distinct, non-empty, ASCII and hold no space.
pub proof fn lemma_method_name(m: Method)
    ensures
        method_of(method_name(m)) == Some(m),
        method_name(m).len() > 0,
        all_ascii(method_name(m)),
        forall|i: int| 0 <= i < method_name(m).len() ==> method_name(m)[i] != SP,
{
    let n = method_name(m);
    assert forall|k: Method| method_name(k) == n implies k == m by {
        if k != m {
            assert(method_name(k).len() != n.len() || exists|i: int|
                0 <= i < n.len() && method_name(k)[i] != n[i]) by {
                match k {
                    Method::GET => {
                        assert(method_name(k)[0] != n[0] || method_name(k)[1] != n[1]
                            || method_name(k).len() != n.len());
                    },
                    _ => {
                        assert(method_name(k)[0] != n[0] || method_name(k)[1] != n[1]
                            || method_name(k).len() != n.len());
                    },
                }
            }
        }
    }
    assert(method_name(m) == n);
}

impl Method {
    /// The token that names this method on the wire.
    pub fn name(&self) -> (r: Vec<u8>)
        ensures
            r@ == method_name(*self),
    {
        let r = match self {
            Method::GET => vec!['G' as u8, 'E' as u8, 'T' as u8],
            Method::POST => vec!['P' as u8, 'O' as u8, 'S' as u8, 'T' as u8],
            Method::PUT => vec!['P' as u8, 'U' as u8, 'T' as u8],
            Method::DELETE => vec!['D' as u8, 'E' as u8, 'L' as u8, 'E' as u8, 'T' as u8, 'E' as u8],
            Method::HEAD => vec!['H' as u8, 'E' as u8, 'A' as u8, 'D' as u8],
            Method::CONNECT => vec![
                'C' as u8,
                'O' as u8,
                'N' as u8,
                'N' as u8,
                'E' as u8,
                'C' as u8,
                'T' as u8,
            ],
            Method::OPTIONS => vec![
                'O' as u8,
                'P' as u8,
                'T' as u8,
                'I' as u8,
                'O' as u8,
                'N' as u8,
                'S' as u8,
            ],
            Method::TRACE => vec!['T' as u8, 'R' as u8, 'A' as u8, 'C' as u8, 'E' as u8],
            Method::PATCH => vec!['P' as u8, 'A' as u8, 'T' as u8, 'C' as u8, 'H' as u8],
        };
        assert(r@ =~= method_name(*self));
        r
    }

    /// The name of the method as text.
    pub fn to_string(&self) -> (r: String)
        ensures
            r@ == decode_utf8(method_name(*self)),
    {
        let n = self.name();
        proof {
            lemma_method_name(*self);
            lemma_ascii_valid(n@);
        }
        text_of(n.as_slice())
    }

    /// The method named by the token `tok`; `UnknownMethod` for any other
    /// token.
    pub fn from_bytes(tok: &[u8]) -> (r: Result<Method, ParseError>)
        ensures
            r == (match method_of(tok@) {
                Some(m) => Ok(m),
                None => Err(ParseError::UnknownMethod),
            }),
    {
        let methods = [
            Method::GET,
            Method::POST,
            Method::PUT,
            Method::DELETE,
            Method::HEAD,
            Method::CONNECT,
            Method::OPTIONS,
            Method::TRACE,
            Method::PATCH,
        ];
        assert(methods@ =~= all_methods());
        let mut i: usize = 0;
        while i < 9
            invariant
                methods@ == all_methods(),
                i <= 9,
                forall|j: int| 0 <= j < i ==> method_name(#[trigger] all_methods()[j]) != tok@,
            decreases 9 - i,
        {
            let m = methods[i];
            let n = m.name();
            if bytes_eq(n.as_slice(), tok) {
                proof {
                    lemma_method_name(m);
                }
                return Ok(m);
            }
            i += 1;
        }
        assert forall|m: Method| method_name(m) != tok@ by {
            let j: int = match m {
                Method::GET => 0,
                Method::POST => 1,
                Method::PUT => 2,
                Method::DELETE => 3,
                Method::HEAD => 4,
                Method::CONNECT => 5,
                Method::OPTIONS => 6,
                Method::TRACE => 7,
                Method::PATCH => 8,
            };
            assert(all_methods()[j] == m);
        }
        Err(ParseError::UnknownMethod)
    }

    /// The method named by the text `s`; `UnknownMethod` for any other text.
    pub fn parse(s: &str) -> (r: Result<Method, ParseError>)
        ensures
            r == (match method_of(encode_utf8(s@)) {
                Some(m) => Ok(m),
                None => Err(ParseError::UnknownMethod),
            }),
    {
        Method::from_bytes(s.as_bytes())
    }
}

} // verus!
