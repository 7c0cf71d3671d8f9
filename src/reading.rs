//! When the bytes read so far hold a whole request.

use vstd::prelude::*;
use vstd::utf8::*;
use crate::bytes::{CR, LF, crlf2, find, find_bytes, lemma_find_from_bounds};
use crate::message::{head_headers, header_bytes, header_entries};
use crate::mime::ascii_lower;
use crate::string_map::lookup_ignoring_case;

verus! {

broadcast use vstd::seq::group_seq_axioms;

/// The most bytes that one request may take, head and body together.
pub const MAX_REQUEST_BYTES: usize = 1048576;

/// What the bytes read so far hold.
#[derive(PartialEq, Eq, Structural, Clone, Copy, Debug)]
pub enum ReadState {
    /// Not yet a whole request: read more.
    NeedMore,
    /// A whole request, made of the first `n` bytes.
    Complete(usize),
    /// The request is, or would grow, longer than [`MAX_REQUEST_BYTES`].
    TooLarge,
    /// The `Content-Length` header is not a decimal number.
    BadLength,
}

/// Whether `b` is a non-empty run of ASCII digits.
pub open spec fn is_decimal(b: Seq<u8>) -> bool {
    b.len() > 0 && forall|i: int| 0 <= i < b.len() ==> 48 <= #[trigger] b[i] <= 57
}

/// The number that the ASCII digits `b` write in base ten.
pub open spec fn decimal(b: Seq<u8>) -> nat
    decreases b.len(),
{
    if b.len() == 0 {
        0
    } else {
        decimal(b.drop_last()) * 10 + (b.last() - 48) as nat
    }
}

/// The name of the header that gives the length of the body; it is matched
/// ignoring ASCII case.
pub open spec fn content_length_name() -> Seq<char> {
    "Content-Length"@
}

/// What the bytes `buf` read so far hold. Without a blank line the head is
/// not complete. After it, the body runs for as many bytes as the
/// first `Content-Length` header (its name matched ignoring ASCII case) says,
/// or for none without that header.
pub open spec fn read_state(buf: Seq<u8>) -> ReadState {
    let d = find(buf, crlf2());
    if d < 0 {
        if buf.len() > MAX_REQUEST_BYTES {
            ReadState::TooLarge
        } else {
            ReadState::NeedMore
        }
    } else {
        let head = d + 4;
        match lookup_ignoring_case(
            header_entries(header_bytes(buf), Seq::empty()),
            ascii_lower(encode_utf8(content_length_name())),
        ) {
            None => if head > MAX_REQUEST_BYTES {
                ReadState::TooLarge
            } else {
                ReadState::Complete(head as usize)
            },
            Some(v) => {
                let digits = encode_utf8(v);
                if !is_decimal(digits) {
                    ReadState::BadLength
                } else if head + decimal(digits) > MAX_REQUEST_BYTES {
                    ReadState::TooLarge
                } else if buf.len() >= head + decimal(digits) {
                    ReadState::Complete((head + decimal(digits)) as usize)
                } else {
                    ReadState::NeedMore
                }
            },
        }
    }
}

/// The number that the digits `b` write, or `None` when `b` is not a run of
/// digits; `Some(limit + 1)` stands for any number above `limit`.
fn read_decimal(b: &[u8], limit: usize) -> (r: Option<usize>)
    requires
        limit <= 100_000_000,
    ensures
        r is None <==> !is_decimal(b@),
        r matches Some(n) ==> (if decimal(b@) > limit {
            n == limit + 1
        } else {
            n == decimal(b@)
        }),
{
    if b.len() == 0 {
        return None;
    }
    let mut n: usize = 0;
    let mut i: usize = 0;
    let mut over = false;
    while i < b.len()
        invariant
            i <= b@.len(),
            limit <= 100_000_000,
            forall|j: int| 0 <= j < i ==> 48 <= #[trigger] b@[j] <= 57,
            !over ==> n == decimal(b@.subrange(0, i as int)) && n <= limit,
            over ==> decimal(b@.subrange(0, i as int)) > limit,
        decreases b@.len() - i,
    {
        let c = b[i];
        if c < 48 || c > 57 {
            assert(!is_decimal(b@));
            return None;
        }
        proof {
            assert(b@.subrange(0, i + 1).drop_last() =~= b@.subrange(0, i as int));
        }
        if !over {
            let m = n * 10 + (c - 48) as usize;
            if m > limit {
                over = true;
            } else {
                n = m;
            }
        } else {
            assert(decimal(b@.subrange(0, i + 1)) >= decimal(b@.subrange(0, i as int))) by (
            nonlinear_arith)
                requires
                    decimal(b@.subrange(0, i + 1)) == decimal(b@.subrange(0, i as int)) * 10 + (c
                        - 48) as nat,
            ;
        }
        i += 1;
    }
    assert(b@.subrange(0, i as int) =~= b@);
    if over {
        Some(limit + 1)
    } else {
        Some(n)
    }
}

/// What the bytes `buf` read so far hold: whether a whole request is there,
/// and how long it is.
pub fn read_state_of(buf: &[u8]) -> (r: ReadState)
    ensures
        r == read_state(buf@),
{
    let n = buf.len();
    let blank = vec![CR, LF, CR, LF];
    assert(blank@ =~= crlf2());
    match find_bytes(buf, blank.as_slice(), 0) {
        None => {
            if buf.len() > MAX_REQUEST_BYTES {
                ReadState::TooLarge
            } else {
                ReadState::NeedMore
            }
        },
        Some(d) => {
            proof {
                lemma_find_from_bounds(buf@, blank@, 0);
            }
            let head = d + 4;
            let headers = head_headers(buf);
            match headers.get_ignoring_case("Content-Length") {
                None => {
                    if head > MAX_REQUEST_BYTES {
                        ReadState::TooLarge
                    } else {
                        ReadState::Complete(head)
                    }
                },
                Some(v) => {
                    match read_decimal(v.as_str().as_bytes(), MAX_REQUEST_BYTES) {
                        None => ReadState::BadLength,
                        Some(len) => {
                            if head > MAX_REQUEST_BYTES || len > MAX_REQUEST_BYTES - head {
                                ReadState::TooLarge
                            } else if n >= head + len {
                                ReadState::Complete(head + len)
                            } else {
                                ReadState::NeedMore
                            }
                        },
                    }
                },
            }
        },
    }
}

/// What a connection does after a read, given the bytes read so far.
#[derive(PartialEq, Eq, Structural, Clone, Copy, Debug)]
pub enum Next {
    /// Read again: the request is not whole yet.
    ReadMore,
    /// Answer the request made of the first `n` bytes.
    Answer(usize),
    /// Refuse the request as too large.
    TooLarge,
    /// Refuse the request as malformed: its `Content-Length` is no number,
    /// or the stream ended before the request was whole.
    Malformed,
    /// Close the connection without an answer: nothing was sent.
    Close,
}

/// The step that follows a read: `eof` tells whether the peer has closed its
/// side (or the read failed), so that no more bytes will come. A request cut
/// short by the end of the stream is refused, never answered in part.
pub open spec fn next_step(buf: Seq<u8>, eof: bool) -> Next {
    if eof && buf.len() == 0 {
        Next::Close
    } else {
        match read_state(buf) {
            ReadState::NeedMore => if eof {
                Next::Malformed
            } else {
                Next::ReadMore
            },
            ReadState::Complete(n) => Next::Answer(n),
            ReadState::TooLarge => Next::TooLarge,
            ReadState::BadLength => Next::Malformed,
        }
    }
}

/// The step that follows a read of the connection whose bytes so far are
/// `buf`; `eof` tells whether no more bytes will come.
pub fn next_step_of(buf: &[u8], eof: bool) -> (r: Next)
    ensures
        r == next_step(buf@, eof),
        r matches Next::Answer(n) ==> n <= buf@.len(),
{
    proof {
        if find(buf@, crlf2()) >= 0 {
            lemma_find_from_bounds(buf@, crlf2(), 0);
        }
    }
    if eof && buf.len() == 0 {
        return Next::Close;
    }
    match read_state_of(buf) {
        ReadState::NeedMore => if eof {
            Next::Malformed
        } else {
            Next::ReadMore
        },
        ReadState::Complete(n) => Next::Answer(n),
        ReadState::TooLarge => Next::TooLarge,
        ReadState::BadLength => Next::Malformed,
    }
}

} // verus!
