//! The content type that a file extension stands for.

use vstd::prelude::*;
use vstd::utf8::*;
use crate::bytes::bytes_eq;

verus! {

broadcast use vstd::seq::group_seq_axioms;

/// `b` with the ASCII capital letters made small.
pub open spec fn ascii_lower(b: Seq<u8>) -> Seq<u8> {
    b.map_values(|c: u8| if 65 <= c <= 90 { (c + 32) as u8 } else { c })
}

/// The content type of a file whose extension, with ASCII letters made small,
/// has the UTF-8 bytes `ext`.
pub open spec fn mime_of(ext: Seq<u8>) -> Seq<char> {
    if ext == encode_utf8("html"@) {
        "text/html; charset=UTF-8"@
    } else if ext == encode_utf8("css"@) {
        "text/css"@
    } else if ext == encode_utf8("js"@) {
        "text/javascript"@
    } else if ext == encode_utf8("png"@) {
        "image/png"@
    } else if ext == encode_utf8("jpg"@) || ext == encode_utf8("jpeg"@) {
        "image/jpeg"@
    } else if ext == encode_utf8("gif"@) {
        "image/gif"@
    } else if ext == encode_utf8("ico"@) {
        "image/x-icon"@
    } else if ext == encode_utf8("svg"@) {
        "image/svg+xml"@
    } else if ext == encode_utf8("mid"@) {
        "audio/midi"@
    } else if ext == encode_utf8("mp3"@) {
        "audio/mpeg"@
    } else if ext == encode_utf8("wav"@) {
        "audio/wav"@
    } else if ext == encode_utf8("mp4"@) {
        "video/mp4"@
    } else if ext == encode_utf8("json"@) {
        "application/json"@
    } else {
        "text/plain"@
    }
}

/// The content type for the file extension `ext`, ignoring ASCII case.
pub open spec fn content_type_of(ext: Seq<char>) -> Seq<char> {
    mime_of(ascii_lower(encode_utf8(ext)))
}

/// The name of the content type header.
pub open spec fn content_type_name() -> Seq<char> {
    "Content-Type"@
}

/// `b` with the ASCII capital letters made small.
pub(crate) fn lower_bytes(b: &[u8]) -> (r: Vec<u8>)
    ensures
        r@ == ascii_lower(b@),
{
    let mut r: Vec<u8> = Vec::new();
    let mut i: usize = 0;
    while i < b.len()
        invariant
            i <= b@.len(),
            r@ =~= ascii_lower(b@.subrange(0, i as int)),
        decreases b@.len() - i,
    {
        let c = b[i];
        let l = if 65 <= c && c <= 90 {
            c + 32
        } else {
            c
        };
        r.push(l);
        i += 1;
        assert(ascii_lower(b@.subrange(0, i as int)) =~= ascii_lower(b@.subrange(0, i - 1)).push(l));
    }
    assert(b@.subrange(0, i as int) =~= b@);
    r
}

/// Whether the lowered extension `e` is the extension `name`.
fn is_ext(e: &Vec<u8>, name: &str) -> (r: bool)
    ensures
        r == (e@ == encode_utf8(name@)),
{
    bytes_eq(e.as_slice(), name.as_bytes())
}

/// The content type header for a file with extension `file_ext` (without the
/// dot): its name and its value. The extension is matched ignoring ASCII
/// case; an unknown one gives `text/plain`.
pub fn get_content_type(file_ext: &str) -> (r: (String, String))
    ensures
        r.0@ == content_type_name(),
        r.1@ == content_type_of(file_ext@),
{
    let e = lower_bytes(file_ext.as_bytes());
    let value = if is_ext(&e, "html") {
        "text/html; charset=UTF-8"
    } else if is_ext(&e, "css") {
        "text/css"
    } else if is_ext(&e, "js") {
        "text/javascript"
    } else if is_ext(&e, "png") {
        "image/png"
    } else if is_ext(&e, "jpg") || is_ext(&e, "jpeg") {
        "image/jpeg"
    } else if is_ext(&e, "gif") {
        "image/gif"
    } else if is_ext(&e, "ico") {
        "image/x-icon"
    } else if is_ext(&e, "svg") {
        "image/svg+xml"
    } else if is_ext(&e, "mid") {
        "audio/midi"
    } else if is_ext(&e, "mp3") {
        "audio/mpeg"
    } else if is_ext(&e, "wav") {
        "audio/wav"
    } else if is_ext(&e, "mp4") {
        "video/mp4"
    } else if is_ext(&e, "json") {
        "application/json"
    } else {
        "text/plain"
    };
    ("Content-Type".to_owned(), value.to_owned())
}

} // verus!
