//! Byte-sequence helpers shared by the codec: searching, copying and turning
//! well-formed UTF-8 into text.

use vstd::prelude::*;
use vstd::utf8::*;

verus! {

broadcast use vstd::seq::group_seq_axioms;

/// Space.
pub const SP: u8 = 32;
/// Carriage return.
pub const CR: u8 = 13;
/// Line feed.
pub const LF: u8 = 10;
pub const COLON: u8 = 58;
pub const EQUALS: u8 = 61;
pub const AMPERSAND: u8 = 38;
pub const QUESTION: u8 = 63;

/// The line terminator.
pub open spec fn crlf() -> Seq<u8> {
    seq![CR, LF]
}

/// The blank line that ends a header block.
pub open spec fn crlf2() -> Seq<u8> {
    seq![CR, LF, CR, LF]
}

/// The separator between a header's name and its value.
pub open spec fn colon_sp() -> Seq<u8> {
    seq![COLON, SP]
}

/// Index of the first occurrence of `pat` in `b` at or after `from`, or -1.
pub open spec fn find_from(b: Seq<u8>, pat: Seq<u8>, from: int) -> int
    decreases b.len() + 1 - from,
{
    if from < 0 || from + pat.len() > b.len() {
        -1
    } else if b.subrange(from, from + pat.len()) == pat {
        from
    } else {
        find_from(b, pat, from + 1)
    }
}

/// Index of the first occurrence of `pat` in `b`, or -1.
pub open spec fn find(b: Seq<u8>, pat: Seq<u8>) -> int {
    find_from(b, pat, 0)
}

pub proof fn lemma_find_from_bounds(b: Seq<u8>, pat: Seq<u8>, from: int)
    ensures
        find_from(b, pat, from) == -1 || (from <= find_from(b, pat, from) && find_from(b, pat, from)
            + pat.len() <= b.len() && b.subrange(
            find_from(b, pat, from),
            find_from(b, pat, from) + pat.len(),
        ) == pat),
    decreases b.len() + 1 - from,
{
    if from < 0 || from + pat.len() > b.len() {
    } else if b.subrange(from, from + pat.len()) == pat {
    } else {
        lemma_find_from_bounds(b, pat, from + 1);
    }
}

/// No byte of `b` is `c`.
pub open spec fn lacks(b: Seq<u8>, c: u8) -> bool {
    forall|i: int| 0 <= i < b.len() ==> #[trigger] b[i] != c
}

/// The first `c` at or after `from` is at `k`, or there is none when `k` is
/// the end of `b`.
pub proof fn lemma_find_byte(b: Seq<u8>, c: u8, from: int, k: int)
    requires
        0 <= from <= k <= b.len(),
        forall|j: int| from <= j < k ==> #[trigger] b[j] != c,
        k == b.len() || b[k] == c,
    ensures
        find_from(b, seq![c], from) == if k == b.len() {
            -1
        } else {
            k
        },
    decreases k - from,
{
    if from == k {
        if k < b.len() {
            assert(b.subrange(k, k + 1) =~= seq![c]);
        }
    } else {
        assert(b.subrange(from, from + 1)[0] == b[from]);
        lemma_find_byte(b, c, from + 1, k);
    }
}

/// The first CR LF at or after `from` is at `k` when no CR comes before it.
pub proof fn lemma_find_crlf(b: Seq<u8>, from: int, k: int)
    requires
        0 <= from <= k,
        k + 2 <= b.len(),
        forall|j: int| from <= j < k ==> #[trigger] b[j] != CR,
        b[k] == CR,
        b[k + 1] == LF,
    ensures
        find_from(b, crlf(), from) == k,
    decreases k - from,
{
    if from == k {
        assert(b.subrange(k, k + 2) =~= crlf());
    } else {
        assert(b.subrange(from, from + 2)[0] == b[from]);
        lemma_find_crlf(b, from + 1, k);
    }
}

/// Searches `b` for `pat`, starting at `from`.
pub fn find_bytes(b: &[u8], pat: &[u8], from: usize) -> (r: Option<usize>)
    requires
        pat@.len() > 0,
    ensures
        match r {
            Some(i) => find_from(b@, pat@, from as int) == i as int,
            None => find_from(b@, pat@, from as int) == -1,
        },
{
    let n = b.len();
    let m = pat.len();
    if m > n {
        return None;
    }
    let mut i: usize = from;
    while i <= n - m
        invariant
            m == pat@.len(),
            n == b@.len(),
            m <= n,
            from <= i,
            find_from(b@, pat@, from as int) == find_from(b@, pat@, i as int),
        decreases n - i,
    {
        let mut j: usize = 0;
        while j < m && b[i + j] == pat[j]
            invariant
                m == pat@.len(),
                n == b@.len(),
                i + m <= n,
                j <= m,
                forall|k: int| 0 <= k < j ==> b@[i + k] == pat@[k],
            decreases m - j,
        {
            j += 1;
        }
        if j == m {
            assert(b@.subrange(i as int, i + m) =~= pat@);
            return Some(i);
        }
        assert(b@.subrange(i as int, i + m)[j as int] != pat@[j as int]);
        i += 1;
    }
    None
}


/// True when every byte of `b` is ASCII.
pub open spec fn all_ascii(b: Seq<u8>) -> bool {
    forall|i: int| 0 <= i < b.len() ==> #[trigger] b[i] < 128
}

/// ASCII bytes are well-formed UTF-8.
pub proof fn lemma_ascii_valid(b: Seq<u8>)
    requires
        all_ascii(b),
    ensures
        valid_utf8(b),
{
    assert(b.subrange(0, 0) =~= Seq::<u8>::empty());
    assert(partial_valid_utf8(b, 0));
    assert forall|i: int| 0 <= 0 <= i < b.len() <= b.len() implies #[trigger] is_leading_byte_width_1(
        b[i],
    ) by {
        assert(b[i] < 128);
    }
    partial_valid_utf8_extend_ascii_block(b, 0, b.len() as int);
    assert(b.subrange(0, b.len() as int) =~= b);
}

/// Cutting well-formed UTF-8 just before an ASCII byte (or at its end) leaves
/// two well-formed halves.
pub proof fn lemma_split_at_ascii(b: Seq<u8>, i: int)
    requires
        valid_utf8(b),
        0 <= i <= b.len(),
        i == b.len() || b[i] < 128,
    ensures
        valid_utf8(b.subrange(0, i)),
        valid_utf8(b.subrange(i, b.len() as int)),
{
    if i == b.len() {
        is_char_boundary_start_end_of_seq(b);
    } else {
        is_char_boundary_iff_not_is_continuation_byte(b, i);
    }
    valid_utf8_split(b, i);
}

/// Cutting well-formed UTF-8 just after an ASCII byte leaves two
/// well-formed halves.
pub proof fn lemma_split_after_ascii(b: Seq<u8>, i: int)
    requires
        valid_utf8(b),
        0 < i <= b.len(),
        b[i - 1] < 128,
    ensures
        valid_utf8(b.subrange(0, i)),
        valid_utf8(b.subrange(i, b.len() as int)),
{
    lemma_split_at_ascii(b, i - 1);
    let tail = b.subrange(i - 1, b.len() as int);
    assert(tail[0] == b[i - 1]);
    assert(valid_utf8(pop_first_scalar(tail)));
    assert(pop_first_scalar(tail) =~= b.subrange(i, b.len() as int));
    let head = b.subrange(0, i - 1);
    let one = b.subrange(i - 1, i);
    assert(one[0] == b[i - 1]);
    lemma_ascii_valid(one);
    valid_utf8_concat(head, one);
    assert(head + one =~= b.subrange(0, i));
}

/// A piece of well-formed UTF-8 cut out just after an ASCII byte (or at the
/// start) and just before one (or at the end) is itself well-formed.
pub proof fn lemma_piece_valid(b: Seq<u8>, lo: int, hi: int)
    requires
        valid_utf8(b),
        0 <= lo <= hi <= b.len(),
        lo == 0 || b[lo - 1] < 128,
        hi == b.len() || b[hi] < 128,
    ensures
        valid_utf8(b.subrange(lo, hi)),
{
    lemma_split_at_ascii(b, hi);
    let front = b.subrange(0, hi);
    if lo == 0 {
        assert(front =~= b.subrange(lo, hi));
    } else {
        assert(front[lo - 1] == b[lo - 1]);
        lemma_split_after_ascii(front, lo);
        assert(front.subrange(lo, front.len() as int) =~= b.subrange(lo, hi));
    }
}

/// Relies on `std::str::from_utf8`: it accepts exactly the well-formed UTF-8
/// sequences and reads them as the characters they encode.
#[verifier::external_body]
fn utf8_str(b: &[u8]) -> (r: Option<&str>)
    ensures
        r.is_some() == valid_utf8(b@),
        r matches Some(s) ==> s@ == decode_utf8(b@),
{
    std::str::from_utf8(b).ok()
}

/// Whether `b` is well-formed UTF-8.
pub fn is_utf8(b: &[u8]) -> (r: bool)
    ensures
        r == valid_utf8(b@),
{
    utf8_str(b).is_some()
}

/// The text that well-formed UTF-8 bytes encode.
pub fn text_of(b: &[u8]) -> (r: String)
    requires
        valid_utf8(b@),
    ensures
        r@ == decode_utf8(b@),
{
    match utf8_str(b) {
        Some(s) => s.to_owned(),
        None => String::new(),
    }
}

/// Appends `src` to `dst`.
pub fn push_all(dst: &mut Vec<u8>, src: &[u8])
    ensures
        final(dst)@ == old(dst)@ + src@,
{
    let mut i: usize = 0;
    while i < src.len()
        invariant
            i <= src@.len(),
            dst@ == old(dst)@ + src@.subrange(0, i as int),
        decreases src@.len() - i,
    {
        dst.push(src[i]);
        i += 1;
        assert(src@.subrange(0, i as int) =~= src@.subrange(0, i - 1) + seq![src@[i - 1]]);
    }
    assert(src@.subrange(0, i as int) =~= src@);
}

/// Appends the UTF-8 encoding of `s` to `dst`.
pub fn push_text(dst: &mut Vec<u8>, s: &str)
    ensures
        final(dst)@ == old(dst)@ + encode_utf8(s@),
{
    push_all(dst, s.as_bytes());
}

/// Byte-wise equality of two slices.
pub fn bytes_eq(a: &[u8], b: &[u8]) -> (r: bool)
    ensures
        r == (a@ == b@),
{
    if a.len() != b.len() {
        return false;
    }
    let mut i: usize = 0;
    while i < a.len()
        invariant
            a@.len() == b@.len(),
            i <= a@.len(),
            forall|j: int| 0 <= j < i ==> a@[j] == b@[j],
        decreases a@.len() - i,
    {
        if a[i] != b[i] {
            return false;
        }
        i += 1;
    }
    assert(a@ =~= b@);
    true
}

/// Equality of two texts.
pub fn text_eq(a: &str, b: &str) -> (r: bool)
    ensures
        r == (a@ == b@),
{
    proof {
        encode_utf8_decode_utf8(a@);
        encode_utf8_decode_utf8(b@);
    }
    bytes_eq(a.as_bytes(), b.as_bytes())
}

} // verus!
