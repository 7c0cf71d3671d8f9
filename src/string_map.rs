//! A map from text keys to text values with unique keys, kept in the order in
//! which keys were first inserted. Header blocks and query strings use it.

use vstd::prelude::*;
use vstd::utf8::*;
use crate::bytes::{
    AMPERSAND, COLON, CR, EQUALS, LF, SP, bytes_eq, colon_sp, crlf, push_text, text_eq,
};
use crate::mime::{ascii_lower, lower_bytes};


verus! {

broadcast use vstd::seq::group_seq_axioms;

/// The abstract contents of a map: its entries, in order.
pub type Entries = Seq<(Seq<char>, Seq<char>)>;

/// Whether some entry of `s` has key `k`.
pub open spec fn has_key(s: Entries, k: Seq<char>) -> bool {
    exists|i: int| 0 <= i < s.len() && (#[trigger] s[i]).0 == k
}

/// The position of the entry with key `k` (meaningful when there is one).
pub open spec fn key_pos(s: Entries, k: Seq<char>) -> int {
    choose|i: int| 0 <= i < s.len() && (#[trigger] s[i]).0 == k
}

/// No two entries share a key.
pub open spec fn unique_keys(s: Entries) -> bool {
    forall|i: int, j: int| 0 <= i < s.len() && 0 <= j < s.len() && i != j ==> (#[trigger] s[i]).0
        != (#[trigger] s[j]).0
}

/// `s` with `k` bound to `v`: the entry for `k` is replaced in place, or a new
/// entry is added at the end.
pub open spec fn insert_entry(s: Entries, k: Seq<char>, v: Seq<char>) -> Entries {
    if has_key(s, k) {
        s.update(key_pos(s, k), (k, v))
    } else {
        s.push((k, v))
    }
}

/// The value bound to `k` in `s`, if any.
pub open spec fn lookup(s: Entries, k: Seq<char>) -> Option<Seq<char>> {
    if has_key(s, k) {
        Some(s[key_pos(s, k)].1)
    } else {
        None
    }
}

/// Binding a key keeps the keys unique.
pub proof fn lemma_insert_unique(s: Entries, k: Seq<char>, v: Seq<char>)
    requires
        unique_keys(s),
    ensures
        unique_keys(insert_entry(s, k, v)),
        has_key(insert_entry(s, k, v), k),
        lookup(insert_entry(s, k, v), k) == Some(v),
        forall|k2: Seq<char>| k2 != k ==> lookup(insert_entry(s, k, v), k2) == lookup(s, k2),
{
    let t = insert_entry(s, k, v);
    if has_key(s, k) {
        let p = key_pos(s, k);
        assert(t[p].0 == k);
    } else {
        assert(t[s.len() as int].0 == k);
    }
    assert forall|k2: Seq<char>| k2 != k implies lookup(t, k2) == lookup(s, k2) by {
        if has_key(s, k2) {
            let p = key_pos(s, k2);
            assert(t[p].0 == k2);
        }
        if has_key(t, k2) {
            let q = key_pos(t, k2);
            assert(s[q].0 == k2);
        }
    }
}

/// The value of the first entry of `s` whose key, with ASCII capitals made
/// small, has the UTF-8 bytes `lowered`.
pub open spec fn lookup_ignoring_case(s: Entries, lowered: Seq<u8>) -> Option<Seq<char>>
    decreases s.len(),
{
    if s.len() == 0 {
        None
    } else if ascii_lower(encode_utf8(s[0].0)) == lowered {
        Some(s[0].1)
    } else {
        lookup_ignoring_case(s.drop_first(), lowered)
    }
}

/// The text of one header line, `key: value` followed by CR LF.
pub open spec fn header_line(k: Seq<char>, v: Seq<char>) -> Seq<u8> {
    encode_utf8(k) + colon_sp() + encode_utf8(v) + crlf()
}

/// The header lines of `s`, in order.
pub open spec fn header_block(s: Entries) -> Seq<u8>
    decreases s.len(),
{
    if s.len() == 0 {
        Seq::empty()
    } else {
        header_block(s.drop_last()) + header_line(s.last().0, s.last().1)
    }
}

/// The query text of `s`: `key=value` pairs joined by `&`.
pub open spec fn query_text(s: Entries) -> Seq<u8>
    decreases s.len(),
{
    if s.len() == 0 {
        Seq::empty()
    } else if s.len() == 1 {
        encode_utf8(s[0].0) + seq![EQUALS] + encode_utf8(s[0].1)
    } else {
        query_text(s.drop_last()) + seq![AMPERSAND] + encode_utf8(s.last().0) + seq![EQUALS] + encode_utf8(
            s.last().1,
        )
    }
}

/// A map from text to text whose keys are unique.
pub struct StringMap {
    entries: Vec<(String, String)>,
}

impl View for StringMap {
    type V = Entries;

    closed spec fn view(&self) -> Entries {
        self.entries@.map_values(|e: (String, String)| (e.0@, e.1@))
    }
}

impl StringMap {
    #[verifier::type_invariant]
    closed spec fn keys_unique(self) -> bool {
        unique_keys(self@)
    }

    /// The empty map.
    pub fn new() -> (r: StringMap)
        ensures
            r@ == Seq::<(Seq<char>, Seq<char>)>::empty(),
    {
        let r = StringMap { entries: Vec::new() };
        assert(r@ =~= Seq::<(Seq<char>, Seq<char>)>::empty());
        r
    }

    /// Number of entries.
    pub fn len(&self) -> (r: usize)
        ensures
            r == self@.len(),
    {
        self.entries.len()
    }

    /// Binds `key` to `value`, replacing an earlier binding of `key`.
    pub fn insert(&mut self, key: String, value: String)
        ensures
            final(self)@ == insert_entry(old(self)@, key@, value@),
            lookup(final(self)@, key@) == Some(value@),
            forall|k: Seq<char>| k != key@ ==> #[trigger] lookup(final(self)@, k) == lookup(old(self)@, k),
    {
        proof {
            use_type_invariant(&*self);
        }
        let ghost before = self@;
        let mut entries: Vec<(String, String)> = Vec::new();
        std::mem::swap(&mut entries, &mut self.entries);
        assert(entries@.map_values(|e: (String, String)| (e.0@, e.1@)) == before);
        let mut i: usize = 0;
        while i < entries.len()
            invariant
                i <= entries@.len(),
                entries@.map_values(|e: (String, String)| (e.0@, e.1@)) == before,
                unique_keys(before),
                before == old(self)@,
                forall|j: int| 0 <= j < i ==> (#[trigger] before[j]).0 != key@,
            decreases entries@.len() - i,
        {
            if entries[i].0 == key {
                assert(before[i as int].0 == key@);
                assert(key_pos(before, key@) == i) by {
                    let p = key_pos(before, key@);
                    assert(before[p].0 == key@);
                }
                proof {
                    lemma_insert_unique(before, key@, value@);
                }
                entries.set(i, (key, value));
                assert(entries@.map_values(|e: (String, String)| (e.0@, e.1@)) =~= insert_entry(
                    before,
                    key@,
                    value@,
                ));
                self.entries = entries;
                return;
            }
            i += 1;
        }
        assert(!has_key(before, key@));
        proof {
            lemma_insert_unique(before, key@, value@);
        }
        entries.push((key, value));
        assert(entries@.map_values(|e: (String, String)| (e.0@, e.1@)) =~= insert_entry(
            before,
            key@,
            value@,
        ));
        self.entries = entries;
    }

    /// The value bound to `key`, if any.
    pub fn get(&self, key: &str) -> (r: Option<&String>)
        ensures
            match r {
                Some(v) => lookup(self@, key@) == Some(v@),
                None => lookup(self@, key@) is None,
            },
    {
        proof {
            use_type_invariant(self);
        }
        let mut i: usize = 0;
        while i < self.entries.len()
            invariant
                i <= self@.len(),
                unique_keys(self@),
                forall|j: int| 0 <= j < i ==> (#[trigger] self@[j]).0 != key@,
            decreases self@.len() - i,
        {
            if text_eq(self.entries[i].0.as_str(), key) {
                assert(self@[i as int].0 == key@);
                assert(key_pos(self@, key@) == i) by {
                    let p = key_pos(self@, key@);
                    assert(self@[p].0 == key@);
                }
                return Some(&self.entries[i].1);
            }
            i += 1;
        }
        None
    }

    /// The value of the first entry whose key equals `key` ignoring ASCII
    /// case, if any.
    pub fn get_ignoring_case(&self, key: &str) -> (r: Option<&String>)
        ensures
            match r {
                Some(v) => lookup_ignoring_case(self@, ascii_lower(encode_utf8(key@))) == Some(v@),
                None => lookup_ignoring_case(self@, ascii_lower(encode_utf8(key@))) is None,
            },
    {
        let lowered = lower_bytes(key.as_bytes());
        let ghost whole = self@;
        let mut i: usize = 0;
        assert(whole.subrange(0, whole.len() as int) =~= whole);
        while i < self.entries.len()
            invariant
                i <= whole.len(),
                whole == self@,
                lowered@ == ascii_lower(encode_utf8(key@)),
                lookup_ignoring_case(whole, lowered@) == lookup_ignoring_case(
                    whole.subrange(i as int, whole.len() as int),
                    lowered@,
                ),
            decreases whole.len() - i,
        {
            let ghost rest = whole.subrange(i as int, whole.len() as int);
            assert(rest[0] == whole[i as int]);
            assert(whole[i as int] == (self.entries@[i as int].0@, self.entries@[i as int].1@));
            let k = lower_bytes(self.entries[i].0.as_str().as_bytes());
            if bytes_eq(k.as_slice(), lowered.as_slice()) {
                return Some(&self.entries[i].1);
            }
            assert(rest.drop_first() =~= whole.subrange(i + 1, whole.len() as int));
            i += 1;
        }
        None
    }

    /// A copy of the map.
    pub fn clone(&self) -> (r: StringMap)
        ensures
            r@ == self@,
    {
        proof {
            use_type_invariant(self);
        }
        let mut entries: Vec<(String, String)> = Vec::new();
        let mut i: usize = 0;
        while i < self.entries.len()
            invariant
                i <= self@.len(),
                entries@.map_values(|e: (String, String)| (e.0@, e.1@)) =~= self@.subrange(
                    0,
                    i as int,
                ),
            decreases self@.len() - i,
        {
            let k = self.entries[i].0.clone();
            let v = self.entries[i].1.clone();
            assert(self@[i as int] == (k@, v@));
            let ghost prev = entries@.map_values(|e: (String, String)| (e.0@, e.1@));
            entries.push((k, v));
            assert(entries@.map_values(|e: (String, String)| (e.0@, e.1@)) =~= prev.push(
                (k@, v@),
            ));
            assert(self@.subrange(0, i + 1) =~= self@.subrange(0, i as int).push(self@[i as int]));
            i += 1;
        }
        assert(self@.subrange(0, i as int) =~= self@);
        StringMap { entries }
    }

    /// Appends the header lines of the map to `out`.
    pub fn push_header_lines(&self, out: &mut Vec<u8>)
        ensures
            final(out)@ == old(out)@ + header_block(self@),
    {
        let mut i: usize = 0;
        assert(self@.subrange(0, 0) =~= Seq::<(Seq<char>, Seq<char>)>::empty());
        while i < self.entries.len()
            invariant
                i <= self@.len(),
                out@ == old(out)@ + header_block(self@.subrange(0, i as int)),
            decreases self@.len() - i,
        {
            let ghost prev = out@;
            push_text(out, self.entries[i].0.as_str());
            out.push(COLON);
            out.push(SP);
            push_text(out, self.entries[i].1.as_str());
            out.push(CR);
            out.push(LF);
            assert(self@.subrange(0, i + 1).drop_last() =~= self@.subrange(0, i as int));
            assert(out@ =~= prev + header_line(self@[i as int].0, self@[i as int].1));
            i += 1;
        }
        assert(self@.subrange(0, i as int) =~= self@);
    }

    /// Appends the map as a query string (`key=value` pairs joined by `&`) to
    /// `out`.
    pub fn push_query(&self, out: &mut Vec<u8>)
        ensures
            final(out)@ == old(out)@ + query_text(self@),
    {
        let mut i: usize = 0;
        assert(self@.subrange(0, 0) =~= Seq::<(Seq<char>, Seq<char>)>::empty());
        while i < self.entries.len()
            invariant
                i <= self@.len(),
                out@ == old(out)@ + query_text(self@.subrange(0, i as int)),
            decreases self@.len() - i,
        {
            let ghost prev = out@;
            if i > 0 {
                out.push(AMPERSAND);
            }
            push_text(out, self.entries[i].0.as_str());
            out.push(EQUALS);
            push_text(out, self.entries[i].1.as_str());
            assert(self@.subrange(0, i + 1).drop_last() =~= self@.subrange(0, i as int));
            assert(out@ =~= old(out)@ + query_text(self@.subrange(0, i + 1)));
            i += 1;
        }
        assert(self@.subrange(0, i as int) =~= self@);
    }
}

} // verus!
