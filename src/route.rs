//! Tables keyed by request method and exact path.

use vstd::prelude::*;
use crate::bytes::text_eq;
use crate::message::Response;
use crate::method::Method;

verus! {

broadcast use vstd::seq::group_seq_axioms;

/// The key of a route: a method and an exact path.
pub type RouteKey = (Method, Seq<char>);

/// The key of the stored entry `e`.
pub open spec fn key_of<T>(e: (Method, String, T)) -> RouteKey {
    (e.0, e.1@)
}

/// A table from (method, path) to values, with at most one value per key.
pub struct RouteTable<T> {
    entries: Vec<(Method, String, T)>,
}

impl<T> View for RouteTable<T> {
    type V = Map<RouteKey, T>;

    closed spec fn view(&self) -> Map<RouteKey, T> {
        Map::new(
            |k: RouteKey| exists|i: int| 0 <= i < self.entries@.len() && key_of(#[trigger] self.entries@[i]) == k,
            |k: RouteKey|
                self.entries@[choose|i: int|
                    0 <= i < self.entries@.len() && key_of(#[trigger] self.entries@[i]) == k].2,
        )
    }
}

impl<T> RouteTable<T> {
    #[verifier::type_invariant]
    closed spec fn keys_unique(self) -> bool {
        forall|i: int, j: int|
            0 <= i < self.entries@.len() && 0 <= j < self.entries@.len() && i != j ==> key_of(
                #[trigger] self.entries@[i],
            ) != key_of(#[trigger] self.entries@[j])
    }

    /// The value stored at position `i` is the table's value for its key.
    proof fn lemma_entry(self, i: int)
        requires
            self.keys_unique(),
            0 <= i < self.entries@.len(),
        ensures
            self@.contains_key(key_of(self.entries@[i])),
            self@[key_of(self.entries@[i])] == self.entries@[i].2,
    {
        let k = key_of(self.entries@[i]);
        let j = choose|j: int| 0 <= j < self.entries@.len() && key_of(#[trigger] self.entries@[j]) == k;
        assert(key_of(self.entries@[j]) == k);
    }

    /// The empty table.
    pub fn new() -> (r: RouteTable<T>)
        ensures
            r@ == Map::<RouteKey, T>::empty(),
    {
        let r = RouteTable { entries: Vec::new() };
        assert(r@ =~= Map::<RouteKey, T>::empty());
        r
    }

    /// Binds `(method, path)` to `value`; an earlier binding of the same key
    /// is replaced, so the last one written wins.
    pub fn insert(&mut self, method: Method, path: String, value: T)
        ensures
            final(self)@ == old(self)@.insert((method, path@), value),
    {
        proof {
            use_type_invariant(&*self);
        }
        let ghost k = (method, path@);
        let mut entries: Vec<(Method, String, T)> = Vec::new();
        std::mem::swap(&mut entries, &mut self.entries);
        let ghost old_t = RouteTable { entries };
        assert(old_t@ == old(self)@);
        let mut i: usize = 0;
        while i < entries.len()
            invariant
                i <= entries@.len(),
                old_t.entries == entries,
                old_t.keys_unique(),
                old_t@ == old(self)@,
                k == (method, path@),
                forall|j: int| 0 <= j < i ==> key_of(#[trigger] entries@[j]) != k,
            decreases entries@.len() - i,
        {
            if entries[i].0 == method && text_eq(entries[i].1.as_str(), path.as_str()) {
                let ghost at = i as int;
                assert(key_of(entries@[at]) == k);
                entries.set(i, (method, path, value));
                let ghost new_t = RouteTable { entries };
                assert(new_t.keys_unique()) by {
                    assert forall|a: int, b: int|
                        0 <= a < entries@.len() && 0 <= b < entries@.len() && a != b implies key_of(
                            #[trigger] entries@[a],
                        ) != key_of(#[trigger] entries@[b]) by {
                        assert(key_of(entries@[a]) == key_of(old_t.entries@[a]));
                        assert(key_of(entries@[b]) == key_of(old_t.entries@[b]));
                    }
                }
                assert(new_t@ =~= old_t@.insert(k, value)) by {
                    assert forall|k2: RouteKey| #[trigger] new_t@.contains_key(k2) == old_t@.insert(
                        k,
                        value,
                    ).contains_key(k2) by {
                        if old_t@.contains_key(k2) {
                            let j = choose|j: int|
                                0 <= j < old_t.entries@.len() && key_of(
                                    #[trigger] old_t.entries@[j],
                                ) == k2;
                            assert(key_of(entries@[j]) == k2);
                        }
                        if new_t@.contains_key(k2) {
                            let j = choose|j: int|
                                0 <= j < entries@.len() && key_of(#[trigger] entries@[j]) == k2;
                            assert(key_of(old_t.entries@[j]) == k2);
                        }
                    }
                    assert forall|k2: RouteKey| #[trigger] new_t@.contains_key(k2) implies new_t@[k2]
                        == old_t@.insert(k, value)[k2] by {
                        let j = choose|j: int|
                            0 <= j < entries@.len() && key_of(#[trigger] entries@[j]) == k2;
                        assert(key_of(old_t.entries@[j]) == k2);
                        new_t.lemma_entry(j);
                        if k2 != k {
                            old_t.lemma_entry(j);
                        }
                    }
                }
                self.entries = entries;
                return;
            }
            i += 1;
        }
        assert(!old_t@.contains_key(k)) by {
            if old_t@.contains_key(k) {
                let j = choose|j: int|
                    0 <= j < old_t.entries@.len() && key_of(#[trigger] old_t.entries@[j]) == k;
                assert(key_of(entries@[j]) == k);
            }
        }
        let ghost n = entries@.len() as int;
        entries.push((method, path, value));
        let ghost new_t = RouteTable { entries };
        assert(key_of(entries@[n]) == k);
        assert(new_t.keys_unique()) by {
            assert forall|a: int, b: int|
                0 <= a < entries@.len() && 0 <= b < entries@.len() && a != b implies key_of(
                    #[trigger] entries@[a],
                ) != key_of(#[trigger] entries@[b]) by {
                if a < n && b < n {
                    assert(key_of(entries@[a]) == key_of(old_t.entries@[a]));
                    assert(key_of(entries@[b]) == key_of(old_t.entries@[b]));
                } else if a < n {
                    assert(key_of(entries@[a]) == key_of(old_t.entries@[a]));
                } else if b < n {
                    assert(key_of(entries@[b]) == key_of(old_t.entries@[b]));
                }
            }
        }
        assert(new_t@ =~= old_t@.insert(k, value)) by {
            assert forall|k2: RouteKey| #[trigger] new_t@.contains_key(k2) == old_t@.insert(
                k,
                value,
            ).contains_key(k2) by {
                if old_t@.contains_key(k2) {
                    let j = choose|j: int|
                        0 <= j < old_t.entries@.len() && key_of(#[trigger] old_t.entries@[j]) == k2;
                    assert(key_of(entries@[j]) == k2);
                }
                if new_t@.contains_key(k2) && k2 != k {
                    let j = choose|j: int|
                        0 <= j < entries@.len() && key_of(#[trigger] entries@[j]) == k2;
                    assert(j != n);
                    assert(key_of(old_t.entries@[j]) == k2);
                }
            }
            assert forall|k2: RouteKey| #[trigger] new_t@.contains_key(k2) implies new_t@[k2]
                == old_t@.insert(k, value)[k2] by {
                let j = choose|j: int|
                    0 <= j < entries@.len() && key_of(#[trigger] entries@[j]) == k2;
                new_t.lemma_entry(j);
                if k2 != k {
                    assert(j != n);
                    assert(key_of(old_t.entries@[j]) == k2);
                    old_t.lemma_entry(j);
                }
            }
        }
        self.entries = entries;
    }

    /// The value bound to `(method, path)`, if any. Only the exact path
    /// matches.
    pub fn get(&self, method: Method, path: &str) -> (r: Option<&T>)
        ensures
            match r {
                Some(v) => self@.contains_key((method, path@)) && *v == self@[(method, path@)],
                None => !self@.contains_key((method, path@)),
            },
    {
        proof {
            use_type_invariant(self);
        }
        let ghost k = (method, path@);
        let mut i: usize = 0;
        while i < self.entries.len()
            invariant
                i <= self.entries@.len(),
                self.keys_unique(),
                k == (method, path@),
                forall|j: int| 0 <= j < i ==> key_of(#[trigger] self.entries@[j]) != k,
            decreases self.entries@.len() - i,
        {
            if self.entries[i].0 == method && text_eq(self.entries[i].1.as_str(), path) {
                proof {
                    self.lemma_entry(i as int);
                }
                return Some(&self.entries[i].2);
            }
            i += 1;
        }
        assert(!self@.contains_key(k)) by {
            if self@.contains_key(k) {
                let j = choose|j: int|
                    0 <= j < self.entries@.len() && key_of(#[trigger] self.entries@[j]) == k;
                assert(key_of(self.entries@[j]) == k);
            }
        }
        None
    }
}

impl RouteTable<Response> {
    /// A copy of the table.
    pub fn clone(&self) -> (r: RouteTable<Response>)
        ensures
            r@.dom() == self@.dom(),
            forall|k: RouteKey| #[trigger] r@.contains_key(k) ==> r@[k]@ == self@[k]@,
    {
        proof {
            use_type_invariant(self);
        }
        let mut entries: Vec<(Method, String, Response)> = Vec::new();
        let mut i: usize = 0;
        while i < self.entries.len()
            invariant
                i <= self.entries@.len(),
                entries@.len() == i,
                forall|j: int|
                    0 <= j < i ==> key_of(#[trigger] entries@[j]) == key_of(self.entries@[j])
                        && entries@[j].2@ == self.entries@[j].2@,
            decreases self.entries@.len() - i,
        {
            let e = &self.entries[i];
            entries.push((e.0, e.1.clone(), e.2.clone()));
            i += 1;
        }
        let r = RouteTable { entries };
        assert(r.keys_unique()) by {
            assert forall|a: int, b: int|
                0 <= a < entries@.len() && 0 <= b < entries@.len() && a != b implies key_of(
                    #[trigger] entries@[a],
                ) != key_of(#[trigger] entries@[b]) by {
                assert(key_of(self.entries@[a]) != key_of(self.entries@[b]));
            }
        }
        assert(r@.dom() =~= self@.dom()) by {
            assert forall|k: RouteKey| r@.contains_key(k) == self@.contains_key(k) by {
                if r@.contains_key(k) {
                    let j = choose|j: int|
                        0 <= j < entries@.len() && key_of(#[trigger] entries@[j]) == k;
                    assert(key_of(self.entries@[j]) == k);
                }
                if self@.contains_key(k) {
                    let j = choose|j: int|
                        0 <= j < self.entries@.len() && key_of(#[trigger] self.entries@[j]) == k;
                    assert(key_of(entries@[j]) == k);
                }
            }
        }
        assert forall|k: RouteKey| #[trigger] r@.contains_key(k) implies r@[k]@ == self@[k]@ by {
            let j = choose|j: int| 0 <= j < entries@.len() && key_of(#[trigger] entries@[j]) == k;
            assert(key_of(self.entries@[j]) == k);
            r.lemma_entry(j);
            self.lemma_entry(j);
        }
        r
    }
}

} // verus!
