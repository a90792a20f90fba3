//! An insertion-ordered map from strings to strings.
//!
//! Headers, query parameters and route parameters are kept in a
//! [`StringMap`]: each key occurs at most once, inserting an existing key
//! replaces its value in place, and a new key goes to the end.

use vstd::prelude::*;

use crate::text::str_eq;

verus! {

/// The entries of a map, as (key, value) pairs of character sequences.
pub type Entries = Seq<(Seq<char>, Seq<char>)>;

/// The views of a list of (key, value) string pairs.
pub open spec fn entry_views(e: Seq<(String, String)>) -> Entries {
    e.map_values(|p: (String, String)| (p.0@, p.1@))
}

/// No key occurs twice.
pub open spec fn distinct_keys(e: Entries) -> bool {
    forall|i: int, j: int| 0 <= i < j < e.len() ==> e[i].0 != e[j].0
}

/// Entry `i` has key `k`.
pub open spec fn has_key_at(e: Entries, k: Seq<char>, i: int) -> bool {
    0 <= i < e.len() && e[i].0 == k
}

/// The position of key `k`, if it occurs.
pub open spec fn key_index(e: Entries, k: Seq<char>) -> Option<int> {
    if exists|i: int| has_key_at(e, k, i) {
        Some(choose|i: int| has_key_at(e, k, i))
    } else {
        None
    }
}

/// The value stored under `k`, if any.
pub open spec fn lookup(e: Entries, k: Seq<char>) -> Option<Seq<char>> {
    match key_index(e, k) {
        Some(i) => Some(e[i].1),
        None => None,
    }
}

/// The entries after inserting `v` under `k`: an existing entry for `k` is
/// replaced in place, otherwise the pair is appended.
pub open spec fn inserted(e: Entries, k: Seq<char>, v: Seq<char>) -> Entries {
    match key_index(e, k) {
        Some(i) => e.update(i, (k, v)),
        None => e.push((k, v)),
    }
}

/// The entries read as a map.
pub open spec fn as_map(e: Entries) -> Map<Seq<char>, Seq<char>> {
    Map::new(|k: Seq<char>| key_index(e, k) is Some, |k: Seq<char>| e[key_index(e, k)->0].1)
}

/// With distinct keys, the position of a key is the one entry that has it.
pub proof fn lemma_key_index(e: Entries, k: Seq<char>, i: int)
    requires
        distinct_keys(e),
        has_key_at(e, k, i),
    ensures
        key_index(e, k) == Some(i),
{
    let j = choose|j: int| has_key_at(e, k, j);
    assert(has_key_at(e, k, j));
    if j < i {
        assert(e[j].0 != e[i].0);
    } else if i < j {
        assert(e[i].0 != e[j].0);
    }
}

/// Inserting keeps keys distinct, and a lookup afterwards sees the new value
/// under `k` and the old value under every other key.
pub proof fn lemma_inserted(e: Entries, k: Seq<char>, v: Seq<char>)
    requires
        distinct_keys(e),
    ensures
        distinct_keys(inserted(e, k, v)),
        lookup(inserted(e, k, v), k) == Some(v),
        forall|k2: Seq<char>| k2 != k ==> lookup(inserted(e, k, v), k2) == lookup(e, k2),
        as_map(inserted(e, k, v)) == as_map(e).insert(k, v),
{
    let e2 = inserted(e, k, v);
    match key_index(e, k) {
        Some(i) => {
            assert(has_key_at(e, k, i));
            assert(e2.len() == e.len());
            assert(forall|j: int| 0 <= j < e.len() ==> e2[j].0 == e[j].0);
            assert(distinct_keys(e2));
            lemma_key_index(e2, k, i);
            assert forall|k2: Seq<char>| k2 != k implies lookup(e2, k2) == lookup(e, k2) by {
                match key_index(e, k2) {
                    Some(j) => {
                        assert(has_key_at(e, k2, j));
                        assert(has_key_at(e2, k2, j));
                        lemma_key_index(e2, k2, j);
                    },
                    None => {
                        if exists|j: int| has_key_at(e2, k2, j) {
                            let j = choose|j: int| has_key_at(e2, k2, j);
                            assert(has_key_at(e, k2, j));
                        }
                    },
                }
            }
        },
        None => {
            assert forall|j: int| 0 <= j < e.len() implies e[j].0 != k by {
                assert(!has_key_at(e, k, j));
            }
            assert(distinct_keys(e2));
            lemma_key_index(e2, k, e.len() as int);
            assert forall|k2: Seq<char>| k2 != k implies lookup(e2, k2) == lookup(e, k2) by {
                match key_index(e, k2) {
                    Some(j) => {
                        assert(has_key_at(e, k2, j));
                        assert(has_key_at(e2, k2, j));
                        lemma_key_index(e2, k2, j);
                    },
                    None => {
                        if exists|j: int| has_key_at(e2, k2, j) {
                            let j = choose|j: int| has_key_at(e2, k2, j);
                            assert(has_key_at(e, k2, j));
                        }
                    },
                }
            }
        },
    }
    assert forall|k2: Seq<char>| #[trigger] as_map(e2).contains_key(k2) == as_map(e).insert(
        k,
        v,
    ).contains_key(k2) && (as_map(e2).contains_key(k2) ==> as_map(e2)[k2] == as_map(e).insert(
        k,
        v,
    )[k2]) by {
        if k2 != k {
            assert(lookup(e2, k2) == lookup(e, k2));
        }
    }
    assert(as_map(e2) =~= as_map(e).insert(k, v));
}

/// A map from strings to strings that remembers the order in which keys were
/// first inserted.
#[derive(Debug)]
pub struct StringMap {
    entries: Vec<(String, String)>,
}

impl View for StringMap {
    type V = Map<Seq<char>, Seq<char>>;

    open spec fn view(&self) -> Map<Seq<char>, Seq<char>> {
        as_map(self.entries())
    }
}

impl StringMap {
    /// The entries in insertion order.
    pub closed spec fn entries(&self) -> Entries {
        entry_views(self.entries@)
    }

    #[verifier::type_invariant]
    spec fn keys_are_distinct(&self) -> bool {
        distinct_keys(self.entries())
    }

    /// An empty map.
    pub fn new() -> (r: StringMap)
        ensures
            r.entries() == Seq::<(Seq<char>, Seq<char>)>::empty(),
            r@ == Map::<Seq<char>, Seq<char>>::empty(),
    {
        let r = StringMap { entries: Vec::new() };
        assert(r.entries() =~= Seq::<(Seq<char>, Seq<char>)>::empty());
        assert(r@ =~= Map::<Seq<char>, Seq<char>>::empty());
        r
    }

    /// The number of entries. (Keys never repeat.)
    pub fn len(&self) -> (r: usize)
        ensures
            r == self.entries().len(),
            distinct_keys(self.entries()),
    {
        proof {
            use_type_invariant(self);
        }
        self.entries.len()
    }

    /// The key of entry `i`.
    pub fn key_at(&self, i: usize) -> (r: &str)
        requires
            i < self.entries().len(),
        ensures
            r@ == self.entries()[i as int].0,
    {
        self.entries[i].0.as_str()
    }

    /// The value of entry `i`.
    pub fn value_at(&self, i: usize) -> (r: &str)
        requires
            i < self.entries().len(),
        ensures
            r@ == self.entries()[i as int].1,
    {
        self.entries[i].1.as_str()
    }

    /// The position of `key`, if present.
    fn position(&self, key: &str) -> (r: Option<usize>)
        ensures
            match r {
                Some(i) => key_index(self.entries(), key@) == Some(i as int),
                None => key_index(self.entries(), key@) is None,
            },
    {
        proof {
            use_type_invariant(self);
        }
        let n = self.entries.len();
        let mut i: usize = 0;
        while i < n
            invariant
                i <= n,
                n == self.entries().len(),
                distinct_keys(self.entries()),
                forall|j: int| 0 <= j < i ==> self.entries()[j].0 != key@,
            decreases n - i,
        {
            if str_eq(self.entries[i].0.as_str(), key) {
                proof {
                    lemma_key_index(self.entries(), key@, i as int);
                }
                return Some(i);
            }
            i = i + 1;
        }
        None
    }

    /// The value stored under `key`.
    pub fn get(&self, key: &str) -> (r: Option<&str>)
        ensures
            match r {
                Some(v) => lookup(self.entries(), key@) == Some(v@),
                None => lookup(self.entries(), key@) is None,
            },
            r is Some <==> self@.contains_key(key@),
            r is Some ==> r->0@ == self@[key@],
    {
        match self.position(key) {
            Some(i) => Some(self.entries[i].1.as_str()),
            None => None,
        }
    }

    /// Store `value` under `key`, replacing any earlier value.
    pub fn insert(&mut self, key: String, value: String)
        ensures
            final(self).entries() == inserted(old(self).entries(), key@, value@),
            final(self)@ == old(self)@.insert(key@, value@),
    {
        proof {
            use_type_invariant(&*self);
            lemma_inserted(self.entries(), key@, value@);
        }
        let ghost k = key@;
        let ghost v = value@;
        let pos = self.position(key.as_str());
        let mut es: Vec<(String, String)> = Vec::new();
        std::mem::swap(&mut es, &mut self.entries);
        match pos {
            Some(i) => {
                es.set(i, (key, value));
            },
            None => {
                es.push((key, value));
            },
        }
        assert(entry_views(es@) =~= inserted(old(self).entries(), k, v));
        self.entries = es;
    }
}

} // verus!
