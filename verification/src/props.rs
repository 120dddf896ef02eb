//! A string-keyed map of properties and keywords.
use vstd::prelude::*;
use crate::text::{eq_at, str_chars};

verus! {

/// The value of the first pair of `ps` whose key is `k`.
pub open spec fn lookup(ps: Seq<(Seq<char>, Seq<char>)>, k: Seq<char>) -> Option<Seq<char>>
    decreases ps.len(),
{
    if ps.len() == 0 {
        None
    } else if ps[0].0 == k {
        Some(ps[0].1)
    } else {
        lookup(ps.drop_first(), k)
    }
}

/// Index of the first pair of `ps` whose key is `k`.
pub open spec fn lookup_index(ps: Seq<(Seq<char>, Seq<char>)>, k: Seq<char>) -> Option<int>
    decreases ps.len(),
{
    if ps.len() == 0 {
        None
    } else if ps[0].0 == k {
        Some(0)
    } else {
        match lookup_index(ps.drop_first(), k) {
            Some(i) => Some(i + 1),
            None => None,
        }
    }
}

pub proof fn lemma_lookup_index(ps: Seq<(Seq<char>, Seq<char>)>, k: Seq<char>)
    ensures
        lookup_index(ps, k) matches Some(i) ==> 0 <= i < ps.len() && ps[i].0 == k && lookup(ps, k) == Some(ps[i].1)
            && forall|j: int| 0 <= j < i ==> (#[trigger] ps[j]).0 != k,
        lookup_index(ps, k) is None ==> lookup(ps, k) is None && forall|j: int| 0 <= j < ps.len() ==> (#[trigger] ps[j]).0 != k,
    decreases ps.len(),
{
    if ps.len() > 0 && ps[0].0 != k {
        lemma_lookup_index(ps.drop_first(), k);
        assert forall|j: int| 1 <= j < ps.len() implies #[trigger] ps[j] == ps.drop_first()[j - 1] by {}
    }
}

/// `lookup` after replacing the value at index `i`, whose key is the first occurrence of `k`.
pub proof fn lemma_lookup_update(ps: Seq<(Seq<char>, Seq<char>)>, k: Seq<char>, i: int, v: Seq<char>, k2: Seq<char>)
    requires
        lookup_index(ps, k) == Some(i),
    ensures
        lookup(ps.update(i, (k, v)), k2) == if k2 == k { Some(v) } else { lookup(ps, k2) },
    decreases ps.len(),
{
    lemma_lookup_index(ps, k);
    if i > 0 {
        assert(ps[0].0 != k);
        assert(lookup_index(ps.drop_first(), k) == Some(i - 1));
        lemma_lookup_update(ps.drop_first(), k, i - 1, v, k2);
        assert(ps.update(i, (k, v)).drop_first() =~= ps.drop_first().update(i - 1, (k, v)));
        assert(ps.update(i, (k, v))[0] == ps[0]);
    } else {
        assert(ps.update(0, (k, v)).drop_first() =~= ps.drop_first());
        assert(ps.update(0, (k, v))[0] == (k, v));
    }
}

/// `lookup` after appending a pair whose key occurs nowhere before.
pub proof fn lemma_lookup_push(ps: Seq<(Seq<char>, Seq<char>)>, k: Seq<char>, v: Seq<char>, k2: Seq<char>)
    requires
        lookup(ps, k) is None,
    ensures
        lookup(ps.push((k, v)), k2) == if k2 == k { Some(v) } else { lookup(ps, k2) },
    decreases ps.len(),
{
    if ps.len() > 0 {
        assert(ps.push((k, v))[0] == ps[0]);
        if ps[0].0 != k2 {
            lemma_lookup_push(ps.drop_first(), k, v, k2);
            assert(ps.push((k, v)).drop_first() =~= ps.drop_first().push((k, v)));
        }
    } else {
        assert(ps.push((k, v)).drop_first() =~= ps);
        assert(ps.push((k, v))[0] == (k, v));
    }
}

/// A map from keys to values; inserting a present key replaces its value.
#[derive(Debug)]
pub struct PropMap {
    entries: Vec<(String, String)>,
}

impl PropMap {
    /// The pairs of the map, in insertion order.
    pub closed spec fn pairs(&self) -> Seq<(Seq<char>, Seq<char>)> {
        self.entries@.map_values(|p: (String, String)| (p.0@, p.1@))
    }

    /// The value of key `k`.
    pub open spec fn get_spec(&self, k: Seq<char>) -> Option<Seq<char>> {
        lookup(self.pairs(), k)
    }

    /// The pairs of the map, in insertion order.
    pub fn pairs_list(&self) -> (r: Vec<(String, String)>)
        ensures
            r@.map_values(|p: (String, String)| (p.0@, p.1@)) == self.pairs(),
    {
        let mut r: Vec<(String, String)> = Vec::new();
        let mut i: usize = 0;
        while i < self.entries.len()
            invariant
                i <= self.entries@.len(),
                r@.map_values(|p: (String, String)| (p.0@, p.1@)) == self.pairs().take(i as int),
            decreases self.entries.len() - i,
        {
            let ghost before = r@;
            let k = self.entries[i].0.clone();
            let v = self.entries[i].1.clone();
            r.push((k, v));
            assert(self.pairs()[i as int] == (self.entries@[i as int].0@, self.entries@[i as int].1@));
            assert(r@.map_values(|p: (String, String)| (p.0@, p.1@)) =~= before.map_values(|p: (String, String)| (p.0@, p.1@)).push((k@, v@)));
            assert(r@.map_values(|p: (String, String)| (p.0@, p.1@)) =~= self.pairs().take(i + 1));
            i += 1;
        }
        assert(self.pairs().take(self.entries@.len() as int) =~= self.pairs());
        r
    }

    /// An empty map.
    pub fn new() -> (m: PropMap)
        ensures
            forall|k: Seq<char>| #[trigger] m.get_spec(k) is None,
    {
        let m = PropMap { entries: Vec::new() };
        assert(m.pairs() =~= Seq::empty());
        m
    }

    /// Sets the value of `key` to `value`.
    pub fn insert(&mut self, key: String, value: String)
        ensures
            forall|k: Seq<char>| #[trigger] final(self).get_spec(k) == if k == key@ { Some(value@) } else { old(self).get_spec(k) },
    {
        let kv = str_chars(key.as_str());
        let ghost ps = self.pairs();
        let mut i: usize = 0;
        while i < self.entries.len()
            invariant
                i <= self.entries@.len(),
                ps == self.pairs(),
                ps == old(self).pairs(),
                kv@ == key@,
                forall|j: int| 0 <= j < i ==> (#[trigger] ps[j]).0 != key@,
            decreases self.entries.len() - i,
        {
            let ek = str_chars(self.entries[i].0.as_str());
            let eks = ek.as_slice();
            assert(eks@.subrange(0, eks@.len() as int) =~= eks@);
            assert(ps[i as int].0 == self.entries@[i as int].0@);
            if eq_at(eks, 0, eks.len(), kv.as_slice()) {
                proof {
                    lemma_lookup_index(ps, key@);
                    if let Some(j) = lookup_index(ps, key@) {
                        assert(j >= i);
                        if j > i {
                            assert(ps[i as int].0 == key@);
                        }
                    }
                    assert(lookup_index(ps, key@) == Some(i as int));
                }
                self.entries.set(i, (key, value));
                proof {
                    assert(self.pairs() =~= ps.update(i as int, (key@, value@)));
                    assert forall|k: Seq<char>| #[trigger] self.get_spec(k) == if k == key@ { Some(value@) } else { old(self).get_spec(k) } by {
                        lemma_lookup_update(ps, key@, i as int, value@, k);
                    }
                }
                return;
            }
            i += 1;
        }
        proof {
            lemma_lookup_index(ps, key@);
            assert(lookup(ps, key@) is None);
            assert(ps == old(self).pairs());
        }
        self.entries.push((key, value));
        proof {
            assert(self.pairs() =~= ps.push((key@, value@)));
            assert forall|k: Seq<char>| #[trigger] self.get_spec(k) == if k == key@ { Some(value@) } else { old(self).get_spec(k) } by {
                lemma_lookup_push(ps, key@, value@, k);
                assert(self.get_spec(k) == lookup(self.pairs(), k));
                assert(old(self).get_spec(k) == lookup(ps, k));
            }
        }
    }

    /// The value of the key with characters `k`.
    pub fn get_chars(&self, k: &[char]) -> (r: Option<&String>)
        ensures
            r matches Some(v) ==> self.get_spec(k@) == Some(v@),
            r is None ==> self.get_spec(k@) is None,
    {
        let ghost ps = self.pairs();
        let mut i: usize = 0;
        while i < self.entries.len()
            invariant
                i <= self.entries@.len(),
                ps == self.pairs(),
                forall|j: int| 0 <= j < i ==> (#[trigger] ps[j]).0 != k@,
            decreases self.entries.len() - i,
        {
            let ek = str_chars(self.entries[i].0.as_str());
            let eks = ek.as_slice();
            assert(eks@.subrange(0, eks@.len() as int) =~= eks@);
            assert(ps[i as int] == (self.entries@[i as int].0@, self.entries@[i as int].1@));
            if eq_at(eks, 0, eks.len(), k) {
                proof {
                    lemma_lookup_index(ps, k@);
                    if let Some(j) = lookup_index(ps, k@) {
                        if j > i {
                            assert(ps[i as int].0 == k@);
                        }
                    }
                }
                return Some(&self.entries[i].1);
            }
            i += 1;
        }
        proof {
            lemma_lookup_index(ps, k@);
        }
        None
    }

    /// The value of `key`.
    pub fn get(&self, key: &str) -> (r: Option<&String>)
        ensures
            r matches Some(v) ==> self.get_spec(key@) == Some(v@),
            r is None ==> self.get_spec(key@) is None,
    {
        let k = str_chars(key);
        self.get_chars(k.as_slice())
    }

    /// Whether `key` has a value.
    pub fn contains_key(&self, key: &str) -> (b: bool)
        ensures
            b == self.get_spec(key@) is Some,
    {
        self.get(key).is_some()
    }
}

} // verus!
