//! The string-to-string option map that a printer queue carries.

use vstd::prelude::*;

use crate::text::text_eq;

verus! {

/// Option names of a queue and their values; a name occurs at most once.
#[derive(Debug)]
pub struct OptionMap {
    entries: Vec<(String, String)>,
}

/// The keys of a list of pairs are pairwise distinct.
pub open spec fn distinct_keys(s: Seq<(String, String)>) -> bool {
    forall|i: int, j: int| 0 <= i < j < s.len() ==> #[trigger] s[i].0@ != #[trigger] s[j].0@
}

/// Some pair of `s` has the key `k`.
pub open spec fn has_key(s: Seq<(String, String)>, k: Seq<char>) -> bool {
    exists|i: int| 0 <= i < s.len() && #[trigger] s[i].0@ == k
}

/// The map that a list of pairs with distinct keys stands for.
pub open spec fn pairs_map(s: Seq<(String, String)>) -> Map<Seq<char>, Seq<char>> {
    Map::new(
        |k: Seq<char>| has_key(s, k),
        |k: Seq<char>| s[choose|i: int| 0 <= i < s.len() && #[trigger] s[i].0@ == k].1@,
    )
}

/// In a list with distinct keys, the map holds each pair's value under its key.
pub proof fn lemma_pairs_map_at(s: Seq<(String, String)>, i: int)
    requires
        distinct_keys(s),
        0 <= i < s.len(),
    ensures
        pairs_map(s).contains_key(s[i].0@),
        pairs_map(s)[s[i].0@] == s[i].1@,
{
    let k = s[i].0@;
    assert(has_key(s, k));
    let j = choose|j: int| 0 <= j < s.len() && #[trigger] s[j].0@ == k;
    if j != i {
        if j < i {
            assert(s[j].0@ != s[i].0@);
        } else {
            assert(s[i].0@ != s[j].0@);
        }
    }
}

impl OptionMap {
    #[verifier::type_invariant]
    spec fn wf(self) -> bool {
        distinct_keys(self.entries@)
    }

    /// The map of option names to values.
    pub closed spec fn map(&self) -> Map<Seq<char>, Seq<char>> {
        pairs_map(self.entries@)
    }

    /// An empty map.
    pub fn new() -> (r: Self)
        ensures
            r.map() == Map::<Seq<char>, Seq<char>>::empty(),
    {
        let r = OptionMap { entries: Vec::new() };
        assert(r.map() =~= Map::<Seq<char>, Seq<char>>::empty());
        r
    }

    /// Number of options; the entries below it, in their stored order, are the options,
    /// each once.
    pub fn len(&self) -> (r: usize)
        ensures
            r == self.map().len(),
            self.map().dom().finite(),
            self.listing().len() == r,
            forall|i: int, j: int|
                0 <= i < j < self.listing().len() ==> #[trigger] self.listing()[i].0
                    != #[trigger] self.listing()[j].0,
            forall|i: int|
                0 <= i < self.listing().len() ==> self.map().contains_key(
                    #[trigger] self.listing()[i].0,
                ) && self.map()[self.listing()[i].0] == self.listing()[i].1,
            forall|k: Seq<char>|
                #[trigger] self.map().contains_key(k) ==> exists|i: int|
                    0 <= i < self.listing().len() && #[trigger] self.listing()[i].0 == k,
    {
        proof {
            use_type_invariant(self);
            self.lemma_dom();
            assert forall|i: int| 0 <= i < self.listing().len() implies self.map().contains_key(
                #[trigger] self.listing()[i].0,
            ) && self.map()[self.listing()[i].0] == self.listing()[i].1 by {
                lemma_pairs_map_at(self.entries@, i);
            }
            assert forall|k: Seq<char>| #[trigger] self.map().contains_key(k) implies exists|i: int|
                0 <= i < self.listing().len() && #[trigger] self.listing()[i].0 == k by {
                let i = choose|i: int| 0 <= i < self.entries@.len() && #[trigger] self.entries@[i].0@ == k;
                assert(self.listing()[i].0 == k);
            }
        }
        self.entries.len()
    }

    proof fn lemma_dom(&self)
        requires
            distinct_keys(self.entries@),
        ensures
            self.map().dom() == self.entries@.map_values(|p: (String, String)| p.0@).to_set(),
            self.map().dom().finite(),
            self.map().len() == self.entries@.len(),
    {
        let keys = self.entries@.map_values(|p: (String, String)| p.0@);
        assert forall|k: Seq<char>| self.map().dom().contains(k) <==> keys.to_set().contains(k) by {
            if self.map().dom().contains(k) {
                let i = choose|i: int| 0 <= i < self.entries@.len() && #[trigger] self.entries@[i].0@ == k;
                assert(keys[i] == k);
            }
            if keys.to_set().contains(k) {
                let i = choose|i: int| 0 <= i < keys.len() && keys[i] == k;
                assert(self.entries@[i].0@ == k);
            }
        }
        assert(self.map().dom() =~= keys.to_set());
        assert forall|i: int, j: int| 0 <= i < keys.len() && 0 <= j < keys.len() && i != j implies keys[i] != keys[j] by {
            if i < j {
                assert(self.entries@[i].0@ != self.entries@[j].0@);
            } else {
                assert(self.entries@[j].0@ != self.entries@[i].0@);
            }
        }
        assert(keys.no_duplicates());
        keys.unique_seq_to_set();
    }

    /// Index of the entry with key `key`, if any.
    fn index_of(&self, key: &str) -> (r: Option<usize>)
        ensures
            match r {
                Some(i) => i < self.entries@.len() && self.entries@[i as int].0@ == key@,
                None => !has_key(self.entries@, key@),
            },
    {
        let mut i: usize = 0;
        while i < self.entries.len()
            invariant
                i <= self.entries@.len(),
                forall|j: int| 0 <= j < i ==> self.entries@[j].0@ != key@,
            decreases self.entries@.len() - i,
        {
            if text_eq(self.entries[i].0.as_str(), key) {
                return Some(i);
            }
            i += 1;
        }
        None
    }

    /// The value of option `key`, if present.
    pub fn get(&self, key: &str) -> (r: Option<&String>)
        ensures
            match r {
                Some(v) => self.map().contains_key(key@) && self.map()[key@] == v@,
                None => !self.map().contains_key(key@),
            },
    {
        proof {
            use_type_invariant(self);
        }
        match self.index_of(key) {
            Some(i) => {
                proof {
                    lemma_pairs_map_at(self.entries@, i as int);
                }
                Some(&self.entries[i].1)
            },
            None => None,
        }
    }

    /// Whether option `key` is present.
    pub fn contains_key(&self, key: &str) -> (r: bool)
        ensures
            r == self.map().contains_key(key@),
    {
        self.get(key).is_some()
    }

    /// Sets option `key` to `value`, replacing an earlier value.
    pub fn insert(&mut self, key: String, value: String)
        ensures
            final(self).map() == old(self).map().insert(key@, value@),
    {
        proof {
            use_type_invariant(&*self);
        }
        let ghost old_entries = self.entries@;
        let ghost k = key@;
        let ghost v = value@;
        match self.index_of(key.as_str()) {
            Some(i) => {
                let mut entries = Vec::new();
                std::mem::swap(&mut entries, &mut self.entries);
                entries.set(i, (key, value));
                let ghost s = entries@;
                assert(s == old_entries.update(i as int, s[i as int]));
                assert(distinct_keys(s)) by {
                    assert forall|a: int, b: int| 0 <= a < b < s.len() implies #[trigger] s[a].0@ != #[trigger] s[b].0@ by {
                        assert(s[a].0@ == old_entries[a].0@);
                        assert(s[b].0@ == old_entries[b].0@);
                    }
                }
                proof {
                    lemma_pairs_map_at(s, i as int);
                    assert forall|kk: Seq<char>| #[trigger] pairs_map(s).contains_key(kk) <==> pairs_map(old_entries).insert(k, v).contains_key(kk) by {
                        if has_key(s, kk) {
                            let j = choose|j: int| 0 <= j < s.len() && #[trigger] s[j].0@ == kk;
                            assert(old_entries[j].0@ == kk);
                        }
                        if has_key(old_entries, kk) {
                            let j = choose|j: int| 0 <= j < old_entries.len() && #[trigger] old_entries[j].0@ == kk;
                            assert(s[j].0@ == kk);
                        }
                    }
                    assert forall|kk: Seq<char>| #[trigger] pairs_map(s).contains_key(kk) implies pairs_map(s)[kk] == pairs_map(old_entries).insert(k, v)[kk] by {
                        let j = choose|j: int| 0 <= j < s.len() && #[trigger] s[j].0@ == kk;
                        lemma_pairs_map_at(s, j);
                        if j != i {
                            lemma_pairs_map_at(old_entries, j);
                        }
                    }
                    assert(pairs_map(s) =~= pairs_map(old_entries).insert(k, v));
                }
                self.entries = entries;
            },
            None => {
                let mut entries = Vec::new();
                std::mem::swap(&mut entries, &mut self.entries);
                entries.push((key, value));
                let ghost s = entries@;
                assert(s.len() == old_entries.len() + 1);
                assert(s[s.len() - 1].0@ == k);
                assert forall|a: int| 0 <= a < old_entries.len() implies s[a] == old_entries[a] by {}
                assert(distinct_keys(s)) by {
                    assert forall|a: int, b: int| 0 <= a < b < s.len() implies #[trigger] s[a].0@ != #[trigger] s[b].0@ by {
                        if b == s.len() - 1 {
                            assert(old_entries[a].0@ != k);
                        }
                    }
                }
                proof {
                    lemma_pairs_map_at(s, s.len() - 1);
                    assert forall|kk: Seq<char>| #[trigger] pairs_map(s).contains_key(kk) <==> pairs_map(old_entries).insert(k, v).contains_key(kk) by {
                        if has_key(s, kk) {
                            let j = choose|j: int| 0 <= j < s.len() && #[trigger] s[j].0@ == kk;
                            if j < old_entries.len() {
                                assert(old_entries[j].0@ == kk);
                            }
                        }
                        if has_key(old_entries, kk) {
                            let j = choose|j: int| 0 <= j < old_entries.len() && #[trigger] old_entries[j].0@ == kk;
                            assert(s[j].0@ == kk);
                        }
                    }
                    assert forall|kk: Seq<char>| #[trigger] pairs_map(s).contains_key(kk) implies pairs_map(s)[kk] == pairs_map(old_entries).insert(k, v)[kk] by {
                        let j = choose|j: int| 0 <= j < s.len() && #[trigger] s[j].0@ == kk;
                        lemma_pairs_map_at(s, j);
                        if j < old_entries.len() {
                            lemma_pairs_map_at(old_entries, j);
                        }
                    }
                    assert(pairs_map(s) =~= pairs_map(old_entries).insert(k, v));
                }
                self.entries = entries;
            },
        }
    }

    /// The entries in their stored order.
    pub closed spec fn listing(&self) -> Seq<(Seq<char>, Seq<char>)> {
        self.entries@.map_values(|p: (String, String)| (p.0@, p.1@))
    }

    /// The name and value of the `i`-th entry.
    pub fn entry(&self, i: usize) -> (r: (&String, &String))
        requires
            i < self.map().len(),
        ensures
            (r.0@, r.1@) == self.listing()[i as int],
            self.map().contains_key(r.0@),
            self.map()[r.0@] == r.1@,
    {
        proof {
            use_type_invariant(self);
            self.lemma_dom();
            lemma_pairs_map_at(self.entries@, i as int);
        }
        (&self.entries[i].0, &self.entries[i].1)
    }
}

impl Clone for OptionMap {
    fn clone(&self) -> (r: Self)
        ensures
            r.map() == self.map(),
    {
        proof {
            use_type_invariant(self);
        }
        let mut entries: Vec<(String, String)> = Vec::new();
        let mut i: usize = 0;
        while i < self.entries.len()
            invariant
                i <= self.entries@.len(),
                entries@.len() == i,
                forall|j: int| 0 <= j < i ==> (#[trigger] entries@[j]).0@ == self.entries@[j].0@
                    && entries@[j].1@ == self.entries@[j].1@,
            decreases self.entries@.len() - i,
        {
            let k = self.entries[i].0.clone();
            let v = self.entries[i].1.clone();
            entries.push((k, v));
            i += 1;
        }
        let r = OptionMap { entries };
        proof {
            let s = r.entries@;
            let t = self.entries@;
            assert forall|kk: Seq<char>| #[trigger] pairs_map(s).contains_key(kk) <==> pairs_map(t).contains_key(kk) by {
                if has_key(s, kk) {
                    let j = choose|j: int| 0 <= j < s.len() && #[trigger] s[j].0@ == kk;
                    assert(t[j].0@ == kk);
                }
                if has_key(t, kk) {
                    let j = choose|j: int| 0 <= j < t.len() && #[trigger] t[j].0@ == kk;
                    assert(s[j].0@ == kk);
                }
            }
            assert forall|kk: Seq<char>| #[trigger] pairs_map(s).contains_key(kk) implies pairs_map(s)[kk] == pairs_map(t)[kk] by {
                let j = choose|j: int| 0 <= j < s.len() && #[trigger] s[j].0@ == kk;
                lemma_pairs_map_at(s, j);
                lemma_pairs_map_at(t, j);
            }
            assert(pairs_map(s) =~= pairs_map(t));
        }
        r
    }
}

} // verus!
