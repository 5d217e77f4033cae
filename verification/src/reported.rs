//! The destinations that an enumeration reports, kept by id.

use vstd::prelude::*;

use crate::text::text_eq;

verus! {

/// The ids of a list of pairs are pairwise distinct.
pub open spec fn distinct_ids<T>(s: Seq<(String, T)>) -> bool {
    forall|i: int, j: int| 0 <= i < j < s.len() ==> #[trigger] s[i].0@ != #[trigger] s[j].0@
}

/// Some pair of `s` has the id `k`.
pub open spec fn has_id<T>(s: Seq<(String, T)>, k: Seq<char>) -> bool {
    exists|i: int| 0 <= i < s.len() && #[trigger] s[i].0@ == k
}

/// The map that a list of pairs with distinct ids stands for.
pub open spec fn ids_map<T>(s: Seq<(String, T)>) -> Map<Seq<char>, T> {
    Map::new(
        |k: Seq<char>| has_id(s, k),
        |k: Seq<char>| s[choose|i: int| 0 <= i < s.len() && #[trigger] s[i].0@ == k].1,
    )
}

/// In a list with distinct ids, the map holds each pair's value under its id.
pub proof fn lemma_ids_map_at<T>(s: Seq<(String, T)>, i: int)
    requires
        distinct_ids(s),
        0 <= i < s.len(),
    ensures
        ids_map(s).contains_key(s[i].0@),
        ids_map(s)[s[i].0@] == s[i].1,
{
    let k = s[i].0@;
    assert(has_id(s, k));
    let j = choose|j: int| 0 <= j < s.len() && #[trigger] s[j].0@ == k;
    if j < i {
        assert(s[j].0@ != s[i].0@);
    } else if j > i {
        assert(s[i].0@ != s[j].0@);
    }
}

/// The destinations reported so far, by id: a later report of an id replaces the earlier
/// one, and a report that an id was removed drops it.
pub struct ReportedDestinations<T> {
    entries: Vec<(String, T)>,
}

impl<T> ReportedDestinations<T> {
    #[verifier::type_invariant]
    spec fn wf(self) -> bool {
        distinct_ids(self.entries@)
    }

    /// The latest report of each id still present.
    pub closed spec fn reports(&self) -> Map<Seq<char>, T> {
        ids_map(self.entries@)
    }

    /// Nothing reported yet.
    pub fn new() -> (r: Self)
        ensures
            r.reports() == Map::<Seq<char>, T>::empty(),
    {
        let r = ReportedDestinations { entries: Vec::new() };
        assert(r.reports() =~= Map::<Seq<char>, T>::empty());
        r
    }

    /// Index of the entry with id `id`, if any.
    fn index_of(&self, id: &str) -> (r: Option<usize>)
        ensures
            match r {
                Some(i) => i < self.entries@.len() && self.entries@[i as int].0@ == id@,
                None => !has_id(self.entries@, id@),
            },
    {
        let mut i: usize = 0;
        while i < self.entries.len()
            invariant
                i <= self.entries@.len(),
                forall|j: int| 0 <= j < i ==> self.entries@[j].0@ != id@,
            decreases self.entries@.len() - i,
        {
            if text_eq(self.entries[i].0.as_str(), id) {
                return Some(i);
            }
            i += 1;
        }
        None
    }

    /// Takes one report of the enumeration: `destination` now stands for `id`, or `id` was
    /// removed.
    pub fn record(&mut self, id: String, removed: bool, destination: T)
        ensures
            final(self).reports() == (if removed {
                old(self).reports().remove(id@)
            } else {
                old(self).reports().insert(id@, destination)
            }),
    {
        proof {
            use_type_invariant(&*self);
        }
        let ghost s = self.entries@;
        let ghost k = id@;
        let found = self.index_of(id.as_str());
        match found {
            Some(j) => {
                if removed {
                    let mut entries = Vec::new();
                    std::mem::swap(&mut entries, &mut self.entries);
                    entries.remove(j);
                    let ghost t = entries@;
                    assert(t == s.remove(j as int));
                    assert(distinct_ids(t)) by {
                        assert forall|a: int, b: int| 0 <= a < b < t.len() implies #[trigger] t[a].0@
                            != #[trigger] t[b].0@ by {
                            let a0 = if a < j { a } else { a + 1 };
                            let b0 = if b < j { b } else { b + 1 };
                            assert(t[a] == s[a0] && t[b] == s[b0]);
                        }
                    }
                    assert(ids_map(t) =~= ids_map(s).remove(k)) by {
                        assert forall|x: Seq<char>| #[trigger] ids_map(t).contains_key(x) <==> ids_map(
                            s,
                        ).remove(k).contains_key(x) by {
                            if has_id(t, x) {
                                let i = choose|i: int| 0 <= i < t.len() && #[trigger] t[i].0@ == x;
                                let i0 = if i < j { i } else { i + 1 };
                                assert(t[i] == s[i0]);
                                assert(has_id(s, x));
                                if i0 < j {
                                    assert(s[i0].0@ != s[j as int].0@);
                                } else {
                                    assert(s[j as int].0@ != s[i0].0@);
                                }
                            }
                            if has_id(s, x) && x != k {
                                let i = choose|i: int| 0 <= i < s.len() && #[trigger] s[i].0@ == x;
                                assert(i != j);
                                let i1 = if i < j { i } else { i - 1 };
                                assert(t[i1] == s[i]);
                            }
                        }
                        assert forall|x: Seq<char>| #[trigger] ids_map(t).contains_key(x) implies ids_map(
                            t,
                        )[x] == ids_map(s)[x] by {
                            let i = choose|i: int| 0 <= i < t.len() && #[trigger] t[i].0@ == x;
                            let i0 = if i < j { i } else { i + 1 };
                            assert(t[i] == s[i0]);
                            lemma_ids_map_at(t, i);
                            lemma_ids_map_at(s, i0);
                        }
                    }
                    self.entries = entries;
                } else {
                    let mut entries = Vec::new();
                    std::mem::swap(&mut entries, &mut self.entries);
                    entries.set(j, (id, destination));
                    let ghost t = entries@;
                    assert(t == s.update(j as int, (id, destination)));
                    assert(distinct_ids(t)) by {
                        assert forall|a: int, b: int| 0 <= a < b < t.len() implies #[trigger] t[a].0@
                            != #[trigger] t[b].0@ by {
                            assert(t[a].0@ == s[a].0@ && t[b].0@ == s[b].0@);
                        }
                    }
                    assert(ids_map(t) =~= ids_map(s).insert(k, destination)) by {
                        assert forall|x: Seq<char>| #[trigger] ids_map(t).contains_key(x) <==> ids_map(
                            s,
                        ).insert(k, destination).contains_key(x) by {
                            if has_id(t, x) {
                                let i = choose|i: int| 0 <= i < t.len() && #[trigger] t[i].0@ == x;
                                assert(s[i].0@ == x);
                            }
                            if has_id(s, x) {
                                let i = choose|i: int| 0 <= i < s.len() && #[trigger] s[i].0@ == x;
                                assert(t[i].0@ == x);
                            }
                            if x == k {
                                assert(t[j as int].0@ == x);
                            }
                        }
                        assert forall|x: Seq<char>| #[trigger] ids_map(t).contains_key(x) implies ids_map(
                            t,
                        )[x] == ids_map(s).insert(k, destination)[x] by {
                            let i = choose|i: int| 0 <= i < t.len() && #[trigger] t[i].0@ == x;
                            lemma_ids_map_at(t, i);
                            if i != j {
                                assert(t[i] == s[i]);
                                lemma_ids_map_at(s, i);
                            }
                        }
                    }
                    self.entries = entries;
                }
            },
            None => {
                if removed {
                    assert(ids_map(s) =~= ids_map(s).remove(k));
                } else {
                    let mut entries = Vec::new();
                    std::mem::swap(&mut entries, &mut self.entries);
                    entries.push((id, destination));
                    let ghost t = entries@;
                    assert(t == s.push((id, destination)));
                    assert(distinct_ids(t)) by {
                        assert forall|a: int, b: int| 0 <= a < b < t.len() implies #[trigger] t[a].0@
                            != #[trigger] t[b].0@ by {
                            assert(t[a] == s[a]);
                            if b < s.len() {
                                assert(t[b] == s[b]);
                            }
                        }
                    }
                    assert(ids_map(t) =~= ids_map(s).insert(k, destination)) by {
                        assert forall|x: Seq<char>| #[trigger] ids_map(t).contains_key(x) <==> ids_map(
                            s,
                        ).insert(k, destination).contains_key(x) by {
                            if has_id(t, x) {
                                let i = choose|i: int| 0 <= i < t.len() && #[trigger] t[i].0@ == x;
                                if i < s.len() {
                                    assert(t[i] == s[i]);
                                }
                            }
                            if has_id(s, x) {
                                let i = choose|i: int| 0 <= i < s.len() && #[trigger] s[i].0@ == x;
                                assert(t[i] == s[i]);
                            }
                            if x == k {
                                assert(t[s.len() as int].0@ == x);
                            }
                        }
                        assert forall|x: Seq<char>| #[trigger] ids_map(t).contains_key(x) implies ids_map(
                            t,
                        )[x] == ids_map(s).insert(k, destination)[x] by {
                            let i = choose|i: int| 0 <= i < t.len() && #[trigger] t[i].0@ == x;
                            lemma_ids_map_at(t, i);
                            if i < s.len() {
                                assert(t[i] == s[i]);
                                lemma_ids_map_at(s, i);
                            }
                        }
                    }
                    self.entries = entries;
                }
            },
        }
    }

    /// The latest report of each id still present, each id once.
    pub fn into_entries(self) -> (r: Vec<(String, T)>)
        ensures
            distinct_ids(r@),
            ids_map(r@) == self.reports(),
    {
        proof {
            use_type_invariant(&self);
        }
        self.entries
    }
}

/// What the reports of one enumeration, in the order they came, leave: each is an id,
/// whether that id was removed, and the destination.
pub open spec fn after_reports<T>(events: Seq<(Seq<char>, bool, T)>) -> Map<Seq<char>, T>
    decreases events.len(),
{
    if events.len() == 0 {
        Map::empty()
    } else {
        let (k, removed, d) = events.last();
        let before = after_reports(events.drop_last());
        if removed {
            before.remove(k)
        } else {
            before.insert(k, d)
        }
    }
}

/// The reports as plain values.
pub open spec fn report_views<T>(events: Seq<(String, bool, T)>) -> Seq<(Seq<char>, bool, T)> {
    events.map_values(|e: (String, bool, T)| (e.0@, e.1, e.2))
}

/// Keeps the latest report of each id that was not removed last, each id once.
pub fn latest_reports<T>(events: Vec<(String, bool, T)>) -> (r: Vec<(String, T)>)
    ensures
        distinct_ids(r@),
        ids_map(r@) == after_reports(report_views(events@)),
{
    let ghost input = events@;
    let mut rest = events;
    let mut reported: ReportedDestinations<T> = ReportedDestinations::new();
    let ghost mut n: int = 0;
    assert(report_views(input.take(0)) =~= Seq::<(Seq<char>, bool, T)>::empty());
    while rest.len() > 0
        invariant
            0 <= n <= input.len(),
            rest@ == input.skip(n),
            reported.reports() == after_reports(report_views(input.take(n))),
        decreases rest@.len(),
    {
        let (id, removed, destination) = rest.remove(0);
        assert(input[n] == (id, removed, destination));
        assert(rest@ == input.skip(n + 1));
        assert(report_views(input.take(n + 1)).drop_last() =~= report_views(input.take(n)));
        assert(report_views(input.take(n + 1)).last() == (id@, removed, destination));
        reported.record(id, removed, destination);
        proof {
            n = n + 1;
        }
    }
    assert(input.take(n) =~= input);
    reported.into_entries()
}

} // verus!
