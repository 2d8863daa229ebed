//! A small map from strings to strings (monitor name to skin codename, or to
//! fit mode), kept as a list of entries with distinct keys.
use vstd::prelude::*;
use crate::text::{str_equal, owned};

verus! {

/// A map from strings to strings; each key occurs in at most one entry.
pub struct StrMap {
    entries: Vec<(String, String)>,
}

/// The keys of a list of entries are pairwise different.
pub open spec fn distinct_keys(es: Seq<(String, String)>) -> bool {
    forall|i: int, j: int| 0 <= i < j < es.len() ==> es[i].0@ != es[j].0@
}

/// Some entry has key `k`.
pub open spec fn has_key(es: Seq<(String, String)>, k: Seq<char>) -> bool {
    exists|i: int| 0 <= i < es.len() && es[i].0@ == k
}

/// The map that a list of entries with distinct keys stands for.
pub open spec fn entries_map(es: Seq<(String, String)>) -> Map<Seq<char>, Seq<char>> {
    Map::new(
        |k: Seq<char>| has_key(es, k),
        |k: Seq<char>| es[choose|i: int| 0 <= i < es.len() && es[i].0@ == k].1@,
    )
}

proof fn lemma_lookup(es: Seq<(String, String)>, i: int)
    requires
        distinct_keys(es),
        0 <= i < es.len(),
    ensures
        entries_map(es).contains_key(es[i].0@),
        entries_map(es)[es[i].0@] == es[i].1@,
{
    let k = es[i].0@;
    assert(has_key(es, k));
    let c = choose|c: int| 0 <= c < es.len() && es[c].0@ == k;
    if c != i {
        if c < i {
            assert(es[c].0@ != es[i].0@);
        } else {
            assert(es[i].0@ != es[c].0@);
        }
    }
}

impl View for StrMap {
    type V = Map<Seq<char>, Seq<char>>;

    closed spec fn view(&self) -> Map<Seq<char>, Seq<char>> {
        entries_map(self.entries@)
    }
}

impl StrMap {
    #[verifier::type_invariant]
    spec fn keys_distinct(&self) -> bool {
        distinct_keys(self.entries@)
    }

    /// The empty map.
    pub fn new() -> (r: StrMap)
        ensures
            r@ == Map::<Seq<char>, Seq<char>>::empty(),
    {
        let r = StrMap { entries: Vec::new() };
        assert(r@ =~= Map::<Seq<char>, Seq<char>>::empty());
        r
    }

    /// The position of the entry with key `k`, if any.
    fn find(&self, k: &str) -> (r: Option<usize>)
        ensures
            r is None ==> !has_key(self.entries@, k@),
            r matches Some(i) ==> i < self.entries@.len() && self.entries@[i as int].0@ == k@,
    {
        let mut i: usize = 0;
        while i < self.entries.len()
            invariant
                i <= self.entries.len(),
                forall|j: int| 0 <= j < i ==> self.entries@[j].0@ != k@,
            decreases self.entries.len() - i,
        {
            if str_equal(self.entries[i].0.as_str(), k) {
                return Some(i);
            }
            i += 1;
        }
        None
    }

    /// The value stored under `k` (`HashMap::get`).
    pub fn get(&self, k: &str) -> (r: Option<&String>)
        ensures
            r is Some <==> self@.contains_key(k@),
            r matches Some(v) ==> v@ == self@[k@],
    {
        proof {
            use_type_invariant(self);
        }
        match self.find(k) {
            Some(i) => {
                proof {
                    lemma_lookup(self.entries@, i as int);
                }
                Some(&self.entries[i].1)
            },
            None => None,
        }
    }

    /// Whether the map holds no entry.
    pub fn is_empty(&self) -> (r: bool)
        ensures
            r <==> self@.dom() == Set::<Seq<char>>::empty(),
    {
        proof {
            if self.entries@.len() > 0 {
                assert(self@.contains_key(self.entries@[0].0@));
            } else {
                assert(self@.dom() =~= Set::<Seq<char>>::empty());
            }
        }
        self.entries.len() == 0
    }

    /// Whether some key maps to `v` (`values().any(|x| x == v)`).
    pub fn has_value(&self, v: &str) -> (r: bool)
        ensures
            r == exists|k: Seq<char>| self@.contains_key(k) && self@[k] == v@,
    {
        proof {
            use_type_invariant(self);
        }
        let mut i: usize = 0;
        while i < self.entries.len()
            invariant
                distinct_keys(self.entries@),
                i <= self.entries.len(),
                forall|j: int| 0 <= j < i ==> self.entries@[j].1@ != v@,
            decreases self.entries.len() - i,
        {
            if str_equal(self.entries[i].1.as_str(), v) {
                proof {
                    lemma_lookup(self.entries@, i as int);
                    assert(self@.contains_key(self.entries@[i as int].0@));
                }
                return true;
            }
            i += 1;
        }
        proof {
            assert forall|k: Seq<char>| self@.contains_key(k) implies self@[k] != v@ by {
                let c = choose|c: int| 0 <= c < self.entries@.len() && self.entries@[c].0@ == k;
                lemma_lookup(self.entries@, c);
            }
        }
        false
    }

    /// Stores `v` under `k`, replacing what was there (`HashMap::insert`).
    pub fn insert(&mut self, k: String, v: String)
        ensures
            final(self)@ == old(self)@.insert(k@, v@),
    {
        proof {
            use_type_invariant(&*self);
        }
        let ghost old_es = self.entries@;
        let found = self.find(k.as_str());
        let mut entries: Vec<(String, String)> = Vec::new();
        std::mem::swap(&mut entries, &mut self.entries);
        match found {
            Some(i) => {
                let ghost kv = k@;
                let ghost vv = v@;
                entries.set(i, (k, v));
                proof {
                    let es = entries@;
                    assert(es == old_es.update(i as int, es[i as int]));
                    assert(distinct_keys(es)) by {
                        assert forall|a: int, b: int| 0 <= a < b < es.len() implies es[a].0@
                            != es[b].0@ by {
                            if a == i {
                                assert(old_es[b].0@ != old_es[a].0@);
                            } else if b == i {
                                assert(old_es[a].0@ != old_es[b].0@);
                            } else {
                                assert(old_es[a].0@ != old_es[b].0@);
                            }
                        }
                    }
                    lemma_lookup(es, i as int);
                    assert forall|x: Seq<char>| #[trigger] entries_map(es).contains_key(x)
                        <==> entries_map(old_es).insert(kv, vv).contains_key(x) by {
                        if has_key(es, x) && x != kv {
                            let c = choose|c: int| 0 <= c < es.len() && es[c].0@ == x;
                            assert(c != i);
                            assert(old_es[c].0@ == x);
                        }
                        if has_key(old_es, x) && x != kv {
                            let c = choose|c: int| 0 <= c < old_es.len() && old_es[c].0@ == x;
                            assert(c != i);
                            assert(es[c].0@ == x);
                        }
                    }
                    assert forall|x: Seq<char>| #[trigger]
                        entries_map(es).contains_key(x) implies entries_map(es)[x]
                        == entries_map(old_es).insert(kv, vv)[x] by {
                        if x != kv {
                            let c = choose|c: int| 0 <= c < es.len() && es[c].0@ == x;
                            assert(c != i);
                            assert(old_es[c] == es[c]);
                            lemma_lookup(es, c);
                            lemma_lookup(old_es, c);
                        }
                    }
                    assert(entries_map(es) =~= entries_map(old_es).insert(kv, vv));
                }
            },
            None => {
                let ghost kv = k@;
                let ghost vv = v@;
                entries.push((k, v));
                proof {
                    let es = entries@;
                    assert(es == old_es.push(es[es.len() - 1]));
                    let n = old_es.len() as int;
                    assert(distinct_keys(es)) by {
                        assert forall|a: int, b: int| 0 <= a < b < es.len() implies es[a].0@
                            != es[b].0@ by {
                            if b == n {
                                assert(old_es[a].0@ != kv);
                            } else {
                                assert(old_es[a].0@ != old_es[b].0@);
                            }
                        }
                    }
                    lemma_lookup(es, n);
                    assert forall|x: Seq<char>| #[trigger] entries_map(es).contains_key(x)
                        <==> entries_map(old_es).insert(kv, vv).contains_key(x) by {
                        if has_key(es, x) && x != kv {
                            let c = choose|c: int| 0 <= c < es.len() && es[c].0@ == x;
                            assert(c != n);
                            assert(old_es[c].0@ == x);
                        }
                        if has_key(old_es, x) {
                            let c = choose|c: int| 0 <= c < old_es.len() && old_es[c].0@ == x;
                            assert(es[c].0@ == x);
                        }
                    }
                    assert forall|x: Seq<char>| #[trigger]
                        entries_map(es).contains_key(x) implies entries_map(es)[x]
                        == entries_map(old_es).insert(kv, vv)[x] by {
                        if x != kv {
                            let c = choose|c: int| 0 <= c < es.len() && es[c].0@ == x;
                            assert(c != n);
                            assert(old_es[c] == es[c]);
                            lemma_lookup(es, c);
                            lemma_lookup(old_es, c);
                        }
                    }
                    assert(entries_map(es) =~= entries_map(old_es).insert(kv, vv));
                }
            },
        }
        self.entries = entries;
    }

    /// The entries, in insertion order (for saving and display).
    pub fn pairs(&self) -> (r: Vec<(String, String)>)
        ensures
            distinct_keys(r@),
            forall|i: int| 0 <= i < r@.len() ==> self@.contains_key(#[trigger] r@[i].0@)
                && self@[r@[i].0@] == r@[i].1@,
            forall|k: Seq<char>| #[trigger] self@.contains_key(k) ==> exists|i: int|
                0 <= i < r@.len() && r@[i].0@ == k,
    {
        proof {
            use_type_invariant(self);
        }
        let mut r: Vec<(String, String)> = Vec::new();
        let mut i: usize = 0;
        while i < self.entries.len()
            invariant
                distinct_keys(self.entries@),
                i <= self.entries.len(),
                r@.len() == i,
                forall|j: int| 0 <= j < i ==> r@[j].0@ == self.entries@[j].0@ && r@[j].1@
                    == self.entries@[j].1@,
            decreases self.entries.len() - i,
        {
            let k = owned(self.entries[i].0.as_str());
            let v = owned(self.entries[i].1.as_str());
            r.push((k, v));
            i += 1;
        }
        proof {
            assert forall|j: int| 0 <= j < r@.len() implies self@.contains_key(#[trigger] r@[j].0@)
                && self@[r@[j].0@] == r@[j].1@ by {
                lemma_lookup(self.entries@, j);
            }
            assert forall|k: Seq<char>| #[trigger] self@.contains_key(k) implies exists|j: int|
                0 <= j < r@.len() && r@[j].0@ == k by {
                let c = choose|c: int| 0 <= c < self.entries@.len() && self.entries@[c].0@ == k;
                assert(r@[c].0@ == k);
            }
        }
        r
    }
}

} // verus!
