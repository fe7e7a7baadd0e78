//! A map from string keys to values, kept as a vector of pairs with
//! pairwise distinct keys.
use vstd::prelude::*;

use crate::text::{
    compare_str, lemma_seq_lt_irreflexive, lemma_seq_lt_total, lemma_seq_lt_transitive, seq_lt,
    str_eq, strictly_sorted, Order,
};

verus! {

/// The keys of `entries`, in order.
pub open spec fn entry_keys<V>(entries: Seq<(String, V)>) -> Seq<Seq<char>> {
    entries.map_values(|e: (String, V)| e.0@)
}

/// Some position of key `k` in `entries`.
pub open spec fn position_of_key<V>(entries: Seq<(String, V)>, k: Seq<char>) -> int {
    choose|j: int| 0 <= j < entries.len() && entries[j].0@ == k
}

/// The values of `entries` by key (keys are unique).
pub open spec fn entries_map<V: View>(entries: Seq<(String, V)>) -> Map<Seq<char>, V::V> {
    Map::new(
        |k: Seq<char>| exists|j: int| 0 <= j < entries.len() && entries[j].0@ == k,
        |k: Seq<char>| entries[position_of_key(entries, k)].1@,
    )
}

/// A strictly increasing sequence has no repeated element.
pub proof fn lemma_sorted_no_duplicates(s: Seq<Seq<char>>)
    requires
        strictly_sorted(s),
    ensures
        s.no_duplicates(),
{
    assert forall|i: int, j: int| 0 <= i < s.len() && 0 <= j < s.len() && i != j implies s[i]
        != s[j] by {
        if i < j {
            lemma_seq_lt_irreflexive(s[i]);
        } else {
            lemma_seq_lt_irreflexive(s[j]);
        }
    }
}

/// Values by string key, kept in ascending key order.
#[derive(Debug)]
pub struct StrMap<V> {
    entries: Vec<(String, V)>,
}

impl<V: View> View for StrMap<V> {
    type V = Map<Seq<char>, V::V>;

    closed spec fn view(&self) -> Map<Seq<char>, V::V> {
        entries_map(self.entries@)
    }
}

proof fn lemma_entries_map_at<V: View>(entries: Seq<(String, V)>, j: int)
    requires
        0 <= j < entries.len(),
        entry_keys(entries).no_duplicates(),
    ensures
        entries_map(entries).contains_key(entries[j].0@),
        entries_map(entries)[entries[j].0@] == entries[j].1@,
{
    let k = entries[j].0@;
    assert(entries_map(entries).contains_key(k));
    let c = position_of_key(entries, k);
    assert(entries_map(entries)[k] == entries[c].1@);
    assert(entry_keys(entries)[c] == entries[c].0@);
    assert(entry_keys(entries)[j] == entries[j].0@);
}

impl<V> StrMap<V> {
    #[verifier::type_invariant]
    closed spec fn keys_ascending(self) -> bool {
        &&& strictly_sorted(entry_keys(self.entries@))
        &&& entry_keys(self.entries@).no_duplicates()
    }
}

impl<V: View> StrMap<V> {
    /// The empty map.
    pub fn new() -> (r: Self)
        ensures
            r@ == Map::<Seq<char>, V::V>::empty(),
    {
        let r = StrMap { entries: Vec::new() };
        assert(r@ =~= Map::<Seq<char>, V::V>::empty());
        r
    }

    fn find(&self, key: &str) -> (r: Option<usize>)
        ensures
            match r {
                Some(j) => j < self.entries@.len() && self.entries@[j as int].0@ == key@,
                None => !self@.contains_key(key@),
            },
    {
        let mut j: usize = 0;
        while j < self.entries.len()
            invariant
                j <= self.entries@.len(),
                forall|i: int| 0 <= i < j ==> self.entries@[i].0@ != key@,
            decreases self.entries.len() - j,
        {
            if str_eq(self.entries[j].0.as_str(), key) {
                return Some(j);
            }
            j = j + 1;
        }
        None
    }

    /// The value stored under `key`.
    pub fn get(&self, key: &str) -> (r: Option<&V>)
        ensures
            match r {
                Some(v) => self@.contains_key(key@) && self@[key@] == v@,
                None => !self@.contains_key(key@),
            },
    {
        proof {
            use_type_invariant(self);
        }
        match self.find(key) {
            Some(j) => {
                proof {
                    lemma_entries_map_at(self.entries@, j as int);
                }
                Some(&self.entries[j].1)
            },
            None => None,
        }
    }

    /// The keys, each once.
    pub fn keys(&self) -> (r: Vec<String>)
        ensures
            r@.map_values(|k: String| k@).no_duplicates(),
            strictly_sorted(r@.map_values(|k: String| k@)),
            forall|k: Seq<char>| #[trigger] self@.contains_key(k) <==> r@.map_values(
                |s: String| s@,
            ).contains(k),
    {
        proof {
            use_type_invariant(self);
        }
        let mut r: Vec<String> = Vec::new();
        let mut i: usize = 0;
        while i < self.entries.len()
            invariant
                i <= self.entries@.len(),
                r@.len() == i,
                forall|j: int| 0 <= j < i ==> #[trigger] r@[j] == self.entries@[j].0,
            decreases self.entries.len() - i,
        {
            r.push(self.entries[i].0.clone());
            i = i + 1;
        }
        proof {
            let rv = r@.map_values(|s: String| s@);
            assert(rv =~= entry_keys(self.entries@));
            assert forall|k: Seq<char>| #[trigger] self@.contains_key(k) <==> rv.contains(k) by {
                if rv.contains(k) {
                    let j = choose|j: int| 0 <= j < rv.len() && rv[j] == k;
                    assert(self.entries@[j].0@ == k);
                }
                if self@.contains_key(k) {
                    let j = choose|j: int| 0 <= j < self.entries@.len() && self.entries@[j].0@ == k;
                    assert(rv[j] == k);
                }
            }
        }
        r
    }

    /// Stores `value` under `key`, replacing what was there.
    pub fn insert(&mut self, key: String, value: V)
        ensures
            final(self)@ == old(self)@.insert(key@, value@),
    {
        proof {
            use_type_invariant(&*self);
        }
        let ghost old_entries = self.entries@;
        let ghost ok = entry_keys(old_entries);
        let ghost k = key@;
        let ghost pv = value@;
        let mut p: usize = 0;
        loop
            invariant
                p <= self.entries.len(),
                self.entries@ == old_entries,
                ok == entry_keys(old_entries),
                k == key@,
                forall|y: int| 0 <= y < p ==> seq_lt(ok[y], k),
            ensures
                p <= self.entries.len(),
                forall|y: int| 0 <= y < p ==> seq_lt(ok[y], k),
                p < self.entries.len() ==> !seq_lt(ok[p as int], k),
            decreases self.entries.len() - p,
        {
            if p == self.entries.len() {
                break;
            }
            assert(ok[p as int] == self.entries@[p as int].0@);
            if compare_str(self.entries[p].0.as_str(), key.as_str()) != Order::Less {
                break;
            }
            p = p + 1;
        }
        let replace = p < self.entries.len() && str_eq(self.entries[p].0.as_str(), key.as_str());
        proof {
            if p < ok.len() {
                assert(ok[p as int] == old_entries[p as int].0@);
            }
        }
        let mut entries = Vec::new();
        std::mem::swap(&mut entries, &mut self.entries);
        if replace {
            entries.set(p, (key, value));
            proof {
                let j = p as int;
                assert(entry_keys(entries@) =~= ok);
                assert(entries_map(entries@) =~= entries_map(old_entries).insert(k, pv)) by {
                    assert forall|x: Seq<char>| #[trigger] entries_map(entries@).contains_key(x)
                        <==> entries_map(old_entries).insert(k, pv).contains_key(x) by {
                        if entries_map(old_entries).contains_key(x) {
                            let c = choose|c: int|
                                0 <= c < old_entries.len() && old_entries[c].0@ == x;
                            assert(entries@[c].0@ == x);
                        }
                        if entries_map(entries@).contains_key(x) {
                            let c = choose|c: int| 0 <= c < entries@.len() && entries@[c].0@ == x;
                            assert(old_entries[c].0@ == x);
                        }
                        assert(entries@[j].0@ == k);
                    }
                    assert forall|x: Seq<char>| #[trigger] entries_map(entries@).contains_key(x)
                        implies entries_map(entries@)[x] == entries_map(old_entries).insert(k, pv)[x] by {
                        let c = choose|c: int| 0 <= c < entries@.len() && entries@[c].0@ == x;
                        if x != k {
                            lemma_entries_map_at(entries@, c);
                            assert(c != j);
                            assert(entries@[c] == old_entries[c]);
                            lemma_entries_map_at(old_entries, c);
                        } else {
                            lemma_entries_map_at(entries@, j);
                            assert(entries@[j].1@ == pv);
                        }
                    }
                }
            }
        } else {
            proof {
                if p < ok.len() {
                    lemma_seq_lt_total(ok[p as int], k);
                    assert(seq_lt(k, ok[p as int]));
                }
                assert forall|c: int| 0 <= c < ok.len() implies ok[c] != k by {
                    if c < p {
                        lemma_seq_lt_irreflexive(k);
                    } else {
                        if c > p {
                            lemma_seq_lt_transitive(k, ok[p as int], ok[c]);
                        }
                        lemma_seq_lt_irreflexive(k);
                    }
                }
            }
            entries.insert(p, (key, value));
            proof {
                let pp = p as int;
                let nk = entry_keys(entries@);
                assert forall|y: int| 0 <= y <= old_entries.len() implies #[trigger] entries@[y]
                    == if y < pp {
                    old_entries[y]
                } else if y == pp {
                    entries@[pp]
                } else {
                    old_entries[y - 1]
                } by {
                    old_entries.insert_ensures(pp, entries@[pp]);
                    if y > pp {
                        assert(old_entries.insert(pp, entries@[pp])[(y - 1) + 1] == old_entries[y
                            - 1]);
                    }
                }
                assert(entries@[pp].0@ == k);
                assert forall|y: int, z: int| 0 <= y < z < nk.len() implies seq_lt(nk[y], nk[z]) by {
                    assert(nk[y] == entries@[y].0@);
                    assert(nk[z] == entries@[z].0@);
                    if y < pp {
                        assert(nk[y] == ok[y]);
                    }
                    if y > pp {
                        assert(nk[y] == ok[y - 1]);
                    }
                    if z < pp {
                        assert(nk[z] == ok[z]);
                    }
                    if z > pp {
                        assert(nk[z] == ok[z - 1]);
                        if z - 1 > pp {
                            lemma_seq_lt_transitive(k, ok[pp], ok[z - 1]);
                        }
                    }
                    if y < pp && z > pp {
                        lemma_seq_lt_transitive(ok[y], k, ok[z - 1]);
                    }
                }
                lemma_sorted_no_duplicates(nk);
                assert(entries_map(entries@) =~= entries_map(old_entries).insert(k, pv)) by {
                    assert forall|x: Seq<char>| #[trigger] entries_map(entries@).contains_key(x)
                        <==> entries_map(old_entries).insert(k, pv).contains_key(x) by {
                        if entries_map(old_entries).contains_key(x) {
                            let c = choose|c: int|
                                0 <= c < old_entries.len() && old_entries[c].0@ == x;
                            if c < pp {
                                assert(entries@[c].0@ == x);
                            } else {
                                assert(entries@[c + 1].0@ == x);
                            }
                        }
                        if entries_map(entries@).contains_key(x) {
                            let c = choose|c: int| 0 <= c < entries@.len() && entries@[c].0@ == x;
                            if c < pp {
                                assert(old_entries[c].0@ == x);
                            } else if c > pp {
                                assert(old_entries[c - 1].0@ == x);
                            }
                        }
                    }
                    assert forall|x: Seq<char>| #[trigger] entries_map(entries@).contains_key(x)
                        implies entries_map(entries@)[x] == entries_map(old_entries).insert(k, pv)[x] by {
                        let c = choose|c: int| 0 <= c < entries@.len() && entries@[c].0@ == x;
                        lemma_entries_map_at(entries@, c);
                        if c < pp {
                            assert(entries@[c] == old_entries[c]);
                            assert(nk[c] != nk[pp]);
                            lemma_entries_map_at(old_entries, c);
                        } else if c > pp {
                            assert(entries@[c] == old_entries[c - 1]);
                            assert(nk[c] != nk[pp]);
                            lemma_entries_map_at(old_entries, c - 1);
                        } else {
                            assert(entries@[pp].1@ == pv);
                        }
                    }
                }
            }
        }
        self.entries = entries;
    }
}

} // verus!
