use vstd::prelude::*;

verus! {

/// `<str as PartialEq>::eq` from std: two string slices are equal exactly
/// when they hold the same characters, in the same order.
pub assume_specification[ <str as PartialEq>::eq ](a: &str, b: &str) -> (res: bool)
    ensures
        res == (a@ == b@),
;

/// The keys of a sequence of entries, in order.
pub open spec fn entry_keys<V>(s: Seq<(String, V)>) -> Seq<Seq<char>> {
    s.map_values(|e: (String, V)| e.0@)
}

/// Some entry of `s` has key `k`.
pub open spec fn has_key<V>(s: Seq<(String, V)>, k: Seq<char>) -> bool {
    exists|i: int| 0 <= i < s.len() && #[trigger] s[i].0@ == k
}

/// The position of an entry with key `k` (meaningful when `has_key(s, k)`).
pub open spec fn index_of<V>(s: Seq<(String, V)>, k: Seq<char>) -> int {
    choose|i: int| 0 <= i < s.len() && #[trigger] s[i].0@ == k
}

/// No two entries of `s` share a key.
pub open spec fn keys_distinct<V>(s: Seq<(String, V)>) -> bool {
    forall|i: int, j: int| 0 <= i < s.len() && 0 <= j < s.len() && i != j ==> #[trigger] s[i].0@ != #[trigger] s[j].0@
}

/// The map that a sequence of entries with distinct keys stands for.
pub open spec fn entries_map<V>(s: Seq<(String, V)>) -> Map<Seq<char>, V> {
    Map::new(|k: Seq<char>| has_key(s, k), |k: Seq<char>| s[index_of(s, k)].1)
}

/// In a sequence with distinct keys, the entry found for a key is the one at its position.
pub proof fn lemma_index_of<V>(s: Seq<(String, V)>, i: int)
    requires
        keys_distinct(s),
        0 <= i < s.len(),
    ensures
        has_key(s, s[i].0@),
        index_of(s, s[i].0@) == i,
        entries_map(s).contains_key(s[i].0@),
        entries_map(s)[s[i].0@] == s[i].1,
{
    assert(has_key(s, s[i].0@));
}

/// A sequence of entries with distinct keys stands for a finite map with as many domains as entries.
pub proof fn lemma_map_len<V>(s: Seq<(String, V)>)
    requires
        keys_distinct(s),
    ensures
        entries_map(s).dom() == entry_keys(s).to_set(),
        entries_map(s).dom().finite(),
        entries_map(s).len() == s.len(),
{
    let ks = entry_keys(s);
    assert(ks.no_duplicates()) by {
        assert forall|i: int, j: int| 0 <= i < ks.len() && 0 <= j < ks.len() && i != j
            implies ks[i] != ks[j] by {
            assert(s[i].0@ != s[j].0@);
        }
    }
    assert(entries_map(s).dom() =~= ks.to_set()) by {
        assert forall|k: Seq<char>| entries_map(s).dom().contains(k) implies ks.to_set().contains(k) by {
            let i = index_of(s, k);
            assert(ks[i] == k);
        }
        assert forall|k: Seq<char>| ks.to_set().contains(k) implies entries_map(s).dom().contains(k) by {
            let i = choose|i: int| 0 <= i < ks.len() && ks[i] == k;
            assert(s[i].0@ == k);
        }
    }
    ks.unique_seq_to_set();
}

/// A map from domain names to values: each domain occurs at most once, and
/// the map is read and written by domain.
#[derive(Debug)]
pub struct DomainMap<V> {
    entries: Vec<(String, V)>,
}

impl<V> View for DomainMap<V> {
    type V = Map<Seq<char>, V>;

    /// The map from each domain to its value.
    closed spec fn view(&self) -> Map<Seq<char>, V> {
        entries_map(self.entries@)
    }
}

impl<V> DomainMap<V> {
    #[verifier::type_invariant]
    spec fn inv(self) -> bool {
        keys_distinct(self.entries@)
    }

    /// The entries in the order in which they are stored.
    pub closed spec fn entry_seq(self) -> Seq<(String, V)> {
        self.entries@
    }

    /// The stored entries, each domain once; the map is what they stand for.
    pub fn entries(&self) -> (r: &Vec<(String, V)>)
        ensures
            r@ == self.entry_seq(),
            keys_distinct(r@),
            self.view() == entries_map(r@),
    {
        proof { use_type_invariant(self); }
        &self.entries
    }

    /// An empty map.
    pub fn new() -> (m: Self)
        ensures
            m.view() == Map::<Seq<char>, V>::empty(),
    {
        let m = DomainMap { entries: Vec::new() };
        assert(m.view() =~= Map::<Seq<char>, V>::empty());
        m
    }

    /// The position of the entry for `key`, if there is one.
    fn find(&self, key: &str) -> (res: Option<usize>)
        ensures
            match res {
                Some(i) => i < self.entries@.len() && self.entries@[i as int].0@ == key@,
                None => !has_key(self.entries@, key@),
            },
    {
        let n = self.entries.len();
        let mut i: usize = 0;
        while i < n
            invariant
                n == self.entries@.len(),
                i <= n,
                forall|j: int| 0 <= j < i ==> self.entries@[j].0@ != key@,
            decreases n - i,
        {
            if self.entries[i].0.as_str().eq(key) {
                return Some(i);
            }
            i = i + 1;
        }
        None
    }

    /// The value stored for `key`, if any.
    pub fn get(&self, key: &str) -> (res: Option<&V>)
        ensures
            match res {
                Some(v) => self.view().contains_key(key@) && *v == self.view()[key@],
                None => !self.view().contains_key(key@),
            },
    {
        proof { use_type_invariant(self); }
        match self.find(key) {
            Some(i) => {
                proof { lemma_index_of(self.entries@, i as int); }
                Some(&self.entries[i].1)
            },
            None => None,
        }
    }

    /// Whether `key` has an entry.
    pub fn contains_key(&self, key: &str) -> (res: bool)
        ensures
            res == self.view().contains_key(key@),
    {
        proof { use_type_invariant(self); }
        match self.find(key) {
            Some(i) => {
                proof { lemma_index_of(self.entries@, i as int); }
                true
            },
            None => false,
        }
    }

    /// The number of domains in the map.
    pub fn len(&self) -> (n: usize)
        ensures
            n == self.view().len(),
            self.view().dom().finite(),
    {
        proof {
            use_type_invariant(self);
            lemma_map_len(self.entries@);
        }
        self.entries.len()
    }

    /// Whether the map holds no domain.
    pub fn is_empty(&self) -> (b: bool)
        ensures
            b == (self.view().len() == 0),
            b == (self.view() == Map::<Seq<char>, V>::empty()),
    {
        proof {
            use_type_invariant(self);
            lemma_map_len(self.entries@);
            if self.entries@.len() > 0 {
                lemma_index_of(self.entries@, 0);
                assert(!(self.view() == Map::<Seq<char>, V>::empty()));
            } else {
                assert(self.view() =~= Map::<Seq<char>, V>::empty());
            }
        }
        self.entries.len() == 0
    }

    /// Stores `value` for `key`, and hands back the value that `key` had before.
    pub fn insert(&mut self, key: String, value: V) -> (res: Option<V>)
        ensures
            final(self).view() == old(self).view().insert(key@, value),
            res == (if old(self).view().contains_key(key@) {
                Some(old(self).view()[key@])
            } else {
                None
            }),
    {
        proof { use_type_invariant(&*self); }
        let ghost before = self.entries@;
        let ghost k = key@;
        let mut entries: Vec<(String, V)> = Vec::new();
        std::mem::swap(&mut entries, &mut self.entries);
        let probe = DomainMap { entries };
        let found = probe.find(key.as_str());
        let mut entries = probe.entries;
        let res = match found {
            Some(i) => {
                proof { lemma_index_of(before, i as int); }
                let (_, old_value) = entries.remove(i);
                proof {
                    let removed = entries@;
                    assert forall|j: int| 0 <= j < removed.len() implies #[trigger] removed[j]
                        == before[if j < i { j } else { j + 1 }] by {}
                    assert forall|j: int| 0 <= j < before.len() && j != i implies
                        #[trigger] before[j] == removed[if j < i { j } else { j - 1 }] by {}
                }
                Some(old_value)
            },
            None => None,
        };
        let ghost mid = entries@;
        assert(keys_distinct(mid) && !has_key(mid, k)
            && (forall|j: int| 0 <= j < mid.len() ==> has_key(before, #[trigger] mid[j].0@)
                && entries_map(before)[mid[j].0@] == mid[j].1)
            && (forall|q: Seq<char>| q != k && #[trigger] has_key(before, q) ==> has_key(mid, q))) by {
            match found {
                Some(i) => {
                    assert forall|a: int, b: int| 0 <= a < mid.len() && 0 <= b < mid.len() && a != b
                        implies #[trigger] mid[a].0@ != #[trigger] mid[b].0@ by {
                        assert(mid[a] == before[if a < i { a } else { a + 1 }]);
                        assert(mid[b] == before[if b < i { b } else { b + 1 }]);
                    }
                    assert forall|j: int| 0 <= j < mid.len() implies #[trigger] mid[j].0@ != k by {
                        assert(mid[j] == before[if j < i { j } else { j + 1 }]);
                    }
                    assert forall|j: int| 0 <= j < mid.len() implies has_key(before, #[trigger] mid[j].0@)
                        && entries_map(before)[mid[j].0@] == mid[j].1 by {
                        let j0 = if j < i { j } else { j + 1 };
                        assert(mid[j] == before[j0]);
                        lemma_index_of(before, j0);
                    }
                    assert forall|q: Seq<char>| q != k && #[trigger] has_key(before, q) implies has_key(mid, q) by {
                        let j = index_of(before, q);
                        assert(j != i);
                        let j1 = if j < i { j } else { j - 1 };
                        assert(before[j] == mid[j1]);
                    }
                },
                None => {
                    assert forall|j: int| 0 <= j < mid.len() implies has_key(before, #[trigger] mid[j].0@)
                        && entries_map(before)[mid[j].0@] == mid[j].1 by {
                        lemma_index_of(before, j);
                    }
                },
            }
        }
        entries.push((key, value));
        let ghost after = entries@;
        assert(keys_distinct(after)) by {
            assert forall|a: int, b: int| 0 <= a < after.len() && 0 <= b < after.len() && a != b
                implies #[trigger] after[a].0@ != #[trigger] after[b].0@ by {
                if a < mid.len() {
                    assert(after[a] == mid[a]);
                }
                if b < mid.len() {
                    assert(after[b] == mid[b]);
                }
            }
        }
        assert(entries_map(after) =~= entries_map(before).insert(k, value)) by {
            lemma_index_of(after, after.len() - 1);
            assert forall|q: Seq<char>| #[trigger] entries_map(after).contains_key(q)
                <==> entries_map(before).insert(k, value).contains_key(q) by {
                if q != k {
                    if has_key(after, q) {
                        let j = index_of(after, q);
                        assert(after[j] == mid[j]);
                    }
                    if has_key(before, q) {
                        let j = index_of(mid, q);
                        assert(after[j] == mid[j]);
                    }
                }
            }
            assert forall|q: Seq<char>| #[trigger] entries_map(after).contains_key(q)
                implies entries_map(after)[q] == entries_map(before).insert(k, value)[q] by {
                if q != k {
                    let j = index_of(after, q);
                    assert(after[j] == mid[j]);
                    lemma_index_of(after, j);
                }
            }
        }
        self.entries = entries;
        res
    }
}

/// What a read gives back of a write: after storing `value` for `key`, the
/// map gives `value` for `key`, and every other domain keeps its entry (or
/// its absence).
pub proof fn law_read_after_write<V>(before: DomainMap<V>, after: DomainMap<V>, key: Seq<char>, value: V, other: Seq<char>)
    requires
        after.view() == before.view().insert(key, value),
    ensures
        after.view().contains_key(key),
        after.view()[key] == value,
        other != key ==> after.view().contains_key(other) == before.view().contains_key(other),
        other != key && before.view().contains_key(other) ==> after.view()[other] == before.view()[other],
{
}

impl<V: Clone> Clone for DomainMap<V> {
    /// A copy with the same domains, each value cloned.
    fn clone(&self) -> (res: Self)
        ensures
            res.view().dom() == self.view().dom(),
            forall|k: Seq<char>| #[trigger] self.view().contains_key(k)
                ==> cloned::<V>(self.view()[k], res.view()[k]),
    {
        proof { use_type_invariant(self); }
        let n = self.entries.len();
        let mut entries: Vec<(String, V)> = Vec::new();
        let mut i: usize = 0;
        while i < n
            invariant
                n == self.entries@.len(),
                i <= n,
                keys_distinct(self.entries@),
                entries@.len() == i,
                forall|j: int| 0 <= j < i ==> #[trigger] entries@[j].0@ == self.entries@[j].0@
                    && cloned::<V>(self.entries@[j].1, entries@[j].1),
            decreases n - i,
        {
            let key = self.entries[i].0.clone();
            let value = self.entries[i].1.clone();
            entries.push((key, value));
            i = i + 1;
        }
        let ghost src = self.entries@;
        let ghost dst = entries@;
        assert(keys_distinct(dst)) by {
            assert forall|a: int, b: int| 0 <= a < dst.len() && 0 <= b < dst.len() && a != b
                implies #[trigger] dst[a].0@ != #[trigger] dst[b].0@ by {
                assert(dst[a].0@ == src[a].0@);
                assert(dst[b].0@ == src[b].0@);
            }
        }
        assert forall|k: Seq<char>| has_key(src, k) <==> has_key(dst, k) by {
            if has_key(src, k) {
                let j = index_of(src, k);
                assert(dst[j].0@ == k);
            }
            if has_key(dst, k) {
                let j = index_of(dst, k);
                assert(src[j].0@ == k);
            }
        }
        assert(entries_map(dst).dom() =~= entries_map(src).dom());
        assert forall|k: Seq<char>| #[trigger] entries_map(src).contains_key(k)
            implies cloned::<V>(entries_map(src)[k], entries_map(dst)[k]) by {
            let j = index_of(src, k);
            lemma_index_of(src, j);
            assert(dst[j].0@ == k);
            lemma_index_of(dst, j);
        }
        DomainMap { entries }
    }
}

} // verus!
