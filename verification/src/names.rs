//! A map from texts to values that remembers the order in which its keys
//! were added.

use vstd::prelude::*;

use crate::text::same;

verus! {

/// A map from texts to values. No key occurs twice; keys keep the order in
/// which they were first inserted.
pub struct NameMap<V> {
    entries: Vec<(String, V)>,
}

/// The texts in a map of names.
pub open spec fn name_texts(m: Map<Seq<char>, String>) -> Map<Seq<char>, Seq<char>> {
    m.map_values(|s: String| s@)
}

/// The keys of a list of entries, in order.
pub open spec fn entry_keys<V>(entries: Seq<(String, V)>) -> Seq<Seq<char>> {
    entries.map_values(|e: (String, V)| e.0@)
}

/// Whether the value of `k` in `entries` is `v`.
spec fn entry_is<V>(entries: Seq<(String, V)>, i: int, k: Seq<char>) -> bool {
    0 <= i < entries.len() && entries[i].0@ == k
}

/// The index of the entry for `k`.
spec fn entry_index<V>(entries: Seq<(String, V)>, k: Seq<char>) -> int {
    choose|i: int| entry_is(entries, i, k)
}

/// The map that `entries` writes out.
spec fn entry_map<V>(entries: Seq<(String, V)>) -> Map<Seq<char>, V> {
    Map::new(
        |k: Seq<char>| exists|i: int| entry_is(entries, i, k),
        |k: Seq<char>| entries[entry_index(entries, k)].1,
    )
}

/// Where keys are distinct, each entry is the one that its key finds.
proof fn lemma_entry_at<V>(entries: Seq<(String, V)>, i: int)
    requires
        entry_keys(entries).no_duplicates(),
        0 <= i < entries.len(),
    ensures
        entry_map(entries).dom().contains(entries[i].0@),
        entry_map(entries)[entries[i].0@] == entries[i].1,
        entry_index(entries, entries[i].0@) == i,
{
    let k: Seq<char> = entries[i].0@;
    assert(entry_is(entries, i, k));
    let j: int = entry_index(entries, k);
    assert(entry_is(entries, j, k));
    assert(entry_keys(entries)[i] == entry_keys(entries)[j]);
}

impl<V> View for NameMap<V> {
    type V = Map<Seq<char>, V>;

    closed spec fn view(&self) -> Map<Seq<char>, V> {
        entry_map(self.entries@)
    }
}

impl<V> NameMap<V> {
    #[verifier::type_invariant]
    spec fn distinct(&self) -> bool {
        entry_keys(self.entries@).no_duplicates()
    }

    /// The keys, in the order in which they were added.
    pub closed spec fn keys(&self) -> Seq<Seq<char>> {
        entry_keys(self.entries@)
    }

    /// The keys are those of the map, each once.
    pub open spec fn listed(&self) -> bool {
        &&& self.keys().no_duplicates()
        &&& forall|k: Seq<char>| #[trigger] self@.dom().contains(k) <==> self.keys().contains(k)
    }

    /// An empty map.
    pub fn new() -> (r: Self)
        ensures
            r@ == Map::<Seq<char>, V>::empty(),
            r.keys() == Seq::<Seq<char>>::empty(),
            r.listed(),
    {
        let r = NameMap { entries: Vec::new() };
        assert(r@ =~= Map::<Seq<char>, V>::empty());
        r
    }

    proof fn lemma_listed(entries: Seq<(String, V)>)
        requires
            entry_keys(entries).no_duplicates(),
        ensures
            forall|k: Seq<char>| #[trigger]
                entry_map(entries).dom().contains(k) <==> entry_keys(entries).contains(k),
    {
        assert forall|k: Seq<char>| #[trigger]
            entry_map(entries).dom().contains(k) <==> entry_keys(entries).contains(k) by {
            if entry_map(entries).dom().contains(k) {
                let i: int = choose|i: int| entry_is(entries, i, k);
                assert(entry_keys(entries)[i] == k);
            }
            if entry_keys(entries).contains(k) {
                let i: int = entry_keys(entries).index_of(k);
                assert(entry_is(entries, i, k));
            }
        }
    }

    /// How many keys there are.
    pub fn len(&self) -> (r: usize)
        ensures
            r == self.keys().len(),
            self.listed(),
    {
        proof {
            use_type_invariant(self);
            Self::lemma_listed(self.entries@);
        }
        self.entries.len()
    }

    /// The key at position `i`.
    pub fn key_at(&self, i: usize) -> (r: &String)
        requires
            i < self.keys().len(),
        ensures
            r@ == self.keys()[i as int],
            self@.dom().contains(r@),
            self.listed(),
    {
        proof {
            use_type_invariant(self);
            Self::lemma_listed(self.entries@);
            lemma_entry_at(self.entries@, i as int);
        }
        &self.entries[i].0
    }

    /// The value of the key at position `i`.
    pub fn value_at(&self, i: usize) -> (r: &V)
        requires
            i < self.keys().len(),
        ensures
            self@.dom().contains(self.keys()[i as int]),
            *r == self@[self.keys()[i as int]],
            self.listed(),
    {
        proof {
            use_type_invariant(self);
            Self::lemma_listed(self.entries@);
            lemma_entry_at(self.entries@, i as int);
        }
        &self.entries[i].1
    }

    /// The position of `k` among the entries, or their number.
    fn find(&self, k: &str) -> (r: usize)
        ensures
            r <= self.entries.len(),
            r < self.entries.len() ==> entry_is(self.entries@, r as int, k@),
            r == self.entries.len() ==> !self@.dom().contains(k@),
            r < self.entries.len() ==> self@.dom().contains(k@) && self@[k@]
                == self.entries@[r as int].1,
    {
        proof {
            use_type_invariant(self);
        }
        let mut i: usize = 0;
        while i < self.entries.len()
            invariant
                i <= self.entries.len(),
                entry_keys(self.entries@).no_duplicates(),
                forall|j: int| 0 <= j < i ==> !entry_is(self.entries@, j, k@),
            decreases self.entries.len() - i,
        {
            if same(self.entries[i].0.as_str(), k) {
                proof {
                    lemma_entry_at(self.entries@, i as int);
                }
                return i;
            }
            i = i + 1;
        }
        i
    }

    /// The value of `k`, if it is a key.
    pub fn get(&self, k: &str) -> (r: Option<&V>)
        ensures
            r == (if self@.dom().contains(k@) {
                Some(&self@[k@])
            } else {
                None
            }),
            self.listed(),
    {
        let i: usize = self.find(k);
        proof {
            use_type_invariant(self);
            Self::lemma_listed(self.entries@);
        }
        if i < self.entries.len() {
            Some(&self.entries[i].1)
        } else {
            None
        }
    }

    /// Whether `k` is a key.
    pub fn contains_key(&self, k: &str) -> (r: bool)
        ensures
            r == self@.dom().contains(k@),
            self.listed(),
    {
        let i: usize = self.find(k);
        proof {
            use_type_invariant(self);
            Self::lemma_listed(self.entries@);
        }
        i < self.entries.len()
    }

    /// Gives `k` the value `v`. A new key is the last one.
    pub fn insert(&mut self, k: String, v: V)
        ensures
            final(self)@ == old(self)@.insert(k@, v),
            old(self)@.dom().contains(k@) ==> final(self).keys() == old(self).keys(),
            !old(self)@.dom().contains(k@) ==> final(self).keys() == old(self).keys().push(k@),
            final(self).listed(),
    {
        let i: usize = self.find(k.as_str());
        proof {
            use_type_invariant(&*self);
        }
        let mut entries: Vec<(String, V)> = Vec::new();
        std::mem::swap(&mut entries, &mut self.entries);
        let ghost before: Seq<(String, V)> = entries@;
        let ghost key: Seq<char> = k@;
        if i < entries.len() {
            entries.set(i, (k, v));
            proof {
                assert(entry_keys(entries@) =~= entry_keys(before));
            }
        } else {
            entries.push((k, v));
            proof {
                assert(entry_keys(entries@) =~= entry_keys(before).push(key));
                assert(!entry_keys(before).contains(key)) by {
                    Self::lemma_listed(before);
                }
            }
        }
        proof {
            assert(entry_keys(entries@).no_duplicates());
            lemma_entry_at(entries@, i as int);
            Self::lemma_listed(entries@);
            Self::lemma_listed(before);
            assert(entry_map(entries@) =~= entry_map(before).insert(key, v)) by {
                assert forall|q: Seq<char>| q != key implies entry_map(entries@).dom().contains(q)
                    == entry_map(before).dom().contains(q) by {
                    if entry_keys(before).contains(q) {
                        let j: int = entry_keys(before).index_of(q);
                        assert(entry_keys(entries@)[j] == q);
                    }
                    if entry_keys(entries@).contains(q) {
                        let j: int = entry_keys(entries@).index_of(q);
                        assert(entry_keys(before)[j] == q);
                    }
                }
                assert forall|q: Seq<char>|
                    q != key && entry_map(before).dom().contains(q) implies entry_map(
                    entries@,
                )[q] == entry_map(before)[q] by {
                    let j: int = entry_keys(before).index_of(q);
                    lemma_entry_at(before, j);
                    assert(entries@[j].0@ == q);
                    lemma_entry_at(entries@, j);
                }
            }
        }
        self.entries = entries;
    }
}

} // verus!
