//! A map from names to values.
//!
//! Entries are walked in the order in which their names were first inserted.

use crate::names::{lemma_push_distinct, Name};
use crate::text::same_text;
use vstd::prelude::*;

verus! {

/// A map from names to values that holds each name at most once.
#[derive(Debug)]
pub struct NameMap<K: Name, V> {
    entries: Vec<(K, V)>,
}

/// The names of a list of entries, in order.
spec fn entry_names<K: Name, V>(entries: Seq<(K, V)>) -> Seq<Seq<char>> {
    Seq::new(entries.len(), |i: int| entries[i].0@)
}

/// The map that a list of entries stands for.
spec fn entry_map<K: Name, V>(entries: Seq<(K, V)>) -> Map<Seq<char>, V> {
    Map::new(
        |n: Seq<char>| entry_names(entries).contains(n),
        |n: Seq<char>| entries[entry_names(entries).index_of(n)].1,
    )
}

impl<K: Name, V> View for NameMap<K, V> {
    type V = Map<Seq<char>, V>;

    closed spec fn view(&self) -> Map<Seq<char>, V> {
        entry_map(self.entries@)
    }
}

proof fn lemma_entry_map<K: Name, V>(entries: Seq<(K, V)>, i: int)
    requires
        entry_names(entries).no_duplicates(),
        0 <= i < entries.len(),
    ensures
        entry_map(entries).contains_key(entries[i].0@),
        entry_map(entries)[entries[i].0@] == entries[i].1,
        entry_names(entries).index_of(entries[i].0@) == i,
{
    let ns = entry_names(entries);
    assert(ns[i] == entries[i].0@);
    assert(ns.contains(ns[i]));
    let k = ns.index_of(ns[i]);
    assert(0 <= k < ns.len() && ns[k] == ns[i]);
}

proof fn lemma_entry_map_push<K: Name, V>(entries: Seq<(K, V)>, key: K, value: V)
    requires
        entry_names(entries).no_duplicates(),
        !entry_names(entries).contains(key@),
    ensures
        entry_names(entries.push((key, value))) == entry_names(entries).push(key@),
        entry_names(entries.push((key, value))).no_duplicates(),
        entry_map(entries.push((key, value))) == entry_map(entries).insert(key@, value),
{
    let more = entries.push((key, value));
    let ns = entry_names(entries);
    let ms = entry_names(more);
    assert(ms =~= ns.push(key@));
    lemma_push_distinct(ns, key@);
    assert forall|n: Seq<char>| #[trigger] entry_map(more).contains_key(n) <==> entry_map(
        entries,
    ).insert(key@, value).contains_key(n) by {
        if ms.contains(n) {
            let i = choose|i: int| 0 <= i < ms.len() && ms[i] == n;
            if i < ns.len() {
                assert(ns[i] == n);
            }
        }
        if ns.contains(n) {
            let i = choose|i: int| 0 <= i < ns.len() && ns[i] == n;
            assert(ms[i] == n);
        }
        assert(ms[ns.len() as int] == key@);
    }
    assert forall|n: Seq<char>| #[trigger] entry_map(more).contains_key(n) implies entry_map(more)[n]
        == entry_map(entries).insert(key@, value)[n] by {
        let i = choose|i: int| 0 <= i < ms.len() && ms[i] == n;
        lemma_entry_map(more, i);
        if i < ns.len() {
            lemma_entry_map(entries, i);
            assert(ns.contains(ns[i]));
        }
    }
    assert(entry_map(more) =~= entry_map(entries).insert(key@, value));
}

proof fn lemma_entry_map_update<K: Name, V>(entries: Seq<(K, V)>, at: int, key: K, value: V)
    requires
        entry_names(entries).no_duplicates(),
        0 <= at < entries.len(),
        entries[at].0@ == key@,
    ensures
        entry_names(entries.update(at, (key, value))) == entry_names(entries),
        entry_map(entries.update(at, (key, value))) == entry_map(entries).insert(key@, value),
{
    let more = entries.update(at, (key, value));
    let ns = entry_names(entries);
    assert(entry_names(more) =~= ns);
    lemma_entry_map(entries, at);
    assert forall|n: Seq<char>| #[trigger] entry_map(more).contains_key(n) implies entry_map(more)[n]
        == entry_map(entries).insert(key@, value)[n] by {
        let i = choose|i: int| 0 <= i < ns.len() && ns[i] == n;
        lemma_entry_map(more, i);
        lemma_entry_map(entries, i);
        if n == key@ {
            assert(ns[i] == ns[at]);
        }
    }
    assert(entry_map(more) =~= entry_map(entries).insert(key@, value));
}

impl<K: Name, V> NameMap<K, V> {
    #[verifier::type_invariant]
    spec fn distinct(self) -> bool {
        entry_names(self.entries@).no_duplicates()
    }

    /// The names that the map holds, in the order in which it is walked.
    pub closed spec fn order(&self) -> Seq<Seq<char>> {
        entry_names(self.entries@)
    }

    /// The walk comes to every name that the map holds.
    pub proof fn lemma_order(&self)
        ensures
            self.order().to_set() == self@.dom(),
            forall|n: Seq<char>| #[trigger] self@.contains_key(n) <==> self.order().contains(n),
    {
        assert(self.order().to_set() =~= self@.dom());
    }

    /// An empty map.
    pub fn new() -> (map: Self)
        ensures
            map@ == Map::<Seq<char>, V>::empty(),
            map.order() == Seq::<Seq<char>>::empty(),
    {
        let map = NameMap { entries: Vec::new() };
        proof {
            assert(map@ =~= Map::<Seq<char>, V>::empty());
            assert(map.order() =~= Seq::<Seq<char>>::empty());
        }
        map
    }

    /// The number of names that the map holds.
    pub fn len(&self) -> (n: usize)
        ensures
            n == self.order().len(),
            self.order().no_duplicates(),
            self.order().to_set() == self@.dom(),
    {
        proof {
            use_type_invariant(self);
            assert(self.order().to_set() =~= self@.dom());
        }
        self.entries.len()
    }

    /// Whether the map holds no name.
    pub fn is_empty(&self) -> (empty: bool)
        ensures
            empty == (self@ == Map::<Seq<char>, V>::empty()),
    {
        proof {
            if self.entries@.len() == 0 {
                assert(self@ =~= Map::<Seq<char>, V>::empty());
            } else {
                assert(entry_names(self.entries@).contains(entry_names(self.entries@)[0]));
                assert(self@.contains_key(entry_names(self.entries@)[0]));
            }
        }
        self.entries.len() == 0
    }

    /// The name at a position of the walk.
    pub fn key_at(&self, i: usize) -> (key: &K)
        requires
            i < self.order().len(),
        ensures
            key@ == self.order()[i as int],
            self@.contains_key(key@),
    {
        proof {
            use_type_invariant(self);
            lemma_entry_map(self.entries@, i as int);
        }
        &self.entries[i].0
    }

    /// The value at a position of the walk.
    pub fn value_at(&self, i: usize) -> (value: &V)
        requires
            i < self.order().len(),
        ensures
            self@.contains_key(self.order()[i as int]),
            *value == self@[self.order()[i as int]],
    {
        proof {
            use_type_invariant(self);
            lemma_entry_map(self.entries@, i as int);
        }
        &self.entries[i].1
    }

    /// The position of a name in the walk.
    fn position(&self, name: &str) -> (at: Option<usize>)
        ensures
            match at {
                Some(i) => i < self.order().len() && self.order()[i as int] == name@,
                None => !self.order().contains(name@),
            },
    {
        let mut i: usize = 0;
        while i < self.entries.len()
            invariant
                0 <= i <= self.entries@.len(),
                forall|j: int| 0 <= j < i ==> #[trigger] self.order()[j] != name@,
            decreases self.entries@.len() - i,
        {
            if same_text(self.entries[i].0.as_text(), name) {
                return Some(i);
            }
            i += 1;
        }
        None
    }

    /// The value of a name.
    pub fn get(&self, name: &str) -> (value: Option<&V>)
        ensures
            match value {
                Some(v) => self@.contains_key(name@) && *v == self@[name@],
                None => !self@.contains_key(name@),
            },
    {
        match self.position(name) {
            Some(i) => {
                proof {
                    use_type_invariant(self);
                    lemma_entry_map(self.entries@, i as int);
                }
                Some(&self.entries[i].1)
            },
            None => None,
        }
    }

    /// Whether the map holds a name.
    pub fn contains_key(&self, name: &str) -> (held: bool)
        ensures
            held == self@.contains_key(name@),
    {
        self.get(name).is_some()
    }

    /// All entries, in the order of the walk.
    pub fn into_entries(self) -> (entries: Vec<(K, V)>)
        ensures
            entries@.len() == self.order().len(),
            forall|i: int|
                0 <= i < entries@.len() ==> (#[trigger] entries@[i]).0@ == self.order()[i]
                    && self@.contains_key(self.order()[i]) && entries@[i].1
                    == self@[self.order()[i]],
    {
        proof {
            use_type_invariant(&self);
            assert forall|i: int| 0 <= i < self.entries@.len() implies (
            #[trigger] self.entries@[i]).0@ == self.order()[i] && self@.contains_key(
                self.order()[i],
            ) && self.entries@[i].1 == self@[self.order()[i]] by {
                lemma_entry_map(self.entries@, i);
            }
        }
        self.entries
    }

    /// Sets the value of a name. A name that the map does not hold yet comes last in the
    /// walk; one that it holds keeps its place.
    pub fn insert(&mut self, key: K, value: V)
        ensures
            final(self)@ == old(self)@.insert(key@, value),
            old(self)@.contains_key(key@) ==> final(self).order() == old(self).order(),
            !old(self)@.contains_key(key@) ==> final(self).order() == old(self).order().push(key@),
    {
        proof {
            use_type_invariant(&*self);
        }
        let at = self.position(key.as_text());
        let ghost before = self.entries@;
        let mut entries: Vec<(K, V)> = Vec::new();
        std::mem::swap(&mut entries, &mut self.entries);
        match at {
            Some(i) => {
                proof {
                    lemma_entry_map(before, i as int);
                    lemma_entry_map_update(before, i as int, key, value);
                }
                entries.set(i, (key, value));
            },
            None => {
                proof {
                    lemma_entry_map_push(before, key, value);
                }
                entries.push((key, value));
            },
        }
        self.entries = entries;
    }
}

} // verus!
