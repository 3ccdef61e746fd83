//! Values by key, in the order in which the keys came.

use crate::search;
use crate::text::same;
use crate::types::IpAddr;
use vstd::prelude::*;

verus! {

/// What a table can be keyed by: keys are the same where their identities are.
pub trait Key: Sized {
    type Id;

    /// The identity of a key.
    spec fn id(self) -> Self::Id;

    /// Whether two keys are the same.
    fn same_key(&self, other: &Self) -> (b: bool)
        ensures
            b == (self.id() == other.id()),
    ;
}

impl Key for String {
    type Id = Seq<char>;

    open spec fn id(self) -> Seq<char> {
        self@
    }

    fn same_key(&self, other: &String) -> (b: bool) {
        same(self.as_str(), other.as_str())
    }
}

impl Key for u32 {
    type Id = u32;

    open spec fn id(self) -> u32 {
        self
    }

    fn same_key(&self, other: &u32) -> (b: bool) {
        *self == *other
    }
}

impl Key for IpAddr {
    type Id = IpAddr;

    open spec fn id(self) -> IpAddr {
        self
    }

    fn same_key(&self, other: &IpAddr) -> (b: bool) {
        *self == *other
    }
}

impl Key for Option<IpAddr> {
    type Id = Option<IpAddr>;

    open spec fn id(self) -> Option<IpAddr> {
        self
    }

    fn same_key(&self, other: &Option<IpAddr>) -> (b: bool) {
        match (*self, *other) {
            (Some(a), Some(b)) => a == b,
            (None, None) => true,
            _ => false,
        }
    }
}

/// Values by key, in the order in which the keys came.
#[derive(Debug)]
pub struct Table<K, V> {
    pub entries: Vec<(K, V)>,
}

/// The index of the first entry with the given key.
pub open spec fn place<K: Key, V>(entries: Seq<(K, V)>, id: K::Id) -> Option<int> {
    search::first(entries, |e: (K, V)| e.0.id() == id)
}

/// The value of a key.
pub open spec fn lookup<K: Key, V>(entries: Seq<(K, V)>, id: K::Id) -> Option<V> {
    match place(entries, id) {
        Some(i) => Some(entries[i].1),
        None => None,
    }
}

/// The entries after a value has been stored: in place of the value of the same key, or last.
pub open spec fn stored<K: Key, V>(entries: Seq<(K, V)>, key: K, value: V) -> Seq<(K, V)> {
    match place(entries, key.id()) {
        Some(i) => entries.update(i, (entries[i].0, value)),
        None => entries.push((key, value)),
    }
}

impl<K: Key, V> Table<K, V> {
    /// Whether no key occurs twice.
    pub open spec fn wf(&self) -> bool {
        distinct(self.entries@)
    }

    /// A table without entries.
    pub fn new() -> (t: Table<K, V>)
        ensures
            t.wf(),
            t.entries@ == Seq::<(K, V)>::empty(),
    {
        Table { entries: Vec::new() }
    }

    /// The index of the entry with the given key.
    pub fn position(&self, key: &K) -> (r: Option<usize>)
        ensures
            match r {
                Some(i) => place(self.entries@, key.id()) == Some(i as int) && i < self.entries@.len(),
                None => place(self.entries@, key.id()) is None,
            },
    {
        let ghost p = |e: (K, V)| e.0.id() == key.id();
        let mut i: usize = 0;
        while i < self.entries.len()
            invariant
                i <= self.entries@.len(),
                p == (|e: (K, V)| e.0.id() == key.id()),
                forall|j: int| 0 <= j < i ==> !p(#[trigger] self.entries@[j]),
            decreases self.entries@.len() - i,
        {
            if self.entries[i].0.same_key(key) {
                proof {
                    search::lemma_first_is(self.entries@, p, i as int);
                }
                return Some(i);
            }
            i = i + 1;
        }
        proof {
            search::lemma_first_none(self.entries@, p);
        }
        None
    }

    /// The value of a key.
    pub fn get(&self, key: &K) -> (r: Option<&V>)
        ensures
            r == match lookup(self.entries@, key.id()) {
                Some(v) => Some(&v),
                None => None,
            },
    {
        match self.position(key) {
            Some(i) => Some(&self.entries[i].1),
            None => None,
        }
    }

    /// Stores a value in place of that of the same key, or last.
    pub fn insert(&mut self, key: K, value: V)
        ensures
            final(self).entries@ == stored(old(self).entries@, key, value),
            old(self).wf() ==> final(self).wf(),
    {
        let ghost p = |e: (K, V)| e.0.id() == key.id();
        proof {
            search::lemma_first(self.entries@, p);
        }
        match self.position(&key) {
            Some(i) => {
                let entry: &mut (K, V) = &mut self.entries[i];
                entry.1 = value;
            },
            None => {
                self.entries.push((key, value));
            },
        }
    }
}

impl<K: Key, V> Default for Table<K, V> {
    fn default() -> (t: Self)
        ensures
            t.entries@ == Seq::<(K, V)>::empty(),
    {
        Table { entries: Vec::new() }
    }
}

/// Whether no key occurs twice.
pub open spec fn distinct<K: Key, V>(entries: Seq<(K, V)>) -> bool {
    forall|i: int, j: int|
        0 <= i < j < entries.len() ==> (#[trigger] entries[i]).0.id() != (#[trigger] entries[j]).0.id()
}

/// An entry at the end counts where the key is not found before it.
pub proof fn lemma_lookup_push<K: Key, V>(entries: Seq<(K, V)>, e: (K, V), id: K::Id)
    ensures
        lookup(entries.push(e), id) == match lookup(entries, id) {
            Some(v) => Some(v),
            None => if e.0.id() == id {
                Some(e.1)
            } else {
                None
            },
        },
{
    let after = entries.push(e);
    let p = |e: (K, V)| e.0.id() == id;
    search::lemma_first(entries, p);
    match place(entries, id) {
        Some(i) => {
            search::lemma_first_is(after, p, i);
        },
        None => {
            if e.0.id() == id {
                search::lemma_first_is(after, p, entries.len() as int);
            } else {
                search::lemma_first_none(after, p);
            }
        },
    }
}

/// A stored value is found again, and other keys keep theirs.
pub proof fn law_stored<K: Key, V>(entries: Seq<(K, V)>, key: K, value: V, other: K::Id)
    ensures
        lookup(stored(entries, key, value), key.id()) == Some(value),
        other != key.id() ==> lookup(stored(entries, key, value), other) == lookup(entries, other),
{
    let after = stored(entries, key, value);
    let p = |e: (K, V)| e.0.id() == key.id();
    let q = |e: (K, V)| e.0.id() == other;
    search::lemma_first(entries, p);
    search::lemma_first(entries, q);
    match place(entries, key.id()) {
        Some(i) => {
            search::lemma_first_is(after, p, i);
            search::lemma_first_same(entries, q, after, q);
        },
        None => {
            search::lemma_first_is(after, p, entries.len() as int);
            if other != key.id() {
                match place(entries, other) {
                    Some(j) => {
                        search::lemma_first_is(after, q, j);
                    },
                    None => {
                        search::lemma_first_none(after, q);
                    },
                }
            }
        },
    }
}

/// Where no key occurs twice, every entry is found under its own key, and no other key is found.
pub proof fn law_entries_are_found<K: Key, V>(entries: Seq<(K, V)>, i: int, id: K::Id)
    requires
        distinct(entries),
    ensures
        0 <= i < entries.len() ==> lookup(entries, entries[i].0.id()) == Some(entries[i].1),
        (forall|j: int| 0 <= j < entries.len() ==> (#[trigger] entries[j]).0.id() != id) ==> lookup(
            entries,
            id,
        ) is None,
        lookup(entries, id) matches Some(v) ==> exists|j: int|
            0 <= j < entries.len() && (#[trigger] entries[j]).0.id() == id && entries[j].1 == v,
{
    let p = |e: (K, V)| e.0.id() == id;
    search::lemma_first(entries, p);
    if 0 <= i < entries.len() {
        let own = entries[i].0.id();
        let q = |e: (K, V)| e.0.id() == own;
        assert forall|j: int| 0 <= j < i implies !q(#[trigger] entries[j]) by {
            assert(entries[j].0.id() != entries[i].0.id());
        }
        search::lemma_first_is(entries, q, i);
    }
    if forall|j: int| 0 <= j < entries.len() ==> (#[trigger] entries[j]).0.id() != id {
        search::lemma_first_none(entries, p);
    }
}

} // verus!
