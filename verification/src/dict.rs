//! Small association containers keyed by byte strings: a map where a
//! later insert of the same key overrides an earlier one, and a set.
//!
//! The pipeline's intermediate state lives in these; their views are
//! `Map` and `Set` over the keys' byte sequences.

use vstd::prelude::*;

use crate::text::bytes_eq;

verus! {

/// The map that a run of inserts builds, later entries overriding
/// earlier ones with the same key.
pub open spec fn map_of<V: View>(entries: Seq<(Vec<u8>, V)>) -> Map<Seq<u8>, V::V>
    decreases entries.len(),
{
    if entries.len() == 0 {
        Map::empty()
    } else {
        map_of(entries.drop_last()).insert(entries.last().0@, entries.last().1@)
    }
}

/// A key-value store over byte-string keys; inserting a key again
/// overrides the old value, as a hash map's insert would.
pub struct StrMap<V> {
    pub entries: Vec<(Vec<u8>, V)>,
}

impl<V: View> View for StrMap<V> {
    type V = Map<Seq<u8>, V::V>;

    open spec fn view(&self) -> Map<Seq<u8>, V::V> {
        map_of(self.entries@)
    }
}

/// The value of the last entry with the key decides the lookup.
proof fn lemma_map_of_at<V: View>(entries: Seq<(Vec<u8>, V)>, j: int)
    requires
        0 <= j < entries.len(),
        forall|l: int| j < l < entries.len() ==> (#[trigger] entries[l]).0@ != entries[j].0@,
    ensures
        map_of(entries).contains_key(entries[j].0@),
        map_of(entries)[entries[j].0@] == entries[j].1@,
    decreases entries.len(),
{
    if j == entries.len() - 1 {
    } else {
        assert(entries.drop_last()[j] == entries[j]);
        lemma_map_of_at(entries.drop_last(), j);
    }
}

/// A key no entry carries is absent.
proof fn lemma_map_of_absent<V: View>(entries: Seq<(Vec<u8>, V)>, key: Seq<u8>)
    requires
        forall|l: int| 0 <= l < entries.len() ==> (#[trigger] entries[l]).0@ != key,
    ensures
        !map_of(entries).contains_key(key),
    decreases entries.len(),
{
    if entries.len() > 0 {
        lemma_map_of_absent(entries.drop_last(), key);
    }
}

impl<V: View> StrMap<V> {
    /// An empty map.
    pub fn new() -> (r: StrMap<V>)
        ensures
            r@ == Map::<Seq<u8>, V::V>::empty(),
    {
        let r = StrMap { entries: Vec::new() };
        proof {
            assert(map_of(r.entries@) =~= Map::<Seq<u8>, V::V>::empty());
        }
        r
    }

    /// Binds `key` to `val`, overriding any earlier binding.
    pub fn insert(&mut self, key: Vec<u8>, val: V)
        ensures
            final(self)@ == old(self)@.insert(key@, val@),
    {
        let ghost e0 = self.entries@;
        let ghost kv = key@;
        let ghost vv = val@;
        self.entries.push((key, val));
        proof {
            assert(self.entries@.drop_last() =~= e0);
            assert(self.entries@.last().0@ == kv);
            assert(self.entries@.last().1@ == vv);
        }
    }

    /// Whether `key` is bound.
    pub fn contains(&self, key: &Vec<u8>) -> (r: bool)
        ensures
            r == self@.contains_key(key@),
    {
        self.get(key).is_some()
    }

    /// The value bound to `key`, if any.
    pub fn get(&self, key: &Vec<u8>) -> (r: Option<&V>)
        ensures
            match r {
                Some(v) => self@.contains_key(key@) && v@ == self@[key@],
                None => !self@.contains_key(key@),
            },
    {
        let n = self.entries.len();
        let mut i: usize = n;
        while i > 0
            invariant
                n == self.entries@.len(),
                i <= n,
                forall|l: int| i <= l < n ==> (#[trigger] self.entries@[l]).0@ != key@,
            decreases i,
        {
            i -= 1;
            if bytes_eq(&self.entries[i].0, key) {
                proof {
                    lemma_map_of_at(self.entries@, i as int);
                }
                return Some(&self.entries[i].1);
            }
        }
        proof {
            lemma_map_of_absent(self.entries@, key@);
        }
        None
    }
}

/// The set that a run of inserts builds.
pub open spec fn set_of(items: Seq<Vec<u8>>) -> Set<Seq<u8>>
    decreases items.len(),
{
    if items.len() == 0 {
        Set::empty()
    } else {
        set_of(items.drop_last()).insert(items.last()@)
    }
}

/// A set of byte strings.
pub struct StrSet {
    pub items: Vec<Vec<u8>>,
}

impl View for StrSet {
    type V = Set<Seq<u8>>;

    open spec fn view(&self) -> Set<Seq<u8>> {
        set_of(self.items@)
    }
}

/// Whatever stands in the items is in the set, and nothing else.
proof fn lemma_set_of_members(items: Seq<Vec<u8>>, key: Seq<u8>)
    ensures
        set_of(items).contains(key) <==> exists|l: int|
            0 <= l < items.len() && (#[trigger] items[l])@ == key,
    decreases items.len(),
{
    if items.len() > 0 {
        lemma_set_of_members(items.drop_last(), key);
        if set_of(items).contains(key) {
            if items.last()@ == key {
                assert(items[items.len() - 1]@ == key);
            } else {
                let l = choose|l: int|
                    0 <= l < items.drop_last().len() && (#[trigger] items.drop_last()[l])@ == key;
                assert(items[l]@ == key);
            }
        }
        if exists|l: int| 0 <= l < items.len() && (#[trigger] items[l])@ == key {
            let l = choose|l: int| 0 <= l < items.len() && (#[trigger] items[l])@ == key;
            if l < items.len() - 1 {
                assert(items.drop_last()[l]@ == key);
            }
        }
    }
}

impl StrSet {
    /// An empty set.
    pub fn new() -> (r: StrSet)
        ensures
            r@ == Set::<Seq<u8>>::empty(),
    {
        let r = StrSet { items: Vec::new() };
        proof {
            assert(set_of(r.items@) =~= Set::<Seq<u8>>::empty());
        }
        r
    }

    /// Puts `key` in the set.
    pub fn insert(&mut self, key: Vec<u8>)
        ensures
            final(self)@ == old(self)@.insert(key@),
    {
        let ghost i0 = self.items@;
        let ghost kv = key@;
        self.items.push(key);
        proof {
            assert(self.items@.drop_last() =~= i0);
            assert(self.items@.last()@ == kv);
        }
    }

    /// Whether `key` is in the set.
    pub fn contains(&self, key: &Vec<u8>) -> (r: bool)
        ensures
            r == self@.contains(key@),
    {
        let n = self.items.len();
        let mut i: usize = 0;
        while i < n
            invariant
                n == self.items@.len(),
                i <= n,
                forall|l: int| 0 <= l < i ==> (#[trigger] self.items@[l])@ != key@,
            decreases n - i,
        {
            if bytes_eq(&self.items[i], key) {
                proof {
                    lemma_set_of_members(self.items@, key@);
                }
                return true;
            }
            i += 1;
        }
        proof {
            lemma_set_of_members(self.items@, key@);
        }
        false
    }

    /// Whether the set is empty.
    pub fn is_empty(&self) -> (r: bool)
        ensures
            r == (self@ == Set::<Seq<u8>>::empty()),
    {
        proof {
            if self.items@.len() > 0 {
                assert(self@.contains(self.items@.last()@));
            }
            assert(self.items@.len() == 0 ==> self@ =~= Set::<Seq<u8>>::empty());
        }
        self.items.len() == 0
    }
}

} // verus!
