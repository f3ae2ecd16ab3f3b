//! A map from hash keys (byte vectors) to values, kept as a vector of
//! entries with pairwise-distinct keys and abstracted as a `Map` from the
//! key's byte sequence to the value's view.

use vstd::prelude::*;
use crate::bytes::{bytes_eq, clone_bytes};

verus! {

/// The entry list read as a map: later entries win (the well-formed lists
/// used here never repeat a key).
pub open spec fn as_map<V: View>(s: Seq<(Vec<u8>, V)>) -> Map<Seq<u8>, V::V>
    decreases s.len(),
{
    if s.len() == 0 {
        Map::empty()
    } else {
        as_map(s.drop_last()).insert(s.last().0@, s.last().1@)
    }
}

/// No two entries share a key.
pub open spec fn distinct_keys<V>(s: Seq<(Vec<u8>, V)>) -> bool {
    forall|i: int, j: int| 0 <= i < j < s.len() ==> (#[trigger] s[i]).0@ != (#[trigger] s[j]).0@
}

/// An entry's key is in the map and maps to that entry's value.
pub proof fn lemma_as_map_index<V: View>(s: Seq<(Vec<u8>, V)>, i: int)
    requires
        distinct_keys(s),
        0 <= i < s.len(),
    ensures
        as_map(s).contains_key(s[i].0@),
        as_map(s)[s[i].0@] == s[i].1@,
    decreases s.len(),
{
    if i < s.len() - 1 {
        assert(distinct_keys(s.drop_last()));
        lemma_as_map_index(s.drop_last(), i);
    }
}

/// A key matching no entry is not in the map.
pub proof fn lemma_as_map_absent<V: View>(s: Seq<(Vec<u8>, V)>, key: Seq<u8>)
    requires
        forall|i: int| 0 <= i < s.len() ==> (#[trigger] s[i]).0@ != key,
    ensures
        !as_map(s).contains_key(key),
    decreases s.len(),
{
    if s.len() > 0 {
        lemma_as_map_absent(s.drop_last(), key);
    }
}

/// With distinct keys, the map has exactly one binding per entry.
pub proof fn lemma_as_map_dom_len<V: View>(s: Seq<(Vec<u8>, V)>)
    requires
        distinct_keys(s),
    ensures
        as_map(s).dom().finite(),
        as_map(s).dom().len() == s.len(),
    decreases s.len(),
{
    if s.len() > 0 {
        assert(distinct_keys(s.drop_last()));
        lemma_as_map_dom_len(s.drop_last());
        lemma_as_map_absent(s.drop_last(), s.last().0@);
    }
}

/// Replacing the entry that holds a key is, at the map level, an insert of
/// that key.
pub proof fn lemma_as_map_update<V: View>(s: Seq<(Vec<u8>, V)>, i: int, entry: (Vec<u8>, V))
    requires
        distinct_keys(s),
        0 <= i < s.len(),
        s[i].0@ == entry.0@,
    ensures
        as_map(s.update(i, entry)) == as_map(s).insert(entry.0@, entry.1@),
    decreases s.len(),
{
    let t = s.update(i, entry);
    if i == s.len() - 1 {
        assert(t.drop_last() =~= s.drop_last());
        assert(as_map(t) == as_map(s.drop_last()).insert(entry.0@, entry.1@));
        assert(as_map(s).insert(entry.0@, entry.1@) =~= as_map(s.drop_last()).insert(
            entry.0@,
            entry.1@,
        ));
    } else {
        assert(distinct_keys(s.drop_last()));
        assert(t.drop_last() =~= s.drop_last().update(i, entry));
        lemma_as_map_update(s.drop_last(), i, entry);
        assert(t.last() == s.last());
        assert(s[i].0@ != s.last().0@);
        assert(as_map(t) == as_map(s.drop_last()).insert(entry.0@, entry.1@).insert(
            s.last().0@,
            s.last().1@,
        ));
        assert(as_map(s.drop_last()).insert(entry.0@, entry.1@).insert(s.last().0@, s.last().1@)
            =~= as_map(s.drop_last()).insert(s.last().0@, s.last().1@).insert(
            entry.0@,
            entry.1@,
        ));
    }
}

/// Entry lists equal view-for-view read as the same map.
pub proof fn lemma_as_map_congruent<V: View>(s1: Seq<(Vec<u8>, V)>, s2: Seq<(Vec<u8>, V)>)
    requires
        s1.len() == s2.len(),
        forall|i: int|
            0 <= i < s1.len() ==> (#[trigger] s1[i]).0@ == (#[trigger] s2[i]).0@ && s1[i].1@
                == s2[i].1@,
    ensures
        as_map(s1) == as_map(s2),
    decreases s1.len(),
{
    if s1.len() > 0 {
        lemma_as_map_congruent(s1.drop_last(), s2.drop_last());
    }
}

/// A type whose values can be copied view-for-view.
pub trait ViewClone: View + Sized {
    /// A fresh value with the same view.
    fn view_clone(&self) -> (r: Self)
        ensures
            r@ == self@,
    ;
}

/// A map from hash keys to values: an entry list with pairwise-distinct
/// keys, read as a `Map` from key bytes to value views.
pub struct ByteKeyMap<V> {
    entries: Vec<(Vec<u8>, V)>,
}

impl<V: View> View for ByteKeyMap<V> {
    type V = Map<Seq<u8>, V::V>;

    closed spec fn view(&self) -> Map<Seq<u8>, V::V> {
        as_map(self.entries@)
    }
}

impl<V: View> ByteKeyMap<V> {
    /// Whether the entry list is a faithful representation: no repeated key.
    pub closed spec fn wf(&self) -> bool {
        distinct_keys(self.entries@)
    }

    /// The empty map.
    pub fn new() -> (m: Self)
        ensures
            m@ == Map::<Seq<u8>, V::V>::empty(),
            m.wf(),
    {
        ByteKeyMap { entries: Vec::new() }
    }

    /// The number of keys.
    pub fn len(&self) -> (n: usize)
        requires
            self.wf(),
        ensures
            n == self@.dom().len(),
            self@.dom().finite(),
    {
        proof {
            lemma_as_map_dom_len(self.entries@);
        }
        self.entries.len()
    }

    /// The position of the entry holding `key`, if one does.
    fn position_of(&self, key: &Vec<u8>) -> (r: Option<usize>)
        ensures
            match r {
                Some(i) => i < self.entries@.len() && self.entries@[i as int].0@ == key@,
                None => forall|j: int|
                    0 <= j < self.entries@.len() ==> (#[trigger] self.entries@[j]).0@ != key@,
            },
    {
        let mut i: usize = 0;
        while i < self.entries.len()
            invariant
                i <= self.entries@.len(),
                forall|j: int| 0 <= j < i ==> (#[trigger] self.entries@[j]).0@ != key@,
            decreases self.entries@.len() - i,
        {
            if bytes_eq(&self.entries[i].0, key) {
                return Some(i);
            }
            i = i + 1;
        }
        None
    }

    /// The value bound to `key`, if the key is present.
    pub fn get(&self, key: &Vec<u8>) -> (r: Option<&V>)
        requires
            self.wf(),
        ensures
            match r {
                Some(v) => self@.contains_key(key@) && v@ == self@[key@],
                None => !self@.contains_key(key@),
            },
    {
        match self.position_of(key) {
            Some(i) => {
                proof {
                    lemma_as_map_index(self.entries@, i as int);
                }
                Some(&self.entries[i].1)
            },
            None => {
                proof {
                    lemma_as_map_absent(self.entries@, key@);
                }
                None
            },
        }
    }

    /// Whether `key` is present.
    pub fn contains_key(&self, key: &Vec<u8>) -> (r: bool)
        requires
            self.wf(),
        ensures
            r == self@.contains_key(key@),
    {
        match self.get(key) {
            Some(_) => true,
            None => false,
        }
    }

    /// Binds `key` to `value`, replacing any existing binding.
    pub fn insert(&mut self, key: Vec<u8>, value: V)
        requires
            old(self).wf(),
        ensures
            final(self).wf(),
            final(self)@ == old(self)@.insert(key@, value@),
    {
        let ghost s0 = self.entries@;
        match self.position_of(&key) {
            Some(i) => {
                proof {
                    lemma_as_map_update(s0, i as int, (key, value));
                }
                self.entries.set(i, (key, value));
                proof {
                    assert forall|p: int, q: int|
                        0 <= p < q < self.entries@.len() implies (#[trigger] self.entries@[p]).0@
                        != (#[trigger] self.entries@[q]).0@ by {
                        assert(s0[p].0@ != s0[q].0@);
                    }
                }
            },
            None => {
                self.entries.push((key, value));
                proof {
                    assert(self.entries@.drop_last() =~= s0);
                    assert forall|p: int, q: int|
                        0 <= p < q < self.entries@.len() implies (#[trigger] self.entries@[p]).0@
                        != (#[trigger] self.entries@[q]).0@ by {
                        if q < self.entries@.len() - 1 {
                            assert(s0[p].0@ != s0[q].0@);
                        }
                    }
                }
            },
        }
    }
}

impl<V: ViewClone> ByteKeyMap<V> {
    /// A fresh map with the same bindings, sharing no storage with this one.
    pub fn duplicate(&self) -> (r: Self)
        requires
            self.wf(),
        ensures
            r.wf(),
            r@ == self@,
    {
        let mut entries: Vec<(Vec<u8>, V)> = Vec::new();
        let mut i: usize = 0;
        while i < self.entries.len()
            invariant
                i <= self.entries@.len(),
                entries@.len() == i,
                forall|k: int|
                    0 <= k < i ==> (#[trigger] entries@[k]).0@ == self.entries@[k].0@
                        && entries@[k].1@ == self.entries@[k].1@,
            decreases self.entries@.len() - i,
        {
            let key = clone_bytes(&self.entries[i].0);
            let value = self.entries[i].1.view_clone();
            entries.push((key, value));
            i = i + 1;
        }
        proof {
            lemma_as_map_congruent(entries@, self.entries@);
        }
        let r = ByteKeyMap { entries };
        proof {
            assert forall|p: int, q: int|
                0 <= p < q < r.entries@.len() implies (#[trigger] r.entries@[p]).0@
                != (#[trigger] r.entries@[q]).0@ by {
                assert(self.entries@[p].0@ != self.entries@[q].0@);
            }
        }
        r
    }
}

} // verus!
