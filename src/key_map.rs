//! A map from global-state keys to values, kept as a list of entries with one
//! entry per key.
use vstd::prelude::*;
use crate::keys::{Key, key_id};

verus! {

/// What identifies a key: its kind tag and its address.
pub type KeyId = (u8, Seq<u8>);

/// The map that a list of entries stands for; a later entry for a key
/// replaces an earlier one.
pub open spec fn entries_map<V: View>(s: Seq<(Key, V)>) -> Map<KeyId, V::V>
    decreases s.len(),
{
    if s.len() == 0 {
        Map::empty()
    } else {
        entries_map(s.drop_last()).insert(key_id(s.last().0), s.last().1@)
    }
}

/// No two entries are for the same key.
pub open spec fn ids_unique<V>(s: Seq<(Key, V)>) -> bool {
    forall|i: int, j: int| 0 <= i < j < s.len() ==> key_id(#[trigger] s[i].0) != key_id(#[trigger] s[j].0)
}

pub proof fn lemma_entries_map_has<V: View>(s: Seq<(Key, V)>, i: int)
    requires
        0 <= i < s.len(),
        ids_unique(s),
    ensures
        entries_map(s).contains_key(key_id(s[i].0)),
        entries_map(s)[key_id(s[i].0)] == s[i].1@,
    decreases s.len(),
{
    if i < s.len() - 1 {
        lemma_entries_map_has(s.drop_last(), i);
        assert(key_id(s[i].0) != key_id(s[s.len() - 1].0));
    }
}

pub proof fn lemma_entries_map_index<V: View>(s: Seq<(Key, V)>, id: KeyId) -> (i: int)
    requires
        entries_map(s).contains_key(id),
    ensures
        0 <= i < s.len(),
        key_id(s[i].0) == id,
    decreases s.len(),
{
    if key_id(s.last().0) == id {
        (s.len() - 1) as int
    } else {
        lemma_entries_map_index(s.drop_last(), id)
    }
}

pub proof fn lemma_entries_map_update<V: View>(s: Seq<(Key, V)>, i: int, k: Key, v: V)
    requires
        0 <= i < s.len(),
        ids_unique(s),
        key_id(k) == key_id(s[i].0),
    ensures
        entries_map(s.update(i, (k, v))) == entries_map(s).insert(key_id(k), v@),
    decreases s.len(),
{
    let t = s.update(i, (k, v));
    if i == s.len() - 1 {
        assert(t.drop_last() =~= s.drop_last());
        if entries_map(s.drop_last()).contains_key(key_id(k)) {
            let j = lemma_entries_map_index(s.drop_last(), key_id(k));
            assert(key_id(s[j].0) != key_id(s[i].0));
        }
        assert(entries_map(t) =~= entries_map(s).insert(key_id(k), v@));
    } else {
        assert(t.drop_last() =~= s.drop_last().update(i, (k, v)));
        lemma_entries_map_update(s.drop_last(), i, k, v);
        assert(key_id(s.last().0) != key_id(k));
        assert(entries_map(t) =~= entries_map(s).insert(key_id(k), v@));
    }
}

/// A map from keys to values.
pub struct KeyMap<V> {
    pub entries: Vec<(Key, V)>,
}

impl<V: View> View for KeyMap<V> {
    type V = Map<KeyId, V::V>;

    open spec fn view(&self) -> Map<KeyId, V::V> {
        entries_map(self.entries@)
    }
}

impl<V: View> KeyMap<V> {
    /// One entry per key.
    pub open spec fn wf(&self) -> bool {
        ids_unique(self.entries@)
    }

    /// The empty map.
    pub fn new() -> (r: KeyMap<V>)
        ensures
            r.wf(),
            r@ == Map::<KeyId, V::V>::empty(),
    {
        KeyMap { entries: Vec::new() }
    }

    /// The number of keys in the map.
    pub fn len(&self) -> (r: usize)
        requires
            self.wf(),
        ensures
            r == self.entries@.len(),
            r == self@.dom().len(),
    {
        proof {
            self.lemma_dom_len();
        }
        self.entries.len()
    }

    proof fn lemma_dom_len(&self)
        requires
            self.wf(),
        ensures
            self@.dom().len() == self.entries@.len(),
    {
        let s = self.entries@;
        let ids = Seq::new(s.len(), |i: int| key_id(s[i].0));
        assert forall|id: KeyId| self@.dom().contains(id) <==> ids.to_set().contains(id) by {
            if self@.dom().contains(id) {
                let i = lemma_entries_map_index(s, id);
                assert(ids[i] == id);
            }
            if ids.to_set().contains(id) {
                let i = choose|i: int| 0 <= i < ids.len() && ids[i] == id;
                lemma_entries_map_has(s, i);
            }
        }
        assert(self@.dom() =~= ids.to_set());
        assert(ids.no_duplicates());
        ids.unique_seq_to_set();
    }

    /// The position of the entry for `k`.
    pub fn index_of(&self, k: &Key) -> (r: Option<usize>)
        requires
            self.wf(),
        ensures
            match r {
                Some(i) => i < self.entries@.len() && key_id(self.entries@[i as int].0) == key_id(*k),
                None => !self@.contains_key(key_id(*k)),
            },
    {
        let mut i: usize = 0;
        while i < self.entries.len()
            invariant
                i <= self.entries@.len(),
                forall|j: int| 0 <= j < i ==> key_id(self.entries@[j].0) != key_id(*k),
            decreases self.entries@.len() - i,
        {
            if self.entries[i].0.same_entry(k) {
                return Some(i);
            }
            i = i + 1;
        }
        proof {
            if self@.contains_key(key_id(*k)) {
                let j = lemma_entries_map_index(self.entries@, key_id(*k));
            }
        }
        None
    }

    /// The value for `k`.
    pub fn get(&self, k: &Key) -> (r: Option<&V>)
        requires
            self.wf(),
        ensures
            match r {
                Some(v) => self@.contains_key(key_id(*k)) && self@[key_id(*k)] == v@,
                None => !self@.contains_key(key_id(*k)),
            },
    {
        match self.index_of(k) {
            Some(i) => {
                proof {
                    lemma_entries_map_has(self.entries@, i as int);
                }
                Some(&self.entries[i].1)
            },
            None => None,
        }
    }

    /// Gives `k` the value `v`.
    pub fn insert(&mut self, k: Key, v: V)
        requires
            old(self).wf(),
        ensures
            final(self).wf(),
            final(self)@ == old(self)@.insert(key_id(k), v@),
    {
        match self.index_of(&k) {
            Some(i) => {
                proof {
                    lemma_entries_map_update(self.entries@, i as int, k, v);
                }
                self.entries.set(i, (k, v));
                assert(ids_unique(self.entries@)) by {
                    assert forall|a: int, b: int| 0 <= a < b < self.entries@.len() implies key_id(
                        #[trigger] self.entries@[a].0,
                    ) != key_id(#[trigger] self.entries@[b].0) by {
                        assert(a != i ==> self.entries@[a] == old(self).entries@[a]);
                        assert(b != i ==> self.entries@[b] == old(self).entries@[b]);
                    }
                }
            },
            None => {
                let ghost s = self.entries@;
                self.entries.push((k, v));
                assert(self.entries@.drop_last() =~= s);
                assert(ids_unique(self.entries@)) by {
                    assert forall|a: int, b: int| 0 <= a < b < self.entries@.len() implies key_id(
                        #[trigger] self.entries@[a].0,
                    ) != key_id(#[trigger] self.entries@[b].0) by {
                        if b == s.len() {
                            lemma_entries_map_has(s, a);
                        }
                    }
                }
            },
        }
    }
}

} // verus!
