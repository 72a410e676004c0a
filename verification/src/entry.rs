//! The entry cursors: a two-variant handle over a key's place in the map,
//! enabling inspect-or-insert without a second lookup.
//!
//! A cursor holds the key's slot position (occupied) or the key itself
//! (vacant), and is handed back to the map for each access. It speaks for the
//! map it was produced from: mutating the map through anything else discards
//! the cursor's validity.

use vstd::prelude::*;

use crate::key::HashKey;
use crate::HashMap;

verus! {

/// A cursor at the slot of a pair stored in the map.
pub struct OccupiedEntry<K: HashKey> {
    bucket: usize,
    index: usize,
    key: Ghost<K::V>,
}

impl<K: HashKey> OccupiedEntry<K> {
    /// The abstract value of the key this cursor stands at.
    pub closed spec fn key_view(&self) -> K::V {
        self.key@
    }

    /// Whether the cursor points at a live pair of `m` with its key.
    pub closed spec fn valid<V>(&self, m: &HashMap<K, V>) -> bool {
        &&& m.slot_live(self.bucket as int, self.index as int)
        &&& m.slot_key(self.bucket as int, self.index as int) == self.key_view()
        &&& m@.dom().contains(self.key_view())
    }

    /// Wrap the position of a pair stored in the map.
    pub fn new<V>(map: &HashMap<K, V>, bucket: usize, index: usize) -> (e: Self)
        requires
            map.wf(),
            map.slot_live(bucket as int, index as int),
            map@.dom().contains(map.slot_key(bucket as int, index as int)),
        ensures
            e.valid(map),
            e.key_view() == map.slot_key(bucket as int, index as int),
    {
        OccupiedEntry { bucket, index, key: Ghost(map.slot_key(bucket as int, index as int)) }
    }

    /// Read the value stored under the cursor's key.
    pub fn get<'a, V>(&self, map: &'a HashMap<K, V>) -> (v: &'a V)
        requires
            map.wf(),
            self.valid(map),
        ensures
            *v == map@[self.key_view()],
    {
        map.slot_value(self.bucket, self.index)
    }

    /// Hand back exclusive access to the value stored under the cursor's key.
    pub fn get_mut<'a, V>(&self, map: &'a mut HashMap<K, V>) -> (v: &'a mut V)
        requires
            old(map).wf(),
            self.valid(old(map)),
        ensures
            *v == old(map)@[self.key_view()],
            final(map)@ == old(map)@.insert(self.key_view(), *final(v)),
            final(map).wf(),
    {
        map.slot_value_mut(self.bucket, self.index)
    }
}

/// A cursor holding a key no pair is stored under, with the bucket the key
/// hashed to at the time of the lookup.
pub struct VacantEntry<K> {
    bucket: usize,
    key: K,
}

impl<K: HashKey> VacantEntry<K> {
    /// The abstract value of the pending key.
    pub closed spec fn key_view(&self) -> K::V {
        self.key@
    }

    /// Wrap a key not stored in the map. The bucket index is informational:
    /// committing the entry re-runs the placement against the size the map
    /// has then.
    pub fn new<V>(map: &HashMap<K, V>, bucket: usize, key: K) -> (e: Self)
        requires
            map.wf(),
        ensures
            e.key_view() == key@,
    {
        let _ = map;
        VacantEntry { bucket, key }
    }

    /// Store `value` under the pending key, running the same grow-then-place
    /// sequence as a direct insertion, and hand back exclusive access to the
    /// stored value.
    pub fn insert<'a, V>(self, map: &'a mut HashMap<K, V>, value: V) -> (v: &'a mut V)
        requires
            old(map).wf(),
            !old(map)@.dom().contains(self.key_view()),
            old(map)@.len() < usize::MAX,
        ensures
            *v == value,
            final(map)@ == old(map)@.insert(self.key_view(), *final(v)),
            final(map).wf(),
    {
        map.push_vacant(self.key, value)
    }
}

/// A cursor over a key's place in the map: at its live pair when one is
/// stored, at the pending key otherwise.
pub enum Entry<K: HashKey> {
    Occupied(OccupiedEntry<K>),
    Vacant(VacantEntry<K>),
}

impl<K: HashKey> Entry<K> {
    /// The abstract value of the key this cursor speaks for.
    pub open spec fn key_view(&self) -> K::V {
        match self {
            Entry::Occupied(e) => e.key_view(),
            Entry::Vacant(e) => e.key_view(),
        }
    }

    /// Whether the cursor stands at a live pair.
    pub open spec fn is_occupied(&self) -> bool {
        self matches Entry::Occupied(_)
    }

    /// Whether the cursor correctly describes the key's place in `m`.
    pub open spec fn valid<V>(&self, m: &HashMap<K, V>) -> bool {
        match self {
            Entry::Occupied(e) => e.valid(m),
            Entry::Vacant(e) => !m@.dom().contains(e.key_view()),
        }
    }

    /// The value stored under the key, or `default` placed there first.
    pub fn or_insert<'a, V>(self, map: &'a mut HashMap<K, V>, default: V) -> (v: &'a mut V)
        requires
            old(map).wf(),
            self.valid(old(map)),
            old(map)@.len() < usize::MAX,
        ensures
            *v == (if old(map)@.dom().contains(self.key_view()) {
                old(map)@[self.key_view()]
            } else {
                default
            }),
            final(map)@ == old(map)@.insert(self.key_view(), *final(v)),
            final(map).wf(),
    {
        match self {
            Entry::Occupied(e) => e.get_mut(map),
            Entry::Vacant(e) => e.insert(map, default),
        }
    }

    /// The value stored under the key, or the producer's value placed there
    /// first. The producer runs only when the key is absent.
    pub fn or_insert_with<'a, V, F: FnOnce() -> V>(self, map: &'a mut HashMap<K, V>, f: F) -> (v:
        &'a mut V)
        requires
            old(map).wf(),
            self.valid(old(map)),
            old(map)@.len() < usize::MAX,
            !self.is_occupied() ==> f.requires(()),
        ensures
            old(map)@.dom().contains(self.key_view()) ==> *v == old(map)@[self.key_view()],
            !old(map)@.dom().contains(self.key_view()) ==> f.ensures((), *v),
            final(map)@ == old(map)@.insert(self.key_view(), *final(v)),
            final(map).wf(),
    {
        match self {
            Entry::Occupied(e) => e.get_mut(map),
            Entry::Vacant(e) => {
                let value = f();
                e.insert(map, value)
            },
        }
    }

    /// Feed the stored value to the mutator and store its result, when the
    /// key is present; do nothing otherwise. The cursor survives either way.
    pub fn and_modify<V, F: FnOnce(V) -> V>(self, map: &mut HashMap<K, V>, f: F) -> (e: Entry<K>)
        requires
            old(map).wf(),
            self.valid(old(map)),
            self.is_occupied() ==> f.requires((old(map)@[self.key_view()],)),
        ensures
            final(map).wf(),
            e.valid(final(map)),
            e.key_view() == self.key_view(),
            e.is_occupied() == self.is_occupied(),
            self.is_occupied() ==> f.ensures(
                (old(map)@[self.key_view()],),
                final(map)@[self.key_view()],
            ) && final(map)@ == old(map)@.insert(self.key_view(), final(map)@[self.key_view()]),
            !self.is_occupied() ==> final(map)@ == old(map)@ && *final(map) == *old(map),
    {
        match self {
            Entry::Occupied(e) => {
                let ghost kv = e.key_view();
                let (bucket, index) = map.slot_apply(e.bucket, e.index, f);
                Entry::Occupied(OccupiedEntry { bucket, index, key: Ghost(kv) })
            },
            Entry::Vacant(e) => Entry::Vacant(e),
        }
    }
}

} // verus!
