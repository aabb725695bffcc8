//! Per-cache storage: value-by-id, id-by-key and key-by-id maps.
//!
//! One `EntryMap` backs one typed cache. Its invariant keeps the three maps
//! consistent: a key's id points back at that key, and exactly the ids that
//! carry a key also carry a value. Internally the id-keyed maps hash the
//! id's raw integer value, which the hash table model covers outright.

use std::collections::HashMap;
use vstd::prelude::*;
use vstd::std_specs::hash::obeys_key_model;

use crate::allocator::EntryId;

verus! {

/// Key types whose `clone` returns the value itself. This holds of every
/// ordinary key type; it is what lets the same key live in two of the maps.
pub open spec fn clone_exact<T: Clone>() -> bool {
    forall|a: T, b: T| vstd::pervasive::cloned::<T>(a, b) ==> b == a
}

/// Storage for one typed cache: values held under allocation ids, together
/// with the key-to-id and id-to-key mappings.
pub struct EntryMap<K, V> {
    values: HashMap<usize, V>,
    ids: HashMap<K, EntryId>,
    id_keys: HashMap<usize, K>,
}

impl<K, V> EntryMap<K, V> {
    /// Values held, by the id's underlying value.
    pub closed spec fn vals(self) -> Map<usize, V> {
        self.values@
    }

    /// The id currently assigned to each key.
    pub closed spec fn key_ids(self) -> Map<K, EntryId> {
        self.ids@
    }

    /// The key back-pointer of each live id's underlying value.
    pub closed spec fn keys_of(self) -> Map<usize, K> {
        self.id_keys@
    }

    /// Invariant: the key-to-id and id-to-key maps are inverse to each
    /// other, and the ids carrying a key are exactly those carrying a value.
    pub closed spec fn wf(self) -> bool {
        &&& forall|k: K|
            #[trigger] self.ids@.contains_key(k) ==> self.id_keys@.contains_key(self.ids@[k]@)
                && self.id_keys@[self.ids@[k]@] == k
        &&& forall|r: usize|
            #[trigger] self.id_keys@.contains_key(r) ==> self.ids@.contains_key(self.id_keys@[r])
                && self.ids@[self.id_keys@[r]]@ == r
        &&& self.values@.dom() == self.id_keys@.dom()
    }

    /// The relation `insert` establishes between the states before and after
    /// it: any entry previously held under `key` is dropped, and the triple
    /// `(id, key, value)` is recorded.
    pub open spec fn insert_post(pre: Self, post: Self, id: EntryId, key: K, value: V) -> bool {
        if pre.key_ids().contains_key(key) {
            let prior = pre.key_ids()[key];
            &&& post.vals() == pre.vals().remove(prior@).insert(id@, value)
            &&& post.keys_of() == pre.keys_of().remove(prior@).insert(id@, key)
            &&& post.key_ids() == pre.key_ids().insert(key, id)
        } else {
            &&& post.vals() == pre.vals().insert(id@, value)
            &&& post.keys_of() == pre.keys_of().insert(id@, key)
            &&& post.key_ids() == pre.key_ids().insert(key, id)
        }
    }
}

impl<K: Eq + core::hash::Hash + Clone, V> EntryMap<K, V> {
    /// Stores `value` under the fresh id `id` for `key`, dropping any entry
    /// previously held under the same key so that no stale id keeps a value
    /// alive in this store.
    pub fn insert(&mut self, id: EntryId, key: K, value: V)
        requires
            obeys_key_model::<K>(),
            clone_exact::<K>(),
            old(self).wf(),
            !old(self).vals().contains_key(id@),
        ensures
            final(self).wf(),
            Self::insert_post(*old(self), *final(self), id, key, value),
            final(self).key_ids().contains_key(key) && final(self).key_ids()[key] == id,
            final(self).vals().contains_key(id@) && final(self).vals()[id@] == value,
    {
        let prior = match self.ids.get(&key) {
            Some(p) => Some(*p),
            None => None,
        };
        if let Some(p) = prior {
            let prior_raw = p.raw();
            self.values.remove(&prior_raw);
            self.id_keys.remove(&prior_raw);
        }
        let key_copy = key.clone();
        proof {
            assert(vstd::pervasive::cloned::<K>(key, key_copy));
            assert(key_copy == key);
        }
        let id_raw = id.raw();
        self.values.insert(id_raw, value);
        self.ids.insert(key_copy, id);
        self.id_keys.insert(id_raw, key);
        proof {
            let pre = *old(self);
            if pre.key_ids().contains_key(key) {
                let prior_id = pre.key_ids()[key];
                assert(self.values@ =~= pre.vals().remove(prior_id@).insert(id@, value));
                assert(self.id_keys@ =~= pre.keys_of().remove(prior_id@).insert(id@, key));
                assert(self.ids@ =~= pre.key_ids().insert(key, id));
                assert forall|k2: K| #[trigger]
                    self.ids@.contains_key(k2) implies self.id_keys@.contains_key(self.ids@[k2]@)
                    && self.id_keys@[self.ids@[k2]@] == k2 by {
                    if k2 != key {
                        assert(pre.ids@.contains_key(k2));
                        assert(pre.id_keys@[pre.ids@[k2]@] == k2);
                        assert(pre.ids@[k2]@ != prior_id@);
                        assert(pre.ids@[k2]@ != id@);
                    }
                }
                assert forall|r2: usize| #[trigger]
                    self.id_keys@.contains_key(r2) implies self.ids@.contains_key(
                    self.id_keys@[r2],
                ) && self.ids@[self.id_keys@[r2]]@ == r2 by {
                    if r2 != id@ {
                        assert(pre.id_keys@.contains_key(r2) && r2 != prior_id@);
                        assert(pre.id_keys@[r2] != key);
                    }
                }
                assert(self.values@.dom() =~= self.id_keys@.dom());
            } else {
                assert(self.values@ =~= pre.vals().insert(id@, value));
                assert(self.id_keys@ =~= pre.keys_of().insert(id@, key));
                assert(self.ids@ =~= pre.key_ids().insert(key, id));
                assert forall|r2: usize| #[trigger]
                    self.id_keys@.contains_key(r2) implies self.ids@.contains_key(
                    self.id_keys@[r2],
                ) && self.ids@[self.id_keys@[r2]]@ == r2 by {
                    if r2 != id@ {
                        assert(pre.id_keys@.contains_key(r2));
                        assert(pre.id_keys@[r2] != key);
                    }
                }
                assert(self.values@.dom() =~= self.id_keys@.dom());
            }
        }
    }
}

impl<K: Eq + core::hash::Hash, V> EntryMap<K, V> {
    /// Looks the key's current value up; `None` when the key holds no entry.
    pub fn get(&self, key: &K) -> (r: Option<&V>)
        requires
            obeys_key_model::<K>(),
            self.wf(),
        ensures
            match r {
                Some(v) => self.key_ids().contains_key(*key) && self.vals().contains_key(
                    self.key_ids()[*key]@,
                ) && *v == self.vals()[self.key_ids()[*key]@],
                None => !self.key_ids().contains_key(*key),
            },
    {
        let id = match self.ids.get(key) {
            None => {
                return None;
            },
            Some(id) => id,
        };
        let id_raw = id.raw();
        self.values.get(&id_raw)
    }

    /// The id currently assigned to `key`, if any.
    pub fn get_id(&self, key: &K) -> (r: Option<EntryId>)
        requires
            obeys_key_model::<K>(),
            self.wf(),
        ensures
            r == (if self.key_ids().contains_key(*key) {
                Some(self.key_ids()[*key])
            } else {
                None::<EntryId>
            }),
    {
        match self.ids.get(key) {
            Some(id) => Some(*id),
            None => None,
        }
    }

    /// Removes the entry held under `id`, returning its key and value;
    /// a no-op returning `None` when the id is absent, so that eviction of
    /// an id that raced with removal stays harmless.
    pub fn remove(&mut self, id: EntryId) -> (r: Option<(K, V)>)
        requires
            obeys_key_model::<K>(),
            old(self).wf(),
        ensures
            final(self).wf(),
            if old(self).keys_of().contains_key(id@) {
                let key = old(self).keys_of()[id@];
                &&& r == Some((key, old(self).vals()[id@]))
                &&& final(self).vals() == old(self).vals().remove(id@)
                &&& final(self).keys_of() == old(self).keys_of().remove(id@)
                &&& final(self).key_ids() == old(self).key_ids().remove(key)
            } else {
                &&& r == None::<(K, V)>
                &&& *final(self) == *old(self)
            },
    {
        let id_raw = id.raw();
        if !self.id_keys.contains_key(&id_raw) {
            return None;
        }
        let key = match self.id_keys.remove(&id_raw) {
            None => vstd::pervasive::unreached(),
            Some(k) => k,
        };
        self.ids.remove(&key);
        let value = match self.values.remove(&id_raw) {
            None => {
                proof {
                    assert(false);
                }
                return None;
            },
            Some(v) => v,
        };
        proof {
            let pre = *old(self);
            assert(pre.ids@.contains_key(key) && pre.ids@[key]@ == id@);
            assert forall|k2: K| #[trigger]
                self.ids@.contains_key(k2) implies self.id_keys@.contains_key(self.ids@[k2]@)
                && self.id_keys@[self.ids@[k2]@] == k2 by {
                assert(pre.ids@.contains_key(k2) && k2 != key);
                assert(pre.id_keys@[pre.ids@[k2]@] == k2);
                assert(pre.ids@[k2]@ != id@);
            }
            assert forall|r2: usize| #[trigger]
                self.id_keys@.contains_key(r2) implies self.ids@.contains_key(self.id_keys@[r2])
                && self.ids@[self.id_keys@[r2]]@ == r2 by {
                assert(pre.id_keys@.contains_key(r2) && r2 != id@);
                assert(pre.ids@[pre.id_keys@[r2]]@ == r2);
                assert(pre.id_keys@[r2] != key);
            }
            assert(self.values@.dom() =~= self.id_keys@.dom());
        }
        Some((key, value))
    }
}

impl<K, V> Default for EntryMap<K, V> {
    /// An empty store.
    fn default() -> (r: Self)
        ensures
            r.wf(),
            r.vals() == Map::<usize, V>::empty(),
            r.key_ids() == Map::<K, EntryId>::empty(),
            r.keys_of() == Map::<usize, K>::empty(),
    {
        let r = EntryMap {
            values: HashMap::new(),
            ids: HashMap::new(),
            id_keys: HashMap::new(),
        };
        proof {
            assert(r.values@.dom() =~= r.id_keys@.dom());
        }
        r
    }
}

/// Law (round trip): inserting `value` under `key` and looking `key` up
/// again, with no intervening removal, yields exactly `value`: after
/// `insert`, `key` is bound to the fresh id and that id holds `value`, which
/// is what `get` returns.
pub proof fn lemma_insert_get_round_trip<K, V>(
    pre: EntryMap<K, V>,
    post: EntryMap<K, V>,
    id: EntryId,
    key: K,
    value: V,
)
    requires
        pre.wf(),
        !pre.vals().contains_key(id@),
        EntryMap::insert_post(pre, post, id, key, value),
    ensures
        post.key_ids().contains_key(key),
        post.key_ids()[key] == id,
        post.vals().contains_key(id@),
        post.vals()[id@] == value,
{
}

} // verus!
