//! A map whose entries carry an implicit recency order.
//!
//! Entries form a doubly linked list threaded through the hash map itself:
//! each entry stores the key of its neighbour on either side, so insertion,
//! re-linking as newest and removal of the oldest all run in constant time.
//! The abstract model is the map of entries together with a sequence of keys
//! ordered from least to most recently touched.

use std::collections::HashMap;
use vstd::prelude::*;
use vstd::std_specs::hash::obeys_key_model;

verus! {

struct Entry<K, V> {
    value: V,
    next: Option<K>,
    prev: Option<K>,
}

/// Recency-ordered map: constant-time insert, touch and take-oldest.
pub struct LruMap<K, V> {
    items: HashMap<K, Entry<K, V>>,
    oldest: Option<K>,
    newest: Option<K>,
    recency: Ghost<Seq<K>>,
}

spec fn link_at<K, V>(m: Map<K, Entry<K, V>>, s: Seq<K>, i: int) -> bool {
    &&& m.contains_key(s[i])
    &&& m[s[i]].prev == (if i == 0 {
        None::<K>
    } else {
        Some(s[i - 1])
    })
    &&& m[s[i]].next == (if i + 1 == s.len() {
        None::<K>
    } else {
        Some(s[i + 1])
    })
}

impl<K, V> LruMap<K, V> {
    /// The keys currently linked into the recency order, oldest first.
    pub closed spec fn order(self) -> Seq<K> {
        self.recency@
    }

    /// The entries held, as a map from key to value.
    pub closed spec fn entries(self) -> Map<K, V> {
        self.items@.map_values(|e: Entry<K, V>| e.value)
    }

    /// Structural invariant: the recency sequence lists distinct keys of the
    /// map, the linked list threads them in exactly that order, and the
    /// oldest/newest sentinels point at its two ends.
    pub closed spec fn wf(self) -> bool {
        &&& self.recency@.no_duplicates()
        &&& forall|i: int|
            0 <= i < self.recency@.len() ==> link_at(self.items@, self.recency@, i)
        &&& self.oldest == (if self.recency@.len() == 0 {
            None::<K>
        } else {
            Some(self.recency@[0])
        })
        &&& self.newest == (if self.recency@.len() == 0 {
            None::<K>
        } else {
            Some(self.recency@[self.recency@.len() - 1])
        })
    }

    /// Only finitely many entries are ever held.
    pub proof fn lemma_entries_finite(self)
        ensures
            self.entries().dom().finite(),
    {
        assert(self.entries().dom() =~= self.items@.dom());
    }

    /// A well-formed map lists each key at most once, and every listed key is
    /// present among the entries.
    pub proof fn lemma_wf_facts(self)
        requires
            self.wf(),
        ensures
            self.order().no_duplicates(),
            forall|i: int|
                0 <= i < self.order().len() ==> self.entries().contains_key(
                    #[trigger] self.order()[i],
                ),
    {
        assert(self.entries().dom() =~= self.items@.dom());
        assert forall|i: int|
            0 <= i < self.order().len() implies self.entries().contains_key(
            #[trigger] self.order()[i],
        ) by {
            assert(link_at(self.items@, self.recency@, i));
        }
    }
}

/// In a duplicate-free sequence, a key's position is unique, so `index_of`
/// returns exactly the position where it was found.
pub proof fn lemma_index_of_unique<K>(s: Seq<K>, key: K, i: int)
    requires
        s.no_duplicates(),
        0 <= i < s.len(),
        s[i] == key,
    ensures
        s.contains(key),
        s.index_of(key) == i,
{
    assert(s.contains(key));
    let j = s.index_of(key);
    assert(0 <= j < s.len() && s[j] == key);
    if i != j {
        assert(s[i] != s[j]);
    }
}

impl<K: Eq + core::hash::Hash + Copy, V> LruMap<K, V> {
    /// An empty map: no entries, empty recency order.
    pub fn new() -> (m: Self)
        ensures
            m.wf(),
            m.entries() == Map::<K, V>::empty(),
            m.order() == Seq::<K>::empty(),
    {
        let m = LruMap {
            items: HashMap::new(),
            oldest: None,
            newest: None,
            recency: Ghost(Seq::empty()),
        };
        proof {
            assert(m.entries() =~= Map::<K, V>::empty());
        }
        m
    }

    /// How many entries are held.
    pub fn len(&self) -> (n: usize)
        requires
            obeys_key_model::<K>(),
        ensures
            n == self.entries().dom().len(),
    {
        proof {
            assert(self.entries().dom() =~= self.items@.dom());
        }
        self.items.len()
    }

    /// Whether `key` currently has an entry.
    pub fn contains_key(&self, key: &K) -> (r: bool)
        requires
            obeys_key_model::<K>(),
        ensures
            r == self.entries().contains_key(*key),
    {
        proof {
            assert(self.entries().dom() =~= self.items@.dom());
        }
        self.items.contains_key(key)
    }

    /// Inserts a fresh key as the newest entry. The contract requires each
    /// key to be inserted at most once while it is live; a caller that
    /// bypasses it finds the duplicate insert a no-op.
    pub fn insert(&mut self, key: K, value: V)
        requires
            obeys_key_model::<K>(),
            old(self).wf(),
            !old(self).entries().contains_key(key),
        ensures
            final(self).wf(),
            final(self).entries() == old(self).entries().insert(key, value),
            final(self).order() == old(self).order().push(key),
    {
        if self.items.contains_key(&key) {
            return;
        }
        proof {
            assert(old(self).entries().dom() =~= old(self).items@.dom());
            assert forall|i: int|
                0 <= i < old(self).recency@.len() implies old(self).recency@[i] != key by {
                assert(link_at(old(self).items@, old(self).recency@, i));
            }
        }
        let entry = Entry { value, prev: None, next: None };
        self.items.insert(key, entry);
        proof {
            assert forall|i: int|
                0 <= i < self.recency@.len() implies link_at(self.items@, self.recency@, i) by {
                assert(link_at(old(self).items@, self.recency@, i));
                assert(self.recency@[i] != key);
            }
            assert(self.entries().dom() =~= self.items@.dom());
            assert(self.entries().contains_key(key));
        }
        let ghost mid = *self;
        let _linked = self.insert_newest(key);
        proof {
            assert(mid.entries() =~= old(self).entries().insert(key, value));
        }
    }

    /// Removes and returns the oldest entry, if any.
    pub fn take_oldest(&mut self) -> (r: Option<(K, V)>)
        requires
            obeys_key_model::<K>(),
            old(self).wf(),
        ensures
            final(self).wf(),
            old(self).order().len() == 0 ==> r == None::<(K, V)> && *final(self) == *old(self),
            old(self).order().len() > 0 ==> {
                let k = old(self).order()[0];
                &&& r == Some((k, old(self).entries()[k]))
                &&& final(self).order() == old(self).order().drop_first()
                &&& final(self).entries() == old(self).entries().remove(k)
            },
    {
        let oldest = match self.oldest {
            None => {
                return None;
            },
            Some(k) => k,
        };
        proof {
            assert(link_at(self.items@, self.recency@, 0));
            assert(self.entries().dom() =~= self.items@.dom());
            lemma_index_of_unique(self.recency@, oldest, 0);
        }
        let ghost pre = *self;
        let _unlinked = self.remove_entry(oldest);
        let ghost mid = *self;
        proof {
            assert(mid.entries().dom() =~= mid.items@.dom());
            assert(pre.order().remove(0) =~= pre.order().drop_first());
        }
        let entry = match self.items.remove(&oldest) {
            None => {
                return None;
            },
            Some(e) => e,
        };
        proof {
            let s2 = self.recency@;
            pre.order().remove_ensures(0);
            assert forall|j: int| 0 <= j < s2.len() implies link_at(self.items@, s2, j) by {
                assert(link_at(mid.items@, s2, j));
                assert(s2[j] == pre.order()[j + 1]);
                assert(pre.order()[0] != pre.order()[j + 1]);
                assert(s2[j] != oldest);
            }
            assert(entry == mid.items@[oldest]);
            assert(mid.entries()[oldest] == pre.entries()[oldest]);
            assert(self.entries() =~= pre.entries().remove(oldest));
        }
        Some((oldest, entry.value))
    }

    /// Re-links `key` as the newest entry; `None` if the key is absent.
    pub fn set_newest(&mut self, key: K) -> (r: Option<()>)
        requires
            obeys_key_model::<K>(),
            old(self).wf(),
            old(self).entries().contains_key(key) ==> old(self).order().contains(key),
        ensures
            final(self).wf(),
            final(self).entries() == old(self).entries(),
            if old(self).entries().contains_key(key) {
                &&& r == Some(())
                &&& final(self).order() == old(self).order().remove(
                    old(self).order().index_of(key),
                ).push(key)
            } else {
                &&& r == None::<()>
                &&& *final(self) == *old(self)
            },
    {
        let removed = self.remove_entry(key);
        match removed {
            None => None,
            Some(_) => {
                proof {
                    assert(!self.order().contains(key)) by {
                        let s = old(self).order();
                        let i = s.index_of(key);
                        lemma_index_of_unique(s, key, i);
                        if self.order().contains(key) {
                            let j = choose|j: int|
                                0 <= j < self.order().len() && self.order()[j] == key;
                            s.remove_ensures(i);
                            if j < i {
                                assert(s[j] == key);
                                assert(i != j && s[i] == s[j]);
                            } else {
                                assert(s[j + 1] == key);
                                assert(i != j + 1 && s[i] == s[j + 1]);
                            }
                        }
                    }
                    assert(self.entries().contains_key(key));
                }
                self.insert_newest(key)
            },
        }
    }

    /// Unlinks `key` from the recency order, leaving its entry in place;
    /// `None` if the key is absent.
    pub fn remove_entry(&mut self, key: K) -> (r: Option<()>)
        requires
            obeys_key_model::<K>(),
            old(self).wf(),
            old(self).entries().contains_key(key) ==> old(self).order().contains(key),
        ensures
            final(self).wf(),
            final(self).entries() == old(self).entries(),
            if old(self).entries().contains_key(key) {
                &&& r == Some(())
                &&& final(self).order() == old(self).order().remove(old(self).order().index_of(key))
            } else {
                &&& r == None::<()>
                &&& *final(self) == *old(self)
            },
    {
        proof {
            assert(old(self).entries().dom() =~= old(self).items@.dom());
        }
        let (prev, next) = match self.items.get(&key) {
            None => {
                return None;
            },
            Some(e) => (e.prev, e.next),
        };
        let ghost s = self.recency@;
        let ghost m0 = self.items@;
        let ghost i = choose|i: int| 0 <= i < s.len() && s[i] == key;
        proof {
            assert(s.contains(key));
            assert(0 <= i < s.len() && s[i] == key);
            lemma_index_of_unique(s, key, i);
            assert(link_at(m0, s, i));
        }
        match prev {
            Some(p) => {
                proof {
                    assert(link_at(m0, s, i - 1));
                }
                let mut e = self.items.remove(&p).unwrap();
                e.next = next;
                self.items.insert(p, e);
            },
            None => {
                self.oldest = next;
            },
        }
        match next {
            Some(n) => {
                proof {
                    assert(link_at(m0, s, i + 1));
                    if i > 0 {
                        assert(s[i - 1] != s[i + 1]);
                    }
                }
                let mut e = self.items.remove(&n).unwrap();
                e.prev = prev;
                self.items.insert(n, e);
            },
            None => {
                self.newest = prev;
            },
        }
        proof {
            self.recency@ = s.remove(i);
        }
        proof {
            let s2 = self.recency@;
            let m2 = self.items@;
            s.remove_ensures(i);
            assert(s2.no_duplicates()) by {
                assert forall|a: int, b: int|
                    0 <= a < s2.len() && 0 <= b < s2.len() && a != b implies s2[a] != s2[b] by {
                    let a0: int = if a < i {
                        a
                    } else {
                        a + 1
                    };
                    let b0: int = if b < i {
                        b
                    } else {
                        b + 1
                    };
                    assert(s2[a] == s[a0] && s2[b] == s[b0]);
                    assert(s[a0] != s[b0]);
                }
            }
            assert forall|j: int| 0 <= j < s2.len() implies link_at(m2, s2, j) by {
                let j0: int = if j < i {
                    j
                } else {
                    j + 1
                };
                assert(link_at(m0, s, j0));
                if j0 != i - 1 && j0 != i + 1 {
                    assert(s[j0] != key);
                    if i > 0 {
                        assert(s[j0] != s[i - 1]);
                    }
                    if i + 1 < s.len() {
                        assert(s[j0] != s[i + 1]);
                    }
                    assert(m2[s2[j]] == m0[s[j0]]);
                } else {
                    if i > 0 {
                        assert(link_at(m0, s, i - 1));
                    }
                    if i + 1 < s.len() {
                        assert(link_at(m0, s, i + 1));
                    }
                }
                if j > 0 {
                    let jp: int = if j - 1 < i {
                        j - 1
                    } else {
                        j
                    };
                    assert(s2[j - 1] == s[jp]);
                }
                if j + 1 < s2.len() {
                    let jn: int = if j + 1 < i {
                        j + 1
                    } else {
                        j + 2
                    };
                    assert(s2[j + 1] == s[jn]);
                }
            }
            assert(self.entries() =~= old(self).entries());
        }
        Some(())
    }

    /// Links `key`, which must not currently be linked, as the newest entry;
    /// `None` if the key has no entry in the map.
    pub fn insert_newest(&mut self, key: K) -> (r: Option<()>)
        requires
            obeys_key_model::<K>(),
            old(self).wf(),
            !old(self).order().contains(key),
        ensures
            final(self).wf(),
            final(self).entries() == old(self).entries(),
            if old(self).entries().contains_key(key) {
                &&& r == Some(())
                &&& final(self).order() == old(self).order().push(key)
            } else {
                &&& r == None::<()>
                &&& *final(self) == *old(self)
            },
    {
        proof {
            assert(old(self).entries().dom() =~= old(self).items@.dom());
        }
        let ghost s = self.recency@;
        let ghost m0 = self.items@;
        let newest = self.newest;
        if !self.items.contains_key(&key) {
            return None;
        }
        let mut e = match self.items.remove(&key) {
            None => vstd::pervasive::unreached(),
            Some(e) => e,
        };
        e.prev = newest;
        e.next = None;
        self.items.insert(key, e);
        match self.oldest {
            Some(_) => {},
            None => {
                self.oldest = Some(key);
            },
        }
        match newest {
            None => {},
            Some(nw) => {
                proof {
                    assert(link_at(m0, s, s.len() - 1));
                    assert(s[s.len() - 1] != key);
                }
                let mut tail = self.items.remove(&nw).unwrap();
                tail.next = Some(key);
                self.items.insert(nw, tail);
            },
        }
        self.newest = Some(key);
        proof {
            self.recency@ = s.push(key);
        }
        proof {
            let s2 = self.recency@;
            let m2 = self.items@;
            assert(s2.no_duplicates()) by {
                assert forall|a: int, b: int|
                    0 <= a < s2.len() && 0 <= b < s2.len() && a != b implies s2[a] != s2[b] by {
                    if a < s.len() && b < s.len() {
                        assert(s2[a] == s[a] && s2[b] == s[b]);
                    } else if a < s.len() {
                        assert(s2[a] == s[a] && s2[b] == key);
                        assert(s.contains(s[a]) == true);
                    } else {
                        assert(s2[a] == key && s2[b] == s[b]);
                        assert(s.contains(s[b]) == true);
                    }
                }
            }
            assert forall|j: int| 0 <= j < s2.len() implies link_at(m2, s2, j) by {
                if j + 1 < s2.len() {
                    assert(link_at(m0, s, j));
                    assert(s[j] != key);
                    if j + 1 < s.len() {
                        assert(s2[j + 1] == s[j + 1]);
                    }
                    if j < s.len() - 1 {
                        assert(s[j] != s[s.len() - 1]);
                        assert(m2[s2[j]] == m0[s[j]]);
                    }
                }
            }
            assert(self.entries() =~= old(self).entries());
        }
        Some(())
    }
}

} // verus!
