//! The byte-budget allocator.
//!
//! It owns the shared byte budget and a recency-ordered map from allocation
//! id to charged size. A request either succeeds at once, names the globally
//! oldest allocation to evict first, or can never fit.

use vstd::prelude::*;

use crate::lru_map::{lemma_index_of_unique, LruMap};

verus! {

/// Opaque, non-zero token naming one live allocation, unique across every
/// cache sharing the same budget.
#[derive(Debug, Clone, Copy, Hash, PartialEq, Eq, PartialOrd, Ord, Structural)]
pub struct EntryId(usize);

impl View for EntryId {
    type V = usize;

    closed spec fn view(&self) -> usize {
        self.0
    }
}

impl EntryId {
    /// The raw integer behind this id.
    pub(crate) fn raw(&self) -> (r: usize)
        ensures
            r == self@,
    {
        self.0
    }
}

/// Outcome of one allocation attempt.
#[derive(Debug)]
pub enum AllocResult {
    /// The request was charged and recorded under this fresh id.
    Success(EntryId),
    /// The budget is full: this oldest allocation must go first.
    Evict(EntryId),
    /// The request alone exceeds the whole budget and can never fit.
    TooLarge,
}

/// How many random draws are made before falling back to probing.
pub const RANDOM_ID_ATTEMPTS: usize = 32;

/// The candidate ids `1 ..= n` probed when random draws keep colliding.
pub open spec fn probe_set(n: usize) -> Set<usize> {
    Set::new(|x: usize| 1 <= x <= n)
}

pub proof fn lemma_probe_set_card(n: usize)
    ensures
        probe_set(n).finite(),
        probe_set(n).len() == n,
    decreases n,
{
    if n == 0 {
        assert(probe_set(0) =~= Set::<usize>::empty());
    } else {
        lemma_probe_set_card((n - 1) as usize);
        assert(probe_set(n) =~= probe_set((n - 1) as usize).insert(n));
    }
}

/// Sum of the sizes charged to the listed ids, oldest first.
pub open spec fn total_of(order: Seq<usize>, sizes: Map<usize, usize>) -> int
    decreases order.len(),
{
    if order.len() == 0 {
        0
    } else {
        sizes[order[0]] + total_of(order.drop_first(), sizes)
    }
}

pub proof fn lemma_total_nonneg(order: Seq<usize>, sizes: Map<usize, usize>)
    ensures
        total_of(order, sizes) >= 0,
    decreases order.len(),
{
    if order.len() > 0 {
        lemma_total_nonneg(order.drop_first(), sizes);
    }
}

pub proof fn lemma_total_push(order: Seq<usize>, sizes: Map<usize, usize>, key: usize)
    ensures
        total_of(order.push(key), sizes) == total_of(order, sizes) + sizes[key],
    decreases order.len(),
{
    if order.len() == 0 {
        assert(order.push(key).len() == 1);
        assert(order.push(key)[0] == key);
        assert(order.push(key).drop_first() =~= Seq::<usize>::empty());
        assert(total_of(order.push(key).drop_first(), sizes) == 0);
        assert(total_of(order, sizes) == 0);
    } else {
        lemma_total_push(order.drop_first(), sizes, key);
        assert(order.push(key).drop_first() =~= order.drop_first().push(key));
        assert(order.push(key)[0] == order[0]);
        assert(total_of(order.push(key), sizes) == sizes[order[0]] + total_of(
            order.drop_first().push(key),
            sizes,
        ));
    }
}

pub proof fn lemma_total_remove(order: Seq<usize>, sizes: Map<usize, usize>, i: int)
    requires
        0 <= i < order.len(),
    ensures
        total_of(order.remove(i), sizes) == total_of(order, sizes) - sizes[order[i]],
    decreases order.len(),
{
    if i == 0 {
        assert(order.remove(0) =~= order.drop_first());
    } else {
        lemma_total_remove(order.drop_first(), sizes, i - 1);
        assert(order.remove(i).drop_first() =~= order.drop_first().remove(i - 1));
        assert(order.remove(i)[0] == order[0]);
        assert(order.drop_first()[i - 1] == order[i]);
    }
}

/// The sizes actually charged do not matter to the total beyond the listed
/// ids: two size maps agreeing on them give the same total.
pub proof fn lemma_total_congruence(order: Seq<usize>, s1: Map<usize, usize>, s2: Map<usize, usize>)
    requires
        forall|i: int| 0 <= i < order.len() ==> s1[#[trigger] order[i]] == s2[order[i]],
    ensures
        total_of(order, s1) == total_of(order, s2),
    decreases order.len(),
{
    if order.len() > 0 {
        assert forall|i: int|
            0 <= i < order.drop_first().len() implies s1[#[trigger] order.drop_first()[i]]
            == s2[order.drop_first()[i]] by {
            assert(order.drop_first()[i] == order[i + 1]);
        }
        lemma_total_congruence(order.drop_first(), s1, s2);
    }
}

#[verifier::external_type_specification]
#[verifier::external_body]
pub struct ExSmallRng(rand::rngs::SmallRng);

/// Relies on rand's `SmallRng::from_entropy` to build a generator seeded by
/// the operating system; nothing is assumed about its output.
#[verifier::external_body]
fn fresh_small_rng() -> (r: rand::rngs::SmallRng) {
    <rand::rngs::SmallRng as rand::SeedableRng>::from_entropy()
}

/// Relies on rand's `Rng::gen`; the value drawn depends on the generator's
/// state, so nothing is promised of it.
#[verifier::external_body]
fn next_random_usize(rng: &mut rand::rngs::SmallRng) -> (r: usize) {
    rand::Rng::gen::<usize>(rng)
}

/// Tracks `used` bytes against a fixed `capacity` and the global recency
/// order of live allocations.
pub struct Allocator {
    used: usize,
    capacity: usize,
    rng: rand::rngs::SmallRng,
    allocated: LruMap<usize, usize>,
}

impl Allocator {
    /// Charged size by live allocation id.
    pub closed spec fn entries(self) -> Map<usize, usize> {
        self.allocated.entries()
    }

    /// Live allocation ids, least recently touched first.
    pub closed spec fn order(self) -> Seq<usize> {
        self.allocated.order()
    }

    /// Bytes currently charged.
    pub closed spec fn spec_used(self) -> usize {
        self.used
    }

    /// The fixed byte budget.
    pub closed spec fn spec_capacity(self) -> usize {
        self.capacity
    }

    /// Invariant: the recency order lists exactly the live ids, all non-zero,
    /// `used` is the sum of their charged sizes, and `used` never exceeds
    /// `capacity`.
    pub closed spec fn wf(self) -> bool {
        &&& self.allocated.wf()
        &&& forall|k: usize|
            self.allocated.entries().contains_key(k) ==> self.allocated.order().contains(k)
        &&& forall|k: usize| self.allocated.entries().contains_key(k) ==> k != 0
        &&& self.used as int == total_of(self.allocated.order(), self.allocated.entries())
        &&& self.used <= self.capacity
    }

    /// The budget invariant and uniqueness of live ids, as consequences of
    /// well-formedness: `used` stays within `capacity`, each live id is
    /// listed exactly once in the recency order, and no live id is zero.
    pub proof fn lemma_wf_facts(self)
        requires
            self.wf(),
        ensures
            self.spec_used() <= self.spec_capacity(),
            self.order().no_duplicates(),
            forall|i: int|
                0 <= i < self.order().len() ==> self.entries().contains_key(
                    #[trigger] self.order()[i],
                ),
            forall|k: usize| self.entries().contains_key(k) ==> self.order().contains(k),
            forall|k: usize| self.entries().contains_key(k) ==> k != 0,
    {
        self.allocated.lemma_wf_facts();
    }

    /// Only finitely many allocations are ever live.
    pub proof fn lemma_entries_finite(self)
        ensures
            self.entries().dom().finite(),
    {
        self.allocated.lemma_entries_finite();
    }

    /// A fresh allocator: nothing charged against `capacity` bytes.
    pub fn new(capacity: usize) -> (a: Allocator)
        ensures
            a.wf(),
            a.spec_capacity() == capacity,
            a.spec_used() == 0,
            a.entries() == Map::<usize, usize>::empty(),
            a.order() == Seq::<usize>::empty(),
    {
        Allocator {
            used: 0,
            capacity,
            rng: fresh_small_rng(),
            allocated: LruMap::new(),
        }
    }

    /// Decides one allocation attempt of `bytes`:
    /// - `TooLarge` exactly when the request alone exceeds the budget;
    /// - otherwise `Evict(oldest)` exactly when the request does not fit
    ///   beside what is charged: the globally oldest allocation leaves the
    ///   books and `used` drops by exactly its charged size;
    /// - otherwise `Success(id)`: a fresh non-zero id is charged `bytes` and
    ///   becomes the newest.
    pub fn try_alloc(&mut self, bytes: usize) -> (r: AllocResult)
        requires
            old(self).wf(),
            old(self).entries().dom().len() < usize::MAX as nat,
        ensures
            final(self).wf(),
            final(self).spec_capacity() == old(self).spec_capacity(),
            match r {
                AllocResult::TooLarge => {
                    &&& bytes > old(self).spec_capacity()
                    &&& *final(self) == *old(self)
                },
                AllocResult::Evict(id) => {
                    &&& bytes <= old(self).spec_capacity()
                    &&& old(self).spec_used() + bytes > old(self).spec_capacity()
                    &&& old(self).order().len() > 0
                    &&& id@ == old(self).order()[0]
                    &&& old(self).entries().contains_key(id@)
                    &&& final(self).order() == old(self).order().drop_first()
                    &&& final(self).entries() == old(self).entries().remove(id@)
                    &&& final(self).spec_used() == old(self).spec_used() - old(self).entries()[id@]
                },
                AllocResult::Success(id) => {
                    &&& old(self).spec_used() + bytes <= old(self).spec_capacity()
                    &&& id@ != 0
                    &&& !old(self).entries().contains_key(id@)
                    &&& final(self).entries() == old(self).entries().insert(id@, bytes)
                    &&& final(self).order() == old(self).order().push(id@)
                    &&& final(self).spec_used() == old(self).spec_used() + bytes
                },
            },
    {
        if bytes > self.capacity {
            return AllocResult::TooLarge;
        }
        if bytes > self.capacity - self.used {
            proof {
                if self.allocated.order().len() == 0 {
                    assert(self.used as int == 0);
                }
                self.allocated.lemma_wf_facts();
            }
            let ghost pre = *self;
            match self.allocated.take_oldest() {
                Some((id, size)) => {
                    proof {
                        pre.allocated.lemma_wf_facts();
                        lemma_total_nonneg(pre.order().drop_first(), pre.entries());
                        assert(pre.order().drop_first() =~= self.allocated.order());
                        assert forall|i2: int|
                            0 <= i2 < self.allocated.order().len() implies pre.entries()[
                            #[trigger] self.allocated.order()[i2]] == self.allocated.entries()[
                            self.allocated.order()[i2]] by {
                            assert(self.allocated.order()[i2] == pre.order()[i2 + 1]);
                            assert(pre.order()[0] != pre.order()[i2 + 1]);
                        }
                        lemma_total_congruence(
                            self.allocated.order(),
                            pre.entries(),
                            self.allocated.entries(),
                        );
                        assert forall|k: usize|
                            self.allocated.entries().contains_key(
                                k,
                            ) implies self.allocated.order().contains(k) by {
                            assert(pre.order().contains(k));
                            let j = choose|j: int|
                                0 <= j < pre.order().len() && pre.order()[j] == k;
                            assert(j != 0);
                            assert(self.allocated.order()[j - 1] == k);
                        }
                    }
                    self.used = self.used - size;
                    return AllocResult::Evict(EntryId(id));
                },
                None => {
                    proof {
                        assert(false);
                    }
                    return AllocResult::TooLarge;
                },
            }
        }
        let id = self.get_id();
        let ghost pre = *self;
        self.allocated.insert(id.0, bytes);
        self.used = self.used + bytes;
        proof {
            pre.allocated.lemma_wf_facts();
            assert forall|i2: int|
                0 <= i2 < pre.order().len() implies pre.entries()[#[trigger] pre.order()[i2]]
                == self.allocated.entries()[pre.order()[i2]] by {
                assert(pre.entries().contains_key(pre.order()[i2]));
            }
            lemma_total_congruence(pre.order(), pre.entries(), self.allocated.entries());
            lemma_total_push(pre.order(), self.allocated.entries(), id.0);
            assert forall|k: usize|
                self.allocated.entries().contains_key(k) implies self.allocated.order().contains(
                k,
            ) by {
                if k != id.0 {
                    assert(pre.order().contains(k));
                    let j = choose|j: int| 0 <= j < pre.order().len() && pre.order()[j] == k;
                    assert(self.allocated.order()[j] == k);
                } else {
                    assert(self.allocated.order()[pre.order().len() as int] == k);
                }
            }
        }
        AllocResult::Success(id)
    }

    /// Draws fresh non-zero random ids until one not currently live is
    /// found. Random collisions are vanishingly rare; still, after a bounded
    /// number of draws the search falls back to probing counting ids, where
    /// among the first `n + 1` candidates, `n` live entries leave one free.
    fn get_id(&mut self) -> (id: EntryId)
        requires
            old(self).wf(),
            old(self).entries().dom().len() < usize::MAX as nat,
        ensures
            final(self).wf(),
            final(self).allocated == old(self).allocated,
            final(self).used == old(self).used,
            final(self).capacity == old(self).capacity,
            id@ != 0,
            !final(self).entries().contains_key(id@),
    {
        let ghost pre = *self;
        let mut attempts: usize = RANDOM_ID_ATTEMPTS;
        while attempts > 0
            invariant
                self.used == pre.used,
                self.capacity == pre.capacity,
                self.allocated == pre.allocated,
                pre.wf(),
                pre == *old(self),
            decreases attempts,
        {
            attempts = attempts - 1;
            let candidate = next_random_usize(&mut self.rng);
            if candidate != 0 {
                if !self.allocated.contains_key(&candidate) {
                    return EntryId(candidate);
                }
            }
        }
        let n = self.allocated.len();
        proof {
            self.allocated.lemma_entries_finite();
        }
        let mut i: usize = 1;
        loop
            invariant
                self.used == pre.used,
                self.capacity == pre.capacity,
                self.allocated == pre.allocated,
                pre.wf(),
                pre == *old(self),
                n as nat == self.allocated.entries().dom().len(),
                n < usize::MAX,
                self.allocated.entries().dom().finite(),
                1 <= i <= n + 1,
                forall|j: usize| 1 <= j < i ==> self.allocated.entries().dom().contains(j),
            decreases n + 1 - i,
        {
            if !self.allocated.contains_key(&i) {
                return EntryId(i);
            }
            if i > n {
                proof {
                    let dom = self.allocated.entries().dom();
                    let probes = probe_set((n + 1) as usize);
                    lemma_probe_set_card((n + 1) as usize);
                    assert forall|x: usize| probes.contains(x) implies dom.contains(x) by {
                        if x < i {
                        } else {
                            assert(x == i);
                        }
                    }
                    assert(probes.subset_of(dom));
                    vstd::set_lib::lemma_len_subset(probes, dom);
                    assert(false);
                }
                return vstd::pervasive::unreached();
            }
            i = i + 1;
        }
    }

    /// Re-links a live id as the globally newest; unknown ids are ignored.
    pub fn set_newest(&mut self, id: EntryId)
        requires
            old(self).wf(),
        ensures
            final(self).wf(),
            final(self).spec_capacity() == old(self).spec_capacity(),
            final(self).spec_used() == old(self).spec_used(),
            final(self).entries() == old(self).entries(),
            if old(self).entries().contains_key(id@) {
                final(self).order() == old(self).order().remove(old(self).order().index_of(id@)).push(
                    id@,
                )
            } else {
                final(self).order() == old(self).order()
            },
    {
        proof {
            self.allocated.lemma_wf_facts();
        }
        let ghost pre = *self;
        let _moved = self.allocated.set_newest(id.raw());
        proof {
            if pre.entries().contains_key(id@) {
                let s = pre.order();
                assert(s.contains(id@));
                let j = choose|j: int| 0 <= j < s.len() && s[j] == id@;
                lemma_index_of_unique(s, id@, j);
                let i = s.index_of(id@);
                assert(0 <= i < s.len() && s[i] == id@);
                lemma_total_remove(s, pre.entries(), i);
                lemma_total_push(s.remove(i), pre.entries(), id@);
                lemma_total_congruence(
                    self.allocated.order(),
                    pre.entries(),
                    self.allocated.entries(),
                );
                s.remove_ensures(i);
                assert forall|k: usize|
                    self.allocated.entries().contains_key(
                        k,
                    ) implies self.allocated.order().contains(k) by {
                    assert(pre.order().contains(k));
                    let j = choose|j: int| 0 <= j < s.len() && s[j] == k;
                    if k == id@ {
                        assert(self.allocated.order().last() == k);
                    } else {
                        assert(j != i);
                        if j < i {
                            assert(s.remove(i)[j] == k);
                            assert(self.allocated.order()[j] == k);
                        } else {
                            assert(s.remove(i)[j - 1] == k);
                            assert(self.allocated.order()[j - 1] == k);
                        }
                    }
                }
            }
        }
    }

    /// Bytes currently charged against the budget.
    pub fn used_bytes(&self) -> (r: usize)
        ensures
            r == self.spec_used(),
    {
        self.used
    }

    /// The byte budget fixed at construction.
    pub fn capacity(&self) -> (r: usize)
        ensures
            r == self.spec_capacity(),
    {
        self.capacity
    }
}

/// Two ids that stand for the same underlying value are the same id: an id
/// holds nothing besides the value its view shows.
pub proof fn lemma_entry_id_view_injective(a: EntryId, b: EntryId)
    requires
        a@ == b@,
    ensures
        a == b,
{
}

/// Law (budget invariant): a well-formed allocator never has more bytes
/// charged than its capacity. Every operation returns the allocator well
/// formed, so this bound holds at all times.
pub proof fn lemma_budget_invariant(a: Allocator)
    requires
        a.wf(),
    ensures
        a.spec_used() <= a.spec_capacity(),
{
}

/// Law (uniqueness): no two simultaneously live allocations share an id.
/// The recency order lists every live id exactly once, and a live id is
/// never zero.
pub proof fn lemma_live_ids_unique(a: Allocator)
    requires
        a.wf(),
    ensures
        a.order().no_duplicates(),
        forall|i: int|
            0 <= i < a.order().len() ==> a.entries().contains_key(#[trigger] a.order()[i]),
        forall|k: usize| a.entries().contains_key(k) ==> a.order().contains(k),
        forall|k: usize| a.entries().contains_key(k) ==> k != 0,
{
    a.lemma_wf_facts();
}

/// Law (touch moves to newest): re-linking a live id as newest puts it at
/// the very end of the recency order, so among its current peers it is the
/// last that eviction, which always takes the front, would reach.
pub proof fn lemma_touched_is_newest(order: Seq<usize>, id: usize)
    requires
        order.no_duplicates(),
        order.contains(id),
    ensures
        ({
            let moved = order.remove(order.index_of(id)).push(id);
            &&& moved.len() == order.len()
            &&& moved.last() == id
            &&& forall|j: int| 0 <= j < moved.len() - 1 ==> moved[j] != id
        }),
{
    let w = choose|w: int| 0 <= w < order.len() && order[w] == id;
    crate::lru_map::lemma_index_of_unique(order, id, w);
    let i = order.index_of(id);
    order.remove_ensures(i);
    let moved = order.remove(i).push(id);
    assert forall|j: int| 0 <= j < moved.len() - 1 implies moved[j] != id by {
        if j < i {
            assert(moved[j] == order[j]);
        } else {
            assert(moved[j] == order[j + 1]);
        }
    }
}

} // verus!
