//! The coordinator state shared by every cache drawing on one budget.
//!
//! It pairs the allocator with a registry mapping each live allocation id to
//! the handle of whichever store owns that entry. `claim` runs the
//! allocate-or-evict loop and hands back the evicted ids with their
//! registered handles, so the caller can notify the owning stores while it
//! still holds whatever lock guards this state.

use std::collections::HashMap;
use vstd::prelude::*;

use crate::allocator::{total_of, AllocResult, Allocator, EntryId};

verus! {

/// Allocator plus the id-to-owner registry; one per shared budget.
pub struct InnerShared<H> {
    allocator: Allocator,
    entry_holders: HashMap<usize, H>,
}

impl<H> InnerShared<H> {
    /// Charged size by live allocation id.
    pub closed spec fn entries(self) -> Map<usize, usize> {
        self.allocator.entries()
    }

    /// Live allocation ids, least recently touched first.
    pub closed spec fn order(self) -> Seq<usize> {
        self.allocator.order()
    }

    /// The registered owner handle of each live id.
    pub closed spec fn registry(self) -> Map<usize, H> {
        self.entry_holders@
    }

    /// Bytes currently charged.
    pub closed spec fn used_spec(self) -> usize {
        self.allocator.spec_used()
    }

    /// The byte budget.
    pub closed spec fn capacity_spec(self) -> usize {
        self.allocator.spec_capacity()
    }

    /// Invariant: the allocator is well formed and the registry holds an
    /// owner for exactly the ids the allocator tracks.
    pub closed spec fn wf(self) -> bool {
        &&& self.allocator.wf()
        &&& self.entry_holders@.dom() == self.allocator.entries().dom()
    }

    /// A fresh coordinator around an empty budget of `byte_limit` bytes.
    pub fn new(byte_limit: usize) -> (s: Self)
        ensures
            s.wf(),
            s.capacity_spec() == byte_limit,
            s.used_spec() == 0,
            s.entries() == Map::<usize, usize>::empty(),
            s.registry() == Map::<usize, H>::empty(),
            s.order() == Seq::<usize>::empty(),
    {
        let s = InnerShared { allocator: Allocator::new(byte_limit), entry_holders: HashMap::new() };
        proof {
            assert(s.entry_holders@.dom() =~= s.allocator.entries().dom());
        }
        s
    }

    /// Claims `bytes` for a new entry owned by `holder`.
    ///
    /// Evicts globally oldest entries one at a time until the request fits,
    /// then grants a fresh id; a request larger than the whole budget is
    /// refused outright. Returns the granted id, if any, together with the
    /// evicted ids and their registered owner handles, oldest first: the
    /// caller must tell each owner to drop its entry. Exactly the requests
    /// no larger than the budget are granted, after the fewest evictions
    /// that make room.
    pub fn claim(&mut self, bytes: usize, holder: H) -> (r: (Option<EntryId>, Vec<(EntryId, H)>))
        requires
            old(self).wf(),
            old(self).entries().dom().len() < usize::MAX as nat,
        ensures
            final(self).wf(),
            final(self).used_spec() <= final(self).capacity_spec(),
            final(self).capacity_spec() == old(self).capacity_spec(),
            r.1@.len() <= old(self).order().len(),
            forall|j: int|
                0 <= j < r.1@.len() ==> (#[trigger] r.1@[j]).0@ == old(self).order()[j]
                    && old(self).registry().contains_key(r.1@[j].0@) && r.1@[j].1 == old(
                    self,
                ).registry()[r.1@[j].0@],
            match r.0 {
                None => {
                    &&& bytes > old(self).capacity_spec()
                    &&& r.1@.len() == 0
                    &&& *final(self) == *old(self)
                },
                Some(id) => {
                    let k = r.1@.len() as int;
                    let gone = old(self).order().subrange(0, k).to_set();
                    &&& bytes <= old(self).capacity_spec()
                    &&& id@ != 0
                    &&& !old(self).entries().remove_keys(gone).contains_key(id@)
                    &&& final(self).order() == old(self).order().subrange(
                        k,
                        old(self).order().len() as int,
                    ).push(id@)
                    &&& final(self).entries() == old(self).entries().remove_keys(gone).insert(id@, bytes)
                    &&& final(self).registry() == old(self).registry().remove_keys(gone).insert(
                        id@,
                        holder,
                    )
                    &&& final(self).used_spec() as int == old(self).used_spec() - total_of(
                        old(self).order().subrange(0, k),
                        old(self).entries(),
                    ) + bytes
                    &&& (k > 0 ==> old(self).used_spec() - total_of(
                        old(self).order().subrange(0, k - 1),
                        old(self).entries(),
                    ) + bytes > old(self).capacity_spec())
                },
            },
    {
        let mut evicted: Vec<(EntryId, H)> = Vec::new();
        proof {
            old(self).allocator.lemma_wf_facts();
            old(self).allocator.lemma_entries_finite();
            assert(old(self).order().subrange(0, 0) =~= Seq::<usize>::empty());
            assert(old(self).entries().remove_keys(Seq::<usize>::empty().to_set()) =~= old(
                self,
            ).entries());
            assert(old(self).registry().remove_keys(Seq::<usize>::empty().to_set()) =~= old(
                self,
            ).registry());
        }
        loop
            invariant
                old(self).wf(),
                old(self).entries().dom().len() < usize::MAX as nat,
                self.wf(),
                self.capacity_spec() == old(self).capacity_spec(),
                evicted@.len() <= old(self).order().len(),
                forall|j: int|
                    0 <= j < evicted@.len() ==> (#[trigger] evicted@[j]).0@ == old(self).order()[j]
                        && old(self).registry().contains_key(evicted@[j].0@) && evicted@[j].1
                        == old(self).registry()[evicted@[j].0@],
                self.order() == old(self).order().subrange(
                    evicted@.len() as int,
                    old(self).order().len() as int,
                ),
                self.entries() == old(self).entries().remove_keys(
                    old(self).order().subrange(0, evicted@.len() as int).to_set(),
                ),
                self.registry() == old(self).registry().remove_keys(
                    old(self).order().subrange(0, evicted@.len() as int).to_set(),
                ),
                self.used_spec() as int == old(self).used_spec() - total_of(
                    old(self).order().subrange(0, evicted@.len() as int),
                    old(self).entries(),
                ),
                evicted@.len() == 0 ==> *self == *old(self),
                evicted@.len() > 0 ==> bytes <= old(self).capacity_spec(),
                evicted@.len() > 0 ==> old(self).used_spec() - total_of(
                    old(self).order().subrange(0, evicted@.len() as int - 1),
                    old(self).entries(),
                ) + bytes > old(self).capacity_spec(),
                self.entries().dom().len() <= old(self).entries().dom().len(),
            decreases self.order().len(),
        {
            let ghost cur = *self;
            let ghost k: int = evicted@.len() as int;
            let outcome = self.allocator.try_alloc(bytes);
            match outcome {
                AllocResult::Success(id) => {
                    proof {
                        self.allocator.lemma_wf_facts();
                        assert(self.entries() =~= old(self).entries().remove_keys(
                            old(self).order().subrange(0, k).to_set(),
                        ).insert(id@, bytes));
                        assert(self.registry().insert(id@, holder) =~= old(
                            self,
                        ).registry().remove_keys(old(self).order().subrange(0, k).to_set()).insert(
                            id@,
                            holder,
                        ));
                    }
                    self.entry_holders.insert(id.raw(), holder);
                    proof {
                        assert(self.entry_holders@.dom() =~= self.allocator.entries().dom());
                    }
                    return (Some(id), evicted);
                },
                AllocResult::Evict(victim) => {
                    proof {
                        old(self).allocator.lemma_wf_facts();
                        assert(victim@ == cur.order()[0]);
                        assert(cur.order()[0] == old(self).order()[k]);
                        assert(old(self).entries().contains_key(old(self).order()[k]));
                        assert(self.entry_holders@.dom() == cur.entries().dom());
                        assert(cur.entries().contains_key(victim@));
                    }
                    let h = self.evict(victim);
                    evicted.push((victim, h));
                    proof {
                        let k2: int = k + 1;
                        let pre_order = old(self).order();
                        assert(pre_order.subrange(0, k2) =~= pre_order.subrange(0, k).push(
                            pre_order[k],
                        ));
                        assert(pre_order.subrange(k2, pre_order.len() as int) =~= pre_order
                            .subrange(k, pre_order.len() as int).drop_first());
                        cur.allocator.lemma_entries_finite();
                        self.allocator.lemma_entries_finite();
                        let a = pre_order.subrange(0, k);
                        let b = pre_order.subrange(0, k2);
                        assert forall|x: usize| b.to_set().contains(x) implies a.to_set().insert(
                            victim@,
                        ).contains(x) by {
                            let ix = choose|ix: int| 0 <= ix < b.len() && b[ix] == x;
                            if ix < k {
                                assert(a[ix] == x);
                            } else {
                                assert(b[ix] == victim@);
                            }
                        }
                        assert forall|x: usize|
                            a.to_set().insert(victim@).contains(x) implies b.to_set().contains(
                            x,
                        ) by {
                            if x == victim@ {
                                assert(b[k] == x);
                            } else {
                                let ix = choose|ix: int| 0 <= ix < a.len() && a[ix] == x;
                                assert(b[ix] == x);
                            }
                        }
                        assert(b.to_set() =~= a.to_set().insert(victim@));
                        assert(self.entries() =~= old(self).entries().remove_keys(
                            pre_order.subrange(0, k2).to_set(),
                        ));
                        assert(self.registry() =~= old(self).registry().remove_keys(
                            pre_order.subrange(0, k2).to_set(),
                        ));
                        crate::allocator::lemma_total_push(
                            pre_order.subrange(0, k),
                            old(self).entries(),
                            victim@,
                        );
                        assert(old(self).entries()[victim@] == cur.entries()[victim@]);
                        assert(self.entry_holders@.dom() =~= self.allocator.entries().dom());
                    }
                },
                AllocResult::TooLarge => {
                    proof {
                        self.allocator.lemma_wf_facts();
                    }
                    return (None, evicted);
                },
            }
        }
    }

    /// Removes and returns the owner handle registered for a live id.
    fn evict(&mut self, id: EntryId) -> (h: H)
        requires
            old(self).registry().contains_key(id@),
        ensures
            final(self).registry() == old(self).registry().remove(id@),
            h == old(self).registry()[id@],
            final(self).allocator == old(self).allocator,
    {
        match self.entry_holders.remove(&id.raw()) {
            Some(h) => h,
            None => vstd::pervasive::unreached(),
        }
    }

    /// Marks a live id as the globally newest; unknown ids are ignored.
    pub fn touch(&mut self, id: EntryId)
        requires
            old(self).wf(),
        ensures
            final(self).wf(),
            final(self).capacity_spec() == old(self).capacity_spec(),
            final(self).used_spec() == old(self).used_spec(),
            final(self).entries() == old(self).entries(),
            final(self).registry() == old(self).registry(),
            if old(self).entries().contains_key(id@) {
                final(self).order() == old(self).order().remove(old(self).order().index_of(id@)).push(
                    id@,
                )
            } else {
                final(self).order() == old(self).order()
            },
    {
        self.allocator.set_newest(id);
    }

    /// Bytes currently charged against the budget.
    pub fn used_bytes(&self) -> (r: usize)
        ensures
            r == self.used_spec(),
    {
        self.allocator.used_bytes()
    }

    /// The byte budget fixed at construction.
    pub fn capacity(&self) -> (r: usize)
        ensures
            r == self.capacity_spec(),
    {
        self.allocator.capacity()
    }
}

/// Law (budget invariant, coordinator level): a well-formed coordinator
/// never has more bytes charged than its budget.
pub proof fn lemma_coordinator_budget_invariant<H>(s: InnerShared<H>)
    requires
        s.wf(),
    ensures
        s.used_spec() <= s.capacity_spec(),
{
    s.allocator.lemma_wf_facts();
}

/// Law (uniqueness, coordinator level): the global recency order lists each
/// live id exactly once, every live id is non-zero, and the registry holds
/// an owner for exactly the live ids.
pub proof fn lemma_coordinator_ids_unique<H>(s: InnerShared<H>)
    requires
        s.wf(),
    ensures
        s.order().no_duplicates(),
        forall|i: int|
            0 <= i < s.order().len() ==> s.entries().contains_key(#[trigger] s.order()[i]),
        forall|k: usize| s.entries().contains_key(k) ==> s.order().contains(k),
        forall|k: usize| s.entries().contains_key(k) ==> k != 0,
        s.registry().dom() == s.entries().dom(),
{
    s.allocator.lemma_wf_facts();
}

} // verus!
