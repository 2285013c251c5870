//! A per-core cache: an array of associative sets indexed by block id.

use vstd::prelude::*;
use crate::config::{ConfigError, is_pow2, power_of_two};
use crate::ts_set::{
    CacheReturnResult, SetView, TimestampCacheSet, fresh, lemma_accessed_wf, lemma_peeked_shape,
};

verus! {

/// Timestamp and dirtiness of a cached block.
#[derive(Clone, Copy, PartialEq, Eq, Structural, Debug)]
pub struct TimestampCacheMetaData {
    pub ts: usize,
    pub is_dirty: bool,
}

/// Number of full sets among the first `n`.
pub open spec fn full_count(sets: Seq<SetView>, n: int) -> nat
    decreases n,
{
    if n <= 0 {
        0
    } else {
        full_count(sets, n - 1) + if sets[n - 1].cold == sets[n - 1].ways() {
            1nat
        } else {
            0nat
        }
    }
}

proof fn lemma_full_count_bound(sets: Seq<SetView>, n: int)
    requires
        0 <= n <= sets.len(),
    ensures
        full_count(sets, n) <= n,
    decreases n,
{
    if n > 0 {
        lemma_full_count_bound(sets, n - 1);
    }
}

proof fn lemma_full_count_update(sets: Seq<SetView>, i: int, x: SetView, n: int)
    requires
        0 <= i < sets.len(),
        0 <= n <= sets.len(),
    ensures
        full_count(sets.update(i, x), n) + (if i < n && sets[i].cold == sets[i].ways() {
            1int
        } else {
            0int
        }) == full_count(sets, n) + (if i < n && x.cold == x.ways() {
            1int
        } else {
            0int
        }),
    decreases n,
{
    if n > 0 {
        lemma_full_count_update(sets, i, x, n - 1);
    }
}

/// A cache of `S` sets, each of the same associativity; block `b` lives in set `b % S`.
#[derive(Debug)]
pub struct TimestampCache {
    sets: Vec<TimestampCacheSet>,
    warmed_count: usize,
    associativity: usize,
}

impl View for TimestampCache {
    type V = Seq<SetView>;

    closed spec fn view(&self) -> Seq<SetView> {
        self.sets@.map_values(|s: TimestampCacheSet| s@)
    }
}

impl TimestampCache {
    pub closed spec fn spec_associativity(&self) -> nat {
        self.associativity as nat
    }

    pub closed spec fn spec_warmed_count(&self) -> nat {
        self.warmed_count as nat
    }

    pub open spec fn set_of(&self, block_id: usize) -> int {
        block_id as int % self@.len() as int
    }

    pub closed spec fn wf(&self) -> bool {
        &&& self.sets@.len() > 0
        &&& is_pow2(self.sets@.len() as nat)
        &&& self.associativity > 0
        &&& forall|i: int|
            0 <= i < self.sets@.len() ==> (#[trigger] self.sets@[i])@.wf() && self.sets@[i]@.ways()
                == self.associativity
        &&& self.warmed_count == full_count(self@, self@.len() as int)
    }

    /// What every well-formed cache satisfies, for callers.
    pub proof fn lemma_wf(&self)
        requires
            self.wf(),
        ensures
            self@.len() > 0,
            is_pow2(self@.len() as nat),
            self.spec_associativity() > 0,
            forall|i: int|
                0 <= i < self@.len() ==> (#[trigger] self@[i]).wf() && self@[i].ways()
                    == self.spec_associativity(),
            self.spec_warmed_count() == full_count(self@, self@.len() as int),
    {
    }

    /// A cache of `set_count` empty sets of `associativity` ways.
    pub fn new(associativity: usize, set_count: usize) -> (r: Result<Self, ConfigError>)
        ensures
            !is_pow2(set_count as nat) ==> r == Err::<Self, ConfigError>(
                ConfigError::SetCountNotPowerOfTwo,
            ),
            is_pow2(set_count as nat) && associativity == 0 ==> r == Err::<Self, ConfigError>(
                ConfigError::ZeroAssociativity,
            ),
            is_pow2(set_count as nat) && associativity > 0 ==> r is Ok,
            r matches Ok(c) ==> {
                &&& c.wf()
                &&& c@.len() == set_count
                &&& c.spec_associativity() == associativity
                &&& c.spec_warmed_count() == 0
                &&& forall|i: int| 0 <= i < set_count ==> fresh(#[trigger] c@[i])
            },
    {
        if !power_of_two(set_count) {
            return Err(ConfigError::SetCountNotPowerOfTwo);
        }
        if associativity == 0 {
            return Err(ConfigError::ZeroAssociativity);
        }
        let mut sets: Vec<TimestampCacheSet> = Vec::new();
        let mut i: usize = 0;
        while i < set_count
            invariant
                i <= set_count,
                associativity > 0,
                sets@.len() == i,
                forall|j: int|
                    0 <= j < i ==> fresh((#[trigger] sets@[j])@) && sets@[j]@.ways() == associativity,
            decreases set_count - i,
        {
            sets.push(TimestampCacheSet::new(associativity));
            i = i + 1;
        }
        let c = TimestampCache { sets, warmed_count: 0, associativity };
        proof {
            assert forall|n: int| 0 <= n <= set_count implies full_count(c@, n) == 0 by {
                lemma_full_count_zero(c@, n);
            }
        }
        Ok(c)
    }
}

impl TimestampCache {
    /// Number of sets.
    pub fn set_count(&self) -> (r: usize)
        ensures
            r == self@.len(),
    {
        self.sets.len()
    }

    /// Ways per set.
    pub fn associativity(&self) -> (r: usize)
        ensures
            r == self.spec_associativity(),
    {
        self.associativity
    }

    /// Number of sets that have filled all their ways.
    pub fn warmed_count(&self) -> (r: usize)
        ensures
            r == self.spec_warmed_count(),
    {
        self.warmed_count
    }

    /// The set of index `i`.
    pub fn set(&self, i: usize) -> (r: &TimestampCacheSet)
        requires
            i < self@.len(),
        ensures
            r@ == self@[i as int],
    {
        &self.sets[i]
    }

    /// Whether an access to `block_id` would break the NX invariant in its set.
    pub fn violates_nx(&self, block_id: usize, is_instruction: bool, is_write: bool) -> (r: bool)
        requires
            self.wf(),
        ensures
            r == self@[self.set_of(block_id)].conflicts(block_id, is_instruction, is_write),
    {
        let k = block_id % self.sets.len();
        self.sets[k].violates_nx(block_id, is_instruction, is_write)
    }

    /// Records an access in the set that `block_id` maps to.
    pub fn record(&mut self, block_id: usize, is_instruction: bool, is_write: bool, ts: usize) -> (r:
        CacheReturnResult)
        requires
            old(self).wf(),
            !old(self)@[old(self).set_of(block_id)].conflicts(block_id, is_instruction, is_write),
        ensures
            final(self).wf(),
            final(self)@ == old(self)@.update(
                old(self).set_of(block_id),
                old(self)@[old(self).set_of(block_id)].accessed(block_id, ts, is_instruction, is_write),
            ),
            final(self).spec_associativity() == old(self).spec_associativity(),
            r == old(self)@[old(self).set_of(block_id)].access_result(block_id),
    {
        let k = block_id % self.sets.len();
        let ghost v0 = self@;
        let old_count = self.sets[k].warm_chunk_count();
        let res = self.sets[k].access(block_id, ts, is_instruction, is_write);
        let new_count = self.sets[k].warm_chunk_count();
        proof {
            assert(self@ =~= v0.update(k as int, self.sets@[k as int]@));
            lemma_full_count_update(v0, k as int, self.sets@[k as int]@, v0.len() as int);
            lemma_full_count_bound(self@, self@.len() as int);
            lemma_accessed_wf(v0[k as int], block_id, ts, is_instruction, is_write);
        }
        if old_count == self.associativity - 1 && new_count == self.associativity {
            self.warmed_count = self.warmed_count + 1;
        }
        res
    }

    /// On a hit in its set, refreshes the line of `block_id`.
    pub fn peek(&mut self, block_id: usize, is_instruction: bool, is_write: bool, ts: usize) -> (r:
        bool)
        requires
            old(self).wf(),
            !old(self)@[old(self).set_of(block_id)].conflicts(block_id, is_instruction, is_write),
        ensures
            final(self).wf(),
            final(self)@ == old(self)@.update(
                old(self).set_of(block_id),
                old(self)@[old(self).set_of(block_id)].peeked(block_id, ts, is_instruction, is_write),
            ),
            final(self).spec_associativity() == old(self).spec_associativity(),
            r == old(self)@[old(self).set_of(block_id)].holds(block_id),
    {
        let k = block_id % self.sets.len();
        let ghost v0 = self@;
        let res = self.sets[k].peek(block_id, ts, is_instruction, is_write);
        proof {
            assert(self@ =~= v0.update(k as int, self.sets@[k as int]@));
            lemma_peeked_shape(v0[k as int], block_id, ts, is_instruction, is_write);
            assert(self@[k as int].ways() == v0[k as int].ways());
            assert forall|i: int|
                0 <= i < self.sets@.len() implies (#[trigger] self.sets@[i])@.wf()
                && self.sets@[i]@.ways() == self.associativity by {
                if i != k {
                    assert(self.sets@[i]@ == v0[i]);
                }
            }
            lemma_full_count_update(v0, k as int, self.sets@[k as int]@, v0.len() as int);
        }
        res
    }
}

proof fn lemma_full_count_zero(sets: Seq<SetView>, n: int)
    requires
        0 <= n <= sets.len(),
        forall|j: int| 0 <= j < sets.len() ==> fresh(#[trigger] sets[j]),
    ensures
        full_count(sets, n) == 0,
    decreases n,
{
    if n > 0 {
        lemma_full_count_zero(sets, n - 1);
    }
}

} // verus!
