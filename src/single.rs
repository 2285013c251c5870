//! A private cache whose sets are least-recently-used caches of the `lru` crate.

use vstd::prelude::*;
use crate::config::{ConfigError, is_pow2, power_of_two};
use crate::ts_cache::TimestampCacheMetaData;
use lru::LruCache;
use std::num::NonZeroUsize;

verus! {

/// Line size in bytes, as a power of two.
pub const BLOCK_SIZE_LOG2: usize = 6;

/// Line size in bytes.
pub const BLOCK_SIZE: usize = 64;

/// Metadata kept per cached block that carries a dirty bit.
pub trait CacheMetaData {
    spec fn spec_is_dirty(&self) -> bool;

    fn is_dirty(&self) -> (r: bool)
        ensures
            r == self.spec_is_dirty(),
    ;

    fn set_dirty(&mut self, dirty: bool)
        ensures
            final(self).spec_is_dirty() == dirty,
    ;
}

impl CacheMetaData for TimestampCacheMetaData {
    open spec fn spec_is_dirty(&self) -> bool {
        self.is_dirty
    }

    fn is_dirty(&self) -> (r: bool) {
        self.is_dirty
    }

    fn set_dirty(&mut self, dirty: bool) {
        self.is_dirty = dirty;
    }
}

#[verifier::external_type_specification]
#[verifier::external_body]
#[verifier::reject_recursive_types(K)]
#[verifier::reject_recursive_types(V)]
#[verifier::reject_recursive_types(S)]
pub struct ExLruCache<K, V, S>(LruCache<K, V, S>);

#[verifier::external_type_specification]
#[verifier::external_body]
pub struct ExDefaultHasher(lru::DefaultHasher);

/// The entries of an LRU cache, most recently used first.
pub uninterp spec fn lru_entries(c: LruCache<usize, TimestampCacheMetaData>) -> Seq<
    (usize, TimestampCacheMetaData),
>;

/// The capacity an LRU cache was made with.
pub uninterp spec fn lru_capacity(c: LruCache<usize, TimestampCacheMetaData>) -> nat;

/// Position of the entry of key `k`, or -1.
pub open spec fn key_pos(s: Seq<(usize, TimestampCacheMetaData)>, k: usize) -> int
    decreases s.len(),
{
    if s.len() == 0 {
        -1
    } else if s.last().0 == k {
        s.len() - 1
    } else {
        key_pos(s.drop_last(), k)
    }
}

proof fn lemma_key_pos(s: Seq<(usize, TimestampCacheMetaData)>, k: usize)
    ensures
        -1 <= key_pos(s, k) < s.len(),
        key_pos(s, k) >= 0 ==> s[key_pos(s, k)].0 == k,
    decreases s.len(),
{
    if s.len() > 0 {
        lemma_key_pos(s.drop_last(), k);
    }
}

/// No key appears twice.
pub open spec fn keys_unique(s: Seq<(usize, TimestampCacheMetaData)>) -> bool {
    forall|i: int, j: int| 0 <= i < j < s.len() ==> s[i].0 != s[j].0
}

proof fn lemma_key_pos_at(s: Seq<(usize, TimestampCacheMetaData)>, k: usize, i: int)
    requires
        keys_unique(s),
        0 <= i < s.len(),
        s[i].0 == k,
    ensures
        key_pos(s, k) == i,
    decreases s.len(),
{
    if i < s.len() - 1 {
        lemma_key_pos_at(s.drop_last(), k, i);
    }
}

proof fn lemma_key_absent(s: Seq<(usize, TimestampCacheMetaData)>, k: usize)
    requires
        key_pos(s, k) == -1,
    ensures
        forall|i: int| 0 <= i < s.len() ==> (#[trigger] s[i]).0 != k,
    decreases s.len(),
{
    if s.len() > 0 {
        lemma_key_absent(s.drop_last(), k);
        assert forall|i: int| 0 <= i < s.len() implies (#[trigger] s[i]).0 != k by {
            if i < s.len() - 1 {
                assert(s[i] == s.drop_last()[i]);
            }
        }
    }
}

/// What pushing a key keeps: the keys stay unique and the set no larger than its capacity.
proof fn lemma_push_keeps(s: Seq<(usize, TimestampCacheMetaData)>, k: usize, v: TimestampCacheMetaData, cap: nat)
    requires
        keys_unique(s),
        s.len() <= cap,
        cap > 0,
    ensures
        ({
            let p = key_pos(s, k);
            let t = if p >= 0 {
                seq![(k, v)] + s.remove(p)
            } else if s.len() == cap {
                seq![(k, v)] + s.drop_last()
            } else {
                seq![(k, v)] + s
            };
            keys_unique(t) && t.len() <= cap
        }),
{
    lemma_key_pos(s, k);
    let p = key_pos(s, k);
    if p < 0 {
        lemma_key_absent(s, k);
    }
    let t = if p >= 0 {
        seq![(k, v)] + s.remove(p)
    } else if s.len() == cap {
        seq![(k, v)] + s.drop_last()
    } else {
        seq![(k, v)] + s
    };
    assert forall|i: int, j: int| 0 <= i < j < t.len() implies t[i].0 != t[j].0 by {
        if i == 0 {
            if p >= 0 {
                let jj = if j - 1 < p { j - 1 } else { j };
                assert(t[j] == s[jj]);
            } else {
                assert(t[j] == s[j - 1]);
            }
        } else if p >= 0 {
            let ii = if i - 1 < p { i - 1 } else { i };
            let jj = if j - 1 < p { j - 1 } else { j };
            assert(t[i] == s[ii] && t[j] == s[jj]);
        } else {
            assert(t[i] == s[i - 1] && t[j] == s[j - 1]);
        }
    }
}

proof fn lemma_remove_keeps(s: Seq<(usize, TimestampCacheMetaData)>, p: int)
    requires
        keys_unique(s),
        0 <= p < s.len(),
    ensures
        keys_unique(s.remove(p)),
{
    let t = s.remove(p);
    assert forall|i: int, j: int| 0 <= i < j < t.len() implies t[i].0 != t[j].0 by {
        let ii = if i < p { i } else { i + 1 };
        let jj = if j < p { j } else { j + 1 };
        assert(t[i] == s[ii] && t[j] == s[jj]);
    }
}

/// Relies on lru::LruCache::new: an empty cache that holds at most `cap` entries.
#[verifier::external_body]
fn lru_new(cap: usize) -> (r: LruCache<usize, TimestampCacheMetaData>)
    requires
        cap > 0,
    ensures
        lru_entries(r) == Seq::<(usize, TimestampCacheMetaData)>::empty(),
        lru_capacity(r) == cap,
{
    LruCache::new(NonZeroUsize::new(cap).unwrap())
}

/// Relies on lru::LruCache::push: the pair becomes the most recent entry; a present key has its
/// old pair returned, and a full cache returns its least recently used entry.
#[verifier::external_body]
fn lru_push(c: &mut LruCache<usize, TimestampCacheMetaData>, k: usize, v: TimestampCacheMetaData) -> (r:
    Option<(usize, TimestampCacheMetaData)>)
    ensures
        lru_capacity(*final(c)) == lru_capacity(*old(c)),
        ({
            let s = lru_entries(*old(c));
            let p = key_pos(s, k);
            if p >= 0 {
                &&& r == Some((k, s[p].1))
                &&& lru_entries(*final(c)) == seq![(k, v)] + s.remove(p)
            } else if s.len() == lru_capacity(*old(c)) {
                &&& r == Some(s.last())
                &&& lru_entries(*final(c)) == seq![(k, v)] + s.drop_last()
            } else {
                &&& r is None
                &&& lru_entries(*final(c)) == seq![(k, v)] + s
            }
        }),
{
    c.push(k, v)
}

/// Relies on lru::LruCache::pop: removes the entry of `k` and returns its value.
#[verifier::external_body]
fn lru_pop(c: &mut LruCache<usize, TimestampCacheMetaData>, k: usize) -> (r: Option<
    TimestampCacheMetaData,
>)
    ensures
        lru_capacity(*final(c)) == lru_capacity(*old(c)),
        ({
            let s = lru_entries(*old(c));
            let p = key_pos(s, k);
            if p >= 0 {
                &&& r == Some(s[p].1)
                &&& lru_entries(*final(c)) == s.remove(p)
            } else {
                &&& r is None
                &&& lru_entries(*final(c)) == s
            }
        }),
{
    c.pop(&k)
}

/// Relies on lru::LruCache::len: the number of entries.
#[verifier::external_body]
fn lru_len(c: &LruCache<usize, TimestampCacheMetaData>) -> (r: usize)
    ensures
        r == lru_entries(*c).len(),
{
    c.len()
}

/// What an update of a private cache did.
#[derive(Clone, Copy, PartialEq, Eq, Structural, Debug)]
pub enum SingleCacheResult {
    Hit,
    Miss,
    /// The block was brought in and the least recently used one left: (block id, its metadata).
    MissAndEvicted(usize, TimestampCacheMetaData),
}

/// A private cache of `S` least-recently-used sets of `A` entries; block `b` lives in set
/// `b % S`.
pub struct PrivateCache {
    sets: Vec<LruCache<usize, TimestampCacheMetaData>>,
    associativity: usize,
}

impl PrivateCache {
    /// The entries of each set, most recently used first.
    pub closed spec fn entries(&self) -> Seq<Seq<(usize, TimestampCacheMetaData)>> {
        self.sets@.map_values(|c: LruCache<usize, TimestampCacheMetaData>| lru_entries(c))
    }

    pub closed spec fn spec_associativity(&self) -> nat {
        self.associativity as nat
    }

    pub closed spec fn wf(&self) -> bool {
        &&& self.sets@.len() > 0
        &&& is_pow2(self.sets@.len() as nat)
        &&& self.associativity > 0
        &&& forall|i: int|
            0 <= i < self.sets@.len() ==> lru_capacity(#[trigger] self.sets@[i]) == self.associativity
                && lru_entries(self.sets@[i]).len() <= self.associativity && keys_unique(
                lru_entries(self.sets@[i]),
            )
    }

    /// A cache of `sets` empty sets of `associativity` entries.
    pub fn new(associativity: usize, sets: usize) -> (r: Result<Self, ConfigError>)
        ensures
            !is_pow2(sets as nat) ==> r == Err::<Self, ConfigError>(ConfigError::SetCountNotPowerOfTwo),
            is_pow2(sets as nat) && associativity == 0 ==> r == Err::<Self, ConfigError>(
                ConfigError::ZeroAssociativity,
            ),
            r matches Ok(c) ==> {
                &&& c.wf()
                &&& c.entries() == Seq::new(
                    sets as nat,
                    |i: int| Seq::<(usize, TimestampCacheMetaData)>::empty(),
                )
                &&& c.spec_associativity() == associativity
            },
            is_pow2(sets as nat) && associativity > 0 ==> r is Ok,
    {
        if !power_of_two(sets) {
            return Err(ConfigError::SetCountNotPowerOfTwo);
        }
        if associativity == 0 {
            return Err(ConfigError::ZeroAssociativity);
        }
        let mut v: Vec<LruCache<usize, TimestampCacheMetaData>> = Vec::new();
        let mut i: usize = 0;
        while i < sets
            invariant
                i <= sets,
                associativity > 0,
                v@.len() == i,
                forall|j: int|
                    0 <= j < i ==> lru_capacity(#[trigger] v@[j]) == associativity && lru_entries(v@[j])
                        == Seq::<(usize, TimestampCacheMetaData)>::empty(),
            decreases sets - i,
        {
            v.push(lru_new(associativity));
            i = i + 1;
        }
        let c = PrivateCache { sets: v, associativity };
        proof {
            assert(c.entries() =~= Seq::new(
                sets as nat,
                |i: int| Seq::<(usize, TimestampCacheMetaData)>::empty(),
            ));
        }
        Ok(c)
    }

    /// The set that block `b` maps to.
    pub open spec fn set_of(&self, b: usize) -> int {
        b as int % self.entries().len() as int
    }

    /// Records `block_id` as the most recent entry of its set with `updated_metadata`; on a hit
    /// a dirty block stays dirty.
    pub fn update(&mut self, block_id: usize, updated_metadata: TimestampCacheMetaData) -> (r:
        SingleCacheResult)
        requires
            old(self).wf(),
        ensures
            final(self).wf(),
            final(self).spec_associativity() == old(self).spec_associativity(),
            final(self).entries().len() == old(self).entries().len(),
            forall|i: int|
                0 <= i < old(self).entries().len() && i != old(self).set_of(block_id)
                    ==> #[trigger] final(self).entries()[i] == old(self).entries()[i],
            ({
                let s = old(self).entries()[old(self).set_of(block_id)];
                let p = key_pos(s, block_id);
                let now = final(self).entries()[old(self).set_of(block_id)];
                if p >= 0 {
                    &&& r == SingleCacheResult::Hit
                    &&& now == seq![
                        (
                            block_id,
                            TimestampCacheMetaData {
                                is_dirty: updated_metadata.is_dirty || s[p].1.is_dirty,
                                ..updated_metadata
                            },
                        ),
                    ] + s.remove(p)
                } else if s.len() == old(self).spec_associativity() {
                    &&& r == SingleCacheResult::MissAndEvicted(s.last().0, s.last().1)
                    &&& now == seq![(block_id, updated_metadata)] + s.drop_last()
                } else {
                    &&& r == SingleCacheResult::Miss
                    &&& now == seq![(block_id, updated_metadata)] + s
                }
            }),
    {
        let k = block_id % self.sets.len();
        let ghost s = lru_entries(self.sets@[k as int]);
        proof {
            lemma_key_pos(s, block_id);
            lemma_push_keeps(s, block_id, updated_metadata, self.associativity as nat);
        }
        let replaced = lru_push(&mut self.sets[k], block_id, updated_metadata);
        let r = match replaced {
            Some((evicted_block_id, evicted_metadata)) => {
                if evicted_block_id != block_id {
                    SingleCacheResult::MissAndEvicted(evicted_block_id, evicted_metadata)
                } else {
                    if evicted_metadata.is_dirty() {
                        let merged = TimestampCacheMetaData { ts: updated_metadata.ts, is_dirty: true };
                        let ghost mid = lru_entries(self.sets@[k as int]);
                        proof {
                            lemma_key_pos_at(mid, block_id, 0);
                            lemma_push_keeps(mid, block_id, merged, self.associativity as nat);
                        }
                        lru_push(&mut self.sets[k], block_id, merged);
                        proof {
                            assert(mid.remove(0) =~= s.remove(key_pos(s, block_id)));
                        }
                    }
                    SingleCacheResult::Hit
                }
            },
            None => SingleCacheResult::Miss,
        };
        proof {
            assert forall|i: int|
                0 <= i < old(self).entries().len() && i != k implies #[trigger] self.entries()[i]
                == old(self).entries()[i] by {
                assert(self.sets@[i] == old(self).sets@[i]);
            }
            assert(self.entries()[k as int] == lru_entries(self.sets@[k as int]));
            assert(old(self).entries()[k as int] == s);
        }
        r
    }

    /// Removes `block_id` from its set and returns its metadata.
    pub fn invalidate(&mut self, block_id: usize) -> (r: Option<TimestampCacheMetaData>)
        requires
            old(self).wf(),
        ensures
            final(self).wf(),
            final(self).spec_associativity() == old(self).spec_associativity(),
            final(self).entries().len() == old(self).entries().len(),
            forall|i: int|
                0 <= i < old(self).entries().len() && i != old(self).set_of(block_id)
                    ==> #[trigger] final(self).entries()[i] == old(self).entries()[i],
            ({
                let s = old(self).entries()[old(self).set_of(block_id)];
                let p = key_pos(s, block_id);
                let now = final(self).entries()[old(self).set_of(block_id)];
                if p >= 0 {
                    r == Some(s[p].1) && now == s.remove(p)
                } else {
                    r is None && now == s
                }
            }),
    {
        let k = block_id % self.sets.len();
        proof {
            lemma_key_pos(lru_entries(self.sets@[k as int]), block_id);
            if key_pos(lru_entries(self.sets@[k as int]), block_id) >= 0 {
                lemma_remove_keeps(
                    lru_entries(self.sets@[k as int]),
                    key_pos(lru_entries(self.sets@[k as int]), block_id),
                );
            }
        }
        let r = lru_pop(&mut self.sets[k], block_id);
        proof {
            assert forall|i: int|
                0 <= i < old(self).entries().len() && i != k implies #[trigger] self.entries()[i]
                == old(self).entries()[i] by {
                assert(self.sets@[i] == old(self).sets@[i]);
            }
        }
        r
    }

    /// Whether every set holds as many entries as it can.
    pub fn is_fully_warmed_up(&self) -> (r: bool)
        requires
            self.wf(),
        ensures
            r == forall|i: int|
                0 <= i < self.entries().len() ==> (#[trigger] self.entries()[i]).len()
                    == self.spec_associativity(),
    {
        let n = self.sets.len();
        let mut i: usize = 0;
        while i < n
            invariant
                i <= n,
                n == self.entries().len(),
                forall|j: int|
                    0 <= j < i ==> (#[trigger] self.entries()[j]).len() == self.spec_associativity(),
            decreases n - i,
        {
            if lru_len(&self.sets[i]) != self.associativity {
                proof {
                    assert(self.entries()[i as int] == lru_entries(self.sets@[i as int]));
                }
                return false;
            }
            i = i + 1;
        }
        true
    }

    /// Number of entries held over all sets.
    pub fn occupied(&self) -> (r: usize)
        requires
            self.wf(),
            self.entries().len() * self.spec_associativity() <= usize::MAX,
        ensures
            r == total_entries(self.entries(), self.entries().len() as int),
    {
        let n = self.sets.len();
        let a = self.associativity;
        let mut total: usize = 0;
        let mut i: usize = 0;
        while i < n
            invariant
                i <= n,
                n == self.entries().len(),
                a == self.spec_associativity(),
                n * a <= usize::MAX,
                self.wf(),
                total == total_entries(self.entries(), i as int),
                total <= i * a,
            decreases n - i,
        {
            let l = lru_len(&self.sets[i]);
            proof {
                assert(self.entries()[i as int] == lru_entries(self.sets@[i as int]));
                assert((i + 1) * a == i * a + a) by (nonlinear_arith);
                assert((i + 1) * a <= n * a) by (nonlinear_arith)
                    requires
                        i + 1 <= n,
                ;
            }
            total = total + l;
            i = i + 1;
        }
        total
    }

    /// Number of sets.
    pub fn set_count(&self) -> (r: usize)
        ensures
            r == self.entries().len(),
    {
        self.sets.len()
    }

    /// Entries per set.
    pub fn associativity(&self) -> (r: usize)
        ensures
            r == self.spec_associativity(),
    {
        self.associativity
    }

    /// Number of entries the cache can hold.
    pub fn capacity(&self) -> (r: usize)
        requires
            self.wf(),
            self.entries().len() * self.spec_associativity() <= usize::MAX,
        ensures
            r == self.entries().len() * self.spec_associativity(),
    {
        self.sets.len() * self.associativity
    }
}

/// Number of entries in the first `n` sets.
pub open spec fn total_entries(sets: Seq<Seq<(usize, TimestampCacheMetaData)>>, n: int) -> nat
    decreases n,
{
    if n <= 0 {
        0
    } else {
        total_entries(sets, n - 1) + sets[n - 1].len()
    }
}

} // verus!
