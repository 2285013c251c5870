//! One core's hierarchy: a private cache, and a shadow of the shared level that only receives
//! the private cache's evictions and write-backs.

use vstd::prelude::*;
use crate::config::{ConfigError, is_pow2};
use crate::ts_cache::TimestampCache;
use crate::ts_set::{CacheReturnResult, SetView};

verus! {

/// Bytes per cache line; a block id is an address divided by it.
pub const CACHE_LINE_SIZE: usize = 64;

/// An access that would make a block both executable and dirty.
#[derive(Clone, Copy, PartialEq, Eq, Structural, Debug)]
pub struct NxViolation {
    pub block_id: usize,
}

/// The set of cache `c` that block `b` maps to.
pub open spec fn set_index(c: Seq<SetView>, b: usize) -> int {
    b as int % c.len() as int
}

/// A cache after an access to block `b`.
pub open spec fn cache_accessed(c: Seq<SetView>, b: usize, ts: usize, i: bool, w: bool) -> Seq<SetView> {
    c.update(set_index(c, b), c[set_index(c, b)].accessed(b, ts, i, w))
}

/// The shadow cache after the private cache reported `res` for block `b`; `None` when the
/// shadow's update would break the NX invariant.
pub open spec fn shadow_effect(
    sh: Seq<SetView>,
    res: CacheReturnResult,
    b: usize,
    ts: usize,
    i: bool,
    w: bool,
) -> Option<Seq<SetView>> {
    match res {
        CacheReturnResult::Hit => Some(sh),
        CacheReturnResult::Miss => {
            let k = set_index(sh, b);
            if sh[k].conflicts(b, i, w) {
                None
            } else {
                Some(sh.update(k, sh[k].peeked(b, ts, i, w)))
            }
        },
        CacheReturnResult::MissWithEviction(v, vi) => {
            if sh[set_index(sh, v)].conflicts(v, vi, false) {
                None
            } else {
                Some(cache_accessed(sh, v, ts, vi, false))
            }
        },
        CacheReturnResult::MissWithWriteBack(v) => {
            if sh[set_index(sh, v)].conflicts(v, false, true) {
                None
            } else {
                Some(cache_accessed(sh, v, ts, false, true))
            }
        },
    }
}

/// What an access of the core at `paddr` does to hierarchy `h0`, giving `h1` and `r`.
pub open spec fn access_outcome(
    h0: TimestampSingleCoreMemoryHierarchy,
    h1: TimestampSingleCoreMemoryHierarchy,
    r: Result<(), NxViolation>,
    ts: usize,
    paddr: usize,
    is_instruction: bool,
    is_store: bool,
) -> bool {
    let b = (paddr / CACHE_LINE_SIZE) as usize;
    let p = h0.private_view();
    if h0.private_conflict(b, is_instruction, is_store) {
        &&& r == Err::<(), NxViolation>(NxViolation { block_id: b })
        &&& h1.private_view() == p
        &&& h1.shadow_view() == h0.shadow_view()
    } else {
        &&& h1.private_view() == cache_accessed(p, b, ts, is_instruction, is_store)
        &&& match shadow_effect(
            h0.shadow_view(),
            p[set_index(p, b)].access_result(b),
            b,
            ts,
            is_instruction,
            is_store,
        ) {
            Some(s2) => r is Ok && h1.shadow_view() == s2,
            None => r is Err && h1.shadow_view() == h0.shadow_view(),
        }
    }
}

/// A core's private cache and its shadow of the shared level.
#[derive(Debug)]
pub struct TimestampSingleCoreMemoryHierarchy {
    private_cache: TimestampCache,
    local_shared_cache: TimestampCache,
}

impl TimestampSingleCoreMemoryHierarchy {
    pub closed spec fn private_view(&self) -> Seq<SetView> {
        self.private_cache@
    }

    pub closed spec fn shadow_view(&self) -> Seq<SetView> {
        self.local_shared_cache@
    }

    pub closed spec fn private_ref(&self) -> TimestampCache {
        self.private_cache
    }

    pub closed spec fn shadow_ref(&self) -> TimestampCache {
        self.local_shared_cache
    }

    pub closed spec fn wf(&self) -> bool {
        self.private_cache.wf() && self.local_shared_cache.wf()
    }

    /// What every well-formed hierarchy satisfies, for callers.
    pub proof fn lemma_wf(&self)
        requires
            self.wf(),
        ensures
            self.private_ref().wf(),
            self.shadow_ref().wf(),
            self.private_ref()@ == self.private_view(),
            self.shadow_ref()@ == self.shadow_view(),
            self.private_ref().spec_associativity() == self.shape().0,
            self.private_view().len() == self.shape().1,
            self.shadow_ref().spec_associativity() == self.shape().2,
            self.shadow_view().len() == self.shape().3,
    {
    }

    /// The shape of a hierarchy: set counts and associativities of both caches.
    pub closed spec fn shape(&self) -> (nat, nat, nat, nat) {
        (
            self.private_cache.spec_associativity(),
            self.private_cache@.len(),
            self.local_shared_cache.spec_associativity(),
            self.local_shared_cache@.len(),
        )
    }

    /// An empty hierarchy: a private cache of `p_s` sets of `p_a` ways and a shadow of `s_s`
    /// sets of `s_a` ways.
    pub fn new(p_a: usize, p_s: usize, s_a: usize, s_s: usize) -> (r: Result<Self, ConfigError>)
        ensures
            r is Ok <==> (is_pow2(p_s as nat) && is_pow2(s_s as nat) && p_a > 0 && s_a > 0),
            r matches Err(e) ==> e == if !(is_pow2(p_s as nat) && is_pow2(s_s as nat)) {
                ConfigError::SetCountNotPowerOfTwo
            } else {
                ConfigError::ZeroAssociativity
            },
            r matches Ok(h) ==> {
                &&& h.wf()
                &&& h.shape() == (p_a as nat, p_s as nat, s_a as nat, s_s as nat)
                &&& forall|i: int| 0 <= i < p_s ==> crate::ts_set::fresh(#[trigger] h.private_view()[i])
                &&& forall|i: int| 0 <= i < s_s ==> crate::ts_set::fresh(#[trigger] h.shadow_view()[i])
            },
    {
        if !crate::config::power_of_two(p_s) || !crate::config::power_of_two(s_s) {
            return Err(ConfigError::SetCountNotPowerOfTwo);
        }
        let private_cache = match TimestampCache::new(p_a, p_s) {
            Ok(c) => c,
            Err(e) => {
                return Err(e);
            },
        };
        let local_shared_cache = match TimestampCache::new(s_a, s_s) {
            Ok(c) => c,
            Err(e) => {
                return Err(e);
            },
        };
        Ok(TimestampSingleCoreMemoryHierarchy { private_cache, local_shared_cache })
    }

    /// The private cache.
    pub fn private_cache(&self) -> (r: &TimestampCache)
        ensures
            *r == self.private_ref(),
            r@ == self.private_view(),
    {
        &self.private_cache
    }

    /// The shadow of the shared level.
    pub fn local_shared_cache(&self) -> (r: &TimestampCache)
        ensures
            *r == self.shadow_ref(),
            r@ == self.shadow_view(),
    {
        &self.local_shared_cache
    }

    /// Whether the private-cache part of an access would break the NX invariant.
    pub open spec fn private_conflict(&self, b: usize, i: bool, w: bool) -> bool {
        self.private_view()[set_index(self.private_view(), b)].conflicts(b, i, w)
    }

    /// Records an access of the core at address `paddr`. Nothing changes when the private
    /// cache refuses it; when only the shadow refuses it, the private cache has recorded it.
    pub fn access_memory(&mut self, ts: usize, paddr: usize, is_instruction: bool, is_store: bool) -> (r:
        Result<(), NxViolation>)
        requires
            old(self).wf(),
        ensures
            final(self).wf(),
            final(self).shape() == old(self).shape(),
            access_outcome(*old(self), *final(self), r, ts, paddr, is_instruction, is_store),
    {
        let block_id = paddr / CACHE_LINE_SIZE;
        proof {
            self.private_cache.lemma_wf();
            self.local_shared_cache.lemma_wf();
        }
        if self.private_cache.violates_nx(block_id, is_instruction, is_store) {
            return Err(NxViolation { block_id });
        }
        let res = self.private_cache.record(block_id, is_instruction, is_store, ts);
        match res {
            CacheReturnResult::Miss => {
                if self.local_shared_cache.violates_nx(block_id, is_instruction, is_store) {
                    return Err(NxViolation { block_id });
                }
                self.local_shared_cache.peek(block_id, is_instruction, is_store, ts);
                Ok(())
            },
            CacheReturnResult::Hit => Ok(()),
            CacheReturnResult::MissWithEviction(blk, was_instruction) => {
                if self.local_shared_cache.violates_nx(blk, was_instruction, false) {
                    return Err(NxViolation { block_id: blk });
                }
                self.local_shared_cache.record(blk, was_instruction, false, ts);
                Ok(())
            },
            CacheReturnResult::MissWithWriteBack(blk) => {
                if self.local_shared_cache.violates_nx(blk, false, true) {
                    return Err(NxViolation { block_id: blk });
                }
                self.local_shared_cache.record(blk, false, true, ts);
                Ok(())
            },
        }
    }
}

} // verus!
