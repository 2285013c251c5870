//! The whole machine: one hierarchy per core, and the rendering of a checkpoint from them.

use vstd::prelude::*;
use crate::checkpoint::{
    CacheBlock, CacheBlockState, MemoryHierarchyCheckPoint, PrivateCacheParameters, SerializedCache,
    TsCacheBlock,
};
use crate::config::{ConfigError, is_pow2};
use crate::mtr::{
    AbsorbError, MemoryTimestampRecordCollection, TableView, absorb_lines, cache_lines, entry_pos,
};
use crate::per_core_record::{NxViolation, TimestampSingleCoreMemoryHierarchy, access_outcome};
use crate::mtr::{DirectoryView, export_bucket};
use crate::checkpoint::DirectoryBlock;
use crate::render::{
    cache_view, export_level, exported, levels_view, render_l1, render_l1_sets, render_l2, select,
    select_blocks,
};
use crate::ts_set::{SetLine, SetView, TimestampCacheLineStatus};

verus! {

/// The table with no record: `n` empty buckets.
pub open spec fn empty_table(n: nat) -> TableView {
    Seq::new(n, |i: int| Seq::<(usize, crate::mtr::RecordView)>::empty())
}

/// The table after absorbing the private caches of the first `n` cores, core `i` under id `i`.
pub open spec fn absorb_cores(t: TableView, privates: Seq<Seq<SetView>>, n: int) -> Result<
    TableView,
    AbsorbError,
>
    decreases n,
{
    if n <= 0 {
        Ok(t)
    } else {
        match absorb_cores(t, privates, n - 1) {
            Ok(t2) => absorb_lines(t2, (n - 1) as u8, cache_lines(privates[n - 1])),
            Err(e) => Err(e),
        }
    }
}

/// Whether the table holds a record of block `b`.
pub open spec fn table_holds(t: TableView, b: usize) -> bool {
    entry_pos(t[b as int % t.len() as int], b) >= 0
}

/// Position of the first shared-cache line of block `b` among the first `n`, or -1.
pub open spec fn line_pos_upto(s: Seq<TsCacheBlock>, b: usize, n: int) -> int
    decreases n,
{
    if n <= 0 {
        -1
    } else {
        let r = line_pos_upto(s, b, n - 1);
        if r >= 0 {
            r
        } else if s[n - 1].d.block_id == b {
            n - 1
        } else {
            -1
        }
    }
}

proof fn lemma_line_pos(s: Seq<TsCacheBlock>, b: usize, n: int)
    requires
        0 <= n <= s.len(),
    ensures
        -1 <= line_pos_upto(s, b, n) < n,
    decreases n,
{
    if n > 0 {
        lemma_line_pos(s, b, n - 1);
    }
}

proof fn lemma_line_pos_prefix(s: Seq<TsCacheBlock>, b: usize, m: int, n: int)
    requires
        0 <= m <= n <= s.len(),
        line_pos_upto(s, b, m) >= 0,
    ensures
        line_pos_upto(s, b, n) == line_pos_upto(s, b, m),
    decreases n - m,
{
    if n > m {
        lemma_line_pos_prefix(s, b, m, n - 1);
    }
}

/// Merges one shadow line into a shared-cache set: blocks the table tracks are skipped, a block
/// already present only takes up the dirty state.
pub open spec fn shared_step(t: TableView, acc: Seq<TsCacheBlock>, l: SetLine) -> Seq<TsCacheBlock> {
    if table_holds(t, l.block_id) {
        acc
    } else {
        let k = line_pos_upto(acc, l.block_id, acc.len() as int);
        if k < 0 {
            acc.push(
                TsCacheBlock {
                    d: CacheBlock {
                        block_id: l.block_id,
                        state: if l.status is DirtyData {
                            CacheBlockState::ModifiedExclusive
                        } else {
                            CacheBlockState::CleanExclusive
                        },
                        in_instruction_cache: l.status.spec_is_instruction(),
                        in_data_cache: l.status.spec_is_data(),
                    },
                    ts: l.ts,
                },
            )
        } else if l.status is DirtyData {
            acc.update(
                k,
                TsCacheBlock {
                    d: CacheBlock { state: CacheBlockState::ModifiedExclusive, ..acc[k].d },
                    ..acc[k]
                },
            )
        } else {
            acc
        }
    }
}

pub open spec fn shared_fold(t: TableView, acc: Seq<TsCacheBlock>, lines: Seq<SetLine>) -> Seq<
    TsCacheBlock,
>
    decreases lines.len(),
{
    if lines.len() == 0 {
        acc
    } else {
        shared_step(t, shared_fold(t, acc, lines.drop_last()), lines.last())
    }
}

/// The candidates of shared set `idx` from the shadows of the first `n` cores.
pub open spec fn shared_candidates(t: TableView, shadows: Seq<Seq<SetView>>, idx: int, n: int) -> Seq<
    TsCacheBlock,
>
    decreases n,
{
    if n <= 0 {
        Seq::empty()
    } else {
        shared_fold(t, shared_candidates(t, shadows, idx, n - 1), shadows[n - 1][idx].valid_lines())
    }
}

/// The shared cache: `sets` sets of at most `ways` lines.
pub open spec fn render_shared(t: TableView, shadows: Seq<Seq<SetView>>, sets: nat, ways: nat) -> Seq<
    Seq<TsCacheBlock>,
> {
    Seq::new(sets, |idx: int| select(shared_candidates(t, shadows, idx, shadows.len() as int), ways))
}

/// Every core's hierarchy, all of one shape.
#[derive(Debug)]
pub struct TimestampMemoryHierarchy {
    hierarchies: Vec<TimestampSingleCoreMemoryHierarchy>,
    private_associativity: usize,
    private_sets: usize,
    shared_associativity: usize,
    shared_sets: usize,
}

impl TimestampMemoryHierarchy {
    pub closed spec fn cores(&self) -> Seq<TimestampSingleCoreMemoryHierarchy> {
        self.hierarchies@
    }

    pub closed spec fn shape(&self) -> (nat, nat, nat, nat) {
        (
            self.private_associativity as nat,
            self.private_sets as nat,
            self.shared_associativity as nat,
            self.shared_sets as nat,
        )
    }

    pub open spec fn privates(&self) -> Seq<Seq<SetView>> {
        self.cores().map_values(|h: TimestampSingleCoreMemoryHierarchy| h.private_view())
    }

    pub open spec fn shadows(&self) -> Seq<Seq<SetView>> {
        self.cores().map_values(|h: TimestampSingleCoreMemoryHierarchy| h.shadow_view())
    }

    pub closed spec fn wf(&self) -> bool {
        &&& self.hierarchies@.len() <= 256
        &&& forall|i: int|
            0 <= i < self.hierarchies@.len() ==> (#[trigger] self.hierarchies@[i]).wf()
                && self.hierarchies@[i].shape() == self.shape()
    }

    /// What every well-formed model satisfies, for callers.
    pub proof fn lemma_wf(&self)
        requires
            self.wf(),
        ensures
            self.cores().len() <= 256,
            forall|i: int|
                0 <= i < self.cores().len() ==> (#[trigger] self.cores()[i]).wf()
                    && self.cores()[i].shape() == self.shape(),
    {
    }

    /// `core_count` empty hierarchies, each a private cache of `p_s` sets of `p_a` ways and a
    /// shadow of `s_s` sets of `s_a` ways.
    pub fn new(core_count: usize, p_a: usize, p_s: usize, s_a: usize, s_s: usize) -> (r: Result<
        Self,
        ConfigError,
    >)
        requires
            core_count <= 256,
        ensures
            r is Ok <==> (is_pow2(p_s as nat) && is_pow2(s_s as nat) && p_a > 0 && s_a > 0),
            r matches Err(e) ==> e == if !(is_pow2(p_s as nat) && is_pow2(s_s as nat)) {
                ConfigError::SetCountNotPowerOfTwo
            } else {
                ConfigError::ZeroAssociativity
            },
            r matches Ok(m) ==> {
                &&& m.wf()
                &&& m.cores().len() == core_count
                &&& m.shape() == (p_a as nat, p_s as nat, s_a as nat, s_s as nat)
                &&& forall|c: int, i: int|
                    0 <= c < core_count && 0 <= i < p_s ==> crate::ts_set::fresh(
                        #[trigger] m.privates()[c][i],
                    )
                &&& forall|c: int, i: int|
                    0 <= c < core_count && 0 <= i < s_s ==> crate::ts_set::fresh(
                        #[trigger] m.shadows()[c][i],
                    )
            },
    {
        let mut hierarchies: Vec<TimestampSingleCoreMemoryHierarchy> = Vec::new();
        let first = TimestampSingleCoreMemoryHierarchy::new(p_a, p_s, s_a, s_s);
        match first {
            Ok(h) => {
                if core_count > 0 {
                    hierarchies.push(h);
                }
            },
            Err(e) => {
                return Err(e);
            },
        }
        while hierarchies.len() < core_count
            invariant
                hierarchies@.len() <= core_count,
                is_pow2(p_s as nat) && is_pow2(s_s as nat) && p_a > 0 && s_a > 0,
                forall|i: int|
                    0 <= i < hierarchies@.len() ==> {
                        &&& (#[trigger] hierarchies@[i]).wf()
                        &&& hierarchies@[i].shape() == (p_a as nat, p_s as nat, s_a as nat, s_s as nat)
                        &&& forall|j: int|
                            0 <= j < p_s ==> crate::ts_set::fresh(#[trigger] hierarchies@[i].private_view()[j])
                        &&& forall|j: int|
                            0 <= j < s_s ==> crate::ts_set::fresh(#[trigger] hierarchies@[i].shadow_view()[j])
                    },
            decreases core_count - hierarchies@.len(),
        {
            match TimestampSingleCoreMemoryHierarchy::new(p_a, p_s, s_a, s_s) {
                Ok(h) => hierarchies.push(h),
                Err(e) => {
                    return Err(e);
                },
            }
        }
        let m = TimestampMemoryHierarchy {
            hierarchies,
            private_associativity: p_a,
            private_sets: p_s,
            shared_associativity: s_a,
            shared_sets: s_s,
        };
        proof {
            assert forall|c: int, i: int|
                0 <= c < core_count && 0 <= i < p_s implies crate::ts_set::fresh(
                #[trigger] m.privates()[c][i],
            ) by {
                assert(m.privates()[c] == m.hierarchies@[c].private_view());
            }
            assert forall|c: int, i: int|
                0 <= c < core_count && 0 <= i < s_s implies crate::ts_set::fresh(
                #[trigger] m.shadows()[c][i],
            ) by {
                assert(m.shadows()[c] == m.hierarchies@[c].shadow_view());
            }
        }
        Ok(m)
    }

    /// Number of cores.
    pub fn core_count(&self) -> (r: usize)
        ensures
            r == self.cores().len(),
    {
        self.hierarchies.len()
    }

    /// The hierarchy of core `core_id`.
    pub fn hierarchies(&self, core_id: u8) -> (r: &TimestampSingleCoreMemoryHierarchy)
        requires
            (core_id as int) < self.cores().len(),
        ensures
            *r == self.cores()[core_id as int],
    {
        &self.hierarchies[core_id as usize]
    }

    /// Records an access of core `core_id` at address `paddr`; other cores are untouched.
    pub fn access_memory(
        &mut self,
        core_id: u8,
        ts: usize,
        paddr: usize,
        is_instruction: bool,
        is_store: bool,
    ) -> (r: Result<(), NxViolation>)
        requires
            old(self).wf(),
            (core_id as int) < old(self).cores().len(),
        ensures
            final(self).wf(),
            final(self).shape() == old(self).shape(),
            final(self).cores().len() == old(self).cores().len(),
            forall|c: int|
                0 <= c < old(self).cores().len() && c != core_id ==> #[trigger] final(self).cores()[c]
                    == old(self).cores()[c],
            access_outcome(
                old(self).cores()[core_id as int],
                final(self).cores()[core_id as int],
                r,
                ts,
                paddr,
                is_instruction,
                is_store,
            ),
    {
        let c = core_id as usize;
        let r = self.hierarchies[c].access_memory(ts, paddr, is_instruction, is_store);
        proof {
            assert forall|i: int|
                0 <= i < self.hierarchies@.len() implies (#[trigger] self.hierarchies@[i]).wf()
                && self.hierarchies@[i].shape() == self.shape() by {
                if i != c {
                    assert(self.hierarchies@[i] == old(self).hierarchies@[i]);
                }
            }
        }
        r
    }
}

fn shared_merge(t: &MemoryTimestampRecordCollection, acc: &mut Vec<TsCacheBlock>, l: SetLine)
    requires
        t.wf(),
    ensures
        final(acc)@ == shared_step(t@, old(acc)@, l),
{
    if t.look_up(l.block_id) {
        return;
    }
    let n = acc.len();
    let mut k: usize = 0;
    proof {
        lemma_line_pos(acc@, l.block_id, n as int);
    }
    while k < n
        invariant
            k <= n,
            n == acc@.len(),
            acc@ == old(acc)@,
            t.wf(),
            !table_holds(t@, l.block_id),
            line_pos_upto(acc@, l.block_id, k as int) == -1,
        decreases n - k,
    {
        if acc[k].d.block_id == l.block_id {
            proof {
                lemma_line_pos_prefix(acc@, l.block_id, k as int + 1, n as int);
            }
            if l.status == TimestampCacheLineStatus::DirtyData {
                let x = acc[k];
                let d = CacheBlock { state: CacheBlockState::ModifiedExclusive, ..x.d };
                acc.set(k, TsCacheBlock { d, ts: x.ts });
            }
            return;
        }
        k = k + 1;
    }
    let d = CacheBlock {
        block_id: l.block_id,
        state: if l.status == TimestampCacheLineStatus::DirtyData {
            CacheBlockState::ModifiedExclusive
        } else {
            CacheBlockState::CleanExclusive
        },
        in_instruction_cache: l.status.is_instruction(),
        in_data_cache: l.status.is_data(),
    };
    acc.push(TsCacheBlock { d, ts: l.ts });
}

impl TimestampMemoryHierarchy {
    /// Absorbs every core's private cache, core `i` under id `i`, into a table of `buckets`
    /// buckets, stopping at the first failure.
    pub fn render_mtr(&self, buckets: usize) -> (r: Result<MemoryTimestampRecordCollection, AbsorbError>)
        requires
            self.wf(),
            is_pow2(buckets as nat),
        ensures
            match absorb_cores(empty_table(buckets as nat), self.privates(), self.cores().len() as int) {
                Ok(t) => r matches Ok(m) && m.wf() && m@ == t,
                Err(e) => r == Err::<MemoryTimestampRecordCollection, AbsorbError>(e),
            },
    {
        let mut res = MemoryTimestampRecordCollection::new(buckets).unwrap();
        let ghost t0 = res@;
        let n = self.hierarchies.len();
        let mut c: usize = 0;
        while c < n
            invariant
                c <= n,
                n == self.cores().len(),
                n <= 256,
                self.wf(),
                res.wf(),
                t0 == empty_table(buckets as nat),
                absorb_cores(t0, self.privates(), c as int) == Ok::<TableView, AbsorbError>(res@),
            decreases n - c,
        {
            let h = &self.hierarchies[c];
            proof {
                assert(self.privates()[c as int] == h.private_view());
                h.lemma_wf();
            }
            match res.absorb_ts_cache(c as u8, h.private_cache()) {
                Ok(()) => {},
                Err(e) => {
                    proof {
                        lemma_absorb_cores_err(t0, self.privates(), c as int + 1, n as int);
                    }
                    return Err(e);
                },
            }
            c = c + 1;
        }
        Ok(res)
    }

    /// The shared-cache snapshot: every core's shadow, less the blocks the table tracks.
    pub fn render_llc(&self, mtr: &MemoryTimestampRecordCollection) -> (r: SerializedCache)
        requires
            self.wf(),
            mtr.wf(),
        ensures
            cache_view(r) == exported(
                render_shared(mtr@, self.shadows(), self.shape().3, self.shape().2),
            ),
    {
        let ghost want = render_shared(mtr@, self.shadows(), self.shape().3, self.shape().2);
        let n = self.hierarchies.len();
        let mut sets: Vec<Vec<TsCacheBlock>> = Vec::new();
        let mut idx: usize = 0;
        while idx < self.shared_sets
            invariant
                idx <= self.shared_sets,
                n == self.cores().len(),
                self.wf(),
                mtr.wf(),
                want == render_shared(mtr@, self.shadows(), self.shape().3, self.shape().2),
                levels_view(sets) == want.take(idx as int),
            decreases self.shared_sets - idx,
        {
            let mut acc: Vec<TsCacheBlock> = Vec::new();
            let mut c: usize = 0;
            while c < n
                invariant
                    c <= n,
                    n == self.cores().len(),
                    idx < self.shared_sets,
                    self.wf(),
                    mtr.wf(),
                    acc@ == shared_candidates(mtr@, self.shadows(), idx as int, c as int),
                decreases n - c,
            {
                let shadow = self.hierarchies[c].local_shared_cache();
                proof {
                    self.hierarchies@[c as int].lemma_wf();
                    shadow.lemma_wf();
                    assert(self.shadows()[c as int] == shadow@);
                }
                let lines = shadow.set(idx).iter();
                let ghost start = acc@;
                let mut j: usize = 0;
                while j < lines.len()
                    invariant
                        j <= lines@.len(),
                        mtr.wf(),
                        acc@ == shared_fold(mtr@, start, lines@.take(j as int)),
                    decreases lines@.len() - j,
                {
                    proof {
                        assert(lines@.take(j as int + 1).drop_last() =~= lines@.take(j as int));
                    }
                    shared_merge(mtr, &mut acc, lines[j]);
                    j = j + 1;
                }
                proof {
                    assert(lines@.take(lines@.len() as int) =~= lines@);
                }
                c = c + 1;
            }
            let chosen = select_blocks(&acc, self.shared_associativity);
            let ghost before = sets@;
            sets.push(chosen);
            proof {
                assert(levels_view(sets) =~= levels_view_of(before).push(chosen@));
                assert(want[idx as int] == select(acc@, self.shape().2));
                assert(want.take(idx as int + 1) =~= want.take(idx as int).push(want[idx as int]));
            }
            idx = idx + 1;
        }
        proof {
            assert(levels_view(sets) =~= want);
        }
        export_level(&sets)
    }
}

impl TimestampMemoryHierarchy {
    /// The checkpoint: every core's private levels, the directory and the shared cache.
    pub fn render_cache_hierarchy(
        &self,
        mtr: &MemoryTimestampRecordCollection,
        param: &PrivateCacheParameters,
    ) -> (r: MemoryHierarchyCheckPoint)
        requires
            self.wf(),
            mtr.wf(),
            param.valid_for(mtr@.len()),
        ensures
            r.l1i@.len() == self.cores().len(),
            r.l1d@.len() == self.cores().len(),
            r.l2@.len() == self.cores().len(),
            forall|c: int|
                0 <= c < self.cores().len() ==> {
                    let l2 = render_l2(
                        mtr@,
                        c as u8,
                        param.l2_sets as nat,
                        param.l2_associativity as nat,
                    );
                    &&& cache_view(#[trigger] r.l1i@[c]) == exported(
                        render_l1(l2, param.l1i_sets as nat, param.l1i_associativity as nat, true),
                    )
                    &&& cache_view(r.l1d@[c]) == exported(
                        render_l1(l2, param.l1d_sets as nat, param.l1d_associativity as nat, false),
                    )
                    &&& cache_view(r.l2@[c]) == exported(l2)
                },
            r.directory@.len() == mtr@.len(),
            forall|i: int|
                0 <= i < mtr@.len() ==> (#[trigger] r.directory@[i])@.map_values(
                    |d: DirectoryBlock| d@,
                ) == export_bucket(mtr@[i]),
            cache_view(r.shared_cache) == exported(
                render_shared(mtr@, self.shadows(), self.shape().3, self.shape().2),
            ),
    {
        let n = self.hierarchies.len();
        let mut l1i: Vec<SerializedCache> = Vec::new();
        let mut l1d: Vec<SerializedCache> = Vec::new();
        let mut l2: Vec<SerializedCache> = Vec::new();
        let mut c: usize = 0;
        while c < n
            invariant
                c <= n,
                n == self.cores().len(),
                n <= 256,
                self.wf(),
                mtr.wf(),
                param.valid_for(mtr@.len()),
                l1i@.len() == c,
                l1d@.len() == c,
                l2@.len() == c,
                forall|k: int|
                    0 <= k < c ==> {
                        let lv = render_l2(
                            mtr@,
                            k as u8,
                            param.l2_sets as nat,
                            param.l2_associativity as nat,
                        );
                        &&& cache_view(#[trigger] l1i@[k]) == exported(
                            render_l1(lv, param.l1i_sets as nat, param.l1i_associativity as nat, true),
                        )
                        &&& cache_view(l1d@[k]) == exported(
                            render_l1(lv, param.l1d_sets as nat, param.l1d_associativity as nat, false),
                        )
                        &&& cache_view(l2@[k]) == exported(lv)
                    },
            decreases n - c,
        {
            proof {
                self.lemma_wf();
                crate::config::lemma_pow2_positive(param.l2_sets as nat);
                crate::config::lemma_pow2_positive(param.l1i_sets as nat);
                crate::config::lemma_pow2_positive(param.l1d_sets as nat);
            }
            let lv = mtr.render_l2_sets(c as u8, param.l2_sets, param.l2_associativity);
            proof {
                assert(levels_view(lv).len() == lv@.len());
            }
            let iv = render_l1_sets(&lv, param.l1i_sets, param.l1i_associativity, true);
            let dv = render_l1_sets(&lv, param.l1d_sets, param.l1d_associativity, false);
            l1i.push(export_level(&iv));
            l1d.push(export_level(&dv));
            l2.push(export_level(&lv));
            c = c + 1;
        }
        let directory = mtr.export_directory();
        let shared_cache = self.render_llc(mtr);
        MemoryHierarchyCheckPoint { l1i, l1d, l2, directory, shared_cache }
    }
}

pub open spec fn levels_view_of(s: Seq<Vec<TsCacheBlock>>) -> Seq<Seq<TsCacheBlock>> {
    s.map_values(|v: Vec<TsCacheBlock>| v@)
}

proof fn lemma_absorb_cores_err(t: TableView, privates: Seq<Seq<SetView>>, m: int, n: int)
    requires
        0 <= m <= n,
        absorb_cores(t, privates, m) is Err,
    ensures
        absorb_cores(t, privates, n) == absorb_cores(t, privates, m),
    decreases n - m,
{
    if n > m {
        lemma_absorb_cores_err(t, privates, m, n - 1);
    }
}

} // verus!
