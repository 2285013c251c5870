//! The coherence record table: per-block records merged from every core's private cache.

use vstd::prelude::*;
use crate::config::{ConfigError, is_pow2, power_of_two};
use crate::checkpoint::{DirectoryBlock, SerializedDirectory, TsDirectoryBlock};
use crate::topk::{keys_of, lemma_sort_desc, select_top_k, sort_desc, top_k, trunc};
use crate::ts_cache::TimestampCache;
use crate::ts_set::{SetLine, SetView, TimestampCacheLineStatus};

verus! {

/// Where a block is resident, derived from every observation of it.
#[derive(Clone, Copy, PartialEq, Eq, Structural, Debug)]
pub enum MTRPermission {
    Instruction,
    InstructionAndCleanData,
    CleanData,
    DirtyData,
}

impl MTRPermission {
    pub open spec fn spec_in_instruction_cache(self) -> bool {
        self is Instruction || self is InstructionAndCleanData
    }

    pub open spec fn spec_in_data_cache(self) -> bool {
        !(self is Instruction)
    }

    pub fn is_dirty(&self) -> (r: bool)
        ensures
            r == (*self is DirtyData),
    {
        *self == MTRPermission::DirtyData
    }

    pub fn in_instruction_cache(&self) -> (r: bool)
        ensures
            r == self.spec_in_instruction_cache(),
    {
        *self == MTRPermission::Instruction || *self == MTRPermission::InstructionAndCleanData
    }

    pub fn in_data_cache(&self) -> (r: bool)
        ensures
            r == self.spec_in_data_cache(),
    {
        *self != MTRPermission::Instruction
    }
}

/// Why merging an observation into the table failed.
#[derive(Clone, Copy, PartialEq, Eq, Structural, Debug)]
pub enum AbsorbError {
    /// The block would be both executable and dirty.
    NxViolation,
    /// The core already contributed this kind of observation of the block in this pass.
    DuplicateCore,
}

/// The core id type: one byte.
pub type CoreId = u8;

/// Position of the first entry of core `c` among the first `n`, or -1.
pub open spec fn core_pos_upto(s: Seq<(u8, usize)>, c: u8, n: int) -> int
    decreases n,
{
    if n <= 0 {
        -1
    } else {
        let r = core_pos_upto(s, c, n - 1);
        if r >= 0 {
            r
        } else if s[n - 1].0 == c {
            n - 1
        } else {
            -1
        }
    }
}

pub open spec fn core_pos(s: Seq<(u8, usize)>, c: u8) -> int {
    core_pos_upto(s, c, s.len() as int)
}

pub open spec fn has_core(s: Seq<(u8, usize)>, c: u8) -> bool {
    core_pos(s, c) >= 0
}

/// The timestamp recorded for core `c` (meaningful when `has_core(s, c)`).
pub open spec fn core_ts(s: Seq<(u8, usize)>, c: u8) -> usize {
    s[core_pos(s, c)].1
}

proof fn lemma_core_pos(s: Seq<(u8, usize)>, c: u8, n: int)
    requires
        0 <= n <= s.len(),
    ensures
        -1 <= core_pos_upto(s, c, n) < n,
        core_pos_upto(s, c, n) >= 0 ==> s[core_pos_upto(s, c, n)].0 == c,
        core_pos_upto(s, c, n) == -1 ==> forall|j: int| 0 <= j < n ==> (#[trigger] s[j]).0 != c,
    decreases n,
{
    if n > 0 {
        lemma_core_pos(s, c, n - 1);
    }
}

pub proof fn lemma_core_pos_prefix(s: Seq<(u8, usize)>, c: u8, m: int, n: int)
    requires
        0 <= m <= n <= s.len(),
        core_pos_upto(s, c, m) >= 0,
    ensures
        core_pos_upto(s, c, n) == core_pos_upto(s, c, m),
    decreases n - m,
{
    if n > m {
        lemma_core_pos_prefix(s, c, m, n - 1);
    }
}

/// What a record holds, as plain values.
pub struct RecordView {
    pub ts: usize,
    pub invalid: Seq<(u8, usize)>,
    pub readers: Seq<(u8, usize)>,
    pub perm: MTRPermission,
    pub writer: Option<(u8, usize)>,
}

/// The aggregated observations of one block across cores.
#[derive(Debug)]
pub struct MemoryTimestampRecord {
    /// Latest timestamp among the valid observations.
    pub ts: usize,
    /// Cores that saw the block invalidated, with the timestamp.
    pub invalid: Vec<(u8, usize)>,
    /// Cores holding a clean copy, with the timestamp.
    pub readers: Vec<(u8, usize)>,
    pub perm: MTRPermission,
    /// The core holding the newest dirty copy, with the timestamp.
    pub writer: Option<(u8, usize)>,
}

impl View for MemoryTimestampRecord {
    type V = RecordView;

    open spec fn view(&self) -> RecordView {
        RecordView {
            ts: self.ts,
            invalid: self.invalid@,
            readers: self.readers@,
            perm: self.perm,
            writer: self.writer,
        }
    }
}

/// The permission after a clean observation of status `s`; a dirty block stays dirty.
pub open spec fn merged_perm(p: MTRPermission, s: TimestampCacheLineStatus) -> MTRPermission {
    let instr = p.spec_in_instruction_cache() || s.spec_is_instruction();
    let data = p.spec_in_data_cache() || s.spec_is_data();
    if p is DirtyData {
        MTRPermission::DirtyData
    } else if instr && data {
        MTRPermission::InstructionAndCleanData
    } else if instr {
        MTRPermission::Instruction
    } else {
        MTRPermission::CleanData
    }
}

/// The record made from a single observation.
pub open spec fn seed_record(c: u8, ts: usize, s: TimestampCacheLineStatus) -> RecordView {
    match s {
        TimestampCacheLineStatus::Invalid => RecordView {
            ts: 0,
            invalid: seq![(c, ts)],
            readers: Seq::empty(),
            perm: MTRPermission::CleanData,
            writer: None,
        },
        TimestampCacheLineStatus::DirtyData => RecordView {
            ts,
            invalid: Seq::empty(),
            readers: Seq::empty(),
            perm: MTRPermission::DirtyData,
            writer: Some((c, ts)),
        },
        _ => RecordView {
            ts,
            invalid: Seq::empty(),
            readers: seq![(c, ts)],
            perm: seed_perm(s),
            writer: None,
        },
    }
}

/// The permission of a record seeded by one observation of status `s`.
pub open spec fn seed_perm(s: TimestampCacheLineStatus) -> MTRPermission {
    match s {
        TimestampCacheLineStatus::Instruction => MTRPermission::Instruction,
        TimestampCacheLineStatus::CleanInstructionAndData => MTRPermission::InstructionAndCleanData,
        TimestampCacheLineStatus::DirtyData => MTRPermission::DirtyData,
        _ => MTRPermission::CleanData,
    }
}

pub open spec fn newer(a: usize, b: usize) -> usize {
    if a > b {
        a
    } else {
        b
    }
}

/// Merges one observation of core `c` into an existing record.
pub open spec fn merge_record(r: RecordView, c: u8, ts: usize, s: TimestampCacheLineStatus) -> Result<
    RecordView,
    AbsorbError,
> {
    match s {
        TimestampCacheLineStatus::Invalid => if has_core(r.invalid, c) {
            Err(AbsorbError::DuplicateCore)
        } else {
            Ok(RecordView { invalid: r.invalid.push((c, ts)), ..r })
        },
        TimestampCacheLineStatus::DirtyData => if r.perm.spec_in_instruction_cache() {
            Err(AbsorbError::NxViolation)
        } else {
            match r.writer {
                Some((w, wts)) => if w == c {
                    Err(AbsorbError::DuplicateCore)
                } else {
                    Ok(
                        RecordView {
                            ts: newer(ts, r.ts),
                            perm: MTRPermission::DirtyData,
                            writer: if wts <= ts {
                                Some((c, ts))
                            } else {
                                r.writer
                            },
                            ..r
                        },
                    )
                },
                None => Ok(
                    RecordView {
                        ts: newer(ts, r.ts),
                        perm: MTRPermission::DirtyData,
                        writer: Some((c, ts)),
                        ..r
                    },
                ),
            }
        },
        _ => if s.spec_is_instruction() && r.perm is DirtyData {
            Err(AbsorbError::NxViolation)
        } else if has_core(r.readers, c) {
            Err(AbsorbError::DuplicateCore)
        } else {
            Ok(
                RecordView {
                    ts: newer(ts, r.ts),
                    readers: r.readers.push((c, ts)),
                    perm: merged_perm(r.perm, s),
                    ..r
                },
            )
        },
    }
}

/// Position of the first entry for block `b` among the first `n` of a bucket, or -1.
pub open spec fn entry_pos_upto(bucket: Seq<(usize, RecordView)>, b: usize, n: int) -> int
    decreases n,
{
    if n <= 0 {
        -1
    } else {
        let r = entry_pos_upto(bucket, b, n - 1);
        if r >= 0 {
            r
        } else if bucket[n - 1].0 == b {
            n - 1
        } else {
            -1
        }
    }
}

pub open spec fn entry_pos(bucket: Seq<(usize, RecordView)>, b: usize) -> int {
    entry_pos_upto(bucket, b, bucket.len() as int)
}

proof fn lemma_entry_pos(bucket: Seq<(usize, RecordView)>, b: usize, n: int)
    requires
        0 <= n <= bucket.len(),
    ensures
        -1 <= entry_pos_upto(bucket, b, n) < n,
        entry_pos_upto(bucket, b, n) >= 0 ==> bucket[entry_pos_upto(bucket, b, n)].0 == b,
        entry_pos_upto(bucket, b, n) == -1 ==> forall|j: int|
            0 <= j < n ==> (#[trigger] bucket[j]).0 != b,
    decreases n,
{
    if n > 0 {
        lemma_entry_pos(bucket, b, n - 1);
    }
}

proof fn lemma_entry_pos_prefix(bucket: Seq<(usize, RecordView)>, b: usize, m: int, n: int)
    requires
        0 <= m <= n <= bucket.len(),
        entry_pos_upto(bucket, b, m) >= 0,
    ensures
        entry_pos_upto(bucket, b, n) == entry_pos_upto(bucket, b, m),
    decreases n - m,
{
    if n > m {
        lemma_entry_pos_prefix(bucket, b, m, n - 1);
    }
}

/// The table as plain values: buckets of (block id, record) entries.
pub type TableView = Seq<Seq<(usize, RecordView)>>;

/// Merges one observation into the table: block `b` lives in bucket `b % S`.
pub open spec fn table_absorb(t: TableView, c: u8, b: usize, ts: usize, s: TimestampCacheLineStatus) -> Result<
    TableView,
    AbsorbError,
> {
    let i = b as int % t.len() as int;
    let k = entry_pos(t[i], b);
    if k < 0 {
        Ok(t.update(i, t[i].push((b, seed_record(c, ts, s)))))
    } else {
        match merge_record(t[i][k].1, c, ts, s) {
            Ok(r) => Ok(t.update(i, t[i].update(k, (b, r)))),
            Err(e) => Err(e),
        }
    }
}

/// Merges a sequence of lines seen by core `c`, in order, stopping at the first failure.
pub open spec fn absorb_lines(t: TableView, c: u8, lines: Seq<SetLine>) -> Result<TableView, AbsorbError>
    decreases lines.len(),
{
    if lines.len() == 0 {
        Ok(t)
    } else {
        match absorb_lines(t, c, lines.drop_last()) {
            Ok(t2) => table_absorb(t2, c, lines.last().block_id, lines.last().ts, lines.last().status),
            Err(e) => Err(e),
        }
    }
}

fn find_core(s: &Vec<(u8, usize)>, c: u8) -> (r: Option<usize>)
    ensures
        r is None <==> !has_core(s@, c),
        r matches Some(p) ==> p as int == core_pos(s@, c) && 0 <= p < s@.len(),
{
    let n = s.len();
    let mut i: usize = 0;
    proof {
        lemma_core_pos(s@, c, n as int);
    }
    while i < n
        invariant
            i <= n,
            n == s@.len(),
            core_pos_upto(s@, c, i as int) == -1,
        decreases n - i,
    {
        if s[i].0 == c {
            proof {
                lemma_core_pos_prefix(s@, c, i as int + 1, n as int);
            }
            return Some(i);
        }
        i = i + 1;
    }
    None
}

fn copy_pairs(s: &Vec<(u8, usize)>) -> (r: Vec<(u8, usize)>)
    ensures
        r@ == s@,
{
    let mut out: Vec<(u8, usize)> = Vec::new();
    let mut i: usize = 0;
    while i < s.len()
        invariant
            i <= s@.len(),
            out@ == s@.take(i as int),
        decreases s@.len() - i,
    {
        out.push(s[i]);
        proof {
            assert(out@ =~= s@.take(i as int + 1));
        }
        i = i + 1;
    }
    proof {
        assert(s@.take(s@.len() as int) =~= s@);
    }
    out
}

impl MemoryTimestampRecord {
    /// A record equal to this one.
    pub fn duplicate(&self) -> (r: Self)
        ensures
            r@ == self@,
    {
        MemoryTimestampRecord {
            ts: self.ts,
            invalid: copy_pairs(&self.invalid),
            readers: copy_pairs(&self.readers),
            perm: self.perm,
            writer: self.writer,
        }
    }

    /// The record made from a single observation.
    pub fn seed(core_id: u8, ts: usize, status: TimestampCacheLineStatus) -> (r: Self)
        ensures
            r@ == seed_record(core_id, ts, status),
    {
        let mut invalid: Vec<(u8, usize)> = Vec::new();
        let mut readers: Vec<(u8, usize)> = Vec::new();
        let r = match status {
            TimestampCacheLineStatus::Invalid => {
                invalid.push((core_id, ts));
                MemoryTimestampRecord {
                    ts: 0,
                    invalid,
                    readers,
                    perm: MTRPermission::CleanData,
                    writer: None,
                }
            },
            TimestampCacheLineStatus::DirtyData => MemoryTimestampRecord {
                ts,
                invalid,
                readers,
                perm: MTRPermission::DirtyData,
                writer: Some((core_id, ts)),
            },
            _ => {
                readers.push((core_id, ts));
                let perm = match status {
                    TimestampCacheLineStatus::Instruction => MTRPermission::Instruction,
                    TimestampCacheLineStatus::CleanInstructionAndData => MTRPermission::InstructionAndCleanData,
                    _ => MTRPermission::CleanData,
                };
                MemoryTimestampRecord { ts, invalid, readers, perm, writer: None }
            },
        };
        proof {
            assert(r@.invalid =~= seed_record(core_id, ts, status).invalid);
            assert(r@.readers =~= seed_record(core_id, ts, status).readers);
        }
        r
    }

    /// This record with one more observation of core `core_id` merged in.
    pub fn merge(&self, core_id: u8, ts: usize, status: TimestampCacheLineStatus) -> (r: Result<
        Self,
        AbsorbError,
    >)
        ensures
            match merge_record(self@, core_id, ts, status) {
                Ok(m) => r matches Ok(x) && x@ == m,
                Err(e) => r == Err::<Self, AbsorbError>(e),
            },
    {
        let newest = if ts > self.ts {
            ts
        } else {
            self.ts
        };
        match status {
            TimestampCacheLineStatus::Invalid => {
                if find_core(&self.invalid, core_id).is_some() {
                    return Err(AbsorbError::DuplicateCore);
                }
                let mut invalid = copy_pairs(&self.invalid);
                invalid.push((core_id, ts));
                Ok(
                    MemoryTimestampRecord {
                        ts: self.ts,
                        invalid,
                        readers: copy_pairs(&self.readers),
                        perm: self.perm,
                        writer: self.writer,
                    },
                )
            },
            TimestampCacheLineStatus::DirtyData => {
                if self.perm.in_instruction_cache() {
                    return Err(AbsorbError::NxViolation);
                }
                let writer = match self.writer {
                    Some((w, wts)) => {
                        if w == core_id {
                            return Err(AbsorbError::DuplicateCore);
                        }
                        if wts <= ts {
                            Some((core_id, ts))
                        } else {
                            self.writer
                        }
                    },
                    None => Some((core_id, ts)),
                };
                Ok(
                    MemoryTimestampRecord {
                        ts: newest,
                        invalid: copy_pairs(&self.invalid),
                        readers: copy_pairs(&self.readers),
                        perm: MTRPermission::DirtyData,
                        writer,
                    },
                )
            },
            _ => {
                if status.is_instruction() && self.perm == MTRPermission::DirtyData {
                    return Err(AbsorbError::NxViolation);
                }
                if find_core(&self.readers, core_id).is_some() {
                    return Err(AbsorbError::DuplicateCore);
                }
                let mut readers = copy_pairs(&self.readers);
                readers.push((core_id, ts));
                let instr = self.perm.in_instruction_cache() || status.is_instruction();
                let data = self.perm.in_data_cache() || status.is_data();
                let perm = if self.perm == MTRPermission::DirtyData {
                    MTRPermission::DirtyData
                } else if instr && data {
                    MTRPermission::InstructionAndCleanData
                } else if instr {
                    MTRPermission::Instruction
                } else {
                    MTRPermission::CleanData
                };
                Ok(
                    MemoryTimestampRecord {
                        ts: newest,
                        invalid: copy_pairs(&self.invalid),
                        readers,
                        perm,
                        writer: self.writer,
                    },
                )
            },
        }
    }
}

/// Records of every block seen, in buckets keyed by block id modulo the bucket count.
pub struct MemoryTimestampRecordCollection {
    sets: Vec<Vec<(usize, MemoryTimestampRecord)>>,
}

pub open spec fn bucket_view(b: Seq<(usize, MemoryTimestampRecord)>) -> Seq<(usize, RecordView)> {
    b.map_values(|e: (usize, MemoryTimestampRecord)| (e.0, e.1@))
}

impl View for MemoryTimestampRecordCollection {
    type V = TableView;

    closed spec fn view(&self) -> TableView {
        self.sets@.map_values(|b: Vec<(usize, MemoryTimestampRecord)>| bucket_view(b@))
    }
}

impl MemoryTimestampRecordCollection {
    pub open spec fn wf(&self) -> bool {
        &&& self@.len() > 0
        &&& is_pow2(self@.len() as nat)
    }

    /// An empty table of `buckets` buckets.
    pub fn new(buckets: usize) -> (r: Result<Self, ConfigError>)
        ensures
            r is Err <==> !is_pow2(buckets as nat),
            r matches Err(e) ==> e == ConfigError::SetCountNotPowerOfTwo,
            r matches Ok(t) ==> t.wf() && t@ == Seq::new(
                buckets as nat,
                |i: int| Seq::<(usize, RecordView)>::empty(),
            ),
    {
        if !power_of_two(buckets) {
            return Err(ConfigError::SetCountNotPowerOfTwo);
        }
        let mut sets: Vec<Vec<(usize, MemoryTimestampRecord)>> = Vec::new();
        let mut i: usize = 0;
        while i < buckets
            invariant
                i <= buckets,
                sets@.len() == i,
                forall|j: int| 0 <= j < i ==> (#[trigger] sets@[j])@.len() == 0,
            decreases buckets - i,
        {
            sets.push(Vec::new());
            i = i + 1;
        }
        let t = MemoryTimestampRecordCollection { sets };
        proof {
            assert forall|j: int| 0 <= j < buckets implies (#[trigger] t@[j]) =~= Seq::<
                (usize, RecordView),
            >::empty() by {}
            assert(t@ =~= Seq::new(buckets as nat, |i: int| Seq::<(usize, RecordView)>::empty()));
            assert(buckets as nat != 0) by {
                if buckets == 0 {
                    assert(!is_pow2(0));
                }
            }
        }
        Ok(t)
    }

    /// Number of buckets.
    pub fn bucket_count(&self) -> (r: usize)
        ensures
            r == self@.len(),
    {
        self.sets.len()
    }

    fn find_entry(&self, i: usize, block_id: usize) -> (r: Option<usize>)
        requires
            i < self@.len(),
        ensures
            r is None <==> entry_pos(self@[i as int], block_id) < 0,
            r matches Some(k) ==> k as int == entry_pos(self@[i as int], block_id) && k
                < self@[i as int].len(),
    {
        let bucket = &self.sets[i];
        let n = bucket.len();
        let ghost bv = self@[i as int];
        proof {
            lemma_entry_pos(bv, block_id, n as int);
        }
        let mut k: usize = 0;
        while k < n
            invariant
                k <= n,
                n == bucket@.len(),
                bv == bucket_view(bucket@),
                i < self@.len(),
                bv == self@[i as int],
                entry_pos_upto(bv, block_id, k as int) == -1,
            decreases n - k,
        {
            if bucket[k].0 == block_id {
                proof {
                    lemma_entry_pos_prefix(bv, block_id, k as int + 1, n as int);
                }
                return Some(k);
            }
            k = k + 1;
        }
        None
    }

    /// Whether the table holds a record of `block_id`.
    pub fn look_up(&self, block_id: usize) -> (r: bool)
        requires
            self.wf(),
        ensures
            r == (entry_pos(self@[block_id as int % self@.len() as int], block_id) >= 0),
    {
        let i = block_id % self.sets.len();
        self.find_entry(i, block_id).is_some()
    }

    /// Merges one observation of core `core_id` into the record of `block_id`.
    pub fn absorb_line(&mut self, core_id: u8, block_id: usize, ts: usize, status: TimestampCacheLineStatus) -> (r:
        Result<(), AbsorbError>)
        requires
            old(self).wf(),
        ensures
            final(self).wf(),
            match table_absorb(old(self)@, core_id, block_id, ts, status) {
                Ok(t) => r is Ok && final(self)@ == t,
                Err(e) => r == Err::<(), AbsorbError>(e) && final(self)@ == old(self)@,
            },
    {
        let i = block_id % self.sets.len();
        let ghost t0 = self@;
        match self.find_entry(i, block_id) {
            None => {
                let rec = MemoryTimestampRecord::seed(core_id, ts, status);
                self.sets[i].push((block_id, rec));
                proof {
                    assert(self@[i as int] =~= t0[i as int].push((block_id, seed_record(core_id, ts, status))));
                    assert(self@ =~= t0.update(i as int, t0[i as int].push((block_id, seed_record(core_id, ts, status)))));
                }
                Ok(())
            },
            Some(k) => {
                match self.sets[i][k].1.merge(core_id, ts, status) {
                    Ok(m) => {
                        let ghost mv = m@;
                        self.sets[i].set(k, (block_id, m));
                        proof {
                            assert(self@[i as int] =~= t0[i as int].update(k as int, (block_id, mv)));
                            assert(self@ =~= t0.update(i as int, t0[i as int].update(k as int, (block_id, mv))));
                        }
                        Ok(())
                    },
                    Err(e) => Err(e),
                }
            },
        }
    }
}

/// The valid lines of the first `n` sets, set by set.
pub open spec fn lines_upto(sets: Seq<SetView>, n: int) -> Seq<SetLine>
    decreases n,
{
    if n <= 0 {
        Seq::empty()
    } else {
        lines_upto(sets, n - 1) + sets[n - 1].valid_lines()
    }
}

/// Every valid line of a cache, set by set.
pub open spec fn cache_lines(sets: Seq<SetView>) -> Seq<SetLine> {
    lines_upto(sets, sets.len() as int)
}

proof fn lemma_absorb_push(t: TableView, c: u8, lines: Seq<SetLine>, l: SetLine)
    ensures
        absorb_lines(t, c, lines.push(l)) == match absorb_lines(t, c, lines) {
            Ok(t2) => table_absorb(t2, c, l.block_id, l.ts, l.status),
            Err(e) => Err(e),
        },
{
    assert(lines.push(l).drop_last() =~= lines);
}

proof fn lemma_absorb_err(t: TableView, c: u8, lines: Seq<SetLine>, more: Seq<SetLine>)
    requires
        absorb_lines(t, c, lines) is Err,
    ensures
        absorb_lines(t, c, lines + more) == absorb_lines(t, c, lines),
    decreases more.len(),
{
    if more.len() > 0 {
        lemma_absorb_err(t, c, lines, more.drop_last());
        assert((lines + more).drop_last() =~= lines + more.drop_last());
    }
}

impl MemoryTimestampRecordCollection {
    /// Merges every valid line of core `core_id`'s private cache, stopping at the first failure.
    pub fn absorb_ts_cache(&mut self, core_id: u8, other: &TimestampCache) -> (r: Result<(), AbsorbError>)
        requires
            old(self).wf(),
            other.wf(),
        ensures
            final(self).wf(),
            match absorb_lines(old(self)@, core_id, cache_lines(other@)) {
                Ok(t) => r is Ok && final(self)@ == t,
                Err(e) => r == Err::<(), AbsorbError>(e),
            },
    {
        let ghost t0 = self@;
        let ghost sets = other@;
        proof {
            other.lemma_wf();
        }
        let n = other.set_count();
        let mut i: usize = 0;
        while i < n
            invariant
                i <= n,
                n == sets.len(),
                sets == other@,
                t0 == old(self)@,
                self.wf(),
                absorb_lines(t0, core_id, lines_upto(sets, i as int)) == Ok::<TableView, AbsorbError>(self@),
            decreases n - i,
        {
            let lines = other.set(i).iter();
            let ghost prefix = lines_upto(sets, i as int);
            let mut j: usize = 0;
            while j < lines.len()
                invariant
                    j <= lines@.len(),
                    lines@ == sets[i as int].valid_lines(),
                    prefix == lines_upto(sets, i as int),
                    i < n,
                    n == sets.len(),
                    sets == other@,
                    t0 == old(self)@,
                    self.wf(),
                    absorb_lines(t0, core_id, prefix + lines@.take(j as int)) == Ok::<TableView, AbsorbError>(self@),
                decreases lines@.len() - j,
            {
                let l = lines[j];
                proof {
                    assert(prefix + lines@.take(j as int + 1) =~= (prefix + lines@.take(j as int)).push(l));
                    lemma_absorb_push(t0, core_id, prefix + lines@.take(j as int), l);
                }
                match self.absorb_line(core_id, l.block_id, l.ts, l.status) {
                    Ok(()) => {},
                    Err(e) => {
                        proof {
                            let done = prefix + lines@.take(j as int + 1);
                            lemma_cache_lines_split(sets, i as int, j as int + 1);
                            lemma_absorb_err(t0, core_id, done, cache_lines(sets).skip(done.len() as int));
                            assert(done + cache_lines(sets).skip(done.len() as int) =~= cache_lines(sets));
                        }
                        return Err(e);
                    },
                }
                j = j + 1;
            }
            proof {
                assert(lines@.take(lines@.len() as int) =~= lines@);
                assert(lines_upto(sets, i as int + 1) == prefix + lines@);
            }
            i = i + 1;
        }
        Ok(())
    }
}

/// A prefix of the lines of the first sets is a prefix of all the cache's lines.
proof fn lemma_cache_lines_split(sets: Seq<SetView>, i: int, j: int)
    requires
        0 <= i < sets.len(),
        0 <= j <= sets[i].valid_lines().len(),
    ensures
        (lines_upto(sets, i) + sets[i].valid_lines().take(j)).len() <= cache_lines(sets).len(),
        cache_lines(sets).take((lines_upto(sets, i) + sets[i].valid_lines().take(j)).len() as int)
            == lines_upto(sets, i) + sets[i].valid_lines().take(j),
{
    lemma_lines_upto_prefix(sets, i + 1, sets.len() as int);
    let p = lines_upto(sets, i) + sets[i].valid_lines().take(j);
    assert(lines_upto(sets, i + 1) == lines_upto(sets, i) + sets[i].valid_lines());
    assert(lines_upto(sets, i + 1).take(p.len() as int) =~= p);
}

proof fn lemma_lines_upto_prefix(sets: Seq<SetView>, m: int, n: int)
    requires
        0 <= m <= n <= sets.len(),
    ensures
        lines_upto(sets, m).len() <= lines_upto(sets, n).len(),
        lines_upto(sets, n).take(lines_upto(sets, m).len() as int) == lines_upto(sets, m),
    decreases n - m,
{
    if n > m {
        lemma_lines_upto_prefix(sets, m, n - 1);
        let a = lines_upto(sets, m);
        let b = lines_upto(sets, n - 1);
        assert(lines_upto(sets, n).take(a.len() as int) =~= b.take(a.len() as int));
    } else {
        assert(lines_upto(sets, n).take(lines_upto(sets, m).len() as int) =~= lines_upto(sets, m));
    }
}

/// The timestamps of a bucket's records, in bucket order.
pub open spec fn bucket_stamps(b: Seq<(usize, RecordView)>) -> Seq<usize> {
    b.map_values(|e: (usize, RecordView)| e.1.ts)
}

/// A bucket cut down to its `k` most recent records (unchanged if it has at most `k`).
pub open spec fn prune_bucket(b: Seq<(usize, RecordView)>, k: nat) -> Seq<(usize, RecordView)> {
    if b.len() <= k {
        b
    } else {
        top_k(keys_of(bucket_stamps(b)), k).map_values(|p: (usize, usize)| b[p.1 as int])
    }
}

proof fn lemma_keys_of(stamps: Seq<usize>)
    requires
        stamps.len() <= usize::MAX,
    ensures
        keys_of(stamps).no_duplicates(),
        forall|y: (usize, usize)| #[trigger]
            keys_of(stamps).contains(y) ==> y.1 < stamps.len() && y.0 == stamps[y.1 as int],
        forall|i: int| 0 <= i < stamps.len() ==> keys_of(stamps).contains((#[trigger] stamps[i], i as usize)),
{
    let ks = keys_of(stamps);
    assert forall|i: int| 0 <= i < stamps.len() implies ks.contains((#[trigger] stamps[i], i as usize)) by {
        assert(ks[i] == (stamps[i], i as usize));
    }
    assert forall|i: int, j: int| 0 <= i < ks.len() && 0 <= j < ks.len() && i != j implies ks[i]
        != ks[j] by {
        assert(ks[i].1 == i as usize && ks[j].1 == j as usize);
    }
    assert forall|y: (usize, usize)| #[trigger]
        ks.contains(y) implies y.1 < stamps.len() && y.0 == stamps[y.1 as int] by {
        let i = choose|i: int| 0 <= i < ks.len() && ks[i] == y;
        assert(ks[i].1 == i as usize);
    }
}

/// Every key that `top_k` selects names a position of the list it was built from.
pub proof fn lemma_top_k_positions(stamps: Seq<usize>, k: nat)
    requires
        stamps.len() <= usize::MAX,
    ensures
        top_k(keys_of(stamps), k).len() == if k < stamps.len() {
            k
        } else {
            stamps.len()
        },
        forall|t: int|
            0 <= t < top_k(keys_of(stamps), k).len() ==> (#[trigger] top_k(keys_of(stamps), k)[t]).1
                < stamps.len() && top_k(keys_of(stamps), k)[t].0 == stamps[top_k(
                keys_of(stamps),
                k,
            )[t].1 as int],
{
    let ks = keys_of(stamps);
    lemma_keys_of(stamps);
    lemma_sort_desc(ks);
    let sorted = sort_desc(ks);
    assert forall|t: int| 0 <= t < top_k(ks, k).len() implies (#[trigger] top_k(ks, k)[t]).1
        < stamps.len() && top_k(ks, k)[t].0 == stamps[top_k(ks, k)[t].1 as int] by {
        assert(top_k(ks, k)[t] == sorted[t]);
        assert(sorted.contains(sorted[t]));
    }
}

/// Pruning a bucket of more than `k` records keeps exactly `k` distinct records, and none of
/// the records it drops is more recent than one it keeps.
pub proof fn lemma_prune_keeps_most_recent(b: Seq<(usize, RecordView)>, k: nat)
    requires
        k < b.len() <= usize::MAX,
    ensures
        ({
            let top = top_k(keys_of(bucket_stamps(b)), k);
            &&& prune_bucket(b, k).len() == k
            &&& forall|t: int| 0 <= t < k ==> #[trigger] prune_bucket(b, k)[t] == b[top[t].1 as int]
            &&& forall|t: int, u: int| 0 <= t < u < k ==> top[t].1 != top[u].1
            &&& forall|i: int, j: int|
                0 <= i < b.len() && 0 <= j < b.len() && (exists|t: int| 0 <= t < k && top[t].1 == i)
                    && !(exists|t: int| 0 <= t < k && top[t].1 == j) ==> b[i].1.ts >= b[j].1.ts
        }),
{
    let stamps = bucket_stamps(b);
    let ks = keys_of(stamps);
    lemma_keys_of(stamps);
    lemma_sort_desc(ks);
    lemma_top_k_positions(stamps, k);
    let sorted = sort_desc(ks);
    let top = top_k(ks, k);
    assert forall|t: int, u: int| 0 <= t < u < k implies top[t].1 != top[u].1 by {
        assert(top[t] == sorted[t] && top[u] == sorted[u]);
        assert(sorted.contains(sorted[t]) && sorted.contains(sorted[u]));
    }
    assert forall|i: int, j: int|
        0 <= i < b.len() && 0 <= j < b.len() && (exists|t: int| 0 <= t < k && top[t].1 == i)
            && !(exists|t: int| 0 <= t < k && top[t].1 == j) implies b[i].1.ts >= b[j].1.ts by {
        let t = choose|t: int| 0 <= t < k && top[t].1 == i;
        assert(stamps[j] == b[j].1.ts);
        assert(stamps[i] == b[i].1.ts);
        assert(ks.contains((stamps[j], j as usize)));
        assert(sorted.contains((stamps[j], j as usize)));
        let q = choose|q: int| 0 <= q < sorted.len() && sorted[q] == (stamps[j], j as usize);
        if q < k {
            assert(top[q] == sorted[q]);
            assert(top[q].1 == j);
        }
        assert(top[t] == sorted[t]);
        assert(sorted[t].0 >= sorted[q].0);
        assert(top[t].0 == stamps[i]);
    }
}

/// The replicas of a record: its readers, less those that read before the last write.
pub open spec fn replica_cores(readers: Seq<(u8, usize)>, writer: Option<(u8, usize)>) -> Seq<u8>
    decreases readers.len(),
{
    if readers.len() == 0 {
        Seq::empty()
    } else {
        let rest = replica_cores(readers.drop_last(), writer);
        let l = readers.last();
        match writer {
            Some((_, wts)) => if l.1 < wts {
                rest
            } else {
                rest.push(l.0)
            },
            None => rest.push(l.0),
        }
    }
}

/// A directory entry as plain values.
pub struct DirectoryView {
    pub block_id: usize,
    pub replicas: Seq<u8>,
    pub last_writer: Option<u8>,
}

impl View for DirectoryBlock {
    type V = DirectoryView;

    open spec fn view(&self) -> DirectoryView {
        DirectoryView { block_id: self.block_id, replicas: self.replicas@, last_writer: self.last_writer }
    }
}

/// The directory entry of block `b` with record `r`.
pub open spec fn directory_entry(b: usize, r: RecordView) -> DirectoryView {
    DirectoryView {
        block_id: b,
        replicas: replica_cores(r.readers, r.writer),
        last_writer: match r.writer {
            Some((w, _)) => Some(w),
            None => None,
        },
    }
}

/// The directory entries of a bucket, most recent record first.
pub open spec fn export_bucket(b: Seq<(usize, RecordView)>) -> Seq<DirectoryView> {
    sort_desc(keys_of(bucket_stamps(b))).map_values(
        |p: (usize, usize)| directory_entry(b[p.1 as int].0, b[p.1 as int].1),
    )
}

impl MemoryTimestampRecord {
    /// The directory entry of this record for block `block_id`, with the record's timestamp.
    pub fn generate_directory_block(&self, block_id: usize) -> (r: TsDirectoryBlock)
        ensures
            r.d@ == directory_entry(block_id, self@),
            r.ts == self.ts,
    {
        let mut replicas: Vec<u8> = Vec::new();
        let mut i: usize = 0;
        while i < self.readers.len()
            invariant
                i <= self.readers@.len(),
                replicas@ == replica_cores(self.readers@.take(i as int), self.writer),
            decreases self.readers@.len() - i,
        {
            let (core, ts) = self.readers[i];
            proof {
                assert(self.readers@.take(i as int + 1).drop_last() =~= self.readers@.take(i as int));
            }
            match self.writer {
                Some((_, wts)) => {
                    if ts >= wts {
                        replicas.push(core);
                    }
                },
                None => {
                    replicas.push(core);
                },
            }
            i = i + 1;
        }
        proof {
            assert(self.readers@.take(self.readers@.len() as int) =~= self.readers@);
        }
        let last_writer = match self.writer {
            Some((w, _)) => Some(w),
            None => None,
        };
        TsDirectoryBlock { d: DirectoryBlock { block_id, replicas, last_writer }, ts: self.ts }
    }
}

proof fn lemma_bucket_view_push(s: Seq<(usize, MemoryTimestampRecord)>, x: (usize, MemoryTimestampRecord))
    ensures
        bucket_view(s.push(x)) == bucket_view(s).push((x.0, x.1@)),
{
    assert(bucket_view(s.push(x)) =~= bucket_view(s).push((x.0, x.1@)));
}

proof fn lemma_directory_view_push(s: Seq<DirectoryBlock>, x: DirectoryBlock)
    ensures
        s.push(x).map_values(|d: DirectoryBlock| d@) == s.map_values(|d: DirectoryBlock| d@).push(x@),
{
    assert(s.push(x).map_values(|d: DirectoryBlock| d@) =~= s.map_values(|d: DirectoryBlock| d@).push(
        x@,
    ));
}

fn stamp_keys(bucket: &Vec<(usize, MemoryTimestampRecord)>) -> (r: Vec<(usize, usize)>)
    ensures
        r@ == keys_of(bucket_stamps(bucket_view(bucket@))),
{
    let mut keys: Vec<(usize, usize)> = Vec::new();
    let mut i: usize = 0;
    while i < bucket.len()
        invariant
            i <= bucket@.len(),
            keys@ == keys_of(bucket_stamps(bucket_view(bucket@))).take(i as int),
        decreases bucket@.len() - i,
    {
        keys.push((bucket[i].1.ts, i));
        proof {
            assert(keys@ =~= keys_of(bucket_stamps(bucket_view(bucket@))).take(i as int + 1));
        }
        i = i + 1;
    }
    proof {
        assert(keys@ =~= keys_of(bucket_stamps(bucket_view(bucket@))));
    }
    keys
}

impl MemoryTimestampRecordCollection {
    /// Keeps, in every bucket of more than `associativity` records, only the most recent ones.
    pub fn prune_by_associativity(self, associativity: usize) -> (r: Self)
        requires
            self.wf(),
        ensures
            r.wf(),
            r@ == self@.map_values(|b: Seq<(usize, RecordView)>| prune_bucket(b, associativity as nat)),
    {
        let mut sets: Vec<Vec<(usize, MemoryTimestampRecord)>> = Vec::new();
        let n = self.sets.len();
        let mut i: usize = 0;
        while i < n
            invariant
                i <= n,
                n == self@.len(),
                sets@.len() == i,
                forall|j: int|
                    0 <= j < i ==> bucket_view((#[trigger] sets@[j])@) == prune_bucket(
                        self@[j],
                        associativity as nat,
                    ),
            decreases n - i,
        {
            let bucket = &self.sets[i];
            let ghost bv = bucket_view(bucket@);
            let mut kept: Vec<(usize, MemoryTimestampRecord)> = Vec::new();
            if bucket.len() <= associativity {
                let mut j: usize = 0;
                while j < bucket.len()
                    invariant
                        j <= bucket@.len(),
                        bv == bucket_view(bucket@),
                        bucket_view(kept@) == bv.take(j as int),
                    decreases bucket@.len() - j,
                {
                    let ghost before = kept@;
                    kept.push((bucket[j].0, bucket[j].1.duplicate()));
                    proof {
                        lemma_bucket_view_push(before, kept@.last());
                        assert(bv.take(j as int + 1) =~= bv.take(j as int).push(bv[j as int]));
                    }
                    j = j + 1;
                }
                proof {
                    assert(bv.take(bv.len() as int) =~= bv);
                }
            } else {
                let keys = stamp_keys(bucket);
                let top = select_top_k(&keys, associativity);
                proof {
                    lemma_top_k_positions(bucket_stamps(bv), associativity as nat);
                }
                let ghost want = prune_bucket(bv, associativity as nat);
                let mut j: usize = 0;
                while j < top.len()
                    invariant
                        j <= top@.len(),
                        bv == bucket_view(bucket@),
                        bv.len() > associativity,
                        top@ == top_k(keys_of(bucket_stamps(bv)), associativity as nat),
                        top@.len() == associativity,
                        forall|t: int|
                            0 <= t < top@.len() ==> (#[trigger] top@[t]).1 < bv.len(),
                        want == prune_bucket(bv, associativity as nat),
                        bucket_view(kept@) == want.take(j as int),
                    decreases top@.len() - j,
                {
                    let idx = top[j].1;
                    let ghost before = kept@;
                    kept.push((bucket[idx].0, bucket[idx].1.duplicate()));
                    proof {
                        lemma_bucket_view_push(before, kept@.last());
                        assert(want.take(j as int + 1) =~= want.take(j as int).push(want[j as int]));
                    }
                    j = j + 1;
                }
                proof {
                    assert(want.take(want.len() as int) =~= want);
                }
            }
            sets.push(kept);
            i = i + 1;
        }
        let r = MemoryTimestampRecordCollection { sets };
        proof {
            assert(r@ =~= self@.map_values(
                |b: Seq<(usize, RecordView)>| prune_bucket(b, associativity as nat),
            ));
        }
        r
    }

    /// The directory, bucket by bucket, each bucket's entries most recent first.
    pub fn export_directory(&self) -> (r: SerializedDirectory)
        ensures
            r@.len() == self@.len(),
            forall|i: int|
                0 <= i < self@.len() ==> (#[trigger] r@[i])@.map_values(|d: DirectoryBlock| d@)
                    == export_bucket(self@[i]),
    {
        let mut out: Vec<Vec<DirectoryBlock>> = Vec::new();
        let n = self.sets.len();
        let mut i: usize = 0;
        while i < n
            invariant
                i <= n,
                n == self@.len(),
                out@.len() == i,
                forall|j: int|
                    0 <= j < i ==> (#[trigger] out@[j])@.map_values(|d: DirectoryBlock| d@)
                        == export_bucket(self@[j]),
            decreases n - i,
        {
            let bucket = &self.sets[i];
            let ghost bv = bucket_view(bucket@);
            let keys = stamp_keys(bucket);
            let order = select_top_k(&keys, bucket.len());
            proof {
                lemma_top_k_positions(bucket_stamps(bv), bv.len());
                lemma_sort_desc(keys_of(bucket_stamps(bv)));
                assert(order@ == sort_desc(keys_of(bucket_stamps(bv))));
            }
            let mut entries: Vec<DirectoryBlock> = Vec::new();
            let mut j: usize = 0;
            while j < order.len()
                invariant
                    j <= order@.len(),
                    bv == bucket_view(bucket@),
                    order@ == sort_desc(keys_of(bucket_stamps(bv))),
                    order@ == top_k(keys_of(bucket_stamps(bv)), bv.len()),
                    forall|t: int| 0 <= t < order@.len() ==> (#[trigger] order@[t]).1 < bv.len(),
                    entries@.map_values(|d: DirectoryBlock| d@) == export_bucket(bv).take(j as int),
                    export_bucket(bv).len() == order@.len(),
                decreases order@.len() - j,
            {
                let idx = order[j].1;
                let e = bucket[idx].1.generate_directory_block(bucket[idx].0);
                let ghost before = entries@;
                entries.push(e.d);
                proof {
                    lemma_directory_view_push(before, entries@.last());
                    assert(export_bucket(bv).take(j as int + 1) =~= export_bucket(bv).take(j as int).push(
                        export_bucket(bv)[j as int],
                    ));
                }
                j = j + 1;
            }
            proof {
                assert(export_bucket(bv).take(order@.len() as int) =~= export_bucket(bv));
            }
            out.push(entries);
            i = i + 1;
        }
        out
    }
}

impl MemoryTimestampRecordCollection {
    /// The entries of bucket `i`.
    pub fn bucket(&self, i: usize) -> (r: &Vec<(usize, MemoryTimestampRecord)>)
        requires
            i < self@.len(),
        ensures
            bucket_view(r@) == self@[i as int],
    {
        &self.sets[i]
    }
}

} // verus!
