//! A fixed-capacity associative set ordered by logical timestamps.

use vstd::prelude::*;

verus! {

/// What one access to a set did.
#[derive(Clone, Copy, PartialEq, Eq, Structural, Debug)]
pub enum CacheReturnResult {
    Miss,
    Hit,
    /// A clean line was evicted: (block id, whether it was instruction-resident).
    MissWithEviction(usize, bool),
    /// A dirty line was evicted and has to be written back.
    MissWithWriteBack(usize),
}

/// Status of one line of a set.
#[derive(Clone, Copy, PartialEq, Eq, Structural, Debug)]
pub enum TimestampCacheLineStatus {
    Invalid,
    Instruction,
    CleanData,
    CleanInstructionAndData,
    DirtyData,
}

impl TimestampCacheLineStatus {
    pub open spec fn spec_is_dirty(self) -> bool {
        self is DirtyData
    }

    pub open spec fn spec_is_data(self) -> bool {
        self is CleanData || self is CleanInstructionAndData || self is DirtyData
    }

    pub open spec fn spec_is_instruction(self) -> bool {
        self is Instruction || self is CleanInstructionAndData
    }

    pub fn is_dirty(&self) -> (r: bool)
        ensures
            r == self.spec_is_dirty(),
    {
        *self == TimestampCacheLineStatus::DirtyData
    }

    pub fn is_data(&self) -> (r: bool)
        ensures
            r == self.spec_is_data(),
    {
        match self {
            TimestampCacheLineStatus::CleanData
            | TimestampCacheLineStatus::CleanInstructionAndData
            | TimestampCacheLineStatus::DirtyData => true,
            _ => false,
        }
    }

    pub fn is_instruction(&self) -> (r: bool)
        ensures
            r == self.spec_is_instruction(),
    {
        match self {
            TimestampCacheLineStatus::Instruction
            | TimestampCacheLineStatus::CleanInstructionAndData => true,
            _ => false,
        }
    }
}

/// The status a line gets when it is brought in by an access.
pub open spec fn initial_status(is_instruction: bool, is_write: bool) -> TimestampCacheLineStatus {
    if is_instruction {
        TimestampCacheLineStatus::Instruction
    } else if is_write {
        TimestampCacheLineStatus::DirtyData
    } else {
        TimestampCacheLineStatus::CleanData
    }
}

/// The monotone promotion of a resident line's status by another access.
pub open spec fn promoted_status(
    s: TimestampCacheLineStatus,
    is_instruction: bool,
    is_write: bool,
) -> TimestampCacheLineStatus {
    match s {
        TimestampCacheLineStatus::Instruction => if !is_instruction {
            TimestampCacheLineStatus::CleanInstructionAndData
        } else {
            s
        },
        TimestampCacheLineStatus::CleanData => if is_instruction {
            TimestampCacheLineStatus::CleanInstructionAndData
        } else if is_write {
            TimestampCacheLineStatus::DirtyData
        } else {
            s
        },
        _ => s,
    }
}

/// An access that would make a line both executable and dirty.
pub open spec fn nx_conflict(s: TimestampCacheLineStatus, is_instruction: bool, is_write: bool) -> bool {
    (is_instruction && is_write) || (s.spec_is_instruction() && is_write) || (s is DirtyData
        && is_instruction)
}

/// One way of a set.
#[derive(Clone, Copy, PartialEq, Eq, Structural, Debug)]
pub struct SetLine {
    pub block_id: usize,
    pub ts: usize,
    pub status: TimestampCacheLineStatus,
}

impl SetLine {
    pub open spec fn valid(self) -> bool {
        !(self.status is Invalid)
    }
}

/// First index below `n` of a valid line holding block `b`, or -1.
pub open spec fn find_block(lines: Seq<SetLine>, b: usize, n: int) -> int
    decreases n,
{
    if n <= 0 {
        -1
    } else {
        let r = find_block(lines, b, n - 1);
        if r >= 0 {
            r
        } else if lines[n - 1].valid() && lines[n - 1].block_id == b {
            n - 1
        } else {
            -1
        }
    }
}

/// First index below `n` of an invalid line, or -1.
pub open spec fn find_invalid(lines: Seq<SetLine>, n: int) -> int
    decreases n,
{
    if n <= 0 {
        -1
    } else {
        let r = find_invalid(lines, n - 1);
        if r >= 0 {
            r
        } else if !lines[n - 1].valid() {
            n - 1
        } else {
            -1
        }
    }
}

/// First index below `n` (n >= 1) of a line with the smallest timestamp.
pub open spec fn oldest_index(lines: Seq<SetLine>, n: int) -> int
    decreases n,
{
    if n <= 1 {
        0
    } else {
        let k = oldest_index(lines, n - 1);
        if lines[n - 1].ts < lines[k].ts {
            n - 1
        } else {
            k
        }
    }
}

/// The contents of a set: its ways and its fill pointer.
pub struct SetView {
    pub lines: Seq<SetLine>,
    pub cold: nat,
}

impl SetView {
    pub open spec fn ways(self) -> nat {
        self.lines.len()
    }

    pub open spec fn wf(self) -> bool {
        &&& self.lines.len() > 0
        &&& self.cold <= self.lines.len()
        &&& forall|i: int| self.cold <= i < self.lines.len() ==> !(#[trigger] self.lines[i]).valid()
        &&& forall|i: int, j: int|
            0 <= i < self.lines.len() && 0 <= j < self.lines.len() && i != j
                && (#[trigger] self.lines[i]).valid() && (#[trigger] self.lines[j]).valid()
                ==> self.lines[i].block_id != self.lines[j].block_id
    }

    /// Index of the valid line holding `b`, or -1.
    pub open spec fn index_of(self, b: usize) -> int {
        find_block(self.lines, b, self.lines.len() as int)
    }

    pub open spec fn holds(self, b: usize) -> bool {
        self.index_of(b) >= 0
    }

    pub open spec fn conflicts(self, b: usize, is_instruction: bool, is_write: bool) -> bool {
        if self.holds(b) {
            nx_conflict(self.lines[self.index_of(b)].status, is_instruction, is_write)
        } else {
            is_instruction && is_write
        }
    }

    /// The set after a hit on `b` (unchanged when `b` is not held).
    pub open spec fn peeked(self, b: usize, ts: usize, is_instruction: bool, is_write: bool) -> SetView {
        if self.holds(b) {
            let k = self.index_of(b);
            SetView {
                lines: self.lines.update(
                    k,
                    SetLine {
                        block_id: b,
                        ts,
                        status: promoted_status(self.lines[k].status, is_instruction, is_write),
                    },
                ),
                cold: self.cold,
            }
        } else {
            self
        }
    }

    /// The way that a miss on a set fills.
    pub open spec fn fill_index(self) -> int {
        if self.cold < self.lines.len() {
            self.cold as int
        } else if find_invalid(self.lines, self.lines.len() as int) >= 0 {
            find_invalid(self.lines, self.lines.len() as int)
        } else {
            oldest_index(self.lines, self.lines.len() as int)
        }
    }

    /// Whether a miss on the set evicts a valid line.
    pub open spec fn miss_evicts(self) -> bool {
        self.cold >= self.lines.len() && find_invalid(self.lines, self.lines.len() as int) < 0
    }

    /// The set after an access to `b`.
    pub open spec fn accessed(self, b: usize, ts: usize, is_instruction: bool, is_write: bool) -> SetView {
        if self.holds(b) {
            self.peeked(b, ts, is_instruction, is_write)
        } else {
            SetView {
                lines: self.lines.update(
                    self.fill_index(),
                    SetLine { block_id: b, ts, status: initial_status(is_instruction, is_write) },
                ),
                cold: if self.cold < self.lines.len() {
                    self.cold + 1
                } else {
                    self.cold
                },
            }
        }
    }

    /// What an access to `b` reports.
    pub open spec fn access_result(self, b: usize) -> CacheReturnResult {
        if self.holds(b) {
            CacheReturnResult::Hit
        } else if !self.miss_evicts() {
            CacheReturnResult::Miss
        } else {
            let v = self.lines[self.fill_index()];
            if v.status is DirtyData {
                CacheReturnResult::MissWithWriteBack(v.block_id)
            } else {
                CacheReturnResult::MissWithEviction(v.block_id, v.status.spec_is_instruction())
            }
        }
    }

    /// Number of valid lines among the first `n` ways.
    pub open spec fn live_count(self, n: int) -> nat
        decreases n,
    {
        if n <= 0 {
            0
        } else {
            self.live_count(n - 1) + if self.lines[n - 1].valid() {
                1nat
            } else {
                0nat
            }
        }
    }

    /// The valid lines, in way order.
    pub open spec fn valid_lines(self) -> Seq<SetLine> {
        valid_prefix(self.lines, self.lines.len() as int)
    }
}

/// The valid lines among the first `n` ways, in way order.
pub open spec fn valid_prefix(lines: Seq<SetLine>, n: int) -> Seq<SetLine>
    decreases n,
{
    if n <= 0 {
        Seq::empty()
    } else if lines[n - 1].valid() {
        valid_prefix(lines, n - 1).push(lines[n - 1])
    } else {
        valid_prefix(lines, n - 1)
    }
}

proof fn lemma_find_block(lines: Seq<SetLine>, b: usize, n: int)
    requires
        0 <= n <= lines.len(),
    ensures
        -1 <= find_block(lines, b, n) < n,
        find_block(lines, b, n) >= 0 ==> lines[find_block(lines, b, n)].valid()
            && lines[find_block(lines, b, n)].block_id == b,
        find_block(lines, b, n) == -1 ==> forall|j: int|
            0 <= j < n ==> !(#[trigger] lines[j].valid() && lines[j].block_id == b),
    decreases n,
{
    if n > 0 {
        lemma_find_block(lines, b, n - 1);
    }
}

proof fn lemma_find_prefix(lines: Seq<SetLine>, b: usize, m: int, n: int)
    requires
        0 <= m <= n <= lines.len(),
        find_block(lines, b, m) >= 0,
    ensures
        find_block(lines, b, n) == find_block(lines, b, m),
    decreases n - m,
{
    if n > m {
        lemma_find_prefix(lines, b, m, n - 1);
    }
}

proof fn lemma_find_invalid_prefix(lines: Seq<SetLine>, m: int, n: int)
    requires
        0 <= m <= n <= lines.len(),
        find_invalid(lines, m) >= 0,
    ensures
        find_invalid(lines, n) == find_invalid(lines, m),
    decreases n - m,
{
    if n > m {
        lemma_find_invalid_prefix(lines, m, n - 1);
    }
}

proof fn lemma_find_invalid(lines: Seq<SetLine>, n: int)
    requires
        0 <= n <= lines.len(),
    ensures
        -1 <= find_invalid(lines, n) < n,
        find_invalid(lines, n) >= 0 ==> !lines[find_invalid(lines, n)].valid(),
        find_invalid(lines, n) == -1 ==> forall|j: int| 0 <= j < n ==> (#[trigger] lines[j]).valid(),
    decreases n,
{
    if n > 0 {
        lemma_find_invalid(lines, n - 1);
    }
}

proof fn lemma_oldest_index(lines: Seq<SetLine>, n: int)
    requires
        1 <= n <= lines.len(),
    ensures
        0 <= oldest_index(lines, n) < n,
        forall|j: int| 0 <= j < n ==> lines[oldest_index(lines, n)].ts <= (#[trigger] lines[j]).ts,
        forall|j: int|
            0 <= j < oldest_index(lines, n) ==> lines[oldest_index(lines, n)].ts < (#[trigger] lines[j]).ts,
    decreases n,
{
    if n > 1 {
        lemma_oldest_index(lines, n - 1);
    }
}

/// The result of looking a block up in a set: a way index, or the way count for a miss.
#[derive(Clone, Copy)]
pub struct SetAccessResult {
    index: usize,
    ways: usize,
}

impl SetAccessResult {
    pub closed spec fn spec_index(self) -> usize {
        self.index
    }

    pub closed spec fn spec_is_hit(self) -> bool {
        self.index != self.ways
    }

    pub fn new(index: usize, ways: usize) -> (r: Self)
        ensures
            r.spec_index() == index,
            r.spec_is_hit() == (index != ways),
    {
        SetAccessResult { index, ways }
    }

    pub fn new_miss(ways: usize) -> (r: Self)
        ensures
            !r.spec_is_hit(),
            r.spec_index() == ways,
    {
        SetAccessResult { index: ways, ways }
    }

    pub fn is_hit(&self) -> (r: bool)
        ensures
            r == self.spec_is_hit(),
    {
        self.index != self.ways
    }

    pub fn is_miss(&self) -> (r: bool)
        ensures
            r == !self.spec_is_hit(),
    {
        self.index == self.ways
    }

    pub fn index(&self) -> (r: usize)
        ensures
            r == self.spec_index(),
    {
        self.index
    }
}

/// An associative set of lines, replaced by smallest timestamp.
#[derive(Debug)]
pub struct TimestampCacheSet {
    lines: Vec<SetLine>,
    cold_element_pointer: usize,
}

impl View for TimestampCacheSet {
    type V = SetView;

    closed spec fn view(&self) -> SetView {
        SetView { lines: self.lines@, cold: self.cold_element_pointer as nat }
    }
}

impl TimestampCacheSet {
    /// An empty set of `ways` ways.
    pub fn new(ways: usize) -> (r: Self)
        requires
            ways > 0,
        ensures
            r@.wf(),
            r@.ways() == ways,
            r@.cold == 0,
            forall|i: int| 0 <= i < ways ==> !(#[trigger] r@.lines[i]).valid(),
    {
        let mut lines: Vec<SetLine> = Vec::new();
        let mut i: usize = 0;
        while i < ways
            invariant
                i <= ways,
                lines@.len() == i,
                forall|j: int| 0 <= j < i ==> !(#[trigger] lines@[j]).valid(),
            decreases ways - i,
        {
            lines.push(SetLine { block_id: 0, ts: 0, status: TimestampCacheLineStatus::Invalid });
            i = i + 1;
        }
        TimestampCacheSet { lines, cold_element_pointer: 0 }
    }

    fn lookup(&self, block_id: usize) -> (r: SetAccessResult)
        requires
            self@.wf(),
        ensures
            r.spec_is_hit() == self@.holds(block_id),
            r.spec_is_hit() ==> r.spec_index() == self@.index_of(block_id),
    {
        let n = self.lines.len();
        let mut i: usize = 0;
        proof {
            lemma_find_block(self@.lines, block_id, n as int);
        }
        while i < n
            invariant
                i <= n,
                n == self.lines@.len(),
                find_block(self.lines@, block_id, i as int) == -1,
            decreases n - i,
        {
            let l = self.lines[i];
            if l.block_id == block_id && l.status != TimestampCacheLineStatus::Invalid {
                proof {
                    lemma_find_block(self@.lines, block_id, n as int);
                    lemma_find_block(self@.lines, block_id, i as int + 1);
                    lemma_find_prefix(self@.lines, block_id, i as int + 1, n as int);
                }
                return SetAccessResult::new(i, n);
            }
            i = i + 1;
        }
        SetAccessResult::new_miss(n)
    }
}


fn promote(s: TimestampCacheLineStatus, is_instruction: bool, is_write: bool) -> (r: TimestampCacheLineStatus)
    ensures
        r == promoted_status(s, is_instruction, is_write),
{
    match s {
        TimestampCacheLineStatus::Instruction => if !is_instruction {
            TimestampCacheLineStatus::CleanInstructionAndData
        } else {
            s
        },
        TimestampCacheLineStatus::CleanData => if is_instruction {
            TimestampCacheLineStatus::CleanInstructionAndData
        } else if is_write {
            TimestampCacheLineStatus::DirtyData
        } else {
            s
        },
        _ => s,
    }
}

fn first_status(is_instruction: bool, is_write: bool) -> (r: TimestampCacheLineStatus)
    ensures
        r == initial_status(is_instruction, is_write),
{
    if is_instruction {
        TimestampCacheLineStatus::Instruction
    } else if is_write {
        TimestampCacheLineStatus::DirtyData
    } else {
        TimestampCacheLineStatus::CleanData
    }
}

impl TimestampCacheSet {
    /// Number of ways.
    pub fn ways(&self) -> (r: usize)
        ensures
            r == self@.ways(),
    {
        self.lines.len()
    }

    /// Whether an access to `block_id` would break the NX invariant.
    pub fn violates_nx(&self, block_id: usize, is_instruction: bool, is_write: bool) -> (r: bool)
        requires
            self@.wf(),
        ensures
            r == self@.conflicts(block_id, is_instruction, is_write),
    {
        let look = self.lookup(block_id);
        if look.is_miss() {
            is_instruction && is_write
        } else {
            proof {
                lemma_find_block(self@.lines, block_id, self@.lines.len() as int);
            }
            let s = self.lines[look.index()].status;
            (is_instruction && is_write) || (s.is_instruction() && is_write) || (s
                == TimestampCacheLineStatus::DirtyData && is_instruction)
        }
    }

    /// On a hit, refreshes the line's timestamp and promotes its status.
    pub fn peek(&mut self, block_id: usize, ts: usize, is_instruction: bool, is_write: bool) -> (r:
        bool)
        requires
            old(self)@.wf(),
            !old(self)@.conflicts(block_id, is_instruction, is_write),
        ensures
            r == old(self)@.holds(block_id),
            final(self)@ == old(self)@.peeked(block_id, ts, is_instruction, is_write),
            final(self)@.wf(),
    {
        let look = self.lookup(block_id);
        if look.is_miss() {
            return false;
        }
        let k = look.index();
        proof {
            lemma_find_block(self@.lines, block_id, self@.lines.len() as int);
        }
        let status = promote(self.lines[k].status, is_instruction, is_write);
        self.lines.set(k, SetLine { block_id, ts, status });
        proof {
            assert(self@.lines =~= old(self)@.peeked(block_id, ts, is_instruction, is_write).lines);
        }
        true
    }

    /// Brings a block that is not held into the set; returns the evicted line, if any.
    fn add_new(&mut self, block_id: usize, ts: usize, is_instruction: bool, is_write: bool) -> (r:
        Option<SetLine>)
        requires
            old(self)@.wf(),
            !old(self)@.holds(block_id),
        ensures
            final(self)@.wf(),
            final(self)@ == old(self)@.accessed(block_id, ts, is_instruction, is_write),
            r == if old(self)@.miss_evicts() {
                Some(old(self)@.lines[old(self)@.fill_index()])
            } else {
                None::<SetLine>
            },
    {
        let ghost v0 = self@;
        let n = self.lines.len();
        proof {
            lemma_find_block(v0.lines, block_id, n as int);
            lemma_find_invalid(v0.lines, n as int);
        }
        let line = SetLine { block_id, ts, status: first_status(is_instruction, is_write) };
        if self.cold_element_pointer < n {
            let c = self.cold_element_pointer;
            self.lines.set(c, line);
            self.cold_element_pointer = c + 1;
            proof {
                assert(self@.lines =~= v0.accessed(block_id, ts, is_instruction, is_write).lines);
            }
            return None;
        }
        let mut j: usize = 0;
        while j < n
            invariant
                j <= n,
                n == self.lines@.len(),
                self@ == v0,
                v0 == old(self)@,
                v0.wf(),
                !v0.holds(block_id),
                v0.cold >= n,
                line == (SetLine { block_id, ts, status: initial_status(is_instruction, is_write) }),
                find_invalid(v0.lines, j as int) == -1,
            decreases n - j,
        {
            if self.lines[j].status == TimestampCacheLineStatus::Invalid {
                proof {
                    lemma_find_block(v0.lines, block_id, n as int);
                    assert(find_invalid(v0.lines, j as int + 1) == j as int);
                    lemma_find_invalid_prefix(v0.lines, j as int + 1, n as int);
                    assert(v0.fill_index() == j as int);
                }
                self.lines.set(j, line);
                proof {
                    assert(self@.lines =~= v0.accessed(block_id, ts, is_instruction, is_write).lines);
                }
                return None;
            }
            j = j + 1;
        }
        let mut best: usize = 0;
        let mut j: usize = 1;
        while j < n
            invariant
                1 <= j <= n,
                n == self.lines@.len(),
                self@ == v0,
                v0 == old(self)@,
                v0.wf(),
                !v0.holds(block_id),
                v0.cold >= n,
                find_invalid(v0.lines, n as int) == -1,
                best == oldest_index(v0.lines, j as int),
                best < j,
            decreases n - j,
        {
            proof {
                lemma_oldest_index(v0.lines, j as int + 1);
            }
            if self.lines[j].ts < self.lines[best].ts {
                best = j;
            }
            j = j + 1;
        }
        proof {
            lemma_oldest_index(v0.lines, n as int);
        }
        let victim = self.lines[best];
        self.lines.set(best, line);
        proof {
            assert(self@.lines =~= v0.accessed(block_id, ts, is_instruction, is_write).lines);
        }
        Some(victim)
    }

    /// Records an access: a hit refreshes the line, a miss fills a way.
    pub fn access(&mut self, block_id: usize, ts: usize, is_instruction: bool, is_write: bool) -> (r:
        CacheReturnResult)
        requires
            old(self)@.wf(),
            !old(self)@.conflicts(block_id, is_instruction, is_write),
        ensures
            final(self)@.wf(),
            final(self)@ == old(self)@.accessed(block_id, ts, is_instruction, is_write),
            r == old(self)@.access_result(block_id),
    {
        if self.peek(block_id, ts, is_instruction, is_write) {
            return CacheReturnResult::Hit;
        }
        match self.add_new(block_id, ts, is_instruction, is_write) {
            Some(victim) => {
                if victim.status == TimestampCacheLineStatus::DirtyData {
                    CacheReturnResult::MissWithWriteBack(victim.block_id)
                } else {
                    CacheReturnResult::MissWithEviction(victim.block_id, victim.status.is_instruction())
                }
            },
            None => CacheReturnResult::Miss,
        }
    }

    /// Removes the valid line holding `block_id`, marking its way invalid, and returns it.
    pub fn invalid(&mut self, block_id: usize) -> (r: Option<SetLine>)
        requires
            old(self)@.wf(),
        ensures
            final(self)@.wf(),
            old(self)@.holds(block_id) ==> {
                let k = old(self)@.index_of(block_id);
                &&& r == Some(old(self)@.lines[k])
                &&& final(self)@ == (SetView {
                    lines: old(self)@.lines.update(
                        k,
                        SetLine { status: TimestampCacheLineStatus::Invalid, ..old(self)@.lines[k] },
                    ),
                    cold: old(self)@.cold,
                })
            },
            !old(self)@.holds(block_id) ==> r is None && final(self)@ == old(self)@,
    {
        let look = self.lookup(block_id);
        if look.is_miss() {
            return None;
        }
        let k = look.index();
        proof {
            lemma_find_block(self@.lines, block_id, self@.lines.len() as int);
        }
        let prior = self.lines[k];
        self.lines.set(
            k,
            SetLine { block_id: prior.block_id, ts: prior.ts, status: TimestampCacheLineStatus::Invalid },
        );
        proof {
            assert(self@.lines =~= old(self)@.lines.update(
                k as int,
                SetLine { status: TimestampCacheLineStatus::Invalid, ..old(self)@.lines[k as int] },
            ));
        }
        Some(prior)
    }

    /// Number of ways filled since the set was created.
    pub fn warm_chunk_count(&self) -> (r: usize)
        ensures
            r == self@.cold,
    {
        self.cold_element_pointer
    }

    /// Number of valid lines.
    pub fn len(&self) -> (r: usize)
        ensures
            r == self@.live_count(self@.ways() as int),
    {
        let n = self.lines.len();
        let mut count: usize = 0;
        let mut i: usize = 0;
        while i < n
            invariant
                i <= n,
                n == self.lines@.len(),
                count == self@.live_count(i as int),
                count <= i,
            decreases n - i,
        {
            if self.lines[i].status != TimestampCacheLineStatus::Invalid {
                count = count + 1;
            }
            i = i + 1;
        }
        count
    }

    /// The valid lines, in way order.
    pub fn iter(&self) -> (r: Vec<SetLine>)
        ensures
            r@ == self@.valid_lines(),
    {
        let n = self.lines.len();
        let mut out: Vec<SetLine> = Vec::new();
        let mut i: usize = 0;
        while i < n
            invariant
                i <= n,
                n == self.lines@.len(),
                out@ == valid_prefix(self@.lines, i as int),
            decreases n - i,
        {
            let l = self.lines[i];
            if l.status != TimestampCacheLineStatus::Invalid {
                out.push(l);
            }
            i = i + 1;
        }
        out
    }
}

/// In a well-formed set, a valid line holding `b` is the one that `index_of` finds.
proof fn lemma_index_of_unique(v: SetView, b: usize, k: int)
    requires
        v.wf(),
        0 <= k < v.lines.len(),
        v.lines[k].valid(),
        v.lines[k].block_id == b,
    ensures
        v.holds(b),
        v.index_of(b) == k,
{
    lemma_find_block(v.lines, b, v.lines.len() as int);
}

/// A peek changes neither the number of ways nor the fill pointer.
pub proof fn lemma_peeked_shape(v: SetView, b: usize, ts: usize, is_instruction: bool, is_write: bool)
    requires
        v.wf(),
    ensures
        v.peeked(b, ts, is_instruction, is_write).ways() == v.ways(),
        v.peeked(b, ts, is_instruction, is_write).cold == v.cold,
{
    lemma_find_block(v.lines, b, v.lines.len() as int);
}

/// An access that keeps the NX invariant leaves a well-formed set well-formed.
pub proof fn lemma_accessed_wf(v: SetView, b: usize, ts: usize, is_instruction: bool, is_write: bool)
    requires
        v.wf(),
        !v.conflicts(b, is_instruction, is_write),
    ensures
        v.accessed(b, ts, is_instruction, is_write).wf(),
        v.accessed(b, ts, is_instruction, is_write).ways() == v.ways(),
{
    let n = v.lines.len() as int;
    lemma_find_block(v.lines, b, n);
    lemma_find_invalid(v.lines, n);
    lemma_oldest_index(v.lines, n);
    let w = v.accessed(b, ts, is_instruction, is_write);
    if v.holds(b) {
        let k = v.index_of(b);
        assert forall|i: int, j: int|
            0 <= i < n && 0 <= j < n && i != j && (#[trigger] w.lines[i]).valid()
                && (#[trigger] w.lines[j]).valid() implies w.lines[i].block_id
            != w.lines[j].block_id by {
            if i != k && j != k {
                assert(v.lines[i].valid() && v.lines[j].valid());
            } else if i == k {
                assert(v.lines[j].valid());
            } else {
                assert(v.lines[i].valid());
            }
        }
    } else {
        let f = v.fill_index();
        assert forall|i: int, j: int|
            0 <= i < n && 0 <= j < n && i != j && (#[trigger] w.lines[i]).valid()
                && (#[trigger] w.lines[j]).valid() implies w.lines[i].block_id
            != w.lines[j].block_id by {
            if i != f && j != f {
                assert(v.lines[i].valid() && v.lines[j].valid());
            } else if i == f {
                assert(v.lines[j].valid());
            } else {
                assert(v.lines[i].valid());
            }
        }
    }
}

/// The block that an access result reports as evicted, if any.
pub open spec fn evicted_block(r: CacheReturnResult) -> Option<usize> {
    match r {
        CacheReturnResult::MissWithEviction(b, _) => Some(b),
        CacheReturnResult::MissWithWriteBack(b) => Some(b),
        _ => None,
    }
}

/// A set that has just been created: no way filled.
pub open spec fn fresh(v: SetView) -> bool {
    &&& v.wf()
    &&& v.cold == 0
}

/// The set after the first `n` of a sequence of accesses.
pub open spec fn run_accesses(
    v: SetView,
    blocks: Seq<usize>,
    stamps: Seq<usize>,
    fetches: Seq<bool>,
    writes: Seq<bool>,
    n: int,
) -> SetView
    decreases n,
{
    if n <= 0 {
        v
    } else {
        run_accesses(v, blocks, stamps, fetches, writes, n - 1).accessed(
            blocks[n - 1],
            stamps[n - 1],
            fetches[n - 1],
            writes[n - 1],
        )
    }
}

proof fn lemma_fill_in_order(
    v: SetView,
    blocks: Seq<usize>,
    stamps: Seq<usize>,
    fetches: Seq<bool>,
    writes: Seq<bool>,
    n: int,
)
    requires
        fresh(v),
        0 <= n <= v.ways(),
        blocks.len() > n && stamps.len() > n && fetches.len() > n && writes.len() > n,
        forall|i: int, j: int| 0 <= i < j < blocks.len() ==> blocks[i] != blocks[j],
        forall|i: int| 0 <= i < blocks.len() ==> !(#[trigger] fetches[i] && writes[i]),
    ensures
        ({
            let w = run_accesses(v, blocks, stamps, fetches, writes, n);
            &&& w.wf()
            &&& w.ways() == v.ways()
            &&& w.cold == n
            &&& forall|i: int|
                0 <= i < n ==> #[trigger] w.lines[i] == (SetLine {
                    block_id: blocks[i],
                    ts: stamps[i],
                    status: initial_status(fetches[i], writes[i]),
                })
        }),
    decreases n,
{
    if n > 0 {
        lemma_fill_in_order(v, blocks, stamps, fetches, writes, n - 1);
        let u = run_accesses(v, blocks, stamps, fetches, writes, n - 1);
        let b = blocks[n - 1];
        lemma_find_block(u.lines, b, u.lines.len() as int);
        if u.holds(b) {
            let k = u.index_of(b);
            assert(u.lines[k].valid());
            assert(k < n - 1);
            assert(blocks[k] != blocks[n - 1]);
        }
        assert(!u.conflicts(b, fetches[n - 1], writes[n - 1]));
        lemma_accessed_wf(u, b, stamps[n - 1], fetches[n - 1], writes[n - 1]);
    }
}

/// When a set of A ways sees A+1 distinct blocks at strictly increasing timestamps, the last
/// access evicts exactly the first block.
pub proof fn lemma_evicts_first_inserted(
    v: SetView,
    blocks: Seq<usize>,
    stamps: Seq<usize>,
    fetches: Seq<bool>,
    writes: Seq<bool>,
)
    requires
        fresh(v),
        blocks.len() == v.ways() + 1,
        stamps.len() == blocks.len(),
        fetches.len() == blocks.len(),
        writes.len() == blocks.len(),
        forall|i: int, j: int| 0 <= i < j < blocks.len() ==> blocks[i] != blocks[j],
        forall|i: int, j: int| 0 <= i < j < stamps.len() ==> stamps[i] < stamps[j],
        forall|i: int| 0 <= i < blocks.len() ==> !(#[trigger] fetches[i] && writes[i]),
    ensures
        ({
            let a = v.ways() as int;
            let w = run_accesses(v, blocks, stamps, fetches, writes, a);
            evicted_block(w.access_result(blocks[a])) == Some(blocks[0])
        }),
{
    let a = v.ways() as int;
    lemma_fill_in_order(v, blocks, stamps, fetches, writes, a);
    let w = run_accesses(v, blocks, stamps, fetches, writes, a);
    let b = blocks[a];
    lemma_find_block(w.lines, b, a);
    if w.holds(b) {
        let k = w.index_of(b);
        assert(w.lines[k].valid());
        assert(blocks[k] != blocks[a]);
    }
    lemma_find_invalid(w.lines, a);
    if find_invalid(w.lines, a) >= 0 {
        let k = find_invalid(w.lines, a);
        assert(w.lines[k].valid());
    }
    lemma_oldest_index(w.lines, a);
    let o = oldest_index(w.lines, a);
    if o > 0 {
        assert(w.lines[0].ts > w.lines[o].ts);
        assert(stamps[0] < stamps[o]);
    }
    assert(w.fill_index() == 0);
}

/// A block just written cannot then be fetched as an instruction: NX forbids it.
pub proof fn lemma_write_then_fetch_violates_nx(v: SetView, b: usize, ts: usize)
    requires
        v.wf(),
        !v.conflicts(b, false, true),
    ensures
        v.accessed(b, ts, false, true).conflicts(b, true, false),
{
    let n = v.lines.len() as int;
    lemma_accessed_wf(v, b, ts, false, true);
    lemma_find_block(v.lines, b, n);
    let w = v.accessed(b, ts, false, true);
    let k = if v.holds(b) {
        v.index_of(b)
    } else {
        v.fill_index()
    };
    if !v.holds(b) {
        lemma_find_invalid(v.lines, n);
        lemma_oldest_index(v.lines, n);
    }
    assert(w.lines[k].valid() && w.lines[k].block_id == b);
    lemma_index_of_unique(w, b, k);
}

} // verus!
