//! Reconstruction of a core's private levels from the coherence record table.

use vstd::prelude::*;
use crate::checkpoint::{
    CacheBlock, CacheBlockState, PrivateCacheParameters, SerializedCache, TsCacheBlock,
};
use crate::mtr::{
    MemoryTimestampRecord, MemoryTimestampRecordCollection, RecordView, TableView, bucket_view,
    core_pos, core_ts, has_core,
};
use crate::mtr::lemma_top_k_positions;
use crate::topk::{keys_of, select_top_k, top_k};

verus! {

/// The coherence state of core `c`'s copy of a record's block, with the timestamp it is ranked
/// by; `None` when the core holds no copy.
pub open spec fn core_state(r: RecordView, c: u8) -> Option<(CacheBlockState, usize)> {
    if has_core(r.invalid, c) {
        Some((CacheBlockState::Invalid, core_ts(r.invalid, c)))
    } else {
        match r.writer {
            Some((w, wts)) => if w == c {
                Some(
                    (
                        if wts == r.ts {
                            CacheBlockState::ModifiedExclusive
                        } else {
                            CacheBlockState::ModifiedOwned
                        },
                        wts,
                    ),
                )
            } else if has_core(r.readers, c) {
                Some(
                    (
                        if core_ts(r.readers, c) >= wts {
                            CacheBlockState::CleanShared
                        } else {
                            CacheBlockState::Invalid
                        },
                        core_ts(r.readers, c),
                    ),
                )
            } else {
                None
            },
            None => if has_core(r.readers, c) {
                Some(
                    (
                        if r.readers.len() == 1 {
                            CacheBlockState::CleanExclusive
                        } else {
                            CacheBlockState::CleanShared
                        },
                        core_ts(r.readers, c),
                    ),
                )
            } else {
                None
            },
        }
    }
}

/// The line core `c` holds for block `b`, if any.
pub open spec fn rendered_line(b: usize, r: RecordView, c: u8) -> Option<TsCacheBlock> {
    match core_state(r, c) {
        Some((state, ts)) => Some(
            TsCacheBlock {
                d: CacheBlock {
                    block_id: b,
                    state,
                    in_instruction_cache: r.perm.spec_in_instruction_cache(),
                    in_data_cache: r.perm.spec_in_data_cache(),
                },
                ts,
            },
        ),
        None => None,
    }
}

/// The lines core `c` holds among a bucket's records, in bucket order.
pub open spec fn bucket_candidates(bucket: Seq<(usize, RecordView)>, c: u8) -> Seq<TsCacheBlock>
    decreases bucket.len(),
{
    if bucket.len() == 0 {
        Seq::empty()
    } else {
        let rest = bucket_candidates(bucket.drop_last(), c);
        match rendered_line(bucket.last().0, bucket.last().1, c) {
            Some(x) => rest.push(x),
            None => rest,
        }
    }
}

/// The lines of core `c` in the first `m` buckets that group into L2 set `g` of `n2` sets.
pub open spec fn l2_candidates(t: TableView, c: u8, n2: nat, g: int, m: int) -> Seq<TsCacheBlock>
    decreases m,
{
    if m <= 0 {
        Seq::empty()
    } else {
        l2_candidates(t, c, n2, g, m - 1) + bucket_candidates(t[(m - 1) * n2 + g], c)
    }
}

/// The `k` most recent of a list of lines, most recent first; ties keep list order.
pub open spec fn select(cands: Seq<TsCacheBlock>, k: nat) -> Seq<TsCacheBlock> {
    top_k(keys_of(cands.map_values(|x: TsCacheBlock| x.ts)), k).map_values(
        |p: (usize, usize)| cands[p.1 as int],
    )
}

/// Core `c`'s L2: `n2` sets of at most `a2` lines.
pub open spec fn render_l2(t: TableView, c: u8, n2: nat, a2: nat) -> Seq<Seq<TsCacheBlock>> {
    Seq::new(n2, |g: int| select(l2_candidates(t, c, n2, g, (t.len() / n2) as int), a2))
}

pub open spec fn resident(x: TsCacheBlock, instruction: bool) -> bool {
    if instruction {
        x.d.in_instruction_cache
    } else {
        x.d.in_data_cache
    }
}

/// The lines of a list resident in the instruction (or data) cache, in list order.
pub open spec fn resident_lines(s: Seq<TsCacheBlock>, instruction: bool) -> Seq<TsCacheBlock>
    decreases s.len(),
{
    if s.len() == 0 {
        Seq::empty()
    } else if resident(s.last(), instruction) {
        resident_lines(s.drop_last(), instruction).push(s.last())
    } else {
        resident_lines(s.drop_last(), instruction)
    }
}

/// The resident lines of the first `m` L2 sets that group into L1 set `s` of `n1` sets.
pub open spec fn l1_candidates(
    l2: Seq<Seq<TsCacheBlock>>,
    n1: nat,
    s: int,
    instruction: bool,
    m: int,
) -> Seq<TsCacheBlock>
    decreases m,
{
    if m <= 0 {
        Seq::empty()
    } else {
        l1_candidates(l2, n1, s, instruction, m - 1) + resident_lines(
            l2[(m - 1) * n1 + s],
            instruction,
        )
    }
}

/// An L1 of `n1` sets of at most `a1` lines, drawn from the lines of an L2.
pub open spec fn render_l1(l2: Seq<Seq<TsCacheBlock>>, n1: nat, a1: nat, instruction: bool) -> Seq<
    Seq<TsCacheBlock>,
> {
    Seq::new(n1, |s: int| select(l1_candidates(l2, n1, s, instruction, (l2.len() / n1) as int), a1))
}

/// The plain lines of a rendered level.
pub open spec fn exported(c: Seq<Seq<TsCacheBlock>>) -> Seq<Seq<CacheBlock>> {
    c.map_values(|s: Seq<TsCacheBlock>| s.map_values(|x: TsCacheBlock| x.d))
}

pub open spec fn cache_view(c: SerializedCache) -> Seq<Seq<CacheBlock>> {
    c@.map_values(|v: Vec<CacheBlock>| v@)
}

pub open spec fn levels_view(c: Vec<Vec<TsCacheBlock>>) -> Seq<Seq<TsCacheBlock>> {
    c@.map_values(|v: Vec<TsCacheBlock>| v@)
}

proof fn lemma_group_index(gi: int, n: int, g: int, total: int)
    requires
        0 <= gi < total / n,
        0 <= g < n,
        n > 0,
        total >= 0,
    ensures
        0 <= gi * n + g < total,
{
    vstd::arithmetic::div_mod::lemma_fundamental_div_mod(total, n);
    assert(total % n >= 0);
    assert(n * (total / n) == (total / n) * n) by (nonlinear_arith);
    assert(gi * n + g < total) by (nonlinear_arith)
        requires
            0 <= gi < total / n,
            0 <= g < n,
            n > 0,
            total >= 0,
            (total / n) * n <= total,
    {
        assert((gi + 1) * n <= (total / n) * n);
    }
    assert(0 <= gi * n) by (nonlinear_arith)
        requires
            0 <= gi,
            n > 0,
    ;
}

proof fn lemma_resident_within(s: Seq<TsCacheBlock>, instruction: bool, x: TsCacheBlock)
    requires
        resident_lines(s, instruction).contains(x),
    ensures
        s.contains(x),
    decreases s.len(),
{
    if s.len() > 0 {
        let t = resident_lines(s.drop_last(), instruction);
        if resident(s.last(), instruction) && x == s.last() {
            assert(s[s.len() - 1] == x);
        } else {
            if resident(s.last(), instruction) {
                let j = choose|j: int| 0 <= j < t.push(s.last()).len() && t.push(s.last())[j] == x;
                assert(t[j] == x);
            }
            lemma_resident_within(s.drop_last(), instruction, x);
            let k = choose|k: int| 0 <= k < s.drop_last().len() && s.drop_last()[k] == x;
            assert(s[k] == x);
        }
    }
}

proof fn lemma_l1_candidates_within(
    l2: Seq<Seq<TsCacheBlock>>,
    n1: nat,
    s: int,
    instruction: bool,
    m: int,
    x: TsCacheBlock,
)
    requires
        n1 > 0,
        0 <= s < n1,
        0 <= m <= (l2.len() / n1) as int,
        l1_candidates(l2, n1, s, instruction, m).contains(x),
    ensures
        exists|g: int| 0 <= g < l2.len() && #[trigger] l2[g].contains(x),
    decreases m,
{
    if m > 0 {
        let a = l1_candidates(l2, n1, s, instruction, m - 1);
        let idx = (m - 1) * (n1 as int) + s;
        let b = resident_lines(l2[idx], instruction);
        lemma_group_index(m - 1, n1 as int, s, l2.len() as int);
        let j = choose|j: int| 0 <= j < (a + b).len() && (a + b)[j] == x;
        if j < a.len() {
            assert(a[j] == x);
            lemma_l1_candidates_within(l2, n1, s, instruction, m - 1, x);
        } else {
            assert(b[j - a.len()] == x);
            lemma_resident_within(l2[idx], instruction, x);
        }
    }
}

/// The lines `select` keeps come from its candidates.
proof fn lemma_select_within(cands: Seq<TsCacheBlock>, k: nat, x: TsCacheBlock)
    requires
        cands.len() <= usize::MAX,
        select(cands, k).contains(x),
    ensures
        cands.contains(x),
{
    let stamps = cands.map_values(|y: TsCacheBlock| y.ts);
    lemma_top_k_positions(stamps, k);
    let top = top_k(keys_of(stamps), k);
    let j = choose|j: int| 0 <= j < select(cands, k).len() && select(cands, k)[j] == x;
    assert(select(cands, k)[j] == cands[top[j].1 as int]);
}

proof fn lemma_exported_within(l1: Seq<Seq<TsCacheBlock>>, l2: Seq<Seq<TsCacheBlock>>)
    requires
        forall|s: int, x: TsCacheBlock|
            0 <= s < l1.len() && #[trigger] l1[s].contains(x) ==> exists|g: int|
                0 <= g < l2.len() && #[trigger] l2[g].contains(x),
    ensures
        forall|s: int, b: CacheBlock|
            0 <= s < exported(l1).len() && #[trigger] exported(l1)[s].contains(b) ==> exists|g: int|
                0 <= g < exported(l2).len() && #[trigger] exported(l2)[g].contains(b),
{
    assert forall|s: int, b: CacheBlock|
        0 <= s < exported(l1).len() && #[trigger] exported(l1)[s].contains(b) implies exists|g: int|
        0 <= g < exported(l2).len() && #[trigger] exported(l2)[g].contains(b) by {
        let e = exported(l1)[s];
        assert(e == l1[s].map_values(|x: TsCacheBlock| x.d));
        let j = choose|j: int| 0 <= j < e.len() && e[j] == b;
        let x = l1[s][j];
        assert(l1[s].contains(x));
        let g = choose|g: int| 0 <= g < l2.len() && #[trigger] l2[g].contains(x);
        let k = choose|k: int| 0 <= k < l2[g].len() && l2[g][k] == x;
        let f = exported(l2)[g];
        assert(f == l2[g].map_values(|y: TsCacheBlock| y.d));
        assert(f[k] == b);
        assert(exported(l2)[g].contains(b));
    }
}

fn render_state(r: &MemoryTimestampRecord, c: u8) -> (s: Option<(CacheBlockState, usize)>)
    ensures
        s == core_state(r@, c),
{
    match find_pair(&r.invalid, c) {
        Some(ts) => {
            return Some((CacheBlockState::Invalid, ts));
        },
        None => {},
    }
    let reader = find_pair(&r.readers, c);
    match r.writer {
        Some((w, wts)) => {
            if w == c {
                let state = if wts == r.ts {
                    CacheBlockState::ModifiedExclusive
                } else {
                    CacheBlockState::ModifiedOwned
                };
                Some((state, wts))
            } else {
                match reader {
                    Some(rts) => {
                        let state = if rts >= wts {
                            CacheBlockState::CleanShared
                        } else {
                            CacheBlockState::Invalid
                        };
                        Some((state, rts))
                    },
                    None => None,
                }
            }
        },
        None => match reader {
            Some(rts) => {
                let state = if r.readers.len() == 1 {
                    CacheBlockState::CleanExclusive
                } else {
                    CacheBlockState::CleanShared
                };
                Some((state, rts))
            },
            None => None,
        },
    }
}

fn find_pair(s: &Vec<(u8, usize)>, c: u8) -> (r: Option<usize>)
    ensures
        r is None <==> !has_core(s@, c),
        r matches Some(ts) ==> ts == core_ts(s@, c),
{
    let ghost n = s@.len();
    let mut i: usize = 0;
    while i < s.len()
        invariant
            i <= s@.len(),
            crate::mtr::core_pos_upto(s@, c, i as int) == -1,
        decreases s@.len() - i,
    {
        if s[i].0 == c {
            proof {
                crate::mtr::lemma_core_pos_prefix(s@, c, i as int + 1, s@.len() as int);
            }
            return Some(s[i].1);
        }
        i = i + 1;
    }
    None
}

fn push_bucket_candidates(out: &mut Vec<TsCacheBlock>, bucket: &Vec<(usize, MemoryTimestampRecord)>, c: u8)
    ensures
        final(out)@ == old(out)@ + bucket_candidates(bucket_view(bucket@), c),
{
    let ghost bv = bucket_view(bucket@);
    let ghost start = out@;
    let mut j: usize = 0;
    proof {
        assert(bv.take(0) =~= Seq::<(usize, RecordView)>::empty());
        assert(out@ =~= start + bucket_candidates(bv.take(0), c));
    }
    while j < bucket.len()
        invariant
            j <= bucket@.len(),
            bv == bucket_view(bucket@),
            start == old(out)@,
            out@ == start + bucket_candidates(bv.take(j as int), c),
        decreases bucket@.len() - j,
    {
        proof {
            assert(bv.take(j as int + 1).drop_last() =~= bv.take(j as int));
        }
        let rec = &bucket[j].1;
        match render_state(rec, c) {
            Some((state, ts)) => {
                let d = CacheBlock {
                    block_id: bucket[j].0,
                    state,
                    in_instruction_cache: rec.perm.in_instruction_cache(),
                    in_data_cache: rec.perm.in_data_cache(),
                };
                out.push(TsCacheBlock { d, ts });
                proof {
                    assert(out@ =~= start + bucket_candidates(bv.take(j as int + 1), c));
                }
            },
            None => {},
        }
        j = j + 1;
    }
    proof {
        assert(bv.take(bv.len() as int) =~= bv);
    }
}

fn push_resident(out: &mut Vec<TsCacheBlock>, lines: &Vec<TsCacheBlock>, instruction: bool)
    ensures
        final(out)@ == old(out)@ + resident_lines(lines@, instruction),
{
    let ghost start = out@;
    let mut j: usize = 0;
    proof {
        assert(out@ =~= start + resident_lines(lines@.take(0), instruction));
    }
    while j < lines.len()
        invariant
            j <= lines@.len(),
            start == old(out)@,
            out@ == start + resident_lines(lines@.take(j as int), instruction),
        decreases lines@.len() - j,
    {
        proof {
            assert(lines@.take(j as int + 1).drop_last() =~= lines@.take(j as int));
        }
        let x = lines[j];
        let keep = if instruction {
            x.d.in_instruction_cache
        } else {
            x.d.in_data_cache
        };
        if keep {
            out.push(x);
            proof {
                assert(out@ =~= start + resident_lines(lines@.take(j as int + 1), instruction));
            }
        }
        j = j + 1;
    }
    proof {
        assert(lines@.take(lines@.len() as int) =~= lines@);
    }
}

/// The `k` most recent of a list of lines, most recent first.
pub fn select_blocks(cands: &Vec<TsCacheBlock>, k: usize) -> (r: Vec<TsCacheBlock>)
    ensures
        r@ == select(cands@, k as nat),
{
    let ghost stamps = cands@.map_values(|x: TsCacheBlock| x.ts);
    let mut keys: Vec<(usize, usize)> = Vec::new();
    let mut i: usize = 0;
    while i < cands.len()
        invariant
            i <= cands@.len(),
            stamps == cands@.map_values(|x: TsCacheBlock| x.ts),
            keys@ == keys_of(stamps).take(i as int),
        decreases cands@.len() - i,
    {
        keys.push((cands[i].ts, i));
        proof {
            assert(keys@ =~= keys_of(stamps).take(i as int + 1));
        }
        i = i + 1;
    }
    proof {
        assert(keys@ =~= keys_of(stamps));
        lemma_top_k_positions(stamps, k as nat);
    }
    let top = select_top_k(&keys, k);
    let ghost want = select(cands@, k as nat);
    let mut out: Vec<TsCacheBlock> = Vec::new();
    let mut j: usize = 0;
    while j < top.len()
        invariant
            j <= top@.len(),
            stamps == cands@.map_values(|x: TsCacheBlock| x.ts),
            top@ == top_k(keys_of(stamps), k as nat),
            forall|t: int| 0 <= t < top@.len() ==> (#[trigger] top@[t]).1 < stamps.len(),
            want == select(cands@, k as nat),
            out@ == want.take(j as int),
        decreases top@.len() - j,
    {
        out.push(cands[top[j].1]);
        proof {
            assert(out@ =~= want.take(j as int + 1));
        }
        j = j + 1;
    }
    proof {
        assert(want.take(want.len() as int) =~= want);
    }
    out
}

pub open spec fn levels_view_of_vecs(s: Seq<Vec<TsCacheBlock>>) -> Seq<Seq<TsCacheBlock>> {
    s.map_values(|v: Vec<TsCacheBlock>| v@)
}

proof fn lemma_levels_push(s: Seq<Vec<TsCacheBlock>>, x: Vec<TsCacheBlock>)
    ensures
        s.push(x).map_values(|v: Vec<TsCacheBlock>| v@) == s.map_values(|v: Vec<TsCacheBlock>| v@).push(
            x@,
        ),
{
    assert(s.push(x).map_values(|v: Vec<TsCacheBlock>| v@) =~= s.map_values(
        |v: Vec<TsCacheBlock>| v@,
    ).push(x@));
}

proof fn lemma_cache_push(s: Seq<Vec<CacheBlock>>, x: Vec<CacheBlock>)
    ensures
        s.push(x).map_values(|v: Vec<CacheBlock>| v@) == s.map_values(|v: Vec<CacheBlock>| v@).push(
            x@,
        ),
{
    assert(s.push(x).map_values(|v: Vec<CacheBlock>| v@) =~= s.map_values(|v: Vec<CacheBlock>| v@).push(
        x@,
    ));
}

pub fn export_level(c: &Vec<Vec<TsCacheBlock>>) -> (r: SerializedCache)
    ensures
        cache_view(r) == exported(levels_view(*c)),
{
    let mut out: Vec<Vec<CacheBlock>> = Vec::new();
    let mut i: usize = 0;
    while i < c.len()
        invariant
            i <= c@.len(),
            cache_view(out) == exported(levels_view(*c)).take(i as int),
        decreases c@.len() - i,
    {
        let set = &c[i];
        let mut lines: Vec<CacheBlock> = Vec::new();
        let mut j: usize = 0;
        while j < set.len()
            invariant
                j <= set@.len(),
                lines@ == set@.map_values(|x: TsCacheBlock| x.d).take(j as int),
            decreases set@.len() - j,
        {
            lines.push(set[j].d);
            proof {
                assert(lines@ =~= set@.map_values(|x: TsCacheBlock| x.d).take(j as int + 1));
            }
            j = j + 1;
        }
        proof {
            assert(lines@ =~= set@.map_values(|x: TsCacheBlock| x.d));
        }
        let ghost before = out@;
        out.push(lines);
        proof {
            lemma_cache_push(before, lines);
            assert(set@ == levels_view(*c)[i as int]);
            assert(exported(levels_view(*c)).take(i as int + 1) =~= exported(levels_view(*c)).take(
                i as int,
            ).push(exported(levels_view(*c))[i as int]));
        }
        i = i + 1;
    }
    proof {
        assert(cache_view(out) =~= exported(levels_view(*c)));
    }
    out
}

impl MemoryTimestampRecordCollection {
    /// Core `core_id`'s L2: `l2_sets` sets of its `l2_associativity` most recent lines.
    pub fn render_l2_sets(&self, core_id: u8, l2_sets: usize, l2_associativity: usize) -> (r: Vec<
        Vec<TsCacheBlock>,
    >)
        requires
            self.wf(),
            l2_sets > 0,
            self@.len() % (l2_sets as nat) == 0,
        ensures
            levels_view(r) == render_l2(self@, core_id, l2_sets as nat, l2_associativity as nat),
    {
        let ghost t = self@;
        let ghost want = render_l2(t, core_id, l2_sets as nat, l2_associativity as nat);
        let buckets = self.bucket_count();
        let groups = buckets / l2_sets;
        let mut sets: Vec<Vec<TsCacheBlock>> = Vec::new();
        let mut g: usize = 0;
        while g < l2_sets
            invariant
                g <= l2_sets,
                t == self@,
                self.wf(),
                buckets == t.len(),
                groups == t.len() / (l2_sets as nat),
                want == render_l2(t, core_id, l2_sets as nat, l2_associativity as nat),
                levels_view(sets) == want.take(g as int),
            decreases l2_sets - g,
        {
            let mut cands: Vec<TsCacheBlock> = Vec::new();
            let mut gi: usize = 0;
            while gi < groups
                invariant
                    gi <= groups,
                    g < l2_sets,
                    t == self@,
                    buckets == t.len(),
                    groups == t.len() / (l2_sets as nat),
                    cands@ == l2_candidates(t, core_id, l2_sets as nat, g as int, gi as int),
                decreases groups - gi,
            {
                proof {
                    lemma_group_index(gi as int, l2_sets as int, g as int, t.len() as int);
                }
                let idx = gi * l2_sets + g;
                push_bucket_candidates(&mut cands, self.bucket(idx), core_id);
                gi = gi + 1;
            }
            let chosen = select_blocks(&cands, l2_associativity);
            let ghost before = sets@;
            sets.push(chosen);
            proof {
                lemma_levels_push(before, chosen);
                assert(want[g as int] == select(cands@, l2_associativity as nat));
                assert(want.take(g as int + 1) =~= want.take(g as int).push(want[g as int]));
            }
            g = g + 1;
        }
        proof {
            assert(levels_view(sets) =~= want);
        }
        sets
    }
}

/// An L1 of `l1_sets` sets drawn from the lines of an L2.
pub fn render_l1_sets(l2: &Vec<Vec<TsCacheBlock>>, l1_sets: usize, l1_associativity: usize, instruction: bool) -> (r:
    Vec<Vec<TsCacheBlock>>)
    requires
        l1_sets > 0,
        l2@.len() % (l1_sets as nat) == 0,
    ensures
        levels_view(r) == render_l1(levels_view(*l2), l1_sets as nat, l1_associativity as nat, instruction),
        forall|s: int, x: TsCacheBlock|
            0 <= s < levels_view(r).len() && #[trigger] levels_view(r)[s].contains(x) ==> exists|
                g: int,
            | 0 <= g < levels_view(*l2).len() && #[trigger] levels_view(*l2)[g].contains(x),
{
    let ghost lv = levels_view(*l2);
    let ghost want = render_l1(lv, l1_sets as nat, l1_associativity as nat, instruction);
    let n2 = l2.len();
    let groups = n2 / l1_sets;
    let mut sets: Vec<Vec<TsCacheBlock>> = Vec::new();
    let mut s: usize = 0;
    while s < l1_sets
        invariant
            s <= l1_sets,
            lv == levels_view(*l2),
            n2 == lv.len(),
            groups == lv.len() / (l1_sets as nat),
            want == render_l1(lv, l1_sets as nat, l1_associativity as nat, instruction),
            levels_view(sets) == want.take(s as int),
            forall|t: int, x: TsCacheBlock|
                0 <= t < levels_view(sets).len() && #[trigger] levels_view(sets)[t].contains(x)
                    ==> exists|g: int| 0 <= g < lv.len() && #[trigger] lv[g].contains(x),
        decreases l1_sets - s,
    {
        let mut cands: Vec<TsCacheBlock> = Vec::new();
        let mut a: usize = 0;
        while a < groups
            invariant
                a <= groups,
                s < l1_sets,
                lv == levels_view(*l2),
                n2 == lv.len(),
                groups == lv.len() / (l1_sets as nat),
                cands@ == l1_candidates(lv, l1_sets as nat, s as int, instruction, a as int),
            decreases groups - a,
        {
            proof {
                lemma_group_index(a as int, l1_sets as int, s as int, lv.len() as int);
            }
            let idx = a * l1_sets + s;
            push_resident(&mut cands, &l2[idx], instruction);
            a = a + 1;
        }
        let chosen = select_blocks(&cands, l1_associativity);
        let ghost before = sets@;
        sets.push(chosen);
        proof {
            lemma_levels_push(before, chosen);
            assert(want[s as int] == select(cands@, l1_associativity as nat));
            assert(want.take(s as int + 1) =~= want.take(s as int).push(want[s as int]));
            assert forall|t: int, x: TsCacheBlock|
                0 <= t < levels_view(sets).len() && #[trigger] levels_view(sets)[t].contains(x)
                    implies exists|g: int| 0 <= g < lv.len() && #[trigger] lv[g].contains(x) by {
                if t == s as int {
                    assert(levels_view(sets)[t] == chosen@);
                    lemma_select_within(cands@, l1_associativity as nat, x);
                    lemma_l1_candidates_within(lv, l1_sets as nat, s as int, instruction, groups as int, x);
                } else {
                    assert(levels_view(sets)[t] == levels_view_of_vecs(before)[t]);
                }
            }
        }
        s = s + 1;
    }
    proof {
        assert(levels_view(sets) =~= want);
    }
    sets
}

impl MemoryTimestampRecordCollection {
    /// Core `core_id`'s private levels: [L1i, L1d, L2]. The L1s are drawn from the lines kept in
    /// the L2, so every L1 line is also an L2 line.
    pub fn render_private_caches(&self, core_id: u8, param: &PrivateCacheParameters) -> (r: [SerializedCache; 3])
        requires
            self.wf(),
            param.valid_for(self@.len()),
        ensures
            ({
                let l2 = render_l2(self@, core_id, param.l2_sets as nat, param.l2_associativity as nat);
                &&& cache_view(r[0]) == exported(render_l1(l2, param.l1i_sets as nat, param.l1i_associativity as nat, true))
                &&& cache_view(r[1]) == exported(render_l1(l2, param.l1d_sets as nat, param.l1d_associativity as nat, false))
                &&& cache_view(r[2]) == exported(l2)
            }),
            forall|s: int, b: CacheBlock|
                0 <= s < cache_view(r[0]).len() && #[trigger] cache_view(r[0])[s].contains(b)
                    ==> exists|g: int|
                    0 <= g < cache_view(r[2]).len() && #[trigger] cache_view(r[2])[g].contains(b),
            forall|s: int, b: CacheBlock|
                0 <= s < cache_view(r[1]).len() && #[trigger] cache_view(r[1])[s].contains(b)
                    ==> exists|g: int|
                    0 <= g < cache_view(r[2]).len() && #[trigger] cache_view(r[2])[g].contains(b),
    {
        proof {
            crate::config::lemma_pow2_positive(param.l2_sets as nat);
            crate::config::lemma_pow2_positive(param.l1i_sets as nat);
            crate::config::lemma_pow2_positive(param.l1d_sets as nat);
        }
        let l2 = self.render_l2_sets(core_id, param.l2_sets, param.l2_associativity);
        proof {
            assert(levels_view(l2).len() == l2@.len());
        }
        let l1i = render_l1_sets(&l2, param.l1i_sets, param.l1i_associativity, true);
        let l1d = render_l1_sets(&l2, param.l1d_sets, param.l1d_associativity, false);
        proof {
            lemma_exported_within(levels_view(l1i), levels_view(l2));
            lemma_exported_within(levels_view(l1d), levels_view(l2));
        }
        [export_level(&l1i), export_level(&l1d), export_level(&l2)]
    }
}

} // verus!
