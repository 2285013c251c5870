//! Splitting a guest code block's instruction sequence into fetch blocks.

use vstd::prelude::*;
use std::collections::HashMap;

verus! {

broadcast use vstd::std_specs::hash::group_hash_axioms;

/// Index of the first instruction of the run of equal block ids that holds instruction `n - 1`
/// (0 when `n` is 0).
pub open spec fn run_start(s: Seq<usize>, n: int) -> int
    decreases n,
{
    if n <= 1 {
        0
    } else if s[n - 1] != s[n - 2] {
        n - 1
    } else {
        run_start(s, n - 1)
    }
}

/// The runs of equal block ids that end before instruction `n`: first index to length.
pub open spec fn closed_runs(s: Seq<usize>, n: int) -> Map<usize, usize>
    decreases n,
{
    if n <= 1 {
        Map::empty()
    } else if s[n - 1] != s[n - 2] {
        closed_runs(s, n - 1).insert(run_start(s, n - 1) as usize, (n - 1 - run_start(s, n - 1)) as usize)
    } else {
        closed_runs(s, n - 1)
    }
}

/// Every maximal run of equal consecutive block ids, as its first index mapped to its length.
pub open spec fn fetch_blocks(s: Seq<usize>) -> Map<usize, usize> {
    closed_runs(s, s.len() as int).insert(
        run_start(s, s.len() as int) as usize,
        (s.len() - run_start(s, s.len() as int)) as usize,
    )
}

proof fn lemma_run_start(s: Seq<usize>, n: int)
    requires
        0 <= n <= s.len(),
    ensures
        0 <= run_start(s, n) <= n,
        n >= 1 ==> run_start(s, n) < n,
    decreases n,
{
    if n > 1 {
        lemma_run_start(s, n - 1);
    }
}

/// The fetch blocks of a sequence of block ids: the first index of each run of equal
/// consecutive ids, mapped to the run's length.
pub fn find_fetch_block_from_block_id_sequence(i: Vec<usize>) -> (r: HashMap<usize, usize>)
    ensures
        r@ == fetch_blocks(i@),
{
    let mut res: HashMap<usize, usize> = HashMap::new();
    let mut last: Option<usize> = None;
    let mut first: usize = 0;
    let total = i.len();
    let mut idx: usize = 0;
    while idx < total
        invariant
            idx <= total,
            total == i@.len(),
            first as int == run_start(i@, idx as int),
            first <= idx,
            idx == 0 <==> last is None,
            last matches Some(b) ==> b == i@[idx - 1],
            res@ == closed_runs(i@, idx as int),
        decreases total - idx,
    {
        let block_id = i[idx];
        proof {
            lemma_run_start(i@, idx as int);
        }
        match last {
            Some(b) => {
                if block_id != b {
                    res.insert(first, idx - first);
                    first = idx;
                    last = Some(block_id);
                }
            },
            None => {
                last = Some(block_id);
            },
        }
        idx = idx + 1;
    }
    res.insert(first, total - first);
    res
}

} // verus!
