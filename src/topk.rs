//! Bounded selection of the most recent items: keys are (timestamp, position) pairs, ordered by
//! descending timestamp, ties kept in position order.

use vstd::prelude::*;

verus! {

/// Inserts `x` after every key whose timestamp is at least that of `x`.
pub open spec fn insert_desc(s: Seq<(usize, usize)>, x: (usize, usize)) -> Seq<(usize, usize)>
    decreases s.len(),
{
    if s.len() == 0 {
        seq![x]
    } else if s[0].0 >= x.0 {
        seq![s[0]] + insert_desc(s.drop_first(), x)
    } else {
        seq![x] + s
    }
}

/// The keys in order of descending timestamp; equal timestamps keep their relative order.
pub open spec fn sort_desc(s: Seq<(usize, usize)>) -> Seq<(usize, usize)>
    decreases s.len(),
{
    if s.len() == 0 {
        Seq::empty()
    } else {
        insert_desc(sort_desc(s.drop_last()), s.last())
    }
}

/// At most the first `k` items of `s`.
pub open spec fn trunc<T>(s: Seq<T>, k: nat) -> Seq<T> {
    if k < s.len() {
        s.take(k as int)
    } else {
        s
    }
}

/// The `k` most recent keys, most recent first.
pub open spec fn top_k(s: Seq<(usize, usize)>, k: nat) -> Seq<(usize, usize)> {
    trunc(sort_desc(s), k)
}

/// The key sequence of a list of timestamps: each timestamp with its position.
pub open spec fn keys_of(stamps: Seq<usize>) -> Seq<(usize, usize)> {
    Seq::new(stamps.len(), |i: int| (stamps[i], i as usize))
}

pub open spec fn sorted_desc(s: Seq<(usize, usize)>) -> bool {
    forall|i: int, j: int| 0 <= i < j < s.len() ==> s[i].0 >= s[j].0
}

proof fn lemma_insert_at(s: Seq<(usize, usize)>, x: (usize, usize), p: int)
    requires
        0 <= p <= s.len(),
        forall|j: int| 0 <= j < p ==> s[j].0 >= x.0,
        p == s.len() || s[p].0 < x.0,
    ensures
        insert_desc(s, x) == s.insert(p, x),
    decreases s.len(),
{
    if s.len() == 0 {
        assert(insert_desc(s, x) =~= s.insert(p, x));
    } else if p == 0 {
        assert(insert_desc(s, x) =~= s.insert(p, x));
    } else {
        lemma_insert_at(s.drop_first(), x, p - 1);
        assert(insert_desc(s, x) =~= s.insert(p, x));
    }
}

proof fn lemma_insert_trunc(s: Seq<(usize, usize)>, x: (usize, usize), k: nat)
    ensures
        trunc(insert_desc(s, x), k) == trunc(insert_desc(trunc(s, k), x), k),
    decreases s.len(),
{
    lemma_insert_len(s, x);
    lemma_insert_len(trunc(s, k), x);
    if k >= s.len() {
    } else if k == 0 {
        assert(trunc(insert_desc(s, x), k) =~= trunc(insert_desc(trunc(s, k), x), k));
    } else if s[0].0 >= x.0 {
        let t = trunc(s, k);
        let k1 = (k - 1) as nat;
        lemma_insert_trunc(s.drop_first(), x, k1);
        assert(t.drop_first() =~= trunc(s.drop_first(), k1));
        lemma_insert_len(s.drop_first(), x);
        lemma_insert_len(t.drop_first(), x);
        let a = insert_desc(s.drop_first(), x);
        let b = insert_desc(t.drop_first(), x);
        assert(insert_desc(s, x) == seq![s[0]] + a);
        assert(t[0] == s[0]);
        assert(insert_desc(t, x) == seq![s[0]] + b);
        assert(trunc(a, k1) == trunc(b, k1));
        assert(trunc(insert_desc(s, x), k) =~= seq![s[0]] + trunc(a, k1));
        assert(trunc(insert_desc(t, x), k) =~= seq![s[0]] + trunc(b, k1));
    } else {
        assert(trunc(insert_desc(s, x), k) =~= trunc(insert_desc(trunc(s, k), x), k));
    }
}

pub proof fn lemma_insert_len(s: Seq<(usize, usize)>, x: (usize, usize))
    ensures
        insert_desc(s, x).len() == s.len() + 1,
    decreases s.len(),
{
    if s.len() > 0 {
        lemma_insert_len(s.drop_first(), x);
    }
}

proof fn lemma_insert_contents(s: Seq<(usize, usize)>, x: (usize, usize))
    ensures
        insert_desc(s, x).contains(x),
        forall|y: (usize, usize)| s.contains(y) ==> insert_desc(s, x).contains(y),
        forall|y: (usize, usize)| #[trigger]
            insert_desc(s, x).contains(y) ==> y == x || s.contains(y),
        sorted_desc(s) ==> sorted_desc(insert_desc(s, x)),
        s.no_duplicates() && !s.contains(x) ==> insert_desc(s, x).no_duplicates(),
    decreases s.len(),
{
    if s.len() > 0 && s[0].0 >= x.0 {
        let t = s.drop_first();
        lemma_insert_contents(t, x);
        lemma_insert_len(t, x);
        let r = insert_desc(s, x);
        assert(r == seq![s[0]] + insert_desc(t, x));
        assert(r[0] == s[0]);
        assert forall|i: int| 0 < i < r.len() implies r[i] == insert_desc(t, x)[i - 1] by {}
        assert(r.contains(x)) by {
            let j = choose|j: int| 0 <= j < insert_desc(t, x).len() && insert_desc(t, x)[j] == x;
            assert(r[j + 1] == x);
        }
        assert forall|y: (usize, usize)| s.contains(y) implies r.contains(y) by {
            let j = choose|j: int| 0 <= j < s.len() && s[j] == y;
            if j == 0 {
                assert(r[0] == y);
            } else {
                assert(t[j - 1] == y);
                assert(t.contains(y));
                let m = choose|m: int| 0 <= m < insert_desc(t, x).len() && insert_desc(t, x)[m] == y;
                assert(r[m + 1] == y);
            }
        }
        assert forall|y: (usize, usize)| #[trigger] r.contains(y) implies y == x || s.contains(y) by {
            let j = choose|j: int| 0 <= j < r.len() && r[j] == y;
            if j == 0 {
                assert(s[0] == y);
            } else {
                assert(insert_desc(t, x).contains(y));
                if y != x {
                    assert(t.contains(y));
                    let m = choose|m: int| 0 <= m < t.len() && t[m] == y;
                    assert(s[m + 1] == y);
                }
            }
        }
        if sorted_desc(s) {
            assert(sorted_desc(t));
            assert forall|i: int, j: int| 0 <= i < j < r.len() implies r[i].0 >= r[j].0 by {
                if i == 0 {
                    let y = r[j];
                    assert(insert_desc(t, x).contains(y));
                    if y != x {
                        let m = choose|m: int| 0 <= m < t.len() && t[m] == y;
                        assert(s[m + 1] == y);
                    }
                }
            }
        }
        if s.no_duplicates() && !s.contains(x) {
            assert(!t.contains(x)) by {
                if t.contains(x) {
                    let m = choose|m: int| 0 <= m < t.len() && t[m] == x;
                    assert(s[m + 1] == x);
                }
            }
            assert(t.no_duplicates());
            assert forall|i: int, j: int| 0 <= i < r.len() && 0 <= j < r.len() && i != j implies r[i]
                != r[j] by {
                if i == 0 || j == 0 {
                    let o = if i == 0 { j } else { i };
                    let y = r[o];
                    assert(insert_desc(t, x).contains(y));
                    if y != x {
                        let m = choose|m: int| 0 <= m < t.len() && t[m] == y;
                        assert(s[m + 1] == y);
                    } else {
                        assert(s.contains(s[0]));
                    }
                }
            }
        }
    } else if s.len() > 0 {
        let r = insert_desc(s, x);
        assert(r[0] == x);
        assert forall|y: (usize, usize)| s.contains(y) implies r.contains(y) by {
            let j = choose|j: int| 0 <= j < s.len() && s[j] == y;
            assert(r[j + 1] == y);
        }
        assert forall|y: (usize, usize)| #[trigger] r.contains(y) implies y == x || s.contains(y) by {
            let j = choose|j: int| 0 <= j < r.len() && r[j] == y;
            if j > 0 {
                assert(s[j - 1] == y);
            }
        }
    } else {
        assert(insert_desc(s, x)[0] == x);
    }
}

/// What the sorted keys are: a descending, duplicate-free rearrangement of the keys.
pub proof fn lemma_sort_desc(s: Seq<(usize, usize)>)
    ensures
        sort_desc(s).len() == s.len(),
        sorted_desc(sort_desc(s)),
        forall|y: (usize, usize)| s.contains(y) ==> sort_desc(s).contains(y),
        forall|y: (usize, usize)| #[trigger] sort_desc(s).contains(y) ==> s.contains(y),
        s.no_duplicates() ==> sort_desc(s).no_duplicates(),
    decreases s.len(),
{
    if s.len() > 0 {
        let t = s.drop_last();
        lemma_sort_desc(t);
        lemma_insert_len(sort_desc(t), s.last());
        lemma_insert_contents(sort_desc(t), s.last());
        assert forall|y: (usize, usize)| s.contains(y) implies sort_desc(s).contains(y) by {
            let j = choose|j: int| 0 <= j < s.len() && s[j] == y;
            if j < s.len() - 1 {
                assert(t[j] == y);
                assert(t.contains(y));
                assert(sort_desc(t).contains(y));
            } else {
                assert(y == s.last());
            }
        }
        assert forall|y: (usize, usize)| #[trigger] sort_desc(s).contains(y) implies s.contains(y) by {
            if y != s.last() {
                assert(t.contains(y));
                let j = choose|j: int| 0 <= j < t.len() && t[j] == y;
                assert(s[j] == y);
            }
        }
        if s.no_duplicates() {
            assert(t.no_duplicates());
            assert(!sort_desc(t).contains(s.last())) by {
                if sort_desc(t).contains(s.last()) {
                    let j = choose|j: int| 0 <= j < t.len() && t[j] == s.last();
                    assert(s[j] == s[s.len() - 1]);
                }
            }
        }
    }
}

/// Inserts `x` into keys sorted by descending timestamp and keeps at most `k` of them.
pub fn insert_bounded(v: &mut Vec<(usize, usize)>, x: (usize, usize), k: usize)
    ensures
        final(v)@ == trunc(insert_desc(old(v)@, x), k as nat),
{
    let n = v.len();
    let mut p: usize = 0;
    while p < n && v[p].0 >= x.0
        invariant
            p <= n,
            n == v@.len(),
            forall|j: int| 0 <= j < p ==> v@[j].0 >= x.0,
        decreases n - p,
    {
        p = p + 1;
    }
    proof {
        lemma_insert_at(v@, x, p as int);
    }
    v.insert(p, x);
    v.truncate(k);
}

/// The `k` most recent keys, most recent first.
pub fn select_top_k(keys: &Vec<(usize, usize)>, k: usize) -> (r: Vec<(usize, usize)>)
    ensures
        r@ == top_k(keys@, k as nat),
{
    let mut out: Vec<(usize, usize)> = Vec::new();
    let mut i: usize = 0;
    while i < keys.len()
        invariant
            i <= keys@.len(),
            out@ == trunc(sort_desc(keys@.take(i as int)), k as nat),
        decreases keys@.len() - i,
    {
        proof {
            let s = keys@.take(i as int + 1);
            assert(s.drop_last() =~= keys@.take(i as int));
            lemma_insert_trunc(sort_desc(keys@.take(i as int)), keys@[i as int], k as nat);
        }
        insert_bounded(&mut out, keys[i], k);
        i = i + 1;
    }
    proof {
        assert(keys@.take(keys@.len() as int) =~= keys@);
    }
    out
}

} // verus!
