//! Picking the best-scored entries of a pool.
use vstd::prelude::*;

verus! {

/// At most this many suggestions are returned.
pub const TOP_N: usize = 10;

/// The scores as natural numbers.
pub open spec fn score_values(scores: Seq<usize>) -> Seq<nat> {
    scores.map_values(|s: usize| s as nat)
}

/// `idx` lists positions of `scores`: as many as `TOP_N` allows, no position
/// twice, in order of non-increasing score, and no position left out scores
/// above one that was taken.
pub open spec fn is_top_ranking(scores: Seq<nat>, idx: Seq<usize>) -> bool {
    &&& idx.len() == if scores.len() < TOP_N {
        scores.len()
    } else {
        TOP_N as nat
    }
    &&& forall|i: int| 0 <= i < idx.len() ==> idx[i] < scores.len()
    &&& forall|i: int, j: int| 0 <= i < j < idx.len() ==> idx[i] != idx[j]
    &&& forall|i: int, j: int|
        0 <= i < j < idx.len() ==> scores[idx[i] as int] >= scores[idx[j] as int]
    &&& forall|k: int, i: int|
        #![trigger scores[k], idx[i]]
        0 <= k < scores.len() && !idx.contains(k as usize) && 0 <= i < idx.len()
            ==> scores[k] <= scores[idx[i] as int]
}

/// The positions of the best `TOP_N` scores (all of them when there are fewer),
/// best first. Equal scores come in an unspecified order.
pub fn top_ranked(scores: &Vec<usize>) -> (r: Vec<usize>)
    ensures
        is_top_ranking(score_values(scores@), r@),
{
    let n = scores.len();
    let ghost sv = score_values(scores@);
    let mut order: Vec<usize> = Vec::new();
    let mut i: usize = 0;
    while i < n
        invariant
            n == scores@.len(),
            i <= n,
            order@.len() == i,
            forall|k: int| 0 <= k < i ==> order@[k] == k,
        decreases n - i,
    {
        order.push(i);
        i = i + 1;
    }
    assert forall|k: usize| k < n implies #[trigger] order@.contains(k) by {
        assert(order@[k as int] == k);
    }
    let limit: usize = if n < TOP_N {
        n
    } else {
        TOP_N
    };
    let mut p: usize = 0;
    while p < limit
        invariant
            n == scores@.len(),
            sv == score_values(scores@),
            limit <= n,
            p <= limit,
            order@.len() == n,
            forall|k: int| 0 <= k < order@.len() ==> order@[k] < n,
            forall|k: usize| k < n ==> #[trigger] order@.contains(k),
            forall|a: int, b: int| 0 <= a < b < n ==> order@[a] != order@[b],
            forall|a: int, b: int|
                0 <= a < p && a < b < n ==> sv[order@[a] as int] >= sv[order@[b] as int],
        decreases limit - p,
    {
        let mut best: usize = p;
        let mut j: usize = p + 1;
        while j < n
            invariant
                n == scores@.len(),
                sv == score_values(scores@),
                order@.len() == n,
                forall|k: int| 0 <= k < order@.len() ==> order@[k] < n,
                p <= best < j <= n,
                forall|b: int| p <= b < j ==> sv[order@[b] as int] <= sv[order@[best as int] as int],
            decreases n - j,
        {
            if scores[order[j]] > scores[order[best]] {
                best = j;
            }
            j = j + 1;
        }
        let ghost o0 = order@;
        let x = order[p];
        let y = order[best];
        order.set(p, y);
        order.set(best, x);
        assert(order@ == o0.update(p as int, y).update(best as int, x));
        assert forall|k: usize| k < n implies #[trigger] order@.contains(k) by {
            assert(o0.contains(k));
            let t = choose|t: int| 0 <= t < o0.len() && o0[t] == k;
            if t == p {
                assert(order@[best as int] == k);
            } else if t == best {
                assert(order@[p as int] == k);
            } else {
                assert(order@[t] == k);
            }
        }
        p = p + 1;
    }
    let ghost o = order@;
    let mut r = order;
    r.truncate(limit);
    assert forall|k: int, i: int|
        #![trigger sv[k], r@[i]]
        0 <= k < sv.len() && !r@.contains(k as usize) && 0 <= i < r@.len()
        implies sv[k] <= sv[r@[i] as int] by {
        assert(o.contains(k as usize));
        let t = choose|t: int| 0 <= t < o.len() && o[t] == k as usize;
        if t < limit {
            assert(r@[t] == k as usize);
        }
    }
    r
}

} // verus!
