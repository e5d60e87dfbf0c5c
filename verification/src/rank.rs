//! Ranking: the positions of a list of keys, best key first.

use vstd::prelude::*;

verus! {

/// What entries are ranked by: the greater `first` ranks higher; among
/// equals the greater `second`; among equals again the greater `third`.
#[derive(Clone, Copy, Debug)]
pub struct RankKey {
    pub first: u128,
    pub second: u128,
    pub third: u128,
}

/// Key `a` ranks above key `b`.
pub open spec fn key_above(a: RankKey, b: RankKey) -> bool {
    ||| a.first > b.first
    ||| (a.first == b.first && a.second > b.second)
    ||| (a.first == b.first && a.second == b.second && a.third > b.third)
}

/// Position `a` comes before position `b`: its key ranks above, or the
/// two keys rank alike and `a` is the earlier position.
pub open spec fn precedes(keys: Seq<RankKey>, a: int, b: int) -> bool {
    key_above(keys[a], keys[b]) || (!key_above(keys[b], keys[a]) && a < b)
}

/// Position `m` occurs in `order`.
pub open spec fn occurs(order: Seq<usize>, m: int) -> bool {
    exists|i: int| 0 <= i < order.len() && #[trigger] order[i] == m
}

/// `order` is the ranking of the best `top_n` positions of `keys`: as many
/// positions as asked for, or all there are; each before the next; and
/// each before every position that is left out.
pub open spec fn is_ranking(keys: Seq<RankKey>, top_n: int, order: Seq<usize>) -> bool {
    &&& order.len() == if top_n < keys.len() {
        top_n
    } else {
        keys.len() as int
    }
    &&& forall|i: int| 0 <= i < order.len() ==> #[trigger] order[i] < keys.len()
    &&& forall|i: int, j: int|
        0 <= i < j < order.len() ==> precedes(keys, #[trigger] order[i] as int, #[trigger] order[j] as int)
    &&& forall|i: int, m: int|
        0 <= i < order.len() && 0 <= m < keys.len() && !occurs(order, m)
            ==> #[trigger] precedes(keys, order[i] as int, m)
}

/// Whether key `a` ranks above key `b`.
pub fn above(a: &RankKey, b: &RankKey) -> (r: bool)
    ensures
        r == key_above(*a, *b),
{
    a.first > b.first || (a.first == b.first && a.second > b.second) || (a.first == b.first
        && a.second == b.second && a.third > b.third)
}

/// The positions `0..n` of `keys`, each before the next.
pub open spec fn is_sorted_prefix(keys: Seq<RankKey>, n: int, order: Seq<usize>) -> bool {
    &&& order.len() == n
    &&& forall|i: int| 0 <= i < n ==> #[trigger] order[i] < n
    &&& forall|m: int| 0 <= m < n ==> #[trigger] occurs(order, m)
    &&& forall|i: int, j: int|
        0 <= i < j < n ==> precedes(keys, #[trigger] order[i] as int, #[trigger] order[j] as int)
}

/// The ranking of the best `top_n` positions of `keys`. Positions whose
/// keys rank alike stay in their order.
pub fn rank(keys: &Vec<RankKey>, top_n: usize) -> (order: Vec<usize>)
    ensures
        is_ranking(keys@, top_n as int, order@),
        top_n >= keys@.len() ==> forall|m: int| 0 <= m < keys@.len() ==> #[trigger] occurs(order@, m),
{
    let n = keys.len();
    let mut order: Vec<usize> = Vec::new();
    let mut m: usize = 0;
    while m < n
        invariant
            n == keys@.len(),
            m <= n,
            is_sorted_prefix(keys@, m as int, order@),
        decreases n - m,
    {
        let mut p: usize = order.len();
        while p > 0 && above(&keys[m], &keys[order[p - 1]])
            invariant
                n == keys@.len(),
                m < n,
                p <= order@.len(),
                is_sorted_prefix(keys@, m as int, order@),
                forall|k: int|
                    p <= k < order@.len() ==> key_above(keys@[m as int], keys@[#[trigger] order@[k] as int]),
            decreases p,
        {
            p -= 1;
        }
        let ghost before = order@;
        order.insert(p, m);
        proof {
            let after = order@;
            assert forall|i: int| 0 <= i < m + 1 implies #[trigger] after[i] < m + 1 by {
                if i < p {
                    assert(after[i] == before[i]);
                } else if i > p {
                    assert(after[i] == before[i - 1]);
                }
            }
            assert forall|x: int| 0 <= x < m + 1 implies #[trigger] occurs(after, x) by {
                if x == m {
                    assert(after[p as int] == m);
                } else {
                    assert(occurs(before, x));
                    let i = choose|i: int| 0 <= i < before.len() && before[i] == x;
                    if i < p {
                        assert(after[i] == x as usize);
                    } else {
                        assert(after[i + 1] == x as usize);
                    }
                }
            }
            assert forall|i: int, j: int| 0 <= i < j < m + 1 implies precedes(
                keys@,
                #[trigger] after[i] as int,
                #[trigger] after[j] as int,
            ) by {
                if j < p {
                    assert(after[i] == before[i] && after[j] == before[j]);
                } else if j == p {
                    assert(after[i] == before[i]);
                    if p > 0 {
                        assert(!key_above(keys@[m as int], keys@[before[p - 1] as int]));
                        if i < p - 1 {
                            assert(precedes(keys@, before[i] as int, before[p - 1] as int));
                        }
                    }
                } else if i == p {
                    assert(after[j] == before[j - 1]);
                } else if i < p {
                    assert(after[i] == before[i] && after[j] == before[j - 1]);
                } else {
                    assert(after[i] == before[i - 1] && after[j] == before[j - 1]);
                }
            }
        }
        m += 1;
    }
    let ghost full = order@;
    if top_n < n {
        order.truncate(top_n);
    }
    proof {
        let kept = order@;
        assert forall|i: int, x: int|
            0 <= i < kept.len() && 0 <= x < n && !occurs(kept, x)
                implies #[trigger] precedes(keys@, kept[i] as int, x) by {
            assert(occurs(full, x));
            let j = choose|j: int| 0 <= j < full.len() && full[j] == x;
            if j < kept.len() {
                assert(kept[j] == x as usize);
            }
            assert(kept[i] == full[i]);
        }
    }
    order
}

} // verus!
