//! Putting amounts in order.
use vstd::prelude::*;

verus! {

/// Place `a` comes before place `b`: it holds the greater key, or the same key and stands
/// first.
pub open spec fn comes_before(keys: Seq<u64>, a: int, b: int) -> bool {
    keys[a] > keys[b] || (keys[a] == keys[b] && a < b)
}

/// Each place of the list comes before those behind it.
pub open spec fn is_descending(keys: Seq<u64>, order: Seq<usize>) -> bool {
    forall|i: int, j: int|
        0 <= i < j < order.len() ==> comes_before(
            keys,
            #[trigger] order[i] as int,
            #[trigger] order[j] as int,
        )
}

/// The list holds place `k`.
pub open spec fn lists(order: Seq<usize>, k: int) -> bool {
    exists|i: int| 0 <= i < order.len() && #[trigger] order[i] == k
}

/// The list holds exactly the places from `low` up to `high`.
pub open spec fn is_range(order: Seq<usize>, low: int, high: int) -> bool {
    &&& order.len() == high - low
    &&& forall|i: int| 0 <= i < order.len() ==> low <= #[trigger] order[i] < high
    &&& forall|k: int| low <= k < high ==> #[trigger] lists(order, k)
}

/// The list holds every place once, the greatest key first.
pub open spec fn is_ranking(keys: Seq<u64>, order: Seq<usize>) -> bool {
    is_range(order, 0, keys.len() as int) && is_descending(keys, order)
}

/// Merges two descending lists of neighbouring stretches.
fn merge(
    keys: &Vec<u64>,
    a: &Vec<usize>,
    b: &Vec<usize>,
    Ghost(low): Ghost<int>,
    Ghost(mid): Ghost<int>,
    Ghost(high): Ghost<int>,
) -> (r: Vec<usize>)
    requires
        0 <= low <= mid <= high <= keys@.len(),
        is_range(a@, low, mid),
        is_range(b@, mid, high),
        is_descending(keys@, a@),
        is_descending(keys@, b@),
    ensures
        is_range(r@, low, high),
        is_descending(keys@, r@),
{
    let mut r: Vec<usize> = Vec::new();
    let mut i: usize = 0;
    let mut j: usize = 0;
    while i < a.len() || j < b.len()
        invariant
            0 <= low <= mid <= high <= keys@.len(),
            is_range(a@, low, mid),
            is_range(b@, mid, high),
            is_descending(keys@, a@),
            is_descending(keys@, b@),
            i <= a@.len(),
            j <= b@.len(),
            r@.len() == i + j,
            is_descending(keys@, r@),
            forall|k: int| 0 <= k < r@.len() ==> low <= #[trigger] r@[k] < high,
            forall|k: int, m: int|
                0 <= k < r@.len() && i <= m < a@.len() ==> comes_before(
                    keys@,
                    #[trigger] r@[k] as int,
                    #[trigger] a@[m] as int,
                ),
            forall|k: int, m: int|
                0 <= k < r@.len() && j <= m < b@.len() ==> comes_before(
                    keys@,
                    #[trigger] r@[k] as int,
                    #[trigger] b@[m] as int,
                ),
            forall|m: int|
                0 <= m < i ==> exists|k: int|
                    0 <= k < r@.len() && #[trigger] r@[k] == #[trigger] a@[m],
            forall|m: int|
                0 <= m < j ==> exists|k: int|
                    0 <= k < r@.len() && #[trigger] r@[k] == #[trigger] b@[m],
        decreases a@.len() - i + b@.len() - j,
    {
        let ghost old_r = r@;
        let left: bool = if i == a.len() {
            false
        } else if j == b.len() {
            true
        } else {
            keys[a[i]] >= keys[b[j]]
        };
        let ghost gi = i;
        let ghost gj = j;
        if left {
            r.push(a[i]);
            i = i + 1;
        } else {
            r.push(b[j]);
            j = j + 1;
        }
        proof {
            assert forall|k: int| 0 <= k < old_r.len() implies r@[k] == old_r[k] by {}
            assert forall|m: int| 0 <= m < i implies exists|k: int|
                0 <= k < r@.len() && #[trigger] r@[k] == #[trigger] a@[m] by {
                if m < gi {
                    let k = choose|k: int| 0 <= k < old_r.len() && #[trigger] old_r[k] == a@[m];
                    assert(r@[k] == a@[m]);
                } else {
                    assert(r@[old_r.len() as int] == a@[m]);
                }
            }
            assert forall|m: int| 0 <= m < j implies exists|k: int|
                0 <= k < r@.len() && #[trigger] r@[k] == #[trigger] b@[m] by {
                if m < gj {
                    let k = choose|k: int| 0 <= k < old_r.len() && #[trigger] old_r[k] == b@[m];
                    assert(r@[k] == b@[m]);
                } else {
                    assert(r@[old_r.len() as int] == b@[m]);
                }
            }
            if left {
                assert forall|m: int| gj <= m < b@.len() implies comes_before(
                    keys@,
                    a@[gi as int] as int,
                    #[trigger] b@[m] as int,
                ) by {
                    if m > gj {
                        assert(comes_before(keys@, b@[gj as int] as int, b@[m] as int));
                    }
                }
            } else {
                assert forall|m: int| gi <= m < a@.len() implies comes_before(
                    keys@,
                    b@[gj as int] as int,
                    #[trigger] a@[m] as int,
                ) by {
                    if m > gi {
                        assert(comes_before(keys@, a@[gi as int] as int, a@[m] as int));
                    }
                }
            }
        }
    }
    proof {
        assert forall|k: int| low <= k < high implies #[trigger] lists(r@, k) by {
            if k < mid {
                assert(lists(a@, k));
                let m = choose|m: int| 0 <= m < a@.len() && #[trigger] a@[m] == k;
                assert(a@[m] == k);
            } else {
                assert(lists(b@, k));
                let m = choose|m: int| 0 <= m < b@.len() && #[trigger] b@[m] == k;
                assert(b@[m] == k);
            }
        }
    }
    r
}

fn rank_range(keys: &Vec<u64>, low: usize, high: usize) -> (r: Vec<usize>)
    requires
        low <= high <= keys@.len(),
    ensures
        is_range(r@, low as int, high as int),
        is_descending(keys@, r@),
    decreases high - low,
{
    if high - low <= 1 {
        let mut r: Vec<usize> = Vec::new();
        if low < high {
            r.push(low);
            proof {
                assert(r@[0] == low);
            }
        }
        return r;
    }
    let mid: usize = low + (high - low) / 2;
    let a: Vec<usize> = rank_range(keys, low, mid);
    let b: Vec<usize> = rank_range(keys, mid, high);
    merge(keys, &a, &b, Ghost(low as int), Ghost(mid as int), Ghost(high as int))
}

/// The places of the keys, the greatest key first and equal keys in their order.
pub fn rank(keys: &Vec<u64>) -> (r: Vec<usize>)
    ensures
        is_ranking(keys@, r@),
{
    rank_range(keys, 0, keys.len())
}

/// There is only one ranking.
pub proof fn law_ranking_unique(keys: Seq<u64>, a: Seq<usize>, b: Seq<usize>)
    requires
        is_ranking(keys, a),
        is_ranking(keys, b),
    ensures
        a == b,
{
    lemma_rankings_agree(keys, a, b, a.len() as int);
    assert(a =~= b);
}

proof fn lemma_rankings_agree(keys: Seq<u64>, a: Seq<usize>, b: Seq<usize>, n: int)
    requires
        is_ranking(keys, a),
        is_ranking(keys, b),
        0 <= n <= a.len(),
    ensures
        forall|i: int| 0 <= i < n ==> a[i] == b[i],
    decreases n,
{
    if n > 0 {
        lemma_rankings_agree(keys, a, b, n - 1);
        let k = n - 1;
        // Each of the two next places stands in the other list, not before place `k`.
        let x = a[k] as int;
        let y = b[k] as int;
        assert(lists(b, x) && lists(a, y));
        let i = choose|i: int| 0 <= i < b.len() && #[trigger] b[i] == x;
        let j = choose|j: int| 0 <= j < a.len() && #[trigger] a[j] == y;
        if x != y {
            if i < k {
                assert(a[i] == b[i]);
                assert(comes_before(keys, a[i] as int, a[k] as int));
                assert(false);
            }
            if j < k {
                assert(a[j] == b[j]);
                assert(comes_before(keys, b[j] as int, b[k] as int));
                assert(false);
            }
            assert(comes_before(keys, b[k] as int, b[i] as int));
            assert(comes_before(keys, a[k] as int, a[j] as int));
        }
    }
}

} // verus!
