//! Ordering of detections by score.
use vstd::prelude::*;

use vstd::set_lib::{lemma_int_range, lemma_subset_equality, set_int_range};

use crate::ScrfdHelpers;

verus! {

/// Detection `a` ranks before detection `b`: its score key is higher, or the
/// keys tie and `a` has the lower index.
pub open spec fn ranks_before(keys: Seq<u32>, a: int, b: int) -> bool {
    keys[a] > keys[b] || (keys[a] == keys[b] && a < b)
}

/// `order` lists every detection index exactly once, highest score key first,
/// ties in index order.
pub open spec fn is_score_order(keys: Seq<u32>, order: Seq<usize>) -> bool {
    &&& order.len() == keys.len()
    &&& forall|i: int| 0 <= i < order.len() ==> #[trigger] order[i] < keys.len()
    &&& forall|i: int, j: int|
        0 <= i < j < order.len() ==> ranks_before(keys, #[trigger] order[i] as int, #[trigger] order[j] as int)
}

/// A score order never repeats an index.
pub proof fn lemma_score_order_no_duplicates(keys: Seq<u32>, order: Seq<usize>)
    requires
        is_score_order(keys, order),
    ensures
        order.no_duplicates(),
{
    assert forall|i: int, j: int| 0 <= i < order.len() && 0 <= j < order.len() && i != j implies order[i] != order[j] by {
        if i < j {
            assert(ranks_before(keys, order[i] as int, order[j] as int));
        } else {
            assert(ranks_before(keys, order[j] as int, order[i] as int));
        }
    }
}

/// A score order lists every detection index `0..keys.len()`.
pub proof fn lemma_score_order_covers(keys: Seq<u32>, order: Seq<usize>, z: int)
    requires
        is_score_order(keys, order),
        0 <= z < keys.len(),
    ensures
        exists|k: int| 0 <= k < order.len() && order[k] == z,
{
    lemma_score_order_no_duplicates(keys, order);
    let m = order.map_values(|x: usize| x as int);
    assert(m.no_duplicates()) by {
        assert forall|i: int, j: int| 0 <= i < m.len() && 0 <= j < m.len() && i != j implies m[i] != m[j] by {
            assert(order[i] != order[j]);
        }
    }
    m.unique_seq_to_set();
    let range = set_int_range(0, keys.len() as int);
    lemma_int_range(0, keys.len() as int);
    assert(m.to_set().subset_of(range)) by {
        assert forall|v: int| m.to_set().contains(v) implies range.contains(v) by {
            let k = choose|k: int| 0 <= k < m.len() && m[k] == v;
            assert(order[k] < keys.len());
        }
    }
    lemma_subset_equality(m.to_set(), range);
    assert(range.contains(z));
    assert(m.to_set().contains(z));
    let k = choose|k: int| 0 <= k < m.len() && m[k] == z;
    assert(order[k] == z);
}

/// The detections that rank before the one at position `i` of a score order
/// are exactly those at positions `0..i`.
proof fn lemma_rank_prefix(keys: Seq<u32>, order: Seq<usize>, i: int)
    requires
        is_score_order(keys, order),
        0 <= i < order.len(),
    ensures
        Set::new(|z: usize| z < keys.len() && ranks_before(keys, z as int, order[i] as int))
            == order.take(i).to_set(),
        order.take(i).to_set().len() == i,
{
    let x = order[i] as int;
    let s = Set::new(|z: usize| z < keys.len() && ranks_before(keys, z as int, x));
    lemma_score_order_no_duplicates(keys, order);
    assert(order.take(i).no_duplicates());
    order.take(i).unique_seq_to_set();
    assert forall|z: usize| s.contains(z) <==> order.take(i).to_set().contains(z) by {
        if s.contains(z) {
            lemma_score_order_covers(keys, order, z as int);
            let k = choose|k: int| 0 <= k < order.len() && order[k] == z;
            if k > i {
                assert(ranks_before(keys, x, order[k] as int));
            }
            assert(k < i);
            assert(order.take(i)[k] == z);
        }
        if order.take(i).to_set().contains(z) {
            let k = choose|k: int| 0 <= k < order.take(i).len() && order.take(i)[k] == z;
            assert(order[k] == z);
            assert(ranks_before(keys, order[k] as int, order[i] as int));
        }
    }
    assert(s =~= order.take(i).to_set());
}

/// The score order of a key vector is unique.
pub proof fn lemma_score_order_unique(keys: Seq<u32>, o1: Seq<usize>, o2: Seq<usize>)
    requires
        is_score_order(keys, o1),
        is_score_order(keys, o2),
    ensures
        o1 == o2,
{
    assert forall|i: int| 0 <= i < o1.len() implies o1[i] == o2[i] by {
        let x = o1[i];
        lemma_score_order_covers(keys, o2, x as int);
        let j = choose|j: int| 0 <= j < o2.len() && o2[j] == x;
        lemma_rank_prefix(keys, o1, i);
        lemma_rank_prefix(keys, o2, j);
    }
    assert(o1 =~= o2);
}

/// The score order of `keys`.
pub open spec fn score_order_of(keys: Seq<u32>) -> Seq<usize> {
    choose|o: Seq<usize>| is_score_order(keys, o)
}

impl ScrfdHelpers {
    /// Orders detection indices by descending score key; equal keys keep their
    /// index order.
    pub fn score_order(keys: &Vec<u32>) -> (order: Vec<usize>)
        ensures
            is_score_order(keys@, order@),
            order@ == score_order_of(keys@),
    {
        let n = keys.len();
        let mut order: Vec<usize> = Vec::new();
        let mut i: usize = 0;
        while i < n
            invariant
                n == keys.len(),
                i <= n,
                order.len() == i,
                forall|k: int| 0 <= k < order.len() ==> #[trigger] order[k] < i,
                forall|k: int, l: int|
                    0 <= k < l < order.len() ==> ranks_before(keys@, #[trigger] order[k] as int, #[trigger] order[l] as int),
            decreases n - i,
        {
            let key = keys[i];
            let mut p: usize = 0;
            while p < order.len() && keys[order[p]] >= key
                invariant
                    n == keys.len(),
                    i < n,
                    key == keys@[i as int],
                    order.len() == i,
                    p <= order.len(),
                    forall|k: int| 0 <= k < order.len() ==> #[trigger] order[k] < i,
                    forall|k: int| 0 <= k < p ==> keys@[#[trigger] order[k] as int] >= key,
                decreases order.len() - p,
            {
                p = p + 1;
            }
            let ghost before = order@;
            proof {
                // Keys never increase along the current order.
                assert forall|k: int, l: int| 0 <= k <= l < before.len() implies keys@[before[k] as int] >= keys@[before[l] as int] by {
                    if k < l {
                        assert(ranks_before(keys@, before[k] as int, before[l] as int));
                    }
                }
            }
            order.insert(p, i);
            proof {
                assert forall|k: int| 0 <= k < order.len() implies #[trigger] order[k] < i + 1 by {
                    if k < p {
                        assert(order[k] == before[k]);
                    } else if k > p {
                        assert(order[k] == before[k - 1]);
                    }
                }
                assert forall|k: int, l: int| 0 <= k < l < order.len() implies ranks_before(keys@, #[trigger] order[k] as int, #[trigger] order[l] as int) by {
                    if l < p {
                        assert(order[k] == before[k] && order[l] == before[l]);
                    } else if l == p {
                        assert(order[k] == before[k]);
                    } else if k < p {
                        assert(order[k] == before[k] && order[l] == before[l - 1]);
                    } else if k == p {
                        assert(order[l] == before[l - 1]);
                        assert(keys@[before[p as int] as int] < key);
                    } else {
                        assert(order[k] == before[k - 1] && order[l] == before[l - 1]);
                    }
                }
            }
            i = i + 1;
        }
        proof {
            lemma_score_order_unique(keys@, order@, score_order_of(keys@));
        }
        order
    }
}

/// Rows left by the detection limit: when `0 < max_num < keys.len()`, the
/// `max_num` rows of highest key in score order; otherwise every row, in place.
pub open spec fn limited_rows(keys: Seq<u32>, max_num: usize) -> Seq<usize> {
    if 0 < max_num < keys.len() {
        score_order_of(keys).take(max_num as int)
    } else {
        Seq::new(keys.len(), |i: int| i as usize)
    }
}

/// When the limit applies, every row it keeps has a key at least as high as
/// every row it drops.
pub proof fn lemma_limit_keeps_best(keys: Seq<u32>, order: Seq<usize>, max_num: usize, kept: usize, dropped: usize)
    requires
        is_score_order(keys, order),
        0 < max_num < keys.len(),
        dropped < keys.len(),
        limited_rows(keys, max_num).contains(kept),
        !limited_rows(keys, max_num).contains(dropped),
    ensures
        keys[kept as int] >= keys[dropped as int],
{
    lemma_score_order_unique(keys, order, score_order_of(keys));
    let top = order.take(max_num as int);
    assert(limited_rows(keys, max_num) == top);
    let a = choose|a: int| 0 <= a < top.len() && top[a] == kept;
    lemma_score_order_covers(keys, order, dropped as int);
    let b = choose|b: int| 0 <= b < order.len() && order[b] == dropped;
    if b < max_num {
        assert(top[b] == dropped);
        assert(top.contains(dropped));
    }
    assert(order[a] == kept);
    assert(ranks_before(keys, order[a] as int, order[b] as int));
}

/// The detection limit in terms of any score order of the keys: when
/// `0 < max_num < n` it keeps exactly `max_num` indices, the first `max_num`
/// of the score order; otherwise it keeps all `n` indices, each in place.
pub proof fn lemma_limit_detections_exact(keys: Seq<u32>, order: Seq<usize>, max_num: usize)
    requires
        is_score_order(keys, order),
        keys.len() <= usize::MAX,
    ensures
        0 < max_num < keys.len() ==> {
            &&& limited_rows(keys, max_num).len() == max_num
            &&& forall|t: int| 0 <= t < max_num ==> #[trigger] limited_rows(keys, max_num)[t] == order[t]
        },
        !(0 < max_num < keys.len()) ==> {
            &&& limited_rows(keys, max_num).len() == keys.len()
            &&& forall|i: int| 0 <= i < keys.len() ==> #[trigger] limited_rows(keys, max_num)[i] == i
        },
{
    lemma_score_order_unique(keys, order, score_order_of(keys));
}

impl ScrfdHelpers {
    /// Applies the detection limit of `max_num`: when `0 < max_num < n`, the
    /// indices of the `max_num` highest keys in score order; otherwise all
    /// indices `0..n` in place.
    pub fn limit_detections(keys: &Vec<u32>, max_num: usize) -> (rows: Vec<usize>)
        ensures
            rows@ == limited_rows(keys@, max_num),
            0 < max_num < keys.len() ==> is_score_order(keys@, score_order_of(keys@)),
            rows@.len() == if 0 < max_num < keys.len() { max_num as nat } else { keys.len() as nat },
            0 < max_num < keys.len() ==> forall|t: int, u: int|
                0 <= t < u < rows@.len() ==> ranks_before(keys@, #[trigger] rows@[t] as int, #[trigger] rows@[u] as int),
            0 < max_num < keys.len() ==> forall|t: int, j: int|
                0 <= t < rows@.len() && 0 <= j < keys.len() && !rows@.contains(j as usize) ==> keys@[#[trigger] rows@[t] as int] >= #[trigger] keys@[j],
            !(0 < max_num < keys.len()) ==> forall|i: int| 0 <= i < rows@.len() ==> #[trigger] rows@[i] == i,
    {
        if max_num > 0 && max_num < keys.len() {
            let mut order = Self::score_order(keys);
            let ghost full = order@;
            order.truncate(max_num);
            proof {
                assert(order@ =~= score_order_of(keys@).take(max_num as int));
                assert forall|t: int, j: int|
                    0 <= t < order@.len() && 0 <= j < keys.len() && !order@.contains(j as usize) implies keys@[#[trigger] order@[t] as int] >= #[trigger] keys@[j] by {
                    lemma_score_order_covers(keys@, full, j);
                    let b = choose|b: int| 0 <= b < full.len() && full[b] == j;
                    if b < max_num {
                        assert(order@[b] == full[b]);
                    }
                    assert(order@[t] == full[t]);
                    assert(ranks_before(keys@, full[t] as int, full[b] as int));
                }
            }
            order
        } else {
            let mut rows: Vec<usize> = Vec::new();
            let mut i: usize = 0;
            while i < keys.len()
                invariant
                    i <= keys.len(),
                    rows@ =~= Seq::new(i as nat, |k: int| k as usize),
                decreases keys.len() - i,
            {
                rows.push(i);
                i = i + 1;
            }
            rows
        }
    }
}

} // verus!
