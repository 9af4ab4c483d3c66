//! Greedy non-maximum suppression.
use vstd::prelude::*;

use crate::ranking::{
    is_score_order, lemma_score_order_covers, lemma_score_order_no_duplicates, ranks_before,
    score_order_of,
};
use crate::ScrfdHelpers;

verus! {

/// `overlaps` is an `n` x `n` table: `overlaps[a][b]` says that box `a`
/// overlaps box `b` by more than the suppression threshold.
pub open spec fn is_overlap_table(overlaps: Seq<Seq<bool>>, n: nat) -> bool {
    &&& overlaps.len() == n
    &&& forall|a: int| 0 <= a < n ==> (#[trigger] overlaps[a]).len() == n
}

/// Some box of `kept` overlaps box `b` above the threshold.
pub open spec fn suppressed_by(overlaps: Seq<Seq<bool>>, kept: Seq<usize>, b: usize) -> bool {
    exists|t: int| 0 <= t < kept.len() && overlaps[#[trigger] kept[t] as int][b as int]
}

/// Greedy suppression over the first `n` entries of `order`: an entry is kept
/// exactly when no entry kept before it overlaps it above the threshold.
pub open spec fn greedy_keep(order: Seq<usize>, overlaps: Seq<Seq<bool>>, n: nat) -> Seq<usize>
    decreases n,
{
    if n == 0 {
        Seq::empty()
    } else {
        let prev = greedy_keep(order, overlaps, (n - 1) as nat);
        let b = order[n - 1];
        if suppressed_by(overlaps, prev, b) {
            prev
        } else {
            prev.push(b)
        }
    }
}

/// Greedy suppression over the whole of `order`.
pub open spec fn nms_keep(order: Seq<usize>, overlaps: Seq<Seq<bool>>) -> Seq<usize> {
    greedy_keep(order, overlaps, order.len())
}

/// `pos` maps each kept box to its strictly increasing position in `order`.
pub open spec fn kept_positions(order: Seq<usize>, keep: Seq<usize>, pos: Seq<int>) -> bool {
    &&& pos.len() == keep.len()
    &&& forall|t: int| 0 <= t < pos.len() ==> 0 <= #[trigger] pos[t] < order.len() && keep[t] == order[pos[t]]
    &&& forall|t: int, u: int| 0 <= t < u < pos.len() ==> #[trigger] pos[t] < #[trigger] pos[u]
}

/// No kept box overlaps a box kept after it above the threshold.
pub open spec fn kept_clear(overlaps: Seq<Seq<bool>>, keep: Seq<usize>) -> bool {
    forall|t: int, u: int|
        #![trigger keep[t], keep[u]]
        0 <= t < u < keep.len() ==> !overlaps[keep[t] as int][keep[u] as int]
}

/// Position `m` of `order` is one of the kept positions.
pub open spec fn position_kept(pos: Seq<int>, m: int) -> bool {
    exists|t: int| 0 <= t < pos.len() && #[trigger] pos[t] == m
}

/// The box at position `m` of `order` is overlapped above the threshold by a
/// kept box that comes before it in `order`.
pub open spec fn dropped_by_earlier(
    order: Seq<usize>,
    overlaps: Seq<Seq<bool>>,
    keep: Seq<usize>,
    pos: Seq<int>,
    m: int,
) -> bool {
    exists|t: int| 0 <= t < pos.len() && #[trigger] pos[t] < m && overlaps[keep[t] as int][order[m] as int]
}

/// Greedy suppression in one statement: the kept boxes are a subsequence of
/// `order`; no kept box overlaps a box kept after it above the threshold; and
/// every box of `order` that is dropped is overlapped above the threshold by a
/// kept box that comes before it in `order`.
pub proof fn lemma_nms_characterization(order: Seq<usize>, overlaps: Seq<Seq<bool>>, n: nat) -> (pos: Seq<int>)
    requires
        n <= order.len(),
    ensures
        kept_positions(order, greedy_keep(order, overlaps, n), pos),
        forall|t: int| 0 <= t < pos.len() ==> pos[t] < n,
        kept_clear(overlaps, greedy_keep(order, overlaps, n)),
        forall|m: int|
            #![trigger position_kept(pos, m)]
            0 <= m < n && !position_kept(pos, m) ==> dropped_by_earlier(order, overlaps, greedy_keep(order, overlaps, n), pos, m),
    decreases n,
{
    if n == 0 {
        Seq::empty()
    } else {
        let prev_pos = lemma_nms_characterization(order, overlaps, (n - 1) as nat);
        let prev = greedy_keep(order, overlaps, (n - 1) as nat);
        let keep = greedy_keep(order, overlaps, n);
        let b = order[n - 1];
        if suppressed_by(overlaps, prev, b) {
            assert forall|m: int|
                #![trigger position_kept(prev_pos, m)]
                0 <= m < n && !position_kept(prev_pos, m) implies dropped_by_earlier(order, overlaps, keep, prev_pos, m) by {
                if m == n - 1 {
                    let t = choose|t: int| 0 <= t < prev.len() && overlaps[#[trigger] prev[t] as int][b as int];
                    assert(prev_pos[t] < m);
                }
            }
            prev_pos
        } else {
            let pos = prev_pos.push(n - 1);
            assert(keep == prev.push(b));
            assert forall|t: int, u: int| #![trigger keep[t], keep[u]] 0 <= t < u < keep.len() implies
                !overlaps[keep[t] as int][keep[u] as int] by {
                if u == pos.len() - 1 {
                    assert(keep[t] == prev[t]);
                    if overlaps[keep[t] as int][keep[u] as int] {
                        assert(overlaps[prev[t] as int][b as int]);
                    }
                } else {
                    assert(keep[t] == prev[t] && keep[u] == prev[u]);
                }
            }
            assert forall|m: int|
                #![trigger position_kept(pos, m)]
                0 <= m < n && !position_kept(pos, m) implies dropped_by_earlier(order, overlaps, keep, pos, m) by {
                assert(m != n - 1) by {
                    if m == n - 1 {
                        assert(pos[pos.len() - 1] == m);
                    }
                }
                assert(!position_kept(prev_pos, m)) by {
                    if position_kept(prev_pos, m) {
                        let t = choose|t: int| 0 <= t < prev_pos.len() && #[trigger] prev_pos[t] == m;
                        assert(pos[t] == m);
                    }
                }
                assert(dropped_by_earlier(order, overlaps, prev, prev_pos, m));
                let t = choose|t: int| 0 <= t < prev_pos.len() && #[trigger] prev_pos[t] < m && overlaps[prev[t] as int][order[m] as int];
                assert(pos[t] == prev_pos[t] && keep[t] == prev[t]);
            }
            pos
        }
    }
}

/// Suppression leaves a sequence of mutually clear boxes unchanged: running it
/// again over its own result keeps every box.
pub proof fn lemma_nms_idempotent(order: Seq<usize>, overlaps: Seq<Seq<bool>>)
    ensures
        nms_keep(nms_keep(order, overlaps), overlaps) == nms_keep(order, overlaps),
{
    let _ = lemma_nms_characterization(order, overlaps, order.len());
    lemma_clear_sequence_kept(nms_keep(order, overlaps), overlaps, nms_keep(order, overlaps).len());
}

proof fn lemma_clear_sequence_kept(s: Seq<usize>, overlaps: Seq<Seq<bool>>, k: nat)
    requires
        kept_clear(overlaps, s),
        k <= s.len(),
    ensures
        greedy_keep(s, overlaps, k) == s.take(k as int),
    decreases k,
{
    if k == 0 {
        assert(s.take(0) =~= Seq::<usize>::empty());
    } else {
        lemma_clear_sequence_kept(s, overlaps, (k - 1) as nat);
        let prev = s.take(k - 1);
        let b = s[k - 1];
        assert(!suppressed_by(overlaps, prev, b)) by {
            if suppressed_by(overlaps, prev, b) {
                let t = choose|t: int| 0 <= t < prev.len() && overlaps[#[trigger] prev[t] as int][b as int];
                assert(prev[t] == s[t]);
            }
        }
        assert(prev.push(b) =~= s.take(k as int));
    }
}

/// Laws of suppression over a score order `order` of `keys`, with `keep` the
/// kept indices:
/// - the kept indices are distinct and come in descending score order;
/// - when there is a detection at all, the first kept one has the highest score;
/// - no kept detection overlaps a later kept one above the threshold;
/// - a detection is kept exactly when no kept detection that ranks before it
///   overlaps it above the threshold.
pub proof fn lemma_nms_laws(keys: Seq<u32>, order: Seq<usize>, overlaps: Seq<Seq<bool>>)
    requires
        is_score_order(keys, order),
        is_overlap_table(overlaps, keys.len()),
    ensures
        ({
            let keep = nms_keep(order, overlaps);
            &&& keep.no_duplicates()
            &&& forall|t: int| 0 <= t < keep.len() ==> #[trigger] keep[t] < keys.len()
            &&& forall|t: int, u: int|
                0 <= t < u < keep.len() ==> ranks_before(keys, #[trigger] keep[t] as int, #[trigger] keep[u] as int)
            &&& keys.len() > 0 ==> keep.len() > 0 && forall|j: int|
                0 <= j < keys.len() ==> keys[keep[0] as int] >= #[trigger] keys[j]
            &&& kept_clear(overlaps, keep)
            &&& forall|j: usize|
                j < keys.len() ==> (#[trigger] keep.contains(j) <==> !exists|t: int|
                    0 <= t < keep.len() && ranks_before(keys, #[trigger] keep[t] as int, j as int)
                        && overlaps[keep[t] as int][j as int])
        }),
{
    let n = keys.len();
    let o = order;
    let keep = nms_keep(o, overlaps);
    let pos = lemma_nms_characterization(o, overlaps, o.len());
    lemma_score_order_no_duplicates(keys, o);
    assert forall|t: int, u: int| 0 <= t < u < keep.len() implies ranks_before(keys, #[trigger] keep[t] as int, #[trigger] keep[u] as int) by {
        assert(pos[t] < pos[u]);
    }
    assert(keep.no_duplicates()) by {
        assert forall|t: int, u: int| 0 <= t < keep.len() && 0 <= u < keep.len() && t != u implies keep[t] != keep[u] by {
            if t < u {
                assert(ranks_before(keys, keep[t] as int, keep[u] as int));
            } else {
                assert(ranks_before(keys, keep[u] as int, keep[t] as int));
            }
        }
    }
    assert forall|t: int| 0 <= t < keep.len() implies #[trigger] keep[t] < keys.len() by {
        assert(keep[t] == o[pos[t]]);
    }
    if n > 0 {
        assert(position_kept(pos, 0)) by {
            if !position_kept(pos, 0) {
                assert(dropped_by_earlier(o, overlaps, keep, pos, 0));
                let t = choose|t: int| 0 <= t < pos.len() && #[trigger] pos[t] < 0 && overlaps[keep[t] as int][o[0] as int];
            }
        }
        let t0 = choose|t: int| 0 <= t < pos.len() && #[trigger] pos[t] == 0;
        if t0 > 0 {
            assert(pos[0] < pos[t0]);
        }
        assert(keep[0] == o[0]);
        assert forall|j: int| 0 <= j < keys.len() implies keys[keep[0] as int] >= #[trigger] keys[j] by {
            lemma_score_order_covers(keys, o, j);
            let k = choose|k: int| 0 <= k < o.len() && o[k] == j;
            if k > 0 {
                assert(ranks_before(keys, o[0] as int, o[k] as int));
            }
        }
    }
    assert forall|j: usize| j < keys.len() implies (#[trigger] keep.contains(j) <==> !exists|t: int|
        0 <= t < keep.len() && ranks_before(keys, #[trigger] keep[t] as int, j as int)
            && overlaps[keep[t] as int][j as int]) by {
        if keep.contains(j) {
            let u = choose|u: int| 0 <= u < keep.len() && keep[u] == j;
            if exists|t: int| 0 <= t < keep.len() && ranks_before(keys, #[trigger] keep[t] as int, j as int)
                && overlaps[keep[t] as int][j as int] {
                let t = choose|t: int| 0 <= t < keep.len() && ranks_before(keys, #[trigger] keep[t] as int, j as int)
                    && overlaps[keep[t] as int][j as int];
                if t > u {
                    assert(ranks_before(keys, keep[u] as int, keep[t] as int));
                }
                assert(t != u);
                assert(t < u);
                assert(!overlaps[keep[t] as int][keep[u] as int]);
            }
        } else {
            lemma_score_order_covers(keys, o, j as int);
            let m = choose|m: int| 0 <= m < o.len() && o[m] == j;
            assert(!position_kept(pos, m)) by {
                if position_kept(pos, m) {
                    let t = choose|t: int| 0 <= t < pos.len() && #[trigger] pos[t] == m;
                    assert(keep[t] == j);
                }
            }
            assert(dropped_by_earlier(o, overlaps, keep, pos, m));
            let t = choose|t: int| 0 <= t < pos.len() && #[trigger] pos[t] < m && overlaps[keep[t] as int][o[m] as int];
            assert(ranks_before(keys, o[pos[t]] as int, o[m] as int));
        }
    }
}

/// The keys of the detections listed in `order`.
pub open spec fn keys_in_order(keys: Seq<u32>, order: Seq<usize>) -> Seq<u32> {
    order.map_values(|i: usize| keys[i as int])
}

/// The overlap table of the detections listed in `order`.
pub open spec fn overlaps_in_order(overlaps: Seq<Seq<bool>>, order: Seq<usize>) -> Seq<Seq<bool>> {
    order.map_values(|a: usize| order.map_values(|b: usize| overlaps[a as int][b as int]))
}

/// The indices `0..n` in increasing order.
pub open spec fn identity_order(n: nat) -> Seq<usize> {
    Seq::new(n, |i: int| i as usize)
}

proof fn lemma_greedy_reindexed(order: Seq<usize>, overlaps: Seq<Seq<bool>>, k: nat)
    requires
        k <= order.len(),
        order.len() <= usize::MAX,
    ensures
        crate::grid::compose_indices(
            order,
            greedy_keep(identity_order(order.len()), overlaps_in_order(overlaps, order), k),
        ) == greedy_keep(order, overlaps, k),
    decreases k,
{
    let id = identity_order(order.len());
    let ov2 = overlaps_in_order(overlaps, order);
    if k > 0 {
        lemma_greedy_reindexed(order, overlaps, (k - 1) as nat);
        let prev2 = greedy_keep(id, ov2, (k - 1) as nat);
        let prev = greedy_keep(order, overlaps, (k - 1) as nat);
        let pos = lemma_nms_characterization(id, ov2, (k - 1) as nat);
        assert forall|t: int| 0 <= t < prev2.len() implies #[trigger] prev2[t] < order.len() by {
            assert(prev2[t] == id[pos[t]]);
        }
        let b2 = id[k - 1];
        assert(b2 == k - 1);
        assert(suppressed_by(ov2, prev2, b2) == suppressed_by(overlaps, prev, order[k - 1])) by {
            if suppressed_by(ov2, prev2, b2) {
                let t = choose|t: int| 0 <= t < prev2.len() && ov2[#[trigger] prev2[t] as int][b2 as int];
                assert(prev[t] == order[prev2[t] as int]);
            }
            if suppressed_by(overlaps, prev, order[k - 1]) {
                let t = choose|t: int| 0 <= t < prev.len() && overlaps[#[trigger] prev[t] as int][order[k - 1] as int];
                assert(prev[t] == order[prev2[t] as int]);
                assert(ov2[prev2[t] as int][b2 as int] == overlaps[order[prev2[t] as int] as int][order[k - 1] as int]);
            }
        }
        if !suppressed_by(ov2, prev2, b2) {
            assert(crate::grid::compose_indices(order, prev2.push(b2)) =~= crate::grid::compose_indices(order, prev2).push(order[k - 1]));
        }
    } else {
        assert(crate::grid::compose_indices(order, Seq::<usize>::empty()) =~= Seq::<usize>::empty());
    }
}

/// Sorting the detections by score before suppression does not change what
/// is kept: suppressing the sorted list and mapping the kept positions back
/// through the score order gives the detections that suppressing the
/// unsorted list keeps.
pub proof fn lemma_nms_after_sorting(keys: Seq<u32>, overlaps: Seq<Seq<bool>>, order: Seq<usize>)
    requires
        is_score_order(keys, order),
        keys.len() <= usize::MAX,
    ensures
        crate::grid::compose_indices(
            order,
            nms_keep(score_order_of(keys_in_order(keys, order)), overlaps_in_order(overlaps, order)),
        ) == nms_keep(order, overlaps),
{
    let keys2 = keys_in_order(keys, order);
    let id = identity_order(order.len());
    assert(is_score_order(keys2, id)) by {
        assert forall|p: int, q: int| 0 <= p < q < id.len() implies ranks_before(keys2, #[trigger] id[p] as int, #[trigger] id[q] as int) by {
            assert(ranks_before(keys, order[p] as int, order[q] as int));
        }
    }
    crate::ranking::lemma_score_order_unique(keys2, id, score_order_of(keys2));
    lemma_greedy_reindexed(order, overlaps, order.len());
}

impl ScrfdHelpers {
    /// Non-maximum suppression: orders the detections by descending score key
    /// and keeps a detection unless a detection kept before it overlaps it
    /// above the threshold (`overlaps[a][b]`). Returns the kept indices in
    /// that order.
    pub fn nms(score_keys: &Vec<u32>, overlaps: &Vec<Vec<bool>>) -> (keep: Vec<usize>)
        requires
            is_overlap_table(overlaps@.map_values(|row: Vec<bool>| row@), score_keys.len() as nat),
        ensures
            is_score_order(score_keys@, score_order_of(score_keys@)),
            keep@ == nms_keep(score_order_of(score_keys@), overlaps@.map_values(|row: Vec<bool>| row@)),
    {
        let order = Self::score_order(score_keys);
        proof {
            assert forall|a: int| 0 <= a < overlaps.len() implies (#[trigger] overlaps[a]).len() == overlaps.len() by {
                assert(overlaps@.map_values(|row: Vec<bool>| row@)[a] == overlaps[a]@);
            }
        }
        Self::nms_in_order(&order, overlaps)
    }

    /// Greedy suppression along a given order: walks `order` and keeps a box
    /// unless a box already kept overlaps it above the threshold.
    pub fn nms_in_order(order: &Vec<usize>, overlaps: &Vec<Vec<bool>>) -> (keep: Vec<usize>)
        requires
            forall|i: int| 0 <= i < order.len() ==> #[trigger] order[i] < overlaps.len(),
            forall|a: int| 0 <= a < overlaps.len() ==> (#[trigger] overlaps[a]).len() == overlaps.len(),
        ensures
            keep@ == nms_keep(order@, overlaps@.map_values(|row: Vec<bool>| row@)),
    {
        let ghost ov = overlaps@.map_values(|row: Vec<bool>| row@);
        let mut keep: Vec<usize> = Vec::new();
        let mut m: usize = 0;
        while m < order.len()
            invariant
                m <= order.len(),
                ov == overlaps@.map_values(|row: Vec<bool>| row@),
                forall|i: int| 0 <= i < order.len() ==> #[trigger] order[i] < overlaps.len(),
                forall|a: int| 0 <= a < overlaps.len() ==> (#[trigger] overlaps[a]).len() == overlaps.len(),
                keep@ == greedy_keep(order@, ov, m as nat),
                forall|t: int| 0 <= t < keep.len() ==> #[trigger] keep[t] < overlaps.len(),
            decreases order.len() - m,
        {
            let b = order[m];
            let mut t: usize = 0;
            let mut hit = false;
            while t < keep.len() && !hit
                invariant
                    t <= keep.len(),
                    b < overlaps.len(),
                    ov == overlaps@.map_values(|row: Vec<bool>| row@),
                    forall|a: int| 0 <= a < overlaps.len() ==> (#[trigger] overlaps[a]).len() == overlaps.len(),
                    forall|s: int| 0 <= s < keep.len() ==> #[trigger] keep[s] < overlaps.len(),
                    hit ==> suppressed_by(ov, keep@, b),
                    !hit ==> forall|s: int| 0 <= s < t ==> !ov[#[trigger] keep@[s] as int][b as int],
                decreases keep.len() - t + (if hit { 0int } else { 1int }),
            {
                let a = keep[t];
                if overlaps[a][b] {
                    assert(ov[keep@[t as int] as int][b as int]);
                    hit = true;
                } else {
                    t = t + 1;
                }
            }
            proof {
                assert(order@[m as int] == b);
                if !hit {
                    assert(!suppressed_by(ov, keep@, b));
                }
            }
            if !hit {
                keep.push(b);
            }
            m = m + 1;
        }
        keep
    }
}

} // verus!
