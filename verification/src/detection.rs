//! Integer steps of the detector's per-level decoding.
use vstd::prelude::*;

use crate::anchors::{anchor_count, anchor_table_fits, is_anchor_table, AnchorCache, CACHE_CAPACITY};
use crate::grid::compose_indices;
use crate::nms::{is_overlap_table, keys_in_order, lemma_nms_after_sorting, lemma_nms_laws, nms_keep, overlaps_in_order};
use crate::ranking::{is_score_order, limited_rows, score_order_of};
use crate::ScrfdHelpers;

verus! {

/// `inds` lists, in increasing order, exactly the positions at which `flags` holds.
pub open spec fn is_positive_index_list(flags: Seq<bool>, inds: Seq<usize>) -> bool {
    &&& forall|t: int| 0 <= t < inds.len() ==> #[trigger] inds[t] < flags.len() && flags[inds[t] as int]
    &&& forall|t: int, u: int| 0 <= t < u < inds.len() ==> #[trigger] inds[t] < #[trigger] inds[u]
    &&& forall|i: int| 0 <= i < flags.len() && #[trigger] flags[i] ==> inds.contains(i as usize)
}

impl ScrfdHelpers {
    /// Positions of the detections whose flag is set (a score above the
    /// confidence threshold), in increasing order.
    pub fn positive_indices(flags: &Vec<bool>) -> (inds: Vec<usize>)
        ensures
            is_positive_index_list(flags@, inds@),
    {
        let mut inds: Vec<usize> = Vec::new();
        let mut i: usize = 0;
        while i < flags.len()
            invariant
                i <= flags.len(),
                forall|t: int| 0 <= t < inds.len() ==> #[trigger] inds[t] < i && flags@[inds[t] as int],
                forall|t: int, u: int| 0 <= t < u < inds.len() ==> #[trigger] inds[t] < #[trigger] inds[u],
                forall|k: int| 0 <= k < i && #[trigger] flags@[k] ==> inds@.contains(k as usize),
            decreases flags.len() - i,
        {
            if flags[i] {
                let ghost before = inds@;
                inds.push(i);
                proof {
                    assert(inds@[inds.len() - 1] == i);
                    assert forall|k: int| 0 <= k < i + 1 && #[trigger] flags@[k] implies inds@.contains(k as usize) by {
                        if k < i {
                            let t = choose|t: int| 0 <= t < before.len() && before[t] == k as usize;
                            assert(inds@[t] == k as usize);
                        }
                    }
                }
            }
            i = i + 1;
        }
        inds
    }

    /// Anchor centres of one pyramid level: the feature map of an input of
    /// `input_height` x `input_width` at the given stride has
    /// `input_height / stride` x `input_width / stride` cells; its table is
    /// taken from or added to `cache` as `AnchorCache::get_or_generate` does.
    pub fn level_anchor_centers(
        cache: &mut AnchorCache,
        input_height: usize,
        input_width: usize,
        stride: usize,
    ) -> (centers: Vec<(usize, usize)>)
        requires
            stride > 0,
            anchor_count(old(cache)@.0, input_height / stride, input_width / stride) <= usize::MAX,
        ensures
            is_anchor_table(centers@, old(cache)@.0, input_height / stride, input_width / stride, stride),
            final(cache)@.0 == old(cache)@.0,
            ({
                let key = (input_height / stride, input_width / stride, stride);
                final(cache)@.1 == if old(cache)@.1.contains(key) || old(cache)@.1.len() >= CACHE_CAPACITY {
                    old(cache)@.1
                } else {
                    old(cache)@.1.push(key)
                }
            }),
    {
        let height = input_height / stride;
        let width = input_width / stride;
        proof {
            assert((width - 1) * stride <= input_width) by (nonlinear_arith)
                requires width == input_width / stride, stride > 0, input_width >= 0;
            assert((height - 1) * stride <= input_height) by (nonlinear_arith)
                requires height == input_height / stride, stride > 0, input_height >= 0;
            assert(anchor_table_fits(cache@.0, height, width, stride));
        }
        cache.get_or_generate(height, width, stride)
    }
}

/// Candidates left after suppression and the detection limit, as indices
/// into the candidate list: the rows suppression keeps (in score order), then,
/// when `0 < max_num <` their number, the `max_num` of them with the highest
/// value key.
pub open spec fn final_rows(
    score_keys: Seq<u32>,
    overlaps: Seq<Seq<bool>>,
    value_keys: Seq<u32>,
    max_num: usize,
) -> Seq<usize> {
    let kept = nms_keep(score_order_of(score_keys), overlaps);
    compose_indices(kept, limited_rows(keys_in_order(value_keys, kept), max_num))
}

impl ScrfdHelpers {
    /// The candidate indices a detection ends with, shared by its boxes and
    /// keypoints: suppression over the score keys and overlap table, then the
    /// `max_num` limit over the value keys of the kept candidates. Also
    /// returns how many candidates suppression kept.
    ///
    /// This equals sorting the candidates by score, suppressing the sorted
    /// list, limiting the kept rows, and mapping back through each selection.
    pub fn detection_rows(
        score_keys: &Vec<u32>,
        overlaps: &Vec<Vec<bool>>,
        value_keys: &Vec<u32>,
        max_num: usize,
    ) -> (r: (Vec<usize>, usize))
        requires
            is_overlap_table(overlaps@.map_values(|row: Vec<bool>| row@), score_keys.len() as nat),
            value_keys.len() == score_keys.len(),
        ensures
            ({
                let ov = overlaps@.map_values(|row: Vec<bool>| row@);
                let order = score_order_of(score_keys@);
                let kept_sorted = nms_keep(
                    score_order_of(keys_in_order(score_keys@, order)),
                    overlaps_in_order(ov, order),
                );
                let kept = compose_indices(order, kept_sorted);
                &&& r.1 == nms_keep(order, ov).len()
                &&& r.0@ == final_rows(score_keys@, ov, value_keys@, max_num)
                &&& r.0@ == compose_indices(kept, limited_rows(keys_in_order(value_keys@, kept), max_num))
                &&& forall|t: int| 0 <= t < r.0@.len() ==> #[trigger] r.0@[t] < score_keys.len()
            }),
    {
        let ghost ov = overlaps@.map_values(|row: Vec<bool>| row@);
        let keep = Self::nms(score_keys, overlaps);
        proof {
            lemma_nms_laws(score_keys@, score_order_of(score_keys@), ov);
            lemma_nms_after_sorting(score_keys@, ov, score_order_of(score_keys@));
        }
        let mut values: Vec<u32> = Vec::new();
        let mut i: usize = 0;
        while i < keep.len()
            invariant
                i <= keep.len(),
                value_keys.len() == score_keys.len(),
                forall|t: int| 0 <= t < keep.len() ==> #[trigger] keep@[t] < score_keys.len(),
                values@ == keys_in_order(value_keys@, keep@).take(i as int),
            decreases keep.len() - i,
        {
            values.push(value_keys[keep[i]]);
            proof {
                assert(values@ =~= keys_in_order(value_keys@, keep@).take(i + 1));
            }
            i = i + 1;
        }
        proof {
            assert(values@ =~= keys_in_order(value_keys@, keep@));
        }
        let bindex = Self::limit_detections(&values, max_num);
        proof {
            if 0 < max_num < values.len() {
                assert(is_score_order(values@, score_order_of(values@)));
            }
            assert forall|t: int| 0 <= t < bindex.len() implies #[trigger] bindex@[t] < keep.len() by {
                if 0 < max_num < values.len() {
                    assert(bindex@[t] == score_order_of(values@)[t]);
                }
            }
        }
        let mut rows: Vec<usize> = Vec::new();
        let mut t: usize = 0;
        while t < bindex.len()
            invariant
                t <= bindex.len(),
                forall|u: int| 0 <= u < bindex.len() ==> #[trigger] bindex@[u] < keep.len(),
                forall|u: int| 0 <= u < keep.len() ==> #[trigger] keep@[u] < score_keys.len(),
                rows@ == compose_indices(keep@, bindex@).take(t as int),
            decreases bindex.len() - t,
        {
            rows.push(keep[bindex[t]]);
            proof {
                assert(rows@ =~= compose_indices(keep@, bindex@).take(t + 1));
            }
            t = t + 1;
        }
        proof {
            assert(rows@ =~= compose_indices(keep@, bindex@));
            assert forall|u: int| 0 <= u < rows@.len() implies #[trigger] rows@[u] < score_keys.len() by {
                assert(rows@[u] == keep@[bindex@[u] as int]);
            }
        }
        (rows, keep.len())
    }
}

} // verus!
