use rusty_scrfd::anchors::AnchorCache;
use rusty_scrfd::grid::{Matrix, ShapeError, Tensor3};
use rusty_scrfd::ScrfdHelpers;

/// Order key of a finite score: higher scores give higher keys.
fn score_key(score: f32) -> u32 {
    let bits = score.to_bits();
    if bits & 0x8000_0000 != 0 {
        !bits
    } else {
        bits | 0x8000_0000
    }
}

/// `table[a][b]`: the overlap ratio of box `b` with box `a` exceeds `iou_thres`.
fn overlap_table(dets: &[[f32; 5]], iou_thres: f32) -> Vec<Vec<bool>> {
    let area = |d: &[f32; 5]| (d[2] - d[0] + 1.0) * (d[3] - d[1] + 1.0);
    let mut table = Vec::new();
    for a in dets {
        let mut row = Vec::new();
        for b in dets {
            let xx1 = a[0].max(b[0]);
            let yy1 = a[1].max(b[1]);
            let xx2 = a[2].min(b[2]);
            let yy2 = a[3].min(b[3]);
            let w = (xx2 - xx1 + 1.0).max(0.0);
            let h = (yy2 - yy1 + 1.0).max(0.0);
            let inter = w * h;
            let ovr = inter / (area(a) + area(b) - inter);
            row.push(!(ovr <= iou_thres));
        }
        table.push(row);
    }
    table
}

fn nms_dets(dets: &[[f32; 5]], iou_thres: f32) -> Vec<usize> {
    let keys: Vec<u32> = dets.iter().map(|d| score_key(d[4])).collect();
    ScrfdHelpers::nms(&keys, &overlap_table(dets, iou_thres))
}

#[test]
fn test_nms() {
    let dets = [
        [10.0, 10.0, 20.0, 20.0, 0.9],
        [12.0, 12.0, 22.0, 22.0, 0.8],
        [15.0, 15.0, 25.0, 25.0, 0.7],
        [30.0, 30.0, 40.0, 40.0, 0.6],
    ];
    let iou_thres = 0.5;
    let keep = nms_dets(&dets, iou_thres);
    assert_eq!(keep, vec![0, 2, 3]);
}

#[test]
fn test_generate_anchor_centers_multiple_anchors() {
    let height = 2;
    let width = 2;
    let stride = 16;
    let num_anchors = 2;

    let anchor_centers = ScrfdHelpers::generate_anchor_centers(num_anchors, height, width, stride);

    let expected = [
        [0.0, 0.0],
        [0.0, 0.0],
        [16.0, 0.0],
        [16.0, 0.0],
        [0.0, 16.0],
        [0.0, 16.0],
        [16.0, 16.0],
        [16.0, 16.0],
    ];
    let as_f32: Vec<[f32; 2]> = anchor_centers.iter().map(|&(x, y)| [x as f32, y as f32]).collect();
    assert_eq!(as_f32, expected.to_vec());
}

#[test]
fn anchor_centers_single_anchor_row_major() {
    let centers = ScrfdHelpers::generate_anchor_centers(1, 2, 3, 8);
    assert_eq!(centers, vec![(0, 0), (8, 0), (16, 0), (0, 8), (8, 8), (16, 8)]);
}

#[test]
fn anchor_centers_zero_anchors_give_no_rows() {
    assert!(ScrfdHelpers::generate_anchor_centers(0, 2, 2, 32).is_empty());
    assert!(ScrfdHelpers::generate_anchor_centers(0, 1, 1, 8).is_empty());
}

#[test]
fn anchor_centers_scale_with_stride() {
    let unit = ScrfdHelpers::generate_anchor_centers(2, 3, 4, 1);
    let scaled = ScrfdHelpers::generate_anchor_centers(2, 3, 4, 32);
    let expected: Vec<(usize, usize)> = unit.iter().map(|&(x, y)| (x * 32, y * 32)).collect();
    assert_eq!(scaled, expected);
}

#[test]
fn anchor_centers_three_anchors() {
    let centers = ScrfdHelpers::generate_anchor_centers(3, 1, 2, 10);
    assert_eq!(centers, vec![(0, 0), (0, 0), (0, 0), (10, 0), (10, 0), (10, 0)]);
}

#[test]
fn anchor_centers_empty_map() {
    assert!(ScrfdHelpers::generate_anchor_centers(2, 0, 5, 8).is_empty());
    assert!(ScrfdHelpers::generate_anchor_centers(2, 5, 0, 8).is_empty());
}

#[test]
fn anchor_cache_hit_matches_fresh_table() {
    let mut cache = AnchorCache::new(2);
    let first = cache.get_or_generate(4, 5, 8);
    assert_eq!(cache.len(), 1);
    let second = cache.get_or_generate(4, 5, 8);
    assert_eq!(cache.len(), 1);
    assert_eq!(first, second);
    assert_eq!(first, ScrfdHelpers::generate_anchor_centers(2, 4, 5, 8));
    let other = cache.get_or_generate(2, 2, 16);
    assert_eq!(cache.len(), 2);
    assert_eq!(other, ScrfdHelpers::generate_anchor_centers(2, 2, 2, 16));
}

#[test]
fn anchor_cache_stops_growing_at_capacity() {
    let mut cache = AnchorCache::new(2);
    for h in 0..100 {
        cache.get_or_generate(h, 1, 8);
    }
    assert_eq!(cache.len(), 100);
    let extra = cache.get_or_generate(500, 1, 8);
    assert_eq!(cache.len(), 100);
    assert_eq!(extra, ScrfdHelpers::generate_anchor_centers(2, 500, 1, 8));
}

#[test]
fn level_anchor_centers_divides_input_by_stride() {
    let mut cache = AnchorCache::new(2);
    let centers = ScrfdHelpers::level_anchor_centers(&mut cache, 64, 40, 16);
    assert_eq!(centers, ScrfdHelpers::generate_anchor_centers(2, 4, 2, 16));
    assert_eq!(centers.len(), 16);
    assert_eq!(cache.len(), 1);
}

#[test]
fn score_order_descending_with_stable_ties() {
    let keys = vec![5, 9, 5, 1, 9];
    assert_eq!(ScrfdHelpers::score_order(&keys), vec![1, 4, 0, 2, 3]);
    assert!(ScrfdHelpers::score_order(&vec![]).is_empty());
}

#[test]
fn score_key_orders_like_floats() {
    let scores = [-2.0f32, -0.5, 0.0, 0.25, 0.9, 3.0];
    for w in scores.windows(2) {
        assert!(score_key(w[0]) < score_key(w[1]));
    }
}

#[test]
fn nms_keeps_everything_without_overlap() {
    let keys = vec![1, 3, 2];
    let overlaps = vec![vec![false; 3]; 3];
    assert_eq!(ScrfdHelpers::nms(&keys, &overlaps), vec![1, 2, 0]);
}

#[test]
fn nms_keeps_only_best_when_all_overlap() {
    let keys = vec![1, 3, 2];
    let overlaps = vec![vec![true; 3]; 3];
    assert_eq!(ScrfdHelpers::nms(&keys, &overlaps), vec![1]);
}

#[test]
fn nms_dropped_box_does_not_suppress() {
    // 0 suppresses 1, 1 would suppress 2, but 1 is dropped so 2 stays.
    let keys = vec![30, 20, 10];
    let overlaps = vec![
        vec![false, true, false],
        vec![true, false, true],
        vec![false, true, false],
    ];
    assert_eq!(ScrfdHelpers::nms(&keys, &overlaps), vec![0, 2]);
}

#[test]
fn nms_empty_input() {
    assert!(ScrfdHelpers::nms(&vec![], &vec![]).is_empty());
}

#[test]
fn nms_in_order_follows_given_order() {
    let overlaps = vec![vec![false, true], vec![true, false]];
    assert_eq!(ScrfdHelpers::nms_in_order(&vec![1, 0], &overlaps), vec![1]);
    assert_eq!(ScrfdHelpers::nms_in_order(&vec![0, 1], &overlaps), vec![0]);
}

#[test]
fn nms_is_idempotent_on_its_result() {
    let dets = [
        [10.0, 10.0, 20.0, 20.0, 0.9],
        [12.0, 12.0, 22.0, 22.0, 0.8],
        [15.0, 15.0, 25.0, 25.0, 0.7],
        [30.0, 30.0, 40.0, 40.0, 0.6],
    ];
    let keep = nms_dets(&dets, 0.5);
    let overlaps = overlap_table(&dets, 0.5);
    assert_eq!(ScrfdHelpers::nms_in_order(&keep, &overlaps), keep);
}

#[test]
fn limit_detections_takes_best_when_over_limit() {
    let keys = vec![4, 8, 6, 2];
    assert_eq!(ScrfdHelpers::limit_detections(&keys, 2), vec![1, 2]);
    assert_eq!(ScrfdHelpers::limit_detections(&keys, 0), vec![0, 1, 2, 3]);
    assert_eq!(ScrfdHelpers::limit_detections(&keys, 4), vec![0, 1, 2, 3]);
    assert_eq!(ScrfdHelpers::limit_detections(&keys, 9), vec![0, 1, 2, 3]);
}

#[test]
fn positive_indices_in_order() {
    let flags = vec![false, true, true, false, true];
    assert_eq!(ScrfdHelpers::positive_indices(&flags), vec![1, 2, 4]);
    assert!(ScrfdHelpers::positive_indices(&vec![false, false]).is_empty());
}

#[test]
fn concatenate_array2_stacks_rows() {
    let a = Matrix::from_shape_vec(2, 2, vec![1.0f32, 2.0, 3.0, 4.0]).unwrap();
    let b = Matrix::from_shape_vec(1, 2, vec![5.0f32, 6.0]).unwrap();
    let r = ScrfdHelpers::concatenate_array2(&[a, b]).unwrap();
    assert_eq!(r.nrows(), 3);
    assert_eq!(r.ncols(), 2);
    assert_eq!(r.as_slice(), &[1.0, 2.0, 3.0, 4.0, 5.0, 6.0]);
}

#[test]
fn concatenate_array2_empty_is_zero_by_zero() {
    let r = ScrfdHelpers::concatenate_array2::<f32>(&[]).unwrap();
    assert_eq!((r.nrows(), r.ncols()), (0, 0));
    assert!(r.as_slice().is_empty());
}

#[test]
fn concatenate_array2_refuses_mismatched_columns() {
    let a = Matrix::from_shape_vec(1, 2, vec![1.0f32, 2.0]).unwrap();
    let b = Matrix::from_shape_vec(1, 3, vec![1.0f32, 2.0, 3.0]).unwrap();
    assert_eq!(ScrfdHelpers::concatenate_array2(&[a, b]).err(), Some(ShapeError::IncompatibleShape));
}

#[test]
fn concatenate_array3_stacks_blocks() {
    let a = Tensor3::from_shape_vec(1, 2, 2, vec![1.0f32, 2.0, 3.0, 4.0]).unwrap();
    let b = Tensor3::from_shape_vec(1, 2, 2, vec![5.0f32, 6.0, 7.0, 8.0]).unwrap();
    let r = ScrfdHelpers::concatenate_array3(&[a, b]).unwrap();
    assert_eq!(r.dims(), (2, 2, 2));
    assert_eq!(r.as_slice(), &[1.0, 2.0, 3.0, 4.0, 5.0, 6.0, 7.0, 8.0]);
}

#[test]
fn concatenate_array3_refuses_mismatched_tail() {
    let a = Tensor3::from_shape_vec(1, 2, 2, vec![0u8; 4]).unwrap();
    let b = Tensor3::from_shape_vec(1, 4, 1, vec![0u8; 4]).unwrap();
    assert_eq!(ScrfdHelpers::concatenate_array3(&[a, b]).err(), Some(ShapeError::IncompatibleShape));
}

#[test]
fn from_shape_vec_errors() {
    assert_eq!(Matrix::from_shape_vec(2, 2, vec![1u8; 3]).err(), Some(ShapeError::OutOfBounds));
    assert_eq!(Matrix::from_shape_vec(2, 2, vec![1u8; 5]).err(), Some(ShapeError::IncompatibleShape));
    assert_eq!(Matrix::from_shape_vec(usize::MAX, 2, Vec::<u8>::new()).err(), Some(ShapeError::Overflow));
    assert_eq!(Tensor3::from_shape_vec(1, 1, 2, vec![1u8; 1]).err(), Some(ShapeError::OutOfBounds));
    assert_eq!(Tensor3::from_shape_vec(usize::MAX, 2, 2, Vec::<u8>::new()).err(), Some(ShapeError::Overflow));
}

#[test]
fn select_rows_picks_and_repeats() {
    let m = Matrix::from_shape_vec(3, 2, vec![1, 2, 3, 4, 5, 6]).unwrap();
    let s = m.select_rows(&[2, 0, 2]);
    assert_eq!((s.nrows(), s.ncols()), (3, 2));
    assert_eq!(s.as_slice(), &[5, 6, 1, 2, 5, 6]);
    let e = m.select_rows(&[]);
    assert_eq!((e.nrows(), e.ncols()), (0, 2));
}

#[test]
fn select_rows_composes() {
    let m = Matrix::from_shape_vec(4, 1, vec![10, 20, 30, 40]).unwrap();
    let a = [3, 1, 0];
    let b = [2, 0];
    let twice = m.select_rows(&a).select_rows(&b);
    let once = m.select_rows(&[a[b[0]], a[b[1]]]);
    assert_eq!(twice.as_slice(), once.as_slice());
    assert_eq!(twice.as_slice(), &[10, 40]);
}

#[test]
fn tensor_select_rows_picks_slices() {
    let t = Tensor3::from_shape_vec(2, 1, 2, vec![1, 2, 3, 4]).unwrap();
    let s = t.select_rows(&[1, 1, 0]);
    assert_eq!(s.dims(), (3, 1, 2));
    assert_eq!(s.as_slice(), &[3, 4, 3, 4, 1, 2]);
}

#[test]
fn concatenate_columns_puts_rows_side_by_side() {
    let boxes = Matrix::from_shape_vec(2, 4, vec![1.0f32, 2.0, 3.0, 4.0, 5.0, 6.0, 7.0, 8.0]).unwrap();
    let scores = Matrix::from_shape_vec(2, 1, vec![0.9f32, 0.8]).unwrap();
    let joined = ScrfdHelpers::concatenate_columns(&boxes, &scores).unwrap();
    assert_eq!((joined.nrows(), joined.ncols()), (2, 5));
    assert_eq!(joined.as_slice(), &[1.0, 2.0, 3.0, 4.0, 0.9, 5.0, 6.0, 7.0, 8.0, 0.8]);
}

#[test]
fn concatenate_columns_of_empty_arrays() {
    let a = Matrix::<f32>::from_shape_vec(0, 0, vec![]).unwrap();
    let b = Matrix::<f32>::from_shape_vec(0, 0, vec![]).unwrap();
    let joined = ScrfdHelpers::concatenate_columns(&a, &b).unwrap();
    assert_eq!((joined.nrows(), joined.ncols()), (0, 0));
}

#[test]
fn concatenate_columns_refuses_row_mismatch() {
    let a = Matrix::from_shape_vec(2, 1, vec![1, 2]).unwrap();
    let b = Matrix::from_shape_vec(1, 1, vec![3]).unwrap();
    assert_eq!(ScrfdHelpers::concatenate_columns(&a, &b).err(), Some(ShapeError::IncompatibleShape));
}

#[test]
fn suppression_after_sorting_keeps_the_same_detections() {
    let dets = [
        [15.0, 15.0, 25.0, 25.0, 0.7],
        [30.0, 30.0, 40.0, 40.0, 0.6],
        [12.0, 12.0, 22.0, 22.0, 0.8],
        [10.0, 10.0, 20.0, 20.0, 0.9],
    ];
    let direct = nms_dets(&dets, 0.5);
    let keys: Vec<u32> = dets.iter().map(|d| score_key(d[4])).collect();
    let order = ScrfdHelpers::score_order(&keys);
    let sorted: Vec<[f32; 5]> = order.iter().map(|&i| dets[i]).collect();
    let kept_positions = nms_dets(&sorted, 0.5);
    let mapped: Vec<usize> = kept_positions.iter().map(|&p| order[p]).collect();
    assert_eq!(mapped, direct);
    assert_eq!(direct, vec![3, 0, 1]);
}

#[test]
fn concatenate_array3_empty_is_empty() {
    let r = ScrfdHelpers::concatenate_array3::<f32>(&[]).unwrap();
    assert_eq!(r.dims(), (0, 0, 0));
    assert!(r.as_slice().is_empty());
}

#[test]
fn concatenate_array2_is_associative() {
    let m = |rows: usize, v: Vec<i32>| Matrix::from_shape_vec(rows, 2, v).unwrap();
    let a = [m(1, vec![1, 2]), m(2, vec![3, 4, 5, 6])];
    let b = [m(1, vec![7, 8])];
    let sa = ScrfdHelpers::concatenate_array2(&a).unwrap();
    let sb = ScrfdHelpers::concatenate_array2(&b).unwrap();
    let nested = ScrfdHelpers::concatenate_array2(&[sa, sb]).unwrap();
    let all = [m(1, vec![1, 2]), m(2, vec![3, 4, 5, 6]), m(1, vec![7, 8])];
    let flat = ScrfdHelpers::concatenate_array2(&all).unwrap();
    assert_eq!((nested.nrows(), nested.ncols()), (flat.nrows(), flat.ncols()));
    assert_eq!(nested.as_slice(), flat.as_slice());
}

#[test]
fn detection_rows_suppresses_then_limits() {
    let dets = [
        [15.0, 15.0, 25.0, 25.0, 0.7],
        [30.0, 30.0, 40.0, 40.0, 0.6],
        [12.0, 12.0, 22.0, 22.0, 0.8],
        [10.0, 10.0, 20.0, 20.0, 0.9],
    ];
    let keys: Vec<u32> = dets.iter().map(|d| score_key(d[4])).collect();
    let overlaps = overlap_table(&dets, 0.5);
    // Value keys rank candidate 1 highest, then 0, then 3, then 2.
    let values = vec![30, 40, 10, 20];
    let (rows, kept) = ScrfdHelpers::detection_rows(&keys, &overlaps, &values, 0);
    assert_eq!((rows, kept), (vec![3, 0, 1], 3));
    let (rows, kept) = ScrfdHelpers::detection_rows(&keys, &overlaps, &values, 2);
    assert_eq!((rows, kept), (vec![1, 0], 3));
    let (rows, _) = ScrfdHelpers::detection_rows(&keys, &overlaps, &values, 3);
    assert_eq!(rows, vec![3, 0, 1]);
}

#[test]
fn detection_rows_of_no_candidates() {
    let (rows, kept) = ScrfdHelpers::detection_rows(&vec![], &vec![], &vec![], 5);
    assert!(rows.is_empty());
    assert_eq!(kept, 0);
}

#[test]
fn select_positive_rows_keeps_levels_aligned() {
    let flags = vec![false, true, false, true];
    let scores = Matrix::from_shape_vec(4, 1, vec![1, 2, 3, 4]).unwrap();
    let boxes = Matrix::from_shape_vec(4, 2, vec![10, 11, 20, 21, 30, 31, 40, 41]).unwrap();
    let kps = Tensor3::from_shape_vec(4, 1, 2, vec![5, 6, 7, 8, 9, 10, 11, 12]).unwrap();
    let (inds, s, b, k) = ScrfdHelpers::select_positive_rows(&flags, &scores, &boxes, &kps);
    assert_eq!(inds, vec![1, 3]);
    assert_eq!(s.as_slice(), &[2, 4]);
    assert_eq!(b.as_slice(), &[20, 21, 40, 41]);
    assert_eq!(k.dims(), (2, 1, 2));
    assert_eq!(k.as_slice(), &[7, 8, 11, 12]);
}
