# rusty_scrfd

Post-processing core of an SCRFD face detector, verified with Verus.

- `src/` — the verified library:
  - `anchors.rs`: anchor-centre grids of a feature map and the bounded anchor cache;
  - `ranking.rs`: ordering of detections by score key and the `max_num` limit;
  - `nms.rs`: greedy non-maximum suppression over an overlap table, with its laws;
  - `grid.rs`: row-major two- and three-dimensional arrays, their concatenation
    along rows and columns, row selection, and the aligned selection of one
    pyramid level's scores, boxes and keypoints;
  - `detection.rs`: positive indices, per-level anchors through the cache, and
    the final candidate rows of a detection (suppression, then the limit).
- `app/` — what Verus does not take: ONNX Runtime inference, OpenCV
  preprocessing, and the `f32` arithmetic (box and keypoint decoding, overlap
  ratios, score keys, scaling), wired to the verified core.
- `tests/` — executable tests of the library.

Scores enter the library as `u32` order keys (a monotone image of the `f32`
scores) and box overlaps as a boolean table `overlaps[a][b]` ("the overlap
ratio of `b` with `a` exceeds the threshold"), both computed in `app/`.
