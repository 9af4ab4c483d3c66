//! Anchor centres of a feature map.
use vstd::prelude::*;

use vstd::arithmetic::div_mod::{lemma_fundamental_div_mod, lemma_mod_pos_bound};

use crate::ScrfdHelpers;

verus! {

/// Number of anchors placed on one grid cell.
pub open spec fn anchors_per_cell(num_anchors: usize) -> nat {
    num_anchors as nat
}

/// Number of anchor rows produced for a `height` x `width` feature map.
pub open spec fn anchor_count(num_anchors: usize, height: usize, width: usize) -> nat {
    height as nat * width as nat * anchors_per_cell(num_anchors)
}

/// Row of the anchor table that holds copy `j` of the centre of cell `(x, y)`:
/// cells are laid out row by row, and each cell is repeated
/// `anchors_per_cell(num_anchors)` times in a row.
pub open spec fn anchor_row(num_anchors: usize, width: usize, y: int, x: int, j: int) -> int {
    (y * width + x) * anchors_per_cell(num_anchors) + j
}

/// `centers` is the anchor table of a `height` x `width` map with the given
/// stride: every cell `(x, y)` has its centre `(x * stride, y * stride)`
/// repeated once per anchor, cells taken row by row.
pub open spec fn is_anchor_table(
    centers: Seq<(usize, usize)>,
    num_anchors: usize,
    height: usize,
    width: usize,
    stride: usize,
) -> bool {
    &&& centers.len() == anchor_count(num_anchors, height, width)
    &&& forall|y: int, x: int, j: int|
        0 <= y < height && 0 <= x < width && 0 <= j < anchors_per_cell(num_anchors) ==>
            #[trigger] centers[anchor_row(num_anchors, width, y, x, j)] == (
                (x * stride) as usize,
                (y * stride) as usize,
            )
}

/// The table fits the machine: its length and its largest coordinates are `usize`.
pub open spec fn anchor_table_fits(
    num_anchors: usize,
    height: usize,
    width: usize,
    stride: usize,
) -> bool {
    &&& anchor_count(num_anchors, height, width) <= usize::MAX
    &&& (width - 1) * stride <= usize::MAX
    &&& (height - 1) * stride <= usize::MAX
}

proof fn lemma_row_step(w: int, a: int, y: int, x: int)
    requires
        0 <= w,
        0 <= a,
    ensures
        (y * w + x + 1) * a == (y * w + x) * a + a,
        ((y + 1) * w + 0) * a == (y * w + w) * a,
{
    assert((y * w + x + 1) * a == (y * w + x) * a + a) by (nonlinear_arith);
    assert(((y + 1) * w + 0) * a == (y * w + w) * a) by (nonlinear_arith);
}

proof fn lemma_row_order(w: int, a: int, y1: int, x1: int, j1: int, y2: int, x2: int)
    requires
        0 <= x1 < w,
        0 <= j1 < a,
        0 <= x2,
        0 <= y1,
        y1 * w + x1 < y2 * w + x2,
    ensures
        (y1 * w + x1) * a + j1 < (y2 * w + x2) * a,
{
    assert((y1 * w + x1) * a + j1 < (y2 * w + x2) * a) by (nonlinear_arith)
        requires
            0 <= j1 < a,
            y1 * w + x1 < y2 * w + x2,
            0 <= y1 * w + x1,
    ;
}

proof fn lemma_cell_order(w: int, y1: int, x1: int, y2: int, x2: int)
    requires
        0 <= x1 < w,
        0 <= x2,
        y1 < y2,
    ensures
        y1 * w + x1 < y2 * w + x2,
{
    assert(y1 * w + w <= y2 * w) by (nonlinear_arith)
        requires
            y1 < y2,
            0 <= w,
    ;
}

proof fn lemma_coord_fits(c: int, n: int, stride: int)
    requires
        0 <= c < n,
        0 <= stride,
        (n - 1) * stride <= usize::MAX,
    ensures
        0 <= c * stride <= usize::MAX,
{
    assert(0 <= c * stride <= (n - 1) * stride) by (nonlinear_arith)
        requires
            0 <= c < n,
            0 <= stride,
    ;
}

impl ScrfdHelpers {
    /// Builds the anchor centres of a `height` x `width` feature map, a table
    /// of `height * width * num_anchors` rows: the centre of cell `(x, y)` is
    /// `(x * stride, y * stride)`, cells are listed row by row, and each centre
    /// is repeated `num_anchors` times in a row.
    pub fn generate_anchor_centers(
        num_anchors: usize,
        height: usize,
        width: usize,
        stride: usize,
    ) -> (centers: Vec<(usize, usize)>)
        requires
            anchor_table_fits(num_anchors, height, width, stride),
        ensures
            is_anchor_table(centers@, num_anchors, height, width, stride),
    {
        let per_cell: usize = num_anchors;
        let ghost a = per_cell as int;
        let ghost w = width as int;
        let mut centers: Vec<(usize, usize)> = Vec::new();
        let mut y: usize = 0;
        assert((0 * w + 0) * a == 0) by (nonlinear_arith);
        while y < height
            invariant
                a == anchors_per_cell(num_anchors),
                w == width,
                per_cell == a,
                a >= 0,
                anchor_table_fits(num_anchors, height, width, stride),
                y <= height,
                centers.len() == (y * w + 0) * a,
                forall|yy: int, xx: int, jj: int|
                    0 <= yy < y && 0 <= xx < width && 0 <= jj < a ==>
                        #[trigger] centers@[anchor_row(num_anchors, width, yy, xx, jj)] == (
                            (xx * stride) as usize,
                            (yy * stride) as usize,
                        ),
            decreases height - y,
        {
            proof {
                lemma_coord_fits(y as int, height as int, stride as int);
            }
            let cy: usize = y * stride;
            let mut x: usize = 0;
            while x < width
                invariant
                    a == anchors_per_cell(num_anchors),
                w == width,
                per_cell == a,
                    a >= 0,
                    anchor_table_fits(num_anchors, height, width, stride),
                    y < height,
                    x <= width,
                    cy == y * stride,
                    centers.len() == (y * w + x) * a,
                    forall|yy: int, xx: int, jj: int|
                        0 <= jj < a && ((0 <= yy < y && 0 <= xx < width) || (yy == y && 0 <= xx < x))
                            ==> #[trigger] centers@[anchor_row(num_anchors, width, yy, xx, jj)] == (
                            (xx * stride) as usize,
                            (yy * stride) as usize,
                        ),
                decreases width - x,
            {
                proof {
                    lemma_coord_fits(x as int, width as int, stride as int);
                }
                let cx: usize = x * stride;
                let mut j: usize = 0;
                while j < per_cell
                    invariant
                        a == anchors_per_cell(num_anchors),
                w == width,
                        per_cell == a,
                        anchor_table_fits(num_anchors, height, width, stride),
                        y < height,
                        x < width,
                        j <= per_cell,
                        cy == y * stride,
                        cx == x * stride,
                        centers.len() == (y * w + x) * a + j,
                        forall|yy: int, xx: int, jj: int|
                            0 <= jj < a && ((0 <= yy < y && 0 <= xx < width) || (yy == y && 0
                                <= xx < x) || (yy == y && xx == x && jj < j)) ==> #[trigger] centers@[anchor_row(
                                num_anchors,
                                width,
                                yy,
                                xx,
                                jj,
                            )] == ((xx * stride) as usize, (yy * stride) as usize),
                    decreases per_cell - j,
                {
                    proof {
                        // The next row index stays below the table length.
                        lemma_cell_order(w, y as int, x as int, height as int, 0);
                        lemma_row_order(w, a, y as int, x as int, j as int, height as int, 0);
                        assert((height as int * w + 0) * a == anchor_count(num_anchors, height, width))
                            by (nonlinear_arith)
                            requires a == anchors_per_cell(num_anchors), w == width;
                    }
                    let ghost before = centers@;
                    centers.push((cx, cy));
                    proof {
                        assert forall|yy: int, xx: int, jj: int|
                            0 <= jj < a && ((0 <= yy < y && 0 <= xx < width) || (yy == y && 0
                                <= xx < x) || (yy == y && xx == x && jj < j + 1)) implies #[trigger] centers@[anchor_row(
                                num_anchors,
                                width,
                                yy,
                                xx,
                                jj,
                            )] == ((xx * stride) as usize, (yy * stride) as usize) by {
                            if !(yy == y && xx == x && jj == j) {
                                if yy < y {
                                    lemma_cell_order(w, yy, xx, y as int, x as int);
                                }
                                if yy == y && xx == x {
                                } else {
                                    lemma_row_order(w, a, yy, xx, jj, y as int, x as int);
                                }
                                assert(centers@[anchor_row(num_anchors, width, yy, xx, jj)]
                                    == before[anchor_row(num_anchors, width, yy, xx, jj)]);
                            }
                        }
                    }
                    j = j + 1;
                }
                proof {
                    lemma_row_step(w, a, y as int, x as int);
                }
                x = x + 1;
            }
            proof {
                lemma_row_step(w, a, y as int, x as int);
            }
            y = y + 1;
        }
        proof {
            assert((height as int * w + 0) * a == anchor_count(num_anchors, height, width))
                by (nonlinear_arith)
                requires a == anchors_per_cell(num_anchors), w == width;
        }
        centers
    }
}

proof fn lemma_row_decomposes(r: int, height: int, width: int, a: int) -> (yxj: (int, int, int))
    requires
        width > 0,
        a > 0,
        height >= 0,
        0 <= r < height * width * a,
    ensures
        0 <= yxj.0 < height,
        0 <= yxj.1 < width,
        0 <= yxj.2 < a,
        (yxj.0 * width + yxj.1) * a + yxj.2 == r,
{
    let c = r / a;
    let j = r % a;
    lemma_fundamental_div_mod(r, a);
    lemma_mod_pos_bound(r, a);
    let x = c % width;
    let y = c / width;
    lemma_fundamental_div_mod(c, width);
    lemma_mod_pos_bound(c, width);
    assert(c >= 0) by (nonlinear_arith)
        requires r >= 0, a > 0, c == r / a;
    assert(c < height * width) by (nonlinear_arith)
        requires r < height * width * a, a > 0, r == a * c + j, 0 <= j < a, height * width * a == (height * width) * a;
    assert(y >= 0) by (nonlinear_arith)
        requires c >= 0, width > 0, y == c / width;
    assert(y < height) by (nonlinear_arith)
        requires c < height * width, width > 0, c == width * y + x, 0 <= x < width;
    assert((y * width + x) * a + j == r) by (nonlinear_arith)
        requires c == width * y + x, r == a * c + j;
    (y, x, j)
}

/// The anchor table of a feature map is unique: a cached table and a freshly
/// built one of the same map are equal.
pub proof fn lemma_anchor_table_unique(
    t1: Seq<(usize, usize)>,
    t2: Seq<(usize, usize)>,
    num_anchors: usize,
    height: usize,
    width: usize,
    stride: usize,
)
    requires
        is_anchor_table(t1, num_anchors, height, width, stride),
        is_anchor_table(t2, num_anchors, height, width, stride),
    ensures
        t1 == t2,
{
    let a = anchors_per_cell(num_anchors) as int;
    assert forall|r: int| 0 <= r < t1.len() implies t1[r] == t2[r] by {
        if width == 0 {
            assert(height as int * 0 * a == 0) by (nonlinear_arith);
        }
        if a == 0 {
            assert(height as int * width as int * 0 == 0) by (nonlinear_arith);
        }
        assert(height as int * width as int * a == anchor_count(num_anchors, height, width));
        let (y, x, j) = lemma_row_decomposes(r, height as int, width as int, a);
        assert(anchor_row(num_anchors, width, y, x, j) == r);
        assert(t1[anchor_row(num_anchors, width, y, x, j)] == t2[anchor_row(num_anchors, width, y, x, j)]);
    }
    assert(t1 =~= t2);
}

/// The stride only scales the grid: the anchor table at stride `stride` is
/// the unit-stride table with both coordinates multiplied by `stride`.
pub proof fn lemma_anchor_stride_scaling(
    t: Seq<(usize, usize)>,
    unit: Seq<(usize, usize)>,
    num_anchors: usize,
    height: usize,
    width: usize,
    stride: usize,
)
    requires
        anchor_table_fits(num_anchors, height, width, stride),
        is_anchor_table(t, num_anchors, height, width, stride),
        is_anchor_table(unit, num_anchors, height, width, 1),
    ensures
        t.len() == unit.len(),
        forall|r: int| 0 <= r < t.len() ==> #[trigger] t[r] == (
            (unit[r].0 * stride) as usize,
            (unit[r].1 * stride) as usize,
        ),
{
    let a = anchors_per_cell(num_anchors) as int;
    assert forall|r: int| 0 <= r < t.len() implies #[trigger] t[r] == (
        (unit[r].0 * stride) as usize,
        (unit[r].1 * stride) as usize,
    ) by {
        if width == 0 {
            assert(height as int * 0 * a == 0) by (nonlinear_arith);
        }
        if a == 0 {
            assert(height as int * width as int * 0 == 0) by (nonlinear_arith);
        }
        assert(height as int * width as int * a == anchor_count(num_anchors, height, width));
        let (y, x, j) = lemma_row_decomposes(r, height as int, width as int, a);
        assert(anchor_row(num_anchors, width, y, x, j) == r);
        assert(t[anchor_row(num_anchors, width, y, x, j)] == ((x * stride) as usize, (y * stride) as usize));
        assert(unit[anchor_row(num_anchors, width, y, x, j)] == ((x * 1) as usize, (y * 1) as usize));
    }
}

/// Most feature maps whose anchor tables the cache keeps.
pub const CACHE_CAPACITY: usize = 100;

/// Key of a cached anchor table: feature-map height, width and stride.
pub type CacheKey = (usize, usize, usize);

/// Anchor tables of feature maps already seen, for one number of anchors per
/// cell. A table is added only while fewer than `CACHE_CAPACITY` are held, and
/// a held table is never replaced.
pub struct AnchorCache {
    num_anchors: usize,
    entries: Vec<(CacheKey, Vec<(usize, usize)>)>,
}

/// The keys of a list of cache entries, in insertion order.
pub open spec fn entry_keys(entries: Seq<(CacheKey, Vec<(usize, usize)>)>) -> Seq<CacheKey> {
    entries.map_values(|e: (CacheKey, Vec<(usize, usize)>)| e.0)
}

impl AnchorCache {
    #[verifier::type_invariant]
    spec fn well_formed(self) -> bool {
        &&& self.entries.len() <= CACHE_CAPACITY
        &&& entry_keys(self.entries@).no_duplicates()
        &&& forall|i: int|
            0 <= i < self.entries.len() ==> is_anchor_table(
                (#[trigger] self.entries@[i]).1@,
                self.num_anchors,
                self.entries@[i].0.0,
                self.entries@[i].0.1,
                self.entries@[i].0.2,
            )
    }

    /// The number of anchors per cell, and the keys of the held tables in the
    /// order they were added.
    pub closed spec fn model(self) -> (usize, Seq<CacheKey>) {
        (self.num_anchors, entry_keys(self.entries@))
    }
}

impl View for AnchorCache {
    type V = (usize, Seq<CacheKey>);

    open spec fn view(&self) -> (usize, Seq<CacheKey>) {
        self.model()
    }
}

fn copy_table(table: &Vec<(usize, usize)>) -> (out: Vec<(usize, usize)>)
    ensures
        out@ == table@,
{
    let mut out: Vec<(usize, usize)> = Vec::new();
    let mut i: usize = 0;
    while i < table.len()
        invariant
            i <= table.len(),
            out@ == table@.take(i as int),
        decreases table.len() - i,
    {
        out.push(table[i]);
        proof {
            assert(table@.take(i + 1) =~= table@.take(i as int).push(table@[i as int]));
        }
        i = i + 1;
    }
    proof {
        assert(table@.take(table.len() as int) =~= table@);
    }
    out
}

impl AnchorCache {
    /// An empty cache for `num_anchors` anchors per cell.
    pub fn new(num_anchors: usize) -> (cache: AnchorCache)
        ensures
            cache@ == (num_anchors, Seq::<CacheKey>::empty()),
    {
        let cache = AnchorCache { num_anchors, entries: Vec::new() };
        proof {
            assert(entry_keys(cache.entries@) =~= Seq::<CacheKey>::empty());
        }
        cache
    }

    /// The number of anchors per cell of the held tables.
    pub fn num_anchors(&self) -> (n: usize)
        ensures
            n == self@.0,
    {
        self.num_anchors
    }

    /// Number of held tables; never more than `CACHE_CAPACITY`.
    pub fn len(&self) -> (n: usize)
        ensures
            n == self@.1.len(),
            n <= CACHE_CAPACITY,
    {
        proof {
            use_type_invariant(self);
        }
        self.entries.len()
    }

    /// The anchor table of a `height` x `width` feature map with the given
    /// stride: the held one when the key is cached, else a freshly built one,
    /// which is added to the cache while it holds fewer than
    /// `CACHE_CAPACITY` tables.
    pub fn get_or_generate(&mut self, height: usize, width: usize, stride: usize) -> (centers: Vec<(usize, usize)>)
        requires
            anchor_table_fits(old(self)@.0, height, width, stride),
        ensures
            is_anchor_table(centers@, old(self)@.0, height, width, stride),
            final(self)@.0 == old(self)@.0,
            final(self)@.1 == if old(self)@.1.contains((height, width, stride)) || old(self)@.1.len()
                >= CACHE_CAPACITY {
                old(self)@.1
            } else {
                old(self)@.1.push((height, width, stride))
            },
    {
        proof {
            use_type_invariant(&*self);
        }
        let key: CacheKey = (height, width, stride);
        let ghost keys = entry_keys(self.entries@);
        let mut i: usize = 0;
        while i < self.entries.len()
            invariant
                i <= self.entries.len(),
                keys == entry_keys(self.entries@),
                key == (height, width, stride),
                forall|k: int| 0 <= k < i ==> #[trigger] keys[k] != key,
            decreases self.entries.len() - i,
        {
            let entry = &self.entries[i];
            proof {
                assert(keys[i as int] == self.entries@[i as int].0);
            }
            if entry.0.0 == height && entry.0.1 == width && entry.0.2 == stride {
                proof {
                    use_type_invariant(&*self);
                    assert(keys[i as int] == key);
                    assert(keys.contains(key));
                }
                return copy_table(&entry.1);
            }
            i = i + 1;
        }
        proof {
            assert(!keys.contains(key));
        }
        let centers = ScrfdHelpers::generate_anchor_centers(self.num_anchors, height, width, stride);
        if self.entries.len() < CACHE_CAPACITY {
            let mut entries: Vec<(CacheKey, Vec<(usize, usize)>)> = Vec::new();
            std::mem::swap(&mut entries, &mut self.entries);
            entries.push((key, copy_table(&centers)));
            proof {
                assert(entry_keys(entries@) =~= keys.push(key));
                assert forall|a: int, b: int|
                    0 <= a < entry_keys(entries@).len() && 0 <= b < entry_keys(entries@).len() && a != b implies
                    entry_keys(entries@)[a] != entry_keys(entries@)[b] by {
                    if a < keys.len() && b < keys.len() {
                        assert(keys[a] != keys[b]);
                    } else if a < keys.len() {
                        assert(keys.contains(keys[a]));
                    } else {
                        assert(keys.contains(keys[b]));
                    }
                }
            }
            self.entries = entries;
        }
        centers
    }
}

} // verus!
