//! Dense row-major arrays of two and three dimensions, and the row-wise
//! operations the detector applies to them: concatenation and selection.
use vstd::prelude::*;

use crate::ScrfdHelpers;

verus! {

/// Why an array operation was refused; the kinds follow those of `ndarray`.
#[derive(Debug, Clone, Copy, PartialEq, Eq)]
pub enum ShapeError {
    /// The arrays disagree on a length that must match.
    IncompatibleShape,
    /// The shape has more elements than `isize::MAX`.
    Overflow,
    /// The data holds fewer elements than the shape needs.
    OutOfBounds,
}

/// A length counted as one when it is zero.
pub open spec fn nonzero_len(d: int) -> int {
    if d == 0 { 1 } else { d }
}

/// The product of the non-zero lengths of a two-dimensional shape is at most `isize::MAX`.
pub open spec fn fits2(rows: int, cols: int) -> bool {
    nonzero_len(rows) * nonzero_len(cols) <= isize::MAX
}

/// The product of the non-zero lengths of a three-dimensional shape is at most `isize::MAX`.
pub open spec fn fits3(d0: int, d1: int, d2: int) -> bool {
    nonzero_len(d0) * nonzero_len(d1) * nonzero_len(d2) <= isize::MAX
}

fn shape_size_ok(dims: &[usize]) -> (ok: bool)
    requires
        dims.len() == 2 || dims.len() == 3,
    ensures
        dims.len() == 2 ==> (ok <==> fits2(dims[0] as int, dims[1] as int)),
        dims.len() == 3 ==> (ok <==> fits3(dims[0] as int, dims[1] as int, dims[2] as int)),
{
    let mut acc: usize = 1;
    let mut i: usize = 0;
    let ghost prods: Seq<int> = seq![1int];
    while i < dims.len()
        invariant
            dims.len() == 2 || dims.len() == 3,
            i <= dims.len(),
            acc >= 1,
            acc as int == (if i == 0 { 1int } else if i == 1 { nonzero_len(dims[0] as int) } else if i
                == 2 { nonzero_len(dims[0] as int) * nonzero_len(dims[1] as int) } else { nonzero_len(
                dims[0] as int,
            ) * nonzero_len(dims[1] as int) * nonzero_len(dims[2] as int) }),
        decreases dims.len() - i,
    {
        let d: usize = if dims[i] == 0 { 1 } else { dims[i] };
        match acc.checked_mul(d) {
            Some(p) => {
                assert(p >= 1) by (nonlinear_arith)
                    requires acc >= 1, d >= 1, p == acc * d;
                acc = p;
            },
            None => {
                proof {
                    // The running product already exceeds `usize::MAX`; later
                    // factors are at least one, so the full product does too.
                    let rest: int = if i + 1 < dims.len() { nonzero_len(dims[(dims.len() - 1) as int] as int) } else { 1 };
                    assert(acc * d * rest >= acc * d) by (nonlinear_arith)
                        requires acc * d >= 0, rest >= 1;
                }
                return false;
            },
        }
        i = i + 1;
    }
    acc <= isize::MAX as usize
}

/// A two-dimensional array stored row by row.
pub struct Matrix<T> {
    rows: usize,
    cols: usize,
    data: Vec<T>,
}

/// `(rows, cols, data)` describes a well-formed matrix.
pub open spec fn matrix_wf<T>(m: (nat, nat, Seq<T>)) -> bool {
    &&& m.2.len() == m.0 * m.1
    &&& fits2(m.0 as int, m.1 as int)
}

impl<T> Matrix<T> {
    #[verifier::type_invariant]
    spec fn well_formed(self) -> bool {
        matrix_wf((self.rows as nat, self.cols as nat, self.data@))
    }

    /// The rows, the columns and the elements in row-major order.
    pub closed spec fn model(self) -> (nat, nat, Seq<T>) {
        (self.rows as nat, self.cols as nat, self.data@)
    }
}

impl<T> View for Matrix<T> {
    type V = (nat, nat, Seq<T>);

    open spec fn view(&self) -> (nat, nat, Seq<T>) {
        self.model()
    }
}

/// A three-dimensional array stored in row-major order.
pub struct Tensor3<T> {
    d0: usize,
    d1: usize,
    d2: usize,
    data: Vec<T>,
}

/// `(d0, d1, d2, data)` describes a well-formed three-dimensional array.
pub open spec fn tensor_wf<T>(t: (nat, nat, nat, Seq<T>)) -> bool {
    &&& t.3.len() == t.0 * t.1 * t.2
    &&& fits3(t.0 as int, t.1 as int, t.2 as int)
}

impl<T> Tensor3<T> {
    #[verifier::type_invariant]
    spec fn well_formed(self) -> bool {
        tensor_wf((self.d0 as nat, self.d1 as nat, self.d2 as nat, self.data@))
    }

    /// The three lengths and the elements in row-major order.
    pub closed spec fn model(self) -> (nat, nat, nat, Seq<T>) {
        (self.d0 as nat, self.d1 as nat, self.d2 as nat, self.data@)
    }
}

impl<T> View for Tensor3<T> {
    type V = (nat, nat, nat, Seq<T>);

    open spec fn view(&self) -> (nat, nat, nat, Seq<T>) {
        self.model()
    }
}

impl<T> Matrix<T> {
    /// Builds a `rows` x `cols` matrix from its elements in row-major order.
    pub fn from_shape_vec(rows: usize, cols: usize, data: Vec<T>) -> (r: Result<Self, ShapeError>)
        ensures
            match r {
                Ok(m) => m@ == (rows as nat, cols as nat, data@),
                Err(e) => if !fits2(rows as int, cols as int) {
                    e == ShapeError::Overflow
                } else if rows * cols > data.len() {
                    e == ShapeError::OutOfBounds
                } else {
                    rows * cols < data.len() && e == ShapeError::IncompatibleShape
                },
            },
    {
        let dims = [rows, cols];
        if !shape_size_ok(&dims) {
            return Err(ShapeError::Overflow);
        }
        proof {
            assert(rows * cols <= nonzero_len(rows as int) * nonzero_len(cols as int)) by (nonlinear_arith)
                requires rows >= 0, cols >= 0;
        }
        let size: usize = rows * cols;
        if size > data.len() {
            Err(ShapeError::OutOfBounds)
        } else if size < data.len() {
            Err(ShapeError::IncompatibleShape)
        } else {
            Ok(Matrix { rows, cols, data })
        }
    }

    /// Number of rows.
    pub fn nrows(&self) -> (r: usize)
        ensures
            r == self@.0,
    {
        self.rows
    }

    /// Number of columns.
    pub fn ncols(&self) -> (c: usize)
        ensures
            c == self@.1,
    {
        self.cols
    }

    /// The elements in row-major order.
    pub fn as_slice(&self) -> (s: &[T])
        ensures
            s@ == self@.2,
            matrix_wf(self@),
    {
        proof {
            use_type_invariant(self);
        }
        self.data.as_slice()
    }
}

impl<T> Tensor3<T> {
    /// Builds a `d0` x `d1` x `d2` array from its elements in row-major order.
    pub fn from_shape_vec(d0: usize, d1: usize, d2: usize, data: Vec<T>) -> (r: Result<Self, ShapeError>)
        ensures
            match r {
                Ok(t) => t@ == (d0 as nat, d1 as nat, d2 as nat, data@),
                Err(e) => if !fits3(d0 as int, d1 as int, d2 as int) {
                    e == ShapeError::Overflow
                } else if d0 * d1 * d2 > data.len() {
                    e == ShapeError::OutOfBounds
                } else {
                    d0 * d1 * d2 < data.len() && e == ShapeError::IncompatibleShape
                },
            },
    {
        let dims = [d0, d1, d2];
        if !shape_size_ok(&dims) {
            return Err(ShapeError::Overflow);
        }
        proof {
            assert(d0 * d1 * d2 <= nonzero_len(d0 as int) * nonzero_len(d1 as int) * nonzero_len(d2 as int))
                by (nonlinear_arith)
                requires d0 >= 0, d1 >= 0, d2 >= 0;
            assert(d0 * d1 <= d0 * d1 * nonzero_len(d2 as int)) by (nonlinear_arith)
                requires d0 >= 0, d1 >= 0, d2 >= 0;
            assert(d0 * d1 * nonzero_len(d2 as int) <= nonzero_len(d0 as int) * nonzero_len(d1 as int) * nonzero_len(d2 as int))
                by (nonlinear_arith)
                requires d0 >= 0, d1 >= 0, d2 >= 0;
        }
        let size: usize = d0 * d1 * d2;
        if size > data.len() {
            Err(ShapeError::OutOfBounds)
        } else if size < data.len() {
            Err(ShapeError::IncompatibleShape)
        } else {
            Ok(Tensor3 { d0, d1, d2, data })
        }
    }

    /// The three lengths.
    pub fn dims(&self) -> (d: (usize, usize, usize))
        ensures
            d.0 == self@.0 && d.1 == self@.1 && d.2 == self@.2,
    {
        (self.d0, self.d1, self.d2)
    }

    /// The elements in row-major order.
    pub fn as_slice(&self) -> (s: &[T])
        ensures
            s@ == self@.3,
            tensor_wf(self@),
    {
        proof {
            use_type_invariant(self);
        }
        self.data.as_slice()
    }
}

/// The models of a sequence of matrices.
pub open spec fn matrix_models<T>(arrays: Seq<Matrix<T>>) -> Seq<(nat, nat, Seq<T>)> {
    arrays.map_values(|m: Matrix<T>| m@)
}

/// Sum of the row counts of `ms`.
pub open spec fn total_rows<T>(ms: Seq<(nat, nat, Seq<T>)>) -> nat
    decreases ms.len(),
{
    if ms.len() == 0 {
        0
    } else {
        total_rows(ms.drop_last()) + ms.last().0
    }
}

/// Every matrix of `ms` has as many columns as the first.
pub open spec fn same_cols<T>(ms: Seq<(nat, nat, Seq<T>)>) -> bool {
    forall|i: int| 0 <= i < ms.len() ==> (#[trigger] ms[i]).1 == ms[0].1
}

/// The elements of `ms`, matrix after matrix.
pub open spec fn stacked2<T>(ms: Seq<(nat, nat, Seq<T>)>) -> Seq<T> {
    ms.map_values(|m: (nat, nat, Seq<T>)| m.2).flatten()
}

/// What stacking the matrices `ms` gives: the empty 0 x 0 matrix for no
/// matrices, a refusal when the column counts differ or the result is too
/// large, and otherwise the rows of all matrices in order.
pub open spec fn concat2_result<T>(ms: Seq<(nat, nat, Seq<T>)>) -> Result<(nat, nat, Seq<T>), ShapeError> {
    if ms.len() == 0 {
        Ok((0nat, 0nat, Seq::<T>::empty()))
    } else if !same_cols(ms) {
        Err(ShapeError::IncompatibleShape)
    } else if !fits2(total_rows(ms) as int, ms[0].1 as int) {
        Err(ShapeError::Overflow)
    } else {
        Ok((total_rows(ms), ms[0].1, stacked2(ms)))
    }
}

/// The models of a sequence of three-dimensional arrays.
pub open spec fn tensor_models<T>(arrays: Seq<Tensor3<T>>) -> Seq<(nat, nat, nat, Seq<T>)> {
    arrays.map_values(|t: Tensor3<T>| t@)
}

/// Sum of the first lengths of `ts`.
pub open spec fn total_depth<T>(ts: Seq<(nat, nat, nat, Seq<T>)>) -> nat
    decreases ts.len(),
{
    if ts.len() == 0 {
        0
    } else {
        total_depth(ts.drop_last()) + ts.last().0
    }
}

/// Every array of `ts` agrees with the first on the second and third lengths.
pub open spec fn same_tail<T>(ts: Seq<(nat, nat, nat, Seq<T>)>) -> bool {
    forall|i: int| 0 <= i < ts.len() ==> (#[trigger] ts[i]).1 == ts[0].1 && ts[i].2 == ts[0].2
}

/// The elements of `ts`, array after array.
pub open spec fn stacked3<T>(ts: Seq<(nat, nat, nat, Seq<T>)>) -> Seq<T> {
    ts.map_values(|t: (nat, nat, nat, Seq<T>)| t.3).flatten()
}

impl ScrfdHelpers {
    /// Stacks two-dimensional arrays on top of each other. An empty list gives
    /// the empty 0 x 0 array; arrays with differing column counts are refused.
    pub fn concatenate_array2<T: Copy>(arrays: &[Matrix<T>]) -> (r: Result<Matrix<T>, ShapeError>)
        requires
            total_rows(matrix_models(arrays@)) <= usize::MAX,
        ensures
            ({
                let ms = matrix_models(arrays@);
                if ms.len() == 0 {
                    r matches Ok(m) && m@ == (0nat, 0nat, Seq::<T>::empty())
                } else if !same_cols(ms) {
                    r == Err::<Matrix<T>, ShapeError>(ShapeError::IncompatibleShape)
                } else if !fits2(total_rows(ms) as int, ms[0].1 as int) {
                    r == Err::<Matrix<T>, ShapeError>(ShapeError::Overflow)
                } else {
                    r matches Ok(m) && m@ == (total_rows(ms), ms[0].1, stacked2(ms))
                }
            }),
            (match r {
                Ok(m) => Ok(m@),
                Err(e) => Err(e),
            }) == concat2_result(matrix_models(arrays@)),
    {
        let ghost ms = matrix_models(arrays@);
        let n = arrays.len();
        if n == 0 {
            assert(fits2(0, 0));
            assert(0nat * 0nat == 0nat);
            let m = Matrix { rows: 0, cols: 0, data: Vec::new() };
            return Ok(m);
        }
        let cols = arrays[0].cols;
        let mut i: usize = 0;
        while i < n
            invariant
                n == arrays.len(),
                ms == matrix_models(arrays@),
                i <= n,
                cols == ms[0].1,
                forall|k: int| 0 <= k < i ==> (#[trigger] ms[k]).1 == cols,
            decreases n - i,
        {
            if arrays[i].cols != cols {
                assert(ms[i as int].1 != ms[0].1);
                return Err(ShapeError::IncompatibleShape);
            }
            i = i + 1;
        }
        let mut total: usize = 0;
        let mut data: Vec<T> = Vec::new();
        let mut i: usize = 0;
        while i < n
            invariant
                n == arrays.len(),
                ms == matrix_models(arrays@),
                same_cols(ms),
                cols == ms[0].1,
                total_rows(ms) <= usize::MAX,
                i <= n,
                total == total_rows(ms.take(i as int)),
                data@ == stacked2(ms.take(i as int)),
                data@.len() == total * cols,
            decreases n - i,
        {
            let a = &arrays[i];
            proof {
                use_type_invariant(a);
                assert(ms.take(i + 1).drop_last() =~= ms.take(i as int));
                lemma_total_rows_prefix(ms, i + 1);
            }
            let mut k: usize = 0;
            let ghost start = data@;
            while k < a.data.len()
                invariant
                    k <= a.data.len(),
                    data@ == start + a.data@.take(k as int),
                decreases a.data.len() - k,
            {
                data.push(a.data[k]);
                proof {
                    assert(a.data@.take(k + 1) =~= a.data@.take(k as int).push(a.data@[k as int]));
                }
                k = k + 1;
            }
            proof {
                let ds = ms.map_values(|m: (nat, nat, Seq<T>)| m.2);
                assert(ms.take(i + 1).map_values(|m: (nat, nat, Seq<T>)| m.2) =~= ms.take(i as int).map_values(
                    |m: (nat, nat, Seq<T>)| m.2,
                ).push(a.data@));
                ms.take(i as int).map_values(|m: (nat, nat, Seq<T>)| m.2).lemma_flatten_push(a.data@);
                assert(a.data@.take(a.data@.len() as int) =~= a.data@);
                assert(ms[i as int].1 == cols);
                assert((total + a.rows) * cols == total * cols + a.rows * cols) by (nonlinear_arith);
            }
            total = total + a.rows;
            i = i + 1;
        }
        proof {
            assert(ms.take(n as int) =~= ms);
        }
        if !shape_size_ok(&[total, cols]) {
            return Err(ShapeError::Overflow);
        }
        Ok(Matrix { rows: total, cols, data })
    }

    /// Stacks three-dimensional arrays along their first axis. An empty list
    /// gives the empty 0 x 0 x 0 array; arrays that differ in their second or
    /// third length are refused.
    pub fn concatenate_array3<T: Copy>(arrays: &[Tensor3<T>]) -> (r: Result<Tensor3<T>, ShapeError>)
        requires
            total_depth(tensor_models(arrays@)) <= usize::MAX,
        ensures
            ({
                let ts = tensor_models(arrays@);
                if ts.len() == 0 {
                    r matches Ok(t) && t@ == (0nat, 0nat, 0nat, Seq::<T>::empty())
                } else if !same_tail(ts) {
                    r == Err::<Tensor3<T>, ShapeError>(ShapeError::IncompatibleShape)
                } else if !fits3(total_depth(ts) as int, ts[0].1 as int, ts[0].2 as int) {
                    r == Err::<Tensor3<T>, ShapeError>(ShapeError::Overflow)
                } else {
                    r matches Ok(t) && t@ == (total_depth(ts), ts[0].1, ts[0].2, stacked3(ts))
                }
            }),
    {
        let ghost ts = tensor_models(arrays@);
        let n = arrays.len();
        if n == 0 {
            assert(fits3(0, 0, 0));
            assert(0nat * 0nat * 0nat == 0nat);
            return Ok(Tensor3 { d0: 0, d1: 0, d2: 0, data: Vec::new() });
        }
        let d1 = arrays[0].d1;
        let d2 = arrays[0].d2;
        let mut i: usize = 0;
        while i < n
            invariant
                n == arrays.len(),
                ts == tensor_models(arrays@),
                i <= n,
                d1 == ts[0].1,
                d2 == ts[0].2,
                forall|k: int| 0 <= k < i ==> (#[trigger] ts[k]).1 == d1 && ts[k].2 == d2,
            decreases n - i,
        {
            if arrays[i].d1 != d1 || arrays[i].d2 != d2 {
                assert(ts[i as int].1 != ts[0].1 || ts[i as int].2 != ts[0].2);
                return Err(ShapeError::IncompatibleShape);
            }
            i = i + 1;
        }
        let mut total: usize = 0;
        let mut data: Vec<T> = Vec::new();
        let mut i: usize = 0;
        while i < n
            invariant
                n == arrays.len(),
                ts == tensor_models(arrays@),
                same_tail(ts),
                d1 == ts[0].1,
                d2 == ts[0].2,
                total_depth(ts) <= usize::MAX,
                i <= n,
                total == total_depth(ts.take(i as int)),
                data@ == stacked3(ts.take(i as int)),
                data@.len() == total * d1 * d2,
            decreases n - i,
        {
            let a = &arrays[i];
            proof {
                use_type_invariant(a);
                assert(ts.take(i + 1).drop_last() =~= ts.take(i as int));
                lemma_total_depth_prefix(ts, i + 1);
            }
            let mut k: usize = 0;
            let ghost start = data@;
            while k < a.data.len()
                invariant
                    k <= a.data.len(),
                    data@ == start + a.data@.take(k as int),
                decreases a.data.len() - k,
            {
                data.push(a.data[k]);
                proof {
                    assert(a.data@.take(k + 1) =~= a.data@.take(k as int).push(a.data@[k as int]));
                }
                k = k + 1;
            }
            proof {
                assert(ts.take(i + 1).map_values(|t: (nat, nat, nat, Seq<T>)| t.3) =~= ts.take(i as int).map_values(
                    |t: (nat, nat, nat, Seq<T>)| t.3,
                ).push(a.data@));
                ts.take(i as int).map_values(|t: (nat, nat, nat, Seq<T>)| t.3).lemma_flatten_push(a.data@);
                assert(a.data@.take(a.data@.len() as int) =~= a.data@);
                assert(ts[i as int].1 == d1 && ts[i as int].2 == d2);
                assert((total + a.d0) * d1 * d2 == total * d1 * d2 + a.d0 * d1 * d2) by (nonlinear_arith);
            }
            total = total + a.d0;
            i = i + 1;
        }
        proof {
            assert(ts.take(n as int) =~= ts);
        }
        if !shape_size_ok(&[total, d1, d2]) {
            return Err(ShapeError::Overflow);
        }
        Ok(Tensor3 { d0: total, d1, d2, data })
    }
}

proof fn lemma_total_rows_concat<T>(a: Seq<(nat, nat, Seq<T>)>, b: Seq<(nat, nat, Seq<T>)>)
    ensures
        total_rows(a + b) == total_rows(a) + total_rows(b),
    decreases b.len(),
{
    if b.len() > 0 {
        lemma_total_rows_concat(a, b.drop_last());
        assert((a + b).drop_last() =~= a + b.drop_last());
    } else {
        assert(a + b =~= a);
    }
}

proof fn lemma_stacked2_concat<T>(a: Seq<(nat, nat, Seq<T>)>, b: Seq<(nat, nat, Seq<T>)>)
    ensures
        stacked2(a + b) == stacked2(a) + stacked2(b),
{
    let f = |m: (nat, nat, Seq<T>)| m.2;
    assert((a + b).map_values(f) =~= a.map_values(f) + b.map_values(f));
    vstd::seq_lib::lemma_flatten_concat(a.map_values(f), b.map_values(f));
}

/// Stacking is associative: stacking the stack of `a` on the stack of `b`
/// gives what stacking all of `a` and then all of `b` gives, result or refusal.
pub proof fn lemma_concatenate_array2_associative<T>(a: Seq<(nat, nat, Seq<T>)>, b: Seq<(nat, nat, Seq<T>)>)
    requires
        a.len() > 0,
        b.len() > 0,
        concat2_result(a) is Ok,
        concat2_result(b) is Ok,
    ensures
        concat2_result(seq![concat2_result(a)->Ok_0, concat2_result(b)->Ok_0]) == concat2_result(a + b),
{
    let ra = concat2_result(a)->Ok_0;
    let rb = concat2_result(b)->Ok_0;
    let pair = seq![ra, rb];
    let ab = a + b;
    lemma_total_rows_concat(a, b);
    lemma_stacked2_concat(a, b);
    assert(pair.drop_last() =~= seq![ra]);
    assert(seq![ra].drop_last() =~= Seq::<(nat, nat, Seq<T>)>::empty());
    assert(total_rows(Seq::<(nat, nat, Seq<T>)>::empty()) == 0);
    assert(seq![ra].last() == ra);
    assert(total_rows(seq![ra]) == ra.0);
    assert(pair.last() == rb);
    assert(total_rows(pair) == ra.0 + rb.0);
    let f = |m: (nat, nat, Seq<T>)| m.2;
    assert(pair.map_values(f) =~= seq![ra.2].push(rb.2));
    assert(seq![ra.2] =~= Seq::<Seq<T>>::empty().push(ra.2));
    Seq::<Seq<T>>::empty().lemma_flatten_push(ra.2);
    seq![ra.2].lemma_flatten_push(rb.2);
    assert(stacked2(pair) == ra.2 + rb.2);
    assert(ab[0] == a[0]);
    if same_cols(ab) {
        assert(b[0] == ab[a.len() as int]);
        assert(same_cols(pair));
    } else {
        let i = choose|i: int| 0 <= i < ab.len() && (#[trigger] ab[i]).1 != ab[0].1;
        if i >= a.len() {
            assert(b[i - a.len()] == ab[i]);
            assert(rb.1 != ra.1);
            assert(!same_cols(pair)) by {
                assert(pair[1].1 != pair[0].1);
            }
        } else {
            assert(a[i] == ab[i]);
        }
    }
}

/// The row total of a prefix grows by the rows of the next matrix and stays
/// below the full total.
proof fn lemma_total_rows_prefix<T>(ms: Seq<(nat, nat, Seq<T>)>, i: int)
    requires
        0 < i <= ms.len(),
    ensures
        total_rows(ms.take(i)) == total_rows(ms.take(i - 1)) + ms[i - 1].0,
        total_rows(ms.take(i)) <= total_rows(ms),
    decreases ms.len() - i,
{
    assert(ms.take(i).drop_last() =~= ms.take(i - 1));
    if i < ms.len() {
        lemma_total_rows_prefix(ms, i + 1);
    } else {
        assert(ms.take(i) =~= ms);
    }
}

/// The depth total of a prefix grows by the depth of the next array and stays
/// below the full total.
proof fn lemma_total_depth_prefix<T>(ts: Seq<(nat, nat, nat, Seq<T>)>, i: int)
    requires
        0 < i <= ts.len(),
    ensures
        total_depth(ts.take(i)) == total_depth(ts.take(i - 1)) + ts[i - 1].0,
        total_depth(ts.take(i)) <= total_depth(ts),
    decreases ts.len() - i,
{
    assert(ts.take(i).drop_last() =~= ts.take(i - 1));
    if i < ts.len() {
        lemma_total_depth_prefix(ts, i + 1);
    } else {
        assert(ts.take(i) =~= ts);
    }
}

/// Position of element `q` of block `b` when blocks of `block` elements are
/// laid end to end.
pub open spec fn flat_index(b: int, block: int, q: int) -> int {
    b * block + q
}

/// `dst` is made of the `block`-sized blocks of `src` listed by `inds`, in that order.
pub open spec fn selects_blocks<T>(src: Seq<T>, block: nat, inds: Seq<usize>, dst: Seq<T>) -> bool {
    &&& dst.len() == inds.len() * block
    &&& forall|t: int, q: int|
        0 <= t < inds.len() && 0 <= q < block ==> #[trigger] dst[flat_index(t, block as int, q)] == src[flat_index(
            inds[t] as int,
            block as int,
            q,
        )]
}

/// `dst` holds the rows of matrix `src` listed by `inds`, in that order.
pub open spec fn is_row_selection<T>(src: (nat, nat, Seq<T>), inds: Seq<usize>, dst: (nat, nat, Seq<T>)) -> bool {
    &&& forall|t: int| 0 <= t < inds.len() ==> #[trigger] inds[t] < src.0
    &&& dst.0 == inds.len()
    &&& dst.1 == src.1
    &&& selects_blocks(src.2, src.1, inds, dst.2)
}

/// `dst` holds the slices of `src` along its first axis listed by `inds`, in that order.
pub open spec fn is_slice_selection<T>(
    src: (nat, nat, nat, Seq<T>),
    inds: Seq<usize>,
    dst: (nat, nat, nat, Seq<T>),
) -> bool {
    &&& forall|t: int| 0 <= t < inds.len() ==> #[trigger] inds[t] < src.0
    &&& dst.0 == inds.len()
    &&& dst.1 == src.1
    &&& dst.2 == src.2
    &&& selects_blocks(src.3, src.1 * src.2, inds, dst.3)
}

/// Index `b` applied after index `a`: `a[b[t]]` for every `t`.
pub open spec fn compose_indices(a: Seq<usize>, b: Seq<usize>) -> Seq<usize> {
    b.map_values(|i: usize| a[i as int])
}

proof fn lemma_block_bound(b: int, n: int, block: int, q: int)
    requires
        0 <= b < n,
        0 <= q < block,
    ensures
        0 <= flat_index(b, block, q) < n * block,
        flat_index(b, block, q) + 1 <= (b + 1) * block,
{
    assert(0 <= b * block + q < n * block) by (nonlinear_arith)
        requires 0 <= b < n, 0 <= q < block;
    assert(b * block + q + 1 <= (b + 1) * block) by (nonlinear_arith)
        requires 0 <= q < block;
}

/// Copies the blocks of `src` listed by `inds`.
fn select_blocks<T: Copy>(src: &Vec<T>, block: usize, nblocks: usize, inds: &[usize]) -> (dst: Vec<T>)
    requires
        src.len() == nblocks * block,
        forall|t: int| 0 <= t < inds.len() ==> #[trigger] inds[t] < nblocks,
        inds.len() * block <= usize::MAX,
    ensures
        selects_blocks(src@, block as nat, inds@, dst@),
{
    let mut dst: Vec<T> = Vec::new();
    let mut t: usize = 0;
    assert(0 * block == 0) by (nonlinear_arith);
    while t < inds.len()
        invariant
            src.len() == nblocks * block,
            forall|k: int| 0 <= k < inds.len() ==> #[trigger] inds[k] < nblocks,
            inds.len() * block <= usize::MAX,
            t <= inds.len(),
            dst.len() == t * block,
            forall|tt: int, q: int|
                0 <= tt < t && 0 <= q < block ==> #[trigger] dst@[flat_index(tt, block as int, q)] == src@[flat_index(
                    inds[tt] as int,
                    block as int,
                    q,
                )],
        decreases inds.len() - t,
    {
        let b = inds[t];
        let mut q: usize = 0;
        proof {
            assert(t * block + block == (t + 1) * block) by (nonlinear_arith);
            assert((t + 1) * block <= inds.len() * block) by (nonlinear_arith)
                requires t < inds.len(), block >= 0;
        }
        while q < block
            invariant
                src.len() == nblocks * block,
                b < nblocks,
                b == inds[t as int],
                t < inds.len(),
                (t + 1) * block <= usize::MAX,
                t * block + block == (t + 1) * block,
                q <= block,
                dst.len() == t * block + q,
                forall|tt: int, qq: int|
                    (0 <= tt < t && 0 <= qq < block) || (tt == t && 0 <= qq < q) ==> #[trigger] dst@[flat_index(
                        tt,
                        block as int,
                        qq,
                    )] == src@[flat_index(inds[tt] as int, block as int, qq)],
            decreases block - q,
        {
            proof {
                lemma_block_bound(b as int, nblocks as int, block as int, q as int);
            }
            let x = src[b * block + q];
            let ghost before = dst@;
            dst.push(x);
            proof {
                assert forall|tt: int, qq: int|
                    (0 <= tt < t && 0 <= qq < block) || (tt == t && 0 <= qq < q + 1) implies #[trigger] dst@[flat_index(
                        tt,
                        block as int,
                        qq,
                    )] == src@[flat_index(inds[tt] as int, block as int, qq)] by {
                    if tt < t {
                        lemma_block_bound(tt, t as int, block as int, qq);
                        assert(t * block <= t * block + q);
                    }
                    if !(tt == t && qq == q) {
                        assert(dst@[flat_index(tt, block as int, qq)] == before[flat_index(tt, block as int, qq)]);
                    }
                }
            }
            q = q + 1;
        }
        t = t + 1;
    }
    dst
}

/// Selecting rows by `a`, then by `b`, selects them by `a[b[t]]`.
pub proof fn lemma_row_selection_composes<T>(
    src: (nat, nat, Seq<T>),
    a: Seq<usize>,
    mid: (nat, nat, Seq<T>),
    b: Seq<usize>,
    dst: (nat, nat, Seq<T>),
)
    requires
        is_row_selection(src, a, mid),
        is_row_selection(mid, b, dst),
    ensures
        is_row_selection(src, compose_indices(a, b), dst),
{
    let c = compose_indices(a, b);
    assert forall|t: int| 0 <= t < c.len() implies #[trigger] c[t] < src.0 by {
        assert(b[t] < mid.0);
    }
    assert forall|t: int, q: int| 0 <= t < c.len() && 0 <= q < src.1 implies #[trigger] dst.2[flat_index(
        t,
        src.1 as int,
        q,
    )] == src.2[flat_index(c[t] as int, src.1 as int, q)] by {
        assert(b[t] < mid.0);
        assert(mid.2[flat_index(b[t] as int, mid.1 as int, q)] == src.2[flat_index(a[b[t] as int] as int, src.1 as int, q)]);
    }
}

/// Selecting slices by `a`, then by `b`, selects them by `a[b[t]]`.
pub proof fn lemma_slice_selection_composes<T>(
    src: (nat, nat, nat, Seq<T>),
    a: Seq<usize>,
    mid: (nat, nat, nat, Seq<T>),
    b: Seq<usize>,
    dst: (nat, nat, nat, Seq<T>),
)
    requires
        is_slice_selection(src, a, mid),
        is_slice_selection(mid, b, dst),
    ensures
        is_slice_selection(src, compose_indices(a, b), dst),
{
    let c = compose_indices(a, b);
    let block = src.1 * src.2;
    assert forall|t: int| 0 <= t < c.len() implies #[trigger] c[t] < src.0 by {
        assert(b[t] < mid.0);
    }
    assert forall|t: int, q: int| 0 <= t < c.len() && 0 <= q < block implies #[trigger] dst.3[flat_index(
        t,
        block as int,
        q,
    )] == src.3[flat_index(c[t] as int, block as int, q)] by {
        assert(b[t] < mid.0);
        assert(mid.3[flat_index(b[t] as int, block as int, q)] == src.3[flat_index(a[b[t] as int] as int, block as int, q)]);
    }
}

impl<T: Copy> Matrix<T> {
    /// The rows listed by `indices`, in that order (an index may repeat).
    pub fn select_rows(&self, indices: &[usize]) -> (r: Matrix<T>)
        requires
            forall|t: int| 0 <= t < indices.len() ==> #[trigger] indices[t] < self@.0,
            fits2(indices.len() as int, self@.1 as int),
        ensures
            is_row_selection(self@, indices@, r@),
    {
        proof {
            use_type_invariant(self);
            assert(indices.len() * self.cols <= nonzero_len(indices.len() as int) * nonzero_len(self.cols as int))
                by (nonlinear_arith)
                requires indices.len() >= 0, self.cols >= 0;
        }
        let data = select_blocks(&self.data, self.cols, self.rows, indices);
        Matrix { rows: indices.len(), cols: self.cols, data }
    }
}

impl<T: Copy> Tensor3<T> {
    /// The slices along the first axis listed by `indices`, in that order.
    pub fn select_rows(&self, indices: &[usize]) -> (r: Tensor3<T>)
        requires
            forall|t: int| 0 <= t < indices.len() ==> #[trigger] indices[t] < self@.0,
            fits3(indices.len() as int, self@.1 as int, self@.2 as int),
        ensures
            is_slice_selection(self@, indices@, r@),
    {
        proof {
            use_type_invariant(self);
            assert(self.d1 * self.d2 <= nonzero_len(self.d0 as int) * nonzero_len(self.d1 as int) * nonzero_len(self.d2 as int))
                by (nonlinear_arith)
                requires self.d0 >= 0, self.d1 >= 0, self.d2 >= 0;
            assert(indices.len() * self.d1 * self.d2 <= nonzero_len(indices.len() as int) * nonzero_len(self.d1 as int) * nonzero_len(self.d2 as int))
                by (nonlinear_arith)
                requires indices.len() >= 0, self.d1 >= 0, self.d2 >= 0;
            assert(self.d0 * self.d1 * self.d2 == self.d0 * (self.d1 * self.d2)) by (nonlinear_arith);
            assert(indices.len() * self.d1 * self.d2 == indices.len() * (self.d1 * self.d2)) by (nonlinear_arith);
        }
        let block: usize = self.d1 * self.d2;
        let data = select_blocks(&self.data, block, self.d0, indices);
        Tensor3 { d0: indices.len(), d1: self.d1, d2: self.d2, data }
    }
}

/// `m` is `a` and `b` side by side: each row of `m` is the row of `a`
/// followed by the row of `b`.
pub open spec fn is_side_by_side<T>(a: (nat, nat, Seq<T>), b: (nat, nat, Seq<T>), m: (nat, nat, Seq<T>)) -> bool {
    &&& m.0 == a.0
    &&& m.1 == a.1 + b.1
    &&& m.2.len() == m.0 * m.1
    &&& forall|r: int, c: int|
        0 <= r < a.0 && 0 <= c < a.1 ==> #[trigger] m.2[flat_index(r, m.1 as int, c)] == a.2[flat_index(r, a.1 as int, c)]
    &&& forall|r: int, c: int|
        0 <= r < a.0 && 0 <= c < b.1 ==> #[trigger] m.2[flat_index(r, m.1 as int, a.1 + c)] == b.2[flat_index(
            r,
            b.1 as int,
            c,
        )]
}

proof fn lemma_row_prefix_bound(r: int, w: int, c: int, rows: int)
    requires
        0 <= r < rows,
        0 <= c <= w,
    ensures
        r * w + c <= rows * w,
        r * w + w == (r + 1) * w,
{
    assert(r * w + c <= rows * w) by (nonlinear_arith)
        requires 0 <= r < rows, 0 <= c <= w;
    assert(r * w + w == (r + 1) * w) by (nonlinear_arith);
}

impl ScrfdHelpers {
    /// Joins two matrices with the same number of rows side by side (the
    /// detector puts each box next to its score this way).
    pub fn concatenate_columns<T: Copy>(a: &Matrix<T>, b: &Matrix<T>) -> (r: Result<Matrix<T>, ShapeError>)
        requires
            a@.1 + b@.1 <= usize::MAX,
        ensures
            if a@.0 != b@.0 {
                r == Err::<Matrix<T>, ShapeError>(ShapeError::IncompatibleShape)
            } else if !fits2(a@.0 as int, (a@.1 + b@.1) as int) {
                r == Err::<Matrix<T>, ShapeError>(ShapeError::Overflow)
            } else {
                r matches Ok(m) && is_side_by_side(a@, b@, m@)
            },
    {
        proof {
            use_type_invariant(a);
            use_type_invariant(b);
        }
        if a.rows != b.rows {
            return Err(ShapeError::IncompatibleShape);
        }
        let rows = a.rows;
        let w: usize = a.cols + b.cols;
        if !shape_size_ok(&[rows, w]) {
            return Err(ShapeError::Overflow);
        }
        proof {
            assert(rows * w <= nonzero_len(rows as int) * nonzero_len(w as int)) by (nonlinear_arith)
                requires rows >= 0, w >= 0;
            assert(0 * w == 0) by (nonlinear_arith);
        }
        let ac = a.cols;
        let bc = b.cols;
        let mut data: Vec<T> = Vec::new();
        let mut r: usize = 0;
        while r < rows
            invariant
                rows == a@.0 && rows == b@.0,
                ac == a@.1 && bc == b@.1,
                w == ac + bc,
                a@.2.len() == rows * ac,
                b@.2.len() == rows * bc,
                rows * w <= usize::MAX,
                r <= rows,
                data.len() == r * w,
                forall|rr: int, c: int|
                    0 <= rr < r && 0 <= c < ac ==> #[trigger] data@[flat_index(rr, w as int, c)] == a@.2[flat_index(rr, ac as int, c)],
                forall|rr: int, c: int|
                    0 <= rr < r && 0 <= c < bc ==> #[trigger] data@[flat_index(rr, w as int, ac + c)] == b@.2[flat_index(rr, bc as int, c)],
            decreases rows - r,
        {
            proof {
                lemma_row_prefix_bound(r as int, w as int, w as int, rows as int);
            }
            let ghost row_start = data@;
            let mut c: usize = 0;
            while c < w
                invariant
                    rows == a@.0 && rows == b@.0,
                    ac == a@.1 && bc == b@.1,
                    w == ac + bc,
                    a@.2.len() == rows * ac,
                    b@.2.len() == rows * bc,
                    r < rows,
                    (r + 1) * w <= usize::MAX,
                    r * w + w == (r + 1) * w,
                    c <= w,
                    data.len() == r * w + c,
                    data@.take(r * w) == row_start,
                    row_start.len() == r * w,
                    forall|cc: int| 0 <= cc < c && cc < ac ==> #[trigger] data@[flat_index(r as int, w as int, cc)] == a@.2[flat_index(r as int, ac as int, cc)],
                    forall|cc: int| ac <= cc < c ==> #[trigger] data@[flat_index(r as int, w as int, cc)] == b@.2[flat_index(r as int, bc as int, cc - ac)],
                decreases w - c,
            {
                let x = if c < ac {
                    proof {
                        lemma_block_bound(r as int, rows as int, ac as int, c as int);
                        assert(a.data@.len() == rows * ac);
                        assert(r * ac <= r * ac + c < a.data.len());
                    }
                    a.data[r * ac + c]
                } else {
                    proof {
                        lemma_block_bound(r as int, rows as int, bc as int, (c - ac) as int);
                        assert(b.data@.len() == rows * bc);
                        assert(r * bc <= r * bc + (c - ac) < b.data.len());
                    }
                    b.data[r * bc + (c - ac)]
                };
                let ghost before = data@;
                data.push(x);
                proof {
                    assert(data@.take(r * w) =~= before.take(r * w));
                    assert forall|cc: int| 0 <= cc < c + 1 && cc < ac implies #[trigger] data@[flat_index(r as int, w as int, cc)] == a@.2[flat_index(r as int, ac as int, cc)] by {
                        if cc < c {
                            assert(data@[flat_index(r as int, w as int, cc)] == before[flat_index(r as int, w as int, cc)]);
                        }
                    }
                    assert forall|cc: int| ac <= cc < c + 1 implies #[trigger] data@[flat_index(r as int, w as int, cc)] == b@.2[flat_index(r as int, bc as int, cc - ac)] by {
                        if cc < c {
                            assert(data@[flat_index(r as int, w as int, cc)] == before[flat_index(r as int, w as int, cc)]);
                        }
                    }
                }
                c = c + 1;
            }
            proof {
                assert forall|rr: int, cc: int|
                    0 <= rr < r + 1 && 0 <= cc < ac implies #[trigger] data@[flat_index(rr, w as int, cc)] == a@.2[flat_index(rr, ac as int, cc)] by {
                    if rr < r {
                        lemma_block_bound(rr, r as int, w as int, cc);
                        assert(data@.take(r * w)[flat_index(rr, w as int, cc)] == row_start[flat_index(rr, w as int, cc)]);
                    }
                }
                assert forall|rr: int, cc: int|
                    0 <= rr < r + 1 && 0 <= cc < bc implies #[trigger] data@[flat_index(rr, w as int, ac + cc)] == b@.2[flat_index(rr, bc as int, cc)] by {
                    if rr < r {
                        lemma_block_bound(rr, r as int, w as int, ac + cc);
                        assert(data@.take(r * w)[flat_index(rr, w as int, ac + cc)] == row_start[flat_index(rr, w as int, ac + cc)]);
                    } else {
                        assert(data@[flat_index(r as int, w as int, ac + cc)] == b@.2[flat_index(r as int, bc as int, (ac + cc) - ac)]);
                    }
                }
            }
            r = r + 1;
        }
        Ok(Matrix { rows, cols: w, data })
    }
}

proof fn lemma_fewer_rows_fit(n: int, rows: int, c: int)
    requires
        0 <= n <= rows,
        c >= 0,
        fits2(rows, c),
    ensures
        fits2(n, c),
{
    assert(nonzero_len(n) * nonzero_len(c) <= nonzero_len(rows) * nonzero_len(c)) by (nonlinear_arith)
        requires 1 <= nonzero_len(n) <= nonzero_len(rows), nonzero_len(c) >= 1;
}

proof fn lemma_fewer_slices_fit(n: int, d0: int, d1: int, d2: int)
    requires
        0 <= n <= d0,
        d1 >= 0,
        d2 >= 0,
        fits3(d0, d1, d2),
    ensures
        fits3(n, d1, d2),
{
    assert(nonzero_len(n) * nonzero_len(d1) * nonzero_len(d2) <= nonzero_len(d0) * nonzero_len(d1) * nonzero_len(d2))
        by (nonlinear_arith)
        requires 1 <= nonzero_len(n) <= nonzero_len(d0), nonzero_len(d1) >= 1, nonzero_len(d2) >= 1;
}

impl ScrfdHelpers {
    /// The rows of one pyramid level whose flag is set (a score above the
    /// confidence threshold): the positive indices, and the scores, boxes and
    /// keypoints selected by that same index list.
    pub fn select_positive_rows<T: Copy>(
        flags: &Vec<bool>,
        scores: &Matrix<T>,
        bboxes: &Matrix<T>,
        kpss: &Tensor3<T>,
    ) -> (r: (Vec<usize>, Matrix<T>, Matrix<T>, Tensor3<T>))
        requires
            flags.len() <= scores@.0,
            flags.len() <= bboxes@.0,
            flags.len() <= kpss@.0,
        ensures
            crate::detection::is_positive_index_list(flags@, r.0@),
            is_row_selection(scores@, r.0@, r.1@),
            is_row_selection(bboxes@, r.0@, r.2@),
            is_slice_selection(kpss@, r.0@, r.3@),
    {
        proof {
            use_type_invariant(scores);
            use_type_invariant(bboxes);
            use_type_invariant(kpss);
        }
        let inds = Self::positive_indices(flags);
        proof {
            // A strictly increasing list of positions below `flags.len()` is no longer than it.
            lemma_increasing_bounded_len(inds@, flags.len() as int);
            lemma_fewer_rows_fit(inds.len() as int, scores.rows as int, scores.cols as int);
            lemma_fewer_rows_fit(inds.len() as int, bboxes.rows as int, bboxes.cols as int);
            lemma_fewer_slices_fit(inds.len() as int, kpss.d0 as int, kpss.d1 as int, kpss.d2 as int);
        }
        let s = scores.select_rows(inds.as_slice());
        let b = bboxes.select_rows(inds.as_slice());
        let k = kpss.select_rows(inds.as_slice());
        (inds, s, b, k)
    }
}

proof fn lemma_increasing_bounded_len(s: Seq<usize>, bound: int)
    requires
        bound >= 0,
        forall|t: int| 0 <= t < s.len() ==> #[trigger] s[t] < bound,
        forall|t: int, u: int| 0 <= t < u < s.len() ==> #[trigger] s[t] < #[trigger] s[u],
    ensures
        s.len() <= bound,
    decreases s.len(),
{
    if s.len() > 0 {
        let d = s.drop_last();
        assert forall|t: int| 0 <= t < d.len() implies #[trigger] d[t] < s.last() by {
            assert(s[t] < s[s.len() - 1]);
        }
        lemma_increasing_bounded_len(d, s.last() as int);
        assert(s[s.len() - 1] < bound);
    }
}

} // verus!
