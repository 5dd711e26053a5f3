use vstd::prelude::*;
use vstd::std_specs::ops::{AddSpec, MulSpec};
use core::ops::{Add, Mul};
use crate::matrix::{Matrix, MatrixError};

verus! {

/// One accumulation step: `acc + x * y`, the product rounded first.
pub open spec fn mul_acc<T: Add<Output = T> + Mul<Output = T>>(acc: T, x: T, y: T) -> T {
    acc.add_spec(x.mul_spec(y))
}

/// Starting from `acc`, adds `a[i][t] * b[t][j]` for `t = lo, lo + 1, ..,
/// hi - 1`, one term after the other in that order.
pub open spec fn accumulate<T: Add<Output = T> + Mul<Output = T>>(
    a: Matrix<T>,
    b: Matrix<T>,
    i: int,
    j: int,
    acc: T,
    lo: int,
    hi: int,
) -> T
    decreases hi - lo,
{
    if hi <= lo {
        acc
    } else {
        mul_acc(accumulate(a, b, i, j, acc, lo, hi - 1), a.cell(i, hi - 1), b.cell(hi - 1, j))
    }
}

/// The step at depth `t` of the sum for cell `(i, j)` that started from `acc`
/// at depth `lo` is one that `*` and `+` accept: the two factors may be
/// multiplied, and the product may be added to the running sum.
pub open spec fn step_allowed<T: Add<Output = T> + Mul<Output = T>>(
    a: Matrix<T>,
    b: Matrix<T>,
    i: int,
    j: int,
    acc: T,
    lo: int,
    t: int,
) -> bool {
    &&& a.cell(i, t).mul_req(b.cell(t, j))
    &&& accumulate(a, b, i, j, acc, lo, t).add_req(a.cell(i, t).mul_spec(b.cell(t, j)))
}

/// `+` and `*` on `T` compute `add_spec` and `mul_spec`.
pub open spec fn arithmetic_specified<T: Add<Output = T> + Mul<Output = T>>() -> bool {
    T::obeys_add_spec() && T::obeys_mul_spec()
}

/// Every step of every cell's sum in the product of `a` and `b` from `zero`
/// is one that `*` and `+` accept. For an element type whose operators accept
/// all operands this always holds; for one whose operators can overflow it
/// says that no step does.
pub open spec fn product_defined<T: Add<Output = T> + Mul<Output = T>>(
    a: Matrix<T>,
    b: Matrix<T>,
    zero: T,
) -> bool {
    &&& arithmetic_specified::<T>()
    &&& forall|i: int, j: int, t: int|
        0 <= i < a.rows && 0 <= j < b.cols && 0 <= t < a.cols ==> #[trigger] step_allowed(
            a,
            b,
            i,
            j,
            zero,
            0,
            t,
        )
}

/// `c` is the product of `a` and `b`: it has `a`'s rows and `b`'s columns, and
/// each cell is the sum over the shared dimension taken in increasing order
/// from `zero`.
pub open spec fn is_product<T: Add<Output = T> + Mul<Output = T>>(
    a: Matrix<T>,
    b: Matrix<T>,
    zero: T,
    c: Matrix<T>,
) -> bool {
    &&& c.wf()
    &&& c.rows == a.rows
    &&& c.cols == b.cols
    &&& forall|i: int, j: int|
        0 <= i < c.rows && 0 <= j < c.cols ==> #[trigger] c.cell(i, j) == accumulate(
            a,
            b,
            i,
            j,
            zero,
            0,
            a.cols as int,
        )
}

/// Accumulating over `[lo, mid)` and then over `[mid, hi)` is accumulating
/// over `[lo, hi)`.
pub proof fn lemma_accumulate_split<T: Add<Output = T> + Mul<Output = T>>(
    a: Matrix<T>,
    b: Matrix<T>,
    i: int,
    j: int,
    acc: T,
    lo: int,
    mid: int,
    hi: int,
)
    requires
        lo <= mid <= hi,
    ensures
        accumulate(a, b, i, j, accumulate(a, b, i, j, acc, lo, mid), mid, hi) == accumulate(
            a,
            b,
            i,
            j,
            acc,
            lo,
            hi,
        ),
    decreases hi - mid,
{
    if mid < hi {
        lemma_accumulate_split(a, b, i, j, acc, lo, mid, hi - 1);
    }
}

/// The serial product: for each output cell, one pass over the shared
/// dimension in increasing order. Fails with `ShapeMismatch` exactly when
/// `a`'s column count differs from `b`'s row count.
pub fn gemm_naive<T>(a: &Matrix<T>, b: &Matrix<T>, zero: T) -> (r: Result<Matrix<T>, MatrixError>)
    where T: Copy + Add<Output = T> + Mul<Output = T>
    requires
        a.wf(),
        b.wf(),
        a.cols == b.rows ==> a.rows * b.cols <= usize::MAX,
        a.cols == b.rows ==> product_defined(*a, *b, zero),
    ensures
        a.cols != b.rows <==> r is Err,
        r is Err ==> r == Err::<Matrix<T>, MatrixError>(MatrixError::ShapeMismatch),
        r is Ok ==> is_product(*a, *b, zero, r->Ok_0),
{
    if a.cols != b.rows {
        return Err(MatrixError::ShapeMismatch);
    }
    let m: usize = a.rows;
    let n: usize = b.cols;
    let k: usize = a.cols;
    let mut c = Matrix::new(m, n, zero);
    let mut i: usize = 0;
    while i < m
        invariant
            a.wf(),
            b.wf(),
            c.wf(),
            product_defined(*a, *b, zero),
            m == a.rows,
            k == a.cols,
            k == b.rows,
            n == b.cols,
            c.rows == m,
            c.cols == n,
            i <= m,
            forall|i2: int, j2: int|
                0 <= i2 < i && 0 <= j2 < n ==> #[trigger] c.cell(i2, j2) == accumulate(
                    *a,
                    *b,
                    i2,
                    j2,
                    zero,
                    0,
                    k as int,
                ),
        decreases m - i,
    {
        let mut j: usize = 0;
        while j < n
            invariant
                a.wf(),
                b.wf(),
                c.wf(),
                product_defined(*a, *b, zero),
                m == a.rows,
                k == a.cols,
                k == b.rows,
                n == b.cols,
                c.rows == m,
                c.cols == n,
                i < m,
                j <= n,
                forall|i2: int, j2: int|
                    0 <= i2 < m && 0 <= j2 < n && (i2 < i || (i2 == i && j2 < j))
                        ==> #[trigger] c.cell(i2, j2) == accumulate(
                        *a,
                        *b,
                        i2,
                        j2,
                        zero,
                        0,
                        k as int,
                    ),
            decreases n - j,
        {
            let mut sum: T = zero;
            let mut t: usize = 0;
            while t < k
                invariant
                    a.wf(),
                    b.wf(),
                    product_defined(*a, *b, zero),
                    k == a.cols,
                    k == b.rows,
                    n == b.cols,
                    i < a.rows,
                    j < n,
                    t <= k,
                    sum == accumulate(*a, *b, i as int, j as int, zero, 0, t as int),
                decreases k - t,
            {
                assert(step_allowed(*a, *b, i as int, j as int, zero, 0, t as int));
                sum = sum + a.get(i, t) * b.get(t, j);
                t += 1;
            }
            c.set(i, j, sum);
            j += 1;
        }
        i += 1;
    }
    Ok(c)
}

} // verus!
