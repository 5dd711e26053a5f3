use vstd::prelude::*;
use core::ops::Index;

verus! {

/// Why a matrix could not be built or two matrices could not be multiplied.
#[derive(Debug, Clone, Copy, PartialEq, Eq, Structural)]
pub enum MatrixError {
    /// The left operand's column count differs from the right operand's row count.
    ShapeMismatch,
    /// The number of supplied elements differs from `rows * cols`.
    DataLengthMismatch,
}

/// A dense matrix stored row by row in one flat vector.
#[derive(Clone, Debug)]
pub struct Matrix<T> {
    pub rows: usize,
    pub cols: usize,
    pub data: Vec<T>,
}

/// The element of a row-major store with `n` columns at row `i`, column `j`.
pub open spec fn at<T>(s: Seq<T>, n: int, i: int, j: int) -> T {
    s[i * n + j]
}

/// A cell inside a `rows` by `n` grid has a flat index inside the store.
pub proof fn lemma_flat_index(rows: int, n: int, i: int, j: int)
    requires
        0 <= i < rows,
        0 <= j < n,
    ensures
        0 <= i * n + j < rows * n,
        0 <= i * n <= rows * n,
{
    assert((i + 1) * n <= rows * n) by (nonlinear_arith)
        requires
            i + 1 <= rows,
            0 <= n,
    ;
    assert((i + 1) * n == i * n + n) by (nonlinear_arith);
    assert(0 <= i * n) by (nonlinear_arith)
        requires
            0 <= i,
            0 <= n,
    ;
}

/// Row `i` of a `rows` by `n` grid starts inside the store.
pub proof fn lemma_row_offset(rows: int, n: int, i: int)
    requires
        0 <= i < rows,
        0 <= n,
    ensures
        0 <= i * n,
        i * n + n <= rows * n,
{
    assert((i + 1) * n <= rows * n) by (nonlinear_arith)
        requires
            i + 1 <= rows,
            0 <= n,
    ;
    assert((i + 1) * n == i * n + n) by (nonlinear_arith);
    assert(0 <= i * n) by (nonlinear_arith)
        requires
            0 <= i,
            0 <= n,
    ;
}

/// Two cells with the same flat index are the same cell.
pub proof fn lemma_flat_injective(n: int, i1: int, j1: int, i2: int, j2: int)
    requires
        0 <= j1 < n,
        0 <= j2 < n,
        i1 * n + j1 == i2 * n + j2,
    ensures
        i1 == i2,
        j1 == j2,
{
    if i1 < i2 {
        assert((i1 + 1) * n <= i2 * n) by (nonlinear_arith)
            requires
                i1 + 1 <= i2,
                0 <= n,
        ;
        assert((i1 + 1) * n == i1 * n + n) by (nonlinear_arith);
    } else if i2 < i1 {
        assert((i2 + 1) * n <= i1 * n) by (nonlinear_arith)
            requires
                i2 + 1 <= i1,
                0 <= n,
        ;
        assert((i2 + 1) * n == i2 * n + n) by (nonlinear_arith);
    }
}

impl<T> Matrix<T> {
    /// The backing store holds exactly `rows * cols` elements, a count that
    /// fits the machine.
    pub open spec fn wf(&self) -> bool {
        &&& self.data@.len() == self.rows * self.cols
        &&& self.rows * self.cols <= usize::MAX
    }

    /// The element at row `r`, column `c`.
    pub open spec fn cell(&self, r: int, c: int) -> T {
        at(self.data@, self.cols as int, r, c)
    }

    /// Every cell holds `value`.
    pub open spec fn is_filled_with(&self, value: T) -> bool {
        forall|p: int| 0 <= p < self.data@.len() ==> self.data@[p] == value
    }
}

impl<T: Copy> Matrix<T> {
    /// A `rows` by `cols` matrix whose every cell is `zero`.
    pub fn new(rows: usize, cols: usize, zero: T) -> (m: Self)
        requires
            rows * cols <= usize::MAX,
        ensures
            m.wf(),
            m.rows == rows,
            m.cols == cols,
            m.is_filled_with(zero),
    {
        Self::from_fill(rows, cols, zero)
    }

    /// A `rows` by `cols` matrix whose every cell is `value`.
    pub fn from_fill(rows: usize, cols: usize, value: T) -> (m: Self)
        requires
            rows * cols <= usize::MAX,
        ensures
            m.wf(),
            m.rows == rows,
            m.cols == cols,
            m.is_filled_with(value),
    {
        let total: usize = rows * cols;
        let mut data: Vec<T> = Vec::with_capacity(total);
        let mut p: usize = 0;
        while p < total
            invariant
                p <= total,
                data@.len() == p,
                forall|q: int| 0 <= q < p ==> data@[q] == value,
            decreases total - p,
        {
            data.push(value);
            p += 1;
        }
        Matrix { rows, cols, data }
    }

    /// Wraps `data` as a `rows` by `cols` matrix, row by row. Fails with
    /// `DataLengthMismatch` exactly when `data` does not hold `rows * cols`
    /// elements.
    pub fn from_vec(rows: usize, cols: usize, data: Vec<T>) -> (r: Result<Self, MatrixError>)
        ensures
            data@.len() == rows * cols <==> r is Ok,
            r is Err ==> r == Err::<Self, MatrixError>(MatrixError::DataLengthMismatch),
            r is Ok ==> r->Ok_0.wf() && r->Ok_0.rows == rows && r->Ok_0.cols == cols
                && r->Ok_0.data@ == data@,
    {
        let len: usize = data.len();
        let fits = match rows.checked_mul(cols) {
            Some(total) => total == len,
            None => false,
        };
        if fits {
            Ok(Matrix { rows, cols, data })
        } else {
            Err(MatrixError::DataLengthMismatch)
        }
    }

    /// Reads the cell at row `r`, column `c`. The caller answers for the
    /// indices: nothing is checked at run time.
    pub fn get(&self, r: usize, c: usize) -> (v: T)
        requires
            self.wf(),
            r < self.rows,
            c < self.cols,
        ensures
            v == self.cell(r as int, c as int),
    {
        proof {
            lemma_flat_index(self.rows as int, self.cols as int, r as int, c as int);
        }
        self.data[r * self.cols + c]
    }

    /// Writes `val` to the cell at row `r`, column `c` and leaves every other
    /// cell as it was.
    pub fn set(&mut self, r: usize, c: usize, val: T)
        requires
            old(self).wf(),
            r < old(self).rows,
            c < old(self).cols,
        ensures
            final(self).wf(),
            final(self).rows == old(self).rows,
            final(self).cols == old(self).cols,
            final(self).data@ == old(self).data@.update(r * old(self).cols + c, val),
            final(self).cell(r as int, c as int) == val,
            forall|i: int, j: int|
                0 <= i < old(self).rows && 0 <= j < old(self).cols && (i != r || j != c)
                    ==> #[trigger] final(self).cell(i, j) == old(self).cell(i, j),
    {
        proof {
            lemma_flat_index(self.rows as int, self.cols as int, r as int, c as int);
        }
        let idx: usize = r * self.cols + c;
        self.data[idx] = val;
        proof {
            assert forall|i: int, j: int|
                0 <= i < self.rows && 0 <= j < self.cols && (i != r || j != c) implies #[trigger] self.cell(
                i,
                j,
            ) == old(self).cell(i, j) by {
                lemma_flat_index(self.rows as int, self.cols as int, i, j);
                if i * self.cols + j == r * self.cols + c {
                    lemma_flat_injective(self.cols as int, i, j, r as int, c as int);
                }
            }
        }
    }
}

impl<T> vstd::std_specs::core::IndexSpecImpl<(usize, usize)> for Matrix<T> {
    open spec fn index_req(&self, index: &(usize, usize)) -> bool {
        self.wf() && index.0 < self.rows && index.1 < self.cols
    }
}

/// `m[(r, c)]` reads the cell at row `r`, column `c`, under the same
/// obligations as `get`.
impl<T> Index<(usize, usize)> for Matrix<T> {
    type Output = T;

    fn index(&self, idx: (usize, usize)) -> (v: &T)
        ensures
            *v == self.cell(idx.0 as int, idx.1 as int),
    {
        let (r, c) = idx;
        proof {
            lemma_flat_index(self.rows as int, self.cols as int, r as int, c as int);
        }
        &self.data[r * self.cols + c]
    }
}

} // verus!
