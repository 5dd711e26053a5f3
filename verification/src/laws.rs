use vstd::prelude::*;
use vstd::std_specs::ops::{AddSpec, MulSpec};
use vstd::arithmetic::div_mod::{
    lemma_div_pos_is_pos, lemma_fundamental_div_mod, lemma_fundamental_div_mod_converse,
    lemma_mod_bound,
};
use core::ops::{Add, Mul};
use crate::matrix::{at, lemma_flat_index, Matrix};
use crate::product::{accumulate, is_product};
use crate::blocked::{chunk_rows, is_chunk_index, tile_size_spec, MIN_TILE};

verus! {

/// A flat index into a `rows` by `n` store names one cell: row `p / n`,
/// column `p % n`.
pub proof fn lemma_flat_to_cell(rows: int, n: int, p: int)
    requires
        0 <= p < rows * n,
        0 <= rows,
        0 <= n,
    ensures
        0 < n,
        0 <= p / n < rows,
        0 <= p % n < n,
        (p / n) * n + p % n == p,
{
    assert(0 < n) by (nonlinear_arith)
        requires
            0 <= p < rows * n,
            0 <= n,
    ;
    lemma_fundamental_div_mod(p, n);
    lemma_mod_bound(p, n);
    lemma_div_pos_is_pos(p, n);
    assert(n * (p / n) == (p / n) * n) by (nonlinear_arith);
    if p / n >= rows {
        assert((p / n) * n >= rows * n) by (nonlinear_arith)
            requires
                p / n >= rows,
                0 < n,
        ;
    }
}

/// `zero` and `one` behave as the neutral elements of `+` and `*`, and `zero`
/// absorbs under `*` from the right.
pub open spec fn neutral_elements<T: Add<Output = T> + Mul<Output = T>>(zero: T, one: T) -> bool {
    &&& forall|x: T| #[trigger] x.mul_spec(zero) == zero
    &&& forall|x: T| #[trigger] x.mul_spec(one) == x
    &&& forall|x: T| #[trigger] zero.add_spec(x) == x
    &&& forall|x: T| #[trigger] x.add_spec(zero) == x
}

/// `id` is square, with `one` on the diagonal and `zero` elsewhere.
pub open spec fn is_identity<T>(id: Matrix<T>, zero: T, one: T) -> bool {
    &&& id.wf()
    &&& id.rows == id.cols
    &&& forall|t: int, j: int|
        0 <= t < id.rows && 0 <= j < id.cols ==> #[trigger] id.cell(t, j) == (if t == j {
            one
        } else {
            zero
        })
}

/// The product of given operands from a given zero is unique: two matrices
/// that both are that product have the same shape and the same store. The
/// serial and the blocked product both return that product, so they agree
/// cell for cell, and so do any two runs of either, whatever the worker pool.
pub proof fn lemma_product_unique<T: Add<Output = T> + Mul<Output = T>>(
    a: Matrix<T>,
    b: Matrix<T>,
    zero: T,
    c1: Matrix<T>,
    c2: Matrix<T>,
)
    requires
        is_product(a, b, zero, c1),
        is_product(a, b, zero, c2),
    ensures
        c1.rows == c2.rows,
        c1.cols == c2.cols,
        c1.data@ == c2.data@,
{
    let n = c1.cols as int;
    assert forall|p: int| 0 <= p < c1.data@.len() implies c1.data@[p] == c2.data@[p] by {
        lemma_flat_to_cell(c1.rows as int, n, p);
        assert(c1.cell(p / n, p % n) == c2.cell(p / n, p % n));
    }
    assert(c1.data@ =~= c2.data@);
}

/// Against an identity matrix the running sum for cell `(i, j)` stays `zero`
/// up to depth `j` and is `a[i][j]` from then on.
proof fn lemma_accumulate_identity<T: Add<Output = T> + Mul<Output = T>>(
    a: Matrix<T>,
    id: Matrix<T>,
    zero: T,
    one: T,
    i: int,
    j: int,
    t: int,
)
    requires
        is_identity(id, zero, one),
        neutral_elements(zero, one),
        0 <= j < id.cols,
        0 <= t <= id.rows,
    ensures
        accumulate(a, id, i, j, zero, 0, t) == (if t <= j {
            zero
        } else {
            a.cell(i, j)
        }),
    decreases t,
{
    if t > 0 {
        lemma_accumulate_identity(a, id, zero, one, i, j, t - 1);
        assert(id.cell(t - 1, j) == (if t - 1 == j {
            one
        } else {
            zero
        }));
    }
}

/// Multiplying by an identity matrix on the right gives the left operand
/// back, wherever `zero` and `one` are neutral for the element arithmetic.
pub proof fn lemma_identity_right<T: Add<Output = T> + Mul<Output = T>>(
    a: Matrix<T>,
    id: Matrix<T>,
    zero: T,
    one: T,
    c: Matrix<T>,
)
    requires
        a.wf(),
        is_identity(id, zero, one),
        id.rows == a.cols,
        neutral_elements(zero, one),
        is_product(a, id, zero, c),
    ensures
        c.rows == a.rows,
        c.cols == a.cols,
        c.data@ == a.data@,
{
    let n = a.cols as int;
    assert forall|p: int| 0 <= p < c.data@.len() implies c.data@[p] == a.data@[p] by {
        lemma_flat_to_cell(c.rows as int, n, p);
        lemma_accumulate_identity(a, id, zero, one, p / n, p % n, n);
        assert(c.cell(p / n, p % n) == a.cell(p / n, p % n));
    }
    assert(c.data@ =~= a.data@);
}

/// Against an all-zero right operand the running sum never leaves `zero`.
proof fn lemma_accumulate_zero<T: Add<Output = T> + Mul<Output = T>>(
    a: Matrix<T>,
    b: Matrix<T>,
    zero: T,
    i: int,
    j: int,
    t: int,
)
    requires
        b.wf(),
        b.is_filled_with(zero),
        forall|x: T| #[trigger] x.mul_spec(zero) == zero,
        zero.add_spec(zero) == zero,
        0 <= j < b.cols,
        0 <= t <= b.rows,
    ensures
        accumulate(a, b, i, j, zero, 0, t) == zero,
    decreases t,
{
    if t > 0 {
        lemma_accumulate_zero(a, b, zero, i, j, t - 1);
        lemma_flat_index(b.rows as int, b.cols as int, t - 1, j);
        assert(b.cell(t - 1, j) == zero);
    }
}

/// Multiplying by an all-zero matrix on the right gives an all-zero matrix,
/// wherever `x * zero` is `zero` for every `x` and `zero + zero` is `zero`.
pub proof fn lemma_zero_right<T: Add<Output = T> + Mul<Output = T>>(
    a: Matrix<T>,
    b: Matrix<T>,
    zero: T,
    c: Matrix<T>,
)
    requires
        b.wf(),
        b.is_filled_with(zero),
        a.cols == b.rows,
        forall|x: T| #[trigger] x.mul_spec(zero) == zero,
        zero.add_spec(zero) == zero,
        is_product(a, b, zero, c),
    ensures
        c.is_filled_with(zero),
{
    let n = c.cols as int;
    assert forall|p: int| 0 <= p < c.data@.len() implies c.data@[p] == zero by {
        lemma_flat_to_cell(c.rows as int, n, p);
        lemma_accumulate_zero(a, b, zero, p / n, p % n, a.cols as int);
        assert(c.cell(p / n, p % n) == zero);
    }
}

/// A dimension shorter than the smallest tile is one tile, and its rows form
/// exactly one chunk, which holds them all.
pub proof fn lemma_small_extent_single_chunk(m: int)
    requires
        0 < m < MIN_TILE,
    ensures
        tile_size_spec(m) == m,
        chunk_rows(m, tile_size_spec(m), 0) == m,
        forall|ci: int| #[trigger] is_chunk_index(m, tile_size_spec(m), ci) <==> ci == 0,
{
    assert forall|ci: int| #[trigger] is_chunk_index(m, tile_size_spec(m), ci) <==> ci == 0 by {
        if ci >= 1 {
            assert(ci * m >= m) by (nonlinear_arith)
                requires
                    ci >= 1,
                    m > 0,
            ;
        }
    }
}

/// Flat index `p` of a store of `total` elements lies in piece `ci` when the
/// store is cut into consecutive pieces of `len` elements.
pub open spec fn piece_holds(total: int, len: int, ci: int, p: int) -> bool {
    ci * len <= p && p < (ci + 1) * len && p < total
}

/// The row chunks partition the output store: every element of an `m` by `n`
/// store lies in the piece of exactly one row chunk, so no two tasks are
/// handed the same element and none is left out.
pub proof fn lemma_row_chunks_partition_store(m: int, n: int, block_m: int, p: int)
    requires
        0 < block_m,
        0 < n,
        0 <= p < m * n,
    ensures
        is_chunk_index(m, block_m, p / (block_m * n)),
        piece_holds(m * n, block_m * n, p / (block_m * n), p),
        forall|ci: int| #[trigger] piece_holds(m * n, block_m * n, ci, p) ==> ci == p / (block_m * n),
{
    let len = block_m * n;
    assert(0 < len) by (nonlinear_arith)
        requires
            len == block_m * n,
            0 < block_m,
            0 < n,
    ;
    let q = p / len;
    lemma_fundamental_div_mod(p, len);
    lemma_mod_bound(p, len);
    lemma_div_pos_is_pos(p, len);
    assert(q * len == len * q) by (nonlinear_arith);
    assert((q + 1) * len == q * len + len) by (nonlinear_arith);
    assert(q * len == (q * block_m) * n) by (nonlinear_arith)
        requires
            len == block_m * n,
    ;
    if q * block_m >= m {
        assert((q * block_m) * n >= m * n) by (nonlinear_arith)
            requires
                q * block_m >= m,
                0 < n,
        ;
    }
    assert forall|ci: int| #[trigger] piece_holds(m * n, len, ci, p) implies ci == q by {
        assert((ci + 1) * len == ci * len + len) by (nonlinear_arith);
        lemma_fundamental_div_mod_converse(p, len, ci, p - ci * len);
    }
}

} // verus!
