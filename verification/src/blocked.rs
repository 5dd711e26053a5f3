use vstd::prelude::*;
use core::ops::{Add, Mul};
use rayon::iter::{IndexedParallelIterator, ParallelIterator};
use rayon::slice::ParallelSliceMut;
use crate::matrix::{
    at, lemma_flat_index, lemma_flat_injective, lemma_row_offset, Matrix, MatrixError,
};
use crate::product::{
    accumulate, arithmetic_specified, is_product, lemma_accumulate_split, product_defined,
    step_allowed,
};

verus! {

/// Below this extent a dimension is handled as one tile.
pub const MIN_TILE: usize = 16;

/// No tile is wider than this.
pub const MAX_TILE: usize = 64;

/// The tile width for a dimension of extent `d`: `d` clamped to
/// `[MIN_TILE, MAX_TILE]`, except that an extent below `MIN_TILE` is its own
/// tile width.
pub open spec fn tile_size_spec(d: int) -> int {
    if d < MIN_TILE {
        d
    } else if d > MAX_TILE {
        MAX_TILE as int
    } else {
        d
    }
}

/// The tile width for a dimension of extent `d`.
pub fn tile_size(d: usize) -> (t: usize)
    ensures
        t == tile_size_spec(d as int),
        t <= d,
        t <= MAX_TILE,
        d > 0 ==> t > 0,
        d >= MIN_TILE ==> t >= MIN_TILE,
{
    if d < MIN_TILE {
        d
    } else if d > MAX_TILE {
        MAX_TILE
    } else {
        d
    }
}

/// `ci` numbers one of the row chunks that `m` rows are cut into, `block_m`
/// rows each.
pub open spec fn is_chunk_index(m: int, block_m: int, ci: int) -> bool {
    0 <= ci && ci * block_m < m
}

/// The number of rows in row chunk `ci` when `m` rows are cut into chunks of
/// `block_m` rows: `block_m`, or what is left for the last chunk.
pub open spec fn chunk_rows(m: int, block_m: int, ci: int) -> int {
    if m - ci * block_m < block_m {
        m - ci * block_m
    } else {
        block_m
    }
}

/// Piece `ci` of `s` cut into consecutive pieces of `len` elements, the last
/// one possibly shorter.
pub open spec fn chunk_of<T>(s: Seq<T>, len: int, ci: int) -> Seq<T> {
    s.subrange(
        ci * len,
        if (ci + 1) * len < s.len() {
            (ci + 1) * len
        } else {
            s.len() as int
        },
    )
}

/// `after` is `before` once the cells in columns `[c0, c1)` have each absorbed
/// the terms of depths `[k0, k1)`, in increasing depth order. Both are the
/// store of `rows` output rows of `n` columns, the first of which is output
/// row `r0`. Cells outside `[c0, c1)` are as they were.
pub open spec fn tile_applied<T: Add<Output = T> + Mul<Output = T>>(
    a: Matrix<T>,
    b: Matrix<T>,
    before: Seq<T>,
    after: Seq<T>,
    r0: int,
    rows: int,
    n: int,
    c0: int,
    c1: int,
    k0: int,
    k1: int,
) -> bool {
    &&& after.len() == before.len()
    &&& forall|li: int, j: int|
        0 <= li < rows && 0 <= j < n ==> #[trigger] at(after, n, li, j) == (if c0 <= j < c1 {
            accumulate(a, b, r0 + li, j, at(before, n, li, j), k0, k1)
        } else {
            at(before, n, li, j)
        })
}

/// Every step that `tile_applied` describes is one that `*` and `+` accept:
/// for each cell of the chunk in columns `[c0, c1)`, starting from what
/// `before` holds there, each depth in `[k0, k1)`.
pub open spec fn tile_defined<T: Add<Output = T> + Mul<Output = T>>(
    a: Matrix<T>,
    b: Matrix<T>,
    before: Seq<T>,
    r0: int,
    rows: int,
    n: int,
    c0: int,
    c1: int,
    k0: int,
    k1: int,
) -> bool {
    &&& arithmetic_specified::<T>()
    &&& forall|li: int, j: int, t: int|
        0 <= li < rows && c0 <= j < c1 && k0 <= t < k1 ==> #[trigger] chunk_step_allowed(
            a,
            b,
            before,
            r0,
            n,
            li,
            j,
            k0,
            t,
        )
}

/// `step_allowed` for the chunk's cell at local row `li`, column `j`, which is
/// output row `r0 + li`, starting from what `before` holds there.
pub open spec fn chunk_step_allowed<T: Add<Output = T> + Mul<Output = T>>(
    a: Matrix<T>,
    b: Matrix<T>,
    before: Seq<T>,
    r0: int,
    n: int,
    li: int,
    j: int,
    k0: int,
    t: int,
) -> bool {
    step_allowed(a, b, r0 + li, j, at(before, n, li, j), k0, t)
}

/// Row chunk `ci` may be filled: every step of every cell of the chunk, from
/// what `before` holds there, through all depths, is one that `*` and `+`
/// accept.
pub open spec fn row_chunk_defined<T: Add<Output = T> + Mul<Output = T>>(
    a: Matrix<T>,
    b: Matrix<T>,
    before: Seq<T>,
    block_m: int,
    ci: int,
) -> bool {
    tile_defined(
        a,
        b,
        before,
        ci * block_m,
        chunk_rows(a.rows as int, block_m, ci),
        b.cols as int,
        0,
        b.cols as int,
        0,
        a.cols as int,
    )
}

/// Row chunk `ci` has been filled: `after` is its store once every cell has
/// absorbed the terms of all depths, in increasing order, on top of what
/// `before` held.
pub open spec fn row_chunk_filled<T: Add<Output = T> + Mul<Output = T>>(
    a: Matrix<T>,
    b: Matrix<T>,
    before: Seq<T>,
    after: Seq<T>,
    block_m: int,
    ci: int,
) -> bool {
    tile_applied(
        a,
        b,
        before,
        after,
        ci * block_m,
        chunk_rows(a.rows as int, block_m, ci),
        b.cols as int,
        0,
        b.cols as int,
        0,
        a.cols as int,
    )
}

/// What a cell of the chunk holds part-way through the kernel: rows before
/// `li_done` are finished, row `li_done` has absorbed depths `[k0, kk)` and,
/// left of column `j_done`, depth `kk` as well.
spec fn kernel_cell<T: Add<Output = T> + Mul<Output = T>>(
    a: Matrix<T>,
    b: Matrix<T>,
    before: Seq<T>,
    r0: int,
    n: int,
    c0: int,
    c1: int,
    k0: int,
    k1: int,
    li_done: int,
    kk: int,
    j_done: int,
    li: int,
    j: int,
) -> T {
    if !(c0 <= j < c1) {
        at(before, n, li, j)
    } else if li < li_done {
        accumulate(a, b, r0 + li, j, at(before, n, li, j), k0, k1)
    } else if li == li_done {
        if j < j_done {
            accumulate(a, b, r0 + li, j, at(before, n, li, j), k0, kk + 1)
        } else {
            accumulate(a, b, r0 + li, j, at(before, n, li, j), k0, kk)
        }
    } else {
        at(before, n, li, j)
    }
}

/// The innermost kernel. `c_slice` is the store of output rows `[r0, r1)`,
/// `n` columns each. For each row, then each depth in `[k0, k1)`, then each
/// column in `[c0, c1)`, it adds `a[i][t] * b[t][j]` to the cell. Nothing
/// outside those columns is touched.
pub fn multiply_add_block_slice<T>(
    a: &Matrix<T>,
    b: &Matrix<T>,
    c_slice: &mut [T],
    r0: usize,
    r1: usize,
    c0: usize,
    c1: usize,
    k0: usize,
    k1: usize,
    n: usize,
) where T: Copy + Add<Output = T> + Mul<Output = T>
    requires
        a.wf(),
        b.wf(),
        a.cols == b.rows,
        n == b.cols,
        r0 <= r1 <= a.rows,
        c0 <= c1 <= n,
        k0 <= k1 <= a.cols,
        old(c_slice)@.len() == (r1 - r0) * n,
        tile_defined(
            *a,
            *b,
            old(c_slice)@,
            r0 as int,
            r1 - r0,
            n as int,
            c0 as int,
            c1 as int,
            k0 as int,
            k1 as int,
        ),
    ensures
        tile_applied(
            *a,
            *b,
            old(c_slice)@,
            final(c_slice)@,
            r0 as int,
            r1 - r0,
            n as int,
            c0 as int,
            c1 as int,
            k0 as int,
            k1 as int,
        ),
{
    let ghost before = c_slice@;
    let ghost rows = r1 - r0;
    let total: usize = c_slice.len();
    let mut i: usize = r0;
    while i < r1
        invariant
            a.wf(),
            b.wf(),
            a.cols == b.rows,
            n == b.cols,
            r0 <= i <= r1,
            r1 <= a.rows,
            c0 <= c1 <= n,
            k0 <= k1 <= a.cols,
            rows == r1 - r0,
            tile_defined(*a, *b, before, r0 as int, rows, n as int, c0 as int, c1 as int, k0 as int, k1 as int),
            c_slice@.len() == before.len(),
            before.len() == rows * n,
            before.len() == total,
            forall|li: int, j: int|
                0 <= li < rows && 0 <= j < n ==> #[trigger] at(c_slice@, n as int, li, j)
                    == kernel_cell(
                    *a,
                    *b,
                    before,
                    r0 as int,
                    n as int,
                    c0 as int,
                    c1 as int,
                    k0 as int,
                    k1 as int,
                    i - r0,
                    k0 as int,
                    c0 as int,
                    li,
                    j,
                ),
        decreases r1 - i,
    {
        let local_i: usize = i - r0;
        proof {
            lemma_row_offset(rows, n as int, local_i as int);
        }
        let c_row_offset: usize = local_i * n;
        let mut kk: usize = k0;
        while kk < k1
            invariant
                a.wf(),
                b.wf(),
                a.cols == b.rows,
                n == b.cols,
                r0 <= i < r1,
                r1 <= a.rows,
                c0 <= c1 <= n,
                k0 <= kk <= k1,
                k1 <= a.cols,
                rows == r1 - r0,
                local_i == i - r0,
                c_row_offset == local_i * n,
                tile_defined(*a, *b, before, r0 as int, rows, n as int, c0 as int, c1 as int, k0 as int, k1 as int),
                c_slice@.len() == before.len(),
                before.len() == rows * n,
                before.len() == total,
            before.len() == total,
                forall|li: int, j: int|
                    0 <= li < rows && 0 <= j < n ==> #[trigger] at(c_slice@, n as int, li, j)
                        == kernel_cell(
                        *a,
                        *b,
                        before,
                        r0 as int,
                        n as int,
                        c0 as int,
                        c1 as int,
                        k0 as int,
                        k1 as int,
                        local_i as int,
                        kk as int,
                        c0 as int,
                        li,
                        j,
                    ),
            decreases k1 - kk,
        {
            let a_ik: T = a.get(i, kk);
            let mut j: usize = c0;
            while j < c1
                invariant
                    a.wf(),
                    b.wf(),
                    a.cols == b.rows,
                    n == b.cols,
                    r0 <= i < r1,
                    r1 <= a.rows,
                    c0 <= j <= c1,
                    c1 <= n,
                    k0 <= kk < k1,
                    k1 <= a.cols,
                    rows == r1 - r0,
                    local_i == i - r0,
                    c_row_offset == local_i * n,
                    a_ik == a.cell(i as int, kk as int),
                    tile_defined(*a, *b, before, r0 as int, rows, n as int, c0 as int, c1 as int, k0 as int, k1 as int),
                    c_slice@.len() == before.len(),
                    before.len() == rows * n,
                before.len() == total,
                    before.len() == total,
            before.len() == total,
                    forall|li: int, j2: int|
                        0 <= li < rows && 0 <= j2 < n ==> #[trigger] at(
                            c_slice@,
                            n as int,
                            li,
                            j2,
                        ) == kernel_cell(
                            *a,
                            *b,
                            before,
                            r0 as int,
                            n as int,
                            c0 as int,
                            c1 as int,
                            k0 as int,
                            k1 as int,
                            local_i as int,
                            kk as int,
                            j as int,
                            li,
                            j2,
                        ),
                decreases c1 - j,
            {
                proof {
                    lemma_flat_index(rows, n as int, local_i as int, j as int);
                }
                let idx: usize = c_row_offset + j;
                let ghost prev = c_slice@;
                assert(c_slice@[idx as int] == at(prev, n as int, local_i as int, j as int));
                assert(chunk_step_allowed(
                    *a,
                    *b,
                    before,
                    r0 as int,
                    n as int,
                    local_i as int,
                    j as int,
                    k0 as int,
                    kk as int,
                ));
                let v: T = c_slice[idx] + a_ik * b.get(kk, j);
                c_slice[idx] = v;
                proof {
                    assert forall|li: int, j2: int| 0 <= li < rows && 0 <= j2 < n implies #[trigger] at(
                        c_slice@,
                        n as int,
                        li,
                        j2,
                    ) == kernel_cell(
                        *a,
                        *b,
                        before,
                        r0 as int,
                        n as int,
                        c0 as int,
                        c1 as int,
                        k0 as int,
                        k1 as int,
                        local_i as int,
                        kk as int,
                        j + 1,
                        li,
                        j2,
                    ) by {
                        lemma_flat_index(rows, n as int, li, j2);
                        if li * n + j2 == local_i * n + j {
                            lemma_flat_injective(n as int, li, j2, local_i as int, j as int);
                        } else {
                            assert(at(c_slice@, n as int, li, j2) == at(prev, n as int, li, j2));
                        }
                    }
                }
                j += 1;
            }
            kk += 1;
        }
        i += 1;
    }
}

/// The end of the tile that starts at `start` in a dimension of extent
/// `extent`: `start + width`, or `extent` where the last tile is narrower.
fn tile_end(start: usize, width: usize, extent: usize) -> (end: usize)
    requires
        start <= extent,
    ensures
        end == (if extent - start < width {
            extent as int
        } else {
            start + width
        }),
        start <= end <= extent,
{
    if extent - start < width {
        extent
    } else {
        start + width
    }
}

/// The work of one task: row chunk `ci`, that is output rows
/// `[ci * block_m, ci * block_m + chunk_rows)`, whose store is `chunk`. Walks
/// the column tiles and, inside each, the depth tiles in increasing order,
/// running the kernel on each. Every cell of the chunk ends up with its
/// starting value plus all `a.cols` terms, added in increasing depth order.
pub fn fill_row_chunk<T>(
    a: &Matrix<T>,
    b: &Matrix<T>,
    chunk: &mut [T],
    ci: usize,
    block_m: usize,
    block_n: usize,
    block_k: usize,
) where T: Copy + Add<Output = T> + Mul<Output = T>
    requires
        a.wf(),
        b.wf(),
        a.cols == b.rows,
        ci * block_m < a.rows,
        0 < block_m,
        b.cols > 0 ==> block_n > 0,
        a.cols > 0 ==> block_k > 0,
        old(chunk)@.len() == chunk_rows(a.rows as int, block_m as int, ci as int) * b.cols,
        row_chunk_defined(*a, *b, old(chunk)@, block_m as int, ci as int),
    ensures
        row_chunk_filled(*a, *b, old(chunk)@, final(chunk)@, block_m as int, ci as int),
{
    let m: usize = a.rows;
    let n: usize = b.cols;
    let k: usize = a.cols;
    let r0: usize = ci * block_m;
    let r1: usize = tile_end(r0, block_m, m);
    let ghost before = chunk@;
    let ghost rows = r1 - r0;
    let mut cj: usize = 0;
    while cj < n
        invariant
            a.wf(),
            b.wf(),
            a.cols == b.rows,
            m == a.rows,
            n == b.cols,
            k == a.cols,
            r0 == ci * block_m,
            r0 <= r1 <= m,
            rows == r1 - r0,
            rows == chunk_rows(m as int, block_m as int, ci as int),
            cj <= n,
            n > 0 ==> block_n > 0,
            k > 0 ==> block_k > 0,
            tile_defined(*a, *b, before, r0 as int, rows, n as int, 0, n as int, 0, k as int),
            before.len() == rows * n,
            tile_applied(*a, *b, before, chunk@, r0 as int, rows, n as int, 0, cj as int, 0, k as int),
        decreases n - cj,
    {
        let c_j_end: usize = tile_end(cj, block_n, n);
        let mut kk: usize = 0;
        while kk < k
            invariant
                a.wf(),
                b.wf(),
                a.cols == b.rows,
                m == a.rows,
                n == b.cols,
                k == a.cols,
                r0 <= r1 <= m,
                rows == r1 - r0,
                cj < c_j_end <= n,
                kk <= k,
                k > 0 ==> block_k > 0,
                tile_defined(*a, *b, before, r0 as int, rows, n as int, 0, n as int, 0, k as int),
                before.len() == rows * n,
                chunk@.len() == before.len(),
                forall|li: int, j: int|
                    0 <= li < rows && 0 <= j < n ==> #[trigger] at(chunk@, n as int, li, j) == (if j
                        < cj {
                        accumulate(*a, *b, r0 + li, j, at(before, n as int, li, j), 0, k as int)
                    } else if j < c_j_end {
                        accumulate(*a, *b, r0 + li, j, at(before, n as int, li, j), 0, kk as int)
                    } else {
                        at(before, n as int, li, j)
                    }),
            decreases k - kk,
        {
            let k_end: usize = tile_end(kk, block_k, k);
            let ghost prev = chunk@;
            proof {
                assert forall|li: int, j: int, t: int|
                    0 <= li < rows && cj <= j < c_j_end && kk <= t < k_end implies #[trigger] chunk_step_allowed(
                    *a,
                    *b,
                    prev,
                    r0 as int,
                    n as int,
                    li,
                    j,
                    kk as int,
                    t,
                ) by {
                    assert(chunk_step_allowed(*a, *b, before, r0 as int, n as int, li, j, 0, t));
                    lemma_accumulate_split(
                        *a,
                        *b,
                        r0 + li,
                        j,
                        at(before, n as int, li, j),
                        0,
                        kk as int,
                        t,
                    );
                    assert(at(prev, n as int, li, j) == accumulate(
                        *a,
                        *b,
                        r0 + li,
                        j,
                        at(before, n as int, li, j),
                        0,
                        kk as int,
                    ));
                }
            }
            multiply_add_block_slice(a, b, chunk, r0, r1, cj, c_j_end, kk, k_end, n);
            proof {
                assert forall|li: int, j: int| 0 <= li < rows && 0 <= j < n implies #[trigger] at(
                    chunk@,
                    n as int,
                    li,
                    j,
                ) == (if j < cj {
                    accumulate(*a, *b, r0 + li, j, at(before, n as int, li, j), 0, k as int)
                } else if j < c_j_end {
                    accumulate(*a, *b, r0 + li, j, at(before, n as int, li, j), 0, k_end as int)
                } else {
                    at(before, n as int, li, j)
                }) by {
                    if cj <= j < c_j_end {
                        lemma_accumulate_split(
                            *a,
                            *b,
                            r0 + li,
                            j,
                            at(before, n as int, li, j),
                            0,
                            kk as int,
                            k_end as int,
                        );
                    }
                }
            }
            kk = k_end;
        }
        cj = c_j_end;
    }
}

/// Runs `fill_row_chunk` on every row chunk of `store`, one task per chunk, on
/// rayon's worker pool: `par_chunks_mut` cuts `store` into consecutive,
/// non-overlapping pieces of `chunk_len` elements (the last one possibly
/// shorter), `enumerate` numbers them from zero, and `for_each` runs the
/// closure once on each. Trusted: that every piece is visited exactly once
/// with its own number, that nothing else in `store` changes, and hence that
/// each piece ends as `fill_row_chunk` promises for it.
#[verifier::external_body]
fn for_each_row_chunk<T>(
    a: &Matrix<T>,
    b: &Matrix<T>,
    store: &mut Vec<T>,
    chunk_len: usize,
    block_m: usize,
    block_n: usize,
    block_k: usize,
) where T: Copy + Add<Output = T> + Mul<Output = T> + Send + Sync
    requires
        a.wf(),
        b.wf(),
        a.cols == b.rows,
        0 < block_m,
        0 < block_n,
        a.cols > 0 ==> block_k > 0,
        0 < chunk_len,
        chunk_len == block_m * b.cols,
        old(store)@.len() == a.rows * b.cols,
        forall|ci: int|
            is_chunk_index(a.rows as int, block_m as int, ci) ==> row_chunk_defined(
                *a,
                *b,
                #[trigger] chunk_of(old(store)@, chunk_len as int, ci),
                block_m as int,
                ci,
            ),
    ensures
        final(store)@.len() == old(store)@.len(),
        forall|ci: int|
            is_chunk_index(a.rows as int, block_m as int, ci) ==> row_chunk_filled(
                *a,
                *b,
                chunk_of(old(store)@, chunk_len as int, ci),
                #[trigger] chunk_of(final(store)@, chunk_len as int, ci),
                block_m as int,
                ci,
            ),
{
    store.par_chunks_mut(chunk_len).enumerate().for_each(
        |(ci, chunk)| fill_row_chunk(a, b, chunk, ci, block_m, block_n, block_k),
    );
}

/// Output row `i` lies in row chunk `i / block_m`, at local row `i % block_m`.
proof fn lemma_row_in_chunk(m: int, block_m: int, i: int)
    requires
        0 < block_m,
        0 <= i < m,
    ensures
        is_chunk_index(m, block_m, i / block_m),
        0 <= i % block_m < chunk_rows(m, block_m, i / block_m),
        (i / block_m) * block_m + i % block_m == i,
{
    vstd::arithmetic::div_mod::lemma_fundamental_div_mod(i, block_m);
    vstd::arithmetic::div_mod::lemma_mod_bound(i, block_m);
    vstd::arithmetic::div_mod::lemma_div_pos_is_pos(i, block_m);
    assert((i / block_m) * block_m == block_m * (i / block_m)) by (nonlinear_arith);
}

/// The cell at local row `li`, column `j` of row chunk `ci` is the cell of
/// the whole store at row `ci * block_m + li`, column `j`.
proof fn lemma_chunk_cell<T>(s: Seq<T>, m: int, n: int, block_m: int, ci: int, li: int, j: int)
    requires
        0 < block_m,
        is_chunk_index(m, block_m, ci),
        0 <= li < chunk_rows(m, block_m, ci),
        0 <= j < n,
        s.len() == m * n,
    ensures
        0 <= ci * block_m + li < m,
        at(chunk_of(s, block_m * n, ci), n, li, j) == at(s, n, ci * block_m + li, j),
{
    let i = ci * block_m + li;
    let len = block_m * n;
    let rows = chunk_rows(m, block_m, ci);
    assert(0 <= ci * block_m) by (nonlinear_arith)
        requires
            0 <= ci,
            0 < block_m,
    ;
    assert(ci * len == (ci * block_m) * n) by (nonlinear_arith)
        requires
            len == block_m * n,
    ;
    assert((ci + 1) * len == ci * len + len) by (nonlinear_arith);
    assert(i * n == (ci * block_m) * n + li * n) by (nonlinear_arith)
        requires
            i == ci * block_m + li,
    ;
    lemma_flat_index(rows, n, li, j);
    lemma_flat_index(m, n, i, j);
    assert(rows * n <= len) by (nonlinear_arith)
        requires
            rows <= block_m,
            0 <= n,
            len == block_m * n,
    ;
    assert(rows * n == (ci * block_m + rows) * n - (ci * block_m) * n) by (nonlinear_arith);
    assert((ci * block_m + rows) * n <= m * n) by (nonlinear_arith)
        requires
            ci * block_m + rows <= m,
            0 <= n,
    ;
    assert(0 <= ci * len) by (nonlinear_arith)
        requires
            0 <= ci,
            0 <= len,
    ;
}

/// The blocked product. The output rows are cut into chunks of
/// `tile_size(a.rows)` rows; each chunk is one task on the worker pool and
/// owns its part of the output store. Inside a chunk the columns and the
/// shared dimension are walked in tiles of `tile_size(b.cols)` and
/// `tile_size(a.cols)`. Each cell still receives its terms in increasing
/// depth order, so the result does not depend on the number of workers.
/// Fails with `ShapeMismatch` exactly when `a`'s column count differs from
/// `b`'s row count, before anything is allocated.
pub fn gemm_parallel<T>(a: &Matrix<T>, b: &Matrix<T>, zero: T) -> (r: Result<
    Matrix<T>,
    MatrixError,
>) where T: Copy + Add<Output = T> + Mul<Output = T> + Send + Sync
    requires
        a.wf(),
        b.wf(),
        a.cols == b.rows ==> a.rows * b.cols <= usize::MAX,
        a.cols == b.rows ==> product_defined(*a, *b, zero),
    ensures
        a.cols != b.rows <==> r is Err,
        r is Err ==> r == Err::<Matrix<T>, MatrixError>(MatrixError::ShapeMismatch),
        r is Ok ==> is_product(*a, *b, zero, r->Ok_0),
{
    if a.cols != b.rows {
        return Err(MatrixError::ShapeMismatch);
    }
    let m: usize = a.rows;
    let n: usize = b.cols;
    let k: usize = a.cols;
    let block_m: usize = tile_size(m);
    let block_n: usize = tile_size(n);
    let block_k: usize = tile_size(k);
    let mut c = Matrix::new(m, n, zero);
    if m > 0 && n > 0 {
        proof {
            assert(block_m * n <= m * n) by (nonlinear_arith)
                requires
                    block_m <= m,
                    0 <= n,
            ;
            assert(0 < block_m * n) by (nonlinear_arith)
                requires
                    0 < block_m,
                    0 < n,
            ;
        }
        let chunk_len: usize = block_m * n;
        let ghost before = c.data@;
        proof {
            assert forall|ci: int|
                is_chunk_index(m as int, block_m as int, ci) implies row_chunk_defined(
                *a,
                *b,
                #[trigger] chunk_of(before, chunk_len as int, ci),
                block_m as int,
                ci,
            ) by {
                let piece = chunk_of(before, chunk_len as int, ci);
                assert forall|li: int, j: int, t: int|
                    0 <= li < chunk_rows(m as int, block_m as int, ci) && 0 <= j < n && 0 <= t
                        < k implies #[trigger] chunk_step_allowed(
                    *a,
                    *b,
                    piece,
                    ci * block_m,
                    n as int,
                    li,
                    j,
                    0,
                    t,
                ) by {
                    lemma_chunk_cell(before, m as int, n as int, block_m as int, ci, li, j);
                    lemma_flat_index(m as int, n as int, ci * block_m + li, j);
                    assert(step_allowed(*a, *b, ci * block_m + li, j, zero, 0, t));
                }
            }
        }
        for_each_row_chunk(a, b, &mut c.data, chunk_len, block_m, block_n, block_k);
        proof {
            assert forall|i: int, j: int| 0 <= i < m && 0 <= j < n implies #[trigger] c.cell(i, j)
                == accumulate(*a, *b, i, j, zero, 0, k as int) by {
                let ci = i / (block_m as int);
                let li = i % (block_m as int);
                lemma_row_in_chunk(m as int, block_m as int, i);
                lemma_chunk_cell(before, m as int, n as int, block_m as int, ci, li, j);
                lemma_chunk_cell(c.data@, m as int, n as int, block_m as int, ci, li, j);
                lemma_flat_index(m as int, n as int, i, j);
                assert(row_chunk_filled(
                    *a,
                    *b,
                    chunk_of(before, chunk_len as int, ci),
                    chunk_of(c.data@, chunk_len as int, ci),
                    block_m as int,
                    ci,
                ));
                assert(at(chunk_of(c.data@, chunk_len as int, ci), n as int, li, j) == accumulate(
                    *a,
                    *b,
                    ci * block_m + li,
                    j,
                    at(chunk_of(before, chunk_len as int, ci), n as int, li, j),
                    0,
                    k as int,
                ));
            }
        }
    }
    Ok(c)
}

} // verus!
