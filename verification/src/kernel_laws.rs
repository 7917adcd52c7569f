//! What the products of packed words mean.
use crate::kernel::{cell_done, half, half_sum, product_added, row_by_column, ToU64};
use crate::params::{lemma_crt_unique, MODULUS, MODULUS_0, MODULUS_1};
use crate::query_laws::holds_value;
use crate::ring_laws::{lemma_sum_single, sum};
use vstd::arithmetic::div_mod::{lemma_fundamental_div_mod, lemma_mod_multiples_vanish};
use vstd::prelude::*;

verus! {

/// The product of the first `k` numbers with a column is the sum of the halves of
/// the packed words, up to a multiple of their prime. Gives the multiple.
proof fn lemma_half_of_product<T: ToU64>(
    high: bool,
    a: Seq<u64>,
    abase: int,
    x: Seq<int>,
    b: Seq<T>,
    bbase: int,
    k: int,
) -> (u: int)
    requires
        0 <= k <= x.len(),
        forall|i: int| 0 <= i < x.len() ==> holds_value(a[abase + i], #[trigger] x[i]),
    ensures
        sum(|i: int| x[i] * b[bbase + i].word(), k) == half_sum(high, a, abase, b, bbase, 0, k) + u
            * if high {
            MODULUS_1 as int
        } else {
            MODULUS_0 as int
        },
    decreases k,
{
    let m = if high {
        MODULUS_1 as int
    } else {
        MODULUS_0 as int
    };
    if k <= 0 {
        assert(0 * m == 0);
        0
    } else {
        let u = lemma_half_of_product(high, a, abase, x, b, bbase, k - 1);
        let i = k - 1;
        assert(holds_value(a[abase + i], x[i]));
        lemma_fundamental_div_mod(x[i], m);
        let h = x[i] / m;
        let d = b[bbase + i].word() as int;
        let f = half(a[abase + k - 1], high);
        assert(abase + i == abase + k - 1 && bbase + i == bbase + k - 1);
        assert(f == x[i] % m);
        assert(x[i] * d == f * d + (h * d) * m) by (nonlinear_arith)
            requires
                x[i] == m * h + f,
        ;
        assert((u + h * d) * m == u * m + (h * d) * m) by (nonlinear_arith);
        u + h * d
    }
}

/// The batched product is the product of matrices: where the packed words of
/// query `batch` hold the numbers `x`, its cell of column `j` is what it was plus
/// the sum of the numbers times the elements of the column, modulo the modulus.
pub proof fn batched_product_is_the_matrix_product<T: ToU64>(
    c: Seq<u64>,
    c0: Seq<u64>,
    rows: int,
    a: Seq<u64>,
    stride: int,
    b: Seq<T>,
    b_rows: int,
    b_cols: int,
    x: Seq<int>,
    batch: int,
    j: int,
)
    requires
        product_added(c, c0, rows, a, stride, b, b_rows, b_cols, x.len() as int),
        0 <= batch < rows,
        0 <= j < b_cols,
        forall|k: int| 0 <= k < x.len() ==> holds_value(a[batch * stride + k], #[trigger] x[k]),
    ensures
        c[batch * b_cols + j] == (c0[batch * b_cols + j] + sum(
            |k: int| x[k] * b[j * b_rows + k].word(),
            x.len() as int,
        )) % (MODULUS as int),
{
    let n = x.len() as int;
    let (cell, old_cell) = (c[batch * b_cols + j], c0[batch * b_cols + j]);
    assert(cell_done(c, c0, a, stride, b, b_rows, b_cols, batch, j, n));
    let total = sum(|k: int| x[k] * b[j * b_rows + k].word(), n);
    let u0 = lemma_half_of_product(false, a, batch * stride, x, b, j * b_rows, n);
    let u1 = lemma_half_of_product(true, a, batch * stride, x, b, j * b_rows, n);
    let lo = half_sum(false, a, batch * stride, b, j * b_rows, 0, n);
    let hi = half_sum(true, a, batch * stride, b, j * b_rows, 0, n);
    let q = MODULUS as int;
    let y = old_cell + total;
    lemma_fundamental_div_mod(y, q);
    let (t, r) = (y / q, y % q);
    assert(q == MODULUS_0 * MODULUS_1);
    let (v0, v1) = (u0 - t * MODULUS_1, u1 - t * MODULUS_0);
    assert(r == MODULUS_0 * v0 + (old_cell + lo) && r == MODULUS_1 * v1 + (old_cell + hi))
        by (nonlinear_arith)
        requires
            y == q * t + r,
            y == old_cell + total,
            total == lo + u0 * MODULUS_0,
            total == hi + u1 * MODULUS_1,
            q == MODULUS_0 * MODULUS_1,
            v0 == u0 - t * MODULUS_1,
            v1 == u1 - t * MODULUS_0,
    ;
    lemma_mod_multiples_vanish(v0, old_cell + lo, MODULUS_0 as int);
    lemma_mod_multiples_vanish(v1, old_cell + hi, MODULUS_1 as int);
    lemma_crt_unique(cell as int, r);
}

/// An element of a product of matrices is the sum over its row and its column.
pub proof fn row_by_column_is_the_sum<T: ToU64>(
    a: Seq<u64>,
    a_cols: int,
    i: int,
    b: Seq<T>,
    b_cols: int,
    j: int,
    n: int,
)
    requires
        0 <= n,
    ensures
        row_by_column(a, a_cols, i, b, b_cols, j, n) == sum(
            |k: int| a[i * a_cols + k] * b[k * b_cols + j].word(),
            n,
        ),
    decreases n,
{
    if n > 0 {
        row_by_column_is_the_sum(a, a_cols, i, b, b_cols, j, n - 1);
        assert(i * a_cols + n - 1 == i * a_cols + (n - 1));
    }
}

/// A row of a matrix that has one at place `at` and zeros elsewhere picks out row
/// `at` of the other matrix.
pub proof fn unit_row_picks_a_row<T: ToU64>(
    a: Seq<u64>,
    a_cols: int,
    i: int,
    b: Seq<T>,
    b_cols: int,
    j: int,
    at: int,
)
    requires
        0 <= at < a_cols,
        forall|k: int|
            0 <= k < a_cols ==> #[trigger] a[i * a_cols + k] == if k == at {
                1u64
            } else {
                0u64
            },
    ensures
        row_by_column(a, a_cols, i, b, b_cols, j, a_cols) == b[at * b_cols + j].word(),
{
    row_by_column_is_the_sum(a, a_cols, i, b, b_cols, j, a_cols);
    let f = |k: int| a[i * a_cols + k] * b[k * b_cols + j].word();
    assert forall|k: int| 0 <= k < a_cols && k != at implies #[trigger] f(k) == 0 by {
        let y = b[k * b_cols + j].word() as int;
        assert(a[i * a_cols + k] == 0);
        assert(0 * y == 0);
    }
    lemma_sum_single(f, at, a_cols);
    let y = b[at * b_cols + j].word() as int;
    assert(a[i * a_cols + at] == 1);
    assert(1 * y == y);
}

/// Elements stand for the numbers that they are.
pub proof fn elements_are_their_numbers(a: u8, b: u16, c: u32, d: u64)
    ensures
        a.word() == a,
        b.word() == b,
        c.word() == c,
        d.word() == d,
{
}

} // verus!
