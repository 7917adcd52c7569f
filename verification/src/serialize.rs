//! Packing of matrices into words, and plain byte forms of values.
use crate::aligned::{aligned_from_slice, words, AlignedMemory64};
use crate::kernel::lemma_next_residue;
use crate::params::Params;
use crate::poly::PolyMatrixNTT;
use vstd::prelude::*;

verus! {

/// Two residues in one word: the first in the low half, the second in the high
/// half.
pub open spec fn pack_word(lo: u64, hi: u64) -> u64 {
    lo | (hi << 32)
}

/// The halves of a packed word are the two residues, where both fit a half.
pub proof fn lemma_pack_word(lo: u64, hi: u64)
    requires
        lo < 0x1_0000_0000,
        hi < 0x1_0000_0000,
    ensures
        pack_word(lo, hi) == lo + hi * 0x1_0000_0000,
        pack_word(lo, hi) % 0x1_0000_0000 == lo,
        pack_word(lo, hi) / 0x1_0000_0000 == hi,
{
    assert((lo | (hi << 32)) == lo + hi * 0x1_0000_0000) by (bit_vector)
        requires
            lo < 0x1_0000_0000,
            hi < 0x1_0000_0000,
    ;
    let w = lo + hi * 0x1_0000_0000;
    vstd::arithmetic::div_mod::lemma_fundamental_div_mod_converse(
        w,
        0x1_0000_0000,
        hi as int,
        lo as int,
    );
}

/// The words of a matrix with the second half of each polynomial moved into
/// the high halves of the words of the first half, which leaves zeros.
pub open spec fn condensed(a: Seq<u64>, n: int) -> Seq<u64> {
    Seq::new(
        a.len(),
        |i: int|
            if i % (2 * n) < n {
                pack_word(a[i], a[i + n])
            } else {
                0
            },
    )
}

/// The words of a matrix with the high halves of the words in the first half
/// of each polynomial moved to its second half.
pub open spec fn uncondensed(a: Seq<u64>, n: int) -> Seq<u64> {
    Seq::new(
        a.len(),
        |i: int|
            if i % (2 * n) < n {
                (a[i] % 0x1_0000_0000) as u64
            } else {
                (a[i - n] / 0x1_0000_0000) as u64
            },
    )
}

/// In whole polynomials, the word half a polynomial on is in the same one.
proof fn lemma_half_on(len: int, cells: int, n: int, i: int)
    requires
        n > 0,
        len == cells * (2 * n),
        0 <= i < len,
        i % (2 * n) < n,
    ensures
        i + n < len,
        (i + n) % (2 * n) == i % (2 * n) + n,
{
    let m = 2 * n;
    vstd::arithmetic::div_mod::lemma_fundamental_div_mod(i, m);
    let q = i / m;
    assert(m * q == q * m) by (nonlinear_arith);
    assert(q < cells) by (nonlinear_arith)
        requires
            i == m * q + i % m,
            0 <= i % m,
            i < cells * m,
            m > 0,
    ;
    assert(q * m + m <= cells * m) by (nonlinear_arith)
        requires
            q + 1 <= cells,
            m > 0,
    ;
    vstd::arithmetic::div_mod::lemma_fundamental_div_mod_converse(i + n, m, q, i % m + n);
}

/// In whole polynomials, the word half a polynomial back is in the same one.
proof fn lemma_half_back(len: int, n: int, i: int)
    requires
        n > 0,
        0 <= i < len,
        i % (2 * n) >= n,
    ensures
        0 <= i - n,
        (i - n) % (2 * n) == i % (2 * n) - n,
{
    let m = 2 * n;
    vstd::arithmetic::div_mod::lemma_fundamental_div_mod(i, m);
    let q = i / m;
    assert(m * q == q * m) by (nonlinear_arith);
    assert(q >= 0 && q * m >= 0) by (nonlinear_arith)
        requires
            i == m * q + i % m,
            i % m < m,
            i >= 0,
            m > 0,
    ;
    vstd::arithmetic::div_mod::lemma_fundamental_div_mod_converse(i - n, m, q, i % m - n);
}

/// Packs the two residues of each coefficient into one word.
pub fn condense_matrix<'a>(params: &'a Params, a: &PolyMatrixNTT<'a>) -> (r: PolyMatrixNTT<'a>)
    requires
        a.wf(),
        a.params.poly_len == params.poly_len,
        0 < params.poly_len <= 0x10000,
    ensures
        r.wf(),
        r.params == params,
        r.rows == a.rows,
        r.cols == a.cols,
        r.data@ == condensed(a.data@, params.poly_len as int),
{
    let n: usize = params.poly_len;
    let total: usize = a.data.len();
    let mut data: Vec<u64> = Vec::new();
    let mut i: usize = 0;
    let mut z: usize = 0;
    while i < total
        invariant
            0 < n <= 0x10000,
            total == a.data@.len(),
            total == a.rows * a.cols * (2 * n),
            i <= total,
            z == i as int % (2 * n),
            data@.len() == i,
            forall|k: int|
                0 <= k < i ==> #[trigger] data@[k] == condensed(a.data@, n as int)[k],
        decreases total - i,
    {
        proof {
            lemma_next_residue(i as int, 2 * n);
            if z < n {
                lemma_half_on(total as int, a.rows * a.cols, n as int, i as int);
            }
        }
        if z < n {
            data.push(a.data[i] | (a.data[i + n] << 32));
        } else {
            data.push(0);
        }
        i = i + 1;
        z = if z + 1 == 2 * n {
            0
        } else {
            z + 1
        };
    }
    assert(data@ =~= condensed(a.data@, n as int));
    PolyMatrixNTT { params, rows: a.rows, cols: a.cols, data }
}

/// Undoes `condense_matrix`.
pub fn uncondense_matrix<'a>(params: &'a Params, a: &PolyMatrixNTT<'a>) -> (r: PolyMatrixNTT<'a>)
    requires
        a.wf(),
        a.params.poly_len == params.poly_len,
        0 < params.poly_len <= 0x10000,
    ensures
        r.wf(),
        r.params == params,
        r.rows == a.rows,
        r.cols == a.cols,
        r.data@ == uncondensed(a.data@, params.poly_len as int),
{
    let n: usize = params.poly_len;
    let total: usize = a.data.len();
    let mut data: Vec<u64> = Vec::new();
    let mut i: usize = 0;
    let mut z: usize = 0;
    while i < total
        invariant
            0 < n <= 0x10000,
            total == a.data@.len(),
            i <= total,
            z == i as int % (2 * n),
            data@.len() == i,
            forall|k: int|
                0 <= k < i ==> #[trigger] data@[k] == uncondensed(a.data@, n as int)[k],
        decreases total - i,
    {
        proof {
            lemma_next_residue(i as int, 2 * n);
            if z >= n {
                lemma_half_back(total as int, n as int, i as int);
            }
        }
        if z < n {
            data.push(a.data[i] % 0x1_0000_0000);
        } else {
            data.push(a.data[i - n] / 0x1_0000_0000);
        }
        i = i + 1;
        z = if z + 1 == 2 * n {
            0
        } else {
            z + 1
        };
    }
    assert(data@ =~= uncondensed(a.data@, n as int));
    PolyMatrixNTT { params, rows: a.rows, cols: a.cols, data }
}

/// Condensing loses nothing of residues that fit half a word.
pub proof fn uncondense_undoes_condense(a: Seq<u64>, cells: int, n: int)
    requires
        n > 0,
        cells >= 0,
        a.len() == cells * (2 * n),
        forall|i: int| 0 <= i < a.len() ==> #[trigger] a[i] < 0x1_0000_0000,
    ensures
        uncondensed(condensed(a, n), n) == a,
{
    let c = condensed(a, n);
    let u = uncondensed(c, n);
    assert forall|i: int| 0 <= i < a.len() implies u[i] == a[i] by {
        if i % (2 * n) < n {
            lemma_half_on(a.len() as int, cells, n, i);
            lemma_pack_word(a[i], a[i + n]);
        } else {
            lemma_half_back(a.len() as int, n, i);
            lemma_pack_word(a[i - n], a[i]);
        }
    }
    assert(u =~= a);
}

/// The packed words of one matrix, without the zeros that condensing leaves:
/// word `i` packs the two residues of coefficient `i % n` of polynomial
/// `i / n`.
pub open spec fn packed(a: Seq<u64>, cells: int, n: int) -> Seq<u64> {
    Seq::new(
        (cells * n) as nat,
        |i: int| pack_word(a[(i / n) * (2 * n) + i % n], a[(i / n) * (2 * n) + n + i % n]),
    )
}

/// The packed words of a list of matrices, one after the other.
pub open spec fn packed_all(v: Seq<PolyMatrixNTT>, cells: int, n: int) -> Seq<u64>
    decreases v.len(),
{
    if v.len() == 0 {
        Seq::empty()
    } else {
        packed_all(v.drop_last(), cells, n) + packed(v.last().data@, cells, n)
    }
}

/// Appends the packed words of one matrix.
fn pack_into(out: &mut Vec<u64>, a: &Vec<u64>, cells: usize, n: usize)
    requires
        0 < n,
        cells * (2 * n) <= a@.len(),
    ensures
        final(out)@ == old(out)@ + packed(a@, cells as int, n as int),
{
    let ghost before = out@;
    let len: usize = a.len();
    let mut k: usize = 0;
    let mut base: usize = 0;
    assert(0 * n == 0);
    assert(0 * (2 * n) == 0);
    while k < cells
        invariant
            0 < n,
            len == a@.len(),
            cells * (2 * n) <= len,
            k <= cells,
            base == k * (2 * n),
            out@.len() == before.len() + k * n,
            forall|i: int| 0 <= i < before.len() ==> out@[i] == before[i],
            forall|i: int|
                0 <= i < k * n ==> #[trigger] out@[before.len() + i] == packed(
                    a@,
                    cells as int,
                    n as int,
                )[i],
        decreases cells - k,
    {
        assert(k * (2 * n) + 2 * n <= cells * (2 * n) && (k + 1) * (2 * n) == k * (2 * n) + 2 * n
            && (k + 1) * n == k * n + n && 0 <= k * n && (k + 1) * n <= cells * n)
            by (nonlinear_arith)
            requires
                0 <= k,
                k + 1 <= cells,
                0 < n,
        ;
        let mut z: usize = 0;
        while z < n
            invariant
                0 < n,
                len == a@.len(),
                k < cells,
                base == k * (2 * n),
                base + 2 * n <= len,
                z <= n,
                0 <= k * n,
                k * n + n <= cells * n,
                out@.len() == before.len() + k * n + z,
                forall|i: int| 0 <= i < before.len() ==> out@[i] == before[i],
                forall|i: int|
                    0 <= i < k * n + z ==> #[trigger] out@[before.len() + i] == packed(
                        a@,
                        cells as int,
                        n as int,
                    )[i],
            decreases n - z,
        {
            proof {
                vstd::arithmetic::div_mod::lemma_fundamental_div_mod_converse(
                    k * n + z,
                    n as int,
                    k as int,
                    z as int,
                );
            }
            out.push(a[base + z] | (a[base + z + n] << 32));
            z = z + 1;
        }
        base = base + 2 * n;
        k = k + 1;
    }
    proof {
        let p = packed(a@, cells as int, n as int);
        assert forall|j: int| before.len() <= j < out@.len() implies out@[j] == p[j
            - before.len()] by {
            assert(out@[before.len() + (j - before.len())] == p[j - before.len()]);
        }
        assert(p.len() == cells * n);
        assert(out@ =~= before + p);
    }
}

/// Packs a list of matrices of one shape, each coefficient's two residues in
/// one word.
pub fn pack_vec_pm(params: &Params, rows: usize, cols: usize, v_cts: &Vec<PolyMatrixNTT>) -> (r:
    AlignedMemory64)
    requires
        params.crt_count == 2,
        0 < params.poly_len,
        0 < v_cts@.len(),
        v_cts@[0].rows == rows,
        v_cts@[0].cols == cols,
        0 < rows * cols <= usize::MAX,
        forall|i: int|
            0 <= i < v_cts@.len() ==> rows * cols * (2 * params.poly_len)
                <= (#[trigger] v_cts@[i]).data@.len(),
        v_cts@.len() * (rows * cols * params.poly_len) * 8 + 64 <= isize::MAX,
    ensures
        words(r) == packed_all(v_cts@, rows * cols, params.poly_len as int),
        words(r).len() == v_cts@.len() * (rows * cols * params.poly_len),
{
    let n: usize = params.poly_len;
    let cells: usize = rows * cols;
    let mut out: Vec<u64> = Vec::new();
    let mut i: usize = 0;
    assert(v_cts@.subrange(0, 0) =~= Seq::empty());
    assert(0 * (cells * n) == 0);
    while i < v_cts.len()
        invariant
            n == params.poly_len,
            cells == rows * cols,
            0 < n,
            i <= v_cts@.len(),
            forall|k: int|
                0 <= k < v_cts@.len() ==> cells * (2 * n) <= (#[trigger] v_cts@[k]).data@.len(),
            out@ == packed_all(v_cts@.subrange(0, i as int), cells as int, n as int),
            out@.len() == i * (cells * n),
        decreases v_cts@.len() - i,
    {
        pack_into(&mut out, &v_cts[i].data, cells, n);
        proof {
            let p = v_cts@.subrange(0, i + 1);
            assert(p.drop_last() =~= v_cts@.subrange(0, i as int));
            assert(0 <= cells * n) by (nonlinear_arith)
                requires
                    0 <= cells,
                    0 <= n,
            ;
            assert((i + 1) * (cells * n) == i * (cells * n) + cells * n) by (nonlinear_arith);
        }
        i = i + 1;
    }
    assert(v_cts@.subrange(0, v_cts@.len() as int) =~= v_cts@);
    assert(0 < v_cts@.len() * (cells * n)) by (nonlinear_arith)
        requires
            0 < v_cts@.len(),
            0 < cells,
            0 < n,
    ;
    aligned_from_slice(out.as_slice())
}

/// The words of a matrix whose polynomials start with `n` words of `data` each
/// and are zero behind them.
pub open spec fn spread(data: Seq<u64>, cells: int, n: int) -> Seq<u64> {
    Seq::new(
        (cells * (2 * n)) as nat,
        |i: int|
            if i % (2 * n) < n {
                data[(i / (2 * n)) * n + i % (2 * n)]
            } else {
                0
            },
    )
}

/// The words of one matrix, spread out.
fn spread_words(data: &[u64], cells: usize, n: usize) -> (r: Vec<u64>)
    requires
        0 < n <= 0x10000,
        cells * n <= data@.len(),
        cells * (2 * n) <= usize::MAX,
    ensures
        r@ == spread(data@, cells as int, n as int),
{
    let total: usize = cells * (2 * n);
    let len: usize = data.len();
    let mut out: Vec<u64> = Vec::new();
    let mut k: usize = 0;
    let mut base: usize = 0;
    assert(0 * n == 0);
    assert(0 * (2 * n) == 0);
    while k < cells
        invariant
            0 < n <= 0x10000,
            len == data@.len(),
            cells * n <= len,
            total == cells * (2 * n),
            k <= cells,
            base == k * n,
            out@.len() == k * (2 * n),
            forall|i: int|
                0 <= i < k * (2 * n) ==> #[trigger] out@[i] == spread(
                    data@,
                    cells as int,
                    n as int,
                )[i],
        decreases cells - k,
    {
        assert(k * (2 * n) + 2 * n <= cells * (2 * n) && (k + 1) * (2 * n) == k * (2 * n) + 2 * n
            && (k + 1) * n == k * n + n && 0 <= k * (2 * n) && (k + 1) * n <= cells * n)
            by (nonlinear_arith)
            requires
                0 <= k,
                k + 1 <= cells,
                0 < n,
        ;
        let mut z: usize = 0;
        while z < 2 * n
            invariant
                0 < n <= 0x10000,
                len == data@.len(),
                total == cells * (2 * n),
                k < cells,
                base == k * n,
                base + n <= len,
                z <= 2 * n,
                0 <= k * (2 * n),
                k * (2 * n) + 2 * n <= total,
                out@.len() == k * (2 * n) + z,
                forall|i: int|
                    0 <= i < k * (2 * n) + z ==> #[trigger] out@[i] == spread(
                        data@,
                        cells as int,
                        n as int,
                    )[i],
            decreases 2 * n - z,
        {
            proof {
                vstd::arithmetic::div_mod::lemma_fundamental_div_mod_converse(
                    k * (2 * n) + z,
                    2 * n,
                    k as int,
                    z as int,
                );
            }
            if z < n {
                out.push(data[base + z]);
            } else {
                out.push(0);
            }
            z = z + 1;
        }
        base = base + n;
        k = k + 1;
    }
    assert(out@ =~= spread(data@, cells as int, n as int));
    out
}

/// Splits packed words into matrices of the given shape. The words stay
/// packed: `uncondense_matrix` completes the way back from `pack_vec_pm`.
pub fn unpack_vec_pm<'a>(params: &'a Params, rows: usize, cols: usize, data: &[u64]) -> (r: Vec<
    PolyMatrixNTT<'a>,
>)
    requires
        params.crt_count == 2,
        0 < params.poly_len <= 0x10000,
        0 < rows * cols <= usize::MAX,
        rows * cols * (2 * params.poly_len) <= usize::MAX,
    ensures
        r@.len() == data@.len() as int / (rows * cols * params.poly_len),
        forall|i: int|
            0 <= i < r@.len() ==> (#[trigger] r@[i]).rows == rows && r@[i].cols == cols
                && r@[i].params == params && r@[i].wf() && r@[i].data@ == spread(
                data@.subrange(
                    i * (rows * cols * params.poly_len),
                    (i + 1) * (rows * cols * params.poly_len),
                ),
                rows * cols,
                params.poly_len as int,
            ),
{
    let n: usize = params.poly_len;
    let cells: usize = rows * cols;
    assert(cells * (2 * n) == 2 * (cells * n) && 0 < cells * n) by (nonlinear_arith)
        requires
            0 < cells,
            0 < n,
    ;
    let size: usize = cells * n;
    let total: usize = data.len();
    let count: usize = total / size;
    assert(count * size <= total) by (nonlinear_arith)
        requires
            count == total as int / size as int,
            size > 0,
    ;
    let mut v_cts: Vec<PolyMatrixNTT<'a>> = Vec::new();
    let mut i: usize = 0;
    let mut start: usize = 0;
    assert(0 * size == 0);
    while i < count
        invariant
            n == params.poly_len,
            cells == rows * cols,
            size == rows * cols * params.poly_len,
            size == cells * n,
            0 < n <= 0x10000,
            cells * (2 * n) <= usize::MAX,
            total == data@.len(),
            count * size <= total,
            i <= count,
            start == i * size,
            v_cts@.len() == i,
            forall|k: int|
                0 <= k < i ==> (#[trigger] v_cts@[k]).rows == rows && v_cts@[k].cols == cols
                    && v_cts@[k].params == params && v_cts@[k].wf() && v_cts@[k].data@ == spread(
                    data@.subrange(k * size, (k + 1) * size),
                    rows * cols,
                    params.poly_len as int,
                ),
        decreases count - i,
    {
        assert((i + 1) * size <= count * size && (i + 1) * size == i * size + size)
            by (nonlinear_arith)
            requires
                i + 1 <= count,
        ;
        let part: &[u64] = vstd::slice::slice_subrange(data, start, start + size);
        let words: Vec<u64> = spread_words(part, cells, n);
        v_cts.push(PolyMatrixNTT { params, rows, cols, data: words });
        start = start + size;
        i = i + 1;
    }
    v_cts
}

/// Unpacking the packed words of a matrix gives its condensed form.
pub proof fn lemma_spread_of_packed(a: Seq<u64>, cells: int, n: int)
    requires
        n > 0,
        cells >= 0,
        a.len() == cells * (2 * n),
    ensures
        spread(packed(a, cells, n), cells, n) == condensed(a, n),
{
    let s = spread(packed(a, cells, n), cells, n);
    let c = condensed(a, n);
    let m = 2 * n;
    assert forall|i: int| 0 <= i < a.len() implies s[i] == c[i] by {
        if i % m < n {
            vstd::arithmetic::div_mod::lemma_fundamental_div_mod(i, m);
            let q = i / m;
            let z = i % m;
            assert(m * q == q * m) by (nonlinear_arith);
            assert(0 <= q < cells) by (nonlinear_arith)
                requires
                    i == m * q + z,
                    0 <= z < m,
                    0 <= i < cells * m,
                    m > 0,
            ;
            assert(0 <= q * n && q * n + n <= cells * n) by (nonlinear_arith)
                requires
                    0 <= q,
                    q + 1 <= cells,
                    n > 0,
            ;
            vstd::arithmetic::div_mod::lemma_fundamental_div_mod_converse(q * n + z, n, q, z);
        }
    }
    assert(s =~= c);
}

/// The packed words of the matrices of a list stand one behind the other.
pub proof fn lemma_packed_all_part(v: Seq<PolyMatrixNTT>, cells: int, n: int, i: int)
    requires
        n > 0,
        cells >= 0,
        0 <= i < v.len(),
    ensures
        packed_all(v, cells, n).len() == v.len() * (cells * n),
        packed_all(v, cells, n).subrange(i * (cells * n), (i + 1) * (cells * n)) == packed(
            v[i].data@,
            cells,
            n,
        ),
    decreases v.len(),
{
    let size = cells * n;
    assert(0 <= size) by (nonlinear_arith)
        requires
            cells >= 0,
            n > 0,
            size == cells * n,
    ;
    let t = v.drop_last();
    lemma_packed_all_len(t, cells, n);
    assert(v.len() * size == t.len() * size + size) by (nonlinear_arith)
        requires
            v.len() == t.len() + 1,
    ;
    assert((i + 1) * size == i * size + size) by (nonlinear_arith);
    if i < t.len() {
        lemma_packed_all_part(t, cells, n, i);
        assert(0 <= i * size && (i + 1) * size <= t.len() * size) by (nonlinear_arith)
            requires
                0 <= i,
                i + 1 <= t.len(),
                0 <= size,
        ;
        assert(packed_all(v, cells, n).subrange(i * size, (i + 1) * size) =~= packed_all(
            t,
            cells,
            n,
        ).subrange(i * size, (i + 1) * size));
    } else {
        assert(packed_all(v, cells, n).subrange(i * size, (i + 1) * size) =~= packed(
            v[i].data@,
            cells,
            n,
        ));
    }
}

/// The length of the packed words of a list.
proof fn lemma_packed_all_len(v: Seq<PolyMatrixNTT>, cells: int, n: int)
    requires
        n > 0,
        cells >= 0,
    ensures
        packed_all(v, cells, n).len() == v.len() * (cells * n),
    decreases v.len(),
{
    let size = cells * n;
    assert(0 <= size) by (nonlinear_arith)
        requires
            cells >= 0,
            n > 0,
            size == cells * n,
    ;
    if v.len() == 0 {
        assert(0 * size == 0);
    } else {
        lemma_packed_all_len(v.drop_last(), cells, n);
        assert(v.len() * size == (v.len() - 1) * size + size) by (nonlinear_arith);
    }
}

/// Packing, unpacking and uncondensing gives back every matrix of a list whose
/// residues fit half a word.
pub proof fn pack_round_trip(v: Seq<PolyMatrixNTT>, cells: int, n: int, i: int)
    requires
        n > 0,
        cells >= 0,
        0 <= i < v.len(),
        v[i].data@.len() == cells * (2 * n),
        forall|k: int| 0 <= k < v[i].data@.len() ==> #[trigger] v[i].data@[k] < 0x1_0000_0000,
    ensures
        uncondensed(
            spread(
                packed_all(v, cells, n).subrange(i * (cells * n), (i + 1) * (cells * n)),
                cells,
                n,
            ),
            n,
        ) == v[i].data@,
{
    lemma_packed_all_part(v, cells, n, i);
    lemma_spread_of_packed(v[i].data@, cells, n);
    uncondense_undoes_condense(v[i].data@, cells, n);
}

/// Packing a condensed matrix gives the same words as packing the matrix:
/// word `z` of polynomial `j` packs its two residues.
pub proof fn lemma_packed_condensed(a: Seq<u64>, cells: int, n: int, j: int, z: int)
    requires
        n > 0,
        a.len() == cells * (2 * n),
        0 <= j < cells,
        0 <= z < n,
    ensures
        0 <= j * n + z < cells * n,
        packed(condensed(a, n), cells, n)[j * n + z] == pack_word(
            a[j * (2 * n) + z],
            a[j * (2 * n) + n + z],
        ),
{
    let m = 2 * n;
    assert(0 <= j * n && j * n + n <= cells * n && 0 <= j * m && j * m + m <= cells * m)
        by (nonlinear_arith)
        requires
            0 <= j,
            j + 1 <= cells,
            n > 0,
            m == 2 * n,
    ;
    vstd::arithmetic::div_mod::lemma_fundamental_div_mod_converse(j * n + z, n, j, z);
    vstd::arithmetic::div_mod::lemma_fundamental_div_mod_converse(j * m + z, m, j, z);
    vstd::arithmetic::div_mod::lemma_fundamental_div_mod_converse(j * m + n + z, m, j, n + z);
    let w = pack_word(a[j * m + z], a[j * m + n + z]);
    assert((w | (0u64 << 32)) == w) by (bit_vector);
}

} // verus!
