//! The ring of polynomials modulo `x^n + 1` and the ciphertext modulus, and
//! the matrices that multiply by one of its elements.
use crate::kernel::row_by_column;
use crate::params::MODULUS;
use vstd::arithmetic::div_mod::{
    lemma_add_mod_noop, lemma_fundamental_div_mod, lemma_mod_multiples_vanish,
};
use vstd::prelude::*;

verus! {

/// The contribution of coefficient `i` of `a` to coefficient `z` of the product
/// of `a` and `b`: what runs over degree `n` comes back with its sign changed.
pub open spec fn conv_term(a: Seq<u64>, b: Seq<u64>, n: int, z: int, i: int) -> int {
    if i <= z {
        a[i] * b[z - i]
    } else {
        -(a[i] * b[n + z - i])
    }
}

/// The sum of the contributions of the first `k` coefficients of `a`.
pub open spec fn conv_sum(a: Seq<u64>, b: Seq<u64>, n: int, z: int, k: int) -> int
    decreases k,
{
    if k <= 0 {
        0
    } else {
        conv_sum(a, b, n, z, k - 1) + conv_term(a, b, n, z, k - 1)
    }
}

/// The residue of a number.
pub open spec fn residue(x: int) -> u64 {
    (x % MODULUS as int) as u64
}

/// The product of two ring elements.
pub open spec fn ring_mul(a: Seq<u64>, b: Seq<u64>, n: int) -> Seq<u64> {
    Seq::new(n as nat, |z: int| residue(conv_sum(a, b, n, z, n)))
}

/// The sum of two ring elements.
pub open spec fn ring_add(a: Seq<u64>, b: Seq<u64>, n: int) -> Seq<u64> {
    Seq::new(n as nat, |z: int| residue(a[z] + b[z]))
}

/// The negative of a ring element.
pub open spec fn ring_neg(a: Seq<u64>, n: int) -> Seq<u64> {
    Seq::new(n as nat, |z: int| residue(-a[z]))
}

/// A ring element times a number.
pub open spec fn ring_scale(a: Seq<u64>, k: int, n: int) -> Seq<u64> {
    Seq::new(n as nat, |z: int| residue(k * a[z]))
}

/// The ring element with the given coefficients, each reduced.
pub open spec fn reduced(a: Seq<u64>, n: int) -> Seq<u64> {
    Seq::new(n as nat, |z: int| residue(a[z] as int))
}

/// The `n` coefficients are residues of the modulus.
pub open spec fn is_ring(a: Seq<u64>, n: int) -> bool {
    a.len() == n && forall|z: int| 0 <= z < n ==> #[trigger] a[z] < MODULUS
}

/// Element `i` of the rotation of `a` by `shift`: the reversed beginning of
/// `a`, then the reversed rest with its sign changed.
pub open spec fn perm_at(a: Seq<u64>, shift: int, i: int, modulus: u64) -> u64 {
    if i <= shift {
        a[shift - i]
    } else {
        ((modulus - a[a.len() - (i - shift)] as int % modulus as int) % modulus as int) as u64
    }
}

/// The rotation of `a` by `shift`.
pub fn negacyclic_perm(a: &[u64], shift: usize, modulus: u64) -> (r: Vec<u64>)
    requires
        shift < a@.len(),
        modulus > 0,
    ensures
        r@ == Seq::new(a@.len(), |i: int| perm_at(a@, shift as int, i, modulus)),
{
    let n: usize = a.len();
    let mut out: Vec<u64> = Vec::new();
    let mut i: usize = 0;
    while i < n
        invariant
            n == a@.len(),
            shift < n,
            modulus > 0,
            i <= n,
            out@.len() == i,
            forall|k: int|
                0 <= k < i ==> #[trigger] out@[k] == perm_at(a@, shift as int, k, modulus),
        decreases n - i,
    {
        if i <= shift {
            out.push(a[shift - i]);
        } else {
            let v: u64 = a[n - (i - shift)] % modulus;
            let w: u64 = if v == 0 {
                0
            } else {
                modulus - v
            };
            proof {
                if v == 0 {
                    vstd::arithmetic::div_mod::lemma_mod_self_0(modulus as int);
                } else {
                    vstd::arithmetic::div_mod::lemma_small_mod(
                        (modulus - v) as nat,
                        modulus as nat,
                    );
                }
            }
            out.push(w);
        }
        i = i + 1;
    }
    assert(out@ =~= Seq::new(a@.len(), |k: int| perm_at(a@, shift as int, k, modulus)));
    out
}

/// `m` is the `n` by `n` matrix, stored row by row, whose column `i` is the
/// rotation of `a` by `i`.
pub open spec fn is_negacyclic_matrix(m: Seq<u64>, a: Seq<u64>, modulus: u64) -> bool {
    let n = a.len() as int;
    &&& m.len() == n * n
    &&& forall|j: int, i: int|
        0 <= j < n && 0 <= i < n ==> #[trigger] m[j * n + i] == perm_at(a, i, j, modulus)
}

/// The matrix that multiplies row vectors by the ring element `a`.
pub fn negacyclic_matrix(a: &[u64], modulus: u64) -> (r: Vec<u64>)
    requires
        modulus > 0,
        a@.len() * a@.len() <= usize::MAX,
    ensures
        is_negacyclic_matrix(r@, a@, modulus),
{
    let n: usize = a.len();
    let mut out: Vec<u64> = Vec::new();
    let mut j: usize = 0;
    assert(0 * n == 0);
    while j < n
        invariant
            n == a@.len(),
            modulus > 0,
            j <= n,
            out@.len() == j * n,
            forall|x: int, y: int|
                0 <= x < j && 0 <= y < n ==> #[trigger] out@[x * n + y] == perm_at(
                    a@,
                    y,
                    x,
                    modulus,
                ),
        decreases n - j,
    {
        let mut i: usize = 0;
        while i < n
            invariant
                n == a@.len(),
                modulus > 0,
                j < n,
                i <= n,
                out@.len() == j * n + i,
                forall|x: int, y: int|
                    ((0 <= x < j && 0 <= y < n) || (x == j && 0 <= y < i)) ==> #[trigger] out@[x * n
                        + y] == perm_at(a@, y, x, modulus),
            decreases n - i,
        {
            let ghost prev = out@;
            if j <= i {
                out.push(a[i - j]);
            } else {
                let v: u64 = a[n - (j - i)] % modulus;
                let w: u64 = if v == 0 {
                    0
                } else {
                    modulus - v
                };
                proof {
                    if v == 0 {
                        vstd::arithmetic::div_mod::lemma_mod_self_0(modulus as int);
                    } else {
                        vstd::arithmetic::div_mod::lemma_small_mod(
                            (modulus - v) as nat,
                            modulus as nat,
                        );
                    }
                }
                out.push(w);
            }
            proof {
                assert forall|x: int, y: int|
                    ((0 <= x < j && 0 <= y < n) || (x == j && 0 <= y < i)) implies #[trigger] out@[x
                    * n + y] == prev[x * n + y] by {
                    assert(0 <= x * n && x * n + y < j * n + i) by (nonlinear_arith)
                        requires
                            0 <= x <= j,
                            0 <= y < n,
                            x < j || y < i,
                            0 <= i,
                    ;
                }
            }
            i = i + 1;
        }
        assert((j + 1) * n == j * n + n) by (nonlinear_arith);
        j = j + 1;
    }
    out
}

/// Multiplying a row vector by the matrix of `a` is multiplying ring elements:
/// the products with the columns of the matrix are, modulo the modulus, the
/// coefficients of the product of `s` and `a`.
pub proof fn matrix_product_is_ring_product(m: Seq<u64>, a: Seq<u64>, s: Seq<u64>, i: int)
    requires
        is_negacyclic_matrix(m, a, MODULUS),
        s.len() == a.len(),
        0 <= i < a.len(),
    ensures
        row_by_column(s, a.len() as int, 0, m, a.len() as int, i, a.len() as int) % MODULUS as int
            == conv_sum(s, a, a.len() as int, i, a.len() as int) % MODULUS as int,
{
    lemma_matrix_prefix(m, a, s, i, a.len() as int);
}

/// The first `k` terms of a matrix product agree with those of a ring product.
proof fn lemma_matrix_prefix(m: Seq<u64>, a: Seq<u64>, s: Seq<u64>, i: int, k: int)
    requires
        is_negacyclic_matrix(m, a, MODULUS),
        s.len() == a.len(),
        0 <= i < a.len(),
        0 <= k <= a.len(),
    ensures
        row_by_column(s, a.len() as int, 0, m, a.len() as int, i, k) % MODULUS as int == conv_sum(
            s,
            a,
            a.len() as int,
            i,
            k,
        ) % MODULUS as int,
    decreases k,
{
    let n = a.len() as int;
    let q = MODULUS as int;
    if k > 0 {
        lemma_matrix_prefix(m, a, s, i, k - 1);
        let j = k - 1;
        assert(m[j * n + i] == perm_at(a, i, j, MODULUS));
        let x = row_by_column(s, n, 0, m, n, i, j);
        let y = conv_sum(s, a, n, i, j);
        let t = s[0 * n + j] * m[j * n + i];
        let u = conv_term(s, a, n, i, j);
        assert(0 * n + j == j);
        assert(t % q == u % q) by {
            if j > i {
                let v = a[n + i - j] as int;
                let w = m[j * n + i] as int;
                assert(n - (j - i) == n + i - j);
                assert(w == (q - v % q) % q);
                lemma_fundamental_div_mod(q - v % q, q);
                lemma_fundamental_div_mod(v, q);
                let f = (q - v % q) / q;
                let g = v / q;
                let sj = s[j] as int;
                assert(sj * w == q * (sj * (1 - f + g)) + u) by (nonlinear_arith)
                    requires
                        q - v % q == q * f + w,
                        v == q * g + v % q,
                        u == -(sj * v),
                ;
                lemma_mod_multiples_vanish(sj * (1 - f + g), u, q);
            }
        }
        lemma_add_mod_noop(x, t, q);
        lemma_add_mod_noop(y, u, q);
    }
}

/// `r` holds matrices of `rows` by `cols` words side by side: row `i` of `r` is
/// row `i` of the first matrix, then row `i` of the second, and so on.
pub open spec fn is_side_by_side(r: Seq<u64>, v: Seq<Vec<u64>>, rows: int, cols: int) -> bool {
    &&& r.len() == rows * (v.len() * cols)
    &&& forall|i: int, k: int, j: int|
        0 <= i < rows && 0 <= k < v.len() && 0 <= j < cols ==> #[trigger] r[i * (v.len() * cols) + (
        k * cols + j)] == v[k]@[i * cols + j]
}

/// Puts matrices of `a_rows` by `a_cols` words side by side.
pub fn concat_horizontal(v_a: &Vec<Vec<u64>>, a_rows: usize, a_cols: usize) -> (r: Vec<u64>)
    requires
        forall|k: int| 0 <= k < v_a@.len() ==> (#[trigger] v_a@[k])@.len() == a_rows * a_cols,
        a_rows * (v_a@.len() * a_cols) <= usize::MAX,
    ensures
        is_side_by_side(r@, v_a@, a_rows as int, a_cols as int),
        r@.len() == a_rows * (v_a@.len() * a_cols),
        forall|i: int, k: int, j: int|
            0 <= i < a_rows && 0 <= k < v_a@.len() && 0 <= j < a_cols ==> #[trigger] r@[i * (
            v_a@.len() * a_cols) + (k * a_cols + j)] == v_a@[k]@[i * a_cols + j],
{
    let len: usize = v_a.len();
    let ghost width = len * a_cols;
    let mut out: Vec<u64> = Vec::new();
    let mut i: usize = 0;
    assert(0 * width == 0);
    while i < a_rows
        invariant
            len == v_a@.len(),
            width == len * a_cols,
            forall|k: int| 0 <= k < len ==> (#[trigger] v_a@[k])@.len() == a_rows * a_cols,
            i <= a_rows,
            out@.len() == i * width,
            forall|x: int, k: int, y: int|
                0 <= x < i && 0 <= k < len && 0 <= y < a_cols ==> #[trigger] out@[x * width + (k
                    * a_cols + y)] == v_a@[k]@[x * a_cols + y],
        decreases a_rows - i,
    {
        let mut k: usize = 0;
        assert(0 * a_cols == 0);
        while k < len
            invariant
                len == v_a@.len(),
                width == len * a_cols,
                forall|c: int| 0 <= c < len ==> (#[trigger] v_a@[c])@.len() == a_rows * a_cols,
                i < a_rows,
                k <= len,
                out@.len() == i * width + k * a_cols,
                forall|x: int, c: int, y: int|
                    (0 <= x < i && 0 <= c < len && 0 <= y < a_cols) || (x == i && 0 <= c < k && 0
                        <= y < a_cols) ==> #[trigger] out@[x * width + (c * a_cols + y)]
                        == v_a@[c]@[x * a_cols + y],
            decreases len - k,
        {
            let ghost before = out@;
            assert(i * a_cols + a_cols <= a_rows * a_cols && 0 <= i * a_cols) by (nonlinear_arith)
                requires
                    0 <= i,
                    i + 1 <= a_rows,
                    0 <= a_cols,
            ;
            assert(v_a@[k as int]@.len() == a_rows * a_cols);
            let part_len: usize = v_a[k].len();
            let start: usize = i * a_cols;
            let mut j: usize = 0;
            while j < a_cols
                invariant
                    k < len,
                    len == v_a@.len(),
                    part_len == v_a@[k as int]@.len(),
                    start == i * a_cols,
                    start + a_cols <= part_len,
                    j <= a_cols,
                    out@.len() == before.len() + j,
                    forall|p: int| 0 <= p < before.len() ==> out@[p] == before[p],
                    forall|y: int|
                        0 <= y < j ==> #[trigger] out@[before.len() + y] == v_a@[k as int]@[i
                            * a_cols + y],
                decreases a_cols - j,
            {
                out.push(v_a[k][start + j]);
                j = j + 1;
            }
            proof {
                assert((k + 1) * a_cols == k * a_cols + a_cols) by (nonlinear_arith);
                assert forall|x: int, c: int, y: int|
                    (0 <= x < i && 0 <= c < len && 0 <= y < a_cols) || (x == i && 0 <= c < k + 1
                        && 0 <= y < a_cols) implies #[trigger] out@[x * width + (c * a_cols + y)]
                    == v_a@[c]@[x * a_cols + y] by {
                    if x == i && c == k {
                        assert(out@[before.len() + y] == v_a@[k as int]@[i * a_cols + y]);
                    } else {
                        lemma_before(
                            width as int,
                            len as int,
                            a_cols as int,
                            x,
                            c,
                            y,
                            i as int,
                            k as int,
                        );
                        assert(before[x * width + (c * a_cols + y)] == v_a@[c]@[x * a_cols + y]);
                    }
                }
            }
            k = k + 1;
        }
        assert((i + 1) * width == i * width + width) by (nonlinear_arith);
        i = i + 1;
    }
    out
}

/// Cells that come first in row order stand before the others.
proof fn lemma_before(
    width: int,
    len: int,
    cols: int,
    x: int,
    c: int,
    y: int,
    i: int,
    k: int,
)
    requires
        width == len * cols,
        0 <= len,
        0 <= y < cols,
        0 <= k,
        (0 <= x < i && 0 <= c < len) || (x == i && 0 <= i && 0 <= c < k),
    ensures
        0 <= x * width + (c * cols + y) < i * width + k * cols,
{
    assert(0 <= c * cols) by (nonlinear_arith)
        requires
            0 <= c,
            0 < cols,
    ;
    assert(0 <= k * cols) by (nonlinear_arith)
        requires
            0 <= k,
            0 < cols,
    ;
    if x < i {
        assert(c * cols + cols <= len * cols) by (nonlinear_arith)
            requires
                c + 1 <= len,
                0 < cols,
        ;
        assert(0 <= width) by (nonlinear_arith)
            requires
                0 <= len,
                0 < cols,
                width == len * cols,
        ;
        assert(x * width + width <= i * width && 0 <= x * width) by (nonlinear_arith)
            requires
                0 <= x,
                x + 1 <= i,
                0 <= width,
        ;
    } else {
        assert(c * cols + cols <= k * cols) by (nonlinear_arith)
            requires
                c + 1 <= k,
                0 < cols,
        ;
        assert(0 <= i * width) by (nonlinear_arith)
            requires
                0 <= i,
                0 <= len,
                0 < cols,
                width == len * cols,
        {
            assert(0 <= len * cols);
        }
    }
}

/// Element `i` of the rotation of `a` by `shift` modulo two to the 32nd.
pub open spec fn perm_u32_at(a: Seq<u32>, shift: int, i: int) -> u32 {
    if i <= shift {
        a[shift - i]
    } else {
        ((0x1_0000_0000 - a[a.len() - (i - shift)]) % 0x1_0000_0000) as u32
    }
}

/// `m` is the `n` by `n` matrix, stored row by row, whose column `i` is the
/// rotation of `a` by `i` modulo two to the 32nd.
pub open spec fn is_negacyclic_matrix_u32(m: Seq<u32>, a: Seq<u32>) -> bool {
    let n = a.len() as int;
    &&& m.len() == n * n
    &&& forall|j: int, i: int|
        0 <= j < n && 0 <= i < n ==> #[trigger] m[j * n + i] == perm_u32_at(a, i, j)
}

/// The matrix that multiplies row vectors by `a` modulo two to the 32nd.
pub fn negacyclic_matrix_u32(a: &[u32]) -> (r: Vec<u32>)
    requires
        a@.len() * a@.len() <= usize::MAX,
    ensures
        is_negacyclic_matrix_u32(r@, a@),
{
    let n: usize = a.len();
    let mut out: Vec<u32> = Vec::new();
    let mut j: usize = 0;
    assert(0 * n == 0);
    while j < n
        invariant
            n == a@.len(),
            j <= n,
            out@.len() == j * n,
            forall|x: int, y: int|
                0 <= x < j && 0 <= y < n ==> #[trigger] out@[x * n + y] == perm_u32_at(a@, y, x),
        decreases n - j,
    {
        let mut i: usize = 0;
        while i < n
            invariant
                n == a@.len(),
                j < n,
                i <= n,
                out@.len() == j * n + i,
                forall|x: int, y: int|
                    ((0 <= x < j && 0 <= y < n) || (x == j && 0 <= y < i)) ==> #[trigger] out@[x * n
                        + y] == perm_u32_at(a@, y, x),
            decreases n - i,
        {
            let ghost prev = out@;
            if j <= i {
                out.push(a[i - j]);
            } else {
                let v: u64 = (0x1_0000_0000 - a[n - (j - i)] as u64) % 0x1_0000_0000;
                out.push(v as u32);
            }
            proof {
                assert forall|x: int, y: int|
                    ((0 <= x < j && 0 <= y < n) || (x == j && 0 <= y < i)) implies #[trigger] out@[x
                    * n + y] == prev[x * n + y] by {
                    assert(0 <= x * n && x * n + y < j * n + i) by (nonlinear_arith)
                        requires
                            0 <= x <= j,
                            0 <= y < n,
                            x < j || y < i,
                            0 <= i,
                    ;
                }
            }
            i = i + 1;
        }
        assert((j + 1) * n == j * n + n) by (nonlinear_arith);
        j = j + 1;
    }
    out
}

/// `b` is the constant `c`.
pub open spec fn is_constant(b: Seq<u64>, c: int, n: int) -> bool {
    &&& b.len() == n
    &&& n > 0
    &&& b[0] == c
    &&& forall|z: int| 1 <= z < n ==> #[trigger] b[z] == 0
}

/// Multiplying by a constant on the right scales every coefficient.
pub proof fn lemma_mul_constant_right(a: Seq<u64>, b: Seq<u64>, c: int, n: int)
    requires
        a.len() == n,
        is_constant(b, c % MODULUS as int, n),
    ensures
        ring_mul(a, b, n) == ring_scale(a, c, n),
{
    let q = MODULUS as int;
    assert forall|z: int| 0 <= z < n implies #[trigger] ring_mul(a, b, n)[z] == ring_scale(
        a,
        c,
        n,
    )[z] by {
        lemma_conv_constant_right(a, b, n, z, n);
        vstd::arithmetic::div_mod::lemma_mul_mod_noop_right(a[z] as int, c, q);
        assert(a[z] * c == c * a[z]) by (nonlinear_arith);
    }
    assert(ring_mul(a, b, n) =~= ring_scale(a, c, n));
}

/// The partial sums of a product with a constant on the right.
proof fn lemma_conv_constant_right(a: Seq<u64>, b: Seq<u64>, n: int, z: int, k: int)
    requires
        a.len() == n,
        b.len() == n,
        forall|i: int| 1 <= i < n ==> #[trigger] b[i] == 0,
        0 <= z < n,
        0 <= k <= n,
    ensures
        conv_sum(a, b, n, z, k) == if k > z {
            a[z] * b[0]
        } else {
            0
        },
    decreases k,
{
    if k > 0 {
        let i = k - 1;
        lemma_conv_constant_right(a, b, n, z, i);
        let x = a[i] as int;
        assert(x * 0 == 0) by (nonlinear_arith);
        if i < z {
            assert(b[z - i] == 0);
        } else if i > z {
            assert(b[n + z - i] == 0);
        }
    }
}

/// Multiplying by a constant on the left scales every coefficient.
pub proof fn lemma_mul_constant_left(a: Seq<u64>, b: Seq<u64>, c: int, n: int)
    requires
        b.len() == n,
        is_constant(a, c % MODULUS as int, n),
    ensures
        ring_mul(a, b, n) == ring_scale(b, c, n),
{
    let q = MODULUS as int;
    assert forall|z: int| 0 <= z < n implies #[trigger] ring_mul(a, b, n)[z] == ring_scale(
        b,
        c,
        n,
    )[z] by {
        lemma_conv_constant_left(a, b, n, z, n);
        vstd::arithmetic::div_mod::lemma_mul_mod_noop_left(c, b[z] as int, q);
    }
    assert(ring_mul(a, b, n) =~= ring_scale(b, c, n));
}

/// The partial sums of a product with a constant on the left.
proof fn lemma_conv_constant_left(a: Seq<u64>, b: Seq<u64>, n: int, z: int, k: int)
    requires
        a.len() == n,
        b.len() == n,
        forall|i: int| 1 <= i < n ==> #[trigger] a[i] == 0,
        0 <= z < n,
        1 <= k <= n,
    ensures
        conv_sum(a, b, n, z, k) == a[0] * b[z],
    decreases k,
{
    if k == 1 {
        assert(conv_sum(a, b, n, z, 0) == 0);
    } else {
        let i = k - 1;
        lemma_conv_constant_left(a, b, n, z, i);
        assert(a[i] == 0);
        if i <= z {
            let y = b[z - i] as int;
            assert(0 * y == 0) by (nonlinear_arith);
        } else {
            let y = b[n + z - i] as int;
            assert(0 * y == 0) by (nonlinear_arith);
        }
    }
}

/// The results of the ring operations are ring elements.
pub proof fn lemma_ring_closed(a: Seq<u64>, b: Seq<u64>, k: int, n: int)
    requires
        n >= 0,
    ensures
        is_ring(ring_add(a, b, n), n),
        is_ring(ring_mul(a, b, n), n),
        is_ring(ring_scale(a, k, n), n),
        is_ring(reduced(a, n), n),
{
    assert forall|z: int| 0 <= z < n implies #[trigger] ring_add(a, b, n)[z] < MODULUS by {}
    assert forall|z: int| 0 <= z < n implies #[trigger] ring_mul(a, b, n)[z] < MODULUS by {}
    assert forall|z: int| 0 <= z < n implies #[trigger] ring_scale(a, k, n)[z] < MODULUS by {}
    assert forall|z: int| 0 <= z < n implies #[trigger] reduced(a, n)[z] < MODULUS by {}
}

} // verus!
