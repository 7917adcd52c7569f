//! What ciphertexts of the inner layer mean to the holder of its key.
use crate::client::ring_matrix_at;
use crate::lwe::{encrypts_many, key_product, stream_words, two_32};
use crate::ring::{conv_sum, conv_term, is_negacyclic_matrix_u32, perm_u32_at};
use crate::spiral::ChaChaStream;
use vstd::arithmetic::div_mod::{
    lemma_add_mod_noop, lemma_fundamental_div_mod, lemma_mod_multiples_vanish,
};
use vstd::prelude::*;

verus! {

/// The words as numbers of eight bytes.
pub open spec fn wide(a: Seq<u32>) -> Seq<u64> {
    a.map_values(|x: u32| x as u64)
}

/// Multiplying a key by the matrix of `a` is multiplying polynomials modulo
/// `x^n + 1`: the products with the columns of the matrix are, modulo two to the
/// 32nd, the coefficients of the product of `s` and `a`.
pub proof fn matrix_u32_product_is_ring_product(m: Seq<u32>, a: Seq<u32>, s: Seq<u32>, i: int)
    requires
        is_negacyclic_matrix_u32(m, a),
        s.len() == a.len(),
        0 <= i < a.len(),
    ensures
        key_product(m, a.len() as int, i, s, a.len() as int) % 0x1_0000_0000 == conv_sum(
            wide(s),
            wide(a),
            a.len() as int,
            i,
            a.len() as int,
        ) % 0x1_0000_0000,
{
    lemma_matrix_u32_prefix(m, a, s, i, a.len() as int);
}

/// The first `k` terms of a matrix product agree with those of a ring product.
proof fn lemma_matrix_u32_prefix(m: Seq<u32>, a: Seq<u32>, s: Seq<u32>, i: int, k: int)
    requires
        is_negacyclic_matrix_u32(m, a),
        s.len() == a.len(),
        0 <= i < a.len(),
        0 <= k <= a.len(),
    ensures
        key_product(m, a.len() as int, i, s, k) % 0x1_0000_0000 == conv_sum(
            wide(s),
            wide(a),
            a.len() as int,
            i,
            k,
        ) % 0x1_0000_0000,
    decreases k,
{
    let n = a.len() as int;
    let q = 0x1_0000_0000int;
    if k > 0 {
        lemma_matrix_u32_prefix(m, a, s, i, k - 1);
        let j = k - 1;
        assert(m[j * n + i] == perm_u32_at(a, i, j));
        let x = key_product(m, n, i, s, j);
        let y = conv_sum(wide(s), wide(a), n, i, j);
        let t = m[j * n + i] * s[j];
        let u = conv_term(wide(s), wide(a), n, i, j);
        assert(t % q == u % q) by {
            let sj = s[j] as int;
            let w = m[j * n + i] as int;
            if j > i {
                let v = a[n + i - j] as int;
                assert(n - (j - i) == n + i - j);
                assert(w == (q - v) % q);
                let f: int = if v == 0 {
                    0
                } else {
                    1
                };
                assert(w == q * f - v);
                assert(w * sj == q * (sj * f) + u) by (nonlinear_arith)
                    requires
                        w == q * f - v,
                        u == -(sj * v),
                ;
                lemma_mod_multiples_vanish(sj * f, u, q);
            } else {
                assert(w * sj == sj * w) by (nonlinear_arith);
            }
        }
        lemma_add_mod_noop(x, t, q);
        lemma_add_mod_noop(y, u, q);
    }
}

/// Decryption undoes the encryption of many plaintexts up to the noise: the last
/// word of column `c` plus the product of the column with the key is the
/// plaintext of the column plus its noise.
pub proof fn columns_decrypt_to_plaintext_plus_noise(
    ct: Seq<u32>,
    a: Seq<u32>,
    sk: Seq<u32>,
    pt: Seq<u32>,
    e: Seq<u32>,
    c: int,
)
    requires
        encrypts_many(ct, a, sk, pt, e),
        0 <= c < 1024,
    ensures
        (key_product(ct, 1024, c, sk, 1024) + ct[1024 * 1024 + c]) % 0x1_0000_0000 == (pt[c] + e[c])
            % 0x1_0000_0000,
{
    let p = key_product(ct, 1024, c, sk, 1024);
    let x = e[c] + pt[c] - p;
    assert(ct[0x10_0000 + c] == x % two_32());
    lemma_fundamental_div_mod(x, two_32());
    let k = x / two_32();
    assert(p + ct[0x10_0000 + c] == two_32() * (-k) + (pt[c] + e[c]));
    lemma_mod_multiples_vanish(-k, pt[c] + e[c], two_32());
}

/// The matrix that a server draws is that of the ciphertexts: where its first
/// row of blocks and the ciphertexts of `cols` plaintexts come from the same
/// stream, the columns of ciphertext `k` stand above its last row at `k * 1024`.
pub proof fn drawn_matrix_is_that_of_the_ciphertexts(
    rng: ChaChaStream,
    cols: int,
    ct: Seq<u32>,
    k: int,
    sk: Seq<u32>,
    pt: Seq<u32>,
    e: Seq<u32>,
    i: int,
    c: int,
)
    requires
        encrypts_many(ct, stream_words(rng.seed@, rng.pos + k * 1024, 1024), sk, pt, e),
        0 <= k,
        k * 1024 + 1024 <= cols,
        0 <= i < 1024,
        0 <= c < 1024,
    ensures
        ring_matrix_at(rng, 1024, cols, i, k * 1024 + c) == ct[i * 1024 + c],
{
    let a = stream_words(rng.seed@, rng.pos + k * 1024, 1024);
    let top = ct.subrange(0, 0x10_0000);
    assert(top[i * 1024 + c] == perm_u32_at(a, c, i));
    assert((k * 1024 + c) / 1024 == k && (k * 1024 + c) % 1024 == c);
    assert(i / 1024 == 0 && i % 1024 == i);
    assert(0 * cols == 0);
}

/// The next row of blocks of a drawn matrix takes the next words of the stream.
pub proof fn next_blocks_take_the_next_words(
    rng: ChaChaStream,
    later: ChaChaStream,
    n: int,
    cols: int,
    row: int,
    col: int,
)
    requires
        0 < n,
        0 <= row,
        later.seed == rng.seed,
        later.pos == rng.pos + cols,
    ensures
        ring_matrix_at(rng, n, cols, row + n, col) == ring_matrix_at(later, n, cols, row, col),
{
    lemma_fundamental_div_mod(row, n);
    let (d, m) = (row / n, row % n);
    assert((d + 1) * n == n * d + n && (d + 1) * cols == d * cols + cols) by (nonlinear_arith);
    vstd::arithmetic::div_mod::lemma_fundamental_div_mod_converse(row + n, n, d + 1, m);
}

} // verus!
