//! What row queries of the two-level scheme mean to the holder of the key of
//! the inner layer.
use crate::aligned::{words, AlignedMemory64};
use crate::arith::{centered, noise_inside_window_decodes, rescaled};
use crate::client::decrypted;
use crate::constants::{numbered_seed, SEED_0, SEED_1};
use crate::double_query::{
    are_lwe_blocks, are_plain_ciphertexts, are_query_cts, hold_hiding_words, holds_blocks,
    is_double_row_query, is_lwe_query, is_query_ct, is_ring_query, lwe_plaintexts,
};
use crate::lwe::{encrypts_many, key_product, lwe_noise, stream_words, two_32, LWEClient};
use crate::lwe_laws::{matrix_u32_product_is_ring_product, wide};
use crate::params::{MODULUS, Params};
use crate::pir_client::is_double_query;
use crate::poly::PolyMatrixRaw;
use crate::query::{is_packed_query, lemma_rows_are_blocks, YClient};
use crate::query_laws::{
    packed_query_is_one_hot, query_blocks_select_their_row, query_number, selected,
};
use crate::ring::{conv_sum, conv_term, is_negacyclic_matrix_u32, perm_at, perm_u32_at};
use crate::spiral::{chacha_u64, chacha_word, lemma_gaussian_near_zero, Seed};
use vstd::arithmetic::div_mod::{lemma_fundamental_div_mod, lemma_mod_multiples_vanish};
use vstd::arithmetic::power2::pow2;
use vstd::prelude::*;

verus! {

/// The word of row `r` of a query, with its mask taken off.
pub open spec fn unmasked_word(blocks: Seq<Seq<u32>>, sk: Seq<u32>, r: int) -> int {
    let (k, c) = (r / 1024, r % 1024);
    blocks[k][0x10_0000 + c] + key_product(blocks[k], 1024, c, sk, 1024)
}

/// The product of the first `n` unmasked words with a column of the database.
pub open spec fn unmasked_product(
    blocks: Seq<Seq<u32>>,
    sk: Seq<u32>,
    column: Seq<u64>,
    n: int,
) -> int
    decreases n,
{
    if n <= 0 {
        0
    } else {
        unmasked_product(blocks, sk, column, n - 1) + column[n - 1] * unmasked_word(
            blocks,
            sk,
            n - 1,
        )
    }
}

/// The noise of row `r`, as a number around zero.
pub open spec fn row_noise(client: LWEClient, noise_seeds: Seq<Seed>, r: int) -> int {
    centered(
        lwe_noise(client.table@, client.lwe_params, noise_seeds[r / 1024]@, 1024)[r % 1024] as int,
        two_32(),
    )
}

/// The product of the noise of the first `n` rows with a column of the
/// database.
pub open spec fn noise_product(
    client: LWEClient,
    noise_seeds: Seq<Seed>,
    column: Seq<u64>,
    n: int,
) -> int
    decreases n,
{
    if n <= 0 {
        0
    } else {
        noise_product(client, noise_seeds, column, n - 1) + column[n - 1] * row_noise(
            client,
            noise_seeds,
            n - 1,
        )
    }
}

/// The entry that a query asks for, if it is among the first `n` rows.
spec fn entry_among(column: Seq<u64>, index: int, n: int) -> int {
    if index < n {
        column[index] as int
    } else {
        0
    }
}

/// An unmasked word is the scaled one of the row asked for plus its noise, up to
/// a multiple of two to the 32nd. Gives the multiple.
proof fn lemma_unmasked_word(
    blocks: Seq<Seq<u32>>,
    client: LWEClient,
    public_seed: Seq<u8>,
    noise_seeds: Seq<Seed>,
    index: int,
    r: int,
) -> (t: int)
    requires
        are_lwe_blocks(blocks, client, public_seed, noise_seeds, index),
        0 <= index,
        0 <= r < 1024 * blocks.len(),
    ensures
        unmasked_word(blocks, client.sk@, r) == selected(index, r) * 0x100_0000 + row_noise(
            client,
            noise_seeds,
            r,
        ) + two_32() * t,
{
    let (k, c) = (r / 1024, r % 1024);
    let e = lwe_noise(client.table@, client.lwe_params, noise_seeds[k]@, 1024);
    assert(encrypts_many(
        blocks[k],
        stream_words(public_seed, k * 1024, 1024),
        client.sk@,
        lwe_plaintexts(index, k),
        e,
    ));
    let p = key_product(blocks[k], 1024, c, client.sk@, 1024);
    let x = e[c] + lwe_plaintexts(index, k)[c] - p;
    assert(blocks[k][0x10_0000 + c] == x % two_32());
    lemma_fundamental_div_mod(x, two_32());
    assert(lwe_plaintexts(index, k)[c] == selected(index, r) * 0x100_0000);
    lemma_fundamental_div_mod(e[c] as int, two_32());
    let around = centered(e[c] as int, two_32());
    let u: int = if around == e[c] {
        0
    } else {
        1
    };
    u - x / two_32()
}

/// The unmasked product is the scaled entry that the query asks for plus the
/// product of the noise, up to a multiple of two to the 32nd. Gives the
/// multiple.
proof fn lemma_unmasked_words(
    blocks: Seq<Seq<u32>>,
    client: LWEClient,
    public_seed: Seq<u8>,
    noise_seeds: Seq<Seed>,
    index: int,
    column: Seq<u64>,
    n: int,
) -> (t: int)
    requires
        are_lwe_blocks(blocks, client, public_seed, noise_seeds, index),
        0 <= index,
        0 <= n <= 1024 * blocks.len(),
    ensures
        unmasked_product(blocks, client.sk@, column, n) == entry_among(column, index, n) * 0x100_0000
            + noise_product(client, noise_seeds, column, n) + two_32() * t,
    decreases n,
{
    if n <= 0 {
        0
    } else {
        let t = lemma_unmasked_words(
            blocks,
            client,
            public_seed,
            noise_seeds,
            index,
            column,
            n - 1,
        );
        let r = n - 1;
        let u = lemma_unmasked_word(blocks, client, public_seed, noise_seeds, index, r);
        let d = column[r] as int;
        let w = unmasked_word(blocks, client.sk@, r);
        let mu = selected(index, r);
        let e = row_noise(client, noise_seeds, r);
        assert(d * w == (d * mu) * 0x100_0000 + d * e + two_32() * (d * u)) by (nonlinear_arith)
            requires
                w == mu * 0x100_0000 + e + two_32() * u,
        ;
        assert(d * mu == if r == index {
            d
        } else {
            0
        }) by (nonlinear_arith)
            requires
                mu == if r == index {
                    1int
                } else {
                    0int
                },
        ;
        t + d * u
    }
}

/// The answer of the first layer holds the entry that was asked for. Where the
/// masks are taken off the product of a row query for row `index` with a column
/// of the database, the entry of the column in that row comes out, as long as
/// the noise of all rows together stays below half a step.
pub proof fn first_layer_holds_the_entry(
    blocks: Seq<Seq<u32>>,
    client: LWEClient,
    public_seed: Seq<u8>,
    noise_seeds: Seq<Seed>,
    index: int,
    column: Seq<u64>,
)
    requires
        are_lwe_blocks(blocks, client, public_seed, noise_seeds, index),
        column.len() == 1024 * blocks.len(),
        0 <= index < column.len(),
        column[index] < 256,
        -0x80_0000 < noise_product(client, noise_seeds, column, column.len() as int) < 0x80_0000,
    ensures
        rescaled(
            unmasked_product(blocks, client.sk@, column, column.len() as int),
            0x1_0000_0000,
            256,
        ) == column[index],
{
    let n = column.len() as int;
    let t = lemma_unmasked_words(blocks, client, public_seed, noise_seeds, index, column, n);
    let m = column[index] as int;
    let e = noise_product(client, noise_seeds, column, n);
    lemma_mod_multiples_vanish(t, m * 0x100_0000 + e, two_32());
    noise_inside_window_decodes(
        unmasked_product(blocks, client.sk@, column, n),
        m,
        e,
        0x1_0000_0000,
        256,
    );
}

/// The first `k` terms of what hides row `r` of a row query: the rotation of the
/// words of the public stream that the row's block takes, times the key.
pub open spec fn lwe_mask(public_seed: Seq<u8>, sk: Seq<u32>, r: int, k: int) -> int
    decreases k,
{
    if k <= 0 {
        0
    } else {
        lwe_mask(public_seed, sk, r, k - 1) + perm_u32_at(
            stream_words(public_seed, (r / 1024) * 1024, 1024),
            r % 1024,
            k - 1,
        ) * sk[k - 1]
    }
}

/// The number that the word `w` of row `r` of a row query stands for: what the
/// holder of the key of the inner layer reads off where the mask of the row is
/// added.
pub open spec fn row_number(w: u32, public_seed: Seq<u8>, sk: Seq<u32>, r: int) -> int {
    rescaled(w + lwe_mask(public_seed, sk, r, 1024), 0x1_0000_0000, 256)
}

/// The mask of a row is the product of its column with the key.
proof fn lemma_mask_is_product(
    block: Seq<u32>,
    public_seed: Seq<u8>,
    sk: Seq<u32>,
    r: int,
    k: int,
)
    requires
        0 <= r,
        0 <= k <= 1024,
        block.len() == 0x10_0400,
        is_negacyclic_matrix_u32(
            block.subrange(0, 0x10_0000),
            stream_words(public_seed, (r / 1024) * 1024, 1024),
        ),
    ensures
        lwe_mask(public_seed, sk, r, k) == key_product(block, 1024, r % 1024, sk, k),
    decreases k,
{
    if k > 0 {
        lemma_mask_is_product(block, public_seed, sk, r, k - 1);
        let top = block.subrange(0, 0x10_0000);
        let a = stream_words(public_seed, (r / 1024) * 1024, 1024);
        assert(top[(k - 1) * 1024 + r % 1024] == perm_u32_at(a, r % 1024, k - 1));
    }
}

/// A row query stands for one in the row that it asks for and for zero in every
/// other row.
pub proof fn row_query_is_one_hot(
    w: Seq<u32>,
    blocks: Seq<Seq<u32>>,
    client: LWEClient,
    public_seed: Seq<u8>,
    noise_seeds: Seq<Seed>,
    index: int,
    rows: int,
)
    requires
        client.wf(),
        are_lwe_blocks(blocks, client, public_seed, noise_seeds, index),
        hold_hiding_words(w, blocks, rows),
        0 <= index,
    ensures
        forall|r: int|
            0 <= r < rows ==> #[trigger] row_number(w[r], public_seed, client.sk@, r) == if r
                == index {
                1int
            } else {
                0int
            },
{
    assert forall|r: int| 0 <= r < rows implies #[trigger] row_number(
        w[r],
        public_seed,
        client.sk@,
        r,
    ) == if r == index {
        1int
    } else {
        0int
    } by {
        let (k, c) = (r / 1024, r % 1024);
        let e = lwe_noise(client.table@, client.lwe_params, noise_seeds[k]@, 1024);
        assert(encrypts_many(
            blocks[k],
            stream_words(public_seed, k * 1024, 1024),
            client.sk@,
            lwe_plaintexts(index, k),
            e,
        ));
        assert(w[k * 1024 + c] == blocks[k][0x10_0000 + c]);
        lemma_mask_is_product(blocks[k], public_seed, client.sk@, r, 1024);
        let t = lemma_unmasked_word(blocks, client, public_seed, noise_seeds, index, r);
        lemma_gaussian_near_zero(
            client.table@,
            client.lwe_params.noise_width_e8,
            client.lwe_params.modulus,
            chacha_u64(noise_seeds[k]@, (2 * c) as nat),
        );
        let small = row_noise(client, noise_seeds, r);
        assert(-1000 <= small <= 1000);
        let m = selected(index, r);
        lemma_mod_multiples_vanish(t, m * 0x100_0000 + small, two_32());
        noise_inside_window_decodes(
            w[r] + lwe_mask(public_seed, client.sk@, r, 1024),
            m,
            small,
            0x1_0000_0000,
            256,
        );
    }
}

/// A query of the two-level scheme selects its element: of `cols` columns, its
/// row part stands for one in row `idx / cols` and for zero in every other row,
/// and its column part for one in column `idx % cols` and for zero elsewhere.
pub proof fn double_query_selects_its_element(
    q: (Vec<u32>, AlignedMemory64, AlignedMemory64),
    params: Params,
    key: Seq<u64>,
    lwe_key: Seq<u32>,
    idx: int,
)
    requires
        params.wf(),
        is_double_query(q, params, key, lwe_key, idx),
        0 <= idx,
    ensures
        words(q.1).len() == params.cols_normal(),
        forall|r: int|
            0 <= r < params.rows() ==> #[trigger] row_number(
                q.0@[r],
                numbered_seed(0),
                lwe_key,
                r,
            ) == if r == idx / params.cols_normal() as int {
                1int
            } else {
                0int
            },
        forall|c: int|
            0 <= c < params.cols_normal() ==> #[trigger] query_number(
                words(q.1)[c],
                params,
                key,
                numbered_seed(1),
                c,
            ) == if c == idx % params.cols_normal() as int {
                1int
            } else {
                0int
            },
{
    let cols = params.cols_normal() as int;
    lemma_rows_are_blocks(params);
    vstd::arithmetic::power2::lemma_pow2_pos((params.db_dim_2 + params.poly_len_log2) as nat);
    lemma_fundamental_div_mod(idx, cols);
    let (row, col) = (idx / cols, idx % cols);
    assert(row >= 0) by (nonlinear_arith)
        requires
            idx == cols * row + col,
            0 <= col < cols,
            0 <= idx,
    ;
    let client = choose|client: LWEClient|
        #[trigger] client.wf() && client.sk@ == lwe_key && is_double_row_query(
            q.0@,
            params,
            client,
            row,
        );
    let (blocks, seeds) = choose|blocks: Seq<Seq<u32>>, noise_seeds: Seq<Seed>|
        #[trigger] are_lwe_blocks(blocks, client, numbered_seed(SEED_0), noise_seeds, row)
            && hold_hiding_words(q.0@, blocks, params.rows() as int);
    row_query_is_one_hot(
        q.0@,
        blocks,
        client,
        numbered_seed(SEED_0),
        seeds,
        row,
        params.rows() as int,
    );
    let noise = choose|noise: Seq<Vec<u64>>|
        noise.len() == pow2(params.db_dim_2 as nat) && #[trigger] is_packed_query(
            words(q.1),
            params,
            key,
            numbered_seed(SEED_1),
            noise,
            true,
            col,
        );
    packed_query_is_one_hot(words(q.1), params, key, numbered_seed(SEED_1), noise, col);
}

/// The product of column `col` of a matrix of `cols` columns, over its first `k`
/// rows, with the key of the inner layer.
pub open spec fn column_product(lwes: Seq<u64>, cols: int, col: int, sk: Seq<u32>, k: int) -> int
    decreases k,
{
    if k <= 0 {
        0
    } else {
        column_product(lwes, cols, col, sk, k - 1) + lwes[(k - 1) * cols + col] * sk[k - 1]
    }
}

/// A column of blocks side by side is the column of its block.
proof fn lemma_column_of_block(
    lwes: Seq<u64>,
    blocks: Seq<Seq<u32>>,
    sk: Seq<u32>,
    r: int,
    k: int,
)
    requires
        holds_blocks(lwes, blocks),
        0 <= r < blocks.len() * 1024,
        0 <= k <= 1024,
    ensures
        column_product(lwes, (blocks.len() * 1024) as int, r, sk, k) == key_product(
            blocks[r / 1024],
            1024,
            r % 1024,
            sk,
            k,
        ),
    decreases k,
{
    if k > 0 {
        lemma_column_of_block(lwes, blocks, sk, r, k - 1);
        let (b, c) = (r / 1024, r % 1024);
        let width = blocks.len() * 1024;
        assert(lwes[(k - 1) * width + (b * 1024 + c)] == blocks[b][(k - 1) * 1024 + c]);
    }
}

/// The plain ciphertexts of a row query select its row: column `r` decrypts to
/// one where `r` is the row asked for, and to zero elsewhere.
pub proof fn lwe_query_selects_its_row(
    lwes: Seq<u64>,
    client: LWEClient,
    public_seed: Seq<u8>,
    dim: int,
    index: int,
    r: int,
)
    requires
        client.wf(),
        is_lwe_query(lwes, client, public_seed, dim, index),
        0 <= index,
        0 <= r < dim,
    ensures
        rescaled(
            column_product(lwes, dim, r, client.sk@, 1024) + lwes[1024 * dim + r],
            0x1_0000_0000,
            256,
        ) == if r == index {
            1int
        } else {
            0int
        },
{
    let (blocks, seeds) = choose|blocks: Seq<Seq<u32>>, noise_seeds: Seq<Seed>|
        #[trigger] are_lwe_blocks(blocks, client, public_seed, noise_seeds, index) && holds_blocks(
            lwes,
            blocks,
        ) && blocks.len() * 1024 == dim;
    let (k, c) = (r / 1024, r % 1024);
    lemma_column_of_block(lwes, blocks, client.sk@, r, 1024);
    assert(lwes[1024 * dim + (k * 1024 + c)] == blocks[k][1024 * 1024 + c]);
    let t = lemma_unmasked_word(blocks, client, public_seed, seeds, index, r);
    lemma_gaussian_near_zero(
        client.table@,
        client.lwe_params.noise_width_e8,
        client.lwe_params.modulus,
        chacha_u64(seeds[k]@, (2 * c) as nat),
    );
    let small = row_noise(client, seeds, r);
    assert(-1000 <= small <= 1000);
    let m = selected(index, r);
    lemma_mod_multiples_vanish(t, m * 0x100_0000 + small, two_32());
    noise_inside_window_decodes(
        column_product(lwes, dim, r, client.sk@, 1024) + lwes[1024 * dim + r],
        m,
        small,
        0x1_0000_0000,
        256,
    );
}

/// The first `k` terms of a column of plain ciphertexts agree with those of the
/// product in the ring.
proof fn lemma_plain_prefix(
    r: Seq<u64>,
    cts: Seq<PolyMatrixRaw>,
    s: Seq<u64>,
    n: int,
    b: int,
    i: int,
    k: int,
)
    requires
        are_plain_ciphertexts(r, cts, n),
        0 <= b < cts.len(),
        0 <= i < n,
        0 <= k <= n,
        cts[b].poly(0, 0).len() == n,
    ensures
        YClient::answer_product(r, cts.len() * n, b * n + i, s, k) % (MODULUS as int) == conv_sum(
            s,
            cts[b].poly(0, 0),
            n,
            i,
            k,
        ) % (MODULUS as int),
    decreases k,
{
    let q = MODULUS as int;
    if k > 0 {
        lemma_plain_prefix(r, cts, s, n, b, i, k - 1);
        let j = k - 1;
        let a = cts[b].poly(0, 0);
        let width = cts.len() * n;
        assert(r[j * width + (b * n + i)] == perm_at(a, i, j, MODULUS));
        let w = r[j * width + (b * n + i)] as int;
        let x = YClient::answer_product(r, width, b * n + i, s, j);
        let y = conv_sum(s, a, n, i, j);
        let t = w * s[j];
        let u = conv_term(s, a, n, i, j);
        let sj = s[j] as int;
        assert(t % q == u % q) by {
            if j > i {
                let v = a[n + i - j] as int;
                assert(n - (j - i) == n + i - j);
                assert(w == (q - v % q) % q);
                lemma_fundamental_div_mod(q - v % q, q);
                lemma_fundamental_div_mod(v, q);
                let f = (q - v % q) / q;
                let g = v / q;
                assert(w * sj == q * (sj * (1 - f + g)) + u) by (nonlinear_arith)
                    requires
                        q - v % q == q * f + w,
                        v == q * g + v % q,
                        u == -(sj * v),
                ;
                lemma_mod_multiples_vanish(sj * (1 - f + g), u, q);
            } else {
                assert(w * sj == sj * w) by (nonlinear_arith);
            }
        }
        vstd::arithmetic::div_mod::lemma_add_mod_noop(x, t, q);
        vstd::arithmetic::div_mod::lemma_add_mod_noop(y, u, q);
    }
}

/// Plain ciphertexts decrypt as the ring ciphertexts that they come from: column
/// `b * n + i` decrypts to coefficient `i` of what ciphertext `b` decrypts to.
pub proof fn plain_ciphertexts_decrypt_alike(
    r: Seq<u64>,
    cts: Seq<PolyMatrixRaw>,
    s: Seq<u64>,
    n: int,
    b: int,
    i: int,
)
    requires
        are_plain_ciphertexts(r, cts, n),
        0 <= b < cts.len(),
        0 <= i < n,
        cts[b].poly(0, 0).len() == n,
        cts[b].poly(1, 0).len() == n,
    ensures
        (YClient::answer_product(r, cts.len() * n, b * n + i, s, n) + r[n * (cts.len() * n) + (b * n
            + i)]) % (MODULUS as int) == decrypted(
            s,
            cts[b].poly(0, 0),
            cts[b].poly(1, 0),
            n,
        )[i],
{
    let q = MODULUS as int;
    lemma_plain_prefix(r, cts, s, n, b, i, n);
    let x = YClient::answer_product(r, cts.len() * n, b * n + i, s, n);
    let y = conv_sum(s, cts[b].poly(0, 0), n, i, n);
    let l = cts[b].poly(1, 0)[i] as int;
    vstd::arithmetic::div_mod::lemma_add_mod_noop(x, l, q);
    vstd::arithmetic::div_mod::lemma_add_mod_noop(y, l, q);
    vstd::arithmetic::div_mod::lemma_mod_twice(y, q);
    vstd::arithmetic::div_mod::lemma_add_mod_noop(y % q, l, q);
}

/// The plain ciphertexts of a ring query select its row: what column `x` decrypts
/// to, times the degree, decodes to one where `x` is the row asked for, and to
/// zero elsewhere.
pub proof fn ring_query_selects_its_row(
    lwes: Seq<u64>,
    params: Params,
    key: Seq<u64>,
    public_seed: Seq<u8>,
    count: int,
    index: int,
    x: int,
)
    requires
        params.wf(),
        is_ring_query(lwes, params, key, public_seed, count, true, index),
        0 <= index,
        0 <= x < count * params.poly_len,
    ensures
        rescaled(
            params.poly_len * (YClient::answer_product(
                lwes,
                count * params.poly_len,
                x,
                key,
                params.poly_len as int,
            ) + lwes[params.poly_len * (count * params.poly_len) + x]),
            MODULUS as int,
            params.pt_modulus as int,
        ) == if x == index {
            1int
        } else {
            0int
        },
{
    let n = params.poly_len as int;
    let q = MODULUS as int;
    let (cts, noise) = choose|cts: Seq<PolyMatrixRaw>, noise: Seq<Vec<u64>>|
        #[trigger] are_query_cts(cts, params, key, public_seed, noise, true, index)
            && are_plain_ciphertexts(lwes, cts, n) && cts.len() == count;
    lemma_fundamental_div_mod(x, n);
    let (b, i) = (x / n, x % n);
    assert(n * b == b * n) by (nonlinear_arith);
    assert(0 <= b < count) by (nonlinear_arith)
        requires
            x == n * b + i,
            0 <= i < n,
            0 <= x < count * n,
    ;
    assert(is_query_ct(cts[b], params, key, public_seed, noise[b]@, true, index, b));
    assert(cts[b].poly(0, 0).len() == n && cts[b].poly(1, 0).len() == n);
    plain_ciphertexts_decrypt_alike(lwes, cts, key, n, b, i);
    query_blocks_select_their_row(cts, params, key, public_seed, noise, index, b, i);
    let y = YClient::answer_product(lwes, count * n, x, key, n) + lwes[n * (count * n) + x];
    lemma_fundamental_div_mod(y, q);
    let d = y % q;
    assert(n * y == q * (n * (y / q)) + n * d) by (nonlinear_arith)
        requires
            y == q * (y / q) + d,
    ;
    lemma_mod_multiples_vanish(n * (y / q), n * d, q);
}

/// The masks of a row query come from the public stream, one word to a row: the
/// mask of row `r` is, modulo two to the 32nd, coefficient `r % 1024` of the key
/// times the polynomial of the words at the places of the rows of its block.
pub proof fn lwe_masks_take_one_word_to_a_row(public_seed: Seq<u8>, sk: Seq<u32>, r: int)
    requires
        0 <= r,
        sk.len() == 1024,
    ensures
        lwe_mask(public_seed, sk, r, 1024) % 0x1_0000_0000 == conv_sum(
            wide(sk),
            Seq::new(1024, |i: int| chacha_word(public_seed, (r - r % 1024 + i) as nat) as u64),
            1024,
            r % 1024,
            1024,
        ) % 0x1_0000_0000,
{
    let a = stream_words(public_seed, (r / 1024) * 1024, 1024);
    let m = Seq::new(0x10_0000, |x: int| perm_u32_at(a, x % 1024, x / 1024));
    let block = m + Seq::new(1024, |x: int| 0u32);
    let n = a.len() as int;
    assert(n == 1024 && n * n == 0x10_0000);
    assert forall|j: int, i: int| 0 <= j < n && 0 <= i < n implies #[trigger] m[j * n + i]
        == perm_u32_at(a, i, j) by {
        assert(j * n == j * 1024);
        assert((j * 1024 + i) / 1024 == j && (j * 1024 + i) % 1024 == i);
    }
    assert(block.subrange(0, 0x10_0000) =~= m);
    assert(is_negacyclic_matrix_u32(m, a));
    lemma_mask_is_product(block, public_seed, sk, r, 1024);
    lemma_same_columns(block, m, sk, r % 1024, 1024);
    matrix_u32_product_is_ring_product(m, a, sk, r % 1024);
    assert(wide(a) =~= Seq::new(
        1024,
        |i: int| chacha_word(public_seed, (r - r % 1024 + i) as nat) as u64,
    ));
}

/// A product with the key depends on the rows that it runs over only.
proof fn lemma_same_columns(a: Seq<u32>, b: Seq<u32>, sk: Seq<u32>, c: int, k: int)
    requires
        0 <= c < 1024,
        0 <= k <= 1024,
        forall|x: int| 0 <= x < 0x10_0000 ==> #[trigger] a[x] == b[x],
    ensures
        key_product(a, 1024, c, sk, k) == key_product(b, 1024, c, sk, k),
    decreases k,
{
    if k > 0 {
        lemma_same_columns(a, b, sk, c, k - 1);
        assert(a[(k - 1) * 1024 + c] == b[(k - 1) * 1024 + c]);
    }
}

} // verus!
