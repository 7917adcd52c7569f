//! What queries mean to the holder of the secret key.
use crate::arith::{noise_inside_window_decodes, rescaled};
use crate::client::{decrypted, packed_residues, packed_residues_are_faithful};
use crate::constants::{numbered_seed, SEED_0};
use crate::double_query::{are_query_cts, is_query_ct};
use crate::kernel::{accumulated, half, half_sum, ToU64};
use crate::params::{lemma_crt_unique, MODULUS, MODULUS_0, MODULUS_1, Params};
use crate::poly::{chunk, lemma_chunk_inside, PolyMatrixRaw};
use crate::query::{
    all_small, are_query_rows, degree_inverse, is_packed_query, is_row_query, lemma_rows_are_blocks,
    noise_is_small, one_hot, query_block, query_message,
};
use crate::ring::{residue, ring_add, ring_mul, ring_neg, ring_scale};
use crate::ring_laws::{lemma_mul_linear, lemma_neg_is_scale};
use crate::spiral::{chacha_u64, masked, near_zero, noise_bound, uniform_ring};
use vstd::arithmetic::div_mod::{lemma_fundamental_div_mod, lemma_mod_multiples_vanish};
use vstd::arithmetic::power2::pow2;
use vstd::prelude::*;

verus! {

/// A residue near zero is a small number, up to one modulus.
proof fn lemma_small_value(v: u64, bound: int) -> (e: int)
    requires
        near_zero(v, MODULUS, bound),
        bound >= 0,
    ensures
        -bound <= e <= bound,
        e == v || e == v - MODULUS,
{
    if v <= bound {
        v as int
    } else {
        v - MODULUS
    }
}

/// Taking the mask off a coefficient leaves the scaled noise and the message.
pub proof fn unmasking_leaves_noise_and_message(
    s: Seq<u64>,
    a: Seq<u64>,
    e: Seq<u64>,
    scale: u64,
    m: Seq<u64>,
    n: int,
    z: int,
)
    requires
        0 <= z < n,
    ensures
        (masked(s, a, e, scale, m, n)[z] - ring_mul(s, a, n)[z]) % (MODULUS as int) == (scale
            * e[z] + m[z]) % (MODULUS as int),
{
    let q = MODULUS as int;
    let p = ring_mul(s, a, n)[z] as int;
    let x = scale * e[z];
    let t1 = ring_scale(e, scale as int, n)[z] as int;
    let t2 = ring_add(ring_scale(e, scale as int, n), ring_mul(s, a, n), n)[z] as int;
    let b = masked(s, a, e, scale, m, n)[z] as int;
    lemma_fundamental_div_mod(x, q);
    lemma_fundamental_div_mod(t1 + p, q);
    lemma_fundamental_div_mod(t2 + m[z], q);
    let k = x / q + (t1 + p) / q + (t2 + m[z]) / q;
    assert(b - p == q * (-k) + (x + m[z])) by (nonlinear_arith)
        requires
            x == q * (x / q) + t1,
            t1 + p == q * ((t1 + p) / q) + t2,
            t2 + m[z] == q * ((t2 + m[z]) / q) + b,
            k == x / q + (t1 + p) / q + (t2 + m[z]) / q,
    ;
    lemma_mod_multiples_vanish(-k, x + m[z], q);
}

/// Whether `r` is the row that a query asks for, as a number.
pub open spec fn selected(index: int, r: int) -> int {
    if r == index {
        1
    } else {
        0
    }
}

/// The degree times an unmasked coefficient is the scaled one of the row asked
/// for, plus noise inside its bound, up to a multiple of the modulus. Gives the
/// noise and the multiple.
proof fn lemma_unmasked(
    params: Params,
    key: Seq<u64>,
    public_seed: Seq<u8>,
    e: Seq<u64>,
    index: int,
    i: int,
    z: int,
) -> (r: (int, int))
    requires
        params.wf(),
        noise_is_small(params, e),
        0 <= index,
        0 <= i,
        0 <= z < params.poly_len,
    ensures
        -noise_bound(params.noise_width_e8) <= r.0 <= noise_bound(params.noise_width_e8),
        ({
            let n = params.poly_len as int;
            let block = query_block(
                params,
                key,
                public_seed,
                e,
                true,
                index,
                i,
            );
            let mask = ring_mul(
                key,
                uniform_ring(public_seed, (i * (2 * n)) as nat, n),
                n,
            );
            n * (block[z] - mask[z]) == MODULUS * r.1 + selected(index, i * n + z) * (MODULUS
                as int / params.pt_modulus as int) + r.0
        }),
{
    let q = MODULUS as int;
    let p = params.pt_modulus as int;
    let n = params.poly_len as int;
    let k = degree_inverse(n);
    let s = key;
    let a = uniform_ring(public_seed, (i * (2 * n)) as nat, n);
    let m = query_message(params, true, index, i);
    let block = query_block(params, key, public_seed, e, true, index, i);
    let mask = ring_mul(s, a, n);
    let bound = noise_bound(params.noise_width_e8);
    unmasking_leaves_noise_and_message(s, a, e, k as u64, m, n, z);
    let v = e[z];
    assert(near_zero(v, MODULUS, bound));
    let small = lemma_small_value(v, bound);
    // The message of the block, before it was divided by the degree.
    let scale_k = q / p;
    let here = i == index / n && z == index % n;
    let mu: int = if here {
        1
    } else {
        0
    };
    lemma_fundamental_div_mod(index, n);
    assert(here <==> index == i * n + z) by {
        if index == i * n + z {
            vstd::arithmetic::div_mod::lemma_fundamental_div_mod_converse(index, n, i, z);
        }
        if here {
            assert(n * (index / n) == (index / n) * n) by (nonlinear_arith);
        }
    }
    let one = mu * scale_k;
    let hot = if i == index / n {
        one_hot(n, index % n, (MODULUS / params.pt_modulus) as u64)
    } else {
        one_hot(n, -1, 0)
    };
    assert(hot[z] == one);
    assert(m[z] == (k * one) % q);
    // Multiplying by the degree undoes the division.
    let d = block[z] - mask[z];
    let x = k * v + m[z];
    lemma_degree_inverse(n);
    lemma_fundamental_div_mod(k * n, q);
    lemma_fundamental_div_mod(d, q);
    lemma_fundamental_div_mod(x, q);
    lemma_fundamental_div_mod(k * one, q);
    let u = (k * n) / q;
    let w = n * (d / q - x / q - (k * one) / q) + u * (v + one) + if small == v {
        0int
    } else {
        1int
    };
    assert(n * d == q * w + (one + small)) by {
        let (f, g, h) = (d / q, x / q, (k * one) / q);
        assert(d == q * f + (x - q * g));
        assert(m[z] == k * one - q * h);
        lemma_times_degree(n, k, u, q, d, f, g, h, v as int, one, m[z] as int);
        let c: int = if small == v {
            0
        } else {
            1
        };
        assert(v == small + c * q);
        assert(q * w == q * (n * (f - g - h) + u * (v + one)) + q * c) by (nonlinear_arith)
            requires
                w == n * (f - g - h) + u * (v + one) + c,
        ;
    }
    (small, w)
}

/// A query selects its row and no other: where the mask is taken off block `i`
/// of a query for `index` and the result is multiplied by the degree, as
/// packing the answers does, coefficient `z` decodes to one if `index` is
/// `i * n + z`, and to zero otherwise.
pub proof fn query_selects_its_row(
    params: Params,
    key: Seq<u64>,
    public_seed: Seq<u8>,
    e: Seq<u64>,
    index: int,
    i: int,
    z: int,
)
    requires
        params.wf(),
        noise_is_small(params, e),
        0 <= index,
        0 <= i,
        0 <= z < params.poly_len,
    ensures
        ({
            let n = params.poly_len as int;
            let block = query_block(
                params,
                key,
                public_seed,
                e,
                true,
                index,
                i,
            );
            let mask = ring_mul(
                key,
                uniform_ring(public_seed, (i * (2 * n)) as nat, n),
                n,
            );
            rescaled(n * (block[z] - mask[z]), MODULUS as int, params.pt_modulus as int)
                == if index == i * n + z {
                1int
            } else {
                0int
            }
        }),
{
    let q = MODULUS as int;
    let p = params.pt_modulus as int;
    let n = params.poly_len as int;
    let bound = noise_bound(params.noise_width_e8);
    let block = query_block(params, key, public_seed, e, true, index, i);
    let mask = ring_mul(
        key,
        uniform_ring(public_seed, (i * (2 * n)) as nat, n),
        n,
    );
    let d = block[z] - mask[z];
    let mu = selected(index, i * n + z);
    let (small, w) = lemma_unmasked(
        params,
        key,
        public_seed,
        e,
        index,
        i,
        z,
    );
    lemma_mod_multiples_vanish(w, mu * (q / p) + small, q);
    assert(-q < 2 * (mu * (q % p) - small * p) < q) by {
        assert(0 <= q % p < p);
        assert(-(bound * p) <= small * p <= bound * p) by (nonlinear_arith)
            requires
                -bound <= small <= bound,
                p > 0,
        ;
        assert(0 <= mu * (q % p) < p) by (nonlinear_arith)
            requires
                mu == 0 || mu == 1,
                0 <= q % p < p,
        ;
        assert(bound * p <= 401 * 0x1_0000_0000) by (nonlinear_arith)
            requires
                0 <= bound <= 401,
                0 < p <= 0x1_0000_0000,
        ;
    }
    noise_inside_window_decodes(n * d, mu, small, q, p);
}

/// The inverse of the degree is one.
proof fn lemma_degree_inverse(n: int)
    requires
        n == 2048 || n == 4096,
    ensures
        (degree_inverse(n) * n) % (MODULUS as int) == 1,
{
    assert((66941987254379553int * 2048) % (MODULUS as int) == 1);
    assert((66958338496991761int * 4096) % (MODULUS as int) == 1);
}

/// The degree times an unmasked coefficient.
proof fn lemma_times_degree(
    n: int,
    k: int,
    u: int,
    q: int,
    d: int,
    f: int,
    g: int,
    h: int,
    v: int,
    one: int,
    m: int,
)
    requires
        k * n == q * u + 1,
        d == q * f + (k * v + m - q * g),
        m == k * one - q * h,
    ensures
        n * d == q * (n * (f - g - h) + u * (v + one)) + (v + one),
{
    assert(d == q * (f - g - h) + k * (v + one)) by (nonlinear_arith)
        requires
            d == q * f + (k * v + m - q * g),
            m == k * one - q * h,
    ;
    let y = v + one;
    assert(n * (k * y) == (q * u + 1) * y) by (nonlinear_arith)
        requires
            k * n == q * u + 1,
    ;
    assert((q * u + 1) * y == q * (u * y) + y) by (nonlinear_arith);
    let c = f - g - h;
    assert(n * (q * c + k * y) == q * (n * c) + n * (k * y)) by (nonlinear_arith);
    assert(q * (n * c + u * y) == q * (n * c) + q * (u * y)) by (nonlinear_arith);
}

/// What masks row `r` of a query, before it is multiplied by the degree.
pub open spec fn row_mask(
    params: Params,
    key: Seq<u64>,
    public_seed: Seq<u8>,
    r: int,
) -> int {
    let n = params.poly_len as int;
    ring_mul(
        key,
        uniform_ring(public_seed, ((r / n) * (2 * n)) as nat, n),
        n,
    )[r % n] as int
}

/// The halves of `w` are the residues of `v` modulo the two primes.
pub open spec fn holds_value(w: u64, v: int) -> bool {
    &&& 0 <= v < MODULUS
    &&& v % (MODULUS_0 as int) == w as int % 0x1_0000_0000
    &&& v % (MODULUS_1 as int) == w as int / 0x1_0000_0000
}

/// The residue of the modulus that a word of a packed query holds.
pub open spec fn word_value(w: u64) -> int {
    choose|v: int| holds_value(w, v)
}

/// The number that the word `w` of row `r` of a packed query stands for: what
/// the holder of the key reads off where the mask of the row is taken off the
/// word and the rest is multiplied by the degree, as packing the answers does.
pub open spec fn query_number(
    w: u64,
    params: Params,
    key: Seq<u64>,
    public_seed: Seq<u8>,
    r: int,
) -> int {
    rescaled(
        params.poly_len * (word_value(w) - row_mask(params, key, public_seed, r)),
        MODULUS as int,
        params.pt_modulus as int,
    )
}

/// A packed query stands for one in the row that it asks for and for zero in
/// every other row.
pub proof fn packed_query_is_one_hot(
    packed: Seq<u64>,
    params: Params,
    key: Seq<u64>,
    public_seed: Seq<u8>,
    noise: Seq<Vec<u64>>,
    index: int,
)
    requires
        params.wf(),
        is_packed_query(packed, params, key, public_seed, noise, true, index),
        0 <= index,
    ensures
        forall|r: int|
            0 <= r < packed.len() ==> holds_value(
                packed[r],
                word_value(#[trigger] packed[r]),
            ),
        forall|r: int|
            0 <= r < packed.len() ==> #[trigger] query_number(
                packed[r],
                params,
                key,
                public_seed,
                r,
            ) == if r == index {
                1int
            } else {
                0int
            },
{
    let n = params.poly_len as int;
    assert forall|r: int| 0 <= r < packed.len() implies holds_value(
        packed[r],
        word_value(#[trigger] packed[r]),
    ) && query_number(packed[r], params, key, public_seed, r) == if r == index {
        1int
    } else {
        0int
    } by {
        lemma_row_place(r, n, noise.len() as int);
        let row = query_row(params, key, public_seed, noise, index, r) as u64;
        assert(packed[(r / n) * n + r % n] == packed_residues(row));
        packed_residues_are_faithful(row, row);
        assert(noise_is_small(params, noise[r / n]@));
        assert(holds_value(packed[r], row as int));
        lemma_crt_unique(word_value(packed[r]), row as int);
        query_selects_its_row(params, key, public_seed, noise[r / n]@, index, r / n, r % n);
    }
    assert forall|r: int| 0 <= r < packed.len() implies #[trigger] query_number(
        packed[r],
        params,
        key,
        public_seed,
        r,
    ) == if r == index {
        1int
    } else {
        0int
    } by {
        assert(holds_value(packed[r], word_value(packed[r])));
    }
}

/// The product of the masks of the first `k` rows with the entries of a column
/// of the database that starts at `base`.
pub open spec fn mask_product<T: ToU64>(
    params: Params,
    key: Seq<u64>,
    public_seed: Seq<u8>,
    b: Seq<T>,
    base: int,
    k: int,
) -> int
    decreases k,
{
    if k <= 0 {
        0
    } else {
        mask_product(params, key, public_seed, b, base, k - 1) + b[base + k - 1].word()
            * row_mask(params, key, public_seed, k - 1)
    }
}

/// Row `r` of a query, as a residue of the modulus.
spec fn query_row(
    params: Params,
    key: Seq<u64>,
    public_seed: Seq<u8>,
    noise: Seq<Vec<u64>>,
    index: int,
    r: int,
) -> int {
    let n = params.poly_len as int;
    query_block(
        params,
        key,
        public_seed,
        noise[r / n]@,
        true,
        index,
        r / n,
    )[r % n] as int
}

/// The product of the first `k` rows of a query with a column of the database.
spec fn row_product<T: ToU64>(
    params: Params,
    key: Seq<u64>,
    public_seed: Seq<u8>,
    noise: Seq<Vec<u64>>,
    index: int,
    b: Seq<T>,
    base: int,
    k: int,
) -> int
    decreases k,
{
    if k <= 0 {
        0
    } else {
        row_product(params, key, public_seed, noise, index, b, base, k - 1) + b[base
            + k - 1].word() * query_row(
            params,
            key,
            public_seed,
            noise,
            index,
            k - 1,
        )
    }
}

/// The entry that a query asks for, if it is among the first `k` rows.
spec fn entry_before<T: ToU64>(b: Seq<T>, base: int, index: int, k: int) -> int {
    if index < k {
        b[base + index].word() as int
    } else {
        0
    }
}

/// Row `r` stands in block `r / n`, at `r % n`.
proof fn lemma_row_place(r: int, n: int, blocks: int)
    requires
        n > 0,
        0 <= r < blocks * n,
    ensures
        0 <= r / n < blocks,
        0 <= r % n < n,
        (r / n) * n + r % n == r,
{
    lemma_fundamental_div_mod(r, n);
    assert(n * (r / n) == (r / n) * n) by (nonlinear_arith);
    assert(0 <= r / n < blocks) by (nonlinear_arith)
        requires
            r == n * (r / n) + r % n,
            0 <= r % n < n,
            0 <= r < blocks * n,
    ;
}

/// One more row of the product.
proof fn lemma_add_row(
    n: int,
    s: int,
    m: int,
    d: int,
    row: int,
    mask: int,
    q: int,
    t: int,
    scale: int,
    entry: int,
    e: int,
    mu: int,
    small: int,
    w: int,
    p: int,
    bound: int,
    k: int,
)
    requires
        n * (s - m) == q * t + entry * scale + e,
        n * (row - mask) == q * w + mu * scale + small,
        -bound <= small <= bound,
        0 <= d < p,
        -((k - 1) * (p * bound)) <= e <= (k - 1) * (p * bound),
        bound >= 0,
    ensures
        n * ((s + d * row) - (m + d * mask)) == q * (t + d * w) + (entry + d * mu) * scale + (e + d
            * small),
        -(k * (p * bound)) <= e + d * small <= k * (p * bound),
{
    assert(n * ((s + d * row) - (m + d * mask)) == n * (s - m) + d * (n * (row - mask)))
        by (nonlinear_arith);
    assert(d * (n * (row - mask)) == d * (q * w + mu * scale + small));
    assert(d * (q * w + mu * scale + small) == q * (d * w) + (d * mu) * scale + d * small)
        by (nonlinear_arith);
    assert(q * (t + d * w) == q * t + q * (d * w)) by (nonlinear_arith);
    assert((entry + d * mu) * scale == entry * scale + (d * mu) * scale) by (nonlinear_arith);
    assert(-(p * bound) <= d * small <= p * bound) by (nonlinear_arith)
        requires
            -bound <= small <= bound,
            0 <= d < p,
            bound >= 0,
    ;
    assert(k * (p * bound) == (k - 1) * (p * bound) + p * bound) by (nonlinear_arith);
}

/// The degree times the unmasked product of the first `k` rows is the scaled
/// entry that the query asks for, if it is among them, plus noise. Gives the
/// noise and the multiple of the modulus.
proof fn lemma_unmasked_product<T: ToU64>(
    params: Params,
    key: Seq<u64>,
    public_seed: Seq<u8>,
    noise: Seq<Vec<u64>>,
    index: int,
    b: Seq<T>,
    base: int,
    k: int,
) -> (r: (int, int))
    requires
        params.wf(),
        0 <= k <= noise.len() * params.poly_len,
        0 <= index,
        all_small(params, noise),
        forall|i: int|
            0 <= i < noise.len() * params.poly_len ==> (#[trigger] b[base + i]).word()
                < params.pt_modulus,
    ensures
        ({
            let bound = noise_bound(params.noise_width_e8);
            let p = params.pt_modulus as int;
            &&& -(k * (p * bound)) <= r.0 <= k * (p * bound)
            &&& params.poly_len * (row_product(
                params,
                key,
                public_seed,
                noise,
                index,
                b,
                base,
                k,
            ) - mask_product(params, key, public_seed, b, base, k)) == MODULUS * r.1
                + entry_before(b, base, index, k) * (MODULUS as int / p) + r.0
        }),
    decreases k,
{
    let n = params.poly_len as int;
    let p = params.pt_modulus as int;
    let bound = noise_bound(params.noise_width_e8);
    let q = MODULUS as int;
    if k <= 0 {
        assert(n * 0 == 0 && 0 * (q / p) == 0 && 0 * (p * bound) == 0 && q * 0 == 0);
        (0, 0)
    } else {
        let (e, t) = lemma_unmasked_product(
            params,
            key,
            public_seed,
            noise,
            index,
            b,
            base,
            k - 1,
        );
        let r = k - 1;
        lemma_row_place(r, n, noise.len() as int);
        assert(noise_is_small(params, noise[r / n]@));
        let (small, w) = lemma_unmasked(
            params,
            key,
            public_seed,
            noise[r / n]@,
            index,
            r / n,
            r % n,
        );
        let d = b[base + r].word() as int;
        assert(b[base + r].word() < params.pt_modulus);
        let mu = selected(index, r);
        lemma_add_row(
            n,
            row_product(
                params,
                key,
                public_seed,
                noise,
                index,
                b,
                base,
                r,
            ),
            mask_product(params, key, public_seed, b, base, r),
            d,
            query_row(params, key, public_seed, noise, index, r),
            row_mask(params, key, public_seed, r),
            q,
            t,
            q / p,
            entry_before(b, base, index, r),
            e,
            mu,
            small,
            w,
            p,
            bound,
            k,
        );
        assert(entry_before(b, base, index, r) + d * mu == entry_before(b, base, index, k))
            by (nonlinear_arith)
            requires
                mu == 0 && entry_before(b, base, index, r) == entry_before(b, base, index, k)
                    || mu == 1 && entry_before(b, base, index, r) == 0 && d == entry_before(
                    b,
                    base,
                    index,
                    k,
                ),
        ;
        (e + d * small, t + d * w)
    }
}

/// The sum of one half of the packed words is the product of the rows, up to a
/// multiple of its prime.
proof fn lemma_half_is_product<T: ToU64>(
    high: bool,
    params: Params,
    key: Seq<u64>,
    public_seed: Seq<u8>,
    noise: Seq<Vec<u64>>,
    index: int,
    packed: Seq<u64>,
    b: Seq<T>,
    base: int,
    k: int,
) -> (u: int)
    requires
        params.wf(),
        0 <= k <= packed.len(),
        is_packed_query(packed, params, key, public_seed, noise, true, index),
    ensures
        row_product(params, key, public_seed, noise, index, b, base, k) == half_sum(
            high,
            packed,
            0,
            b,
            base,
            0,
            k,
        ) + u * if high {
            MODULUS_1 as int
        } else {
            MODULUS_0 as int
        },
    decreases k,
{
    let m = if high {
        MODULUS_1 as int
    } else {
        MODULUS_0 as int
    };
    if k <= 0 {
        assert(0 * m == 0);
        0
    } else {
        let u = lemma_half_is_product(
            high,
            params,
            key,
            public_seed,
            noise,
            index,
            packed,
            b,
            base,
            k - 1,
        );
        let n = params.poly_len as int;
        let r = k - 1;
        lemma_row_place(r, n, noise.len() as int);
        let row = query_row(params, key, public_seed, noise, index, r);
        assert(packed[(r / n) * n + r % n] == packed_residues(row as u64));
        packed_residues_are_faithful(row as u64, row as u64);
        assert(half(packed[r], high) == row % m);
        lemma_fundamental_div_mod(row, m);
        let d = b[base + r].word() as int;
        let h = row / m;
        assert(d * row == (row % m) * d + (d * h) * m) by (nonlinear_arith)
            requires
                row == m * h + row % m,
        ;
        assert((u + d * h) * m == u * m + (d * h) * m) by (nonlinear_arith);
        u + d * h
    }
}

/// The answer to a query holds the entry that was asked for. Where `c` is the
/// product of a packed query for row `index` with a column of the database, the
/// product of the masks with that column is taken off, and the rest is
/// multiplied by the degree, as packing the answers does, the entry of the
/// column in row `index` comes out, as long as the noise of all rows together
/// stays inside the window of a plaintext.
pub proof fn answer_holds_the_entry<T: ToU64>(
    params: Params,
    key: Seq<u64>,
    public_seed: Seq<u8>,
    noise: Seq<Vec<u64>>,
    index: int,
    packed: Seq<u64>,
    b: Seq<T>,
    base: int,
    c: u64,
)
    requires
        params.wf(),
        is_packed_query(packed, params, key, public_seed, noise, true, index),
        0 <= index < packed.len(),
        forall|r: int|
            0 <= r < packed.len() ==> (#[trigger] b[base + r]).word() < params.pt_modulus,
        accumulated(
            c,
            0,
            half_sum(false, packed, 0, b, base, 0, packed.len() as int),
            half_sum(true, packed, 0, b, base, 0, packed.len() as int),
        ),
        2 * params.pt_modulus * params.pt_modulus * (1 + packed.len() * noise_bound(
            params.noise_width_e8,
        )) < MODULUS,
    ensures
        rescaled(
            params.poly_len * (c - mask_product(
                params,
                key,
                public_seed,
                b,
                base,
                packed.len() as int,
            )),
            MODULUS as int,
            params.pt_modulus as int,
        ) == b[base + index].word(),
{
    let n = params.poly_len as int;
    let p = params.pt_modulus as int;
    let q = MODULUS as int;
    let bound = noise_bound(params.noise_width_e8);
    let rows = packed.len() as int;
    let total = row_product(
        params,
        key,
        public_seed,
        noise,
        index,
        b,
        base,
        rows,
    );
    let masks = mask_product(params, key, public_seed, b, base, rows);
    let lo = half_sum(false, packed, 0, b, base, 0, rows);
    let hi = half_sum(true, packed, 0, b, base, 0, rows);
    let u0 = lemma_half_is_product(
        false,
        params,
        key,
        public_seed,
        noise,
        index,
        packed,
        b,
        base,
        rows,
    );
    let u1 = lemma_half_is_product(
        true,
        params,
        key,
        public_seed,
        noise,
        index,
        packed,
        b,
        base,
        rows,
    );
    // The accumulator is the product, reduced.
    lemma_fundamental_div_mod(total, q);
    let t = total / q;
    let red = total % q;
    assert(q == MODULUS_0 * MODULUS_1);
    let (v0, v1) = (u0 - t * MODULUS_1, u1 - t * MODULUS_0);
    assert(red == v0 * MODULUS_0 + lo && red == v1 * MODULUS_1 + hi) by (nonlinear_arith)
        requires
            total == q * t + red,
            total == lo + u0 * MODULUS_0,
            total == hi + u1 * MODULUS_1,
            q == MODULUS_0 * MODULUS_1,
            v0 == u0 - t * MODULUS_1,
            v1 == u1 - t * MODULUS_0,
    ;
    vstd::arithmetic::div_mod::lemma_mod_multiples_vanish(v0, lo, MODULUS_0 as int);
    vstd::arithmetic::div_mod::lemma_mod_multiples_vanish(v1, hi, MODULUS_1 as int);
    assert(v0 * MODULUS_0 == MODULUS_0 * v0 && v1 * MODULUS_1 == MODULUS_1 * v1)
        by (nonlinear_arith);
    lemma_crt_unique(c as int, red);
    // What is left is the scaled entry and the noise.
    assert forall|r: int| 0 <= r < noise.len() * params.poly_len implies (#[trigger] b[base
        + r]).word() < params.pt_modulus by {}
    let (e, w) = lemma_unmasked_product(
        params,
        key,
        public_seed,
        noise,
        index,
        b,
        base,
        rows,
    );
    let m = b[base + index].word() as int;
    assert(m < p);
    let a = n * (c - masks);
    let y = w - n * t;
    assert(a == q * y + (m * (q / p) + e)) by (nonlinear_arith)
        requires
            a == n * (c - masks),
            c == total - q * t,
            n * (total - masks) == q * w + m * (q / p) + e,
            y == w - n * t,
    ;
    lemma_mod_multiples_vanish(y, m * (q / p) + e, q);
    assert(-q < 2 * (m * (q % p) - e * p) < q) by {
        assert(0 <= q % p < p);
        assert(0 <= m * (q % p) <= p * p) by (nonlinear_arith)
            requires
                0 <= m < p,
                0 <= q % p < p,
        ;
        assert(-(p * p * (rows * bound)) <= e * p <= p * p * (rows * bound)) by (nonlinear_arith)
            requires
                -(rows * (p * bound)) <= e <= rows * (p * bound),
                p > 0,
        ;
        assert(2 * p * p * (1 + rows * bound) == 2 * (p * p) + 2 * (p * p * (rows * bound)))
            by (nonlinear_arith);
    }
    noise_inside_window_decodes(a, m, e, q, p);
}

/// A query of the one-level scheme selects its row: its word for a row stands for
/// one where the row is the one asked for, and for zero elsewhere.
pub proof fn simplepir_query_selects_its_row(
    w: Seq<u64>,
    params: Params,
    key: Seq<u64>,
    row: int,
)
    requires
        params.wf(),
        is_row_query(w, params, key, row),
        0 <= row,
    ensures
        w.len() == params.rows(),
        forall|r: int|
            0 <= r < w.len() ==> #[trigger] query_number(
                w[r],
                params,
                key,
                numbered_seed(0),
                r,
            ) == if r == row {
                1int
            } else {
                0int
            },
{
    let noise = choose|noise: Seq<Vec<u64>>|
        noise.len() == pow2(params.db_dim_1 as nat) && #[trigger] is_packed_query(
            w,
            params,
            key,
            numbered_seed(SEED_0),
            noise,
            true,
            row,
        );
    lemma_rows_are_blocks(params);
    packed_query_is_one_hot(w, params, key, numbered_seed(SEED_0), noise, row);
}

/// The answer of the one-level scheme holds the entry of the row asked for. Where
/// `c` is the product of a query for row `row` with a column of the database, the
/// masks of the rows are taken off, and the rest is multiplied by the degree, the
/// entry of the column in that row comes out, as long as the noise of all rows
/// together stays inside the window of a plaintext.
pub proof fn simplepir_answer_holds_the_entry<T: ToU64>(
    w: Seq<u64>,
    params: Params,
    key: Seq<u64>,
    row: int,
    b: Seq<T>,
    base: int,
    c: u64,
)
    requires
        params.wf(),
        is_row_query(w, params, key, row),
        0 <= row < params.rows(),
        forall|r: int|
            0 <= r < params.rows() ==> (#[trigger] b[base + r]).word() < params.pt_modulus,
        accumulated(
            c,
            0,
            half_sum(false, w, 0, b, base, 0, params.rows() as int),
            half_sum(true, w, 0, b, base, 0, params.rows() as int),
        ),
        2 * params.pt_modulus * params.pt_modulus * (1 + params.rows() * noise_bound(
            params.noise_width_e8,
        )) < MODULUS,
    ensures
        rescaled(
            params.poly_len * (c - mask_product(
                params,
                key,
                numbered_seed(0),
                b,
                base,
                params.rows() as int,
            )),
            MODULUS as int,
            params.pt_modulus as int,
        ) == b[base + row].word(),
{
    let noise = choose|noise: Seq<Vec<u64>>|
        noise.len() == pow2(params.db_dim_1 as nat) && #[trigger] is_packed_query(
            w,
            params,
            key,
            numbered_seed(SEED_0),
            noise,
            true,
            row,
        );
    lemma_rows_are_blocks(params);
    answer_holds_the_entry(params, key, numbered_seed(SEED_0), noise, row, w, b, base, c);
}

/// The blocks of a query select its row: what block `i` decrypts to, times the
/// degree, decodes at place `z` to one where `index` is `i * n + z`, and to zero
/// elsewhere. The public elements are those that the blocks carry themselves.
pub proof fn query_blocks_select_their_row(
    cts: Seq<PolyMatrixRaw>,
    params: Params,
    key: Seq<u64>,
    public_seed: Seq<u8>,
    noise: Seq<Vec<u64>>,
    index: int,
    i: int,
    z: int,
)
    requires
        params.wf(),
        are_query_cts(cts, params, key, public_seed, noise, true, index),
        0 <= index,
        0 <= i < cts.len(),
        0 <= z < params.poly_len,
    ensures
        rescaled(
            params.poly_len * decrypted(
                key,
                cts[i].poly(0, 0),
                cts[i].poly(1, 0),
                params.poly_len as int,
            )[z],
            MODULUS as int,
            params.pt_modulus as int,
        ) == if index == i * params.poly_len + z {
            1int
        } else {
            0int
        },
{
    let n = params.poly_len as int;
    let q = MODULUS as int;
    let a = uniform_ring(public_seed, (i * (2 * n)) as nat, n);
    assert(is_query_ct(
        cts[i],
        params,
        key,
        public_seed,
        noise[i]@,
        true,
        index,
        i,
    ));
    let block = query_block(params, key, public_seed, noise[i]@, true, index, i);
    query_selects_its_row(params, key, public_seed, noise[i]@, index, i, z);
    // Decrypting takes the mask off.
    let mask = ring_mul(key, a, n);
    let neg = ring_neg(a, n);
    lemma_neg_is_scale(a, n);
    lemma_neg_is_scale(mask, n);
    lemma_mul_linear(key, a, a, -1, n);
    assert(ring_mul(key, neg, n) == ring_neg(mask, n));
    let d = decrypted(key, neg, block, n);
    let x = residue(-(mask[z] as int)) as int;
    lemma_fundamental_div_mod(-(mask[z] as int), q);
    lemma_fundamental_div_mod(x + block[z], q);
    let k = (x + block[z]) / q + (-(mask[z] as int)) / q;
    assert(block[z] - mask[z] == d[z] + q * k);
    assert(n * (block[z] - mask[z]) == n * d[z] + q * (n * k)) by (nonlinear_arith)
        requires
            block[z] - mask[z] == d[z] + q * k,
    ;
    lemma_mod_multiples_vanish(n * k, n * d[z], q);
    assert(q * (n * k) + n * d[z] == n * (block[z] - mask[z]));
}

/// The rows of a query select its row: where the mask of row `r` is taken off its
/// word and the rest is multiplied by the degree, one comes out where `r` is the
/// row asked for, and zero elsewhere.
pub proof fn query_rows_select_their_row(
    out: Seq<u64>,
    params: Params,
    key: Seq<u64>,
    public_seed: Seq<u8>,
    noise: Seq<Vec<u64>>,
    index: int,
    r: int,
)
    requires
        params.wf(),
        are_query_rows(out, params, key, public_seed, noise, true, index),
        0 <= index,
        0 <= r < out.len(),
    ensures
        rescaled(
            params.poly_len * (out[r] - row_mask(params, key, public_seed, r)),
            MODULUS as int,
            params.pt_modulus as int,
        ) == if r == index {
            1int
        } else {
            0int
        },
{
    let n = params.poly_len as int;
    lemma_row_place(r, n, noise.len() as int);
    let (i, z) = (r / n, r % n);
    assert(noise_is_small(params, noise[i]@));
    lemma_chunk_inside(out.len() as int, n, noise.len() as int, i);
    assert(chunk(out, n, i) == query_block(
        params,
        key,
        public_seed,
        noise[i]@,
        true,
        index,
        i,
    ));
    assert(chunk(out, n, i)[z] == out[i * n + z]);
    query_selects_its_row(params, key, public_seed, noise[i]@, index, i, z);
}

/// The masks come from the public stream, one number to a row: the public element
/// of the block of row `r` has as coefficient `z` the number of the stream at the
/// place of row `(r / n) * n + z`, and the mask of the row is its coefficient of
/// the key times that element.
pub proof fn masks_take_one_number_to_a_row(
    params: Params,
    key: Seq<u64>,
    public_seed: Seq<u8>,
    r: int,
)
    requires
        params.poly_len > 0,
        0 <= r,
    ensures
        row_mask(params, key, public_seed, r) == ring_mul(
            key,
            Seq::new(
                params.poly_len as nat,
                |z: int|
                    residue(
                        chacha_u64(
                            public_seed,
                            (2 * (r - r % (params.poly_len as int) + z)) as nat,
                        ) as int,
                    ),
            ),
            params.poly_len as int,
        )[r % (params.poly_len as int)],
{
    let n = params.poly_len as int;
    lemma_fundamental_div_mod(r, n);
    let i = r / n;
    assert(0 <= i * (2 * n) && i * (2 * n) == 2 * (r - r % n)) by (nonlinear_arith)
        requires
            r == n * i + r % n,
            0 <= r,
            0 <= r % n < n,
    ;
    let a = uniform_ring(public_seed, (i * (2 * n)) as nat, n);
    let b = Seq::new(
        n as nat,
        |z: int| residue(chacha_u64(public_seed, (2 * (r - r % n + z)) as nat) as int),
    );
    assert(a =~= b);
}

} // verus!
