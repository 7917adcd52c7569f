//! Building queries and reading plain answers.
use crate::aligned::{words, AlignedMemory64};
use crate::arith::{invert_uint_mod, pow2_usize, rescaled};
use crate::client::{
    advanced, are_expansion_keys, digit_row, encrypts_digits, expansion_power, get_seed,
    is_automorph, is_expansion_key, lemma_ring_forms, noise_advanced, pack_query, packed_residues,
    packed_words, raw_generate_expansion_params, reduce_ring, Client,
};
use crate::constants::{numbered_seed, static_seed_2, SEED_0};
use crate::lwe::{default_lwe, lwe_secret_key, LWEClient, LWEParams};
use crate::params::{MODULUS, Params};
use crate::poly::{chunk, lemma_chunk_append, lemma_chunk_inside, PolyMatrixNTT, PolyMatrixRaw};
use crate::query_laws::{
    packed_query_is_one_hot, query_number, query_rows_select_their_row, row_mask,
};
use crate::ring::{
    is_constant, is_ring, lemma_mul_constant_left, lemma_ring_closed, reduced, ring_add, ring_mul,
    ring_neg, ring_scale,
};
use crate::serialize::{
    condense_matrix, condensed, lemma_packed_all_part, lemma_packed_condensed, pack_vec_pm,
    pack_word, packed, packed_all,
};
use crate::spiral::{
    copy_table, draw_table, fast_noise_ring, is_noise_table, masked, near_zero, negate_ring,
    noise_bound, ntt_add, ntt_forward, ntt_inverse, ntt_multiply, ntt_of, random_ring, random_seed,
    secret_key, uniform_ring, ChaChaStream, NoiseStream, Seed,
};
use vstd::arithmetic::div_mod::{lemma_mul_mod_noop_left, lemma_mul_mod_noop_right, lemma_small_mod};
use vstd::arithmetic::power2::pow2;
use vstd::prelude::*;

verus! {

/// The inverse of the ring degree modulo the modulus.
pub open spec fn degree_inverse(n: int) -> int {
    if n == 2048 {
        66941987254379553
    } else {
        66958338496991761
    }
}

/// An inverse below the modulus is unique.
proof fn lemma_inverse_unique(r: int, w: int, n: int)
    requires
        0 <= r < MODULUS,
        0 <= w < MODULUS,
        (r * n) % (MODULUS as int) == 1,
        (w * n) % (MODULUS as int) == 1,
    ensures
        r == w,
{
    let q = MODULUS as int;
    lemma_mul_mod_noop_left(r * n, w, q);
    lemma_mul_mod_noop_right(r, w * n, q);
    assert((r * n) * w == r * (w * n)) by (nonlinear_arith);
    assert(1 * w == w);
    assert(r * 1 == r);
    lemma_small_mod(r as nat, MODULUS as nat);
    lemma_small_mod(w as nat, MODULUS as nat);
}

/// Computes the inverse of the ring degree modulo the modulus.
fn inverse_of_degree(params: &Params) -> (r: u64)
    requires
        params.ring_wf(),
    ensures
        r == degree_inverse(params.poly_len as int),
        r < MODULUS,
        (r * params.poly_len) % (MODULUS as int) == 1,
{
    let inv: Option<u64> = invert_uint_mod(params.poly_len as u64, params.modulus);
    let ghost n = params.poly_len as int;
    let ghost w = degree_inverse(n);
    proof {
        assert((66941987254379553int * 2048) % (MODULUS as int) == 1);
        assert((66958338496991761int * 4096) % (MODULUS as int) == 1);
        assert((w * n) % (MODULUS as int) == 1);
        assert((w * (params.poly_len as u64)) % (MODULUS as int) == 1);
        assert(inv is Some);
    }
    let r: u64 = inv.unwrap();
    proof {
        lemma_inverse_unique(r as int, w, n);
    }
    r
}

/// The element with coefficient `val` at `at` and zeros elsewhere.
pub open spec fn one_hot(n: int, at: int, val: u64) -> Seq<u64> {
    Seq::new(
        n as nat,
        |z: int|
            if z == at {
                val
            } else {
                0
            },
    )
}

/// The message of block `i` of a query for `index`: the plaintext one, scaled
/// up, at the place of `index` where `index` falls into the block, and zero
/// elsewhere. For a query whose answer is packed it is divided by the degree,
/// which packing multiplies by.
pub open spec fn query_message(params: Params, packing: bool, index: int, i: int) -> Seq<u64> {
    let n = params.poly_len as int;
    let one = if i == index / n {
        one_hot(n, index % n, (MODULUS / params.pt_modulus) as u64)
    } else {
        one_hot(n, -1, 0)
    };
    if packing {
        ring_scale(one, degree_inverse(n), n)
    } else {
        one
    }
}

/// The second row of block `i` of a query for `index`: its message, masked with
/// the next element of the public stream and with the noise `e`.
pub open spec fn query_block(
    params: Params,
    key: Seq<u64>,
    public_seed: Seq<u8>,
    e: Seq<u64>,
    packing: bool,
    index: int,
    i: int,
) -> Seq<u64> {
    let n = params.poly_len as int;
    masked(
        key,
        uniform_ring(public_seed, (i * (2 * n)) as nat, n),
        e,
        degree_inverse(n) as u64,
        query_message(params, packing, index, i),
        n,
    )
}

/// The noise of a block is within the noise bound of zero.
pub open spec fn noise_is_small(params: Params, e: Seq<u64>) -> bool {
    e.len() == params.poly_len && forall|z: int|
        0 <= z < params.poly_len ==> near_zero(
            #[trigger] e[z],
            MODULUS,
            noise_bound(params.noise_width_e8),
        )
}

/// The noise of every block is small.
pub open spec fn all_small(params: Params, noise: Seq<Vec<u64>>) -> bool {
    forall|i: int| 0 <= i < noise.len() ==> noise_is_small(params, #[trigger] noise[i]@)
}

/// A client with the keys of both layers.
pub struct YClient<'a> {
    pub inner: Client<'a>,
    pub lwe_client: LWEClient,
}

/// The tables that make the noise of both layers.
#[derive(Debug, Clone, PartialEq, Eq)]
pub struct NoiseTables {
    pub ring: Vec<u64>,
    pub lwe: Vec<u64>,
}

impl NoiseTables {
    /// The tables are of the widths of the two layers.
    pub open spec fn wf(&self, params: Params) -> bool {
        is_noise_table(self.ring@, params.noise_width_e8) && is_noise_table(
            self.lwe@,
            default_lwe().noise_width_e8,
        )
    }

    /// The tables for a parameter set.
    pub fn of(params: &Params) -> (r: Self)
        requires
            0 < params.noise_width_e8 <= 10_000_000_000,
        ensures
            r.wf(*params),
    {
        NoiseTables {
            ring: draw_table(params.noise_width_e8),
            lwe: draw_table(LWEParams::default().noise_width_e8),
        }
    }
}

/// Scales a ring element.
fn scale_ring(params: &Params, scalar: &Vec<u64>, factor: u64) -> (r: Vec<u64>)
    requires
        params.ring_wf(),
        is_ring(scalar@, params.poly_len as int),
        factor < MODULUS,
    ensures
        r@.len() == params.poly_len,
        reduced(r@, params.poly_len as int) == ring_scale(
            scalar@,
            factor as int,
            params.poly_len as int,
        ),
{
    let ghost n = params.poly_len as int;
    let single: PolyMatrixRaw = PolyMatrixRaw::single_value(params, factor);
    proof {
        assert(1 * 1 * n == n) by (nonlinear_arith);
        assert(is_ring(single.data@, n));
        lemma_ring_forms(single.data@, n);
        lemma_ring_forms(scalar@, n);
        lemma_small_mod(factor as nat, MODULUS as nat);
        assert(is_constant(single.data@, factor as int % MODULUS as int, n));
        lemma_mul_constant_left(single.data@, scalar@, factor as int, n);
        lemma_ring_closed(scalar@, scalar@, factor as int, n);
    }
    let factor_ntt: Vec<u64> = ntt_forward(params, single.data.as_slice());
    let scalar_ntt: Vec<u64> = ntt_forward(params, scalar.as_slice());
    let prod: Vec<u64> = ntt_multiply(params, factor_ntt.as_slice(), scalar_ntt.as_slice());
    ntt_inverse(params, prod.as_slice())
}

impl<'a> YClient<'a> {
    /// The keys of both layers are usable.
    pub open spec fn wf(&self) -> bool {
        self.inner.wf() && self.lwe_client.wf()
    }

    /// The parameters.
    pub open spec fn params(&self) -> Params {
        *self.inner.params
    }

    /// A client with the ring keys of `seed`, and keys of the inner layer from
    /// a fresh seed.
    pub fn new(params: &'a Params, seed: Seed) -> (r: Self)
        requires
            params.wf(),
        ensures
            r.wf(),
            r.inner.params == params,
            r.inner.seed == seed,
            exists|s: Seq<u8>|
                r.lwe_client.sk@ == #[trigger] lwe_secret_key(
                    r.lwe_client.table@,
                    r.lwe_client.lwe_params,
                    s,
                ),
    {
        let lwe_params: LWEParams = LWEParams::default();
        let lwe_client: LWEClient = LWEClient::new(lwe_params);
        let inner: Client<'a> = Client::from_seed(params, seed);
        let r = YClient { inner, lwe_client };
        proof {
            let s = choose|s: Seq<u8>|
                lwe_client.sk@ == #[trigger] lwe_secret_key(lwe_client.table@, lwe_params, s);
            assert(r.lwe_client.sk@ == lwe_secret_key(
                r.lwe_client.table@,
                r.lwe_client.lwe_params,
                s,
            ));
        }
        r
    }

    /// A client with the keys of `client_seed` in both layers.
    pub fn from_seed(params: &'a Params, client_seed: Seed) -> (r: Self)
        requires
            params.wf(),
        ensures
            r.wf(),
            r.inner.params == params,
            r.inner.seed == client_seed,
            r.lwe_client.sk@ == lwe_secret_key(
                r.lwe_client.table@,
                r.lwe_client.lwe_params,
                client_seed@,
            ),
    {
        YClient {
            inner: Client::from_seed(params, client_seed),
            lwe_client: LWEClient::from_seed(LWEParams::default(), client_seed),
        }
    }

    /// A client with the keys that tables make of `client_seed` in both layers.
    pub fn with_tables(params: &'a Params, tables: &NoiseTables, client_seed: Seed) -> (r: Self)
        requires
            params.wf(),
            tables.wf(*params),
        ensures
            r.wf(),
            r.inner.params == params,
            r.inner.seed == client_seed,
            r.inner.key() == secret_key(tables.ring@, *params, client_seed@),
            r.lwe_client.table@ == tables.lwe@,
            r.lwe_client.sk@ == lwe_secret_key(tables.lwe@, default_lwe(), client_seed@),
    {
        YClient {
            inner: Client { params, table: copy_table(&tables.ring), seed: client_seed },
            lwe_client: LWEClient::with_table(
                LWEParams::default(),
                copy_table(&tables.lwe),
                client_seed,
            ),
        }
    }

    /// Encrypts the message of block `i` of a query under the noise `e`: the
    /// coefficients of both rows.
    pub(crate) fn encrypt_block(
        &self,
        public_seed: Seed,
        i: usize,
        packing: bool,
        index: usize,
        e: &Vec<u64>,
    ) -> (r: (Vec<u64>, Vec<u64>))
        requires
            self.wf(),
            noise_is_small(self.params(), e@),
            (i + 1) * (2 * self.params().poly_len) <= u64::MAX,
        ensures
            r.0@.len() == self.params().poly_len,
            r.1@.len() == self.params().poly_len,
            r.0@ == ring_neg(
                uniform_ring(
                    public_seed@,
                    (i * (2 * self.params().poly_len)) as nat,
                    self.params().poly_len as int,
                ),
                self.params().poly_len as int,
            ),
            r.1@ == query_block(
                self.params(),
                self.inner.key(),
                public_seed@,
                e@,
                packing,
                index as int,
                i as int,
            ),
    {
        let params: &Params = self.inner.params;
        let ghost n = params.poly_len as int;
        let len: usize = params.poly_len;
        let scale_k: u64 = params.modulus / params.pt_modulus;
        let mut scalar: Vec<u64> = vec![0u64; len];
        let is_nonzero: bool = i == index / len;
        if is_nonzero {
            scalar.set(index % len, scale_k);
        }
        let ghost one = if i as int == index as int / n {
            one_hot(n, index as int % n, (MODULUS / params.pt_modulus) as u64)
        } else {
            one_hot(n, -1, 0)
        };
        proof {
            assert(scalar@ =~= one);
            assert(scale_k < MODULUS) by (nonlinear_arith)
                requires
                    scale_k == MODULUS as int / params.pt_modulus as int,
                    params.pt_modulus > 1,
            ;
            assert(is_ring(scalar@, n));
            lemma_ring_forms(scalar@, n);
        }
        let factor: u64 = inverse_of_degree(params);
        if packing {
            scalar = scale_ring(params, &scalar, factor);
        }
        let ghost message = query_message(*params, packing, index as int, i as int);
        proof {
            assert(reduced(scalar@, n) == message);
            lemma_ring_closed(scalar@, scalar@, 0, n);
            assert((i + 1) * (2 * n) == i * (2 * n) + 2 * n && 0 <= i * (2 * n))
                by (nonlinear_arith)
                requires
                    0 <= i,
                    0 <= n,
            ;
        }
        let scalar_ntt: Vec<u64> = ntt_forward(params, scalar.as_slice());
        let pos: u64 = i as u64 * (2 * len as u64);
        let a: Vec<u64> = random_ring(params, public_seed, pos);
        let sk_reg: PolyMatrixRaw = self.inner.get_sk_reg();
        let ghost s = self.inner.key();
        proof {
            lemma_ring_forms(a@, n);
            lemma_ring_forms(s, n);
            assert forall|z: int| 0 <= z < n implies #[trigger] e@[z] < MODULUS by {
                assert(near_zero(e@[z], MODULUS, noise_bound(params.noise_width_e8)));
            }
        }
        let neg: Vec<u64> = negate_ring(params, a.as_slice());
        let scaled: Vec<u64> = scale_ring(params, e, factor);
        let scaled_ntt: Vec<u64> = ntt_forward(params, scaled.as_slice());
        let sk_ntt: Vec<u64> = ntt_forward(params, sk_reg.data.as_slice());
        let a_ntt: Vec<u64> = ntt_forward(params, a.as_slice());
        let prod: Vec<u64> = ntt_multiply(params, sk_ntt.as_slice(), a_ntt.as_slice());
        let ghost noisy = ring_add(ring_scale(e@, factor as int, n), ring_mul(s, a@, n), n);
        proof {
            lemma_ring_closed(e@, e@, factor as int, n);
            lemma_ring_closed(s, a@, 0, n);
            lemma_ring_closed(ring_scale(e@, factor as int, n), ring_mul(s, a@, n), 0, n);
            lemma_ring_closed(noisy, message, 0, n);
            assert(prod@ == ntt_of(n as nat, ring_mul(s, a@, n)));
            assert(scaled_ntt@ == ntt_of(n as nat, ring_scale(e@, factor as int, n)));
        }
        let mask: Vec<u64> = ntt_add(params, scaled_ntt.as_slice(), prod.as_slice());
        assert(mask@ == ntt_of(n as nat, noisy));
        assert(scalar_ntt@ == ntt_of(n as nat, message));
        let row_1: Vec<u64> = ntt_add(params, mask.as_slice(), scalar_ntt.as_slice());
        assert(row_1@ == ntt_of(n as nat, masked(s, a@, e@, factor, message, n)));
        let raw_1: Vec<u64> = ntt_inverse(params, row_1.as_slice());
        (neg, reduce_ring(params, raw_1.as_slice()))
    }
}

/// The second rows of the blocks of a query for `index`, one after the other.
/// Block `i` has the noise `i`.
pub open spec fn are_query_rows(
    out: Seq<u64>,
    params: Params,
    key: Seq<u64>,
    public_seed: Seq<u8>,
    noise: Seq<Vec<u64>>,
    packing: bool,
    index: int,
) -> bool {
    let n = params.poly_len as int;
    &&& out.len() == noise.len() * n
    &&& all_small(params, noise)
    &&& forall|i: int|
        0 <= i < noise.len() ==> #[trigger] chunk(out, n, i) == query_block(
            params,
            key,
            public_seed,
            noise[i]@,
            packing,
            index,
            i,
        )
}

/// The packed form of a query: word `i * n + z` holds the two prime residues of
/// coefficient `z` of the second row of block `i`.
pub open spec fn is_packed_query(
    packed: Seq<u64>,
    params: Params,
    key: Seq<u64>,
    public_seed: Seq<u8>,
    noise: Seq<Vec<u64>>,
    packing: bool,
    index: int,
) -> bool {
    let n = params.poly_len as int;
    &&& packed.len() == noise.len() * n
    &&& all_small(params, noise)
    &&& forall|i: int, z: int|
        0 <= i < noise.len() && 0 <= z < n ==> #[trigger] packed[i * n + z]
            == packed_residues(
            query_block(
                params,
                key,
                public_seed,
                noise[i]@,
                packing,
                index,
                i,
            )[z],
        )
}

/// Packing the rows of a query gives its packed form.
pub proof fn lemma_rows_packed(
    out: Seq<u64>,
    params: Params,
    key: Seq<u64>,
    public_seed: Seq<u8>,
    noise: Seq<Vec<u64>>,
    packing: bool,
    index: int,
)
    requires
        params.ring_wf(),
        are_query_rows(
            out,
            params,
            key,
            public_seed,
            noise,
            packing,
            index,
        ),
    ensures
        is_packed_query(
            packed_words(out),
            params,
            key,
            public_seed,
            noise,
            packing,
            index,
        ),
{
    let n = params.poly_len as int;
    let packed = packed_words(out);
    let count = noise.len() as int;
    assert forall|i: int, z: int| 0 <= i < count && 0 <= z < n implies #[trigger] packed[i * n + z]
        == packed_residues(
        query_block(
            params,
            key,
            public_seed,
            noise[i]@,
            packing,
            index,
            i,
        )[z],
    ) by {
        let c = chunk(out, n, i);
        lemma_chunk_inside(out.len() as int, n, count, i);
        assert(c[z] == out[i * n + z]);
        let b = query_block(
            params,
            key,
            public_seed,
            noise[i]@,
            packing,
            index,
            i,
        );
        assert(c == b);
    }
}

/// Draws `count` fresh seeds.
pub(crate) fn draw_seeds(count: usize) -> (r: Vec<Seed>)
    ensures
        r@.len() == count,
{
    let mut out: Vec<Seed> = Vec::new();
    let mut i: usize = 0;
    while i < count
        invariant
            i <= count,
            out@.len() == i,
        decreases count - i,
    {
        out.push(random_seed());
        i = i + 1;
    }
    out
}

/// Draws fresh noise for `count` blocks.
pub(crate) fn draw_noises(params: &Params, count: usize) -> (r: Vec<Vec<u64>>)
    requires
        params.ring_wf(),
    ensures
        r@.len() == count,
        all_small(*params, r@),
{
    let mut out: Vec<Vec<u64>> = Vec::new();
    let mut i: usize = 0;
    while i < count
        invariant
            params.ring_wf(),
            i <= count,
            out@.len() == i,
            all_small(*params, out@),
        decreases count - i,
    {
        out.push(fast_noise_ring(params));
        i = i + 1;
    }
    out
}

impl<'a> YClient<'a> {
    /// The second rows of a query for `index`, with the given noise for each
    /// block.
    pub fn query_rows_from_noise(
        &self,
        public_seed_idx: u8,
        packing: bool,
        index: usize,
        noise: &Vec<Vec<u64>>,
    ) -> (r: Vec<u64>)
        requires
            self.wf(),
            all_small(self.params(), noise@),
            noise@.len() * (2 * self.params().poly_len) <= usize::MAX,
        ensures
            are_query_rows(
                r@,
                self.params(),
                self.inner.key(),
                numbered_seed(public_seed_idx),
                noise@,
                packing,
                index as int,
            ),
    {
        let ghost n = self.params().poly_len as int;
        let ghost total = noise@.len() as int;
        let public_seed: Seed = get_seed(public_seed_idx);
        let mut out: Vec<u64> = Vec::new();
        let mut i: usize = 0;
        assert(0 * n == 0);
        while i < noise.len()
            invariant
                self.wf(),
                n == self.params().poly_len,
                total == noise@.len(),
                total * (2 * n) <= usize::MAX,
                public_seed@ == numbered_seed(public_seed_idx),
                i <= total,
                out@.len() == i * n,
                all_small(self.params(), noise@),
                forall|k: int|
                    0 <= k < i ==> #[trigger] chunk(out@, n, k) == query_block(
                        self.params(),
                        self.inner.key(),
                        public_seed@,
                        noise@[k]@,
                        packing,
                        index as int,
                        k,
                    ),
            decreases total - i,
        {
            assert((i + 1) * (2 * n) <= total * (2 * n)) by (nonlinear_arith)
                requires
                    i + 1 <= total,
                    0 <= n,
            ;
            let block: (Vec<u64>, Vec<u64>) = self.encrypt_block(
                public_seed,
                i,
                packing,
                index,
                &noise[i],
            );
            let ghost before = out@;
            out.extend_from_slice(block.1.as_slice());
            proof {
                assert(out@ =~= before + block.1@);
                lemma_chunk_append(before, block.1@, n, i as int);
                assert forall|k: int| 0 <= k < i + 1 implies #[trigger] chunk(out@, n, k)
                    == query_block(
                    self.params(),
                    self.inner.key(),
                    public_seed@,
                    noise@[k]@,
                    packing,
                    index as int,
                    k,
                ) by {
                    if k < i {
                        assert(chunk(before + block.1@, n, k) == chunk(before, n, k));
                    }
                }
            }
            i = i + 1;
        }
        out
    }

    /// The second rows of a query for `index_row` over two to the `dim_log2`
    /// blocks, under fresh noise.
    pub fn generate_query_lwe_low_mem(
        &self,
        public_seed_idx: u8,
        dim_log2: usize,
        packing: bool,
        index_row: usize,
    ) -> (r: Vec<u64>)
        requires
            self.wf(),
            pow2(dim_log2 as nat) * (2 * self.params().poly_len) <= usize::MAX,
        ensures
            r@.len() == pow2(dim_log2 as nat) * self.params().poly_len,
            exists|noise: Seq<Vec<u64>>|
                noise.len() == pow2(dim_log2 as nat) && #[trigger] are_query_rows(
                    r@,
                    self.params(),
                    self.inner.key(),
                    numbered_seed(public_seed_idx),
                    noise,
                    packing,
                    index_row as int,
                ),
            packing ==> forall|x: int|
                0 <= x < r@.len() ==> rescaled(
                    self.params().poly_len * (#[trigger] r@[x] - row_mask(
                        self.params(),
                        self.inner.key(),
                        numbered_seed(public_seed_idx),
                        x,
                    )),
                    MODULUS as int,
                    self.params().pt_modulus as int,
                ) == if x == index_row {
                    1int
                } else {
                    0int
                },
    {
        let ghost n = self.params().poly_len as int;
        assert(pow2(dim_log2 as nat) <= usize::MAX) by (nonlinear_arith)
            requires
                pow2(dim_log2 as nat) * (2 * n) <= usize::MAX,
                n >= 1,
        ;
        let noise: Vec<Vec<u64>> = draw_noises(self.inner.params, pow2_usize(dim_log2));
        let r: Vec<u64> = self.query_rows_from_noise(public_seed_idx, packing, index_row, &noise);
        assert(noise@.len() == pow2(dim_log2 as nat));
        proof {
            if packing {
                assert forall|x: int| 0 <= x < r@.len() implies rescaled(
                    n * (#[trigger] r@[x] - row_mask(
                        self.params(),
                        self.inner.key(),
                        numbered_seed(public_seed_idx),
                        x,
                    )),
                    MODULUS as int,
                    self.params().pt_modulus as int,
                ) == if x == index_row {
                    1int
                } else {
                    0int
                } by {
                    query_rows_select_their_row(
                        r@,
                        self.params(),
                        self.inner.key(),
                        numbered_seed(public_seed_idx),
                        noise@,
                        index_row as int,
                        x,
                    );
                }
            }
        }
        r
    }
}

/// The packing keys of a client: for every round `i`, the digits of the key
/// with `x` replaced by the power of that round, encrypted. Only the second
/// rows are sent, and word `(i * t + j) * n + z` packs the two residues of
/// value `z` of digit `j`.
pub open spec fn are_packing_keys(
    w: Seq<u64>,
    params: Params,
    s: Seq<u64>,
    rng: NoiseStream,
    rng_pub: ChaChaStream,
) -> bool {
    &&& w.len() == params.poly_len_log2 * (params.t_exp_left * params.poly_len)
    &&& forall|i: int|
        0 <= i < params.poly_len_log2 ==> #[trigger] is_packing_key(w, params, s, rng, rng_pub, i)
}

/// The words of round `i` of the packing keys.
pub open spec fn is_packing_key(
    w: Seq<u64>,
    params: Params,
    s: Seq<u64>,
    rng: NoiseStream,
    rng_pub: ChaChaStream,
    i: int,
) -> bool {
    let n = params.poly_len as int;
    let t = params.t_exp_left as int;
    let taken = i * (t * (2 * n));
    exists|tau: Seq<u64>|
        #[trigger] is_automorph(tau, s, expansion_power(n, i), n) && packs_digits(
            w,
            params,
            s,
            tau,
            noise_advanced(rng, taken),
            advanced(rng_pub, taken),
            i,
        )
}

/// The words of round `i` pack the encrypted digits of `tau`.
pub open spec fn packs_digits(
    w: Seq<u64>,
    params: Params,
    s: Seq<u64>,
    tau: Seq<u64>,
    rng: NoiseStream,
    rng_pub: ChaChaStream,
    i: int,
) -> bool {
    let n = params.poly_len as int;
    let t = params.t_exp_left as int;
    forall|j: int, z: int|
        0 <= j < t && 0 <= z < n ==> #[trigger] w[i * (t * n) + (j * n + z)] == pack_word(
            digit_row(s, tau, t, j, params, rng, rng_pub)[z],
            digit_row(s, tau, t, j, params, rng, rng_pub)[n + z],
        )
}

/// The second rows of a key of two rows and `t` columns, condensed.
fn condensed_bottom<'a>(params: &'a Params, key: &PolyMatrixNTT<'a>, t: usize) -> (r: PolyMatrixNTT<
    'a,
>)
    requires
        params.ring_wf(),
        key.wf(),
        key.params == params,
        key.rows == 2,
        key.cols == t,
        t <= 64,
    ensures
        r.wf(),
        r.rows == 1,
        r.cols == t,
        r.params == params,
        r.data@ == condensed(
            key.data@.subrange(
                t * (2 * params.poly_len),
                2 * t * (2 * params.poly_len),
            ),
            params.poly_len as int,
        ),
        r.data@.len() == t * (2 * params.poly_len),
{
    let ghost w = 2 * params.poly_len;
    assert(t * w <= 64 * 8192 && 2 * t * w == t * w + t * w && 1 * t * w == t * w)
        by (nonlinear_arith)
        requires
            0 <= t <= 64,
            0 <= w <= 8192,
    ;
    let half: usize = t * (2 * params.poly_len);
    let mut data: Vec<u64> = Vec::new();
    data.extend_from_slice(vstd::slice::slice_subrange(key.data.as_slice(), half, 2 * half));
    assert(data@ =~= key.data@.subrange(t * w, 2 * t * w));
    let bottom: PolyMatrixNTT<'a> = PolyMatrixNTT { params, rows: 1, cols: t, data };
    condense_matrix(params, &bottom)
}

/// The packed words of the keys of all rounds are the packing keys.
proof fn lemma_packing_keys(
    keys: Seq<PolyMatrixNTT>,
    v: Seq<PolyMatrixNTT>,
    params: Params,
    s: Seq<u64>,
    rng: NoiseStream,
    rng_pub: ChaChaStream,
)
    requires
        params.ring_wf(),
        1 <= params.t_exp_left <= 64,
        keys.len() == params.poly_len_log2,
        v.len() == keys.len(),
        are_expansion_keys(keys, s, params.t_exp_left as int, params, rng, rng_pub),
        forall|i: int|
            0 <= i < v.len() ==> (#[trigger] v[i]).data@ == condensed(
                keys[i].data@.subrange(
                    params.t_exp_left * (2 * params.poly_len),
                    2 * params.t_exp_left * (2 * params.poly_len),
                ),
                params.poly_len as int,
            ),
    ensures
        are_packing_keys(
            packed_all(v, params.t_exp_left as int, params.poly_len as int),
            params,
            s,
            rng,
            rng_pub,
        ),
{
    let n = params.poly_len as int;
    let t = params.t_exp_left as int;
    let words = 2 * n;
    let w = packed_all(v, t, n);
    lemma_packed_all_part(v, t, n, 0);
    assert forall|i: int| 0 <= i < params.poly_len_log2 implies #[trigger] is_packing_key(
        w,
        params,
        s,
        rng,
        rng_pub,
        i,
    ) by {
        let taken = i * (t * words);
        let (r, p) = (noise_advanced(rng, taken), advanced(rng_pub, taken));
        let key = keys[i].data@;
        assert(is_expansion_key(key, s, expansion_power(n, i), t, params, r, p));
        let tau = choose|tau: Seq<u64>|
            #[trigger] is_automorph(tau, s, expansion_power(n, i), n) && encrypts_digits(
                key,
                s,
                tau,
                t,
                params,
                r,
                p,
            );
        let bottom = key.subrange(t * words, 2 * t * words);
        assert(2 * t * words == t * words + t * words && 0 <= t * words && t * n >= 0)
            by (nonlinear_arith)
            requires
                0 <= t,
                0 <= words,
                0 <= n,
        ;
        assert(v[i].data@ == condensed(bottom, n));
        lemma_packed_all_part(v, t, n, i);
        let part = w.subrange(i * (t * n), (i + 1) * (t * n));
        assert(part == packed(v[i].data@, t, n));
        assert((i + 1) * (t * n) == i * (t * n) + t * n) by (nonlinear_arith);
        lemma_chunk_inside(w.len() as int, t * n, v.len() as int, i);
        assert forall|j: int, z: int| 0 <= j < t && 0 <= z < n implies #[trigger] w[i * (t * n) + (j
            * n + z)] == pack_word(
            digit_row(s, tau, t, j, params, r, p)[z],
            digit_row(s, tau, t, j, params, r, p)[n + z],
        ) by {
            lemma_packed_condensed(bottom, t, n, j, z);
            assert(part[j * n + z] == w[i * (t * n) + (j * n + z)]);
            let d = chunk(key, words, t + j);
            assert(d == digit_row(s, tau, t, j, params, r, p));
            assert((t + j) * words == t * words + j * words) by (nonlinear_arith);
            lemma_chunk_inside(t * words, words, t, j);
            assert(bottom[j * words + z] == d[z]);
            assert(bottom[j * words + n + z] == d[n + z]);
        }
        assert(packs_digits(w, params, s, tau, r, p, i));
    }
}

impl<'a> YClient<'a> {
    /// The packing keys, with noise drawn from `secret_rng`. The public stream
    /// is fixed, so that a server can draw it too.
    pub fn build_pack_pub_params_with_secret_rng(&self, secret_rng: &mut NoiseStream) -> (r:
        AlignedMemory64)
        requires
            self.wf(),
            is_noise_table(old(secret_rng).table@, self.params().noise_width_e8),
            old(secret_rng).pos <= 0x8000_0000_0000_0000,
        ensures
            final(secret_rng).seed == old(secret_rng).seed,
            final(secret_rng).table == old(secret_rng).table,
            final(secret_rng).pos == old(secret_rng).pos + self.params().poly_len_log2 * (
            self.params().t_exp_left * (2 * self.params().poly_len)),
            exists|rng_pub: ChaChaStream|
                rng_pub.seed@ == numbered_seed(2) && rng_pub.pos == 0 && #[trigger] are_packing_keys(
                    words(r),
                    self.params(),
                    self.inner.key(),
                    *old(secret_rng),
                    rng_pub,
                ),
    {
        let params: &'a Params = self.inner.params;
        let ghost rng0 = *secret_rng;
        let ghost n = params.poly_len as int;
        let t: usize = params.t_exp_left;
        let sk_reg: PolyMatrixRaw<'a> = self.inner.get_sk_reg();
        let mut rng_pub: ChaChaStream = ChaChaStream::from_seed(static_seed_2());
        let ghost pub0 = rng_pub;
        assert(params.poly_len_log2 * (t * (2 * n)) <= 12 * (64 * 8192) && t * (2 * n) <= 64 * 8192
            && params.poly_len_log2 * (1 * t * n) <= 12 * (64 * 4096) && 1 * t * (2 * n) == t * (2
            * n) && 1 * t == t) by (nonlinear_arith)
            requires
                0 <= t <= 64,
                0 <= n <= 4096,
                0 <= params.poly_len_log2 <= 12,
        ;
        let pack_pub_params: Vec<PolyMatrixNTT<'a>> = raw_generate_expansion_params(
            params,
            &sk_reg,
            params.poly_len_log2,
            t,
            secret_rng,
            &mut rng_pub,
        );
        let mut rows_1: Vec<PolyMatrixNTT<'a>> = Vec::new();
        let mut i: usize = 0;
        while i < pack_pub_params.len()
            invariant
                params.ring_wf(),
                n == params.poly_len,
                t == params.t_exp_left,
                1 <= t <= 64,
                i <= pack_pub_params@.len(),
                forall|k: int|
                    0 <= k < pack_pub_params@.len() ==> (#[trigger] pack_pub_params@[k]).wf()
                        && pack_pub_params@[k].params == params && pack_pub_params@[k].rows == 2
                        && pack_pub_params@[k].cols == t,
                rows_1@.len() == i,
                forall|k: int|
                    0 <= k < i ==> (#[trigger] rows_1@[k]).data@ == condensed(
                        pack_pub_params@[k].data@.subrange(t * (2 * n), 2 * t * (2 * n)),
                        n,
                    ) && rows_1@[k].rows == 1 && rows_1@[k].cols == t && rows_1@[k].data@.len() == t
                        * (2 * n),
            decreases pack_pub_params@.len() - i,
        {
            let row: PolyMatrixNTT<'a> = condensed_bottom(params, &pack_pub_params[i], t);
            rows_1.push(row);
            i = i + 1;
        }
        let r: AlignedMemory64 = pack_vec_pm(params, 1, t, &rows_1);
        proof {
            lemma_packing_keys(
                pack_pub_params@,
                rows_1@,
                *params,
                self.inner.key(),
                rng0,
                pub0,
            );
            assert(words(r) == packed_all(rows_1@, t as int, n));
            assert(pub0.seed@ == numbered_seed(2) && pub0.pos == 0);
            assert(are_packing_keys(words(r), self.params(), self.inner.key(), rng0, pub0));
        }
        r
    }

    /// The packing keys, under fresh noise.
    pub fn build_pack_pub_params(&self) -> (r: AlignedMemory64)
        requires
            self.wf(),
        ensures
            exists|secret_rng: NoiseStream, rng_pub: ChaChaStream|
                secret_rng.pos == 0 && is_noise_table(
                    secret_rng.table@,
                    self.params().noise_width_e8,
                ) && rng_pub.seed@ == numbered_seed(2) && rng_pub.pos == 0
                    && #[trigger] are_packing_keys(
                    words(r),
                    self.params(),
                    self.inner.key(),
                    secret_rng,
                    rng_pub,
                ),
    {
        let mut secret_rng: NoiseStream = NoiseStream::from_entropy(
            self.inner.params.noise_width_e8,
        );
        self.build_pack_pub_params_with_secret_rng(&mut secret_rng)
    }
}

/// The parts of a query of the one-level scheme: the packed query for row
/// `row`, under some noise.
pub open spec fn is_row_query(w: Seq<u64>, params: Params, key: Seq<u64>, row: int) -> bool {
    exists|noise: Seq<Vec<u64>>|
        noise.len() == pow2(params.db_dim_1 as nat) && #[trigger] is_packed_query(
            w,
            params,
            key,
            numbered_seed(SEED_0),
            noise,
            true,
            row,
        )
}

/// The packing keys of a client, under some noise.
pub open spec fn is_packing_blob(w: Seq<u64>, params: Params, key: Seq<u64>) -> bool {
    exists|secret_rng: NoiseStream, rng_pub: ChaChaStream|
        secret_rng.pos == 0 && is_noise_table(secret_rng.table@, params.noise_width_e8)
            && rng_pub.seed@ == numbered_seed(2) && rng_pub.pos == 0
            && #[trigger] are_packing_keys(
            w,
            params,
            key,
            secret_rng,
            rng_pub,
        )
}

/// The rows of the database are its blocks of ring degree.
pub proof fn lemma_rows_are_blocks(params: Params)
    requires
        params.ring_wf(),
    ensures
        params.rows() == pow2(params.db_dim_1 as nat) * params.poly_len,
        params.cols_normal() == pow2(params.db_dim_2 as nat) * params.poly_len,
{
    vstd::arithmetic::power2::lemma2_to64();
    vstd::arithmetic::power2::lemma_pow2_adds(
        params.db_dim_1 as nat,
        params.poly_len_log2 as nat,
    );
    vstd::arithmetic::power2::lemma_pow2_adds(
        params.db_dim_2 as nat,
        params.poly_len_log2 as nat,
    );
}

impl<'a> YClient<'a> {
    /// The packed query for row `target_row`.
    fn row_query(&self, target_row: usize) -> (r: AlignedMemory64)
        requires
            self.wf(),
        ensures
            words(r).len() == self.params().rows(),
            is_row_query(words(r), self.params(), self.inner.key(), target_row as int),
            forall|x: int|
                0 <= x < words(r).len() ==> #[trigger] query_number(
                    words(r)[x],
                    self.params(),
                    self.inner.key(),
                    numbered_seed(0),
                    x,
                ) == if x == target_row {
                    1int
                } else {
                    0int
                },
    {
        let params: &Params = self.inner.params;
        let ghost n = params.poly_len as int;
        let ghost blocks = pow2(params.db_dim_1 as nat) as int;
        proof {
            lemma_rows_are_blocks(*params);
            vstd::arithmetic::power2::lemma_pow2_pos(params.db_dim_1 as nat);
            assert(blocks * (2 * n) == 2 * (blocks * n) && blocks * n >= 1) by (nonlinear_arith)
                requires
                    blocks >= 1,
                    n >= 1,
            ;
        }
        let rows: Vec<u64> = self.generate_query_lwe_low_mem(
            SEED_0,
            params.db_dim_1,
            true,
            target_row,
        );
        let r: AlignedMemory64 = pack_query(params, rows.as_slice());
        proof {
            let seeds = choose|noise: Seq<Vec<u64>>|
                noise.len() == pow2(params.db_dim_1 as nat) && #[trigger] are_query_rows(
                    rows@,
                    self.params(),
                    self.inner.key(),
                    numbered_seed(SEED_0),
                    noise,
                    true,
                    target_row as int,
                );
            lemma_rows_packed(
                rows@,
                self.params(),
                self.inner.key(),
                numbered_seed(SEED_0),
                seeds,
                true,
                target_row as int,
            );
            packed_query_is_one_hot(
                words(r),
                self.params(),
                self.inner.key(),
                numbered_seed(SEED_0),
                seeds,
                target_row as int,
            );
        }
        r
    }

    /// The query of the one-level scheme for the element `target_idx`: the
    /// packed query for its row, and the packing keys.
    pub fn generate_full_query_simplepir(&self, target_idx: u64) -> (r: (
        AlignedMemory64,
        AlignedMemory64,
    ))
        requires
            self.wf(),
            target_idx as int / self.params().cols_simplepir() as int <= usize::MAX,
        ensures
            words(r.0).len() == self.params().rows(),
            is_row_query(
                words(r.0),
                self.params(),
                self.inner.key(),
                target_idx as int / self.params().cols_simplepir() as int,
            ),
            forall|x: int|
                0 <= x < words(r.0).len() ==> #[trigger] query_number(
                    words(r.0)[x],
                    self.params(),
                    self.inner.key(),
                    numbered_seed(0),
                    x,
                ) == if x == target_idx as int / (self.params().instances * self.params().poly_len) {
                    1int
                } else {
                    0int
                },
            is_packing_blob(words(r.1), self.params(), self.inner.key()),
    {
        let params: &Params = self.inner.params;
        assert(params.instances * params.poly_len >= 1) by (nonlinear_arith)
            requires
                params.instances >= 1,
                params.poly_len >= 1,
        ;
        let db_cols: usize = params.instances * params.poly_len;
        let target_row: usize = (target_idx / db_cols as u64) as usize;
        let keys: AlignedMemory64 = self.build_pack_pub_params();
        let query: AlignedMemory64 = self.row_query(target_row);
        (query, keys)
    }

    /// Queries of the one-level scheme for several rows, with one set of
    /// packing keys for all of them.
    pub fn generate_full_query_simplepir_batch(&self, target_rows: &[usize]) -> (r: (
        Vec<AlignedMemory64>,
        AlignedMemory64,
    ))
        requires
            self.wf(),
        ensures
            r.0@.len() == target_rows@.len(),
            forall|k: int|
                0 <= k < r.0@.len() ==> words(#[trigger] r.0@[k]).len() == self.params().rows()
                    && is_row_query(
                    words(r.0@[k]),
                    self.params(),
                    self.inner.key(),
                    target_rows@[k] as int,
                ),
            forall|k: int, x: int|
                0 <= k < r.0@.len() && 0 <= x < words(r.0@[k]).len() ==> #[trigger] query_number(
                    words(r.0@[k])[x],
                    self.params(),
                    self.inner.key(),
                    numbered_seed(0),
                    x,
                ) == if x == target_rows@[k] {
                    1int
                } else {
                    0int
                },
            is_packing_blob(words(r.1), self.params(), self.inner.key()),
    {
        let keys: AlignedMemory64 = self.build_pack_pub_params();
        let mut queries: Vec<AlignedMemory64> = Vec::new();
        let mut k: usize = 0;
        while k < target_rows.len()
            invariant
                self.wf(),
                k <= target_rows@.len(),
                queries@.len() == k,
                forall|j: int|
                    0 <= j < k ==> words(#[trigger] queries@[j]).len() == self.params().rows()
                        && is_row_query(
                        words(queries@[j]),
                        self.params(),
                        self.inner.key(),
                        target_rows@[j] as int,
                    ),
                forall|k: int, x: int|
                    0 <= k < queries@.len() && 0 <= x < words(queries@[k]).len() ==> #[trigger] query_number(
                        words(queries@[k])[x],
                        self.params(),
                        self.inner.key(),
                        numbered_seed(0),
                        x,
                    ) == if x == target_rows@[k] {
                        1int
                    } else {
                        0int
                    },
            decreases target_rows@.len() - k,
        {
            let query: AlignedMemory64 = self.row_query(target_rows[k]);
            queries.push(query);
            k = k + 1;
        }
        (queries, keys)
    }
}

} // verus!
