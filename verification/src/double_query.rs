//! Queries of the two-level scheme.
use crate::aligned::{words, AlignedMemory64};
use crate::arith::{lemma_rescaled_residue, pow2_usize, rescale, rescaled};
use crate::client::{get_seed, pack_query, packed_words, rlwe_to_lwe};
use crate::constants::{numbered_seed, SEED_0, SEED_1};
use crate::double_laws::{row_number, row_query_is_one_hot};
use crate::lwe::{draw_noise, encrypts_many, lwe_noise, stream_words, LWEClient};
use crate::params::{DbRowsCols, MODULUS, Params};
use crate::poly::{chunk, lemma_cell, lemma_chunk_inside, PolyMatrixRaw};
use crate::query::{
    all_small, are_query_rows, draw_noises, draw_seeds, is_packed_query, is_packing_blob,
    lemma_rows_are_blocks, lemma_rows_packed, noise_is_small, query_block, YClient,
};
use crate::query_laws::{packed_query_is_one_hot, query_number};
use crate::ring::{concat_horizontal, is_negacyclic_matrix, is_ring, perm_at, ring_neg};
use crate::spiral::{uniform_ring, ChaChaStream, Seed};
use vstd::arithmetic::power2::pow2;
use vstd::prelude::*;

verus! {

/// `ct` is block `i` of a query for `index`, by coefficients: the negated
/// element of the public stream above, the masked message below.
pub open spec fn is_query_ct(
    ct: PolyMatrixRaw,
    params: Params,
    key: Seq<u64>,
    public_seed: Seq<u8>,
    e: Seq<u64>,
    packing: bool,
    index: int,
    i: int,
) -> bool {
    let n = params.poly_len as int;
    &&& ct.wf()
    &&& *ct.params == params
    &&& ct.rows == 2
    &&& ct.cols == 1
    &&& noise_is_small(params, e)
    &&& ct.poly(0, 0) == ring_neg(
        uniform_ring(public_seed, (i * (2 * n)) as nat, n),
        n,
    )
    &&& ct.poly(1, 0) == query_block(
        params,
        key,
        public_seed,
        e,
        packing,
        index,
        i,
    )
}

/// `r` holds the plain ciphertexts of a list of ring ciphertexts side by side:
/// the matrices of the first rows above, the second rows below.
pub open spec fn are_plain_ciphertexts(r: Seq<u64>, cts: Seq<PolyMatrixRaw>, n: int) -> bool {
    let width = cts.len() * n;
    &&& r.len() == (n + 1) * width
    &&& forall|j: int, k: int, i: int|
        0 <= j < n && 0 <= k < cts.len() && 0 <= i < n ==> #[trigger] r[j * width + (k * n + i)]
            == perm_at(cts[k].poly(0, 0), i, j, MODULUS)
    &&& forall|k: int, i: int|
        0 <= k < cts.len() && 0 <= i < n ==> #[trigger] r[n * width + (k * n + i)]
            == cts[k].poly(1, 0)[i]
}

/// The plaintexts of block `k` of a row query for `index`.
pub open spec fn lwe_plaintexts(index: int, k: int) -> Seq<u32> {
    Seq::new(
        1024,
        |c: int|
            if k * 1024 + c == index {
                0x100_0000u32
            } else {
                0u32
            },
    )
}

/// The blocks of a row query for `index`: block `k` encrypts its plaintexts
/// with the next words of the public stream and the noise of seed `k`.
pub open spec fn are_lwe_blocks(
    blocks: Seq<Seq<u32>>,
    client: LWEClient,
    public_seed: Seq<u8>,
    noise_seeds: Seq<Seed>,
    index: int,
) -> bool {
    &&& blocks.len() == noise_seeds.len()
    &&& forall|k: int|
        0 <= k < blocks.len() ==> encrypts_many(
            #[trigger] blocks[k],
            stream_words(public_seed, k * 1024, 1024),
            client.sk@,
            lwe_plaintexts(index, k),
            lwe_noise(client.table@, client.lwe_params, noise_seeds[k]@, 1024),
        )
}

/// `lwes` holds blocks of 1025 rows and 1024 columns side by side.
pub open spec fn holds_blocks(lwes: Seq<u64>, blocks: Seq<Seq<u32>>) -> bool {
    let width = blocks.len() * 1024;
    &&& lwes.len() == 1025 * width
    &&& forall|i: int, k: int, j: int|
        0 <= i < 1025 && 0 <= k < blocks.len() && 0 <= j < 1024 ==> #[trigger] lwes[i * width + (k
            * 1024 + j)] == blocks[k][i * 1024 + j]
}

/// The words as numbers of eight bytes.
fn widened(v: &Vec<u32>) -> (r: Vec<u64>)
    ensures
        r@.len() == v@.len(),
        forall|i: int| 0 <= i < v@.len() ==> #[trigger] r@[i] == v@[i],
{
    let mut out: Vec<u64> = Vec::new();
    let mut i: usize = 0;
    while i < v.len()
        invariant
            i <= v@.len(),
            out@.len() == i,
            forall|k: int| 0 <= k < i ==> #[trigger] out@[k] == v@[k],
        decreases v@.len() - i,
    {
        out.push(v[i] as u64);
        i = i + 1;
    }
    out
}

impl<'a> YClient<'a> {
    /// The blocks of a query for `index` by coefficients, with the given
    /// noise for each block.
    pub fn query_cts_from_noise(
        &self,
        public_seed_idx: u8,
        packing: bool,
        index: usize,
        noise: &Vec<Vec<u64>>,
    ) -> (r: Vec<PolyMatrixRaw<'a>>)
        requires
            self.wf(),
            all_small(self.params(), noise@),
            noise@.len() * (2 * self.params().poly_len) <= usize::MAX,
        ensures
            r@.len() == noise@.len(),
            forall|i: int|
                0 <= i < r@.len() ==> is_query_ct(
                    #[trigger] r@[i],
                    self.params(),
                    self.inner.key(),
                    numbered_seed(public_seed_idx),
                    noise@[i]@,
                    packing,
                    index as int,
                    i,
                ),
    {
        let params: &'a Params = self.inner.params;
        let ghost n = params.poly_len as int;
        let ghost total = noise@.len() as int;
        let public_seed: Seed = get_seed(public_seed_idx);
        let mut out: Vec<PolyMatrixRaw<'a>> = Vec::new();
        let mut i: usize = 0;
        while i < noise.len()
            invariant
                self.wf(),
                params == self.inner.params,
                n == params.poly_len,
                all_small(self.params(), noise@),
                total == noise@.len(),
                total * (2 * n) <= usize::MAX,
                public_seed@ == numbered_seed(public_seed_idx),
                i <= total,
                out@.len() == i,
                forall|k: int|
                    0 <= k < i ==> is_query_ct(
                        #[trigger] out@[k],
                        self.params(),
                        self.inner.key(),
                        public_seed@,
                        noise@[k]@,
                        packing,
                        index as int,
                        k,
                    ),
            decreases total - i,
        {
            assert((i + 1) * (2 * n) <= total * (2 * n)) by (nonlinear_arith)
                requires
                    i + 1 <= total,
                    0 <= n,
            ;
            let (row_0, row_1): (Vec<u64>, Vec<u64>) = self.encrypt_block(
                public_seed,
                i,
                packing,
                index,
                &noise[i],
            );
            let mut data: Vec<u64> = row_0;
            let ghost top = data@;
            data.extend_from_slice(row_1.as_slice());
            proof {
                assert(2 * 1 * n == 2 * n) by (nonlinear_arith);
                assert(0 * 1 + 0 == 0 && 1 * 1 + 0 == 1);
                assert(0 * n == 0 && 1 * n == n) by (nonlinear_arith);
                assert(chunk(data@, n, 0) =~= top);
                assert(chunk(data@, n, 1) =~= row_1@);
            }
            out.push(PolyMatrixRaw { params, rows: 2, cols: 1, data });
            i = i + 1;
        }
        out
    }

    /// The blocks of a query for `index` over two to the `dim_log2` blocks, by
    /// coefficients, under fresh noise.
    pub fn generate_query_impl(
        &self,
        public_seed_idx: u8,
        dim_log2: usize,
        packing: bool,
        index: usize,
    ) -> (r: Vec<PolyMatrixRaw<'a>>)
        requires
            self.wf(),
            pow2(dim_log2 as nat) * (2 * self.params().poly_len) <= usize::MAX,
        ensures
            r@.len() == pow2(dim_log2 as nat),
            exists|noise: Seq<Vec<u64>>|
                #[trigger] are_query_cts(
                    r@,
                    self.params(),
                    self.inner.key(),
                    numbered_seed(public_seed_idx),
                    noise,
                    packing,
                    index as int,
                ),
    {
        let ghost n = self.params().poly_len as int;
        assert(pow2(dim_log2 as nat) <= usize::MAX) by (nonlinear_arith)
            requires
                pow2(dim_log2 as nat) * (2 * n) <= usize::MAX,
                n >= 1,
        ;
        let noise: Vec<Vec<u64>> = draw_noises(self.inner.params, pow2_usize(dim_log2));
        let r: Vec<PolyMatrixRaw<'a>> = self.query_cts_from_noise(
            public_seed_idx,
            packing,
            index,
            &noise,
        );
        assert(are_query_cts(
            r@,
            self.params(),
            self.inner.key(),
            numbered_seed(public_seed_idx),
            noise@,
            packing,
            index as int,
        ));
        r
    }

    /// The plain ciphertexts of a list of ring ciphertexts, side by side.
    pub fn rlwes_to_lwes(&self, ct: &Vec<PolyMatrixRaw<'a>>) -> (r: Vec<u64>)
        requires
            self.wf(),
            forall|k: int|
                0 <= k < ct@.len() ==> (#[trigger] ct@[k]).wf() && *ct@[k].params == self.params()
                    && ct@[k].rows == 2 && ct@[k].cols == 1,
            (self.params().poly_len + 1) * (ct@.len() * self.params().poly_len) <= usize::MAX,
        ensures
            are_plain_ciphertexts(r@, ct@, self.params().poly_len as int),
    {
        let params: &'a Params = self.inner.params;
        let ghost n = params.poly_len as int;
        let mut v: Vec<Vec<u64>> = Vec::new();
        let mut k: usize = 0;
        while k < ct.len()
            invariant
                self.wf(),
                params == self.inner.params,
                n == params.poly_len,
                forall|j: int|
                    0 <= j < ct@.len() ==> (#[trigger] ct@[j]).wf() && *ct@[j].params
                        == self.params() && ct@[j].rows == 2 && ct@[j].cols == 1,
                k <= ct@.len(),
                v@.len() == k,
                forall|j: int| 0 <= j < k ==> #[trigger] is_plain(v@[j]@, ct@[j], n),
            decreases ct@.len() - k,
        {
            assert(ct@[k as int].wf());
            proof {
                assert(2 * 1 * n == 2 * n && 0 * n == 0) by (nonlinear_arith);
                assert(0 * 1 + 0 == 0);
                assert(ct@[k as int].poly(0, 0).len() == n);
            }
            let lwe: Vec<u64> = rlwe_to_lwe(params, &ct[k]);
            v.push(lwe);
            k = k + 1;
        }
        assert forall|j: int| 0 <= j < v@.len() implies (#[trigger] v@[j])@.len() == (n + 1) * n by {
            assert(is_plain(v@[j]@, ct@[j], n));
        }
        let r: Vec<u64> = concat_horizontal(&v, params.poly_len + 1, params.poly_len);
        proof {
            let width = ct@.len() * n;
            assert forall|j: int, c: int, i: int|
                0 <= j < n && 0 <= c < ct@.len() && 0 <= i < n implies #[trigger] r@[j * width + (c
                * n + i)] == perm_at(ct@[c].poly(0, 0), i, j, MODULUS) by {
                assert(is_plain(v@[c]@, ct@[c], n));
                let top = v@[c]@.subrange(0, n * n);
                lemma_cell(n, n, j, i);
                assert((n + 1) * n == n * n + n) by (nonlinear_arith);
                assert(top[j * n + i] == v@[c]@[j * n + i]);
                assert(r@[j * width + (c * n + i)] == v@[c]@[j * n + i]);
            }
            assert forall|c: int, i: int| 0 <= c < ct@.len() && 0 <= i < n implies #[trigger] r@[n
                * width + (c * n + i)] == ct@[c].poly(1, 0)[i] by {
                assert(is_plain(v@[c]@, ct@[c], n));
                assert((n + 1) * n == n * n + n) by (nonlinear_arith);
                assert(v@[c]@.subrange(n * n, (n + 1) * n)[i] == v@[c]@[n * n + i]);
                assert(r@[n * width + (c * n + i)] == v@[c]@[n * n + i]);
            }
        }
        r
    }
}

/// `v` holds the plain ciphertexts of one ring ciphertext.
pub open spec fn is_plain(v: Seq<u64>, ct: PolyMatrixRaw, n: int) -> bool {
    &&& v.len() == (n + 1) * n
    &&& is_negacyclic_matrix(v.subrange(0, n * n), ct.poly(0, 0), MODULUS)
    &&& v.subrange(n * n, (n + 1) * n) == ct.poly(1, 0)
    &&& ct.poly(0, 0).len() == n
}

/// The blocks of a query for `index`, block `i` with the noise of seed `i`.
pub open spec fn are_query_cts(
    cts: Seq<PolyMatrixRaw>,
    params: Params,
    key: Seq<u64>,
    public_seed: Seq<u8>,
    noise: Seq<Vec<u64>>,
    packing: bool,
    index: int,
) -> bool {
    &&& cts.len() == noise.len()
    &&& forall|i: int|
        0 <= i < cts.len() ==> is_query_ct(
            #[trigger] cts[i],
            params,
            key,
            public_seed,
            noise[i]@,
            packing,
            index,
            i,
        )
}

impl<'a> YClient<'a> {
    /// The blocks of a row query for `index`, side by side, with the noise of
    /// block `k` drawn from seed `k`.
    fn lwe_query_from_seeds(
        &self,
        public_seed_idx: u8,
        index: usize,
        noise_seeds: &Vec<Seed>,
    ) -> (r: (Vec<u64>, Ghost<Seq<Seq<u32>>>))
        requires
            self.wf(),
            1025 * (noise_seeds@.len() * 1024) <= usize::MAX,
        ensures
            are_lwe_blocks(
                r.1@,
                self.lwe_client,
                numbered_seed(public_seed_idx),
                noise_seeds@,
                index as int,
            ),
            holds_blocks(r.0@, r.1@),
    {
        let mut rng_pub: ChaChaStream = ChaChaStream::from_seed(get_seed(public_seed_idx));
        let ghost total = noise_seeds@.len() as int;
        let ghost mut blocks: Seq<Seq<u32>> = Seq::empty();
        let scale_k: u32 = 0x100_0000;
        let mut v: Vec<Vec<u64>> = Vec::new();
        let mut k: usize = 0;
        while k < noise_seeds.len()
            invariant
                self.wf(),
                total == noise_seeds@.len(),
                1025 * (total * 1024) <= usize::MAX,
                scale_k == 0x100_0000,
                k <= total,
                rng_pub.seed@ == numbered_seed(public_seed_idx),
                rng_pub.pos == k * 1024,
                v@.len() == k,
                blocks.len() == k,
                forall|j: int|
                    0 <= j < k ==> encrypts_many(
                        #[trigger] blocks[j],
                        stream_words(numbered_seed(public_seed_idx), j * 1024, 1024),
                        self.lwe_client.sk@,
                        lwe_plaintexts(index as int, j),
                        lwe_noise(
                            self.lwe_client.table@,
                            self.lwe_client.lwe_params,
                            noise_seeds@[j]@,
                            1024,
                        ),
                    ),
                forall|j: int|
                    0 <= j < k ==> (#[trigger] v@[j])@.len() == 0x10_0400 && forall|i: int|
                        0 <= i < 0x10_0400 ==> #[trigger] v@[j]@[i] == blocks[j][i],
            decreases total - k,
        {
            let mut pts: Vec<u32> = vec![0u32; 1024];
            if index / 1024 == k {
                pts.set(index % 1024, scale_k);
            }
            assert(pts@ =~= lwe_plaintexts(index as int, k as int));
            let e: Vec<u32> = draw_noise(
                self.lwe_client.table.as_slice(),
                &self.lwe_client.lwe_params,
                noise_seeds[k],
                1024,
            );
            let out: Vec<u32> = self.lwe_client.encrypt_many_with_noise(
                &mut rng_pub,
                pts.as_slice(),
                e.as_slice(),
            );
            v.push(widened(&out));
            proof {
                blocks = blocks.push(out@);
            }
            k = k + 1;
        }
        proof {
            assert(1025 * 1024 == 0x10_0400);
        }
        let r: Vec<u64> = concat_horizontal(&v, 1025, 1024);
        proof {
            let width = blocks.len() * 1024;
            assert forall|i: int, c: int, j: int|
                0 <= i < 1025 && 0 <= c < blocks.len() && 0 <= j < 1024 implies #[trigger] r@[i
                * width + (c * 1024 + j)] == blocks[c][i * 1024 + j] by {
                assert(r@[i * width + (c * 1024 + j)] == v@[c]@[i * 1024 + j]);
                assert(v@[c]@.len() == 0x10_0400);
            }
        }
        (r, Ghost(blocks))
    }

    /// A query as plain ciphertexts, one to a column. Row queries that are not
    /// packed use the inner layer; all others use the ring.
    pub fn generate_query(
        &self,
        public_seed_idx: u8,
        dim_log2: usize,
        packing: bool,
        index_row: usize,
    ) -> (r: Vec<u64>)
        requires
            self.wf(),
            pow2(dim_log2 as nat) * self.params().poly_len * 8192 <= usize::MAX,
            public_seed_idx == SEED_0 && !packing ==> index_row < pow2(dim_log2 as nat)
                * self.params().poly_len,
        ensures
            public_seed_idx == SEED_0 && !packing ==> is_lwe_query(
                r@,
                self.lwe_client,
                numbered_seed(public_seed_idx),
                pow2(dim_log2 as nat) * self.params().poly_len,
                index_row as int,
            ),
            !(public_seed_idx == SEED_0 && !packing) ==> is_ring_query(
                r@,
                self.params(),
                self.inner.key(),
                numbered_seed(public_seed_idx),
                pow2(dim_log2 as nat) as int,
                packing,
                index_row as int,
            ),
    {
        let params: &'a Params = self.inner.params;
        let ghost n = params.poly_len as int;
        let ghost count = pow2(dim_log2 as nat) as int;
        assert(count * n * 8192 == 8192 * (count * n) && count <= count * n && count * (2 * n) == 2
            * (count * n) && (n + 1) * (count * n) <= 4097 * (count * n) && 0 <= count * n)
            by (nonlinear_arith)
            requires
                1 <= n <= 4096,
                0 <= count,
        ;
        if public_seed_idx == SEED_0 && !packing {
            let blocks_per_ring: usize = params.poly_len / 1024;
            let ghost b = blocks_per_ring as int;
            assert(count * b * 1024 == count * n && count * b <= count * n) by (nonlinear_arith)
                requires
                    b * 1024 == n,
                    0 <= count,
                    0 <= b,
            ;
            let blocks: usize = pow2_usize(dim_log2) * blocks_per_ring;
            let seeds: Vec<Seed> = draw_seeds(blocks);
            let (lwes, Ghost(parts)): (Vec<u64>, Ghost<Seq<Seq<u32>>>) = self.lwe_query_from_seeds(
                public_seed_idx,
                index_row,
                &seeds,
            );
            assert(are_lwe_blocks(
                parts,
                self.lwe_client,
                numbered_seed(public_seed_idx),
                seeds@,
                index_row as int,
            ));
            lwes
        } else {
            let out: Vec<PolyMatrixRaw<'a>> = self.generate_query_impl(
                public_seed_idx,
                dim_log2,
                packing,
                index_row,
            );
            proof {
                let seeds = choose|noise: Seq<Vec<u64>>|
                    #[trigger] are_query_cts(
                        out@,
                        self.params(),
                        self.inner.key(),
                        numbered_seed(public_seed_idx),
                        noise,
                        packing,
                        index_row as int,
                    );
                assert forall|k: int| 0 <= k < out@.len() implies (#[trigger] out@[k]).wf()
                    && *out@[k].params == self.params() && out@[k].rows == 2 && out@[k].cols
                    == 1 by {
                    assert(is_query_ct(
                        out@[k],
                        self.params(),
                        self.inner.key(),
                        numbered_seed(public_seed_idx),
                        seeds[k]@,
                        packing,
                        index_row as int,
                        k,
                    ));
                }
            }
            self.rlwes_to_lwes(&out)
        }
    }
}

/// `lwes` is a row query for `index` of `dim` columns, under some noise.
pub open spec fn is_lwe_query(
    lwes: Seq<u64>,
    client: LWEClient,
    public_seed: Seq<u8>,
    dim: int,
    index: int,
) -> bool {
    exists|blocks: Seq<Seq<u32>>, noise_seeds: Seq<Seed>|
        #[trigger] are_lwe_blocks(blocks, client, public_seed, noise_seeds, index) && holds_blocks(
            lwes,
            blocks,
        ) && blocks.len() * 1024 == dim
}

/// `lwes` is a ring query for `index` of `count` blocks as plain ciphertexts,
/// under some noise.
pub open spec fn is_ring_query(
    lwes: Seq<u64>,
    params: Params,
    key: Seq<u64>,
    public_seed: Seq<u8>,
    count: int,
    packing: bool,
    index: int,
) -> bool {
    exists|cts: Seq<PolyMatrixRaw>, noise: Seq<Vec<u64>>|
        #[trigger] are_query_cts(
            cts,
            params,
            key,
            public_seed,
            noise,
            packing,
            index,
        ) && are_plain_ciphertexts(lwes, cts, params.poly_len as int) && cts.len() == count
}

/// The row part of a query of the two-level scheme for row `index`: the hiding
/// words of the blocks, then zeros up to the padded number of rows.
pub open spec fn is_double_row_query(
    w: Seq<u32>,
    params: Params,
    client: LWEClient,
    index: int,
) -> bool {
    exists|blocks: Seq<Seq<u32>>, noise_seeds: Seq<Seed>|
        #[trigger] are_lwe_blocks(
            blocks,
            client,
            numbered_seed(SEED_0),
            noise_seeds,
            index,
        ) && hold_hiding_words(w, blocks, params.rows() as int)
}

/// `w` starts with the last rows of the blocks, which make up `rows` words, and
/// goes on with a zero for every 128 of them.
pub open spec fn hold_hiding_words(w: Seq<u32>, blocks: Seq<Seq<u32>>, rows: int) -> bool {
    &&& blocks.len() * 1024 == rows
    &&& w.len() == rows + rows / 128
    &&& forall|k: int, j: int|
        0 <= k < blocks.len() && 0 <= j < 1024 ==> #[trigger] w[k * 1024 + j] == blocks[k][0x10_0000
            + j]
    &&& forall|i: int| rows <= i < w.len() ==> #[trigger] w[i] == 0
}

/// The column part of a query of the two-level scheme for column `index`.
pub open spec fn is_double_col_query(
    w: Seq<u64>,
    params: Params,
    key: Seq<u64>,
    index: int,
) -> bool {
    exists|noise: Seq<Vec<u64>>|
        noise.len() == pow2(params.db_dim_2 as nat) && #[trigger] is_packed_query(
            w,
            params,
            key,
            numbered_seed(SEED_1),
            noise,
            true,
            index,
        )
}

/// The second rows of ring ciphertexts, packed, are the packed query.
proof fn lemma_last_row_packed(
    lwes: Seq<u64>,
    last: Seq<u64>,
    params: Params,
    key: Seq<u64>,
    public_seed: Seq<u8>,
    index: int,
)
    requires
        params.ring_wf(),
        is_ring_query(
            lwes,
            params,
            key,
            public_seed,
            pow2(params.db_dim_2 as nat) as int,
            true,
            index,
        ),
        last == lwes.subrange(
            params.poly_len * (pow2(params.db_dim_2 as nat) * params.poly_len),
            lwes.len() as int,
        ),
    ensures
        exists|noise: Seq<Vec<u64>>|
            noise.len() == pow2(params.db_dim_2 as nat) && #[trigger] is_packed_query(
                packed_words(last),
                params,
                key,
                public_seed,
                noise,
                true,
                index,
            ),
{
    let n = params.poly_len as int;
    let count = pow2(params.db_dim_2 as nat) as int;
    let (cts, seeds) = choose|cts: Seq<PolyMatrixRaw>, noise: Seq<Vec<u64>>|
        #[trigger] are_query_cts(
            cts,
            params,
            key,
            public_seed,
            noise,
            true,
            index,
        ) && are_plain_ciphertexts(lwes, cts, params.poly_len as int) && cts.len() == count;
    let width = count * n;
    assert((n + 1) * width == n * width + width && 0 <= n * width) by (nonlinear_arith)
        requires
            0 <= n,
            0 <= width,
    ;
    assert forall|i: int| 0 <= i < count implies #[trigger] chunk(last, n, i)
        == query_block(params, key, public_seed, seeds[i]@, true, index, i) by {
        assert(is_query_ct(
            cts[i],
            params,
            key,
            public_seed,
            seeds[i]@,
            true,
            index,
            i,
        ));
        lemma_chunk_inside(width, n, count, i);
        let c = chunk(last, n, i);
        let row = cts[i].poly(1, 0);
        assert(row.len() == n) by {
            assert(2 * 1 * n == 2 * n && 1 * n == n) by (nonlinear_arith);
            assert(1 * 1 + 0 == 1);
        }
        assert forall|z: int| 0 <= z < n implies c[z] == row[z] by {
            assert(c[z] == last[i * n + z]);
            assert(last[i * n + z] == lwes[n * width + (i * n + z)]);
        }
        assert(c =~= row);
    }
    assert forall|i: int| 0 <= i < seeds.len() implies noise_is_small(
        params,
        #[trigger] seeds[i]@,
    ) by {
        assert(is_query_ct(
            cts[i],
            params,
            key,
            public_seed,
            seeds[i]@,
            true,
            index,
            i,
        ));
    }
    assert(are_query_rows(last, params, key, public_seed, seeds, true, index));
    lemma_rows_packed(last, params, key, public_seed, seeds, true, index);
}

impl<'a> YClient<'a> {
    /// The row part of a query of the two-level scheme.
    fn double_row_query(&self, target_row: usize) -> (r: Vec<u32>)
        requires
            self.wf(),
            target_row < self.params().rows(),
        ensures
            is_double_row_query(r@, self.params(), self.lwe_client, target_row as int),
            r@.len() == self.params().rows() + self.params().rows() as int / 128,
            forall|x: int|
                0 <= x < self.params().rows() ==> #[trigger] row_number(
                    r@[x],
                    numbered_seed(0),
                    self.lwe_client.sk@,
                    x,
                ) == if x == target_row {
                    1int
                } else {
                    0int
                },
            forall|x: int| self.params().rows() <= x < r@.len() ==> #[trigger] r@[x] == 0,
    {
        let params: &'a Params = self.inner.params;
        let ghost n = params.poly_len as int;
        proof {
            lemma_rows_are_blocks(*params);
        }
        let db_rows: usize = params.db_rows();
        let query_row: Vec<u64> = self.generate_query(SEED_0, params.db_dim_1, false, target_row);
        let mut out: Vec<u32> = Vec::new();
        let ghost (blocks, seeds) = choose|blocks: Seq<Seq<u32>>, noise_seeds: Seq<Seed>|
            #[trigger] are_lwe_blocks(
                blocks,
                self.lwe_client,
                numbered_seed(SEED_0),
                noise_seeds,
                target_row as int,
            ) && holds_blocks(query_row@, blocks) && blocks.len() * 1024 == db_rows;
        let start: usize = self.lwe_client.lwe_params.n * db_rows;
        let total: usize = query_row.len();
        let mut i: usize = 0;
        while i < db_rows
            invariant
                start == 1024 * db_rows,
                total == query_row@.len(),
                start + db_rows == total,
                i <= db_rows,
                blocks.len() * 1024 == db_rows,
                holds_blocks(query_row@, blocks),
                out@.len() == i,
                forall|x: int|
                    0 <= x < i ==> #[trigger] out@[x] == blocks[x / 1024][0x10_0000 + x % 1024],
            decreases db_rows - i,
        {
            proof {
                let (k, j) = (i as int / 1024, i as int % 1024);
                let width = blocks.len() * 1024;
                assert(query_row@[1024 * width + (k * 1024 + j)] == blocks[k][1024 * 1024 + j]);
            }
            out.push(query_row[start + i] as u32);
            i = i + 1;
        }
        let padded: usize = params.db_rows_padded_normal();
        while out.len() < padded
            invariant
                padded == db_rows + db_rows / 128,
                db_rows <= out@.len() <= padded,
                blocks.len() * 1024 == db_rows,
                forall|x: int|
                    0 <= x < db_rows ==> #[trigger] out@[x] == blocks[x / 1024][0x10_0000 + x
                        % 1024],
                forall|x: int| db_rows <= x < out@.len() ==> #[trigger] out@[x] == 0,
            decreases padded - out@.len(),
        {
            out.push(0);
        }
        proof {
            assert forall|k: int, j: int| 0 <= k < blocks.len() && 0 <= j < 1024 implies #[trigger] out@[k
                * 1024 + j] == blocks[k][0x10_0000 + j] by {
                let x = k * 1024 + j;
                assert(out@[x] == blocks[x / 1024][0x10_0000 + x % 1024]);
            }
            assert(hold_hiding_words(out@, blocks, params.rows() as int));
            row_query_is_one_hot(
                out@,
                blocks,
                self.lwe_client,
                numbered_seed(SEED_0),
                seeds,
                target_row as int,
                params.rows() as int,
            );
        }
        out
    }

    /// The query of the two-level scheme for the element `target_idx`: the row
    /// part in the inner layer, the column part in the ring, and the packing
    /// keys.
    pub fn generate_full_query(&self, target_idx: usize) -> (r: (
        Vec<u32>,
        AlignedMemory64,
        AlignedMemory64,
    ))
        requires
            self.wf(),
            self.params().cols_normal() <= usize::MAX / 0x20000,
            (target_idx as int / (self.params().cols_normal() as int)) < self.params().rows(),
        ensures
            is_double_row_query(
                r.0@,
                self.params(),
                self.lwe_client,
                target_idx as int / self.params().cols_normal() as int,
            ),
            is_double_col_query(
                words(r.1),
                self.params(),
                self.inner.key(),
                target_idx as int % self.params().cols_normal() as int,
            ),
            r.0@.len() == self.params().rows() + self.params().rows() as int / 128,
            forall|x: int|
                0 <= x < self.params().rows() ==> #[trigger] row_number(
                    r.0@[x],
                    numbered_seed(0),
                    self.lwe_client.sk@,
                    x,
                ) == if x == target_idx as int / self.params().cols_normal() as int {
                    1int
                } else {
                    0int
                },
            forall|x: int| self.params().rows() <= x < r.0@.len() ==> #[trigger] r.0@[x] == 0,
            words(r.1).len() == self.params().cols_normal(),
            forall|x: int|
                0 <= x < words(r.1).len() ==> #[trigger] query_number(
                    words(r.1)[x],
                    self.params(),
                    self.inner.key(),
                    numbered_seed(1),
                    x,
                ) == if x == target_idx as int % self.params().cols_normal() as int {
                    1int
                } else {
                    0int
                },
            is_packing_blob(words(r.2), self.params(), self.inner.key()),
    {
        let params: &'a Params = self.inner.params;
        let ghost n = params.poly_len as int;
        let ghost count = pow2(params.db_dim_2 as nat) as int;
        proof {
            lemma_rows_are_blocks(*params);
            vstd::arithmetic::power2::lemma_pow2_pos(params.db_dim_2 as nat);
            assert(count * n >= 1) by (nonlinear_arith)
                requires
                    count >= 1,
                    n >= 1,
            ;
        }
        let db_cols: usize = params.db_cols_normal();
        let target_row: usize = target_idx / db_cols;
        let target_col: usize = target_idx % db_cols;
        let keys: AlignedMemory64 = self.build_pack_pub_params();
        let row_query: Vec<u32> = self.double_row_query(target_row);
        let query_col: Vec<u64> = self.generate_query(SEED_1, params.db_dim_2, true, target_col);
        let ghost width = count * n;
        proof {
            assert((n + 1) * width == n * width + width && 0 <= n * width && n * width <= 4096
                * width) by (nonlinear_arith)
                requires
                    0 <= n <= 4096,
                    0 <= width,
            ;
            assert(query_col@.len() == (n + 1) * width);
        }
        let start: usize = params.poly_len * db_cols;
        let last: &[u64] = vstd::slice::slice_subrange(
            query_col.as_slice(),
            start,
            query_col.len(),
        );
        let col_query: AlignedMemory64 = pack_query(params, last);
        proof {
            lemma_last_row_packed(
                query_col@,
                last@,
                self.params(),
                self.inner.key(),
                numbered_seed(SEED_1),
                target_col as int,
            );
            let noise = choose|noise: Seq<Vec<u64>>|
                noise.len() == pow2(params.db_dim_2 as nat) && #[trigger] is_packed_query(
                    packed_words(last@),
                    self.params(),
                    self.inner.key(),
                    numbered_seed(SEED_1),
                    noise,
                    true,
                    target_col as int,
                );
            packed_query_is_one_hot(
                words(col_query),
                self.params(),
                self.inner.key(),
                numbered_seed(SEED_1),
                noise,
                target_col as int,
            );
        }
        (row_query, col_query, keys)
    }

    /// The sum over the first `k` rows of column `col` of an answer, times the
    /// key.
    pub open spec fn answer_product(response: Seq<u64>, cols: int, col: int, s: Seq<u64>, k: int) -> int
        decreases k,
    {
        if k <= 0 {
            0
        } else {
            Self::answer_product(response, cols, col, s, k - 1) + response[(k - 1) * cols + col]
                * s[k - 1]
        }
    }

    /// Decrypts an answer of plain ciphertexts, one to a column.
    pub fn decode_response(&self, response: &[u64]) -> (r: Vec<u64>)
        requires
            self.wf(),
            (self.params().poly_len + 1) * self.params().cols_normal() <= response@.len(),
            self.params().cols_normal() <= usize::MAX / 0x20000,
            forall|i: int| 0 <= i < response@.len() ==> #[trigger] response@[i] < 0x1000_0000_0000_0000,
        ensures
            r@.len() == self.params().cols_normal(),
            forall|col: int|
                0 <= col < r@.len() ==> #[trigger] r@[col] == rescaled(
                    Self::answer_product(
                        response@,
                        self.params().cols_normal() as int,
                        col,
                        self.inner.key(),
                        self.params().poly_len as int,
                    ) + response@[self.params().poly_len * self.params().cols_normal() + col],
                    MODULUS as int,
                    self.params().pt_modulus as int,
                ),
            forall|col: int| 0 <= col < r@.len() ==> #[trigger] r@[col] < self.params().pt_modulus,
    {
        let params: &'a Params = self.inner.params;
        let ghost n = params.poly_len as int;
        let db_cols: usize = params.db_cols_normal();
        let sk: PolyMatrixRaw<'a> = self.inner.get_sk_reg();
        let total: usize = response.len();
        let mut out: Vec<u64> = Vec::new();
        let mut col: usize = 0;
        assert((n + 1) * db_cols == n * db_cols + db_cols && n * db_cols <= 4096 * db_cols)
            by (nonlinear_arith)
            requires
                0 <= n <= 4096,
                0 <= db_cols,
        ;
        while col < db_cols
            invariant
                self.wf(),
                params == self.inner.params,
                n == params.poly_len,
                db_cols == params.cols_normal(),
                total == response@.len(),
                n * db_cols + db_cols <= total,
                sk.data@ == self.inner.key(),
                is_ring(sk.data@, n),
                forall|i: int|
                    0 <= i < response@.len() ==> #[trigger] response@[i] < 0x1000_0000_0000_0000,
                col <= db_cols,
                out@.len() == col,
                forall|c: int|
                    0 <= c < col ==> #[trigger] out@[c] == rescaled(
                        Self::answer_product(
                            response@,
                            db_cols as int,
                            c,
                            self.inner.key(),
                            n,
                        ) + response@[n * db_cols + c],
                        MODULUS as int,
                        params.pt_modulus as int,
                    ),
                forall|c: int| 0 <= c < col ==> #[trigger] out@[c] < params.pt_modulus,
            decreases db_cols - col,
        {
            let mut sum: u128 = 0;
            let mut i: usize = 0;
            let ghost limit: int = 0x1000_0000_0000_0000 * MODULUS;
            assert(4096 * limit + 0x1000_0000_0000_0000 <= u128::MAX);
            assert(0 * limit == 0);
            while i < params.poly_len
                invariant
                    params.ring_wf(),
                    n == params.poly_len,
                    total == response@.len(),
                    n * db_cols + db_cols <= total,
                    col < db_cols,
                    is_ring(sk.data@, n),
                    forall|k: int|
                        0 <= k < response@.len() ==> #[trigger] response@[k]
                            < 0x1000_0000_0000_0000,
                    i <= n,
                    sum == Self::answer_product(
                        response@,
                        db_cols as int,
                        col as int,
                        sk.data@,
                        i as int,
                    ),
                    limit == 0x1000_0000_0000_0000 * MODULUS,
                    4096 * limit + 0x1000_0000_0000_0000 <= u128::MAX,
                    sum <= i * limit,
                decreases n - i,
            {
                assert((i + 1) * limit == i * limit + limit && (i + 1) * limit <= 4096 * limit)
                    by (nonlinear_arith)
                    requires
                        i + 1 <= 4096,
                        limit >= 0,
                ;
                assert(i * db_cols + db_cols <= n * db_cols && 0 <= i * db_cols)
                    by (nonlinear_arith)
                    requires
                        0 <= i,
                        i + 1 <= n,
                        0 <= db_cols,
                ;
                let v1: u64 = response[i * db_cols + col];
                let v2: u64 = sk.data[i];
                assert(v1 * v2 <= 0x1000_0000_0000_0000 * MODULUS) by (nonlinear_arith)
                    requires
                        v1 <= 0x1000_0000_0000_0000,
                        v2 <= MODULUS,
                ;
                sum = sum + v1 as u128 * v2 as u128;
                i = i + 1;
            }
            assert(n * limit <= 4096 * limit) by (nonlinear_arith)
                requires
                    n <= 4096,
                    limit >= 0,
            ;
            sum = sum + response[params.poly_len * db_cols + col] as u128;
            let result: u64 = (sum % params.modulus as u128) as u64;
            proof {
                lemma_rescaled_residue(sum as int, MODULUS as int, params.pt_modulus as int);
            }
            out.push(rescale(result, params.modulus, params.pt_modulus));
            col = col + 1;
        }
        out
    }
}

/// The rows that are built one by one are the second rows of the whole blocks,
/// word for word, where both have the same noise.
pub proof fn rows_are_those_of_the_blocks(
    rows: Seq<u64>,
    cts: Seq<PolyMatrixRaw>,
    params: Params,
    key: Seq<u64>,
    public_seed: Seq<u8>,
    noise: Seq<Vec<u64>>,
    packing: bool,
    index: int,
)
    requires
        are_query_rows(rows, params, key, public_seed, noise, packing, index),
        are_query_cts(cts, params, key, public_seed, noise, packing, index),
    ensures
        rows.len() == cts.len() * params.poly_len,
        forall|i: int|
            0 <= i < cts.len() ==> chunk(rows, params.poly_len as int, i) == (
            #[trigger] cts[i]).poly(1, 0),
{
    assert forall|i: int| 0 <= i < cts.len() implies chunk(rows, params.poly_len as int, i) == (
    #[trigger] cts[i]).poly(1, 0) by {
        assert(is_query_ct(
            cts[i],
            params,
            key,
            public_seed,
            noise[i]@,
            packing,
            index,
            i,
        ));
    }
}

} // verus!
