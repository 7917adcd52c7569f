//! Keys, samples and packing keys of a client.
use crate::aligned::{aligned_from_slice, words, AlignedMemory64};
use crate::arith::{lemma_rescaled_residue, rescale, rescaled};
use crate::constants::{numbered_seed, static_public_seed};
use crate::kernel::lemma_next_residue;
use crate::lwe::{stream_words, take_words};
use crate::params::{lemma_crt_unique, MODULUS, MODULUS_0, MODULUS_1, Params};
use crate::poly::{
    chunk, lemma_chunk_append, lemma_chunk_inside, lemma_chunk_rows, PolyMatrixNTT, PolyMatrixRaw,
};
use crate::ring::{
    is_constant, is_negacyclic_matrix, is_ring, lemma_mul_constant_right, lemma_ring_closed,
    negacyclic_matrix, perm_u32_at, reduced, residue, ring_add, ring_mul, ring_neg, ring_scale,
};
use crate::serialize::{lemma_pack_word, pack_word};
use crate::spiral::{
    chacha_u64, gaussian, automorph, draw_table, gadget_entry, gadget_row, gaussian_ring,
    is_noise_table, is_transform, lemma_gaussian_ring, near_zero, negate_ring, negated, noise_bound,
    noise_ring, ntt_add, ntt_forward, ntt_inverse, ntt_multiply, ntt_of, random_ring, secret_key,
    uniform_ring, ChaChaStream, NoiseStream, Seed,
};
use vstd::arithmetic::power2::pow2;
use vstd::prelude::*;

verus! {

/// A client whose keys a table makes of a seed.
pub struct Client<'a> {
    pub params: &'a Params,
    pub table: Vec<u64>,
    pub seed: Seed,
}

impl<'a> Client<'a> {
    /// The parameters are usable, and the table is one of their width.
    pub open spec fn wf(&self) -> bool {
        self.params.wf() && is_noise_table(self.table@, self.params.noise_width_e8)
    }

    /// The secret key.
    pub open spec fn key(&self) -> Seq<u64> {
        secret_key(self.table@, *self.params, self.seed@)
    }

    /// A client with the keys of `seed`.
    pub fn from_seed(params: &'a Params, seed: Seed) -> (r: Self)
        requires
            params.wf(),
        ensures
            r.wf(),
            r.params == params,
            r.seed == seed,
    {
        Client { params, table: draw_table(params.noise_width_e8), seed }
    }

    /// The secret key, as a one-by-one matrix.
    pub fn get_sk_reg(&self) -> (r: PolyMatrixRaw<'a>)
        requires
            self.wf(),
        ensures
            r.wf(),
            r.params == self.params,
            r.rows == 1,
            r.cols == 1,
            r.data@ == self.key(),
            is_ring(r.data@, self.params.poly_len as int),
            forall|z: int|
                0 <= z < r.data@.len() ==> #[trigger] r.data@[z] == gaussian(
                    self.table@,
                    MODULUS,
                    chacha_u64(
                        self.seed@,
                        (2 * (self.params.n * self.params.poly_len) + 2 * z) as nat,
                    ),
                ),
            forall|z: int|
                0 <= z < r.data@.len() ==> near_zero(
                    #[trigger] r.data@[z],
                    MODULUS,
                    noise_bound(self.params.noise_width_e8),
                ),
    {
        assert(0 <= self.params.n * self.params.poly_len <= 64 * 4096) by (nonlinear_arith)
            requires
                0 <= self.params.n <= 64,
                0 <= self.params.poly_len <= 4096,
        ;
        let pos: u64 = 2 * (self.params.n as u64 * self.params.poly_len as u64);
        let data: Vec<u64> = noise_ring(self.params, self.table.as_slice(), self.seed, pos);
        proof {
            lemma_gaussian_ring(
                self.table@,
                self.params.noise_width_e8,
                self.seed@,
                pos as nat,
                self.params.poly_len as int,
            );
        }
        assert(1 * 1 * self.params.poly_len == self.params.poly_len) by (nonlinear_arith);
        PolyMatrixRaw { params: self.params, rows: 1, cols: 1, data }
    }
}

/// Turns a ring ciphertext into `poly_len` plain ones: the matrix of its first
/// row, above its second row.
pub fn rlwe_to_lwe<'a>(params: &'a Params, ct: &PolyMatrixRaw<'a>) -> (r: Vec<u64>)
    requires
        params.ring_wf(),
        ct.wf(),
        ct.rows == 2,
        ct.cols == 1,
        *ct.params == *params,
    ensures
        r@.len() == (params.poly_len + 1) * params.poly_len,
        is_negacyclic_matrix(
            r@.subrange(0, params.poly_len * params.poly_len),
            ct.poly(0, 0),
            MODULUS,
        ),
        r@.subrange(
            params.poly_len * params.poly_len,
            (params.poly_len + 1) * params.poly_len,
        ) == ct.poly(1, 0),
{
    let a: &[u64] = ct.get_poly(0, 0);
    let b: &[u64] = ct.get_poly(1, 0);
    let ghost n = params.poly_len as int;
    assert(n * n <= 4096 * 4096 && (n + 1) * n == n * n + n) by (nonlinear_arith)
        requires
            0 <= n <= 4096,
    ;
    let mut m: Vec<u64> = negacyclic_matrix(a, params.modulus);
    let ghost top = m@;
    m.extend_from_slice(b);
    assert(m@.subrange(0, n * n) =~= top);
    assert(m@.subrange(n * n, (n + 1) * n) =~= b@);
    m
}

/// The residues of a number modulo the two primes, in one word.
pub open spec fn packed_residues(x: u64) -> u64 {
    pack_word((x % MODULUS_0) as u64, (x % MODULUS_1) as u64)
}

/// The packed residues of each word.
pub open spec fn packed_words(query: Seq<u64>) -> Seq<u64> {
    query.map_values(|x: u64| packed_residues(x))
}

/// Packs the two prime residues of each word into one word.
pub fn pack_query(params: &Params, query: &[u64]) -> (r: AlignedMemory64)
    requires
        params.ring_wf(),
        0 < query@.len(),
        query@.len() * 8 + 64 <= isize::MAX,
    ensures
        words(r) == packed_words(query@),
{
    let mut packed: Vec<u64> = Vec::new();
    let mut i: usize = 0;
    while i < query.len()
        invariant
            params.ring_wf(),
            i <= query@.len(),
            packed@.len() == i,
            forall|k: int| 0 <= k < i ==> #[trigger] packed@[k] == packed_residues(query@[k]),
        decreases query@.len() - i,
    {
        let x: u64 = query[i];
        let crt0: u64 = x % params.moduli[0];
        let crt1: u64 = x % params.moduli[1];
        packed.push(crt0 | (crt1 << 32));
        i = i + 1;
    }
    assert(packed@ =~= packed_words(query@));
    aligned_from_slice(packed.as_slice())
}

/// A packed word holds its number's residue modulo the first prime in the low
/// half and the one modulo the second prime in the high half, and two numbers
/// below the modulus with the same packed word are equal.
pub proof fn packed_residues_are_faithful(x: u64, y: u64)
    ensures
        packed_residues(x) % 0x1_0000_0000 == x % MODULUS_0,
        packed_residues(x) / 0x1_0000_0000 == x % MODULUS_1,
        x < MODULUS && y < MODULUS && packed_residues(x) == packed_residues(y) ==> x == y,
{
    lemma_pack_word((x % MODULUS_0) as u64, (x % MODULUS_1) as u64);
    lemma_pack_word((y % MODULUS_0) as u64, (y % MODULUS_1) as u64);
    if x < MODULUS && y < MODULUS && packed_residues(x) == packed_residues(y) {
        lemma_crt_unique(x as int, y as int);
    }
}

/// Reduces each coefficient.
pub(crate) fn reduce_ring(params: &Params, v: &[u64]) -> (r: Vec<u64>)
    requires
        params.ring_wf(),
        v@.len() == params.poly_len,
    ensures
        r@ == reduced(v@, params.poly_len as int),
{
    let len: usize = v.len();
    let mut out: Vec<u64> = Vec::new();
    let mut i: usize = 0;
    while i < len
        invariant
            params.ring_wf(),
            len == v@.len(),
            len == params.poly_len,
            i <= len,
            out@.len() == i,
            forall|k: int|
                0 <= k < i ==> #[trigger] out@[k] == reduced(v@, params.poly_len as int)[k],
        decreases len - i,
    {
        out.push(params.barrett_u64(v[i]));
        i = i + 1;
    }
    assert(out@ =~= reduced(v@, params.poly_len as int));
    out
}

/// A ring element is its own reduced form, and negating it coefficient by
/// coefficient is negating it in the ring.
pub proof fn lemma_ring_forms(a: Seq<u64>, n: int)
    requires
        is_ring(a, n),
        n >= 0,
    ensures
        reduced(a, n) == a,
        a.map_values(|v: u64| negated(v)) == ring_neg(a, n),
        is_ring(ring_neg(a, n), n),
{
    let q = MODULUS as int;
    assert forall|z: int| 0 <= z < n implies residue(a[z] as int) == a[z] by {
        assert(a[z] < MODULUS);
        vstd::arithmetic::div_mod::lemma_small_mod(a[z] as nat, MODULUS as nat);
    }
    assert(reduced(a, n) =~= a);
    let m = a.map_values(|v: u64| negated(v));
    assert forall|z: int| 0 <= z < n implies m[z] == #[trigger] ring_neg(a, n)[z] by {
        assert(a[z] < MODULUS);
        if a[z] != 0 {
            vstd::arithmetic::div_mod::lemma_small_mod((q - a[z]) as nat, MODULUS as nat);
            vstd::arithmetic::div_mod::lemma_mod_add_multiples_vanish(-a[z], q);
        }
    }
    assert(m =~= ring_neg(a, n));
}

/// The two rows of a sample for the secret key `s`, the public element `a` and
/// the noise `e`: the negated public element, and what masks a message.
pub open spec fn sample_rows(s: Seq<u64>, a: Seq<u64>, e: Seq<u64>, n: int) -> (Seq<u64>, Seq<u64>) {
    (
        ntt_of(n as nat, ring_neg(a, n)),
        ntt_of(n as nat, ring_add(e, ring_mul(s, a, n), n)),
    )
}

/// A sample of the zero message: the public element comes from the public
/// stream and the noise from the secret stream.
pub fn get_reg_sample<'a>(
    params: &'a Params,
    sk_reg: &PolyMatrixRaw<'a>,
    rng: &mut NoiseStream,
    rng_pub: &mut ChaChaStream,
) -> (r: PolyMatrixNTT<'a>)
    requires
        params.ring_wf(),
        is_ring(sk_reg.data@, params.poly_len as int),
        is_noise_table(old(rng).table@, params.noise_width_e8),
        old(rng).pos + 2 * params.poly_len <= u64::MAX,
        old(rng_pub).pos + 2 * params.poly_len <= u64::MAX,
    ensures
        r.wf(),
        r.params == params,
        r.rows == 2,
        r.cols == 1,
        (r.data@.subrange(0, 2 * params.poly_len), r.data@.subrange(
            2 * params.poly_len,
            4 * params.poly_len,
        )) == sample_rows(
            sk_reg.data@,
            uniform_ring(old(rng_pub).seed@, old(rng_pub).pos as nat, params.poly_len as int),
            gaussian_ring(
                old(rng).table@,
                old(rng).seed@,
                old(rng).pos as nat,
                params.poly_len as int,
            ),
            params.poly_len as int,
        ),
        is_transform(r.data@.subrange(0, 2 * params.poly_len), params.poly_len as int),
        is_transform(
            r.data@.subrange(2 * params.poly_len, 4 * params.poly_len),
            params.poly_len as int,
        ),
        final(rng).seed == old(rng).seed,
        final(rng).table == old(rng).table,
        final(rng).pos == old(rng).pos + 2 * params.poly_len,
        final(rng_pub).seed == old(rng_pub).seed,
        final(rng_pub).pos == old(rng_pub).pos + 2 * params.poly_len,
{
    let ghost n = params.poly_len as int;
    let a: Vec<u64> = random_ring(params, rng_pub.seed, rng_pub.pos);
    rng_pub.pos = rng_pub.pos + 2 * params.poly_len as u64;
    let e: Vec<u64> = noise_ring(params, rng.table.as_slice(), rng.seed, rng.pos);
    rng.pos = rng.pos + 2 * params.poly_len as u64;
    proof {
        lemma_gaussian_ring(
            rng.table@,
            params.noise_width_e8,
            rng.seed@,
            old(rng).pos as nat,
            n,
        );
        lemma_ring_forms(a@, n);
        lemma_ring_forms(e@, n);
        lemma_ring_forms(sk_reg.data@, n);
        lemma_ring_forms(ring_neg(a@, n), n);
    }
    let sk_ntt: Vec<u64> = ntt_forward(params, sk_reg.data.as_slice());
    let a_ntt: Vec<u64> = ntt_forward(params, a.as_slice());
    let b_p: Vec<u64> = ntt_multiply(params, sk_ntt.as_slice(), a_ntt.as_slice());
    let e_ntt: Vec<u64> = ntt_forward(params, e.as_slice());
    let b: Vec<u64> = ntt_add(params, e_ntt.as_slice(), b_p.as_slice());
    let neg: Vec<u64> = negate_ring(params, a.as_slice());
    let mut data: Vec<u64> = ntt_forward(params, neg.as_slice());
    let ghost top = data@;
    data.extend_from_slice(b.as_slice());
    assert(data@.subrange(0, 2 * n) =~= top);
    assert(data@.subrange(2 * n, 4 * n) =~= b@);
    assert(2 * 1 * (2 * n) == 4 * n) by (nonlinear_arith);
    PolyMatrixNTT { params, rows: 2, cols: 1, data }
}

/// The columns of `data`, a matrix of two rows and `m` columns, are samples for
/// `s`: column `j` takes the next element of each stream.
pub open spec fn are_samples(
    data: Seq<u64>,
    s: Seq<u64>,
    m: int,
    params: Params,
    rng: NoiseStream,
    rng_pub: ChaChaStream,
) -> bool {
    let n = params.poly_len as int;
    &&& data.len() == 2 * m * (2 * n)
    &&& forall|j: int|
        0 <= j < m ==> (#[trigger] chunk(data, 2 * n, j), chunk(data, 2 * n, m + j))
            == sample_rows(
            s,
            uniform_ring(rng_pub.seed@, (rng_pub.pos + j * (2 * n)) as nat, n),
            gaussian_ring(
                rng.table@,
                rng.seed@,
                (rng.pos + j * (2 * n)) as nat,
                n,
            ),
            n,
        )
}

/// Every polynomial of a list of transforms is one.
pub open spec fn all_transforms(data: Seq<u64>, count: int, n: int) -> bool {
    forall|k: int| 0 <= k < count ==> is_transform(#[trigger] chunk(data, 2 * n, k), n)
}

/// `m` samples side by side.
#[verifier::rlimit(40)]
pub fn get_fresh_reg_public_key<'a>(
    params: &'a Params,
    sk_reg: &PolyMatrixRaw<'a>,
    m: usize,
    rng: &mut NoiseStream,
    rng_pub: &mut ChaChaStream,
) -> (r: PolyMatrixNTT<'a>)
    requires
        params.ring_wf(),
        is_ring(sk_reg.data@, params.poly_len as int),
        is_noise_table(old(rng).table@, params.noise_width_e8),
        m <= 64,
        old(rng).pos + m * (2 * params.poly_len) <= u64::MAX,
        old(rng_pub).pos + m * (2 * params.poly_len) <= u64::MAX,
    ensures
        r.wf(),
        r.params == params,
        r.rows == 2,
        r.cols == m,
        are_samples(r.data@, sk_reg.data@, m as int, *params, *old(rng), *old(rng_pub)),
        all_transforms(r.data@, 2 * m, params.poly_len as int),
        final(rng).seed == old(rng).seed,
        final(rng).table == old(rng).table,
        final(rng).pos == old(rng).pos + m * (2 * params.poly_len),
        final(rng_pub).seed == old(rng_pub).seed,
        final(rng_pub).pos == old(rng_pub).pos + m * (2 * params.poly_len),
{
    let ghost n = params.poly_len as int;
    let ghost w = 2 * n;
    let ghost (rng0, pub0) = (*rng, *rng_pub);
    let words: usize = 2 * params.poly_len;
    let mut top: Vec<u64> = Vec::new();
    let mut bottom: Vec<u64> = Vec::new();
    let mut i: usize = 0;
    assert(0 * w == 0);
    while i < m
        invariant
            params.ring_wf(),
            n == params.poly_len,
            w == 2 * n,
            words == w,
            is_ring(sk_reg.data@, n),
            i <= m,
            m <= 64,
            rng.seed == rng0.seed,
            rng.table == rng0.table,
            is_noise_table(rng0.table@, params.noise_width_e8),
            rng.pos == rng0.pos + i * w,
            rng_pub.seed == pub0.seed,
            rng_pub.pos == pub0.pos + i * w,
            rng0.pos + m * w <= u64::MAX,
            pub0.pos + m * w <= u64::MAX,
            top@.len() == i * w,
            bottom@.len() == i * w,
            forall|j: int|
                0 <= j < i ==> (#[trigger] chunk(top@, w, j), chunk(bottom@, w, j)) == sample_rows(
                    sk_reg.data@,
                    uniform_ring(pub0.seed@, (pub0.pos + j * w) as nat, n),
                    gaussian_ring(
                        rng0.table@,
                        rng0.seed@,
                        (rng0.pos + j * w) as nat,
                        n,
                    ),
                    n,
                ),
            forall|j: int|
                0 <= j < i ==> is_transform(#[trigger] chunk(top@, w, j), n) && is_transform(
                    chunk(bottom@, w, j),
                    n,
                ),
        decreases m - i,
    {
        assert((i + 1) * w <= m * w && (i + 1) * w == i * w + w) by (nonlinear_arith)
            requires
                i + 1 <= m,
                w >= 0,
        ;
        let sample: PolyMatrixNTT<'a> = get_reg_sample(params, sk_reg, rng, rng_pub);
        let ghost (t0, b0) = (top@, bottom@);
        assert(2 * 1 * (2 * n) == 4 * n) by (nonlinear_arith);
        top.extend_from_slice(vstd::slice::slice_subrange(sample.data.as_slice(), 0, words));
        bottom.extend_from_slice(
            vstd::slice::slice_subrange(sample.data.as_slice(), words, 2 * words),
        );
        proof {
            let (x, y) = (sample.data@.subrange(0, w), sample.data@.subrange(w, 2 * w));
            assert(top@ =~= t0 + x);
            assert(bottom@ =~= b0 + y);
            lemma_chunk_append(t0, x, w, i as int);
            lemma_chunk_append(b0, y, w, i as int);
            assert forall|j: int| 0 <= j < i + 1 implies (
                #[trigger] chunk(top@, w, j),
                chunk(bottom@, w, j),
            ) == sample_rows(
                sk_reg.data@,
                uniform_ring(pub0.seed@, (pub0.pos + j * w) as nat, n),
                gaussian_ring(
                    rng0.table@,
                    rng0.seed@,
                    (rng0.pos + j * w) as nat,
                    n,
                ),
                n,
            ) by {
                if j < i {
                    assert(chunk(t0 + x, w, j) == chunk(t0, w, j));
                    assert(chunk(b0 + y, w, j) == chunk(b0, w, j));
                }
            }
            assert forall|j: int| 0 <= j < i + 1 implies is_transform(
                #[trigger] chunk(top@, w, j),
                n,
            ) && is_transform(chunk(bottom@, w, j), n) by {
                if j < i {
                    assert(chunk(t0 + x, w, j) == chunk(t0, w, j));
                    assert(chunk(b0 + y, w, j) == chunk(b0, w, j));
                }
            }
        }
        i = i + 1;
    }
    let ghost (t, b) = (top@, bottom@);
    top.extend_from_slice(bottom.as_slice());
    proof {
        assert(top@ =~= t + b);
        lemma_chunk_rows(t, b, w, m as int);
        assert forall|j: int| 0 <= j < m implies (
            #[trigger] chunk(top@, w, j),
            chunk(top@, w, m + j),
        ) == sample_rows(
            sk_reg.data@,
            uniform_ring(pub0.seed@, (pub0.pos + j * w) as nat, n),
            gaussian_ring(rng0.table@, rng0.seed@, (rng0.pos + j * w) as nat, n),
            n,
        ) by {
            assert(chunk(t + b, w, j) == chunk(t, w, j));
            assert(chunk(t + b, w, m + j) == chunk(b, w, j));
        }
        assert forall|k: int| 0 <= k < 2 * m implies is_transform(
            #[trigger] chunk(top@, w, k),
            n,
        ) by {
            if k < m {
                assert(chunk(t + b, w, k) == chunk(t, w, k));
            } else {
                assert(chunk(t + b, w, m + (k - m)) == chunk(b, w, k - m));
                assert(is_transform(chunk(t, w, k - m), n));
            }
        }
    }
    PolyMatrixNTT { params, rows: 2, cols: m, data: top }
}

/// `tau` is the ring element `s` with `x` replaced by `x^t`: coefficient `i`
/// goes to place `i * t` modulo the degree, with its sign changed each time it
/// runs over.
pub open spec fn is_automorph(tau: Seq<u64>, s: Seq<u64>, t: int, n: int) -> bool {
    &&& is_ring(tau, n)
    &&& forall|i: int|
        0 <= i < n ==> tau[(#[trigger] (i * t)) % n] == if ((i * t) / n) % 2 == 0 {
            s[i]
        } else {
            negated(s[i])
        }
}

/// The columns of `data`, a matrix of two rows and `m` columns, encrypt the
/// digits of `tau` under `s`: column `j` masks `tau` times entry `j` of the
/// gadget, with the next element of each stream.
pub open spec fn encrypts_digits(
    data: Seq<u64>,
    s: Seq<u64>,
    tau: Seq<u64>,
    m: int,
    params: Params,
    rng: NoiseStream,
    rng_pub: ChaChaStream,
) -> bool {
    let n = params.poly_len as int;
    &&& data.len() == 2 * m * (2 * n)
    &&& forall|j: int|
        0 <= j < m ==> #[trigger] chunk(data, 2 * n, j) == ntt_of(
            n as nat,
            ring_neg(uniform_ring(rng_pub.seed@, (rng_pub.pos + j * (2 * n)) as nat, n), n),
        )
    &&& forall|j: int|
        0 <= j < m ==> #[trigger] chunk(data, 2 * n, m + j) == digit_row(
            s,
            tau,
            m,
            j,
            params,
            rng,
            rng_pub,
        )
}

/// The second row of column `j` of the encrypted digits of `tau`.
pub open spec fn digit_row(
    s: Seq<u64>,
    tau: Seq<u64>,
    m: int,
    j: int,
    params: Params,
    rng: NoiseStream,
    rng_pub: ChaChaStream,
) -> Seq<u64> {
    let n = params.poly_len as int;
    let a = uniform_ring(rng_pub.seed@, (rng_pub.pos + j * (2 * n)) as nat, n);
    let e = gaussian_ring(rng.table@, rng.seed@, (rng.pos + j * (2 * n)) as nat, n);
    ntt_of(
        n as nat,
        ring_add(
            ring_add(e, ring_mul(s, a, n), n),
            ring_scale(tau, gadget_entry(m, j), n),
            n,
        ),
    )
}

/// `data` encrypts the digits of `s` with `x` replaced by `x^t`.
pub open spec fn is_expansion_key(
    data: Seq<u64>,
    s: Seq<u64>,
    t: int,
    m: int,
    params: Params,
    rng: NoiseStream,
    rng_pub: ChaChaStream,
) -> bool {
    exists|tau: Seq<u64>|
        #[trigger] is_automorph(tau, s, t, params.poly_len as int) && encrypts_digits(
            data,
            s,
            tau,
            m,
            params,
            rng,
            rng_pub,
        )
}

/// Encrypts the digits of the secret key with `x` replaced by `x^t`.
#[verifier::rlimit(40)]
fn expansion_key<'a>(
    params: &'a Params,
    sk_reg: &PolyMatrixRaw<'a>,
    t: usize,
    m_exp: usize,
    rng: &mut NoiseStream,
    rng_pub: &mut ChaChaStream,
) -> (r: PolyMatrixNTT<'a>)
    requires
        params.ring_wf(),
        is_ring(sk_reg.data@, params.poly_len as int),
        is_noise_table(old(rng).table@, params.noise_width_e8),
        t % 2 == 1,
        t <= 0x2000,
        0 < m_exp <= 64,
        old(rng).pos + m_exp * (2 * params.poly_len) <= u64::MAX,
        old(rng_pub).pos + m_exp * (2 * params.poly_len) <= u64::MAX,
    ensures
        r.wf(),
        r.params == params,
        r.rows == 2,
        r.cols == m_exp,
        is_expansion_key(
            r.data@,
            sk_reg.data@,
            t as int,
            m_exp as int,
            *params,
            *old(rng),
            *old(rng_pub),
        ),
        all_transforms(r.data@, 2 * m_exp, params.poly_len as int),
        final(rng).seed == old(rng).seed,
        final(rng).table == old(rng).table,
        final(rng).pos == old(rng).pos + m_exp * (2 * params.poly_len),
        final(rng_pub).seed == old(rng_pub).seed,
        final(rng_pub).pos == old(rng_pub).pos + m_exp * (2 * params.poly_len),
{
    let ghost n = params.poly_len as int;
    let ghost w = 2 * n;
    let ghost (rng0, pub0) = (*rng, *rng_pub);
    let ghost s = sk_reg.data@;
    let g_exp: Vec<u64> = gadget_row(params, m_exp);
    let tau: Vec<u64> = automorph(params, sk_reg.data.as_slice(), t);
    let tau_ntt: Vec<u64> = ntt_forward(params, tau.as_slice());
    proof {
        lemma_ring_forms(tau@, n);
        assert(is_automorph(tau@, s, t as int, n));
    }
    let sample: PolyMatrixNTT<'a> = get_fresh_reg_public_key(params, sk_reg, m_exp, rng, rng_pub);
    let words: usize = 2 * params.poly_len;
    let ghost m = m_exp as int;
    assert(m * w <= 64 * 8192 && 2 * m * w == m * w + m * w && m * n <= 64 * 4096)
        by (nonlinear_arith)
        requires
            0 <= m <= 64,
            0 <= n <= 4096,
            w == 2 * n,
    ;
    let half: usize = m_exp * words;
    let mut data: Vec<u64> = Vec::new();
    data.extend_from_slice(vstd::slice::slice_subrange(sample.data.as_slice(), 0, half));
    let ghost top = data@;
    assert(top =~= sample.data@.subrange(0, m * w));
    let mut bottom: Vec<u64> = Vec::new();
    let mut j: usize = 0;
    assert(0 * w == 0);
    while j < m_exp
        invariant
            params.ring_wf(),
            n == params.poly_len,
            w == 2 * n,
            words == w,
            m == m_exp,
            m <= 64,
            half == m * w,
            j <= m_exp,
            s == sk_reg.data@,
            is_ring(tau@, n),
            tau_ntt@ == ntt_of(n as nat, tau@),
            is_transform(tau_ntt@, n),
            g_exp@.len() == m * n,
            m * n <= 64 * 4096,
            m * w <= 64 * 8192,
            sample.data@.len() == 2 * m * w,
            2 * m * w == m * w + m * w,
            forall|k: int, z: int|
                0 <= k < m && 0 <= z < n ==> #[trigger] g_exp@[k * n + z] == if z == 0 {
                    gadget_entry(m, k)
                } else {
                    0
                },
            are_samples(sample.data@, s, m, *params, rng0, pub0),
            all_transforms(sample.data@, 2 * m, n),
            bottom@.len() == j * w,
            forall|k: int|
                0 <= k < j ==> #[trigger] chunk(bottom@, w, k) == digit_row(
                    s,
                    tau@,
                    m,
                    k,
                    *params,
                    rng0,
                    pub0,
                ) && is_transform(chunk(bottom@, w, k), n),
        decreases m_exp - j,
    {
        assert(j * n + n <= m * n && 0 <= j * n && j * w + w <= m * w && (m + j) * w == m * w + j
            * w && (j + 1) * w == j * w + w && j * w == 2 * (j * n)) by (nonlinear_arith)
            requires
                0 <= j,
                j + 1 <= m,
                0 <= n,
                w == 2 * n,
        ;
        let start: usize = j * params.poly_len;
        let g: &[u64] = vstd::slice::slice_subrange(
            g_exp.as_slice(),
            start,
            start + params.poly_len,
        );
        let g_ntt: Vec<u64> = ntt_forward(params, g);
        let prod: Vec<u64> = ntt_multiply(params, tau_ntt.as_slice(), g_ntt.as_slice());
        let at: usize = half + j * words;
        let row: &[u64] = vstd::slice::slice_subrange(sample.data.as_slice(), at, at + words);
        let ghost a = uniform_ring(pub0.seed@, (pub0.pos + j * w) as nat, n);
        let ghost e = gaussian_ring(
            rng0.table@,
            rng0.seed@,
            (rng0.pos + j * w) as nat,
            n,
        );
        let ghost mask = ring_add(e, ring_mul(s, a, n), n);
        proof {
            assert(row@ == chunk(sample.data@, w, m + j));
            assert(chunk(sample.data@, w, j as int) == ntt_of(n as nat, ring_neg(a, n)));
            assert(row@ == ntt_of(n as nat, mask));
            assert(is_transform(chunk(sample.data@, w, m + j), n));
            let gj = reduced(g@, n);
            let c = gadget_entry(m, j as int);
            assert(is_constant(gj, c % MODULUS as int, n)) by {
                assert(g@[0] == g_exp@[j * n + 0]);
                assert forall|z: int| 1 <= z < n implies #[trigger] gj[z] == 0 by {
                    assert(g@[z] == g_exp@[j * n + z]);
                }
            }
            lemma_mul_constant_right(tau@, gj, c, n);
            lemma_ring_closed(g@, g@, 0, n);
            lemma_ring_closed(e, ring_mul(s, a, n), 0, n);
            lemma_ring_closed(tau@, tau@, c, n);
            assert(prod@ == ntt_of(n as nat, ring_scale(tau@, c, n)));
        }
        let sum: Vec<u64> = ntt_add(params, row, prod.as_slice());
        let ghost b0 = bottom@;
        bottom.extend_from_slice(sum.as_slice());
        proof {
            assert(bottom@ =~= b0 + sum@);
            lemma_chunk_append(b0, sum@, w, j as int);
            assert forall|k: int| 0 <= k < j + 1 implies #[trigger] chunk(bottom@, w, k)
                == digit_row(s, tau@, m, k, *params, rng0, pub0) && is_transform(
                chunk(bottom@, w, k),
                n,
            ) by {
                if k < j {
                    assert(chunk(b0 + sum@, w, k) == chunk(b0, w, k));
                }
            }
        }
        j = j + 1;
    }
    data.extend_from_slice(bottom.as_slice());
    proof {
        let b = bottom@;
        assert(data@ =~= top + b);
        lemma_chunk_rows(top, b, w, m);
        assert forall|k: int| 0 <= k < m implies #[trigger] chunk(data@, w, k) == ntt_of(
            n as nat,
            ring_neg(uniform_ring(pub0.seed@, (pub0.pos + k * w) as nat, n), n),
        ) && is_transform(chunk(data@, w, k), n) by {
            assert(chunk(top + b, w, k) == chunk(top, w, k));
            lemma_chunk_inside(m * w, w, m, k);
            assert(chunk(top, w, k) =~= chunk(sample.data@, w, k));
            assert(is_transform(chunk(sample.data@, w, k), n));
        }
        assert forall|k: int| 0 <= k < m implies #[trigger] chunk(data@, w, m + k) == digit_row(
            s,
            tau@,
            m,
            k,
            *params,
            rng0,
            pub0,
        ) by {
            assert(chunk(top + b, w, m + k) == chunk(b, w, k));
        }
        assert(encrypts_digits(data@, s, tau@, m, *params, rng0, pub0));
        assert forall|k: int| 0 <= k < 2 * m implies is_transform(
            #[trigger] chunk(data@, w, k),
            n,
        ) by {
            if k >= m {
                assert(chunk(top + b, w, m + (k - m)) == chunk(b, w, k - m));
            }
        }
    }
    PolyMatrixNTT { params, rows: 2, cols: m_exp, data }
}

/// A stream `k` words on.
pub open spec fn advanced(rng: ChaChaStream, k: int) -> ChaChaStream {
    ChaChaStream { seed: rng.seed, pos: (rng.pos + k) as u64 }
}

/// A stream of noise `k` words on.
pub open spec fn noise_advanced(rng: NoiseStream, k: int) -> NoiseStream {
    NoiseStream { seed: rng.seed, pos: (rng.pos + k) as u64, table: rng.table }
}

/// The power of `x` that round `i` of expansion replaces `x` by.
pub open spec fn expansion_power(n: int, i: int) -> int {
    n / pow2(i as nat) as int + 1
}

/// Every key of a list is the expansion key of its round, each with the next
/// elements of the streams.
pub open spec fn are_expansion_keys(
    v: Seq<PolyMatrixNTT>,
    s: Seq<u64>,
    m: int,
    params: Params,
    rng: NoiseStream,
    rng_pub: ChaChaStream,
) -> bool {
    let w = 2 * params.poly_len;
    forall|i: int|
        0 <= i < v.len() ==> is_expansion_key(
            (#[trigger] v[i]).data@,
            s,
            expansion_power(params.poly_len as int, i),
            m,
            params,
            noise_advanced(rng, i * (m * w)),
            advanced(rng_pub, i * (m * w)),
        )
}

/// Halving the degree `i` times leaves a power of two.
pub proof fn lemma_halved_degree(n: int, log: nat, i: nat)
    requires
        n == pow2(log),
        i <= log,
    ensures
        n / pow2(i) as int == pow2((log - i) as nat),
{
    vstd::arithmetic::power2::lemma_pow2_adds(i, (log - i) as nat);
    vstd::arithmetic::power2::lemma_pow2_pos(i);
    let (a, b) = (pow2(i) as int, pow2((log - i) as nat) as int);
    assert(a * b == b * a) by (nonlinear_arith);
    vstd::arithmetic::div_mod::lemma_div_by_multiple(b, a);
}

/// The expansion keys of the first `num_exp` rounds, with `m_exp` digits each.
pub fn raw_generate_expansion_params<'a>(
    params: &'a Params,
    sk_reg: &PolyMatrixRaw<'a>,
    num_exp: usize,
    m_exp: usize,
    rng: &mut NoiseStream,
    rng_pub: &mut ChaChaStream,
) -> (r: Vec<PolyMatrixNTT<'a>>)
    requires
        params.ring_wf(),
        is_ring(sk_reg.data@, params.poly_len as int),
        is_noise_table(old(rng).table@, params.noise_width_e8),
        num_exp <= params.poly_len_log2,
        0 < m_exp <= 64,
        old(rng).pos + num_exp * (m_exp * (2 * params.poly_len)) <= u64::MAX,
        old(rng_pub).pos + num_exp * (m_exp * (2 * params.poly_len)) <= u64::MAX,
    ensures
        r@.len() == num_exp,
        are_expansion_keys(
            r@,
            sk_reg.data@,
            m_exp as int,
            *params,
            *old(rng),
            *old(rng_pub),
        ),
        forall|i: int|
            0 <= i < num_exp ==> (#[trigger] r@[i]).wf() && r@[i].params == params && r@[i].rows
                == 2 && r@[i].cols == m_exp && all_transforms(
                r@[i].data@,
                2 * m_exp,
                params.poly_len as int,
            ),
        final(rng).seed == old(rng).seed,
        final(rng).table == old(rng).table,
        final(rng).pos == old(rng).pos + num_exp * (m_exp * (2 * params.poly_len)),
        final(rng_pub).seed == old(rng_pub).seed,
        final(rng_pub).pos == old(rng_pub).pos + num_exp * (m_exp * (2 * params.poly_len)),
{
    let ghost n = params.poly_len as int;
    let ghost (rng0, pub0) = (*rng, *rng_pub);
    let ghost size = m_exp * (2 * n);
    let mut res: Vec<PolyMatrixNTT<'a>> = Vec::new();
    let mut i: usize = 0;
    let mut step: usize = params.poly_len;
    proof {
        vstd::arithmetic::power2::lemma2_to64();
        assert(0 * size == 0);
        assert(size >= 0) by (nonlinear_arith)
            requires
                size == m_exp * (2 * n),
                n >= 0,
                m_exp >= 0,
        ;
    }
    while i < num_exp
        invariant
            params.ring_wf(),
            n == params.poly_len,
            n == pow2(params.poly_len_log2 as nat),
            size == m_exp * (2 * n),
            size >= 0,
            is_ring(sk_reg.data@, n),
            num_exp <= params.poly_len_log2,
            0 < m_exp <= 64,
            i <= num_exp,
            step <= 4096,
            step == pow2((params.poly_len_log2 - i) as nat),
            rng.seed == rng0.seed,
            rng.table == rng0.table,
            is_noise_table(rng0.table@, params.noise_width_e8),
            rng.pos == rng0.pos + i * size,
            rng_pub.seed == pub0.seed,
            rng_pub.pos == pub0.pos + i * size,
            rng0.pos + num_exp * size <= u64::MAX,
            pub0.pos + num_exp * size <= u64::MAX,
            res@.len() == i,
            are_expansion_keys(res@, sk_reg.data@, m_exp as int, *params, rng0, pub0),
            forall|k: int|
                0 <= k < i ==> (#[trigger] res@[k]).wf() && res@[k].params == params
                    && res@[k].rows == 2 && res@[k].cols == m_exp && all_transforms(
                    res@[k].data@,
                    2 * m_exp,
                    n,
                ),
        decreases num_exp - i,
    {
        proof {
            lemma_halved_degree(n, params.poly_len_log2 as nat, i as nat);
            vstd::arithmetic::power2::lemma_pow2_unfold((params.poly_len_log2 - i) as nat);
            assert((i + 1) * size <= num_exp * size && (i + 1) * size == i * size + size)
                by (nonlinear_arith)
                requires
                    i + 1 <= num_exp,
                    size >= 0,
            ;
        }
        let t: usize = step + 1;
        let ghost prev = res@;
        let w_exp_i: PolyMatrixNTT<'a> = expansion_key(params, sk_reg, t, m_exp, rng, rng_pub);
        res.push(w_exp_i);
        proof {
            assert forall|k: int| 0 <= k < res@.len() implies is_expansion_key(
                (#[trigger] res@[k]).data@,
                sk_reg.data@,
                expansion_power(n, k),
                m_exp as int,
                *params,
                noise_advanced(rng0, k * size),
                advanced(pub0, k * size),
            ) by {
                if k < i {
                    assert(res@[k] == prev[k]);
                }
            }
        }
        step = step / 2;
        i = i + 1;
    }
    res
}

/// What decrypting the rows `c0` and `c1` under the key `s` gives: the message,
/// scaled up, plus noise.
pub open spec fn decrypted(s: Seq<u64>, c0: Seq<u64>, c1: Seq<u64>, n: int) -> Seq<u64> {
    ring_add(ring_mul(s, c0, n), c1, n)
}

/// Decrypts a ciphertext given as transforms, without removing the noise. A
/// coefficient is congruent to that of the decrypted element, and is below
/// twice the modulus.
fn decrypt_raw<'a>(client: &Client<'a>, ct: &PolyMatrixNTT<'a>) -> (r: Vec<u64>)
    requires
        client.wf(),
        is_ciphertext(*ct, *client.params),
    ensures
        r@.len() == client.params.poly_len,
        forall|c0: Seq<u64>, c1: Seq<u64>|
            #[trigger] is_transform_of(*ct, c0, c1, client.params.poly_len as int) ==> reduced(
                r@,
                client.params.poly_len as int,
            ) == decrypted(client.key(), c0, c1, client.params.poly_len as int),
{
    let ghost n = client.params.poly_len as int;
    let len: usize = client.params.poly_len;
    let sk_reg: PolyMatrixRaw<'a> = client.get_sk_reg();
    proof {
        lemma_ring_forms(client.key(), n);
    }
    let sk_ntt: Vec<u64> = ntt_forward(client.params, sk_reg.data.as_slice());
    let row_0: &[u64] = vstd::slice::slice_subrange(ct.data.as_slice(), 0, 2 * len);
    let row_1: &[u64] = vstd::slice::slice_subrange(ct.data.as_slice(), 2 * len, 4 * len);
    let prod: Vec<u64> = ntt_multiply(client.params, sk_ntt.as_slice(), row_0);
    let dec: Vec<u64> = ntt_add(client.params, prod.as_slice(), row_1);
    let r: Vec<u64> = ntt_inverse(client.params, dec.as_slice());
    proof {
        assert forall|c0: Seq<u64>, c1: Seq<u64>| #[trigger]
            is_transform_of(*ct, c0, c1, n) implies reduced(r@, n) == decrypted(
            client.key(),
            c0,
            c1,
            n,
        ) by {
            lemma_ring_closed(client.key(), c0, 0, n);
            lemma_ring_closed(ring_mul(client.key(), c0, n), c1, 0, n);
            assert(prod@ == ntt_of(n as nat, ring_mul(client.key(), c0, n)));
            assert(dec@ == ntt_of(n as nat, decrypted(client.key(), c0, c1, n)));
        }
    }
    r
}

/// `ct` has two rows and one column, both transforms.
pub open spec fn is_ciphertext(ct: PolyMatrixNTT, params: Params) -> bool {
    let n = params.poly_len as int;
    &&& ct.rows == 2
    &&& ct.cols == 1
    &&& ct.data@.len() == 4 * n
    &&& is_transform(ct.data@.subrange(0, 2 * n), n)
    &&& is_transform(ct.data@.subrange(2 * n, 4 * n), n)
}

/// The rows of `ct` are the transforms of `c0` and `c1`.
pub open spec fn is_transform_of(ct: PolyMatrixNTT, c0: Seq<u64>, c1: Seq<u64>, n: int) -> bool {
    &&& is_ring(c0, n)
    &&& is_ring(c1, n)
    &&& ct.data@.subrange(0, 2 * n) == ntt_of(n as nat, c0)
    &&& ct.data@.subrange(2 * n, 4 * n) == ntt_of(n as nat, c1)
}

/// The transform of a ciphertext given by coefficients.
pub fn ciphertext_ntt<'a>(params: &'a Params, ct: &PolyMatrixRaw<'a>) -> (r: PolyMatrixNTT<'a>)
    requires
        params.ring_wf(),
        ct.rows == 2,
        ct.cols == 1,
        ct.data@.len() == 2 * params.poly_len,
    ensures
        r.wf(),
        r.params == params,
        is_ciphertext(r, *params),
        is_transform_of(
            r,
            reduced(ct.data@.subrange(0, params.poly_len as int), params.poly_len as int),
            reduced(
                ct.data@.subrange(params.poly_len as int, 2 * params.poly_len),
                params.poly_len as int,
            ),
            params.poly_len as int,
        ),
{
    let ghost n = params.poly_len as int;
    let len: usize = params.poly_len;
    let row_0: &[u64] = vstd::slice::slice_subrange(ct.data.as_slice(), 0, len);
    let row_1: &[u64] = vstd::slice::slice_subrange(ct.data.as_slice(), len, 2 * len);
    let mut data: Vec<u64> = ntt_forward(params, row_0);
    let ghost top = data@;
    let bottom: Vec<u64> = ntt_forward(params, row_1);
    data.extend_from_slice(bottom.as_slice());
    proof {
        assert(data@.subrange(0, 2 * n) =~= top);
        assert(data@.subrange(2 * n, 4 * n) =~= bottom@);
        lemma_ring_closed(row_0@, row_0@, 0, n);
        lemma_ring_closed(row_1@, row_1@, 0, n);
        assert(2 * 1 * (2 * n) == 4 * n) by (nonlinear_arith);
    }
    PolyMatrixNTT { params, rows: 2, cols: 1, data }
}

/// Decrypts a ciphertext and removes the noise: each coefficient of the
/// decrypted element is rounded to the nearest plaintext. `noise_magnitudes`
/// tells how large the noise of the first `coeffs_to_measure` was.
pub fn decrypt_ct_reg_measured<'a>(
    client: &Client<'a>,
    params: &'a Params,
    ct: &PolyMatrixNTT<'a>,
    coeffs_to_measure: usize,
) -> (r: PolyMatrixRaw<'a>)
    requires
        client.wf(),
        0 < coeffs_to_measure <= params.poly_len,
        *client.params == *params,
        is_ciphertext(*ct, *params),
    ensures
        r.wf(),
        r.params == params,
        r.rows == 1,
        r.cols == 1,
        forall|z: int| 0 <= z < r.data@.len() ==> #[trigger] r.data@[z] < params.pt_modulus,
        forall|c0: Seq<u64>, c1: Seq<u64>|
            #[trigger] is_transform_of(*ct, c0, c1, params.poly_len as int) ==> r.data@
                == plaintext(decrypted(client.key(), c0, c1, params.poly_len as int), *params),
{
    let ghost n = params.poly_len as int;
    let dec_result: Vec<u64> = decrypt_raw(client, ct);
    let mut data: Vec<u64> = Vec::new();
    let mut z: usize = 0;
    while z < dec_result.len()
        invariant
            params.wf(),
            z <= dec_result@.len(),
            data@.len() == z,
            forall|k: int|
                0 <= k < z ==> #[trigger] data@[k] == rescaled(
                    dec_result@[k] as int,
                    MODULUS as int,
                    params.pt_modulus as int,
                ),
            forall|k: int| 0 <= k < z ==> #[trigger] data@[k] < params.pt_modulus,
        decreases dec_result@.len() - z,
    {
        data.push(rescale(dec_result[z], params.modulus, params.pt_modulus));
        z = z + 1;
    }
    proof {
        assert(1 * 1 * n == n) by (nonlinear_arith);
        assert forall|c0: Seq<u64>, c1: Seq<u64>| #[trigger]
            is_transform_of(*ct, c0, c1, n) implies data@ == plaintext(
            decrypted(client.key(), c0, c1, n),
            *params,
        ) by {
            let d = decrypted(client.key(), c0, c1, n);
            assert forall|k: int| 0 <= k < n implies data@[k] == #[trigger] plaintext(
                d,
                *params,
            )[k] by {
                assert(d[k] == reduced(dec_result@, n)[k]);
                lemma_rescaled_residue(
                    dec_result@[k] as int,
                    MODULUS as int,
                    params.pt_modulus as int,
                );
            }
            assert(data@ =~= plaintext(d, *params));
        }
    }
    PolyMatrixRaw { params, rows: 1, cols: 1, data }
}

/// The plaintext nearest to each coefficient.
pub open spec fn plaintext(d: Seq<u64>, params: Params) -> Seq<u64> {
    Seq::new(
        d.len(),
        |z: int| rescaled(d[z] as int, MODULUS as int, params.pt_modulus as int) as u64,
    )
}

/// The distance of two residues of the modulus, whichever way round is
/// shorter.
pub open spec fn circular_distance(x: int, y: int) -> int {
    let d = if x >= y {
        x - y
    } else {
        y - x
    };
    if d < MODULUS - d {
        d
    } else {
        MODULUS - d
    }
}

/// The size of the noise in the first coefficients of a ciphertext: how far
/// each coefficient of the decrypted element is from its plaintext scaled up.
pub fn noise_magnitudes<'a>(
    client: &Client<'a>,
    ct: &PolyMatrixNTT<'a>,
    pt: &PolyMatrixRaw<'a>,
    coeffs_to_measure: usize,
) -> (r: Vec<u64>)
    requires
        client.wf(),
        is_ciphertext(*ct, *client.params),
        0 < coeffs_to_measure <= client.params.poly_len,
        coeffs_to_measure <= pt.data@.len(),
    ensures
        r@.len() == coeffs_to_measure,
        forall|c0: Seq<u64>, c1: Seq<u64>, z: int|
            #[trigger] is_transform_of(*ct, c0, c1, client.params.poly_len as int) && 0 <= z
                < coeffs_to_measure ==> #[trigger] r@[z] == circular_distance(
                decrypted(client.key(), c0, c1, client.params.poly_len as int)[z] as int,
                rescaled(pt.data@[z] as int, client.params.pt_modulus as int, MODULUS as int),
            ),
{
    let params: &Params = client.params;
    let ghost n = params.poly_len as int;
    let dec_result: Vec<u64> = decrypt_raw(client, ct);
    let mut out: Vec<u64> = Vec::new();
    let mut i: usize = 0;
    while i < coeffs_to_measure
        invariant
            params.wf(),
            n == params.poly_len,
            i <= coeffs_to_measure,
            coeffs_to_measure <= n,
            coeffs_to_measure <= pt.data@.len(),
            dec_result@.len() == n,
            out@.len() == i,
            forall|k: int|
                0 <= k < i ==> #[trigger] out@[k] == circular_distance(
                    reduced(dec_result@, n)[k] as int,
                    rescaled(pt.data@[k] as int, params.pt_modulus as int, MODULUS as int),
                ),
        decreases coeffs_to_measure - i,
    {
        let decrypted_val: u64 = dec_result[i] % params.modulus;
        let true_val: u64 = rescale(pt.data[i], params.pt_modulus, params.modulus);
        let diff: u64 = if decrypted_val >= true_val {
            decrypted_val - true_val
        } else {
            true_val - decrypted_val
        };
        let other: u64 = params.modulus - diff;
        out.push(
            if diff < other {
                diff
            } else {
                other
            },
        );
        i = i + 1;
    }
    out
}

/// The seed of public stream number `public_seed_idx`.
pub fn get_seed(public_seed_idx: u8) -> (r: [u8; 32])
    ensures
        r@ == numbered_seed(public_seed_idx),
        r@[0] == public_seed_idx,
        forall|i: int| 1 <= i < 32 ==> #[trigger] r@[i] == 0,
{
    let mut seed: [u8; 32] = static_public_seed();
    seed[0] = public_seed_idx;
    assert(seed@ =~= numbered_seed(public_seed_idx));
    seed
}

/// Element (`row`, `col`) of a matrix of blocks of `n` by `n` words, each the
/// matrix of the next `n` words of a stream, row of blocks by row of blocks.
pub open spec fn ring_matrix_at(rng: ChaChaStream, n: int, cols: int, row: int, col: int) -> u32 {
    perm_u32_at(
        stream_words(rng.seed@, rng.pos + (row / n) * cols + (col / n) * n, n),
        col % n,
        row % n,
    )
}

/// Draws a matrix of blocks of `n` by `n` words.
pub fn generate_matrix_ring(
    rng_pub: &mut ChaChaStream,
    n: usize,
    rows: usize,
    cols: usize,
) -> (r: Vec<u32>)
    requires
        0 < n,
        rows % n == 0,
        cols % n == 0,
        rows * cols <= usize::MAX,
        old(rng_pub).pos + (rows / n) * cols <= u64::MAX,
    ensures
        r@.len() == rows * cols,
        forall|i: int, j: int|
            0 <= i < rows && 0 <= j < cols ==> #[trigger] r@[i * cols + j] == ring_matrix_at(
                *old(rng_pub),
                n as int,
                cols as int,
                i,
                j,
            ),
        final(rng_pub).seed == old(rng_pub).seed,
        final(rng_pub).pos == old(rng_pub).pos + (rows / n) * cols,
{
    let ghost start = *rng_pub;
    let rows_outer: usize = rows / n;
    let mut out: Vec<u32> = Vec::new();
    let mut i: usize = 0;
    proof {
        vstd::arithmetic::div_mod::lemma_fundamental_div_mod(rows as int, n as int);
        vstd::arithmetic::div_mod::lemma_fundamental_div_mod(cols as int, n as int);
        assert(n * rows_outer == rows_outer * n) by (nonlinear_arith);
        assert(0 * cols == 0);
        assert(0 * n * cols == 0) by (nonlinear_arith);
    }
    while i < rows_outer
        invariant
            0 < n,
            rows == rows_outer * n,
            cols as int == n * (cols as int / n as int),
            cols as int % n as int == 0,
            i <= rows_outer,
            start.pos + rows_outer * cols <= u64::MAX,
            rng_pub.seed == start.seed,
            rng_pub.pos == start.pos + i * cols,
            out@.len() == i * n * cols,
            forall|x: int, y: int|
                0 <= x < i * n && 0 <= y < cols ==> #[trigger] out@[x * cols + y]
                    == ring_matrix_at(start, n as int, cols as int, x, y),
        decreases rows_outer - i,
    {
        assert((i + 1) * cols <= rows_outer * cols && (i + 1) * cols == i * cols + cols && (i + 1)
            * n == i * n + n) by (nonlinear_arith)
            requires
                i + 1 <= rows_outer,
                0 <= cols,
        ;
        let blocks: Vec<u32> = take_words(rng_pub, cols);
        let ghost base = start.pos + i * cols;
        let mut k: usize = 0;
        assert(i * n * cols == (i * n + 0) * cols);
        while k < n
            invariant
                0 < n,
                i < rows_outer,
                cols as int == n * (cols as int / n as int),
                cols as int % n as int == 0,
                base == start.pos + i * cols,
                blocks@ == stream_words(start.seed@, base, cols as int),
                k <= n,
                out@.len() == (i * n + k) * cols,
                forall|x: int, y: int|
                    0 <= x < i * n + k && 0 <= y < cols ==> #[trigger] out@[x * cols + y]
                        == ring_matrix_at(start, n as int, cols as int, x, y),
            decreases n - k,
        {
            let ghost before = out@;
            let mut c: usize = 0;
            let mut l: usize = 0;
            let mut block: usize = 0;
            assert((0int / n as int) * n == 0) by (nonlinear_arith)
                requires
                    n > 0,
            ;
            while c < cols
                invariant
                    0 < n,
                    k < n,
                    cols as int == n * (cols as int / n as int),
                    base == start.pos + i * cols,
                    blocks@ == stream_words(start.seed@, base, cols as int),
                    blocks@.len() == cols,
                    c <= cols,
                    l < n,
                    l == c as int % n as int,
                    block + l == c,
                    block as int == (c as int / n as int) * n,
                    out@.len() == before.len() + c,
                    forall|p: int| 0 <= p < before.len() ==> out@[p] == before[p],
                    forall|y: int|
                        0 <= y < c ==> #[trigger] out@[before.len() + y] == perm_u32_at(
                            stream_words(start.seed@, base + (y / n as int) * n, n as int),
                            y % n as int,
                            k as int,
                        ),
                decreases cols - c,
            {
                proof {
                    lemma_block_inside(c as int, n as int, cols as int);
                }
                let v: u32 = if k <= l {
                    blocks[block + l - k]
                } else {
                    let x: u64 = (0x1_0000_0000 - blocks[block + n - (k - l)] as u64)
                        % 0x1_0000_0000;
                    x as u32
                };
                out.push(v);
                proof {
                    lemma_next_residue(c as int, n as int);
                    lemma_next_block(c as int, n as int);
                }
                c = c + 1;
                if l + 1 == n {
                    l = 0;
                    block = c;
                } else {
                    l = l + 1;
                }
            }
            proof {
                let r = i * n + k;
                assert((r + 1) * cols == r * cols + cols) by (nonlinear_arith);
                vstd::arithmetic::div_mod::lemma_fundamental_div_mod_converse(
                    r,
                    n as int,
                    i as int,
                    k as int,
                );
                assert forall|x: int, y: int|
                    0 <= x < r + 1 && 0 <= y < cols implies #[trigger] out@[x * cols + y]
                    == ring_matrix_at(start, n as int, cols as int, x, y) by {
                    if x == r {
                        assert(out@[before.len() + y] == perm_u32_at(
                            stream_words(start.seed@, base + (y / n as int) * n, n as int),
                            y % n as int,
                            k as int,
                        ));
                    } else {
                        assert(0 <= x * cols && x * cols + y < r * cols) by (nonlinear_arith)
                            requires
                                0 <= x,
                                x + 1 <= r,
                                0 <= y < cols,
                        ;
                        assert(before[x * cols + y] == ring_matrix_at(
                            start,
                            n as int,
                            cols as int,
                            x,
                            y,
                        ));
                    }
                }
            }
            k = k + 1;
        }
        proof {
            assert((i * n + n) * cols == (i + 1) * n * cols) by (nonlinear_arith)
                requires
                    (i + 1) * n == i * n + n,
            ;
        }
        i = i + 1;
    }
    out
}

/// The block of a column lies inside the columns.
proof fn lemma_block_inside(c: int, n: int, cols: int)
    requires
        0 < n,
        0 <= c < cols,
        cols == n * (cols / n),
    ensures
        0 <= (c / n) * n,
        (c / n) * n + n <= cols,
{
    let (q, d) = (c / n, cols / n);
    vstd::arithmetic::div_mod::lemma_fundamental_div_mod(c, n);
    assert(q < d) by (nonlinear_arith)
        requires
            c == n * q + c % n,
            0 <= c % n,
            c < n * d,
            0 < n,
    ;
    assert(0 <= q * n && q * n + n <= n * d) by (nonlinear_arith)
        requires
            0 <= q,
            q + 1 <= d,
            0 < n,
    ;
}

/// The block of the next column.
proof fn lemma_next_block(c: int, n: int)
    requires
        0 < n,
        0 <= c,
    ensures
        c % n + 1 == n ==> ((c + 1) / n) * n == c + 1,
        c % n + 1 < n ==> ((c + 1) / n) * n == (c / n) * n,
{
    vstd::arithmetic::div_mod::lemma_fundamental_div_mod(c, n);
    let q = c / n;
    assert(n * q == q * n) by (nonlinear_arith);
    if c % n + 1 == n {
        assert(c + 1 == (q + 1) * n) by (nonlinear_arith)
            requires
                c == n * q + c % n,
                c % n + 1 == n,
        ;
        vstd::arithmetic::div_mod::lemma_fundamental_div_mod_converse(c + 1, n, q + 1, 0);
    } else {
        vstd::arithmetic::div_mod::lemma_fundamental_div_mod_converse(c + 1, n, q, c % n + 1);
    }
}

} // verus!
