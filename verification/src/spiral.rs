//! Calls into the spiral crate and the ChaCha20 generator.
//!
//! Random streams are plain values here: a seed and the number of 32-bit words
//! that were taken from the stream. Ring elements are passed by coefficients,
//! or as the `2 * n` words of their number-theoretic transform. The functions
//! of this module make one outside call each and state what it returns. Noise is
//! made of random numbers by a table, which is a plain value too: whoever keeps
//! it gets the same key of the same seed.
use crate::params::{MODULUS, MODULUS_0, MODULUS_1, Params};
use crate::poly::{PolyMatrixNTT, PolyMatrixRaw};
use crate::ring::{is_ring, reduced, ring_add, ring_mul, ring_scale};
use rand::{RngCore, SeedableRng};
use rand_chacha::ChaCha20Rng;
use valar_spiral_rs::poly::PolyMatrix;
use vstd::arithmetic::power2::pow2;
use vstd::prelude::*;

verus! {

/// A seed of a random stream.
pub type Seed = [u8; 32];

/// Word `index` of the ChaCha20 stream of a seed.
pub uninterp spec fn chacha_word(seed: Seq<u8>, index: nat) -> u32;

/// The number of eight bytes made of two words of a stream, low word first.
pub open spec fn chacha_u64(seed: Seq<u8>, index: nat) -> u64 {
    (chacha_word(seed, index) + 0x1_0000_0000 * chacha_word(seed, index + 1)) as u64
}

/// `ChaCha20Rng::next_u32` after `from_seed` and `set_word_pos`: word `pos` of
/// the stream of `seed`.
#[verifier::external_body]
pub(crate) fn chacha_next_u32(seed: Seed, pos: u64) -> (r: u32)
    ensures
        r == chacha_word(seed@, pos as nat),
{
    let mut rng = ChaCha20Rng::from_seed(seed);
    rng.set_word_pos(pos as u128);
    rng.next_u32()
}

/// `OsRng::fill_bytes` of the rand crate: a seed from the operating system.
/// Nothing is claimed of it.
#[verifier::external_body]
pub(crate) fn random_seed() -> (r: Seed) {
    let mut seed = [0u8; 32];
    rand::rngs::OsRng.fill_bytes(&mut seed);
    seed
}

/// The ring element whose coefficients are the next numbers of a stream,
/// reduced modulo the modulus.
pub open spec fn uniform_ring(seed: Seq<u8>, pos: nat, n: int) -> Seq<u64> {
    Seq::new(n as nat, |z: int| (chacha_u64(seed, (pos + 2 * z) as nat) % MODULUS) as u64)
}

/// `PolyMatrixRaw::random_rng` for one polynomial: each coefficient is the next
/// number of eight bytes of the stream, modulo the modulus.
#[verifier::external_body]
pub(crate) fn random_ring(params: &Params, seed: Seed, pos: u64) -> (r: Vec<u64>)
    requires
        params.ring_wf(),
        pos + 2 * params.poly_len <= u64::MAX,
    ensures
        r@ == uniform_ring(seed@, pos as nat, params.poly_len as int),
{
    let width = format!("{}e-8", params.noise_width_e8).parse().unwrap();
    let p = valar_spiral_rs::params::Params::init(
        params.poly_len, &params.moduli, width, 1, 2, 14, 1, 1, 1, 1, true, 0, 0, 1, 0, 0);
    let mut rng = ChaCha20Rng::from_seed(seed);
    rng.set_word_pos(pos as u128);
    let m = valar_spiral_rs::poly::PolyMatrixRaw::random_rng(&p, 1, 1, &mut rng);
    m.as_slice().to_vec()
}

/// How far from zero the table of a Gaussian width reaches: four widths, rounded
/// up.
pub open spec fn table_radius(width_e8: u64) -> int {
    (4 * width_e8 + 99_999_999) / 100_000_000
}

/// `table` has an entry for each value of a Gaussian of the given width, from
/// the least to the largest.
pub open spec fn is_noise_table(table: Seq<u64>, width_e8: u64) -> bool {
    table.len() == 2 * table_radius(width_e8) + 1
}

/// `DiscreteGaussian::init`: its table of cumulative probabilities, one for each
/// integer within four widths of zero. The entries are computed in floating
/// point, and nothing is claimed of them.
#[verifier::external_body]
pub(crate) fn draw_table(width_e8: u64) -> (r: Vec<u64>)
    requires
        0 < width_e8 <= 10_000_000_000,
    ensures
        is_noise_table(r@, width_e8),
{
    let width = format!("{}e-8", width_e8).parse().unwrap();
    valar_spiral_rs::discrete_gaussian::DiscreteGaussian::init(width).cdf_table
}

/// The first entry of a table from `i` on that is no less than `word`.
pub open spec fn table_place(table: Seq<u64>, word: u64, i: int) -> int
    decreases table.len() - i,
{
    if i >= table.len() || word <= table[i] {
        i
    } else {
        table_place(table, word, i + 1)
    }
}

/// The Gaussian sample that a table makes of a random number, as a residue of
/// `modulus`: the value at the number's place, and zero where it has none.
pub open spec fn gaussian(table: Seq<u64>, modulus: u64, word: u64) -> u64 {
    let i = table_place(table, word, 0);
    let value = i - (table.len() - 1) / 2;
    if i >= table.len() {
        0
    } else if value < 0 {
        (modulus + value) as u64
    } else {
        value as u64
    }
}

/// A bound on the magnitude of a Gaussian sample.
pub open spec fn noise_bound(width_e8: u64) -> int {
    (4 * width_e8) / 100_000_000 + 1
}

/// `v` is a residue of `modulus` within `bound` of zero.
pub open spec fn near_zero(v: u64, modulus: u64, bound: int) -> bool {
    v < modulus && (v <= bound || modulus - bound <= v)
}

/// A place lies inside the table or at its end.
proof fn lemma_table_place(table: Seq<u64>, word: u64, i: int)
    requires
        0 <= i <= table.len(),
    ensures
        i <= table_place(table, word, i) <= table.len(),
    decreases table.len() - i,
{
    if i < table.len() && word > table[i] {
        lemma_table_place(table, word, i + 1);
    }
}

/// A sample is near zero.
pub proof fn lemma_gaussian_near_zero(table: Seq<u64>, width_e8: u64, modulus: u64, word: u64)
    requires
        is_noise_table(table, width_e8),
        width_e8 <= 10_000_000_000,
        1000 <= modulus,
    ensures
        near_zero(gaussian(table, modulus, word), modulus, noise_bound(width_e8)),
{
    lemma_table_place(table, word, 0);
}

/// The ring element of Gaussian samples made of the next numbers of a stream.
pub open spec fn gaussian_ring(table: Seq<u64>, seed: Seq<u8>, pos: nat, n: int) -> Seq<u64> {
    Seq::new(
        n as nat,
        |z: int| gaussian(table, MODULUS, chacha_u64(seed, (pos + 2 * z) as nat)),
    )
}

/// The samples of a ring element are near zero, and it is one.
pub proof fn lemma_gaussian_ring(table: Seq<u64>, width_e8: u64, seed: Seq<u8>, pos: nat, n: int)
    requires
        is_noise_table(table, width_e8),
        width_e8 <= 10_000_000_000,
        0 <= n,
    ensures
        is_ring(gaussian_ring(table, seed, pos, n), n),
        forall|z: int|
            0 <= z < n ==> near_zero(
                #[trigger] gaussian_ring(table, seed, pos, n)[z],
                MODULUS,
                noise_bound(width_e8),
            ),
{
    let e = gaussian_ring(table, seed, pos, n);
    assert forall|z: int| 0 <= z < n implies near_zero(
        #[trigger] e[z],
        MODULUS,
        noise_bound(width_e8),
    ) by {
        lemma_gaussian_near_zero(
            table,
            width_e8,
            MODULUS,
            chacha_u64(seed, (pos + 2 * z) as nat),
        );
    }
    assert forall|z: int| 0 <= z < n implies #[trigger] e[z] < MODULUS by {
        assert(near_zero(e[z], MODULUS, noise_bound(width_e8)));
    }
}

/// `PolyMatrixRaw::noise` for one polynomial and a given table: each coefficient
/// is the sample that the table makes of the next number of the stream.
#[verifier::external_body]
pub(crate) fn noise_ring(params: &Params, table: &[u64], seed: Seed, pos: u64) -> (r: Vec<u64>)
    requires
        params.ring_wf(),
        is_noise_table(table@, params.noise_width_e8),
        pos + 2 * params.poly_len <= u64::MAX,
    ensures
        r@ == gaussian_ring(table@, seed@, pos as nat, params.poly_len as int),
{
    let width = format!("{}e-8", params.noise_width_e8).parse().unwrap();
    let p = valar_spiral_rs::params::Params::init(
        params.poly_len, &params.moduli, width, 1, 2, 14, 1, 1, 1, 1, true, 0, 0, 1, 0, 0);
    let mut dg = valar_spiral_rs::discrete_gaussian::DiscreteGaussian::init(p.noise_width);
    dg.cdf_table = table.to_vec();
    let mut rng = ChaCha20Rng::from_seed(seed);
    rng.set_word_pos(pos as u128);
    let m = valar_spiral_rs::poly::PolyMatrixRaw::noise(&p, 1, 1, &dg, &mut rng);
    m.as_slice().to_vec()
}

/// `DiscreteGaussian::sample` with a given table: the sample that it makes of
/// the number of eight bytes at word `pos` of the stream.
#[verifier::external_body]
pub(crate) fn gaussian_sample(
    table: &[u64],
    width_e8: u64,
    modulus: u64,
    seed: Seed,
    pos: u64,
) -> (r: u64)
    requires
        0 < width_e8 <= 10_000_000_000,
        is_noise_table(table@, width_e8),
        1000 <= modulus < 0x4000_0000_0000_0000,
        pos + 2 <= u64::MAX,
    ensures
        r == gaussian(table@, modulus, chacha_u64(seed@, pos as nat)),
{
    let width = format!("{}e-8", width_e8).parse().unwrap();
    let mut dg = valar_spiral_rs::discrete_gaussian::DiscreteGaussian::init(width);
    dg.cdf_table = table.to_vec();
    let mut rng = ChaCha20Rng::from_seed(seed);
    rng.set_word_pos(pos as u128);
    dg.sample(modulus, &mut rng)
}

/// `PolyMatrixRaw::fast_noise` for one polynomial, with the stream of a fresh
/// seed: samples within four widths of zero. They are weighed in floating point,
/// and nothing else is claimed of them.
#[verifier::external_body]
pub(crate) fn fast_noise_ring(params: &Params) -> (r: Vec<u64>)
    requires
        params.ring_wf(),
    ensures
        r@.len() == params.poly_len,
        forall|z: int|
            0 <= z < r@.len() ==> near_zero(
                #[trigger] r@[z],
                MODULUS,
                noise_bound(params.noise_width_e8),
            ),
{
    let width = format!("{}e-8", params.noise_width_e8).parse().unwrap();
    let p = valar_spiral_rs::params::Params::init(
        params.poly_len, &params.moduli, width, 1, 2, 14, 1, 1, 1, 1, true, 0, 0, 1, 0, 0);
    let dg = valar_spiral_rs::discrete_gaussian::DiscreteGaussian::init(p.noise_width);
    let mut rng = ChaCha20Rng::from_entropy();
    let m = valar_spiral_rs::poly::PolyMatrixRaw::fast_noise(&p, 1, 1, &dg, &mut rng);
    m.as_slice().to_vec()
}

/// The number-theoretic transform of a ring element of degree `n`: its values
/// as residues of the first prime, then those as residues of the second.
pub uninterp spec fn ntt_of(n: nat, a: Seq<u64>) -> Seq<u64>;

/// The prime that the word at `i` of a transform is a residue of.
pub open spec fn prime_at(i: int, n: int) -> u64 {
    if i < n {
        MODULUS_0
    } else {
        MODULUS_1
    }
}

/// The words of a transform are residues of their primes.
pub open spec fn is_transform(w: Seq<u64>, n: int) -> bool {
    w.len() == 2 * n && forall|i: int| 0 <= i < w.len() ==> #[trigger] w[i] < prime_at(i, n)
}

/// The words of a transform, each reduced by its prime.
pub open spec fn reduced_words(w: Seq<u64>, n: int) -> Seq<u64> {
    Seq::new(w.len(), |i: int| (w[i] % prime_at(i, n)) as u64)
}

/// `PolyMatrixRaw::ntt` for one polynomial: words congruent to those of the
/// transform of the ring element with the given coefficients, which it reduces
/// first. Whether a word that is a multiple of its prime comes out as zero or as
/// the prime depends on the instructions that the crate was built for.
#[verifier::external_body]
fn ntt_forward_words(params: &Params, a: &[u64]) -> (r: Vec<u64>)
    requires
        params.ring_wf(),
        a@.len() == params.poly_len,
    ensures
        r@.len() == 2 * params.poly_len,
        reduced_words(r@, params.poly_len as int) == ntt_of(
            params.poly_len as nat,
            reduced(a@, params.poly_len as int),
        ),
{
    let width = format!("{}e-8", params.noise_width_e8).parse().unwrap();
    let p = valar_spiral_rs::params::Params::init(
        params.poly_len, &params.moduli, width, 1, 2, 14, 1, 1, 1, 1, true, 0, 0, 1, 0, 0);
    let mut m = valar_spiral_rs::poly::PolyMatrixRaw::zero(&p, 1, 1);
    m.as_mut_slice().copy_from_slice(a);
    m.ntt().as_slice().to_vec()
}

/// The transform of the ring element with the given coefficients.
pub(crate) fn ntt_forward(params: &Params, a: &[u64]) -> (r: Vec<u64>)
    requires
        params.ring_wf(),
        a@.len() == params.poly_len,
    ensures
        r@ == ntt_of(params.poly_len as nat, reduced(a@, params.poly_len as int)),
        is_transform(r@, params.poly_len as int),
{
    let raw: Vec<u64> = ntt_forward_words(params, a);
    let len: usize = raw.len();
    let mut out: Vec<u64> = Vec::new();
    let mut i: usize = 0;
    while i < len
        invariant
            params.ring_wf(),
            len == raw@.len(),
            len == 2 * params.poly_len,
            i <= len,
            out@.len() == i,
            forall|k: int|
                0 <= k < i ==> #[trigger] out@[k] == reduced_words(
                    raw@,
                    params.poly_len as int,
                )[k],
        decreases len - i,
    {
        let prime: u64 = if i < params.poly_len {
            MODULUS_0
        } else {
            MODULUS_1
        };
        out.push(raw[i] % prime);
        i = i + 1;
    }
    assert(out@ =~= reduced_words(raw@, params.poly_len as int));
    out
}

/// `PolyMatrixNTT::raw` for one polynomial: coefficients congruent to those of
/// the ring element whose transform is given. The composition of the two prime
/// residues is not always reduced, so a coefficient is below twice the modulus.
#[verifier::external_body]
pub(crate) fn ntt_inverse(params: &Params, w: &[u64]) -> (r: Vec<u64>)
    requires
        params.ring_wf(),
        is_transform(w@, params.poly_len as int),
    ensures
        r@.len() == params.poly_len,
        forall|z: int| 0 <= z < r@.len() ==> #[trigger] r@[z] < 2 * MODULUS,
        forall|a: Seq<u64>|
            is_ring(a, params.poly_len as int) && w@ == #[trigger] ntt_of(
                params.poly_len as nat,
                a,
            ) ==> reduced(r@, params.poly_len as int) == a,
{
    let width = format!("{}e-8", params.noise_width_e8).parse().unwrap();
    let p = valar_spiral_rs::params::Params::init(
        params.poly_len, &params.moduli, width, 1, 2, 14, 1, 1, 1, 1, true, 0, 0, 1, 0, 0);
    let mut m = valar_spiral_rs::poly::PolyMatrixNTT::zero(&p, 1, 1);
    m.as_mut_slice().copy_from_slice(w);
    m.raw().as_slice().to_vec()
}

/// `multiply_poly`: the product word by word modulo the primes, which is the
/// transform of the product of the ring elements.
#[verifier::external_body]
pub(crate) fn ntt_multiply(params: &Params, x: &[u64], y: &[u64]) -> (r: Vec<u64>)
    requires
        params.ring_wf(),
        is_transform(x@, params.poly_len as int),
        is_transform(y@, params.poly_len as int),
    ensures
        is_transform(r@, params.poly_len as int),
        forall|i: int|
            0 <= i < r@.len() ==> #[trigger] r@[i] == (x@[i] * y@[i]) % prime_at(
                i,
                params.poly_len as int,
            ) as int,
        forall|a: Seq<u64>, b: Seq<u64>|
            is_ring(a, params.poly_len as int) && is_ring(b, params.poly_len as int) && x@
                == #[trigger] ntt_of(params.poly_len as nat, a) && y@ == #[trigger] ntt_of(
                params.poly_len as nat,
                b,
            ) ==> r@ == ntt_of(params.poly_len as nat, ring_mul(a, b, params.poly_len as int)),
{
    let width = format!("{}e-8", params.noise_width_e8).parse().unwrap();
    let p = valar_spiral_rs::params::Params::init(
        params.poly_len, &params.moduli, width, 1, 2, 14, 1, 1, 1, 1, true, 0, 0, 1, 0, 0);
    let mut r = vec![0u64; x.len()];
    valar_spiral_rs::poly::multiply_poly(&p, &mut r, x, y);
    r
}

/// `add_poly`: the sum word by word modulo the primes, which is the transform
/// of the sum of the ring elements.
#[verifier::external_body]
pub(crate) fn ntt_add(params: &Params, x: &[u64], y: &[u64]) -> (r: Vec<u64>)
    requires
        params.ring_wf(),
        is_transform(x@, params.poly_len as int),
        is_transform(y@, params.poly_len as int),
    ensures
        is_transform(r@, params.poly_len as int),
        forall|i: int|
            0 <= i < r@.len() ==> #[trigger] r@[i] == (x@[i] + y@[i]) % prime_at(
                i,
                params.poly_len as int,
            ) as int,
        forall|a: Seq<u64>, b: Seq<u64>|
            is_ring(a, params.poly_len as int) && is_ring(b, params.poly_len as int) && x@
                == #[trigger] ntt_of(params.poly_len as nat, a) && y@ == #[trigger] ntt_of(
                params.poly_len as nat,
                b,
            ) ==> r@ == ntt_of(params.poly_len as nat, ring_add(a, b, params.poly_len as int)),
{
    let width = format!("{}e-8", params.noise_width_e8).parse().unwrap();
    let p = valar_spiral_rs::params::Params::init(
        params.poly_len, &params.moduli, width, 1, 2, 14, 1, 1, 1, 1, true, 0, 0, 1, 0, 0);
    let mut r = vec![0u64; x.len()];
    valar_spiral_rs::poly::add_poly(&p, &mut r, x, y);
    r
}

/// The negative of a residue.
pub open spec fn negated(v: u64) -> u64 {
    if v == 0 {
        0
    } else {
        (MODULUS - v) as u64
    }
}

/// `invert_poly`, which negates a ring element coefficient by coefficient.
#[verifier::external_body]
pub(crate) fn negate_ring(params: &Params, a: &[u64]) -> (r: Vec<u64>)
    requires
        params.ring_wf(),
        is_ring(a@, params.poly_len as int),
    ensures
        r@ == a@.map_values(|v: u64| negated(v)),
{
    let width = format!("{}e-8", params.noise_width_e8).parse().unwrap();
    let p = valar_spiral_rs::params::Params::init(
        params.poly_len, &params.moduli, width, 1, 2, 14, 1, 1, 1, 1, true, 0, 0, 1, 0, 0);
    let mut r = vec![0u64; a.len()];
    valar_spiral_rs::poly::invert_poly(&p, &mut r, a);
    r
}

/// `automorph_poly`: coefficient `i` goes to place `i * t` modulo the degree,
/// with its sign changed where `i * t` runs over the degree an odd number of
/// times. For odd `t` every place is taken once.
#[verifier::external_body]
pub(crate) fn automorph(params: &Params, a: &[u64], t: usize) -> (r: Vec<u64>)
    requires
        params.ring_wf(),
        is_ring(a@, params.poly_len as int),
        t % 2 == 1,
        t <= 0x2000,
    ensures
        is_ring(r@, params.poly_len as int),
        forall|i: int|
            0 <= i < a@.len() ==> r@[(#[trigger] (i * t)) % (params.poly_len as int)] == if ((i
                * t) / params.poly_len as int) % 2 == 0 {
                a@[i]
            } else {
                negated(a@[i])
            },
{
    let width = format!("{}e-8", params.noise_width_e8).parse().unwrap();
    let p = valar_spiral_rs::params::Params::init(
        params.poly_len, &params.moduli, width, 1, 2, 14, 1, 1, 1, 1, true, 0, 0, 1, 0, 0);
    let mut r = vec![0u64; a.len()];
    valar_spiral_rs::poly::automorph_poly(&p, &mut r, a, t);
    r
}

/// The bits of one digit of a gadget of `dim` digits.
pub open spec fn gadget_bits(dim: int) -> int {
    if dim == 56 {
        1
    } else {
        56int / dim + 1
    }
}

/// Entry `j` of a gadget of `dim` digits, a constant of the ring.
pub open spec fn gadget_entry(dim: int, j: int) -> int {
    if gadget_bits(dim) * j >= 64 {
        0
    } else {
        pow2((gadget_bits(dim) * j) as nat) as int
    }
}

/// `build_gadget` with one row: the constant coefficients of its `cols`
/// entries, all other coefficients being zero.
#[verifier::external_body]
pub(crate) fn gadget_row(params: &Params, cols: usize) -> (r: Vec<u64>)
    requires
        params.ring_wf(),
        0 < cols <= 64,
    ensures
        r@.len() == cols * params.poly_len,
        forall|j: int, z: int|
            0 <= j < cols && 0 <= z < params.poly_len ==> #[trigger] r@[j * params.poly_len + z]
                == if z == 0 {
                gadget_entry(cols as int, j)
            } else {
                0
            },
{
    let width = format!("{}e-8", params.noise_width_e8).parse().unwrap();
    let p = valar_spiral_rs::params::Params::init(
        params.poly_len, &params.moduli, width, 1, 2, 14, 1, 1, 1, 1, true, 0, 0, 1, 0, 0);
    valar_spiral_rs::gadget::build_gadget(&p, 1, cols).as_slice().to_vec()
}

/// The secret key that a table makes of a client seed: Gaussian samples made of
/// the numbers of the seed's stream behind those that an unused key takes.
pub open spec fn secret_key(table: Seq<u64>, params: Params, seed: Seq<u8>) -> Seq<u64> {
    gaussian_ring(
        table,
        seed,
        (2 * (params.n * params.poly_len)) as nat,
        params.poly_len as int,
    )
}

/// The second row of a ciphertext: the secret key times the public element,
/// plus scaled noise, plus the message.
pub open spec fn masked(
    s: Seq<u64>,
    a: Seq<u64>,
    e: Seq<u64>,
    scale: u64,
    m: Seq<u64>,
    n: int,
) -> Seq<u64> {
    ring_add(ring_add(ring_scale(e, scale as int, n), ring_mul(s, a, n), n), m, n)
}

/// A ChaCha20 stream: its seed and the number of words already taken.
#[derive(Debug, Clone, Copy, PartialEq, Eq)]
pub struct ChaChaStream {
    pub seed: Seed,
    pub pos: u64,
}

impl ChaChaStream {
    /// The stream of `seed` from its start.
    pub fn from_seed(seed: Seed) -> (r: Self)
        ensures
            r.seed == seed,
            r.pos == 0,
    {
        ChaChaStream { seed, pos: 0 }
    }

    /// A stream with a seed from the operating system.
    pub fn from_entropy() -> (r: Self)
        ensures
            r.pos == 0,
    {
        ChaChaStream { seed: random_seed(), pos: 0 }
    }

    /// Takes one word.
    pub fn next_u32(&mut self) -> (r: u32)
        requires
            old(self).pos < u64::MAX,
        ensures
            r == chacha_word(old(self).seed@, old(self).pos as nat),
            final(self).seed == old(self).seed,
            final(self).pos == old(self).pos + 1,
    {
        let r: u32 = chacha_next_u32(self.seed, self.pos);
        self.pos = self.pos + 1;
        r
    }
}

/// A ChaCha20 stream that noise is drawn from: its seed, the number of words
/// already taken, and the table that makes samples of them.
#[derive(Debug, Clone, PartialEq, Eq)]
pub struct NoiseStream {
    pub seed: Seed,
    pub pos: u64,
    pub table: Vec<u64>,
}

impl NoiseStream {
    /// The stream of `seed` from its start, with the table of a Gaussian width.
    pub fn from_seed(width_e8: u64, seed: Seed) -> (r: Self)
        requires
            0 < width_e8 <= 10_000_000_000,
        ensures
            r.seed == seed,
            r.pos == 0,
            is_noise_table(r.table@, width_e8),
    {
        NoiseStream { seed, pos: 0, table: draw_table(width_e8) }
    }

    /// A stream with a seed from the operating system.
    pub fn from_entropy(width_e8: u64) -> (r: Self)
        requires
            0 < width_e8 <= 10_000_000_000,
        ensures
            r.pos == 0,
            is_noise_table(r.table@, width_e8),
    {
        Self::from_seed(width_e8, random_seed())
    }
}

/// A copy of a table.
pub fn copy_table(table: &Vec<u64>) -> (r: Vec<u64>)
    ensures
        r@ == table@,
{
    let mut out: Vec<u64> = Vec::new();
    out.extend_from_slice(table.as_slice());
    assert(out@ =~= table@);
    out
}

} // verus!
