//! The inner encryption layer: plain LWE modulo a power of two.
use crate::ring::{is_negacyclic_matrix_u32, negacyclic_matrix_u32};
use crate::spiral::{
    chacha_u64, chacha_word, draw_table, gaussian, gaussian_sample, is_noise_table,
    lemma_gaussian_near_zero, noise_bound, random_seed, ChaChaStream, Seed,
};
use vstd::arithmetic::div_mod::lemma_mod_multiples_vanish;
use vstd::prelude::*;

verus! {

/// The parameters of the inner layer. `noise_width_e8` is the Gaussian width
/// in units of 10^-8.
#[derive(Debug, Clone, Copy, PartialEq, Eq)]
pub struct LWEParams {
    pub n: usize,
    pub modulus: u64,
    pub pt_modulus: u64,
    pub q2_bits: usize,
    pub noise_width_e8: u64,
}

impl LWEParams {
    /// These are the parameters that the protocol uses.
    pub open spec fn is_default(&self) -> bool {
        &&& self.n == 1024
        &&& self.modulus == 0x1_0000_0000
        &&& self.pt_modulus == 256
        &&& self.q2_bits == 28
        &&& self.noise_width_e8 == 2757291103
    }

    /// The factor by which plaintexts are scaled.
    pub fn scale_k(&self) -> (r: u64)
        requires
            self.pt_modulus > 0,
        ensures
            r == self.modulus / self.pt_modulus,
    {
        self.modulus / self.pt_modulus
    }
}

impl Default for LWEParams {
    fn default() -> (r: Self)
        ensures
            r.is_default(),
    {
        LWEParams {
            n: 1024,
            modulus: 0x1_0000_0000,
            pt_modulus: 256,
            q2_bits: 28,
            noise_width_e8: 2757291103,
        }
    }
}

/// The parameters of the inner layer.
pub open spec fn default_lwe() -> LWEParams {
    LWEParams {
        n: 1024,
        modulus: 0x1_0000_0000,
        pt_modulus: 256,
        q2_bits: 28,
        noise_width_e8: 2757291103,
    }
}

/// Two to the 32nd.
pub open spec fn two_32() -> int {
    0x1_0000_0000
}

/// The sum over the first `k` rows of the elements of column `col` of `ct`,
/// stored with `cols` words to a row, times the key.
pub open spec fn key_product(ct: Seq<u32>, cols: int, col: int, sk: Seq<u32>, k: int) -> int
    decreases k,
{
    if k <= 0 {
        0
    } else {
        key_product(ct, cols, col, sk, k - 1) + ct[(k - 1) * cols + col] * sk[k - 1]
    }
}

/// The noise that a table makes of the stream of a seed, as words.
pub open spec fn lwe_noise(
    table: Seq<u64>,
    params: LWEParams,
    seed: Seq<u8>,
    count: int,
) -> Seq<u32> {
    Seq::new(
        count as nat,
        |i: int|
            (gaussian(table, params.modulus, chacha_u64(seed, (2 * i) as nat))
                % two_32() as u64) as u32,
    )
}

/// The secret key that a table makes of a seed, whose elements are noise.
pub open spec fn lwe_secret_key(table: Seq<u64>, params: LWEParams, seed: Seq<u8>) -> Seq<u32> {
    lwe_noise(table, params, seed, params.n as int)
}

/// The next `n` words of a stream.
pub open spec fn stream_words(seed: Seq<u8>, pos: int, n: int) -> Seq<u32> {
    Seq::new(n as nat, |i: int| chacha_word(seed, (pos + i) as nat))
}

/// Takes the next `n` words of a stream.
pub fn take_words(rng: &mut ChaChaStream, n: usize) -> (r: Vec<u32>)
    requires
        old(rng).pos + n <= u64::MAX,
    ensures
        r@ == stream_words(old(rng).seed@, old(rng).pos as int, n as int),
        r@.len() == n,
        forall|i: int|
            0 <= i < n ==> #[trigger] r@[i] == chacha_word(
                old(rng).seed@,
                (old(rng).pos + i) as nat,
            ),
        final(rng).seed == old(rng).seed,
        final(rng).pos == old(rng).pos + n,
{
    let ghost (seed, start) = (rng.seed, rng.pos as int);
    let mut a: Vec<u32> = Vec::new();
    let mut i: usize = 0;
    while i < n
        invariant
            i <= n,
            rng.seed == seed,
            rng.pos == start + i,
            start + n <= u64::MAX,
            a@.len() == i,
            forall|k: int| 0 <= k < i ==> #[trigger] a@[k] == chacha_word(seed@, (start + k) as nat),
        decreases n - i,
    {
        a.push(rng.next_u32());
        i = i + 1;
    }
    assert(a@ =~= stream_words(seed@, start, n as int));
    a
}

/// A client of the inner layer, with its secret key and the table that makes its
/// noise.
pub struct LWEClient {
    pub lwe_params: LWEParams,
    pub table: Vec<u64>,
    pub sk: Vec<u32>,
}

/// Draws `count` noise words from the stream of `seed`.
pub(crate) fn draw_noise(
    table: &[u64],
    params: &LWEParams,
    seed: Seed,
    count: usize,
) -> (r: Vec<u32>)
    requires
        params.is_default(),
        is_noise_table(table@, params.noise_width_e8),
        count <= 0x1_0000,
    ensures
        r@ == lwe_noise(table@, *params, seed@, count as int),
{
    let mut out: Vec<u32> = Vec::new();
    let mut i: usize = 0;
    while i < count
        invariant
            params.is_default(),
            is_noise_table(table@, params.noise_width_e8),
            count <= 0x1_0000,
            i <= count,
            out@.len() == i,
            forall|k: int|
                0 <= k < i ==> #[trigger] out@[k] == lwe_noise(table@, *params, seed@, count as int)[k],
        decreases count - i,
    {
        let v: u64 = gaussian_sample(
            table,
            params.noise_width_e8,
            params.modulus,
            seed,
            2 * i as u64,
        );
        out.push((v % 0x1_0000_0000) as u32);
        i = i + 1;
    }
    assert(out@ =~= lwe_noise(table@, *params, seed@, count as int));
    out
}

impl LWEClient {
    /// The parameters are the protocol's, and the table and the key have their
    /// lengths.
    pub open spec fn wf(&self) -> bool {
        self.lwe_params.is_default() && is_noise_table(self.table@, self.lwe_params.noise_width_e8)
            && self.sk@.len() == self.lwe_params.n
    }

    /// A client with a key from a fresh seed.
    pub fn new(lwe_params: LWEParams) -> (r: Self)
        requires
            lwe_params.is_default(),
        ensures
            r.wf(),
            r.lwe_params == lwe_params,
            exists|s: Seq<u8>| r.sk@ == #[trigger] lwe_secret_key(r.table@, lwe_params, s),
    {
        Self::from_seed(lwe_params, random_seed())
    }

    /// A client with the key of `seed`.
    pub fn from_seed(lwe_params: LWEParams, seed: Seed) -> (r: Self)
        requires
            lwe_params.is_default(),
        ensures
            r.wf(),
            r.lwe_params == lwe_params,
            r.sk@ == lwe_secret_key(r.table@, lwe_params, seed@),
    {
        Self::with_table(lwe_params, draw_table(lwe_params.noise_width_e8), seed)
    }

    /// A client with the key that a table makes of `seed`.
    pub fn with_table(lwe_params: LWEParams, table: Vec<u64>, seed: Seed) -> (r: Self)
        requires
            lwe_params.is_default(),
            is_noise_table(table@, lwe_params.noise_width_e8),
        ensures
            r.wf(),
            r.lwe_params == lwe_params,
            r.table == table,
            r.sk@ == lwe_secret_key(table@, lwe_params, seed@),
            forall|i: int|
                0 <= i < 1024 ==> #[trigger] r.sk@[i] == gaussian(
                    table@,
                    0x1_0000_0000,
                    chacha_u64(seed@, (2 * i) as nat),
                ) && is_noise_word(r.sk@[i], lwe_params),
    {
        let sk: Vec<u32> = draw_noise(table.as_slice(), &lwe_params, seed, lwe_params.n);
        proof {
            assert forall|i: int| 0 <= i < 1024 implies #[trigger] sk@[i] == gaussian(
                table@,
                0x1_0000_0000,
                chacha_u64(seed@, (2 * i) as nat),
            ) && is_noise_word(sk@[i], lwe_params) by {
                lemma_gaussian_near_zero(
                    table@,
                    lwe_params.noise_width_e8,
                    lwe_params.modulus,
                    chacha_u64(seed@, (2 * i) as nat),
                );
            }
        }
        LWEClient { lwe_params, table, sk }
    }

    /// The parameters.
    pub fn lwe_params(&self) -> (r: &LWEParams)
        ensures
            *r == self.lwe_params,
    {
        &self.lwe_params
    }

    /// The product of column `col` of `ct` and the key, modulo two to the 32nd.
    fn product_with_key(&self, ct: &[u32], cols: usize, col: usize) -> (r: u32)
        requires
            self.wf(),
            col < cols,
            1024 * cols <= ct@.len(),
        ensures
            r == key_product(ct@, cols as int, col as int, self.sk@, 1024) % two_32(),
    {
        let len: usize = ct.len();
        let mut sum: u64 = 0;
        let mut i: usize = 0;
        let mut at: usize = col;
        assert(0 * cols == 0);
        while i < 1024
            invariant
                self.wf(),
                len == ct@.len(),
                col < cols,
                1024 * cols <= len,
                i <= 1024,
                at == i * cols + col,
                sum < 0x1_0000_0000,
                sum == key_product(ct@, cols as int, col as int, self.sk@, i as int) % two_32(),
            decreases 1024 - i,
        {
            assert(i * cols + cols <= 1024 * cols && (i + 1) * cols == i * cols + cols)
                by (nonlinear_arith)
                requires
                    i + 1 <= 1024,
            ;
            let x: u64 = ct[at] as u64;
            let y: u64 = self.sk[i] as u64;
            assert(x * y <= 0xffff_ffff * 0xffff_ffff) by (nonlinear_arith)
                requires
                    x <= 0xffff_ffff,
                    y <= 0xffff_ffff,
            ;
            proof {
                let p = key_product(ct@, cols as int, col as int, self.sk@, i as int);
                vstd::arithmetic::div_mod::lemma_add_mod_noop(p, x * y, two_32());
                vstd::arithmetic::div_mod::lemma_add_mod_noop(sum as int, x * y, two_32());
                vstd::arithmetic::div_mod::lemma_mod_twice(p, two_32());
            }
            sum = (sum + x * y) % 0x1_0000_0000;
            if i + 1 < 1024 {
                assert((i + 1) * cols + cols <= 1024 * cols) by (nonlinear_arith)
                    requires
                        i + 2 <= 1024,
                ;
                at = at + cols;
            } else {
                proof {
                    assert(i + 1 == 1024);
                }
                return sum as u32;
            }
            i = i + 1;
        }
        sum as u32
    }

    /// Encrypts `pt` under the noise word `e`: the next words of the public
    /// stream, and the word that hides the plaintext.
    pub fn encrypt_with_noise(&self, rng_pub: &mut ChaChaStream, pt: u32, e: u32) -> (r: Vec<u32>)
        requires
            self.wf(),
            old(rng_pub).pos + 1024 <= u64::MAX,
        ensures
            final(rng_pub).seed == old(rng_pub).seed,
            final(rng_pub).pos == old(rng_pub).pos + 1024,
            r@.len() == 1025,
            r@.subrange(0, 1024) == stream_words(
                old(rng_pub).seed@,
                old(rng_pub).pos as int,
                1024,
            ),
            r@[1024] == (e + pt - key_product(r@, 1, 0, self.sk@, 1024)) % two_32(),
    {
        let mut ct: Vec<u32> = take_words(rng_pub, self.lwe_params.n);
        let ghost a = ct@;
        let sum: u32 = self.product_with_key(ct.as_slice(), 1, 0);
        let b: u64 = (0x1_0000_0000 - sum as u64 + pt as u64 + e as u64) % 0x1_0000_0000;
        ct.push(b as u32);
        proof {
            assert(ct@.subrange(0, 1024) =~= a);
            lemma_same_product(a, ct@, 1, 0, self.sk@, 1024);
            lemma_hide(key_product(a, 1, 0, self.sk@, 1024), sum as int, pt as int, e as int);
        }
        ct
    }

    /// Encrypts `pt` under fresh noise.
    pub fn encrypt(&self, rng_pub: &mut ChaChaStream, pt: u32) -> (r: Vec<u32>)
        requires
            self.wf(),
            old(rng_pub).pos + 1024 <= u64::MAX,
        ensures
            final(rng_pub).seed == old(rng_pub).seed,
            final(rng_pub).pos == old(rng_pub).pos + 1024,
            r@.len() == 1025,
            r@.subrange(0, 1024) == stream_words(
                old(rng_pub).seed@,
                old(rng_pub).pos as int,
                1024,
            ),
            exists|e: u32|
                is_noise_word(e, self.lwe_params) && r@[1024] == (e + pt - #[trigger] key_product(
                    r@,
                    1,
                    0,
                    self.sk@,
                    1024,
                )) % two_32(),
            exists|seed: Seq<u8>|
                r@[1024] == (#[trigger] gaussian(self.table@, 0x1_0000_0000, chacha_u64(seed, 0)) + pt
                    - key_product(r@, 1, 0, self.sk@, 1024)) % two_32(),
    {
        let seed: Seed = random_seed();
        let v: u64 = gaussian_sample(
            self.table.as_slice(),
            self.lwe_params.noise_width_e8,
            self.lwe_params.modulus,
            seed,
            0,
        );
        let e: u32 = (v % 0x1_0000_0000) as u32;
        proof {
            lemma_gaussian_near_zero(
                self.table@,
                self.lwe_params.noise_width_e8,
                self.lwe_params.modulus,
                chacha_u64(seed@, 0),
            );
        }
        let r: Vec<u32> = self.encrypt_with_noise(rng_pub, pt, e);
        assert(e == gaussian(self.table@, 0x1_0000_0000, chacha_u64(seed@, 0)));
        assert(is_noise_word(e, self.lwe_params) && r@[1024] == (e + pt - key_product(
            r@,
            1,
            0,
            self.sk@,
            1024,
        )) % two_32());
        r
    }

    /// Encrypts 1024 plaintexts at once, each under its noise word: a matrix of
    /// 1025 rows and 1024 columns, whose column `c` encrypts plaintext `c`. The
    /// upper rows are the matrix of the next words of the public stream.
    pub fn encrypt_many_with_noise(
        &self,
        rng_pub: &mut ChaChaStream,
        v_pt: &[u32],
        e: &[u32],
    ) -> (r: Vec<u32>)
        requires
            self.wf(),
            v_pt@.len() == 1024,
            e@.len() == 1024,
            old(rng_pub).pos + 1024 <= u64::MAX,
        ensures
            final(rng_pub).seed == old(rng_pub).seed,
            final(rng_pub).pos == old(rng_pub).pos + 1024,
            encrypts_many(
                r@,
                stream_words(old(rng_pub).seed@, old(rng_pub).pos as int, 1024),
                self.sk@,
                v_pt@,
                e@,
            ),
    {
        let a: Vec<u32> = take_words(rng_pub, self.lwe_params.n);
        assert(a@.len() * a@.len() == 0x10_0000) by (nonlinear_arith)
            requires
                a@.len() == 1024,
        ;
        let mut ct: Vec<u32> = negacyclic_matrix_u32(a.as_slice());
        let ghost top = ct@;
        let mut c: usize = 0;
        while c < 1024
            invariant
                self.wf(),
                v_pt@.len() == 1024,
                e@.len() == 1024,
                c <= 1024,
                top.len() == 0x10_0000,
                ct@.len() == top.len() + c,
                forall|i: int| 0 <= i < top.len() ==> #[trigger] ct@[i] == top[i],
                forall|k: int|
                    0 <= k < c ==> #[trigger] ct@[0x10_0000 + k] == (e@[k] + v_pt@[k]
                        - key_product(top, 1024, k, self.sk@, 1024)) % two_32(),
            decreases 1024 - c,
        {
            let sum: u32 = self.product_with_key(ct.as_slice(), 1024, c);
            let b: u64 = (0x1_0000_0000 - sum as u64 + v_pt[c] as u64 + e[c] as u64)
                % 0x1_0000_0000;
            proof {
                lemma_same_product(top, ct@, 1024, c as int, self.sk@, 1024);
                lemma_hide(
                    key_product(top, 1024, c as int, self.sk@, 1024),
                    sum as int,
                    v_pt@[c as int] as int,
                    e@[c as int] as int,
                );
            }
            ct.push(b as u32);
            c = c + 1;
        }
        proof {
            assert(ct@.subrange(0, 0x10_0000) =~= top);
            assert forall|k: int| 0 <= k < 1024 implies #[trigger] ct@[0x10_0000 + k] == (e@[k]
                + v_pt@[k] - key_product(ct@, 1024, k, self.sk@, 1024)) % two_32() by {
                lemma_same_product(top, ct@, 1024, k, self.sk@, 1024);
            }
        }
        ct
    }

    /// Encrypts 1024 plaintexts at once under fresh noise.
    pub fn encrypt_many(&self, rng_pub: &mut ChaChaStream, v_pt: &[u32]) -> (r: Vec<u32>)
        requires
            self.wf(),
            v_pt@.len() == 1024,
            old(rng_pub).pos + 1024 <= u64::MAX,
        ensures
            final(rng_pub).seed == old(rng_pub).seed,
            final(rng_pub).pos == old(rng_pub).pos + 1024,
            exists|seed: Seq<u8>|
                encrypts_many(
                    r@,
                    stream_words(old(rng_pub).seed@, old(rng_pub).pos as int, 1024),
                    self.sk@,
                    v_pt@,
                    #[trigger] lwe_noise(self.table@, self.lwe_params, seed, 1024),
                ),
    {
        let seed: Seed = random_seed();
        let e: Vec<u32> = draw_noise(self.table.as_slice(), &self.lwe_params, seed, 1024);
        let r: Vec<u32> = self.encrypt_many_with_noise(rng_pub, v_pt, e.as_slice());
        assert(e@ == lwe_noise(self.table@, self.lwe_params, seed@, 1024));
        r
    }

    /// Decrypts a ciphertext: its last word plus the product of the others with
    /// the key. What comes out is the plaintext plus noise.
    pub fn decrypt(&self, ct: &[u32]) -> (r: u32)
        requires
            self.wf(),
            ct@.len() >= 1025,
        ensures
            r == (key_product(ct@, 1, 0, self.sk@, 1024) + ct@[1024]) % two_32(),
    {
        let sum: u32 = self.product_with_key(ct, 1, 0);
        let r: u64 = (sum as u64 + ct[1024] as u64) % 0x1_0000_0000;
        proof {
            let p = key_product(ct@, 1, 0, self.sk@, 1024);
            vstd::arithmetic::div_mod::lemma_add_mod_noop(p, ct@[1024] as int, two_32());
            vstd::arithmetic::div_mod::lemma_add_mod_noop(
                sum as int,
                ct@[1024] as int,
                two_32(),
            );
            vstd::arithmetic::div_mod::lemma_mod_twice(p, two_32());
        }
        r as u32
    }
}

/// `ct` is a matrix of 1025 rows and 1024 columns: above, the matrix of `a`;
/// below, for each column the word that hides its plaintext.
pub open spec fn encrypts_many(
    ct: Seq<u32>,
    a: Seq<u32>,
    sk: Seq<u32>,
    pt: Seq<u32>,
    e: Seq<u32>,
) -> bool {
    &&& ct.len() == 0x10_0400
    &&& is_negacyclic_matrix_u32(ct.subrange(0, 0x10_0000), a)
    &&& forall|c: int|
        0 <= c < 1024 ==> #[trigger] ct[0x10_0000 + c] == (e[c] + pt[c] - key_product(
            ct,
            1024,
            c,
            sk,
            1024,
        )) % two_32()
}

/// `e` is within the noise bound of zero modulo two to the 32nd.
pub open spec fn is_noise_word(e: u32, params: LWEParams) -> bool {
    e <= noise_bound(params.noise_width_e8) || two_32() - noise_bound(params.noise_width_e8) <= e
}

/// A product with the key depends on the words that it runs over only.
proof fn lemma_same_product(a: Seq<u32>, b: Seq<u32>, cols: int, col: int, sk: Seq<u32>, k: int)
    requires
        0 <= k,
        0 <= col < cols,
        k * cols <= a.len(),
        a.len() <= b.len(),
        forall|i: int| 0 <= i < a.len() ==> #[trigger] a[i] == b[i],
    ensures
        key_product(a, cols, col, sk, k) == key_product(b, cols, col, sk, k),
    decreases k,
{
    if k > 0 {
        assert((k - 1) * cols + cols == k * cols && 0 <= (k - 1) * cols) by (nonlinear_arith)
            requires
                k >= 1,
                cols > 0,
        ;
        lemma_same_product(a, b, cols, col, sk, k - 1);
        assert(a[(k - 1) * cols + col] == b[(k - 1) * cols + col]);
    }
}

/// The hiding word in terms of the whole product.
proof fn lemma_hide(product: int, sum: int, pt: int, e: int)
    requires
        sum == product % two_32(),
    ensures
        (two_32() - sum + pt + e) % two_32() == (e + pt - product) % two_32(),
{
    vstd::arithmetic::div_mod::lemma_fundamental_div_mod(product, two_32());
    let k = product / two_32();
    assert(two_32() - sum + pt + e == two_32() * (1 + k) + (e + pt - product));
    lemma_mod_multiples_vanish(1 + k, e + pt - product, two_32());
}

/// Decryption undoes encryption up to the noise: a ciphertext whose last word
/// hides `pt` under the noise `e` decrypts to their sum.
pub proof fn decryption_gives_plaintext_plus_noise(ct: Seq<u32>, sk: Seq<u32>, pt: u32, e: u32)
    requires
        ct.len() == 1025,
        ct[1024] == (e + pt - key_product(ct, 1, 0, sk, 1024)) % two_32(),
    ensures
        (key_product(ct, 1, 0, sk, 1024) + ct[1024]) % two_32() == (pt + e) % two_32(),
{
    let p = key_product(ct, 1, 0, sk, 1024);
    let x = e + pt - p;
    vstd::arithmetic::div_mod::lemma_fundamental_div_mod(x, two_32());
    let k = x / two_32();
    assert(p + ct[1024] == two_32() * (-k) + (pt + e));
    lemma_mod_multiples_vanish(-k, pt + e, two_32());
}

} // verus!
