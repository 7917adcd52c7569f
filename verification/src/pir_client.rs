//! The client of the protocol: parameters, queries and answers.
use crate::aligned::{words, AlignedMemory64};
use crate::answer_laws::{
    bytes_hold, is_right_answer, right_answer_decodes, right_answer_decodes_to_bytes,
};
use crate::arith::{ceil_log2, lemma_ceil_log2, lemma_pow2_monotone, pow2_usize};
use crate::bits::{is_packed, u64s_to_contiguous_bytes};
use crate::client::{
    ciphertext_ntt, decrypt_ct_reg_measured, decrypted, lemma_ring_forms, plaintext, Client,
};
use crate::constants::numbered_seed;
use crate::double_laws::row_number;
use crate::double_query::{is_double_col_query, is_double_row_query};
use crate::lwe::{default_lwe, lwe_secret_key, LWEClient};
use crate::modulus_switch::{
    ct_byte_len, expected_ct_byte_len, recovered_0, recovered_1, recovered_values_in_range,
    switchable, ModulusSwitch,
};
use crate::params::{
    div_ceil, double_params, params_for_scenario, params_for_scenario_simplepir,
    params_for_scenario_simplepir_with_config, q2_values, simplepir_params, DbRowsCols, GetQPrime,
    MODULUS, Params, PtModulusBits, YPIRSPConfig,
};
use crate::poly::{chunk, lemma_chunk_append, lemma_chunk_inside, PolyMatrixNTT, PolyMatrixRaw};
use crate::query::{is_packing_blob, is_row_query, NoiseTables, YClient};
use crate::query_laws::query_number;
use crate::spiral::{copy_table, random_seed, secret_key, Seed};
use crate::text::{decimal, text_two_numbers};
use sha1::Digest;
use vstd::arithmetic::power2::pow2;
use vstd::prelude::*;
use vstd::string::*;

verus! {

/// The bytes of a SHA-1 digest.
pub const SHA1_HASH_BYTES: usize = 20;

/// Why an answer could not be decoded.
#[derive(Debug, Clone, PartialEq, Eq)]
pub enum YPIRDecodeError {
    /// The answer is malformed; the text says how.
    Panic(String),
}

impl YPIRDecodeError {
    /// The error as text.
    pub fn message(&self) -> (r: String)
        ensures
            r@ == "response decoding panicked: "@ + self->Panic_0@,
    {
        match self {
            YPIRDecodeError::Panic(msg) => {
                let mut text: String = String::from_str("response decoding panicked: ");
                text.append(msg.as_str());
                text
            },
        }
    }
}

/// The SHA-1 digest of a byte string.
pub uninterp spec fn sha1_of(data: Seq<u8>) -> Seq<u8>;

/// `Sha1::digest` of the sha1 crate: the digest of `data`.
#[verifier::external_body]
fn sha1_digest(data: &[u8]) -> (r: [u8; 20])
    ensures
        r@ == sha1_of(data@),
{
    sha1::Sha1::digest(data).into()
}

/// The first four bytes of a digest as a number, most significant first.
pub open spec fn digest_head(hash: Seq<u8>) -> int {
    0x100_0000 * hash[0] + 0x1_0000 * hash[1] + 0x100 * hash[2] + hash[3]
}

/// Dropping `low` bits and then `more` is dropping both at once.
proof fn lemma_whole_bytes(x: int, low: nat, more: nat)
    requires
        0 <= x,
    ensures
        x / pow2(low + more) as int == (x / pow2(low) as int) / pow2(more) as int,
{
    vstd::arithmetic::power2::lemma_pow2_adds(low, more);
    vstd::arithmetic::power2::lemma_pow2_pos(low);
    vstd::arithmetic::power2::lemma_pow2_pos(more);
    vstd::arithmetic::div_mod::lemma_div_denominator(x, pow2(low) as int, pow2(more) as int);
}

/// The bucket of a digest among two to the `log2_num_items`: its first bits.
pub fn bucket_of_hash(log2_num_items: usize, hash: &[u8; 20]) -> (r: usize)
    requires
        1 <= log2_num_items <= 32,
    ensures
        r == digest_head(hash@) / pow2((32 - log2_num_items) as nat) as int,
        r < pow2(log2_num_items as nat),
        log2_num_items <= 8 ==> r == hash@[0] as int / pow2((8 - log2_num_items) as nat) as int,
        8 <= log2_num_items <= 16 ==> r == (0x100 * hash@[0] + hash@[1]) / pow2(
            (16 - log2_num_items) as nat,
        ) as int,
        16 <= log2_num_items <= 24 ==> r == (0x1_0000 * hash@[0] + 0x100 * hash@[1] + hash@[2])
            / pow2((24 - log2_num_items) as nat) as int,
        24 <= log2_num_items ==> r == (0x100_0000 * hash@[0] + 0x1_0000 * hash@[1] + 0x100 * hash@[2]
            + hash@[3]) / pow2((32 - log2_num_items) as nat) as int,
{
    let top_idx: u64 = 0x100_0000 * hash[0] as u64 + 0x1_0000 * hash[1] as u64 + 0x100
        * hash[2] as u64 + hash[3] as u64;
    proof {
        vstd::arithmetic::power2::lemma2_to64();
        crate::arith::lemma_pow2_monotone((32 - log2_num_items) as nat, 31);
    }
    let size: usize = pow2_usize(32 - log2_num_items);
    proof {
        let (a, b) = (pow2((32 - log2_num_items) as nat) as int, pow2(log2_num_items as nat) as int);
        vstd::arithmetic::power2::lemma_pow2_adds(
            (32 - log2_num_items) as nat,
            log2_num_items as nat,
        );
        vstd::arithmetic::power2::lemma_pow2_pos((32 - log2_num_items) as nat);
        assert(top_idx as int / a < b) by (nonlinear_arith)
            requires
                top_idx < a * b,
                a > 0,
        ;
        assert(b <= 0x1_0000_0000) by {
            crate::arith::lemma_pow2_monotone(log2_num_items as nat, 32);
        }
        let x = top_idx as int;
        if log2_num_items <= 8 {
            lemma_whole_bytes(x, 24, (8 - log2_num_items) as nat);
        }
        if 8 <= log2_num_items <= 16 {
            lemma_whole_bytes(x, 16, (16 - log2_num_items) as nat);
        }
        if 16 <= log2_num_items <= 24 {
            lemma_whole_bytes(x, 8, (24 - log2_num_items) as nat);
        }
    }
    (top_idx / size as u64) as usize
}

/// A client of the protocol. It keeps the tables that make its keys of a seed, so
/// that an answer is decoded with the keys of its query.
pub struct YPIRClient {
    pub params: Params,
    pub tables: NoiseTables,
}

/// The first row of a packed ciphertext, scaled up.
pub open spec fn wire_row_0(bytes: Seq<u8>, params: Params) -> Seq<u64> {
    Seq::new(
        params.poly_len as nat,
        |z: int| recovered_0(bytes, z, MODULUS, params.q_prime_2()) as u64,
    )
}

/// The second row of a packed ciphertext, scaled up.
pub open spec fn wire_row_1(bytes: Seq<u8>, params: Params) -> Seq<u64> {
    Seq::new(
        params.poly_len as nat,
        |z: int|
            recovered_1(
                bytes,
                params.poly_len as int,
                z,
                MODULUS,
                params.q_prime_1(),
                params.q_prime_2(),
            ) as u64,
    )
}

/// What a packed ciphertext decodes to under a key.
pub open spec fn decoded_ct(bytes: Seq<u8>, params: Params, key: Seq<u64>) -> Seq<u64> {
    plaintext(
        decrypted(
            key,
            wire_row_0(bytes, params),
            wire_row_1(bytes, params),
            params.poly_len as int,
        ),
        params,
    )
}

/// The bytes of one packed ciphertext.
pub open spec fn wire_len(params: Params) -> int {
    ct_byte_len(params.poly_len as int, params.q_prime_1(), params.q_prime_2())
}

/// `r` is what `count` packed ciphertexts decode to, one after the other.
pub open spec fn decodes_to(
    r: Seq<u64>,
    data: Seq<u8>,
    count: int,
    params: Params,
    key: Seq<u64>,
) -> bool {
    let n = params.poly_len as int;
    &&& r.len() == count * n
    &&& forall|k: int|
        0 <= k < count ==> #[trigger] chunk(r, n, k) == decoded_ct(
            chunk(data, wire_len(params), k),
            params,
            key,
        )
    &&& forall|i: int| 0 <= i < r.len() ==> #[trigger] r[i] < params.pt_modulus
}

/// The reduced moduli of usable parameters can be switched to.
pub proof fn lemma_switchable(params: Params)
    requires
        params.wf(),
    ensures
        switchable(params.q_prime_1(), params.q_prime_2()),
        params.has_q_prime(),
{
    let b = params.q2_bits as int;
    let v = q2_values();
    assert(v.len() == 37);
    if b <= 24 {
        assert(v[14] == 12289 && v[15] == 12289 && v[16] == 61441 && v[17] == 65537 && v[18]
            == 65537 && v[19] == 520193 && v[20] == 786433 && v[21] == 786433 && v[22] == 3604481
            && v[23] == 7340033 && v[24] == 16515073);
    } else if b <= 36 {
        assert(v[25] == 33292289 && v[26] == 67043329 && v[27] == 132120577 && v[28] == 268369921
            && v[29] == 469762049 && v[30] == 1073479681 && v[31] == 2013265921 && v[32]
            == 4293918721 && v[33] == 8588886017 && v[34] == 17175674881 && v[35] == 34359214081
            && v[36] == 68718428161);
    }
}

/// Decodes one packed ciphertext.
fn decode_ct<'a>(params: &'a Params, client: &Client<'a>, bytes: &[u8]) -> (r: PolyMatrixRaw<'a>)
    requires
        client.wf(),
        *client.params == *params,
        bytes@.len() == wire_len(*params),
    ensures
        r.data@ == decoded_ct(bytes@, *params, client.key()),
        r.data@.len() == params.poly_len,
        forall|z: int| 0 <= z < r.data@.len() ==> #[trigger] r.data@[z] < params.pt_modulus,
{
    let ghost n = params.poly_len as int;
    proof {
        lemma_switchable(*params);
    }
    let q_1: u64 = params.get_q_prime_1();
    let q_2: u64 = params.get_q_prime_2();
    let ct: PolyMatrixRaw<'a> = PolyMatrixRaw::recover(params, q_1, q_2, bytes);
    proof {
        recovered_values_in_range(ct.data@, bytes@, n, MODULUS, q_1, q_2);
        let (r0, r1) = (wire_row_0(bytes@, *params), wire_row_1(bytes@, *params));
        assert(ct.data@.subrange(0, n) =~= r0);
        assert forall|z: int| 0 <= z < n implies ct.data@.subrange(n, 2 * n)[z] == r1[z] by {
            assert(ct.data@[n + z] == recovered_1(bytes@, n, z, MODULUS, q_1, q_2));
        }
        assert(ct.data@.subrange(n, 2 * n) =~= r1);
        assert forall|z: int| 0 <= z < n implies #[trigger] r0[z] < MODULUS by {
            assert(ct.data@[z] < MODULUS);
        }
        assert forall|z: int| 0 <= z < n implies #[trigger] r1[z] < MODULUS by {
            assert(ct.data@[n + z] < MODULUS);
        }
        lemma_ring_forms(r0, n);
        lemma_ring_forms(r1, n);
    }
    let ct_ntt: PolyMatrixNTT<'a> = ciphertext_ntt(params, &ct);
    let r: PolyMatrixRaw<'a> = decrypt_ct_reg_measured(
        client,
        params,
        &ct_ntt,
        params.poly_len,
    );
    assert(1 * 1 * n == n) by (nonlinear_arith);
    r
}

/// Decodes `count` packed ciphertexts, one after the other.
pub(crate) fn decode_cts<'a>(params: &'a Params, client: &Client<'a>, data: &[u8], count: usize) -> (r: Vec<
    u64,
>)
    requires
        client.wf(),
        *client.params == *params,
        data@.len() == count * wire_len(*params),
    ensures
        decodes_to(r@, data@, count as int, *params, client.key()),
{
    let ghost n = params.poly_len as int;
    proof {
        lemma_switchable(*params);
    }
    let len: usize = expected_ct_byte_len(
        params,
        params.get_q_prime_1(),
        params.get_q_prime_2(),
    );
    let total: usize = data.len();
    let mut out: Vec<u64> = Vec::new();
    let mut k: usize = 0;
    let mut start: usize = 0;
    assert(0 * n == 0 && 0 * len == 0);
    while k < count
        invariant
            client.wf(),
            *client.params == *params,
            n == params.poly_len,
            len == wire_len(*params),
            total == data@.len(),
            total == count * len,
            k <= count,
            start == k * len,
            out@.len() == k * n,
            forall|j: int|
                0 <= j < k ==> #[trigger] chunk(out@, n, j) == decoded_ct(
                    chunk(data@, len as int, j),
                    *params,
                    client.key(),
                ),
            forall|i: int| 0 <= i < out@.len() ==> #[trigger] out@[i] < params.pt_modulus,
        decreases count - k,
    {
        proof {
            lemma_chunk_inside(total as int, len as int, count as int, k as int);
            assert((k + 1) * len == k * len + len) by (nonlinear_arith);
        }
        let bytes: &[u8] = vstd::slice::slice_subrange(data, start, start + len);
        let part: PolyMatrixRaw<'a> = decode_ct(params, client, bytes);
        let ghost before = out@;
        out.extend_from_slice(part.data.as_slice());
        proof {
            assert(out@ =~= before + part.data@);
            lemma_chunk_append(before, part.data@, n, k as int);
            assert forall|j: int| 0 <= j < k + 1 implies #[trigger] chunk(out@, n, j)
                == decoded_ct(chunk(data@, len as int, j), *params, client.key()) by {
                if j < k {
                    assert(chunk(before + part.data@, n, j) == chunk(before, n, j));
                }
            }
            assert forall|i: int| 0 <= i < out@.len() implies #[trigger] out@[i]
                < params.pt_modulus by {
                if i >= before.len() {
                    assert(out@[i] == part.data@[i - before.len()]);
                }
            }
        }
        start = start + len;
        k = k + 1;
    }
    out
}

/// The text of two numbers that should be equal.
pub open spec fn not_equal(left: int, right: int) -> Seq<char> {
    "assertion `left == right` failed\n  left: "@ + decimal(left as nat) + "\n right: "@ + decimal(
        right as nat,
    )
}

/// The text of an answer of the wrong length, for `count` ciphertexts of
/// `per_ct` bytes: it cannot be cut into `count` parts, or there is nothing to
/// cut, or the parts do not have the length of a ciphertext.
pub open spec fn wrong_length(got: int, count: int, per_ct: int) -> Seq<char> {
    if got % count != 0 {
        not_equal(got % count, 0)
    } else if got == 0 {
        "chunk size must be non-zero"@
    } else {
        not_equal(got / count, per_ct)
    }
}

/// The text of an answer of the wrong length.
fn wrong_length_text(got: usize, count: usize, per_ct: usize) -> (r: String)
    requires
        count > 0,
    ensures
        r@ == wrong_length(got as int, count as int, per_ct as int),
{
    let (left, right): (usize, usize) = if got % count != 0 {
        (got % count, 0)
    } else if got == 0 {
        return String::from_str("chunk size must be non-zero");
    } else {
        (got / count, per_ct)
    };
    text_two_numbers(
        "assertion `left == right` failed\n  left: ",
        left as u64,
        "\n right: ",
        right as u64,
    )
}

/// Packing keys and queries for several rows.
pub type YPIRSimpleBatchQuery = (Vec<AlignedMemory64>, AlignedMemory64);

impl YPIRClient {
    /// The parameters are usable, and the tables are of their widths.
    pub open spec fn wf(&self) -> bool {
        self.params.wf() && self.tables.wf(self.params)
    }

    /// The key that belongs to a seed.
    pub open spec fn key(&self, seed: Seed) -> Seq<u64> {
        secret_key(self.tables.ring@, self.params, seed@)
    }

    /// The key of the inner layer that belongs to a seed.
    pub open spec fn lwe_key(&self, seed: Seed) -> Seq<u32> {
        lwe_secret_key(self.tables.lwe@, default_lwe(), seed@)
    }

    /// A client for the given parameters.
    pub fn new(params: &Params) -> (r: Self)
        requires
            0 < params.noise_width_e8 <= 10_000_000_000,
        ensures
            r.params == *params,
            r.tables.wf(*params),
    {
        YPIRClient { params: *params, tables: NoiseTables::of(params) }
    }

    /// The parameters.
    pub fn params(&self) -> (r: &Params)
        ensures
            *r == self.params,
    {
        &self.params
    }

    /// A client for a database of `num_items` items of `item_size_bits` bits.
    pub fn from_db_sz(num_items: u64, item_size_bits: u64, is_simplepir: bool) -> (r: Self)
        requires
            is_simplepir ==> 0 < num_items <= 0x8000_0000_0000_0000 && 0 < item_size_bits
                && div_ceil(item_size_bits as int, 28672) <= usize::MAX,
            !is_simplepir ==> num_items * item_size_bits <= u64::MAX,
        ensures
            is_simplepir ==> simplepir_params(r.params, num_items, item_size_bits, 2048, 3),
            !is_simplepir ==> double_params(r.params, num_items, item_size_bits),
            is_simplepir ==> num_items <= r.params.rows() && (r.params.rows() == 2048
                || r.params.rows() < 2 * num_items) && item_size_bits <= r.params.cols_simplepir()
                * 14 < item_size_bits + 28672,
            !is_simplepir ==> (num_items * item_size_bits) / 8 <= r.params.rows()
                * r.params.cols_normal(),
            r.params.sizes_fit() ==> r.wf(),
    {
        let params: Params = if is_simplepir {
            params_for_scenario_simplepir(num_items, item_size_bits)
        } else {
            params_for_scenario(num_items, item_size_bits)
        };
        Self::new(&params)
    }

    /// A client of the one-level scheme in the given configuration.
    pub fn from_db_sz_simplepir_with_config(
        num_items: u64,
        item_size_bits: u64,
        config: YPIRSPConfig,
    ) -> (r: Self)
        requires
            0 < num_items <= 0x8000_0000_0000_0000,
            0 < item_size_bits,
            div_ceil(item_size_bits as int, config.degree() * 14) <= usize::MAX,
        ensures
            simplepir_params(
                r.params,
                num_items,
                item_size_bits,
                config.degree(),
                config.digits(),
            ),
            r.params.sizes_fit() ==> r.wf(),
            r.params.poly_len == config.degree(),
            num_items <= r.params.rows(),
            r.params.rows() == r.params.poly_len || r.params.rows() < 2 * num_items,
            item_size_bits <= r.params.cols_simplepir() * 14 < item_size_bits + r.params.poly_len
                * 14,
    {
        let params: Params = params_for_scenario_simplepir_with_config(
            num_items,
            item_size_bits,
            config,
        );
        Self::new(&params)
    }

    /// The digest of an item.
    pub fn hash(target_item: &str) -> (r: [u8; 20])
        ensures
            r@ == sha1_of(target_item.spec_bytes()),
    {
        sha1_digest(target_item.as_bytes())
    }

    /// The bucket of an item among two to the `log2_num_items`.
    pub fn bucket(log2_num_items: usize, target_item: &str) -> (r: usize)
        requires
            1 <= log2_num_items <= 32,
        ensures
            r == digest_head(sha1_of(target_item.spec_bytes())) / pow2(
                (32 - log2_num_items) as nat,
            ) as int,
            r < pow2(log2_num_items as nat),
            ({
                let hash = sha1_of(target_item.spec_bytes());
                &&& log2_num_items <= 8 ==> r == hash[0] as int / pow2(
                    (8 - log2_num_items) as nat,
                ) as int
                &&& 8 <= log2_num_items <= 16 ==> r == (0x100 * hash[0] + hash[1]) / pow2(
                    (16 - log2_num_items) as nat,
                ) as int
                &&& 16 <= log2_num_items <= 24 ==> r == (0x1_0000 * hash[0] + 0x100 * hash[1]
                    + hash[2]) / pow2((24 - log2_num_items) as nat) as int
                &&& 24 <= log2_num_items ==> r == (0x100_0000 * hash[0] + 0x1_0000 * hash[1] + 0x100
                    * hash[2] + hash[3]) / pow2((32 - log2_num_items) as nat) as int
            }),
    {
        let item_hash: [u8; 20] = Self::hash(target_item);
        bucket_of_hash(log2_num_items, &item_hash)
    }

    /// A query of the two-level scheme for element `target_idx`, with the seed
    /// of the keys that decode its answer.
    pub fn generate_query_normal(&self, target_idx: usize) -> (r: (
        (Vec<u32>, AlignedMemory64, AlignedMemory64),
        Seed,
    ))
        requires
            self.wf(),
            self.params.cols_normal() <= usize::MAX / 0x20000,
            (target_idx as int / (self.params.cols_normal() as int)) < self.params.rows(),
        ensures
            is_double_query(
                r.0,
                self.params,
                self.key(r.1),
                self.lwe_key(r.1),
                target_idx as int,
            ),
            r.0.0@.len() == self.params.rows() + self.params.rows() as int / 128,
            forall|x: int|
                0 <= x < self.params.rows() ==> #[trigger] row_number(
                    r.0.0@[x],
                    numbered_seed(0),
                    self.lwe_key(r.1),
                    x,
                ) == if x == target_idx as int / self.params.cols_normal() as int {
                    1int
                } else {
                    0int
                },
            forall|x: int| self.params.rows() <= x < r.0.0@.len() ==> #[trigger] r.0.0@[x] == 0,
            words(r.0.1).len() == self.params.cols_normal(),
            forall|x: int|
                0 <= x < words(r.0.1).len() ==> #[trigger] query_number(
                    words(r.0.1)[x],
                    self.params,
                    self.key(r.1),
                    numbered_seed(1),
                    x,
                ) == if x == target_idx as int % self.params.cols_normal() as int {
                    1int
                } else {
                    0int
                },
    {
        let client_seed: Seed = random_seed();
        let y_client: YClient = YClient::with_tables(&self.params, &self.tables, client_seed);
        let query: (Vec<u32>, AlignedMemory64, AlignedMemory64) = y_client.generate_full_query(
            target_idx,
        );
        proof {
            assert(is_double_row_query(
                query.0@,
                self.params,
                y_client.lwe_client,
                target_idx as int / (self.params.cols_normal() as int),
            ));
            assert(y_client.lwe_client.sk@ == self.lwe_key(client_seed));
        }
        (query, client_seed)
    }

    /// A query of the one-level scheme for row `target_row`, with the seed of
    /// the keys that decode its answer.
    pub fn generate_query_simplepir(&self, target_row: usize) -> (r: (
        (AlignedMemory64, AlignedMemory64),
        Seed,
    ))
        requires
            self.wf(),
            target_row < self.params.rows(),
            target_row * self.params.cols_simplepir() <= u64::MAX,
        ensures
            words(r.0.0).len() == self.params.rows(),
            is_row_query(words(r.0.0), self.params, self.key(r.1), target_row as int),
            forall|x: int|
                0 <= x < words(r.0.0).len() ==> #[trigger] query_number(
                    words(r.0.0)[x],
                    self.params,
                    self.key(r.1),
                    numbered_seed(0),
                    x,
                ) == if x == target_row {
                    1int
                } else {
                    0int
                },
            is_packing_blob(words(r.0.1), self.params, self.key(r.1)),
    {
        let ghost c = self.params.cols_simplepir() as int;
        proof {
            assert(c >= 1) by (nonlinear_arith)
                requires
                    c == self.params.instances * self.params.poly_len,
                    self.params.instances >= 1,
                    self.params.poly_len >= 1,
            ;
            vstd::arithmetic::div_mod::lemma_div_multiples_vanish(target_row as int, c);
            assert(c * target_row == target_row * c) by (nonlinear_arith);
        }
        let target_idx: u64 = target_row as u64 * self.params.db_cols_simplepir() as u64;
        let client_seed: Seed = random_seed();
        let y_client: YClient = YClient::with_tables(&self.params, &self.tables, client_seed);
        let query: (AlignedMemory64, AlignedMemory64) = y_client.generate_full_query_simplepir(
            target_idx,
        );
        (query, client_seed)
    }

    /// Queries of the one-level scheme for several rows, with one set of
    /// packing keys and one seed for all of them.
    pub fn generate_query_simplepir_batch(&self, target_rows: &[usize]) -> (r: (
        YPIRSimpleBatchQuery,
        Seed,
    ))
        requires
            self.wf(),
            forall|k: int| 0 <= k < target_rows@.len() ==> #[trigger] target_rows@[k]
                < self.params.rows(),
        ensures
            r.0.0@.len() == target_rows@.len(),
            forall|k: int|
                0 <= k < r.0.0@.len() ==> words(#[trigger] r.0.0@[k]).len() == self.params.rows()
                    && is_row_query(
                    words(r.0.0@[k]),
                    self.params,
                    self.key(r.1),
                    target_rows@[k] as int,
                ),
            forall|k: int, x: int|
                0 <= k < r.0.0@.len() && 0 <= x < words(r.0.0@[k]).len() ==> #[trigger] query_number(
                    words(r.0.0@[k])[x],
                    self.params,
                    self.key(r.1),
                    numbered_seed(0),
                    x,
                ) == if x == target_rows@[k] {
                    1int
                } else {
                    0int
                },
            is_packing_blob(words(r.0.1), self.params, self.key(r.1)),
    {
        let client_seed: Seed = random_seed();
        let y_client: YClient = YClient::with_tables(&self.params, &self.tables, client_seed);
        let query: (Vec<AlignedMemory64>, AlignedMemory64) =
            y_client.generate_full_query_simplepir_batch(target_rows);
        (query, client_seed)
    }

    /// The bytes of an answer of the one-level scheme.
    pub open spec fn answer_len(&self) -> int {
        self.params.instances * wire_len(self.params)
    }

    /// Decodes an answer of the one-level scheme into the elements of its row.
    pub fn decode_response_simplepir_raw(&self, client_seed: Seed, response_data: &[u8]) -> (r: Vec<
        u64,
    >)
        requires
            self.wf(),
            response_data@.len() == self.answer_len(),
        ensures
            decodes_to(
                r@,
                response_data@,
                self.params.instances as int,
                self.params,
                self.key(client_seed),
            ),
            forall|m: Seq<u64>|
                #[trigger] is_right_answer(
                    response_data@,
                    self.params.instances as int,
                    self.params,
                    self.key(client_seed),
                    m,
                ) ==> r@ == m,
    {
        let client: Client = Client {
            params: &self.params,
            table: copy_table(&self.tables.ring),
            seed: client_seed,
        };
        let r: Vec<u64> = decode_cts(&self.params, &client, response_data, self.params.instances);
        proof {
            let (count, key) = (self.params.instances as int, self.key(client_seed));
            assert forall|m: Seq<u64>|
                #[trigger] is_right_answer(response_data@, count, self.params, key, m) implies r@
                == m by {
                right_answer_decodes(r@, response_data@, count, self.params, key, m);
            }
        }
        r
    }

    /// Decodes an answer of the one-level scheme into the bytes of its row.
    pub fn decode_response_simplepir(&self, client_seed: Seed, response_data: &[u8]) -> (r: Vec<u8>)
        requires
            self.wf(),
            response_data@.len() == self.answer_len(),
        ensures
            is_row_bytes(r@, response_data@, self.params, self.key(client_seed)),
            forall|m: Seq<u64>|
                #[trigger] is_right_answer(
                    response_data@,
                    self.params.instances as int,
                    self.params,
                    self.key(client_seed),
                    m,
                ) ==> bytes_hold(r@, m, ceil_log2(self.params.pt_modulus as int)),
    {
        let decoded: Vec<u64> = self.decode_response_simplepir_raw(client_seed, response_data);
        let r: Vec<u8> = self.row_bytes(&decoded);
        assert(decodes_to(
            decoded@,
            response_data@,
            self.params.instances as int,
            self.params,
            self.key(client_seed),
        ) && is_packed(r@, decoded@, self.params.pt_bits()));
        proof {
            let (count, key) = (self.params.instances as int, self.key(client_seed));
            assert forall|m: Seq<u64>|
                #[trigger] is_right_answer(
                    response_data@,
                    count,
                    self.params,
                    key,
                    m,
                ) implies bytes_hold(r@, m, ceil_log2(self.params.pt_modulus as int)) by {
                right_answer_decodes_to_bytes(r@, response_data@, self.params, key, m);
            }
        }
        r
    }

    /// The elements of a row as bytes.
    fn row_bytes(&self, decoded: &Vec<u64>) -> (r: Vec<u8>)
        requires
            self.wf(),
            decoded@.len() == self.params.cols_simplepir(),
        ensures
            is_packed(r@, decoded@, self.params.pt_bits()),
    {
        let bits: usize = self.params.pt_modulus_bits();
        proof {
            lemma_pt_bits(self.params);
            assert(decoded@.len() * bits <= decoded@.len() * 32) by (nonlinear_arith)
                requires
                    bits <= 32,
                    decoded@.len() >= 0,
            ;
        }
        u64s_to_contiguous_bytes(decoded.as_slice(), bits)
    }

    /// Decodes several answers of the one-level scheme under the keys of one
    /// seed. An answer of the wrong length gives an error in its own place and
    /// does not keep the others from being decoded.
    pub fn decode_response_simplepir_batch_raw(&self, client_seed: Seed, responses: &[&[u8]]) -> (r:
        Vec<Result<Vec<u64>, YPIRDecodeError>>)
        requires
            self.wf(),
            self.answer_len() <= usize::MAX,
        ensures
            r@.len() == responses@.len(),
            forall|k: int|
                0 <= k < r@.len() ==> #[trigger] is_slot(
                    r@[k],
                    responses@[k]@,
                    self.params,
                    self.key(client_seed),
                ),
            forall|k: int, m: Seq<u64>|
                0 <= k < r@.len() && #[trigger] is_right_answer(
                    responses@[k]@,
                    self.params.instances as int,
                    self.params,
                    self.key(client_seed),
                    m,
                ) ==> (r@[k] matches Ok(v) && v@ == m),
    {
        let mut out: Vec<Result<Vec<u64>, YPIRDecodeError>> = Vec::new();
        proof {
            lemma_switchable(self.params);
        }
        let per_ct: usize = expected_ct_byte_len(
            &self.params,
            self.params.get_q_prime_1(),
            self.params.get_q_prime_2(),
        );
        let expected: usize = self.params.instances * per_ct;
        let mut k: usize = 0;
        while k < responses.len()
            invariant
                self.wf(),
                expected == self.answer_len(),
                per_ct == wire_len(self.params),
                k <= responses@.len(),
                out@.len() == k,
                forall|j: int|
                    0 <= j < k ==> #[trigger] is_slot(
                        out@[j],
                        responses@[j]@,
                        self.params,
                        self.key(client_seed),
                    ),
            decreases responses@.len() - k,
        {
            let response: &[u8] = responses[k];
            if response.len() == expected {
                let decoded: Vec<u64> = self.decode_response_simplepir_raw(client_seed, response);
                out.push(Ok(decoded));
            } else {
                let text: String = wrong_length_text(
                    response.len(),
                    self.params.instances,
                    per_ct,
                );
                out.push(Err(YPIRDecodeError::Panic(text)));
            }
            assert(is_slot(
                out@[k as int],
                responses@[k as int]@,
                self.params,
                self.key(client_seed),
            ));
            k = k + 1;
        }
        proof {
            let (count, key) = (self.params.instances as int, self.key(client_seed));
            assert forall|j: int, m: Seq<u64>|
                0 <= j < out@.len() && #[trigger] is_right_answer(
                    responses@[j]@,
                    count,
                    self.params,
                    key,
                    m,
                ) implies (out@[j] matches Ok(v) && v@ == m) by {
                assert(is_slot(out@[j], responses@[j]@, self.params, key));
                right_answer_decodes(
                    out@[j]->Ok_0@,
                    responses@[j]@,
                    count,
                    self.params,
                    key,
                    m,
                );
            }
        }
        out
    }

    /// Decodes several answers of the one-level scheme into the bytes of their
    /// rows, each in its own place.
    pub fn decode_response_simplepir_batch(&self, client_seed: Seed, responses: &[&[u8]]) -> (r:
        Vec<Result<Vec<u8>, YPIRDecodeError>>)
        requires
            self.wf(),
            self.answer_len() <= usize::MAX,
        ensures
            r@.len() == responses@.len(),
            forall|k: int|
                0 <= k < r@.len() ==> #[trigger] is_byte_slot(
                    r@[k],
                    responses@[k]@,
                    self.params,
                    self.key(client_seed),
                ),
            forall|k: int, m: Seq<u64>|
                0 <= k < r@.len() && #[trigger] is_right_answer(
                    responses@[k]@,
                    self.params.instances as int,
                    self.params,
                    self.key(client_seed),
                    m,
                ) ==> (r@[k] matches Ok(v) && bytes_hold(
                    v@,
                    m,
                    ceil_log2(self.params.pt_modulus as int),
                )),
    {
        let mut out: Vec<Result<Vec<u8>, YPIRDecodeError>> = Vec::new();
        proof {
            lemma_switchable(self.params);
        }
        let raws: Vec<Result<Vec<u64>, YPIRDecodeError>> = self.decode_response_simplepir_batch_raw(
            client_seed,
            responses,
        );
        let mut k: usize = 0;
        while k < raws.len()
            invariant
                self.wf(),
                raws@.len() == responses@.len(),
                forall|j: int|
                    0 <= j < raws@.len() ==> #[trigger] is_slot(
                        raws@[j],
                        responses@[j]@,
                        self.params,
                        self.key(client_seed),
                    ),
                k <= raws@.len(),
                out@.len() == k,
                forall|j: int|
                    0 <= j < k ==> #[trigger] is_byte_slot(
                        out@[j],
                        responses@[j]@,
                        self.params,
                        self.key(client_seed),
                    ),
            decreases raws@.len() - k,
        {
            assert(is_slot(
                raws@[k as int],
                responses@[k as int]@,
                self.params,
                self.key(client_seed),
            ));
            match &raws[k] {
                Ok(raw) => {
                    let bytes: Vec<u8> = self.row_bytes(raw);
                    assert(decodes_to(
                        raw@,
                        responses@[k as int]@,
                        self.params.instances as int,
                        self.params,
                        self.key(client_seed),
                    ) && is_packed(bytes@, raw@, self.params.pt_bits()));
                    out.push(Ok(bytes));
                },
                Err(YPIRDecodeError::Panic(msg)) => {
                    out.push(Err(YPIRDecodeError::Panic(msg.clone())));
                },
            }
            assert(is_byte_slot(
                out@[k as int],
                responses@[k as int]@,
                self.params,
                self.key(client_seed),
            ));
            k = k + 1;
        }
        proof {
            let (count, key) = (self.params.instances as int, self.key(client_seed));
            assert forall|j: int, m: Seq<u64>|
                0 <= j < out@.len() && #[trigger] is_right_answer(
                    responses@[j]@,
                    count,
                    self.params,
                    key,
                    m,
                ) implies (out@[j] matches Ok(v) && bytes_hold(
                v@,
                m,
                ceil_log2(self.params.pt_modulus as int),
            )) by {
                assert(is_byte_slot(out@[j], responses@[j]@, self.params, key));
                right_answer_decodes_to_bytes(
                    out@[j]->Ok_0@,
                    responses@[j]@,
                    self.params,
                    key,
                    m,
                );
            }
        }
        out
    }
}

/// The bits of a plaintext element.
proof fn lemma_pt_bits(params: Params)
    requires
        params.wf(),
    ensures
        1 <= params.pt_bits() <= 32,
{
    vstd::arithmetic::power2::lemma2_to64();
    crate::arith::lemma_ceil_log2(params.pt_modulus as int);
    if params.pt_bits() > 32 {
        lemma_pow2_monotone(32, (params.pt_bits() - 1) as nat);
    }
}

/// The parts of a query of the two-level scheme for element `idx`, under the
/// keys of the two layers.
pub open spec fn is_double_query(
    q: (Vec<u32>, AlignedMemory64, AlignedMemory64),
    params: Params,
    key: Seq<u64>,
    lwe_key: Seq<u32>,
    idx: int,
) -> bool {
    let cols = params.cols_normal() as int;
    &&& exists|client: LWEClient|
        #[trigger] client.wf() && client.sk@ == lwe_key
            && is_double_row_query(q.0@, params, client, idx / cols)
    &&& is_double_col_query(words(q.1), params, key, idx % cols)
    &&& is_packing_blob(words(q.2), params, key)
}

/// `bytes` packs the elements that an answer of the one-level scheme decodes
/// to.
pub open spec fn is_row_bytes(
    bytes: Seq<u8>,
    data: Seq<u8>,
    params: Params,
    key: Seq<u64>,
) -> bool {
    exists|decoded: Seq<u64>|
        #[trigger] decodes_to(decoded, data, params.instances as int, params, key)
            && is_packed(bytes, decoded, params.pt_bits())
}

/// The outcome for one answer of a batch: its elements where it has the right
/// length, and otherwise an error that says so.
pub open spec fn is_slot(
    r: Result<Vec<u64>, YPIRDecodeError>,
    data: Seq<u8>,
    params: Params,
    key: Seq<u64>,
) -> bool {
    let expected = params.instances * wire_len(params);
    if data.len() == expected {
        r matches Ok(v) && decodes_to(v@, data, params.instances as int, params, key)
    } else {
        r matches Err(YPIRDecodeError::Panic(text)) && text@ == wrong_length(
            data.len() as int,
            params.instances as int,
            wire_len(params),
        )
    }
}

/// The outcome for one answer of a batch, as bytes.
pub open spec fn is_byte_slot(
    r: Result<Vec<u8>, YPIRDecodeError>,
    data: Seq<u8>,
    params: Params,
    key: Seq<u64>,
) -> bool {
    let expected = params.instances * wire_len(params);
    if data.len() == expected {
        r matches Ok(v) && is_row_bytes(v@, data, params, key)
    } else {
        r matches Err(YPIRDecodeError::Panic(text)) && text@ == wrong_length(
            data.len() as int,
            params.instances as int,
            wire_len(params),
        )
    }
}

/// Decoding is a function of the answer and the seed: two decodings of the same
/// answer under the same seed, alone or in any place of a batch, are equal.
pub proof fn decoding_is_deterministic(
    a: Seq<u64>,
    b: Seq<u64>,
    data: Seq<u8>,
    count: int,
    params: Params,
    key: Seq<u64>,
)
    requires
        params.wf(),
        count >= 0,
        decodes_to(a, data, count, params, key),
        decodes_to(b, data, count, params, key),
    ensures
        a == b,
{
    let n = params.poly_len as int;
    assert forall|i: int| 0 <= i < a.len() implies a[i] == b[i] by {
        let k = i / n;
        let z = i % n;
        vstd::arithmetic::div_mod::lemma_fundamental_div_mod(i, n);
        assert(n * k == k * n) by (nonlinear_arith);
        assert(0 <= k < count) by (nonlinear_arith)
            requires
                i == n * k + z,
                0 <= z < n,
                0 <= i < count * n,
        ;
        lemma_chunk_inside(a.len() as int, n, count, k);
        assert(chunk(a, n, k) == chunk(b, n, k));
        assert(chunk(a, n, k)[z] == a[i]);
        assert(chunk(b, n, k)[z] == b[i]);
    }
    assert(a =~= b);
}

} // verus!
