//! Answers of the two-level scheme.
use crate::answer_laws::{is_right_answer, right_answer_decodes};
use crate::arith::{
    ceil_log2, floor_log2, lemma_ceil_log2, lemma_floor_log2, lemma_pow2_monotone, log2_floor,
    noise_inside_window_decodes, rescale, rescaled,
};
use crate::bits::{field, is_packed, lemma_packed_unique, read_bits, u64s_to_contiguous_bytes};
use crate::client::{decrypted, Client};
use crate::double_answer_laws::{inner_numbers_read_back, outer_holds, scaled_up};
use crate::lwe::{key_product, two_32, LWEClient, LWEParams};
use crate::modulus_switch::expected_ct_byte_len;
use crate::params::{div_ceil, GetQPrime, GetRho, Params};
use crate::pir_client::{
    decode_cts, decodes_to, decoding_is_deterministic, lemma_switchable, wire_len, YPIRClient,
};
use crate::spiral::{copy_table, Seed};
use vstd::arithmetic::power2::pow2;
use vstd::prelude::*;

verus! {

/// The modulus that inner ciphertexts are switched to.
pub const LWE_Q_PRIME: u64 = 268369921;

/// The bits that an outer plaintext element holds for sure.
pub open spec fn outer_bits(params: Params) -> nat {
    floor_log2(params.pt_modulus as int)
}

/// The outer elements that hold the last number of an inner ciphertext.
pub open spec fn last_count(params: Params) -> int {
    div_ceil(28, outer_bits(params) as int)
}

/// Where the last number of an inner ciphertext starts among the outer
/// elements.
pub open spec fn last_start(params: Params) -> int {
    div_ceil(28672, outer_bits(params) as int)
}

/// The outer elements of an answer hold a whole inner ciphertext.
pub open spec fn answer_fits(params: Params) -> bool {
    &&& last_start(params) + last_count(params) <= params.rho_value() * params.poly_len
    &&& 28672 <= params.rho_value() * params.poly_len * outer_bits(params)
}

/// The packing of `outer`, `bits` bits to an element.
pub open spec fn packing_of(outer: Seq<u64>, bits: nat) -> Seq<u8> {
    choose|bytes: Seq<u8>| is_packed(bytes, outer, bits)
}

/// The first `k` elements from `start` on, joined into one number of `bits`
/// bits each, the first one lowest.
pub open spec fn joined(outer: Seq<u64>, start: int, bits: int, k: int) -> u64
    decreases k,
{
    if k <= 0 {
        0
    } else {
        joined(outer, start, bits, k - 1) | (outer[start + k - 1] << (((k - 1) * bits) as u64))
    }
}

/// Number `z` of the inner ciphertext as the outer elements hold it: 28 bits of
/// their packing each, and the last one in elements of its own.
pub open spec fn held_number(outer: Seq<u64>, params: Params, z: int) -> int {
    if z < 1024 {
        field(packing_of(outer, outer_bits(params)), z * 28, 28)
    } else {
        joined(
            outer,
            last_start(params),
            outer_bits(params) as int,
            last_count(params),
        ) as int
    }
}

/// Number `z` of the inner ciphertext. What is no residue of the modulus that it
/// was switched to counts as zero, so that decoding never fails on what an
/// answer holds.
pub open spec fn inner_number(outer: Seq<u64>, params: Params, z: int) -> int {
    let held = held_number(outer, params, z);
    if held < LWE_Q_PRIME {
        held
    } else {
        0
    }
}

/// The inner ciphertext, scaled up to its own modulus.
pub open spec fn inner_ciphertext(outer: Seq<u64>, params: Params) -> Seq<u32> {
    Seq::new(
        1025,
        |z: int|
            rescaled(inner_number(outer, params, z), LWE_Q_PRIME as int, 0x1_0000_0000) as u32,
    )
}

/// What the outer elements decode to under the key `sk` of the inner layer.
pub open spec fn inner_answer(outer: Seq<u64>, params: Params, sk: Seq<u32>) -> int {
    let ct = inner_ciphertext(outer, params);
    rescaled((key_product(ct, 1, 0, sk, 1024) + ct[1024]) % two_32(), 0x1_0000_0000, 256)
}

/// The bits that an outer element holds are between one and 32.
pub proof fn lemma_outer_bits(params: Params)
    requires
        params.wf(),
    ensures
        1 <= outer_bits(params) <= 32,
{
    lemma_floor_log2(params.pt_modulus as int);
    vstd::arithmetic::power2::lemma2_to64();
    if outer_bits(params) > 32 {
        vstd::arithmetic::power2::lemma_pow2_unfold(33);
        lemma_pow2_monotone(33, outer_bits(params));
    }
}

/// The outer elements of an answer hold a whole inner ciphertext.
pub proof fn lemma_answer_fits(params: Params)
    requires
        params.wf(),
    ensures
        answer_fits(params),
        params.rho_value() <= 16,
{
    lemma_outer_bits(params);
    let b = outer_bits(params) as int;
    let n = params.poly_len as int;
    let rings = div_ceil(28700, b * n);
    assert(1 <= rings <= 15 && rings * (b * n) >= 28700) by (nonlinear_arith)
        requires
            rings == (28700 + b * n - 1) / (b * n),
            b >= 1,
            n == 2048 || n == 4096,
    ;
    let k = ceil_log2(rings);
    vstd::arithmetic::power2::lemma2_to64();
    crate::arith::lemma_ceil_log2(rings);
    if k > 4 {
        lemma_pow2_monotone(4, (k - 1) as nat);
    }
    let rho = pow2(k) as int;
    assert(rho == 1 || rho == 2 || rho == 4 || rho == 8 || rho == 16);
    let p = rho * n;
    assert(p * b >= 28700) by (nonlinear_arith)
        requires
            p == rho * n,
            rho >= rings,
            b >= 1,
            n >= 1,
            rings * (b * n) >= 28700,
    ;
    assert(p == 2048 || p == 4096 || p == 8192 || p == 16384 || p == 32768 || p == 65536)
        by (nonlinear_arith)
        requires
            p == rho * n,
            rho == 1 || rho == 2 || rho == 4 || rho == 8 || rho == 16,
            n == 2048 || n == 4096,
    ;
    assert((p - 2) * b >= 28700) by (nonlinear_arith)
        requires
            p * b >= 28700,
            p == 2048 || p == 4096 || p == 8192 || p == 16384 || p == 32768 || p == 65536,
            b >= 1,
    ;
    let (start, count) = (last_start(params), last_count(params));
    assert(start * b <= 28672 + b - 1 && count * b <= 28 + b - 1) by (nonlinear_arith)
        requires
            start == (28672 + b - 1) / b,
            count == (28 + b - 1) / b,
            b >= 1,
    ;
    assert(start + count <= p) by (nonlinear_arith)
        requires
            start * b <= 28672 + b - 1,
            count * b <= 28 + b - 1,
            (p - 2) * b >= 28700,
            b >= 1,
    ;
}

/// A number of the inner ciphertext, with zero for what is none.
fn in_range(held: u64) -> (r: u64)
    ensures
        r == if held < LWE_Q_PRIME {
            held
        } else {
            0
        },
{
    if held < LWE_Q_PRIME {
        held
    } else {
        0
    }
}

/// Reads the inner ciphertext out of the outer elements.
fn read_inner(params: &Params, outer: &Vec<u64>) -> (r: Vec<u32>)
    requires
        params.wf(),
        outer@.len() == params.rho_value() * params.poly_len,
        forall|i: int| 0 <= i < outer@.len() ==> #[trigger] outer@[i] < params.pt_modulus,
    ensures
        r@ == inner_ciphertext(outer@, *params),
        is_packed(packing_of(outer@, outer_bits(*params)), outer@, outer_bits(*params)),
        28672 <= outer@.len() * outer_bits(*params),
{
    proof {
        lemma_outer_bits(*params);
        lemma_answer_fits(*params);
        assert(outer@.len() <= 16 * 4096) by (nonlinear_arith)
            requires
                outer@.len() == params.rho_value() * params.poly_len,
                params.rho_value() <= 16,
                params.poly_len <= 4096,
        ;
    }
    let pt_bits: usize = log2_floor(params.pt_modulus);
    assert(outer@.len() * pt_bits <= 0x1_0000 * 32) by (nonlinear_arith)
        requires
            outer@.len() <= 0x1_0000,
            pt_bits <= 32,
    ;
    let bytes: Vec<u8> = u64s_to_contiguous_bytes(outer.as_slice(), pt_bits);
    proof {
        lemma_packed_unique(
            bytes@,
            packing_of(outer@, pt_bits as nat),
            outer@,
            pt_bits as nat,
        );
    }
    let mut ct: Vec<u32> = Vec::new();
    let mut z: usize = 0;
    let mut bit_offs: usize = 0;
    while z < 1024
        invariant
            z <= 1024,
            bit_offs == z * 28,
            pt_bits == outer_bits(*params),
            bytes@ == packing_of(outer@, pt_bits as nat),
            28672 <= 8 * bytes@.len(),
            ct@.len() == z,
            forall|k: int|
                0 <= k < z ==> #[trigger] ct@[k] == inner_ciphertext(outer@, *params)[k],
        decreases 1024 - z,
    {
        let val: u64 = read_bits(bytes.as_slice(), bit_offs, 28);
        assert(val == held_number(outer@, *params, z as int));
        let up: u64 = rescale(in_range(val), LWE_Q_PRIME, 0x1_0000_0000);
        ct.push(up as u32);
        bit_offs = bit_offs + 28;
        z = z + 1;
    }
    let start: usize = (28672 + pt_bits - 1) / pt_bits;
    let count: usize = (28 + pt_bits - 1) / pt_bits;
    assert(count * pt_bits <= 28 + pt_bits - 1 && count <= 28) by (nonlinear_arith)
        requires
            count == (28 + pt_bits - 1) / pt_bits as int,
            1 <= pt_bits <= 32,
    ;
    let mut val: u64 = 0;
    let mut i: usize = 0;
    while i < count
        invariant
            i <= count,
            count <= 28,
            1 <= pt_bits <= 32,
            count * pt_bits <= 28 + pt_bits - 1,
            start + count <= outer@.len(),
            outer@.len() <= 0x1_0000,
            val == joined(outer@, start as int, pt_bits as int, i as int),
        decreases count - i,
    {
        assert(i * pt_bits + pt_bits <= count * pt_bits && 0 <= i * pt_bits) by (nonlinear_arith)
            requires
                0 <= i,
                i + 1 <= count,
                1 <= pt_bits,
        ;
        let shift: u64 = (i * pt_bits) as u64;
        val = val | (outer[start + i] << shift);
        i = i + 1;
    }
    assert(val == held_number(outer@, *params, 1024));
    let up: u64 = rescale(in_range(val), LWE_Q_PRIME, 0x1_0000_0000);
    ct.push(up as u32);
    assert(ct@ =~= inner_ciphertext(outer@, *params));
    ct
}

/// Decodes the outer elements of an answer under the key of the inner layer.
pub fn decode_outer(params: &Params, lwe_client: &LWEClient, outer: &Vec<u64>) -> (r: u64)
    requires
        params.wf(),
        lwe_client.wf(),
        outer@.len() == params.rho_value() * params.poly_len,
        forall|i: int| 0 <= i < outer@.len() ==> #[trigger] outer@[i] < params.pt_modulus,
    ensures
        r == inner_answer(outer@, *params, lwe_client.sk@),
        r < 256,
        forall|c: Seq<u64>, m: int, e: int|
            #[trigger] outer_holds(outer@, *params, c) && 0 <= m < 256 && -0x80_0000 < e
                < 0x80_0000 && #[trigger] holds_scaled(
                scaled_up(c),
                lwe_client.sk@,
                m,
                e,
            ) ==> r == m,
{
    let ct: Vec<u32> = read_inner(params, outer);
    proof {
        assert forall|c: Seq<u64>, m: int, e: int|
            #[trigger] outer_holds(outer@, *params, c) && 0 <= m < 256 && -0x80_0000 < e
                < 0x80_0000 && #[trigger] holds_scaled(
                scaled_up(c),
                lwe_client.sk@,
                m,
                e,
            ) implies inner_answer(outer@, *params, lwe_client.sk@) == m by {
            inner_numbers_read_back(outer@, *params, c);
            inner_plaintext_decodes(outer@, *params, lwe_client.sk@, m, e);
        }
    }
    let decrypted: u32 = lwe_client.decrypt(ct.as_slice());
    rescale(decrypted as u64, 0x1_0000_0000, 256)
}

/// The ciphertext `ct` of the inner layer holds `m`, scaled up, with the noise
/// `e`, to the holder of the key `sk`.
pub open spec fn holds_scaled(ct: Seq<u32>, sk: Seq<u32>, m: int, e: int) -> bool {
    (key_product(ct, 1, 0, sk, 1024) + ct[1024]) % 0x1_0000_0000 == (m * 0x100_0000 + e)
        % 0x1_0000_0000
}

/// The two-level scheme gives back its plaintext: where the inner ciphertext
/// holds `m`, scaled up, with noise below half a step, the outer elements decode
/// to `m`.
pub proof fn inner_plaintext_decodes(
    outer: Seq<u64>,
    params: Params,
    sk: Seq<u32>,
    m: int,
    e: int,
)
    requires
        0 <= m < 256,
        -0x80_0000 < e < 0x80_0000,
        holds_scaled(inner_ciphertext(outer, params), sk, m, e),
    ensures
        inner_answer(outer, params, sk) == m,
{
    let ct = inner_ciphertext(outer, params);
    let a = (key_product(ct, 1, 0, sk, 1024) + ct[1024]) % two_32();
    vstd::arithmetic::div_mod::lemma_mod_twice(m * 0x100_0000 + e, two_32());
    noise_inside_window_decodes(a, m, e, 0x1_0000_0000, 256);
}

/// The bytes of an answer of the two-level scheme.
pub open spec fn double_answer_len(params: Params) -> int {
    params.rho_value() * wire_len(params)
}

/// `outer` is what the ciphertexts of an answer of the two-level scheme decode
/// to.
pub open spec fn decodes_to_outer(
    outer: Seq<u64>,
    data: Seq<u8>,
    params: Params,
    key: Seq<u64>,
) -> bool {
    decodes_to(outer, data, params.rho_value() as int, params, key)
}

/// `v` is what an answer of the two-level scheme decodes to under the keys of
/// the two layers.
pub open spec fn is_double_answer(
    v: u64,
    data: Seq<u8>,
    params: Params,
    key: Seq<u64>,
    lwe_key: Seq<u32>,
) -> bool {
    exists|outer: Seq<u64>|
        #[trigger] decodes_to_outer(outer, data, params, key) && v == inner_answer(
            outer,
            params,
            lwe_key,
        )
}

impl YPIRClient {
    /// Decodes an answer of the two-level scheme into the element that the
    /// query asked for. Any answer of the right length decodes to something,
    /// whatever it holds and whatever the keys are.
    pub fn decode_response_normal(&self, client_seed: Seed, response_data: &[u8]) -> (r: u64)
        requires
            self.wf(),
            response_data@.len() == double_answer_len(self.params),
        ensures
            is_double_answer(
                r,
                response_data@,
                self.params,
                self.key(client_seed),
                self.lwe_key(client_seed),
            ),
            r < 256,
            forall|outer: Seq<u64>, m: int, e: int|
                #[trigger] decodes_to_outer(
                    outer,
                    response_data@,
                    self.params,
                    self.key(client_seed),
                ) && 0 <= m < 256 && -0x80_0000 < e < 0x80_0000 && #[trigger] holds_scaled(
                    inner_ciphertext(outer, self.params),
                    self.lwe_key(client_seed),
                    m,
                    e,
                ) ==> r == m,
            forall|outer: Seq<u64>, c: Seq<u64>, m: int, e: int|
                #[trigger] is_right_answer(
                    response_data@,
                    self.params.rho_value() as int,
                    self.params,
                    self.key(client_seed),
                    outer,
                ) && #[trigger] outer_holds(outer, self.params, c) && 0 <= m < 256 && -0x80_0000 < e
                    < 0x80_0000 && #[trigger] holds_scaled(
                    scaled_up(c),
                    self.lwe_key(client_seed),
                    m,
                    e,
                ) ==> r == m,
    {
        let client: Client = Client {
            params: &self.params,
            table: copy_table(&self.tables.ring),
            seed: client_seed,
        };
        let outer: Vec<u64> = decode_cts(&self.params, &client, response_data, self.params.rho());
        assert(decodes_to_outer(outer@, response_data@, self.params, self.key(client_seed)));
        let lwe_client: LWEClient = LWEClient::with_table(
            LWEParams::default(),
            copy_table(&self.tables.lwe),
            client_seed,
        );
        proof {
            assert forall|other: Seq<u64>, m: int, e: int|
                #[trigger] decodes_to_outer(
                    other,
                    response_data@,
                    self.params,
                    self.key(client_seed),
                ) && 0 <= m < 256 && -0x80_0000 < e < 0x80_0000 && #[trigger] holds_scaled(
                    inner_ciphertext(other, self.params),
                    self.lwe_key(client_seed),
                    m,
                    e,
                ) implies inner_answer(outer@, self.params, self.lwe_key(client_seed)) == m by {
                decoding_is_deterministic(
                    outer@,
                    other,
                    response_data@,
                    self.params.rho_value() as int,
                    self.params,
                    self.key(client_seed),
                );
                inner_plaintext_decodes(
                    other,
                    self.params,
                    self.lwe_key(client_seed),
                    m,
                    e,
                );
            }
        }
        proof {
            let (rho, key) = (self.params.rho_value() as int, self.key(client_seed));
            assert forall|other: Seq<u64>|
                #[trigger] is_right_answer(
                    response_data@,
                    rho,
                    self.params,
                    key,
                    other,
                ) implies other == outer@ by {
                right_answer_decodes(outer@, response_data@, rho, self.params, key, other);
            }
        }
        decode_outer(&self.params, &lwe_client, &outer)
    }

    /// Decodes an answer of the two-level scheme, unless it has the wrong
    /// length. Whether it does depends on the length alone, not on the keys.
    pub fn try_decode_response_normal(&self, client_seed: Seed, response_data: &[u8]) -> (r: Option<
        u64,
    >)
        requires
            self.wf(),
        ensures
            r is Some <==> response_data@.len() == double_answer_len(self.params),
            r matches Some(v) ==> is_double_answer(
                v,
                response_data@,
                self.params,
                self.key(client_seed),
                self.lwe_key(client_seed),
            ),
            r matches Some(v) ==> v < 256,
            r matches Some(v) ==> forall|outer: Seq<u64>, m: int, e: int|
                #[trigger] decodes_to_outer(
                    outer,
                    response_data@,
                    self.params,
                    self.key(client_seed),
                ) && 0 <= m < 256 && -0x80_0000 < e < 0x80_0000 && #[trigger] holds_scaled(
                    inner_ciphertext(outer, self.params),
                    self.lwe_key(client_seed),
                    m,
                    e,
                ) ==> v == m,
            r matches Some(v) ==> forall|outer: Seq<u64>, c: Seq<u64>, m: int, e: int|
                #[trigger] is_right_answer(
                    response_data@,
                    self.params.rho_value() as int,
                    self.params,
                    self.key(client_seed),
                    outer,
                ) && #[trigger] outer_holds(outer, self.params, c) && 0 <= m < 256 && -0x80_0000 < e
                    < 0x80_0000 && #[trigger] holds_scaled(
                    scaled_up(c),
                    self.lwe_key(client_seed),
                    m,
                    e,
                ) ==> v == m,
    {
        let rho: usize = self.params.rho();
        proof {
            lemma_switchable(self.params);
        }
        let per_ct: usize = expected_ct_byte_len(
            &self.params,
            self.params.get_q_prime_1(),
            self.params.get_q_prime_2(),
        );
        let total: usize = response_data.len();
        proof {
            lemma_answer_fits(self.params);
            vstd::arithmetic::power2::lemma_pow2_pos(
                ceil_log2(
                    div_ceil(28700, outer_bits(self.params) * self.params.poly_len),
                ),
            );
            vstd::arithmetic::div_mod::lemma_fundamental_div_mod(total as int, rho as int);
            vstd::arithmetic::div_mod::lemma_div_multiples_vanish(per_ct as int, rho as int);
            vstd::arithmetic::div_mod::lemma_mod_multiples_basic(per_ct as int, rho as int);
            assert(rho * per_ct == per_ct * rho) by (nonlinear_arith);
        }
        if total % rho != 0 || total / rho != per_ct {
            return None;
        }
        Some(self.decode_response_normal(client_seed, response_data))
    }
}

} // verus!
