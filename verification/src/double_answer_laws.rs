//! What answers of the two-level scheme mean to the holder of both keys.
use crate::answer_laws::{is_right_answer, magnitude, right_answer_decodes};
use crate::arith::{centered, floor_log2, lemma_rescale_round_trip, rescaled, step_error};
use crate::bits::{bit, field, is_packed};
use crate::double_answer::{
    decodes_to_outer, held_number, holds_scaled, inner_answer, inner_ciphertext,
    inner_plaintext_decodes, is_double_answer, joined, last_count, last_start, outer_bits,
    packing_of, LWE_Q_PRIME,
};
use crate::lwe::key_product;
use crate::params::{div_ceil, GetRho, Params};
use vstd::arithmetic::div_mod::{lemma_fundamental_div_mod, lemma_fundamental_div_mod_converse};
use vstd::arithmetic::power2::{lemma_pow2_pos, lemma_pow2_unfold, pow2};
use vstd::prelude::*;

verus! {

/// Bit `t` of numbers of `width` bits each, one after the other.
pub open spec fn stream_bit(v: Seq<u64>, width: int, t: int) -> int {
    (v[t / width] as int / pow2((t % width) as nat) as int) % 2
}

/// The number whose first `k` digits of `bits` bits each are the elements from
/// `start` on, the lowest one first.
pub open spec fn base_value(v: Seq<u64>, start: int, bits: int, k: int) -> int
    decreases k,
{
    if k <= 0 {
        0
    } else {
        base_value(v, start, bits, k - 1) + v[start + k - 1] * pow2(((k - 1) * bits) as nat)
    }
}

/// The elements `outer` hold the numbers `c` of a ciphertext of the inner layer,
/// 28 bits each. An element holds as many bits as are sure to fit. The first
/// 1024 numbers stand bit by bit without gaps, and the last one starts with the
/// first element behind them, by digits.
pub open spec fn outer_holds(outer: Seq<u64>, params: Params, c: Seq<u64>) -> bool {
    let bits = floor_log2(params.pt_modulus as int) as int;
    let start = div_ceil(28672, bits);
    let count = div_ceil(28, bits);
    &&& c.len() == 1025
    &&& forall|z: int| 0 <= z < 1025 ==> #[trigger] c[z] < LWE_Q_PRIME
    &&& forall|t: int|
        0 <= t < 28672 ==> #[trigger] stream_bit(c, 28, t) == stream_bit(outer, bits, t)
    &&& forall|i: int| start <= i < start + count ==> #[trigger] outer[i] < pow2(bits as nat)
    &&& c[1024] == base_value(outer, start, bits, count)
}

/// The ciphertext of the inner layer that the numbers `c` are, scaled up.
pub open spec fn scaled_up(c: Seq<u64>) -> Seq<u32> {
    Seq::new(1025, |z: int| rescaled(c[z] as int, LWE_Q_PRIME as int, 0x1_0000_0000) as u32)
}

/// Bit `j + 1` of a number is bit `j` of its half.
proof fn lemma_next_bit(x: int, j: nat)
    requires
        0 <= x,
    ensures
        x / pow2(j + 1) as int == (x / 2) / pow2(j) as int,
{
    lemma_pow2_unfold(j + 1);
    lemma_pow2_pos(j);
    vstd::arithmetic::div_mod::lemma_div_denominator(x, 2, pow2(j) as int);
}

/// A residue of a power of two, by the lowest bit and the half.
proof fn lemma_low_bit(x: int, num: nat)
    requires
        0 <= x,
        num > 0,
    ensures
        x % pow2(num) as int == x % 2 + 2 * ((x / 2) % pow2((num - 1) as nat) as int),
{
    let p = pow2((num - 1) as nat) as int;
    lemma_pow2_unfold(num);
    lemma_pow2_pos((num - 1) as nat);
    let h = x / 2;
    lemma_fundamental_div_mod(h, p);
    let (d, m) = (h / p, h % p);
    assert(x == d * (2 * p) + (x % 2 + 2 * m)) by (nonlinear_arith)
        requires
            x == 2 * h + x % 2,
            h == p * d + m,
    ;
    lemma_fundamental_div_mod_converse(x, 2 * p, d, x % 2 + 2 * m);
}

/// The bits of a field are those of its number.
proof fn lemma_field_to_bits(d: Seq<u8>, off: int, num: nat, x: int, j: nat)
    requires
        0 <= x,
        field(d, off, num) == x % pow2(num) as int,
        j < num,
    ensures
        bit(d, off + j) == (x / pow2(j) as int) % 2,
    decreases num,
{
    lemma_low_bit(x, num);
    vstd::arithmetic::power2::lemma2_to64();
    let b = bit(d, off);
    assert(b == 0 || b == 1);
    if j == 0 {
        assert(x / 1 == x);
    } else {
        lemma_field_to_bits(d, off + 1, (num - 1) as nat, x / 2, (j - 1) as nat);
        lemma_next_bit(x, (j - 1) as nat);
    }
}

/// A field with the bits of a number is its residue.
proof fn lemma_bits_to_field(d: Seq<u8>, off: int, num: nat, x: int)
    requires
        0 <= x,
        forall|j: int|
            0 <= j < num ==> #[trigger] bit(d, off + j) == (x / pow2(j as nat) as int) % 2,
    ensures
        field(d, off, num) == x % pow2(num) as int,
    decreases num,
{
    vstd::arithmetic::power2::lemma2_to64();
    if num > 0 {
        assert(bit(d, off + 0) == (x / pow2(0) as int) % 2);
        assert(x / 1 == x);
        assert forall|j: int| 0 <= j < num - 1 implies #[trigger] bit(d, off + 1 + j) == ((x / 2)
            / pow2(j as nat) as int) % 2 by {
            assert(bit(d, off + (j + 1)) == (x / pow2((j + 1) as nat) as int) % 2);
            lemma_next_bit(x, j as nat);
        }
        lemma_bits_to_field(d, off + 1, (num - 1) as nat, x / 2);
        lemma_low_bit(x, num);
    }
}

/// Elements that are joined bit by bit are the digits of a number.
proof fn lemma_joined(outer: Seq<u64>, start: int, bits: int, k: int)
    requires
        0 <= k,
        1 <= bits,
        k * bits <= 64,
        forall|i: int| start <= i < start + k ==> #[trigger] outer[i] < pow2(bits as nat),
    ensures
        joined(outer, start, bits, k) == base_value(outer, start, bits, k),
        joined(outer, start, bits, k) < pow2((k * bits) as nat),
    decreases k,
{
    vstd::arithmetic::power2::lemma2_to64();
    if k <= 0 {
        assert(0 * bits == 0);
    } else {
        let s = (k - 1) * bits;
        assert(s + bits == k * bits && 0 <= s) by (nonlinear_arith)
            requires
                s == (k - 1) * bits,
                k >= 1,
                bits >= 1,
        ;
        lemma_joined(outer, start, bits, k - 1);
        let x = joined(outer, start, bits, k - 1);
        let y = outer[start + k - 1];
        let (p, r) = (pow2(s as nat) as int, pow2(bits as nat) as int);
        vstd::arithmetic::power2::lemma_pow2_adds(s as nat, bits as nat);
        lemma_pow2_pos(s as nat);
        assert(y < r);
        assert(y * p + p <= p * r) by (nonlinear_arith)
            requires
                y + 1 <= r,
                p >= 1,
        ;
        lemma_pow2_unfold(bits as nat);
        lemma_pow2_pos((bits - 1) as nat);
        assert(p * 2 <= p * r) by (nonlinear_arith)
            requires
                2 <= r,
                p >= 1,
        ;
        crate::arith::lemma_pow2_monotone((k * bits) as nat, 64);
        assert(pow2(64) == 0x1_0000_0000_0000_0000);
        let w = s as u64;
        vstd::bits::lemma_u64_shl_is_mul(y, w);
        vstd::bits::lemma_u64_shl_is_mul(1, w);
        assert((x | (y << w)) == x + (y << w)) by (bit_vector)
            requires
                x < (1u64 << w),
                w < 64,
        ;
    }
}

/// The numbers are read back: where the elements hold the numbers `c`, the
/// ciphertext that is read out of them is `c`, scaled up.
pub proof fn inner_numbers_read_back(outer: Seq<u64>, params: Params, c: Seq<u64>)
    requires
        params.wf(),
        28672 <= outer.len() * outer_bits(params),
        is_packed(packing_of(outer, outer_bits(params)), outer, outer_bits(params)),
        outer_holds(outer, params, c),
    ensures
        inner_ciphertext(outer, params) == scaled_up(c),
{
    crate::double_answer::lemma_outer_bits(params);
    let b = outer_bits(params) as int;
    let d = packing_of(outer, b as nat);
    vstd::arithmetic::power2::lemma2_to64();
    assert forall|z: int| 0 <= z < 1025 implies held_number(outer, params, z) == #[trigger] c[z] by {
        if z < 1024 {
            let x = c[z] as int;
            assert forall|j: int| 0 <= j < 28 implies #[trigger] bit(d, z * 28 + j) == (x / pow2(
                j as nat,
            ) as int) % 2 by {
                let t = z * 28 + j;
                assert(t / 28 == z && t % 28 == j);
                assert(stream_bit(c, 28, t) == stream_bit(outer, b, t));
                lemma_fundamental_div_mod(t, b);
                let (i, k) = (t / b, t % b);
                assert(b * i == i * b) by (nonlinear_arith);
                assert(0 <= i < outer.len()) by (nonlinear_arith)
                    requires
                        t == b * i + k,
                        0 <= k < b,
                        0 <= t < 28672,
                        28672 <= outer.len() * b,
                ;
                assert(field(d, i * b, b as nat) == outer[i] as int % pow2(b as nat) as int);
                lemma_field_to_bits(d, i * b, b as nat, outer[i] as int, k as nat);
            }
            lemma_bits_to_field(d, z * 28, 28, x);
            assert(pow2(28) == 0x1000_0000);
            vstd::arithmetic::div_mod::lemma_small_mod(x as nat, pow2(28));
        } else {
            let count = last_count(params);
            assert(count * b <= 28 + b - 1 && 0 <= count) by (nonlinear_arith)
                requires
                    count == (28 + b - 1) / b,
                    b >= 1,
            ;
            lemma_joined(outer, last_start(params), b, count);
        }
    }
    assert(inner_ciphertext(outer, params) =~= scaled_up(c));
}

/// The sizes of the first `k` elements of a key of the inner layer, added up.
pub open spec fn lwe_weight(sk: Seq<u32>, k: int) -> int
    decreases k,
{
    if k <= 0 {
        0
    } else {
        lwe_weight(sk, k - 1) + magnitude(centered(sk[k - 1] as int, 0x1_0000_0000))
    }
}

/// A word that was scaled down and up again moved by at most eight, up to a
/// multiple of two to the 32nd. Gives the number and the multiple.
proof fn lemma_word_moved(a: int) -> (r: (int, int))
    ensures
        -8 <= r.0 <= 8,
        rescaled(rescaled(a, 0x1_0000_0000, LWE_Q_PRIME as int), LWE_Q_PRIME as int, 0x1_0000_0000)
            == a + r.0 + 0x1_0000_0000 * r.1,
{
    let (q, s) = (0x1_0000_0000int, LWE_Q_PRIME as int);
    lemma_rescale_round_trip(a, q, s);
    let d = rescaled(rescaled(a, q, s), s, q);
    let t = choose|t: int| #[trigger] step_error(a, d, q, s, t) <= q + s && step_error(
        a,
        d,
        q,
        s,
        t,
    ) >= -(q + s);
    let x = d - a + t * q;
    assert(step_error(a, d, q, s, t) == 2 * s * x);
    (x, -t)
}

/// The product of a key with words that were scaled down and up again moved by at
/// most eight times the weight of the key. Gives the number and the multiple.
proof fn lemma_key_product_moved(ct: Seq<u32>, up: Seq<u32>, sk: Seq<u32>, k: int) -> (r: (
    int,
    int,
))
    requires
        0 <= k <= 1024,
        forall|z: int|
            0 <= z < 1025 ==> #[trigger] up[z] == rescaled(
                rescaled(ct[z] as int, 0x1_0000_0000, LWE_Q_PRIME as int),
                LWE_Q_PRIME as int,
                0x1_0000_0000,
            ),
    ensures
        magnitude(r.0) <= 8 * lwe_weight(sk, k),
        key_product(up, 1, 0, sk, k) == key_product(ct, 1, 0, sk, k) + r.0 + 0x1_0000_0000 * r.1,
    decreases k,
{
    if k <= 0 {
        (0, 0)
    } else {
        let i = k - 1;
        let (e, t) = lemma_key_product_moved(ct, up, sk, i);
        assert(i * 1 + 0 == i);
        let (delta, u) = lemma_word_moved(ct[i] as int);
        let (x, y) = (ct[i] as int, up[i] as int);
        let v = sk[i] as int;
        let q = 0x1_0000_0000int;
        let sigma = centered(v, q);
        lemma_fundamental_div_mod(v, q);
        let tau: int = if sigma == v {
            0
        } else {
            1
        };
        assert(v == sigma + q * tau);
        assert(y * v == x * v + sigma * delta + q * (tau * delta + v * u)) by (nonlinear_arith)
            requires
                y == x + delta + q * u,
                v == sigma + q * tau,
        ;
        assert(magnitude(sigma * delta) <= 8 * magnitude(sigma)) by (nonlinear_arith)
            requires
                -8 <= delta <= 8,
                magnitude(sigma) == sigma || magnitude(sigma) == -sigma,
                magnitude(sigma) >= 0,
                magnitude(sigma * delta) == sigma * delta || magnitude(sigma * delta) == -(sigma
                    * delta),
        ;
        (e + sigma * delta, t + tau * delta + v * u)
    }
}

/// A ciphertext of the inner layer survives the switch of its modulus: where `ct`
/// holds `m`, scaled up, with the noise `e`, and the noise leaves room for the
/// rounding, which the key multiplies, the numbers that `ct` is scaled down to
/// hold `m` too, with noise below half a step. Gives the noise.
pub proof fn switched_numbers_hold(ct: Seq<u32>, c: Seq<u64>, sk: Seq<u32>, m: int, e: int) -> (r:
    int)
    requires
        holds_scaled(ct, sk, m, e),
        forall|z: int|
            0 <= z < 1025 ==> #[trigger] c[z] == rescaled(
                ct[z] as int,
                0x1_0000_0000,
                LWE_Q_PRIME as int,
            ),
        magnitude(e) + 8 * lwe_weight(sk, 1024) + 8 < 0x80_0000,
    ensures
        -0x80_0000 < r < 0x80_0000,
        holds_scaled(scaled_up(c), sk, m, r),
{
    let up = scaled_up(c);
    let q = 0x1_0000_0000int;
    assert forall|z: int| 0 <= z < 1025 implies #[trigger] up[z] == rescaled(
        rescaled(ct[z] as int, q, LWE_Q_PRIME as int),
        LWE_Q_PRIME as int,
        q,
    ) by {
        assert(c[z] == rescaled(ct[z] as int, q, LWE_Q_PRIME as int));
    }
    let (f, t) = lemma_key_product_moved(ct, up, sk, 1024);
    let (g, u) = lemma_word_moved(ct[1024] as int);
    assert(up[1024] == ct[1024] + g + q * u);
    let x = key_product(ct, 1, 0, sk, 1024) + ct[1024];
    let y = key_product(up, 1, 0, sk, 1024) + up[1024];
    let r = e + f + g;
    lemma_fundamental_div_mod(x, q);
    lemma_fundamental_div_mod(m * 0x100_0000 + e, q);
    let k = x / q - (m * 0x100_0000 + e) / q + t + u;
    assert(y == q * k + (m * 0x100_0000 + r));
    vstd::arithmetic::div_mod::lemma_mod_multiples_vanish(k, m * 0x100_0000 + r, q);
    r
}

/// An answer of the two-level scheme gives back its plaintext: where it is a right
/// answer whose elements hold the numbers `c`, and `c` holds `m`, scaled up, with
/// noise below half a step, it decodes to `m`.
pub proof fn double_answer_decodes(
    v: u64,
    data: Seq<u8>,
    params: Params,
    key: Seq<u64>,
    lwe_key: Seq<u32>,
    outer: Seq<u64>,
    packing: Seq<u8>,
    c: Seq<u64>,
    m: int,
    e: int,
)
    requires
        params.wf(),
        is_double_answer(v, data, params, key, lwe_key),
        is_right_answer(data, params.rho_value() as int, params, key, outer),
        is_packed(packing, outer, floor_log2(params.pt_modulus as int)),
        outer_holds(outer, params, c),
        holds_scaled(scaled_up(c), lwe_key, m, e),
        0 <= m < 256,
        -0x80_0000 < e < 0x80_0000,
    ensures
        v == m,
{
    let seen = choose|seen: Seq<u64>|
        #[trigger] decodes_to_outer(seen, data, params, key) && v == inner_answer(
            seen,
            params,
            lwe_key,
        );
    right_answer_decodes(seen, data, params.rho_value() as int, params, key, outer);
    crate::double_answer::lemma_answer_fits(params);
    inner_numbers_read_back(outer, params, c);
    inner_plaintext_decodes(outer, params, lwe_key, m, e);
}

} // verus!
