//! What answers mean to the holder of the secret key.
use crate::arith::{
    ceil_log2, centered, lemma_ceil_log2, noise_inside_window_decodes, step_error, within_half_step,
};
use crate::bits::{field, is_packed};
use crate::client::{decrypted, plaintext};
use crate::modulus_switch::{
    ct_byte_len, is_recovered, is_switched, recovered_0, recovered_1, switch_then_recover,
};
use crate::params::{GetQPrime, MODULUS, Params, PtModulusBits};
use crate::pir_client::{
    decoded_ct, decodes_to, is_row_bytes, lemma_switchable, wire_len, wire_row_0, wire_row_1,
};
use crate::poly::{chunk, lemma_chunk_inside};
use crate::ring::{conv_sum, residue};
use vstd::arithmetic::div_mod::{lemma_fundamental_div_mod, lemma_mod_multiples_vanish};
use vstd::arithmetic::power2::pow2;
use vstd::prelude::*;

verus! {

/// The size of a number.
pub open spec fn magnitude(x: int) -> int {
    if x >= 0 {
        x
    } else {
        -x
    }
}

/// The sizes of the first `k` coefficients of a key, added up.
pub open spec fn key_weight(s: Seq<u64>, k: int) -> int
    decreases k,
{
    if k <= 0 {
        0
    } else {
        key_weight(s, k - 1) + magnitude(centered(s[k - 1] as int, MODULUS as int))
    }
}

/// How far a coefficient can move when it is scaled down to `small_q` and up
/// again.
pub open spec fn rounding(small_q: u64) -> int {
    (MODULUS + small_q) / (2 * small_q as int)
}

/// The noise of a coefficient after the switch is inside the window of a
/// plaintext: its own noise, the rounding of the first row, which the key
/// multiplies, and the rounding of the second row.
pub open spec fn leaves_room(params: Params, s: Seq<u64>, e: int) -> bool {
    let p = params.pt_modulus as int;
    2 * p * (p + magnitude(e) + key_weight(s, params.poly_len as int) * rounding(params.q_prime_2())
        + rounding(params.q_prime_1())) < MODULUS
}

/// A coefficient that moved by at most half a step moved by a bounded number,
/// up to a multiple of the modulus. Gives the number and the multiple.
proof fn lemma_moved(a: int, d: int, small_q: u64) -> (r: (int, int))
    requires
        small_q > 0,
        within_half_step(a, d, MODULUS as int, small_q as int),
    ensures
        d == a + r.0 + MODULUS * r.1,
        magnitude(r.0) <= rounding(small_q),
{
    let q = MODULUS as int;
    let s = small_q as int;
    let t = choose|t: int| #[trigger] step_error(a, d, q, s, t) <= q + s && step_error(a, d, q, s, t)
        >= -(q + s);
    let x = d - a + t * q;
    assert(step_error(a, d, q, s, t) == 2 * s * x);
    lemma_fundamental_div_mod(q + s, 2 * s);
    let b = (q + s) / (2 * s);
    assert(-b <= x <= b) by (nonlinear_arith)
        requires
            -(q + s) <= 2 * s * x <= q + s,
            q + s == (2 * s) * b + (q + s) % (2 * s),
            0 <= (q + s) % (2 * s) < 2 * s,
            s > 0,
    ;
    assert(d == a + x + q * (-t)) by (nonlinear_arith)
        requires
            x == d - a + t * q,
    ;
    (x, -t)
}

/// A residue is its centred form, up to a multiple of the modulus.
proof fn lemma_centered(v: int) -> (t: int)
    ensures
        v == centered(v, MODULUS as int) + MODULUS * t,
{
    let q = MODULUS as int;
    lemma_fundamental_div_mod(v, q);
    if v % q >= q / 2 {
        assert(q * (v / q + 1) == q * (v / q) + q) by (nonlinear_arith);
        v / q + 1
    } else {
        v / q
    }
}

/// A key coefficient times a coefficient that moved.
proof fn lemma_moved_term(
    s: int,
    sigma: int,
    tau: int,
    x: int,
    y: int,
    delta: int,
    t: int,
    q: int,
    bound: int,
)
    requires
        s == sigma + q * tau,
        y == x + delta + q * t,
        magnitude(delta) <= bound,
    ensures
        s * y == s * x + sigma * delta + q * (tau * delta + s * t),
        magnitude(sigma * delta) <= magnitude(sigma) * bound,
{
    assert(s * y == s * x + s * delta + q * (s * t)) by (nonlinear_arith)
        requires
            y == x + delta + q * t,
    ;
    assert(s * delta == sigma * delta + q * (tau * delta)) by (nonlinear_arith)
        requires
            s == sigma + q * tau,
    ;
    assert(q * (tau * delta + s * t) == q * (tau * delta) + q * (s * t)) by (nonlinear_arith);
    assert(magnitude(sigma * delta) <= magnitude(sigma) * bound) by (nonlinear_arith)
        requires
            magnitude(delta) <= bound,
            magnitude(delta) == delta || magnitude(delta) == -delta,
            magnitude(delta) >= 0,
            magnitude(sigma) == sigma || magnitude(sigma) == -sigma,
            magnitude(sigma) >= 0,
            magnitude(sigma * delta) == sigma * delta || magnitude(sigma * delta) == -(sigma
                * delta),
    ;
}

/// The product of a key with a moved ring element moves by at most the weight
/// of the key times the largest move, up to a multiple of the modulus. Gives the
/// number and the multiple for the first `k` terms.
proof fn lemma_moved_product(
    s: Seq<u64>,
    a: Seq<u64>,
    d: Seq<u64>,
    small_q: u64,
    n: int,
    z: int,
    k: int,
) -> (r: (int, int))
    requires
        small_q > 0,
        0 <= k <= n,
        0 <= z < n,
        forall|i: int|
            0 <= i < n ==> within_half_step(
                #[trigger] a[i] as int,
                d[i] as int,
                MODULUS as int,
                small_q as int,
            ),
    ensures
        conv_sum(s, d, n, z, k) == conv_sum(s, a, n, z, k) + r.0 + MODULUS * r.1,
        magnitude(r.0) <= key_weight(s, k) * rounding(small_q),
    decreases k,
{
    let q = MODULUS as int;
    let bound = rounding(small_q);
    if k <= 0 {
        assert(0 * bound == 0 && q * 0 == 0);
        (0, 0)
    } else {
        let (e, t) = lemma_moved_product(s, a, d, small_q, n, z, k - 1);
        let i = k - 1;
        let at = if i <= z {
            z - i
        } else {
            n + z - i
        };
        assert(within_half_step(a[at] as int, d[at] as int, q, small_q as int));
        let (delta, u) = lemma_moved(a[at] as int, d[at] as int, small_q);
        let v = s[i] as int;
        let sigma = centered(v, q);
        let tau = lemma_centered(v);
        lemma_moved_term(v, sigma, tau, a[at] as int, d[at] as int, delta, u, q, bound);
        let w = tau * delta + v * u;
        assert(key_weight(s, k) * bound == key_weight(s, i) * bound + magnitude(sigma) * bound)
            by (nonlinear_arith)
            requires
                key_weight(s, k) == key_weight(s, i) + magnitude(sigma),
        ;
        assert(q * (t + w) == q * t + q * w && q * (t - w) == q * t - q * w) by (nonlinear_arith);
        if i <= z {
            (e + sigma * delta, t + w)
        } else {
            (e - sigma * delta, t - w)
        }
    }
}

/// An answer gives back what was put into it. Where the decrypted form of a
/// ciphertext holds the plaintexts `m`, scaled up, with noise `e`, and the noise
/// leaves room for the rounding of the switch, the ciphertext scaled down and
/// packed into `bytes` decodes to `m`.
pub proof fn switched_answer_decodes(
    params: Params,
    key: Seq<u64>,
    row_0: Seq<u64>,
    row_1: Seq<u64>,
    bytes: Seq<u8>,
    m: Seq<u64>,
    e: Seq<int>,
)
    requires
        params.wf(),
        row_0.len() == params.poly_len,
        row_1.len() == params.poly_len,
        m.len() == params.poly_len,
        is_switched(bytes, row_0, row_1, MODULUS, params.q_prime_1(), params.q_prime_2()),
        forall|z: int| 0 <= z < m.len() ==> #[trigger] m[z] < params.pt_modulus,
        forall|z: int|
            0 <= z < m.len() ==> #[trigger] decrypted(
                key,
                row_0,
                row_1,
                params.poly_len as int,
            )[z] == residue(m[z] * (MODULUS as int / params.pt_modulus as int) + e[z]),
        forall|z: int|
            0 <= z < m.len() ==> leaves_room(
                params,
                key,
                #[trigger] e[z],
            ),
    ensures
        decoded_ct(bytes, params, key) == m,
{
    let n = params.poly_len as int;
    let p = params.pt_modulus as int;
    let q = MODULUS as int;
    let (q_1, q_2) = (params.q_prime_1(), params.q_prime_2());
    let s = key;
    lemma_switchable(params);
    let (d_0, d_1) = (wire_row_0(bytes, params), wire_row_1(bytes, params));
    let data = d_0 + d_1;
    assert(is_recovered(data, bytes, n, MODULUS, q_1, q_2)) by {
        assert forall|z: int| 0 <= z < n implies #[trigger] data[z] == recovered_0(
            bytes,
            z,
            MODULUS,
            q_2,
        ) by {
            assert(data[z] == d_0[z]);
        }
        assert forall|z: int| 0 <= z < n implies #[trigger] data[n + z] == recovered_1(
            bytes,
            n,
            z,
            MODULUS,
            q_1,
            q_2,
        ) by {
            assert(data[n + z] == d_1[z]);
        }
    }
    switch_then_recover(data, bytes, row_0, row_1, MODULUS, q_1, q_2);
    assert forall|i: int| 0 <= i < n implies within_half_step(
        #[trigger] row_0[i] as int,
        d_0[i] as int,
        q,
        q_2 as int,
    ) by {
        assert(data[i] == d_0[i]);
    }
    let dec = decrypted(s, d_0, d_1, n);
    let out = plaintext(dec, params);
    assert forall|z: int| 0 <= z < n implies out[z] == m[z] by {
        assert(decrypted(s, row_0, row_1, n)[z] == residue(m[z] * (q / p) + e[z]));
        assert(leaves_room(params, s, e[z]));
        let (f, t) = lemma_moved_product(s, row_0, d_0, q_2, n, z, n);
        assert(within_half_step(row_1[z] as int, data[n + z] as int, q, q_1 as int));
        assert(data[n + z] == d_1[z]);
        let (g, u) = lemma_moved(row_1[z] as int, d_1[z] as int, q_1);
        let x = conv_sum(s, row_0, n, z, n);
        let y = conv_sum(s, d_0, n, z, n);
        let noise = e[z] + f + g;
        let a = m[z] * (q / p) + e[z];
        // The decrypted coefficient, up to multiples of the modulus.
        lemma_fundamental_div_mod(x, q);
        lemma_fundamental_div_mod(y, q);
        lemma_fundamental_div_mod(x % q + row_1[z], q);
        lemma_fundamental_div_mod(y % q + d_1[z], q);
        lemma_fundamental_div_mod(a, q);
        let w = a / q;
        let k = t + u + x / q - y / q + (x % q + row_1[z]) / q - (y % q + d_1[z]) / q - w;
        assert(dec[z] == q * k + (a + f + g)) by (nonlinear_arith)
            requires
                y == x + f + q * t,
                d_1[z] == row_1[z] + g + q * u,
                x == q * (x / q) + x % q,
                y == q * (y / q) + y % q,
                x % q + row_1[z] == q * ((x % q + row_1[z]) / q) + (x % q + row_1[z]) % q,
                y % q + d_1[z] == q * ((y % q + d_1[z]) / q) + dec[z],
                (x % q + row_1[z]) % q == a % q,
                a == q * w + a % q,
                k == t + u + x / q - y / q + (x % q + row_1[z]) / q - (y % q + d_1[z]) / q - w,
        ;
        lemma_mod_multiples_vanish(k, a + f + g, q);
        let room = magnitude(e[z]) + key_weight(s, n) * rounding(q_2) + rounding(q_1);
        assert(-room <= noise <= room);
        assert(-q < 2 * (m[z] * (q % p) - noise * p) < q) by {
            assert(0 <= q % p < p);
            assert(0 <= m[z] * (q % p) <= p * p) by (nonlinear_arith)
                requires
                    0 <= m[z] < p,
                    0 <= q % p < p,
            ;
            assert(-(p * room) <= noise * p <= p * room) by (nonlinear_arith)
                requires
                    -room <= noise <= room,
                    p > 0,
            ;
            assert(2 * p * (p + room) == 2 * (p * p) + 2 * (p * room)) by (nonlinear_arith);
        }
        noise_inside_window_decodes(dec[z] as int, m[z] as int, noise, q, p);
    }
    assert(out =~= m);
}

/// A ciphertext holds the plaintexts `m`, scaled up, with the noise `e`, to the
/// holder of the key, and the noise leaves room for the rounding of the switch.
pub open spec fn holds_plaintexts(
    params: Params,
    key: Seq<u64>,
    row_0: Seq<u64>,
    row_1: Seq<u64>,
    m: Seq<u64>,
    e: Seq<int>,
) -> bool {
    let n = params.poly_len as int;
    &&& row_0.len() == n && row_1.len() == n && m.len() == n
    &&& forall|z: int|
        0 <= z < n ==> #[trigger] m[z] < params.pt_modulus && decrypted(key, row_0, row_1, n)[z]
            == residue(m[z] * (MODULUS as int / params.pt_modulus as int) + e[z]) && leaves_room(
            params,
            key,
            e[z],
        )
}

/// `bytes` is a right answer that holds the plaintexts `m`: a ciphertext of them,
/// scaled down and packed.
pub open spec fn is_right_ct(bytes: Seq<u8>, params: Params, key: Seq<u64>, m: Seq<u64>) -> bool {
    exists|row_0: Seq<u64>, row_1: Seq<u64>, e: Seq<int>|
        #[trigger] holds_plaintexts(params, key, row_0, row_1, m, e) && is_switched(
            bytes,
            row_0,
            row_1,
            MODULUS,
            params.q_prime_1(),
            params.q_prime_2(),
        )
}

/// `data` is a right answer of `count` ciphertexts that hold the plaintexts `m`,
/// one after the other.
pub open spec fn is_right_answer(
    data: Seq<u8>,
    count: int,
    params: Params,
    key: Seq<u64>,
    m: Seq<u64>,
) -> bool {
    let n = params.poly_len as int;
    let len = ct_byte_len(n, params.q_prime_1(), params.q_prime_2());
    &&& data.len() == count * len
    &&& m.len() == count * n
    &&& forall|k: int|
        0 <= k < count ==> #[trigger] is_right_ct(
            data.subrange(k * len, k * len + len),
            params,
            key,
            m.subrange(k * n, k * n + n),
        )
}

/// A right answer decodes to the plaintexts that it holds.
pub proof fn right_answer_decodes(
    r: Seq<u64>,
    data: Seq<u8>,
    count: int,
    params: Params,
    key: Seq<u64>,
    m: Seq<u64>,
)
    requires
        params.wf(),
        count >= 0,
        decodes_to(r, data, count, params, key),
        is_right_answer(data, count, params, key, m),
    ensures
        r == m,
{
    let n = params.poly_len as int;
    let len = wire_len(params);
    assert forall|i: int| 0 <= i < r.len() implies r[i] == m[i] by {
        let k = i / n;
        let z = i % n;
        lemma_fundamental_div_mod(i, n);
        assert(n * k == k * n) by (nonlinear_arith);
        assert(0 <= k < count) by (nonlinear_arith)
            requires
                i == n * k + z,
                0 <= z < n,
                0 <= i < count * n,
        ;
        lemma_chunk_inside(r.len() as int, n, count, k);
        lemma_chunk_inside(data.len() as int, len, count, k);
        assert((k + 1) * n == k * n + n && (k + 1) * len == k * len + len) by (nonlinear_arith);
        let part = m.subrange(k * n, k * n + n);
        let bytes = data.subrange(k * len, k * len + len);
        assert(is_right_ct(bytes, params, key, part));
        let (row_0, row_1, e) = choose|row_0: Seq<u64>, row_1: Seq<u64>, e: Seq<int>|
            #[trigger] holds_plaintexts(params, key, row_0, row_1, part, e) && is_switched(
                bytes,
                row_0,
                row_1,
                MODULUS,
                params.q_prime_1(),
                params.q_prime_2(),
            );
        let noise = Seq::new(n as nat, |x: int| e[x]);
        assert forall|x: int| 0 <= x < n implies leaves_room(params, key, #[trigger] noise[x]) by {
            assert(part[x] < params.pt_modulus);
        }
        switched_answer_decodes(params, key, row_0, row_1, bytes, part, noise);
        assert(chunk(r, n, k) == decoded_ct(chunk(data, len, k), params, key));
        assert(chunk(data, len, k) == bytes);
        assert(chunk(r, n, k)[z] == r[i]);
        assert(part[z] == m[i]);
    }
    assert(r =~= m);
}

/// `bytes` hold the numbers `m`, each in the next `bits` bits.
pub open spec fn bytes_hold(bytes: Seq<u8>, m: Seq<u64>, bits: nat) -> bool {
    &&& bytes.len() == (m.len() * bits + 7) / 8
    &&& forall|i: int| 0 <= i < m.len() ==> #[trigger] m[i] == field(bytes, i * bits, bits)
}

/// The bytes of a right answer hold the plaintexts, each in as many bits as a
/// plaintext takes.
pub proof fn right_answer_decodes_to_bytes(
    bytes: Seq<u8>,
    data: Seq<u8>,
    params: Params,
    key: Seq<u64>,
    m: Seq<u64>,
)
    requires
        params.wf(),
        is_row_bytes(bytes, data, params, key),
        is_right_answer(data, params.instances as int, params, key, m),
    ensures
        bytes_hold(bytes, m, ceil_log2(params.pt_modulus as int)),
{
    let decoded = choose|decoded: Seq<u64>|
        #[trigger] decodes_to(decoded, data, params.instances as int, params, key) && is_packed(
            bytes,
            decoded,
            params.pt_bits(),
        );
    right_answer_decodes(decoded, data, params.instances as int, params, key, m);
    let bits = ceil_log2(params.pt_modulus as int);
    lemma_ceil_log2(params.pt_modulus as int);
    assert forall|i: int| 0 <= i < m.len() implies #[trigger] m[i] == field(
        bytes,
        i * bits,
        bits,
    ) by {
        assert(decoded[i] < params.pt_modulus);
        vstd::arithmetic::div_mod::lemma_small_mod(m[i] as nat, pow2(bits));
        assert(field(bytes, i * bits, bits) == decoded[i] as int % pow2(bits) as int);
    }
}

} // verus!
