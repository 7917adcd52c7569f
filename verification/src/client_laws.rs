//! What samples, keys and ciphertexts mean to the holder of the secret key.
use crate::arith::noise_inside_window_decodes;
use crate::client::{
    advanced, are_expansion_keys, are_samples, circular_distance, decrypted, encrypts_digits,
    is_automorph, is_expansion_key, noise_advanced, plaintext,
};
use crate::params::{MODULUS, Params};
use crate::poly::{chunk, PolyMatrixNTT};
use crate::ring::{is_ring, lemma_ring_closed, residue, ring_add, ring_mul, ring_neg, ring_scale};
use crate::ring_laws::{
    lemma_mul_linear, lemma_neg_is_scale, lemma_residue_same, lemma_same_by, lemma_same_gap,
    lemma_same_residue,
};
use crate::spiral::{
    gadget_entry, gaussian_ring, is_noise_table, lemma_gaussian_ring, near_zero, noise_bound,
    ntt_of, uniform_ring, ChaChaStream, NoiseStream,
};
use vstd::arithmetic::power2::pow2;
use vstd::prelude::*;

verus! {

/// Decrypting takes the mask off: a ciphertext whose first row is the negated
/// public element, and whose second row is the key times that element plus `m`,
/// decrypts to `m`.
pub proof fn unmasked_by_decrypting(s: Seq<u64>, a: Seq<u64>, c1: Seq<u64>, m: Seq<u64>, n: int)
    requires
        n > 0,
        is_ring(m, n),
        c1.len() == n,
        forall|z: int|
            0 <= z < n ==> #[trigger] c1[z] == residue(ring_mul(s, a, n)[z] + m[z]),
    ensures
        decrypted(s, ring_neg(a, n), c1, n) == m,
{
    let x = ring_mul(s, a, n);
    let d = decrypted(s, ring_neg(a, n), c1, n);
    lemma_neg_is_scale(a, n);
    lemma_neg_is_scale(x, n);
    lemma_mul_linear(s, a, a, -1, n);
    assert(ring_mul(s, ring_neg(a, n), n) == ring_neg(x, n));
    assert forall|z: int| 0 <= z < n implies d[z] == m[z] by {
        let (u, v) = (residue(-(x[z] as int)) as int, c1[z] as int);
        lemma_residue_same(-(x[z] as int));
        lemma_residue_same(x[z] + m[z]);
        let k = lemma_same_gap(u, -(x[z] as int));
        let l = lemma_same_gap(v, x[z] + m[z]);
        lemma_same_by(u + v, m[z] as int, k + l);
        lemma_same_residue(u + v, m[z] as int);
        vstd::arithmetic::div_mod::lemma_small_mod(m[z] as nat, MODULUS as nat);
    }
    assert(d =~= m);
}

/// A sample encrypts zero: the columns of samples are the transforms of
/// ciphertexts that decrypt to noise near zero. Gives the two rows.
pub proof fn samples_decrypt_to_noise(
    data: Seq<u64>,
    s: Seq<u64>,
    m: int,
    params: Params,
    rng: NoiseStream,
    rng_pub: ChaChaStream,
    j: int,
) -> (r: (Seq<u64>, Seq<u64>))
    requires
        params.ring_wf(),
        is_noise_table(rng.table@, params.noise_width_e8),
        are_samples(data, s, m, params, rng, rng_pub),
        0 <= j < m,
    ensures
        chunk(data, 2 * params.poly_len, j) == ntt_of(params.poly_len as nat, r.0),
        chunk(data, 2 * params.poly_len, m + j) == ntt_of(params.poly_len as nat, r.1),
        is_ring(r.0, params.poly_len as int),
        is_ring(r.1, params.poly_len as int),
        forall|z: int|
            0 <= z < params.poly_len ==> near_zero(
                #[trigger] decrypted(s, r.0, r.1, params.poly_len as int)[z],
                MODULUS,
                noise_bound(params.noise_width_e8),
            ),
{
    let n = params.poly_len as int;
    assert(0 <= j * (2 * n)) by (nonlinear_arith)
        requires
            0 <= j,
            0 <= n,
    ;
    let a = uniform_ring(rng_pub.seed@, (rng_pub.pos + j * (2 * n)) as nat, n);
    let pos = (rng.pos + j * (2 * n)) as nat;
    let e = gaussian_ring(rng.table@, rng.seed@, pos, n);
    lemma_gaussian_ring(rng.table@, params.noise_width_e8, rng.seed@, pos, n);
    let c1 = ring_add(e, ring_mul(s, a, n), n);
    unmasked_by_decrypting(s, a, c1, e, n);
    lemma_ring_closed(e, ring_mul(s, a, n), 0, n);
    lemma_neg_is_scale(a, n);
    lemma_ring_closed(a, a, -1, n);
    assert(chunk(data, 2 * n, j) == ntt_of(n as nat, ring_neg(a, n)));
    (ring_neg(a, n), c1)
}

/// An expansion key encrypts the digits of the turned key: column `j` of the key
/// of round `i` is the transform of a ciphertext that decrypts to the weight of
/// digit `j` times the secret key with `x` replaced by `x^(n / 2^i + 1)`, plus
/// noise near zero. Gives the two rows, the noise and the turned key.
pub proof fn expansion_keys_decrypt_to_digits(
    v: Seq<PolyMatrixNTT>,
    s: Seq<u64>,
    m: int,
    params: Params,
    rng: NoiseStream,
    rng_pub: ChaChaStream,
    i: int,
    j: int,
) -> (r: (Seq<u64>, Seq<u64>, Seq<u64>, Seq<u64>))
    requires
        params.ring_wf(),
        is_noise_table(rng.table@, params.noise_width_e8),
        are_expansion_keys(v, s, m, params, rng, rng_pub),
        0 <= i < v.len(),
        0 <= j < m,
    ensures
        chunk(v[i].data@, 2 * params.poly_len, j) == ntt_of(params.poly_len as nat, r.0),
        chunk(v[i].data@, 2 * params.poly_len, m + j) == ntt_of(params.poly_len as nat, r.1),
        is_ring(r.0, params.poly_len as int),
        is_ring(r.1, params.poly_len as int),
        forall|z: int|
            0 <= z < params.poly_len ==> near_zero(
                #[trigger] r.2[z],
                MODULUS,
                noise_bound(params.noise_width_e8),
            ),
        is_automorph(
            r.3,
            s,
            params.poly_len as int / pow2(i as nat) as int + 1,
            params.poly_len as int,
        ),
        decrypted(s, r.0, r.1, params.poly_len as int) == ring_add(
            r.2,
            ring_scale(r.3, gadget_entry(m, j), params.poly_len as int),
            params.poly_len as int,
        ),
{
    let n = params.poly_len as int;
    let w = 2 * params.poly_len;
    let (own, public) = (noise_advanced(rng, i * (m * w)), advanced(rng_pub, i * (m * w)));
    let data = v[i].data@;
    let power = crate::client::expansion_power(n, i);
    assert(is_expansion_key(data, s, power, m, params, own, public));
    let tau = choose|tau: Seq<u64>|
        #[trigger] is_automorph(tau, s, power, n) && encrypts_digits(
            data,
            s,
            tau,
            m,
            params,
            own,
            public,
        );
    assert(0 <= j * (2 * n)) by (nonlinear_arith)
        requires
            0 <= j,
            0 <= n,
    ;
    let a = uniform_ring(public.seed@, (public.pos + j * (2 * n)) as nat, n);
    let pos = (own.pos + j * (2 * n)) as nat;
    let e = gaussian_ring(own.table@, own.seed@, pos, n);
    lemma_gaussian_ring(own.table@, params.noise_width_e8, own.seed@, pos, n);
    let x = ring_mul(s, a, n);
    let wt = ring_scale(tau, gadget_entry(m, j), n);
    let c1 = ring_add(ring_add(e, x, n), wt, n);
    let held = ring_add(e, wt, n);
    lemma_ring_closed(ring_add(e, x, n), wt, 0, n);
    lemma_ring_closed(e, wt, 0, n);
    assert forall|z: int| 0 <= z < n implies #[trigger] c1[z] == residue(x[z] + held[z]) by {
        lemma_residue_same(e[z] + x[z]);
        lemma_residue_same(e[z] + wt[z]);
        let k = lemma_same_gap(residue(e[z] + x[z]) as int, e[z] + x[z]);
        let l = lemma_same_gap(residue(e[z] + wt[z]) as int, e[z] + wt[z]);
        lemma_same_by(residue(e[z] + x[z]) + wt[z], x[z] + held[z], k - l);
        lemma_same_residue(residue(e[z] + x[z]) + wt[z], x[z] + held[z]);
    }
    unmasked_by_decrypting(s, a, c1, held, n);
    lemma_neg_is_scale(a, n);
    lemma_ring_closed(a, a, -1, n);
    assert(chunk(data, 2 * n, j) == ntt_of(n as nat, ring_neg(a, n)));
    assert(chunk(data, 2 * n, m + j) == ntt_of(n as nat, c1));
    (ring_neg(a, n), c1, e, tau)
}

/// Decryption gives back the plaintext: where a ciphertext decrypts to `m`, scaled
/// up, plus noise inside the window of a plaintext, it is rounded to `m`.
pub proof fn decryption_rounds_to_the_plaintext(
    s: Seq<u64>,
    c0: Seq<u64>,
    c1: Seq<u64>,
    params: Params,
    z: int,
    m: int,
    e: int,
)
    requires
        params.wf(),
        0 <= z < params.poly_len,
        0 <= m < params.pt_modulus,
        decrypted(s, c0, c1, params.poly_len as int)[z] == residue(
            m * (MODULUS as int / params.pt_modulus as int) + e,
        ),
        -(MODULUS as int) < 2 * (m * (MODULUS as int % params.pt_modulus as int) - e
            * params.pt_modulus) < MODULUS,
    ensures
        plaintext(decrypted(s, c0, c1, params.poly_len as int), params)[z] == m,
{
    let (q, p) = (MODULUS as int, params.pt_modulus as int);
    let a = m * (q / p) + e;
    let d = decrypted(s, c0, c1, params.poly_len as int);
    vstd::arithmetic::div_mod::lemma_mod_twice(a, q);
    noise_inside_window_decodes(d[z] as int, m, e, q, p);
}

/// The measured noise is the noise: a residue that is `y` plus `e` is as far from
/// `y` as the size of `e`, where that is at most half the modulus.
pub proof fn measured_noise_is_the_noise(y: int, e: int)
    requires
        0 <= y < MODULUS,
        -(MODULUS as int) < 2 * e < MODULUS,
    ensures
        circular_distance(residue(y + e) as int, y) == if e >= 0 {
            e
        } else {
            -e
        },
{
    let q = MODULUS as int;
    if y + e >= q {
        vstd::arithmetic::div_mod::lemma_fundamental_div_mod_converse(y + e, q, 1, y + e - q);
    } else if y + e < 0 {
        vstd::arithmetic::div_mod::lemma_fundamental_div_mod_converse(y + e, q, -1, y + e + q);
    } else {
        vstd::arithmetic::div_mod::lemma_small_mod((y + e) as nat, MODULUS as nat);
    }
}

} // verus!
