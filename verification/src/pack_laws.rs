//! What packing keys are for: they let a server turn ciphertexts and pack many
//! plaintexts into one.
use crate::client::{advanced, decrypted, is_automorph, noise_advanced};
use crate::constants::numbered_seed;
use crate::params::{MODULUS, Params};
use crate::query::{are_packing_keys, is_packing_blob, is_packing_key, one_hot, packs_digits};
use crate::ring::{is_ring, lemma_ring_closed, residue, ring_add, ring_mul, ring_neg, ring_scale};
use crate::ring_laws::{
    ext, lemma_ext_inside, lemma_ext_steps, lemma_image_at, lemma_image_of_product, lemma_linear_at,
    lemma_mul_commutes, lemma_mul_groups, lemma_mul_linear, lemma_mul_power, lemma_neg_is_scale,
    lemma_same_by, lemma_same_gap, lemma_same_self, lemma_small_product, same, sum,
};
use crate::serialize::pack_word;
use crate::spiral::{
    chacha_u64, gadget_bits, gadget_entry, gaussian_ring, is_noise_table, lemma_gaussian_ring, near_zero,
    noise_bound, ntt_of, uniform_ring, ChaChaStream, NoiseStream,
};
use vstd::arithmetic::power2::{lemma_pow2_pos, lemma_pow2_unfold, pow2};
use vstd::prelude::*;

verus! {

/// The sum of the products of the first `k` pairs of ring elements.
pub open spec fn products(x: Seq<Seq<u64>>, y: Seq<Seq<u64>>, n: int, k: int) -> Seq<u64>
    decreases k,
{
    if k <= 0 {
        one_hot(n, 0, 0)
    } else {
        ring_add(products(x, y, n, k - 1), ring_mul(x[k - 1], y[k - 1], n), n)
    }
}

/// The ring element whose first `k` of `t` digits are given.
pub open spec fn recomposed(g: Seq<Seq<u64>>, t: int, n: int, k: int) -> Seq<u64>
    decreases k,
{
    if k <= 0 {
        one_hot(n, 0, 0)
    } else {
        ring_add(
            recomposed(g, t, n, k - 1),
            ring_scale(g[k - 1], gadget_entry(t, k - 1), n),
            n,
        )
    }
}

/// `g` are the `t` digits of the ring element `c`.
pub open spec fn are_digits(g: Seq<Seq<u64>>, c: Seq<u64>, t: int, n: int) -> bool {
    &&& g.len() == t
    &&& recomposed(g, t, n, t) == c
    &&& forall|j: int, z: int|
        0 <= j < t && 0 <= z < n ==> #[trigger] g[j][z] < pow2(gadget_bits(t) as nat)
}

/// The negatives of ring elements.
pub open spec fn negatives(a: Seq<Seq<u64>>, n: int) -> Seq<Seq<u64>> {
    a.map_values(|x: Seq<u64>| ring_neg(x, n))
}

/// `b` are the second rows of a key that hides the digits of `tau` under `s`:
/// entry `j` is `s` times the public element `j`, plus noise, plus `tau` times
/// the weight of digit `j`.
spec fn hides_digits(
    b: Seq<Seq<u64>>,
    a: Seq<Seq<u64>>,
    e: Seq<Seq<u64>>,
    s: Seq<u64>,
    tau: Seq<u64>,
    t: int,
    n: int,
) -> bool {
    forall|j: int|
        0 <= j < t ==> #[trigger] b[j] == ring_add(
            ring_add(e[j], ring_mul(s, a[j], n), n),
            ring_scale(tau, gadget_entry(t, j), n),
            n,
        )
}

/// The coefficient at `z` of the first `k` products of noise and digits.
spec fn noise_sum(e: Seq<Seq<u64>>, g: Seq<Seq<u64>>, n: int, z: int, k: int) -> int {
    sum(|j: int| ext(ring_mul(e[j], g[j], n), n, z), k)
}

/// The coefficients of zero.
proof fn lemma_zero_at(n: int, z: int)
    requires
        n > 0,
    ensures
        ext(one_hot(n, 0, 0), n, z) == 0,
{
    vstd::arithmetic::div_mod::lemma_fundamental_div_mod(z, n);
}

/// The product with zero is zero.
proof fn lemma_mul_zero(s: Seq<u64>, n: int, z: int)
    requires
        n > 0,
    ensures
        same(ext(ring_mul(s, one_hot(n, 0, 0), n), n, z), 0),
{
    let o = one_hot(n, 0, 0);
    crate::ring_laws::lemma_mul_at(s, o, n, z);
    let f = |i: int| ext(s, n, i) * ext(o, n, z - i);
    assert forall|i: int| 0 <= i < n implies #[trigger] f(i) == 0 by {
        lemma_zero_at(n, z - i);
        let x = ext(s, n, i);
        assert(x * 0 == 0);
    }
    crate::ring_laws::lemma_sum_zero(f, n);
}

/// The first `k` digits of a key switch: what the products with the digits
/// decrypt to is the hidden element times the element of those digits, plus
/// noise times digits.
proof fn lemma_switch(
    b: Seq<Seq<u64>>,
    a: Seq<Seq<u64>>,
    e: Seq<Seq<u64>>,
    g: Seq<Seq<u64>>,
    s: Seq<u64>,
    tau: Seq<u64>,
    t: int,
    n: int,
    k: int,
    z: int,
)
    requires
        n > 0,
        0 <= k <= t,
        a.len() == t,
        hides_digits(b, a, e, s, tau, t, n),
    ensures
        same(
            ext(decrypted(s, products(negatives(a, n), g, n, k), products(b, g, n, k), n), n, z),
            ext(ring_mul(tau, recomposed(g, t, n, k), n), n, z) + noise_sum(e, g, n, z, k),
        ),
    decreases k,
{
    let na = negatives(a, n);
    let (p0, p1) = (products(na, g, n, k), products(b, g, n, k));
    let rec = recomposed(g, t, n, k);
    lemma_linear_at(ring_mul(s, p0, n), p1, 0, n, z);
    let d = lemma_same_gap(
        ext(decrypted(s, p0, p1, n), n, z),
        ext(ring_mul(s, p0, n), n, z) + ext(p1, n, z),
    );
    if k <= 0 {
        lemma_mul_zero(s, n, z);
        lemma_mul_zero(tau, n, z);
        lemma_zero_at(n, z);
        let x = lemma_same_gap(ext(ring_mul(s, p0, n), n, z), 0);
        let y = lemma_same_gap(ext(ring_mul(tau, rec, n), n, z), 0);
        lemma_same_by(
            ext(decrypted(s, p0, p1, n), n, z),
            ext(ring_mul(tau, rec, n), n, z) + noise_sum(e, g, n, z, k),
            d + x - y,
        );
    } else {
        let j = k - 1;
        lemma_switch(b, a, e, g, s, tau, t, n, j, z);
        let (q0, q1) = (products(na, g, n, j), products(b, g, n, j));
        let old_rec = recomposed(g, t, n, j);
        let w = gadget_entry(t, j);
        let (sa, gj) = (ring_mul(s, a[j], n), g[j]);
        let (sag, eg, tg) = (ring_mul(sa, gj, n), ring_mul(e[j], gj, n), ring_mul(tau, gj, n));
        // The first row, times the key.
        assert(na[j] == ring_neg(a[j], n));
        lemma_neg_is_scale(a[j], n);
        lemma_neg_is_scale(sag, n);
        let ng = ring_mul(na[j], gj, n);
        lemma_mul_linear(s, q0, ng, 0, n);
        lemma_mul_groups(s, na[j], gj, n);
        lemma_mul_linear(s, a[j], a[j], -1, n);
        lemma_mul_linear(gj, sa, sa, -1, n);
        assert(ring_mul(s, ng, n) == ring_neg(sag, n));
        let (sq0, sp0) = (ring_mul(s, q0, n), ring_mul(s, p0, n));
        lemma_linear_at(sq0, ring_neg(sag, n), 0, n, z);
        lemma_linear_at(sag, sag, 0, n, z);
        let x1 = lemma_same_gap(ext(sp0, n, z), ext(sq0, n, z) + ext(ring_neg(sag, n), n, z));
        let x2 = lemma_same_gap(ext(ring_neg(sag, n), n, z), -ext(sag, n, z));
        // The second row.
        let c = ring_add(e[j], sa, n);
        let wt = ring_scale(tau, w, n);
        assert(b[j] == ring_add(c, wt, n));
        lemma_mul_linear(gj, c, wt, 0, n);
        lemma_mul_linear(gj, e[j], sa, 0, n);
        lemma_mul_linear(gj, tau, tau, w, n);
        let bg = ring_mul(b[j], gj, n);
        let cg = ring_mul(c, gj, n);
        assert(bg == ring_add(cg, ring_scale(tg, w, n), n));
        assert(cg == ring_add(eg, sag, n));
        lemma_linear_at(q1, bg, 0, n, z);
        lemma_linear_at(cg, ring_scale(tg, w, n), 0, n, z);
        lemma_linear_at(eg, sag, 0, n, z);
        lemma_linear_at(tg, tg, w, n, z);
        let x3 = lemma_same_gap(ext(p1, n, z), ext(q1, n, z) + ext(bg, n, z));
        let x4 = lemma_same_gap(
            ext(bg, n, z),
            ext(cg, n, z) + ext(ring_scale(tg, w, n), n, z),
        );
        let x5 = lemma_same_gap(ext(cg, n, z), ext(eg, n, z) + ext(sag, n, z));
        // The hidden element times the digits.
        lemma_mul_linear(tau, old_rec, ring_scale(gj, w, n), 0, n);
        lemma_mul_linear(tau, gj, gj, w, n);
        let told = ring_mul(tau, old_rec, n);
        assert(ring_mul(tau, rec, n) == ring_add(told, ring_scale(tg, w, n), n));
        lemma_linear_at(told, ring_scale(tg, w, n), 0, n, z);
        let x6 = lemma_same_gap(
            ext(ring_mul(tau, rec, n), n, z),
            ext(told, n, z) + ext(ring_scale(tg, w, n), n, z),
        );
        // What came before.
        lemma_linear_at(sq0, q1, 0, n, z);
        let x7 = lemma_same_gap(
            ext(decrypted(s, q0, q1, n), n, z),
            ext(sq0, n, z) + ext(q1, n, z),
        );
        let x8 = lemma_same_gap(
            ext(decrypted(s, q0, q1, n), n, z),
            ext(told, n, z) + noise_sum(e, g, n, z, j),
        );
        assert(noise_sum(e, g, n, z, k) == noise_sum(e, g, n, z, j) + ext(eg, n, z));
        lemma_same_by(
            ext(decrypted(s, p0, p1, n), n, z),
            ext(ring_mul(tau, rec, n), n, z) + noise_sum(e, g, n, z, k),
            d + x1 + x2 + x3 + x4 + x5 - x6 - x7 + x8,
        );
    }
}

/// Noise times digits adds up to a small number, up to a multiple of the modulus.
/// Gives the number.
proof fn lemma_noise_sum(
    e: Seq<Seq<u64>>,
    g: Seq<Seq<u64>>,
    n: int,
    z: int,
    k: int,
    t: int,
    bound: int,
    limit: int,
) -> (r: int)
    requires
        n > 0,
        0 <= k <= t,
        0 <= bound,
        forall|j: int, i: int|
            0 <= j < t && 0 <= i < n ==> near_zero(#[trigger] e[j][i], MODULUS, bound),
        forall|j: int, i: int| 0 <= j < t && 0 <= i < n ==> #[trigger] g[j][i] <= limit,
    ensures
        same(noise_sum(e, g, n, z, k), r),
        -(k * (n * (bound * limit))) <= r <= k * (n * (bound * limit)),
    decreases k,
{
    if k <= 0 {
        lemma_same_self(0);
        assert(0 * (n * (bound * limit)) == 0);
        0
    } else {
        let r = lemma_noise_sum(e, g, n, z, k - 1, t, bound, limit);
        let x = lemma_small_product(e[k - 1], g[k - 1], n, z, bound, limit);
        crate::ring_laws::lemma_same_add(
            noise_sum(e, g, n, z, k - 1),
            r,
            ext(ring_mul(e[k - 1], g[k - 1], n), n, z),
            x,
        );
        let c = n * (bound * limit);
        assert(k * c == (k - 1) * c + c) by (nonlinear_arith);
        r + x
    }
}

/// `x` is within `bound` of `v`, up to a multiple of the modulus.
pub open spec fn within(x: int, v: int, bound: int) -> bool {
    exists|e: int| -bound <= e <= bound && #[trigger] same(x, v + e)
}

/// The noise that one key switch adds at most.
pub open spec fn switch_noise(params: Params) -> int {
    let t = params.t_exp_left as int;
    t * (params.poly_len * (noise_bound(params.noise_width_e8) * pow2(gadget_bits(t) as nat)))
}

/// The public elements of round `i` of the packing keys: the next ones of the
/// public stream of packing keys.
pub open spec fn public_rows(params: Params, i: int) -> Seq<Seq<u64>> {
    let n = params.poly_len as int;
    let t = params.t_exp_left as int;
    Seq::new(
        t as nat,
        |j: int| uniform_ring(numbered_seed(2), (i * (t * (2 * n)) + j * (2 * n)) as nat, n),
    )
}

/// The words of round `i` of the packing keys `w` hold the ring elements `b`, by
/// their transforms.
pub open spec fn round_holds(w: Seq<u64>, params: Params, i: int, b: Seq<Seq<u64>>) -> bool {
    let n = params.poly_len as int;
    let t = params.t_exp_left as int;
    &&& b.len() == t
    &&& forall|j: int| 0 <= j < t ==> is_ring(#[trigger] b[j], n)
    &&& forall|j: int, z: int|
        0 <= j < t && 0 <= z < n ==> #[trigger] w[i * (t * n) + (j * n + z)] == pack_word(
            ntt_of(n as nat, b[j])[z],
            ntt_of(n as nat, b[j])[n + z],
        )
}

/// The ring elements `b` are the second rows of a key for round `i`: they hide
/// the digits of the key with `x` replaced by `x^power`, with noise near zero.
spec fn is_round_key(
    b: Seq<Seq<u64>>,
    e: Seq<Seq<u64>>,
    s: Seq<u64>,
    tau: Seq<u64>,
    params: Params,
    i: int,
    power: int,
) -> bool {
    let n = params.poly_len as int;
    let t = params.t_exp_left as int;
    &&& is_automorph(tau, s, power, n)
    &&& hides_digits(b, public_rows(params, i), e, s, tau, t, n)
    &&& forall|j: int, z: int|
        0 <= j < t && 0 <= z < n ==> near_zero(
            #[trigger] e[j][z],
            MODULUS,
            noise_bound(params.noise_width_e8),
        )
}

/// The ring elements that a round of the packing keys holds, their noise and the
/// key that they hide.
proof fn lemma_round_key(w: Seq<u64>, params: Params, s: Seq<u64>, i: int) -> (r: (
    Seq<Seq<u64>>,
    Seq<Seq<u64>>,
    Seq<u64>,
))
    requires
        params.wf(),
        is_packing_blob(w, params, s),
        0 <= i < params.poly_len_log2,
    ensures
        round_holds(w, params, i, r.0),
        is_round_key(
            r.0,
            r.1,
            s,
            r.2,
            params,
            i,
            params.poly_len as int / pow2(i as nat) as int + 1,
        ),
{
    let n = params.poly_len as int;
    let t = params.t_exp_left as int;
    let (secret, public) = choose|secret_rng: NoiseStream, rng_pub: ChaChaStream|
        secret_rng.pos == 0 && is_noise_table(secret_rng.table@, params.noise_width_e8)
            && rng_pub.seed@ == numbered_seed(2) && rng_pub.pos == 0
            && #[trigger] are_packing_keys(w, params, s, secret_rng, rng_pub);
    assert(is_packing_key(w, params, s, secret, public, i));
    let taken = i * (t * (2 * n));
    assert(0 <= taken <= 12 * (64 * 8192)) by (nonlinear_arith)
        requires
            0 <= i <= 12,
            0 <= t <= 64,
            0 <= n <= 4096,
            taken == i * (t * (2 * n)),
    ;
    let (rng, rng_pub) = (noise_advanced(secret, taken), advanced(public, taken));
    let power = crate::client::expansion_power(n, i);
    let tau = choose|tau: Seq<u64>|
        #[trigger] is_automorph(tau, s, power, n) && packs_digits(
            w,
            params,
            s,
            tau,
            rng,
            rng_pub,
            i,
        );
    let a = public_rows(params, i);
    let e = Seq::new(
        t as nat,
        |j: int| gaussian_ring(rng.table@, rng.seed@, (rng.pos + j * (2 * n)) as nat, n),
    );
    let b = Seq::new(
        t as nat,
        |j: int|
            ring_add(
                ring_add(e[j], ring_mul(s, a[j], n), n),
                ring_scale(tau, gadget_entry(t, j), n),
                n,
            ),
    );
    assert forall|j: int| 0 <= j < t implies is_ring(#[trigger] b[j], n) by {
        lemma_ring_closed(
            ring_add(e[j], ring_mul(s, a[j], n), n),
            ring_scale(tau, gadget_entry(t, j), n),
            0,
            n,
        );
    }
    assert forall|j: int, z: int| 0 <= j < t && 0 <= z < n implies #[trigger] w[i * (t * n) + (j * n
        + z)] == pack_word(ntt_of(n as nat, b[j])[z], ntt_of(n as nat, b[j])[n + z]) by {
        assert(a[j] == uniform_ring(rng_pub.seed@, (rng_pub.pos + j * (2 * n)) as nat, n));
    }
    assert forall|j: int, z: int| 0 <= j < t && 0 <= z < n implies near_zero(
        #[trigger] e[j][z],
        MODULUS,
        noise_bound(params.noise_width_e8),
    ) by {
        assert(0 <= j * (2 * n)) by (nonlinear_arith)
            requires
                0 <= j,
                0 <= n,
        ;
        lemma_gaussian_ring(
            rng.table@,
            params.noise_width_e8,
            rng.seed@,
            (rng.pos + j * (2 * n)) as nat,
            n,
        );
        assert(e[j][z] == gaussian_ring(
            rng.table@,
            rng.seed@,
            (rng.pos + j * (2 * n)) as nat,
            n,
        )[z]);
    }
    (b, e, tau)
}

/// A key switch at any place: the products of a round's key with the digits of
/// `image` decrypt to the turned key times `image`, plus a small number. Gives
/// the number.
proof fn lemma_switch_at(
    b: Seq<Seq<u64>>,
    e: Seq<Seq<u64>>,
    s: Seq<u64>,
    tau: Seq<u64>,
    params: Params,
    i: int,
    power: int,
    image: Seq<u64>,
    g: Seq<Seq<u64>>,
    z: int,
) -> (r: int)
    requires
        params.wf(),
        is_round_key(b, e, s, tau, params, i, power),
        are_digits(g, image, params.t_exp_left as int, params.poly_len as int),
    ensures
        -switch_noise(params) <= r <= switch_noise(params),
        ({
            let n = params.poly_len as int;
            let t = params.t_exp_left as int;
            same(
                ext(
                    decrypted(
                        s,
                        products(negatives(public_rows(params, i), n), g, n, t),
                        products(b, g, n, t),
                        n,
                    ),
                    n,
                    z,
                ),
                ext(ring_mul(tau, image, n), n, z) + r,
            )
        }),
{
    let n = params.poly_len as int;
    let t = params.t_exp_left as int;
    let a = public_rows(params, i);
    lemma_switch(b, a, e, g, s, tau, t, n, t, z);
    let bound = noise_bound(params.noise_width_e8);
    let limit = pow2(gadget_bits(t) as nat) as int;
    let r = lemma_noise_sum(e, g, n, z, t, t, bound, limit);
    let x = lemma_same_gap(noise_sum(e, g, n, z, t), r);
    let d = decrypted(s, products(negatives(a, n), g, n, t), products(b, g, n, t), n);
    let y = lemma_same_gap(
        ext(d, n, z),
        ext(ring_mul(tau, image, n), n, z) + noise_sum(e, g, n, z, t),
    );
    lemma_same_by(ext(d, n, z), ext(ring_mul(tau, image, n), n, z) + r, x + y);
    r
}

/// The power of `x` that a round uses is odd.
proof fn lemma_power_odd(params: Params, i: int)
    requires
        params.wf(),
        0 <= i < params.poly_len_log2,
    ensures
        params.poly_len == pow2(params.poly_len_log2 as nat),
        params.poly_len as int / pow2(i as nat) as int == pow2((params.poly_len_log2 - i) as nat),
        (params.poly_len as int / pow2(i as nat) as int + 1) % 2 == 1,
{
    vstd::arithmetic::power2::lemma2_to64();
    crate::client::lemma_halved_degree(
        params.poly_len as int,
        params.poly_len_log2 as nat,
        i as nat,
    );
    lemma_pow2_unfold((params.poly_len_log2 - i) as nat);
}

/// Key switching works. With `x` replaced by `x^(n / 2^i + 1)` in the ring
/// element `c`, the digits of the result times the key of round `i` give a
/// ciphertext that decrypts, under the key `s`, to that result times `s` with
/// `x` replaced in the same way, plus noise inside its bound. Gives the ring
/// elements that the words of the round hold.
pub proof fn packing_key_switches(w: Seq<u64>, params: Params, s: Seq<u64>, i: int) -> (b: Seq<
    Seq<u64>,
>)
    requires
        params.wf(),
        is_packing_blob(w, params, s),
        0 <= i < params.poly_len_log2,
    ensures
        round_holds(w, params, i, b),
        ({
            let n = params.poly_len as int;
            let t = params.t_exp_left as int;
            let power = n / pow2(i as nat) as int + 1;
            forall|turned_s: Seq<u64>, c: Seq<u64>, turned_c: Seq<u64>, g: Seq<Seq<u64>>, z: int|
                #[trigger] is_automorph(turned_s, s, power, n) && #[trigger] is_automorph(
                    turned_c,
                    c,
                    power,
                    n,
                ) && are_digits(g, turned_c, t, n) && 0 <= z < n ==> within(
                    #[trigger] decrypted(
                        s,
                        products(negatives(public_rows(params, i), n), g, n, t),
                        products(b, g, n, t),
                        n,
                    )[z] as int,
                    ring_mul(turned_s, turned_c, n)[z] as int,
                    switch_noise(params),
                )
        }),
{
    let n = params.poly_len as int;
    let t = params.t_exp_left as int;
    let power = n / pow2(i as nat) as int + 1;
    let (b, e, tau) = lemma_round_key(w, params, s, i);
    lemma_power_odd(params, i);
    assert forall|turned_s: Seq<u64>, c: Seq<u64>, turned_c: Seq<u64>, g: Seq<Seq<u64>>, z: int|
        #[trigger] is_automorph(turned_s, s, power, n) && #[trigger] is_automorph(
            turned_c,
            c,
            power,
            n,
        ) && are_digits(g, turned_c, t, n) && 0 <= z < n implies within(
        #[trigger] decrypted(
            s,
            products(negatives(public_rows(params, i), n), g, n, t),
            products(b, g, n, t),
            n,
        )[z] as int,
        ring_mul(turned_s, turned_c, n)[z] as int,
        switch_noise(params),
    ) by {
        crate::key_laws::automorph_is_unique(
            turned_s,
            tau,
            s,
            power,
            params.poly_len_log2 as nat,
        );
        let r = lemma_switch_at(b, e, s, tau, params, i, power, turned_c, g, z);
        let d = decrypted(
            s,
            products(negatives(public_rows(params, i), n), g, n, t),
            products(b, g, n, t),
            n,
        );
        lemma_ext_inside(d, n, z);
        lemma_ext_inside(ring_mul(tau, turned_c, n), n, z);
        assert(same(d[z] as int, ring_mul(turned_s, turned_c, n)[z] + r));
    }
    b
}

/// The sum of two ciphertexts.
pub open spec fn plus(
    x: (Seq<u64>, Seq<u64>),
    y: (Seq<u64>, Seq<u64>),
    n: int,
) -> (Seq<u64>, Seq<u64>) {
    (ring_add(x.0, y.0, n), ring_add(x.1, y.1, n))
}

/// A ciphertext times a ring element.
pub open spec fn times(m: Seq<u64>, x: (Seq<u64>, Seq<u64>), n: int) -> (Seq<u64>, Seq<u64>) {
    (ring_mul(m, x.0, n), ring_mul(m, x.1, n))
}

/// What a ciphertext decrypts to.
pub open spec fn phase(s: Seq<u64>, x: (Seq<u64>, Seq<u64>), n: int) -> Seq<u64> {
    decrypted(s, x.0, x.1, n)
}

/// `out` is the ciphertext `x` with `x` replaced by `x^power`, switched back to
/// the key with the second rows `b` and the public elements `a` of a round.
pub open spec fn is_turned(
    out: (Seq<u64>, Seq<u64>),
    x: (Seq<u64>, Seq<u64>),
    b: Seq<Seq<u64>>,
    a: Seq<Seq<u64>>,
    power: int,
    t: int,
    n: int,
) -> bool {
    exists|i0: Seq<u64>, i1: Seq<u64>, g: Seq<Seq<u64>>|
        #[trigger] is_automorph(i0, x.0, power, n) && #[trigger] is_automorph(i1, x.1, power, n)
            && #[trigger] are_digits(g, i0, t, n) && out.0 == products(negatives(a, n), g, n, t)
            && out.1 == ring_add(products(b, g, n, t), i1, n)
}

/// `out` is what `ell` rounds of packing make of the ciphertexts `start`,
/// `start + n / 2^ell`, and so on: the even ones and the odd ones are packed in
/// one round less, the odd ones moved up by half their distance, and the sum of
/// both is added to their difference with `x` replaced by `x^(2^ell + 1)`. The
/// keys of the rounds are used from the last to the first.
pub open spec fn is_packing(
    out: (Seq<u64>, Seq<u64>),
    cts: Seq<(Seq<u64>, Seq<u64>)>,
    b: Seq<Seq<Seq<u64>>>,
    params: Params,
    ell: nat,
    start: int,
) -> bool
    decreases ell,
{
    let n = params.poly_len as int;
    let half = n / pow2(ell) as int;
    let round = params.poly_len_log2 - ell;
    if ell == 0 {
        out == cts[start]
    } else {
        exists|
            even: (Seq<u64>, Seq<u64>),
            odd: (Seq<u64>, Seq<u64>),
            turned: (Seq<u64>, Seq<u64>),
        |
            is_packing(even, cts, b, params, (ell - 1) as nat, start) && is_packing(
                odd,
                cts,
                b,
                params,
                (ell - 1) as nat,
                start + half,
            ) && #[trigger] is_turned(
                turned,
                plus(even, times(one_hot(n, half, (MODULUS - 1) as u64), odd, n), n),
                b[round],
                public_rows(params, round),
                pow2(ell) as int + 1,
                params.t_exp_left as int,
                n,
            ) && out == plus(plus(even, times(one_hot(n, half, 1), odd, n), n), turned, n)
    }
}

/// Sums decrypt to sums.
proof fn lemma_phase_plus(
    s: Seq<u64>,
    x: (Seq<u64>, Seq<u64>),
    y: (Seq<u64>, Seq<u64>),
    n: int,
    z: int,
)
    requires
        n > 0,
    ensures
        same(ext(phase(s, plus(x, y, n), n), n, z), ext(phase(s, x, n), n, z) + ext(
            phase(s, y, n),
            n,
            z,
        )),
{
    let p = plus(x, y, n);
    lemma_mul_linear(s, x.0, y.0, 0, n);
    let (sx, sy) = (ring_mul(s, x.0, n), ring_mul(s, y.0, n));
    lemma_linear_at(sx, sy, 0, n, z);
    lemma_linear_at(x.1, y.1, 0, n, z);
    lemma_linear_at(sx, x.1, 0, n, z);
    lemma_linear_at(sy, y.1, 0, n, z);
    lemma_linear_at(ring_mul(s, p.0, n), p.1, 0, n, z);
    let a = lemma_same_gap(ext(ring_mul(s, p.0, n), n, z), ext(sx, n, z) + ext(sy, n, z));
    let b = lemma_same_gap(ext(p.1, n, z), ext(x.1, n, z) + ext(y.1, n, z));
    let c = lemma_same_gap(ext(phase(s, x, n), n, z), ext(sx, n, z) + ext(x.1, n, z));
    let d = lemma_same_gap(ext(phase(s, y, n), n, z), ext(sy, n, z) + ext(y.1, n, z));
    let e = lemma_same_gap(
        ext(phase(s, p, n), n, z),
        ext(ring_mul(s, p.0, n), n, z) + ext(p.1, n, z),
    );
    lemma_same_by(
        ext(phase(s, p, n), n, z),
        ext(phase(s, x, n), n, z) + ext(phase(s, y, n), n, z),
        e + a + b - c - d,
    );
}

/// A ciphertext times a power of `x` decrypts to the same, moved up.
proof fn lemma_phase_times(
    s: Seq<u64>,
    v: u64,
    at: int,
    x: (Seq<u64>, Seq<u64>),
    log: nat,
    z: int,
)
    requires
        0 <= at < pow2(log),
    ensures
        same(
            ext(
                phase(s, times(one_hot(pow2(log) as int, at, v), x, pow2(log) as int), pow2(
                    log,
                ) as int),
                pow2(log) as int,
                z,
            ),
            v * ext(phase(s, x, pow2(log) as int), pow2(log) as int, z - at),
        ),
{
    let n = pow2(log) as int;
    let m = one_hot(n, at, v);
    lemma_mul_groups(s, m, x.0, n);
    lemma_mul_commutes(s, m, log);
    lemma_mul_groups(m, s, x.0, n);
    lemma_mul_linear(m, ring_mul(s, x.0, n), x.1, 0, n);
    assert(phase(s, times(m, x, n), n) == ring_mul(m, phase(s, x, n), n));
    lemma_mul_power(m, v, at, phase(s, x, n), n, z);
}

/// A turned ciphertext decrypts to the turned plaintext plus a small number.
/// Gives the number.
proof fn lemma_phase_turned(
    out: (Seq<u64>, Seq<u64>),
    x: (Seq<u64>, Seq<u64>),
    b: Seq<Seq<u64>>,
    e: Seq<Seq<u64>>,
    s: Seq<u64>,
    tau: Seq<u64>,
    params: Params,
    i: int,
    power: int,
    z: int,
) -> (r: int)
    requires
        params.wf(),
        is_ring(s, params.poly_len as int),
        is_ring(x.0, params.poly_len as int),
        is_ring(x.1, params.poly_len as int),
        power % 2 == 1,
        is_round_key(b, e, s, tau, params, i, power),
        is_turned(
            out,
            x,
            b,
            public_rows(params, i),
            power,
            params.t_exp_left as int,
            params.poly_len as int,
        ),
    ensures
        -switch_noise(params) <= r <= switch_noise(params),
        same(
            ext(phase(s, out, params.poly_len as int), params.poly_len as int, power * z),
            ext(phase(s, x, params.poly_len as int), params.poly_len as int, z) + r,
        ),
{
    let n = params.poly_len as int;
    let t = params.t_exp_left as int;
    let log = params.poly_len_log2 as nat;
    vstd::arithmetic::power2::lemma2_to64();
    assert(n == pow2(log));
    let a = public_rows(params, i);
    let (i0, i1, g) = choose|i0: Seq<u64>, i1: Seq<u64>, g: Seq<Seq<u64>>|
        #[trigger] is_automorph(i0, x.0, power, n) && #[trigger] is_automorph(i1, x.1, power, n)
            && #[trigger] are_digits(g, i0, t, n) && out.0 == products(negatives(a, n), g, n, t)
            && out.1 == ring_add(products(b, g, n, t), i1, n);
    let y = power * z;
    let p1 = products(b, g, n, t);
    let r = lemma_switch_at(b, e, s, tau, params, i, power, i0, g, y);
    let (sp, sx, ti) = (ring_mul(s, out.0, n), ring_mul(s, x.0, n), ring_mul(tau, i0, n));
    lemma_image_of_product(tau, s, i0, x.0, power, log);
    lemma_ring_closed(s, x.0, 0, n);
    lemma_image_at(ti, sx, power, n, z);
    lemma_image_at(i1, x.1, power, n, z);
    lemma_linear_at(sp, out.1, 0, n, y);
    lemma_linear_at(p1, i1, 0, n, y);
    lemma_linear_at(sp, p1, 0, n, y);
    lemma_linear_at(sx, x.1, 0, n, z);
    let k1 = lemma_same_gap(ext(phase(s, out, n), n, y), ext(sp, n, y) + ext(out.1, n, y));
    let k2 = lemma_same_gap(ext(out.1, n, y), ext(p1, n, y) + ext(i1, n, y));
    let k3 = lemma_same_gap(ext(decrypted(s, out.0, p1, n), n, y), ext(sp, n, y) + ext(p1, n, y));
    let k4 = lemma_same_gap(ext(decrypted(s, out.0, p1, n), n, y), ext(ti, n, y) + r);
    let k5 = lemma_same_gap(ext(ti, n, y), ext(sx, n, z));
    let k6 = lemma_same_gap(ext(i1, n, y), ext(x.1, n, z));
    let k7 = lemma_same_gap(ext(phase(s, x, n), n, z), ext(sx, n, z) + ext(x.1, n, z));
    lemma_same_by(
        ext(phase(s, out, n), n, y),
        ext(phase(s, x, n), n, z) + r,
        k1 + k2 - k3 + k4 + k5 + k6 - k7,
    );
    r
}

/// The noise of `ell` rounds of packing, where that of a ciphertext is at most
/// `noise`.
pub open spec fn packing_noise(params: Params, noise: int, ell: nat) -> int {
    pow2(ell) * noise + (pow2(ell) - 1) * switch_noise(params)
}

/// `b` are the second rows of a key for round `i`.
spec fn has_round_key(b: Seq<Seq<u64>>, params: Params, s: Seq<u64>, i: int) -> bool {
    let power = params.poly_len as int / pow2(i as nat) as int + 1;
    exists|e: Seq<Seq<u64>>, tau: Seq<u64>| is_round_key(b, e, s, tau, params, i, power)
}

/// The ring elements `b` are those of the packing keys of every round.
spec fn are_round_keys(b: Seq<Seq<Seq<u64>>>, params: Params, s: Seq<u64>) -> bool {
    forall|i: int| 0 <= i < params.poly_len_log2 ==> has_round_key(#[trigger] b[i], params, s, i)
}

/// What `ell` rounds of packing decrypt to at the multiples of `n / 2^ell`.
proof fn lemma_packing(
    out: (Seq<u64>, Seq<u64>),
    cts: Seq<(Seq<u64>, Seq<u64>)>,
    b: Seq<Seq<Seq<u64>>>,
    params: Params,
    s: Seq<u64>,
    mu: Seq<int>,
    noise: int,
    ell: nat,
    start: int,
    m: int,
)
    requires
        params.wf(),
        is_ring(s, params.poly_len as int),
        are_round_keys(b, params, s),
        ell <= params.poly_len_log2,
        0 <= start < params.poly_len as int / pow2(ell) as int,
        0 <= m < pow2(ell),
        is_packing(out, cts, b, params, ell, start),
        forall|j: int|
            0 <= j < params.poly_len ==> within(
                ext(phase(s, #[trigger] cts[j], params.poly_len as int), params.poly_len as int, 0),
                mu[j],
                noise,
            ),
    ensures
        0 <= start + m * (params.poly_len as int / pow2(ell) as int) < params.poly_len,
        within(
            ext(
                phase(s, out, params.poly_len as int),
                params.poly_len as int,
                m * (params.poly_len as int / pow2(ell) as int),
            ),
            pow2(ell) * mu[start + m * (params.poly_len as int / pow2(ell) as int)],
            packing_noise(params, noise, ell),
        ),
    decreases ell,
{
    let n = params.poly_len as int;
    let log = params.poly_len_log2 as nat;
    vstd::arithmetic::power2::lemma2_to64();
    assert(n == pow2(log));
    let h = n / pow2(ell) as int;
    crate::client::lemma_halved_degree(n, log, ell);
    lemma_pow2_pos(ell);
    lemma_pow2_pos((log - ell) as nat);
    vstd::arithmetic::power2::lemma_pow2_adds(ell, (log - ell) as nat);
    assert(pow2(ell) * h == n);
    assert(0 <= m * h && m * h + h <= pow2(ell) * h) by (nonlinear_arith)
        requires
            0 <= m,
            m + 1 <= pow2(ell),
            0 <= h,
    ;
    if ell == 0 {
        assert(m == 0);
        assert(0 * h == 0);
        let sw = switch_noise(params);
        assert(1 * noise + (1 - 1) * sw == noise && 1 * mu[start] == mu[start])
            by (nonlinear_arith);
        assert(within(ext(phase(s, cts[start], n), n, 0), mu[start], noise));
    } else {
        let round = params.poly_len_log2 - ell;
        let less = (ell - 1) as nat;
        let neg = one_hot(n, h, (MODULUS - 1) as u64);
        let pos = one_hot(n, h, 1);
        let power = pow2(ell) as int + 1;
        let (even, odd, turned) = choose|
            even: (Seq<u64>, Seq<u64>),
            odd: (Seq<u64>, Seq<u64>),
            turned: (Seq<u64>, Seq<u64>),
        |
            is_packing(even, cts, b, params, less, start) && is_packing(
                odd,
                cts,
                b,
                params,
                less,
                start + h,
            ) && #[trigger] is_turned(
                turned,
                plus(even, times(neg, odd, n), n),
                b[round],
                public_rows(params, round),
                power,
                params.t_exp_left as int,
                n,
            ) && out == plus(plus(even, times(pos, odd, n), n), turned, n);
        // The halves have twice the distance.
        lemma_pow2_unfold(ell);
        crate::client::lemma_halved_degree(n, log, less);
        lemma_pow2_unfold((log - ell + 1) as nat);
        let h2 = n / pow2(less) as int;
        assert(h2 == 2 * h);
        assert(h < n) by (nonlinear_arith)
            requires
                pow2(ell) * h == n,
                pow2(ell) >= 2,
                h >= 1,
        ;
        // The key of this round is the one for its power.
        crate::client::lemma_halved_degree(n, log, round as nat);
        let dif = plus(even, times(neg, odd, n), n);
        let both = plus(even, times(pos, odd, n), n);
        assert(n / pow2(round as nat) as int + 1 == power);
        assert(has_round_key(b[round], params, s, round));
        let (e, tau) = choose|e: Seq<Seq<u64>>, tau: Seq<u64>|
            is_round_key(b[round], e, s, tau, params, round, power);
        lemma_ring_closed(even.0, times(neg, odd, n).0, 0, n);
        lemma_ring_closed(even.1, times(neg, odd, n).1, 0, n);
        let z = m * h;
        let r = lemma_phase_turned(
            turned,
            dif,
            b[round],
            e,
            s,
            tau,
            params,
            round,
            power,
            z,
        );
        assert(power * z == z + m * n) by (nonlinear_arith)
            requires
                power == pow2(ell) + 1,
                z == m * h,
                pow2(ell) * h == n,
        ;
        lemma_ext_steps(phase(s, turned, n), n, z, m);
        lemma_phase_plus(s, both, turned, n, z);
        lemma_phase_plus(s, even, times(pos, odd, n), n, z);
        lemma_phase_plus(s, even, times(neg, odd, n), n, z);
        lemma_phase_times(s, 1, h, odd, log, z);
        lemma_phase_times(s, (MODULUS - 1) as u64, h, odd, log, z);
        let (ev, od) = (ext(phase(s, even, n), n, z), ext(phase(s, odd, n), n, z - h));
        let tu = ext(phase(s, turned, n), n, z);
        let (fb, fd) = (ext(phase(s, both, n), n, z), ext(phase(s, dif, n), n, z));
        let (yp, yn) = (
            ext(phase(s, times(pos, odd, n), n), n, z),
            ext(phase(s, times(neg, odd, n), n), n, z),
        );
        let fo = ext(phase(s, out, n), n, z);
        let k1 = lemma_same_gap(fo, fb + tu);
        let k2 = lemma_same_gap(fb, ev + yp);
        let k3 = lemma_same_gap(fd, ev + yn);
        let k4 = lemma_same_gap(yp, 1 * od);
        let k5 = lemma_same_gap(yn, (MODULUS - 1) * od);
        let k6 = lemma_same_gap(ext(phase(s, turned, n), n, power * z), fd + r);
        assert((MODULUS - 1) * od == MODULUS * od - od) by (nonlinear_arith);
        let sw = switch_noise(params);
        let pn = packing_noise(params, noise, less);
        assert(packing_noise(params, noise, ell) == 2 * pn + sw) by (nonlinear_arith)
            requires
                pow2(ell) == 2 * pow2(less),
                packing_noise(params, noise, ell) == pow2(ell) * noise + (pow2(ell) - 1) * sw,
                pn == pow2(less) * noise + (pow2(less) - 1) * sw,
        ;
        let half = m / 2;
        let at = start + z;
        assert(half * (2 * h) == 2 * (half * h)) by (nonlinear_arith);
        let v = mu[at];
        assert(pow2(ell) * v == 2 * (pow2(less) * v)) by (nonlinear_arith)
            requires
                pow2(ell) == 2 * pow2(less),
        ;
        if m % 2 == 0 {
            assert(m * h == 2 * (half * h)) by (nonlinear_arith)
                requires
                    m == 2 * half,
            ;
            lemma_packing(even, cts, b, params, s, mu, noise, less, start, half);
            let e0 = choose|x: int| -pn <= x <= pn && #[trigger] same(ev, pow2(less) * v + x);
            let k7 = lemma_same_gap(ev, pow2(less) * v + e0);
            lemma_same_by(
                fo,
                pow2(ell) * v + (2 * e0 + r),
                k1 + k2 + k3 + k4 + k5 + od + k6 + 2 * k7,
            );
            assert(same(fo, pow2(ell) * v + (2 * e0 + r)));
        } else {
            assert(m * h == 2 * (half * h) + h) by (nonlinear_arith)
                requires
                    m == 2 * half + 1,
            ;
            lemma_packing(odd, cts, b, params, s, mu, noise, less, start + h, half);
            let e0 = choose|x: int| -pn <= x <= pn && #[trigger] same(od, pow2(less) * v + x);
            let k7 = lemma_same_gap(od, pow2(less) * v + e0);
            lemma_same_by(
                fo,
                pow2(ell) * v + (2 * e0 - r),
                k1 + k2 - k3 + k4 - k5 - od - k6 + 2 * k7,
            );
            assert(same(fo, pow2(ell) * v + (2 * e0 - r)));
        }
    }
}

/// Packing works. The packing keys of a client hold ring elements with which
/// packing `n` ciphertexts in all rounds gives one ciphertext that decrypts at
/// place `j` to `n` times what ciphertext `j` decrypts to at its first place, up
/// to noise inside its bound. Gives the ring elements.
pub proof fn packing_keys_pack(w: Seq<u64>, params: Params, s: Seq<u64>) -> (b: Seq<
    Seq<Seq<u64>>,
>)
    requires
        params.wf(),
        is_ring(s, params.poly_len as int),
        is_packing_blob(w, params, s),
    ensures
        b.len() == params.poly_len_log2,
        forall|i: int| 0 <= i < b.len() ==> round_holds(w, params, i, #[trigger] b[i]),
        forall|
            out: (Seq<u64>, Seq<u64>),
            cts: Seq<(Seq<u64>, Seq<u64>)>,
            mu: Seq<int>,
            noise: int,
            j: int,
        |
            #[trigger] is_packing(out, cts, b, params, params.poly_len_log2 as nat, 0) && (forall|
                k: int,
            |
                0 <= k < params.poly_len ==> within(
                    phase(s, #[trigger] cts[k], params.poly_len as int)[0] as int,
                    mu[k],
                    noise,
                )) && 0 <= j < params.poly_len ==> #[trigger] within(
                phase(s, out, params.poly_len as int)[j] as int,
                params.poly_len * mu[j],
                packing_noise(params, noise, params.poly_len_log2 as nat),
            ),
{
    let n = params.poly_len as int;
    let log = params.poly_len_log2 as nat;
    vstd::arithmetic::power2::lemma2_to64();
    let b = Seq::new(log, |i: int| round_elements(w, params, s, i));
    assert forall|i: int| 0 <= i < log implies round_holds(w, params, i, #[trigger] b[i])
        && has_round_key(b[i], params, s, i) by {
        let (x, e, tau) = lemma_round_key(w, params, s, i);
        assert(is_round_element(x, w, params, s, i));
        assert(is_round_element(b[i], w, params, s, i));
    }
    assert(are_round_keys(b, params, s));
    assert forall|
        out: (Seq<u64>, Seq<u64>),
        cts: Seq<(Seq<u64>, Seq<u64>)>,
        mu: Seq<int>,
        noise: int,
        j: int,
    |
        #[trigger] is_packing(out, cts, b, params, log, 0) && (forall|k: int|
            0 <= k < n ==> within(phase(s, #[trigger] cts[k], n)[0] as int, mu[k], noise)) && 0 <= j
            < n implies #[trigger] within(
        phase(s, out, n)[j] as int,
        n * mu[j],
        packing_noise(params, noise, log),
    ) by {
        assert forall|k: int| 0 <= k < n implies within(
            ext(phase(s, #[trigger] cts[k], n), n, 0),
            mu[k],
            noise,
        ) by {
            lemma_ext_inside(phase(s, cts[k], n), n, 0);
        }
        assert(n / pow2(log) as int == 1) by {
            assert(n == pow2(log));
            vstd::arithmetic::div_mod::lemma_div_basics(n);
        }
        assert(j * 1 == j);
        lemma_packing(out, cts, b, params, s, mu, noise, log, 0, j);
        lemma_ext_inside(phase(s, out, n), n, j);
    }
    b
}

/// `b` is what the words of round `i` hold, and a key for the round.
spec fn is_round_element(
    b: Seq<Seq<u64>>,
    w: Seq<u64>,
    params: Params,
    s: Seq<u64>,
    i: int,
) -> bool {
    round_holds(w, params, i, b) && has_round_key(b, params, s, i)
}

/// The ring elements of round `i`.
spec fn round_elements(w: Seq<u64>, params: Params, s: Seq<u64>, i: int) -> Seq<Seq<u64>> {
    choose|b: Seq<Seq<u64>>| is_round_element(b, w, params, s, i)
}

/// Digit `j` of a ring element: the next bits of every coefficient.
pub open spec fn digit_of(c: Seq<u64>, t: int, n: int, j: int) -> Seq<u64> {
    let bits = gadget_bits(t);
    Seq::new(
        n as nat,
        |z: int|
            ((c[z] as int / pow2((bits * j) as nat) as int) % pow2(bits as nat) as int) as u64,
    )
}

/// The first `k` digits of a coefficient are its residue.
proof fn lemma_digits_recompose(c: Seq<u64>, t: int, n: int, k: int, z: int)
    requires
        0 < t < 56,
        is_ring(c, n),
        0 <= z < n,
        0 <= k <= t,
        gadget_bits(t) * (t - 1) < 64,
    ensures
        recomposed(Seq::new(t as nat, |j: int| digit_of(c, t, n, j)), t, n, k)[z] == c[z] as int
            % pow2((gadget_bits(t) * k) as nat) as int,
        recomposed(Seq::new(t as nat, |j: int| digit_of(c, t, n, j)), t, n, k).len() == n,
    decreases k,
{
    let bits = gadget_bits(t);
    let g = Seq::new(t as nat, |j: int| digit_of(c, t, n, j));
    vstd::arithmetic::power2::lemma2_to64();
    vstd::arithmetic::power2::lemma2_to64_rest();
    if k <= 0 {
        assert(bits * 0 == 0);
        assert(c[z] as int % 1 == 0);
    } else {
        let j = k - 1;
        lemma_digits_recompose(c, t, n, j, z);
        assert(bits >= 1 && bits <= 57);
        assert(bits * j <= bits * (t - 1) && 0 <= bits * j && bits * k == bits * j + bits)
            by (nonlinear_arith)
            requires
                0 <= j <= t - 1,
                k == j + 1,
                bits >= 1,
        ;
        let (p, r) = (pow2((bits * j) as nat) as int, pow2(bits as nat) as int);
        lemma_pow2_pos((bits * j) as nat);
        lemma_pow2_pos(bits as nat);
        vstd::arithmetic::power2::lemma_pow2_adds((bits * j) as nat, bits as nat);
        let x = c[z] as int;
        let d = (x / p) % r;
        let (low, high) = (x % p, (x / p) / r);
        vstd::arithmetic::div_mod::lemma_fundamental_div_mod(x, p);
        vstd::arithmetic::div_mod::lemma_fundamental_div_mod(x / p, r);
        assert(x == high * (p * r) + (d * p + low)) by (nonlinear_arith)
            requires
                x == p * (x / p) + low,
                x / p == r * high + d,
        ;
        assert(0 <= d * p + low < p * r && 0 <= high) by (nonlinear_arith)
            requires
                0 <= d < r,
                0 <= low < p,
                x == high * (p * r) + (d * p + low),
                0 <= x,
                p >= 1,
                r >= 1,
        ;
        vstd::arithmetic::div_mod::lemma_fundamental_div_mod_converse(
            x,
            p * r,
            high,
            d * p + low,
        );
        assert(d * p + low <= x && p * d == d * p && 0 <= d * p) by (nonlinear_arith)
            requires
                x == high * (p * r) + (d * p + low),
                0 <= high,
                p >= 1,
                r >= 1,
                0 <= d,
        ;
        assert(d <= d * p) by (nonlinear_arith)
            requires
                0 <= d,
                p >= 1,
        ;
        assert(x < MODULUS);
        assert(g[j][z] == d);
        let part = ring_scale(g[j], gadget_entry(t, j), n)[z] as int;
        vstd::arithmetic::div_mod::lemma_small_mod((p * d) as nat, MODULUS as nat);
        assert(part == p * d);
        vstd::arithmetic::div_mod::lemma_small_mod((low + p * d) as nat, MODULUS as nat);
    }
}

/// Every ring element has digits, where their bits reach over the modulus.
pub proof fn every_element_has_digits(c: Seq<u64>, t: int, n: int) -> (g: Seq<Seq<u64>>)
    requires
        0 < t < 56,
        n > 0,
        is_ring(c, n),
        gadget_bits(t) * (t - 1) < 64,
    ensures
        are_digits(g, c, t, n),
{
    let bits = gadget_bits(t);
    let g = Seq::new(t as nat, |j: int| digit_of(c, t, n, j));
    assert(56 <= bits * t) by (nonlinear_arith)
        requires
            bits == 56int / t + 1,
            t > 0,
    ;
    vstd::arithmetic::power2::lemma2_to64();
    vstd::arithmetic::power2::lemma2_to64_rest();
    crate::arith::lemma_pow2_monotone(56, (bits * t) as nat);
    assert forall|z: int| 0 <= z < n implies #[trigger] recomposed(g, t, n, t)[z] == c[z] by {
        lemma_digits_recompose(c, t, n, t, z);
        assert(c[z] < MODULUS);
        vstd::arithmetic::div_mod::lemma_small_mod(c[z] as nat, pow2((bits * t) as nat));
    }
    lemma_digits_recompose(c, t, n, t, 0);
    assert(recomposed(g, t, n, t) =~= c);
    assert(bits <= 57) by (nonlinear_arith)
        requires
            bits == 56int / t + 1,
            t > 0,
    ;
    assert forall|j: int, z: int| 0 <= j < t && 0 <= z < n implies #[trigger] g[j][z] < pow2(
        bits as nat,
    ) by {
        lemma_pow2_pos(bits as nat);
        crate::arith::lemma_pow2_monotone(bits as nat, 57);
        let x = c[z] as int / pow2((bits * j) as nat) as int;
        vstd::arithmetic::div_mod::lemma_fundamental_div_mod(x, pow2(bits as nat) as int);
    }
    g
}

/// The public elements of the packing keys come from their stream without gaps:
/// coefficient `z` of element `j` of round `i` is number `(i * t + j) * n + z`.
pub proof fn public_rows_take_the_next_numbers(params: Params, i: int, j: int, z: int)
    requires
        0 <= i,
        0 <= j < params.t_exp_left,
        0 <= z < params.poly_len,
    ensures
        public_rows(params, i)[j][z] == residue(
            chacha_u64(
                numbered_seed(2),
                (2 * ((i * params.t_exp_left + j) * params.poly_len + z)) as nat,
            ) as int,
        ),
{
    let (n, t) = (params.poly_len as int, params.t_exp_left as int);
    assert(i * (t * (2 * n)) + j * (2 * n) == 2 * ((i * t + j) * n) && 0 <= (i * t + j) * n)
        by (nonlinear_arith)
        requires
            0 <= i,
            0 <= j,
            0 <= t,
            0 <= n,
    ;
}

} // verus!
