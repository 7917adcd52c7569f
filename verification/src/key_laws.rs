//! What fixes the packing keys.
use crate::client::{advanced, expansion_power, is_automorph, lemma_halved_degree, noise_advanced};
use crate::params::Params;
use crate::query::{are_packing_keys, is_packing_key, packs_digits};
use crate::spiral::{ChaChaStream, NoiseStream};
use vstd::arithmetic::div_mod::lemma_fundamental_div_mod;
use vstd::arithmetic::power2::{lemma_pow2_pos, lemma_pow2_unfold, pow2};
use vstd::prelude::*;
use vstd::set_lib::{lemma_int_range, lemma_map_size, lemma_subset_equality, set_int_range};

verus! {

/// An odd factor can be cancelled from a multiple of a power of two.
proof fn lemma_cancel_odd(d: int, t: int, k: nat)
    requires
        t % 2 == 1,
        (d * t) % (pow2(k) as int) == 0,
    ensures
        d % (pow2(k) as int) == 0,
    decreases k,
{
    lemma_pow2_pos(k);
    if k == 0 {
        vstd::arithmetic::power2::lemma2_to64();
    } else {
        lemma_pow2_unfold(k);
        let p = pow2((k - 1) as nat) as int;
        lemma_pow2_pos((k - 1) as nat);
        let q = (d * t) / (2 * p);
        lemma_fundamental_div_mod(d * t, 2 * p);
        // The number itself is even, since the factor is not.
        let u = t / 2;
        assert(d % 2 == 0) by {
            assert(d * t == 2 * (d * u) + d) by (nonlinear_arith)
                requires
                    t == 2 * u + 1,
            ;
            assert((2 * p) * q == 2 * (p * q)) by (nonlinear_arith);
            assert(d == 2 * (p * q - d * u));
        }
        let h = d / 2;
        assert(h * t == p * q) by (nonlinear_arith)
            requires
                d == 2 * h,
                d * t == (2 * p) * q,
        ;
        assert((p * q) % p == 0) by {
            vstd::arithmetic::div_mod::lemma_mod_multiples_basic(q, p);
            assert(q * p == p * q) by (nonlinear_arith);
        }
        lemma_cancel_odd(h, t, (k - 1) as nat);
        lemma_fundamental_div_mod(h, p);
        let g = h / p;
        assert(d == g * (2 * p)) by (nonlinear_arith)
            requires
                d == 2 * h,
                h == p * g,
        ;
        vstd::arithmetic::div_mod::lemma_mod_multiples_basic(g, 2 * p);
    }
}

/// The place that coefficient `i` goes to.
spec fn place(t: int, n: int) -> spec_fn(int) -> int {
    |i: int| (i * t) % n
}

/// For odd powers no place is taken twice.
pub proof fn lemma_places_differ(t: int, k: nat, x: int, y: int)
    requires
        t % 2 == 1,
        0 <= x < pow2(k),
        0 <= y < pow2(k),
        (x * t) % (pow2(k) as int) == (y * t) % (pow2(k) as int),
    ensures
        x == y,
{
    let n = pow2(k) as int;
    lemma_pow2_pos(k);
    lemma_fundamental_div_mod(x * t, n);
    lemma_fundamental_div_mod(y * t, n);
    let g = (x * t) / n - (y * t) / n;
    assert((x - y) * t == g * n) by (nonlinear_arith)
        requires
            x * t == n * ((x * t) / n) + (x * t) % n,
            y * t == n * ((y * t) / n) + (y * t) % n,
            (x * t) % n == (y * t) % n,
            g == (x * t) / n - (y * t) / n,
    ;
    vstd::arithmetic::div_mod::lemma_mod_multiples_basic(g, n);
    lemma_cancel_odd(x - y, t, k);
    lemma_fundamental_div_mod(x - y, n);
    let h = (x - y) / n;
    assert(h == 0) by (nonlinear_arith)
        requires
            x - y == n * h,
            -n < x - y < n,
            n > 0,
    ;
    assert(n * 0 == 0);
}

/// For odd powers every place is taken.
pub proof fn lemma_place_taken(t: int, k: nat, z: int) -> (i: int)
    requires
        t % 2 == 1,
        0 <= z < pow2(k),
    ensures
        0 <= i < pow2(k),
        (i * t) % (pow2(k) as int) == z,
{
    let n = pow2(k) as int;
    lemma_pow2_pos(k);
    let all = set_int_range(0, n);
    let f = place(t, n);
    lemma_int_range(0, n);
    assert forall|x: int, y: int|
        all.contains(x) && all.contains(y) && #[trigger] f(x) == #[trigger] f(y) implies x == y by {
        lemma_places_differ(t, k, x, y);
    }
    let image = all.map(f);
    lemma_map_size(all, image, f);
    assert(image.subset_of(all)) by {
        assert forall|y: int| image.contains(y) implies all.contains(y) by {
            let x = choose|x: int| all.contains(x) && f(x) == y;
        }
    }
    lemma_subset_equality(image, all);
    assert(all.contains(z));
    assert(image.contains(z));
    choose|x: int| all.contains(x) && f(x) == z
}

/// Replacing `x` by an odd power of it has one result.
pub proof fn automorph_is_unique(t1: Seq<u64>, t2: Seq<u64>, s: Seq<u64>, t: int, k: nat)
    requires
        t % 2 == 1,
        is_automorph(t1, s, t, pow2(k) as int),
        is_automorph(t2, s, t, pow2(k) as int),
    ensures
        t1 == t2,
{
    let n = pow2(k) as int;
    assert forall|z: int| 0 <= z < n implies t1[z] == t2[z] by {
        let i = lemma_place_taken(t, k, z);
        assert(t1[(i * t) % n] == t2[(i * t) % n]);
    }
    assert(t1 =~= t2);
}

/// Packing keys are a function of the key and the streams: two clients with the
/// same key whose secret streams stand at the same place of the same seed build
/// the same packing keys, word for word.
pub proof fn equal_streams_give_equal_packing_keys(
    w1: Seq<u64>,
    w2: Seq<u64>,
    params: Params,
    key: Seq<u64>,
    rng: NoiseStream,
    rng_pub: ChaChaStream,
)
    requires
        params.wf(),
        are_packing_keys(w1, params, key, rng, rng_pub),
        are_packing_keys(w2, params, key, rng, rng_pub),
    ensures
        w1 == w2,
{
    let n = params.poly_len as int;
    let t = params.t_exp_left as int;
    let logs = params.poly_len_log2 as int;
    vstd::arithmetic::power2::lemma2_to64();
    assert(n == pow2(params.poly_len_log2 as nat));
    let size = t * n;
    assert(size >= 1) by (nonlinear_arith)
        requires
            size == t * n,
            t >= 1,
            n >= 1,
    ;
    assert forall|a: int| 0 <= a < w1.len() implies w1[a] == w2[a] by {
        lemma_fundamental_div_mod(a, size);
        let i = a / size;
        let b = a % size;
        assert(size * i == i * size) by (nonlinear_arith);
        assert(0 <= i < logs) by (nonlinear_arith)
            requires
                a == size * i + b,
                0 <= b < size,
                0 <= a < logs * size,
        ;
        lemma_fundamental_div_mod(b, n);
        let j = b / n;
        let z = b % n;
        assert(n * j == j * n) by (nonlinear_arith);
        assert(0 <= j < t) by (nonlinear_arith)
            requires
                b == n * j + z,
                0 <= z < n,
                0 <= b < t * n,
        ;
        assert(is_packing_key(w1, params, key, rng, rng_pub, i));
        assert(is_packing_key(w2, params, key, rng, rng_pub, i));
        let taken = i * (t * (2 * n));
        let (r, p) = (noise_advanced(rng, taken), advanced(rng_pub, taken));
        let power = expansion_power(n, i);
        let t1 = choose|tau: Seq<u64>|
            #[trigger] is_automorph(tau, key, power, n) && packs_digits(
                w1,
                params,
                key,
                tau,
                r,
                p,
                i,
            );
        let t2 = choose|tau: Seq<u64>|
            #[trigger] is_automorph(tau, key, power, n) && packs_digits(
                w2,
                params,
                key,
                tau,
                r,
                p,
                i,
            );
        assert(power % 2 == 1) by {
            lemma_halved_degree(n, params.poly_len_log2 as nat, i as nat);
            lemma_pow2_unfold((logs - i) as nat);
        }
        automorph_is_unique(t1, t2, key, power, params.poly_len_log2 as nat);
        assert(w1[i * (t * n) + (j * n + z)] == w2[i * (t * n) + (j * n + z)]);
    }
    assert(w1 =~= w2);
}

} // verus!
