//! Integer arithmetic modulo the ciphertext moduli.
//!
//! The reductions themselves are done by the spiral crate. Each function here
//! that calls it states what the call returns over mathematical integers.
use vstd::arithmetic::div_mod::{
    lemma_fundamental_div_mod, lemma_fundamental_div_mod_converse, lemma_mod_mod,
    lemma_mod_multiples_vanish,
};
use vstd::arithmetic::power2::{lemma_pow2_pos, lemma_pow2_unfold, pow2};
use vstd::prelude::*;

verus! {

/// Two to the sixty-fourth.
pub open spec fn two_64() -> int {
    0x1_0000_0000_0000_0000
}

/// The smallest `k` such that `x` is at most two to the `k`.
pub open spec fn ceil_log2(x: int) -> nat
    decreases x,
{
    if x <= 1 {
        0
    } else {
        1 + ceil_log2((x + 1) / 2)
    }
}

/// `ceil_log2(x)` is the exponent of the first power of two that reaches `x`.
pub proof fn lemma_ceil_log2(x: int)
    requires
        x >= 1,
    ensures
        x <= pow2(ceil_log2(x)),
        x > 1 ==> ceil_log2(x) >= 1 && pow2((ceil_log2(x) - 1) as nat) < x,
    decreases x,
{
    if x <= 1 {
        lemma_pow2_pos(0);
    } else {
        let h = (x + 1) / 2;
        lemma_ceil_log2(h);
        lemma_pow2_unfold(ceil_log2(x));
        if h > 1 {
            lemma_pow2_unfold(ceil_log2(h));
        } else {
            assert(ceil_log2(h) == 0);
            assert(pow2(0) == 1) by {
                vstd::arithmetic::power2::lemma2_to64();
            }
        }
    }
}

/// The exponent of a power of two is unique.
pub proof fn lemma_ceil_log2_unique(x: int, k: nat)
    requires
        1 <= x <= pow2(k),
        k == 0 || pow2((k - 1) as nat) < x,
    ensures
        ceil_log2(x) == k,
{
    lemma_ceil_log2(x);
    vstd::arithmetic::power2::lemma2_to64();
    let c = ceil_log2(x);
    if c < k {
        if c < k - 1 {
            vstd::arithmetic::power2::lemma_pow2_strictly_increases(c, (k - 1) as nat);
        }
    } else if k < c {
        if k < c - 1 {
            vstd::arithmetic::power2::lemma_pow2_strictly_increases(k, (c - 1) as nat);
        }
        if x <= 1 {
            assert(c == 0);
        }
    }
}

/// A machine word has a base-two logarithm of at most 64.
pub proof fn lemma_ceil_log2_u64(x: u64)
    requires
        x >= 1,
    ensures
        ceil_log2(x as int) <= 64,
{
    lemma_ceil_log2(x as int);
    vstd::arithmetic::power2::lemma2_to64();
    let c = ceil_log2(x as int);
    if c > 64 {
        if c - 1 > 64 {
            vstd::arithmetic::power2::lemma_pow2_strictly_increases(64, (c - 1) as nat);
        }
        assert(pow2(64) == two_64());
    }
}

/// The base-two logarithm of `x`, rounded up to an integer; zero for zero.
pub fn log2_ceil(x: u64) -> (r: usize)
    ensures
        r == ceil_log2(x as int),
        r <= 64,
{
    let mut y: u64 = x;
    let mut k: usize = 0;
    proof {
        if x >= 1 {
            lemma_ceil_log2_u64(x);
        }
    }
    while y > 1
        invariant
            ceil_log2(x as int) == k + ceil_log2(y as int),
            ceil_log2(x as int) <= 64,
        decreases y,
    {
        assert((y as int + 1) / 2 == y / 2 + y % 2);
        y = y / 2 + y % 2;
        k = k + 1;
    }
    k
}

/// The representative of `a` modulo `m` that lies around zero.
pub open spec fn centered(a: int, m: int) -> int {
    let v = a % m;
    if v >= m / 2 {
        v - m
    } else {
        v
    }
}

/// `x / m` rounded to the nearest integer, halves away from zero.
pub open spec fn round_div(x: int, m: int) -> int {
    if x >= 0 {
        (x + m / 2) / m
    } else {
        -((-x + m / 2) / m)
    }
}

/// `a`, read modulo `inp`, scaled by `out / inp` and rounded, modulo `out`.
pub open spec fn rescaled(a: int, inp: int, out: int) -> int {
    round_div(centered(a, inp) * out, inp) % out
}

/// `valar_spiral_rs::arith::rescale`: centres `a` modulo `inp_mod`, multiplies
/// by `out_mod / inp_mod`, rounds to the nearest integer with halves away from
/// zero, and reduces modulo `out_mod`.
#[verifier::external_body]
pub(crate) fn rescale(a: u64, inp_mod: u64, out_mod: u64) -> (r: u64)
    requires
        0 < inp_mod < 0x8000_0000_0000_0000,
        0 < out_mod,
    ensures
        r == rescaled(a as int, inp_mod as int, out_mod as int),
{
    valar_spiral_rs::arith::rescale(a, inp_mod, out_mod)
}

/// `valar_spiral_rs::arith::get_barrett_crs`: the two words, low one first, of
/// the quotient of two to the 128th by `modulus`.
#[verifier::external_body]
pub(crate) fn get_barrett_crs(modulus: u64) -> (r: (u64, u64))
    requires
        modulus > 1,
    ensures
        r.0 + two_64() * r.1 == (two_64() * two_64()) / (modulus as int),
{
    valar_spiral_rs::arith::get_barrett_crs(modulus)
}

/// `valar_spiral_rs::arith::barrett_raw_u64`: the remainder of `input` by
/// `modulus`, given the quotient of two to the 64th by `modulus`.
#[verifier::external_body]
pub(crate) fn barrett_raw_u64(input: u64, const_ratio_1: u64, modulus: u64) -> (r: u64)
    requires
        modulus > 1,
        const_ratio_1 == two_64() / (modulus as int),
    ensures
        r == input % modulus,
{
    valar_spiral_rs::arith::barrett_raw_u64(input, const_ratio_1, modulus)
}

/// `valar_spiral_rs::arith::barrett_reduction_u128_raw`: a number congruent to
/// `val` modulo `modulus`, given the two words of the quotient of two to the
/// 128th by `modulus`. The quotient that it estimates can fall short by two,
/// and it subtracts `modulus` once, so the result is below twice `modulus`
/// and not always below `modulus`.
#[verifier::external_body]
pub(crate) fn barrett_reduction_u128_raw(modulus: u64, cr0: u64, cr1: u64, val: u128) -> (r: u64)
    requires
        1 < modulus < 0x4000_0000_0000_0000,
        cr0 + two_64() * cr1 == (two_64() * two_64()) / (modulus as int),
        val < modulus * two_64(),
    ensures
        r % modulus == (val as int) % (modulus as int),
        r < 2 * modulus,
{
    valar_spiral_rs::arith::barrett_reduction_u128_raw(modulus, cr0, cr1, val)
}

/// `valar_spiral_rs::number_theory::invert_uint_mod`: the inverse of `value`
/// modulo `modulus`, or `None` where there is no inverse.
#[verifier::external_body]
pub(crate) fn invert_uint_mod(value: u64, modulus: u64) -> (r: Option<u64>)
    requires
        value < 0x8000_0000_0000_0000,
        1 < modulus < 0x8000_0000_0000_0000,
    ensures
        r matches Some(v) ==> v < modulus && (v * value) % (modulus as int) == 1,
        r is None ==> forall|w: int| (#[trigger] (w * value)) % (modulus as int) != 1,
{
    valar_spiral_rs::number_theory::invert_uint_mod(value, modulus)
}

/// The high word of the quotient of two to the 128th by `m` is the quotient of
/// two to the 64th by `m`.
pub proof fn lemma_barrett_high_word(m: u64, cr0: u64, cr1: u64)
    requires
        m > 1,
        cr0 + two_64() * cr1 == (two_64() * two_64()) / (m as int),
    ensures
        cr1 == two_64() / (m as int),
{
    let n = two_64() * two_64();
    let m = m as int;
    vstd::arithmetic::div_mod::lemma_div_denominator(n, m, two_64());
    vstd::arithmetic::div_mod::lemma_div_denominator(n, two_64(), m);
    assert(m * two_64() == two_64() * m) by (nonlinear_arith);
    assert((n / m) / two_64() == (n / two_64()) / m);
    assert(n / two_64() == two_64());
    lemma_fundamental_div_mod_converse(n / m, two_64(), cr1 as int, cr0 as int);
}

/// Congruence modulo a product gives congruence modulo each factor.
pub proof fn lemma_mod_factor(x: int, y: int, a: int, b: int)
    requires
        a > 0,
        b > 0,
        x % (a * b) == y % (a * b),
    ensures
        x % a == y % a,
        x % b == y % b,
{
    assert(a * b > 0) by (nonlinear_arith)
        requires
            a > 0,
            b > 0,
    ;
    lemma_mod_mod(x, a, b);
    lemma_mod_mod(y, a, b);
    assert(a * b == b * a) by (nonlinear_arith);
    lemma_mod_mod(x, b, a);
    lemma_mod_mod(y, b, a);
}

/// `x * u + y * v` is congruent to `x` where `u` is one and `v` is zero.
pub proof fn lemma_crt_select(x: int, u: int, y: int, v: int, m: int)
    requires
        m > 1,
        u % m == 1,
        v % m == 0,
    ensures
        (x * u + y * v) % m == x % m,
{
    lemma_fundamental_div_mod(u, m);
    lemma_fundamental_div_mod(v, m);
    let k = u / m;
    let l = v / m;
    assert(x * u + y * v == m * (x * k + y * l) + x) by (nonlinear_arith)
        requires
            u == m * k + 1,
            v == m * l,
    ;
    lemma_mod_multiples_vanish(x * k + y * l, x, m);
}

/// The largest `k` such that two to the `k` is at most `x`.
pub open spec fn floor_log2(x: int) -> nat
    decreases x,
{
    if x <= 1 {
        0
    } else {
        1 + floor_log2(x / 2)
    }
}

/// The base-two logarithm of `x`, rounded down to an integer; zero for zero.
pub fn log2_floor(x: u64) -> (r: usize)
    ensures
        r == floor_log2(x as int),
        r < 64,
{
    let mut y: u64 = x;
    let mut k: usize = 0;
    assert(y < pow2((64 - k) as nat)) by {
        vstd::arithmetic::power2::lemma2_to64();
    }
    while y > 1
        invariant
            floor_log2(x as int) == k + floor_log2(y as int),
            k < 64,
            y < pow2((64 - k) as nat),
        decreases y,
    {
        assert(k < 63) by {
            if k == 63 {
                vstd::arithmetic::power2::lemma2_to64();
            }
        }
        proof {
            lemma_pow2_unfold((64 - k) as nat);
        }
        y = y / 2;
        k = k + 1;
    }
    k
}

/// Two to the `k`.
pub fn pow2_usize(k: usize) -> (r: usize)
    requires
        pow2(k as nat) <= usize::MAX,
    ensures
        r == pow2(k as nat),
{
    let mut r: usize = 1;
    let mut i: usize = 0;
    proof {
        vstd::arithmetic::power2::lemma2_to64();
    }
    while i < k
        invariant
            i <= k,
            r == pow2(i as nat),
            pow2(k as nat) <= usize::MAX,
        decreases k - i,
    {
        proof {
            lemma_pow2_unfold((i + 1) as nat);
            lemma_pow2_monotone((i + 1) as nat, k as nat);
        }
        r = 2 * r;
        i = i + 1;
    }
    r
}

/// Powers of two grow with their exponent.
pub proof fn lemma_pow2_monotone(a: nat, b: nat)
    requires
        a <= b,
    ensures
        pow2(a) <= pow2(b),
{
    if a < b {
        vstd::arithmetic::power2::lemma_pow2_strictly_increases(a, b);
    }
}

/// Rounding to the nearest integer errs by at most one half.
pub proof fn lemma_round_div(x: int, m: int)
    requires
        m > 0,
    ensures
        -m <= 2 * (round_div(x, m) * m - x) <= m,
{
    let h = m / 2;
    if x >= 0 {
        lemma_fundamental_div_mod(x + h, m);
        assert(m * ((x + h) / m) == ((x + h) / m) * m) by (nonlinear_arith);
    } else {
        lemma_fundamental_div_mod(-x + h, m);
        let k = (-x + h) / m;
        assert((-k) * m == -(m * k)) by (nonlinear_arith);
    }
}

/// Up to a multiple of `out`, `rescaled(a, inp, out)` is within one half of
/// `a * out / inp`.
pub open spec fn scales_to(a: int, inp: int, r: int, out: int) -> bool {
    exists|t: int| #[trigger] scaling_error(a, inp, r, out, t) <= inp && scaling_error(
        a,
        inp,
        r,
        out,
        t,
    ) >= -inp
}

/// Twice the error of `r` as `a * out / inp`, times `inp`, after moving `r` by
/// `t` times `out`.
pub open spec fn scaling_error(a: int, inp: int, r: int, out: int, t: int) -> int {
    2 * (r * inp - a * out + t * (inp * out))
}

/// Rescaling errs by at most one half.
pub proof fn lemma_rescaled_error(a: int, inp: int, out: int)
    requires
        inp > 0,
        out > 0,
    ensures
        scales_to(a, inp, rescaled(a, inp, out), out),
{
    let c = centered(a, inp);
    let y = round_div(c * out, inp);
    let r = y % out;
    lemma_round_div(c * out, inp);
    lemma_fundamental_div_mod(a, inp);
    lemma_fundamental_div_mod(y, out);
    let k = if a % inp >= inp / 2 {
        a / inp + 1
    } else {
        a / inp
    };
    assert(a == c + k * inp) by (nonlinear_arith)
        requires
            a == inp * (a / inp) + a % inp,
            (k == a / inp + 1 && c == a % inp - inp) || (k == a / inp && c == a % inp),
    ;
    let j = y / out;
    let t = j + k;
    assert(scaling_error(a, inp, r, out, t) == 2 * (y * inp - c * out)) by (nonlinear_arith)
        requires
            y == out * j + r,
            a == c + k * inp,
            t == j + k,
            scaling_error(a, inp, r, out, t) == 2 * (r * inp - a * out + t * (inp * out)),
    ;
}

/// Scaling down and up again comes back to within half a step: the two differ,
/// up to a multiple of `q`, by at most `(q + s) / (2 * s)`.
pub proof fn lemma_rescale_round_trip(a: int, q: int, s: int)
    requires
        q > 0,
        s > 0,
    ensures
        within_half_step(a, rescaled(rescaled(a, q, s), s, q), q, s),
{
    let r = rescaled(a, q, s);
    let d = rescaled(r, s, q);
    lemma_rescaled_error(a, q, s);
    lemma_rescaled_error(r, s, q);
    let t1 = choose|t: int| #[trigger] scaling_error(a, q, r, s, t) <= q && scaling_error(
        a,
        q,
        r,
        s,
        t,
    ) >= -q;
    let t2 = choose|t: int| #[trigger] scaling_error(r, s, d, q, t) <= s && scaling_error(
        r,
        s,
        d,
        q,
        t,
    ) >= -s;
    let t = t1 + t2;
    assert(2 * s * (d - a + t * q) == scaling_error(a, q, r, s, t1) + scaling_error(
        r,
        s,
        d,
        q,
        t2,
    )) by (nonlinear_arith)
        requires
            t == t1 + t2,
            scaling_error(a, q, r, s, t1) == 2 * (r * q - a * s + t1 * (q * s)),
            scaling_error(r, s, d, q, t2) == 2 * (d * s - r * q + t2 * (s * q)),
    ;
    assert(step_error(a, d, q, s, t) == 2 * s * (d - a + t * q));
}

/// Twice `s` times the distance from `a` to `d` moved by `t` times `q`.
pub open spec fn step_error(a: int, d: int, q: int, s: int, t: int) -> int {
    2 * s * (d - a + t * q)
}

/// Modulo `q`, `d` is within `(q + s) / (2 * s)` of `a`.
pub open spec fn within_half_step(a: int, d: int, q: int, s: int) -> bool {
    exists|t: int| #[trigger] step_error(a, d, q, s, t) <= q + s && step_error(a, d, q, s, t) >= -(q
        + s)
}

/// A plaintext survives noise inside its window: where `a` is the plaintext
/// `m` scaled by `q / p` rounded down, plus `e`, and the noise leaves less
/// than half a step of error, rescaling `a` to `p` gives `m`.
pub proof fn noise_inside_window_decodes(a: int, m: int, e: int, q: int, p: int)
    requires
        q > 0,
        0 <= m < p,
        a % q == (m * (q / p) + e) % q,
        -q < 2 * (m * (q % p) - e * p) < q,
    ensures
        rescaled(a, q, p) == m,
{
    let scale = q / p;
    let rho = q % p;
    lemma_fundamental_div_mod(q, p);
    let b = m * scale + e;
    lemma_fundamental_div_mod(a, q);
    lemma_fundamental_div_mod(b, q);
    let k = a / q - b / q;
    assert(a == b + k * q) by (nonlinear_arith)
        requires
            a == q * (a / q) + a % q,
            b == q * (b / q) + b % q,
            a % q == b % q,
            k == a / q - b / q,
    ;
    let r = rescaled(a, q, p);
    lemma_rescaled_error(a, q, p);
    let t = choose|t: int| #[trigger] scaling_error(a, q, r, p, t) <= q && scaling_error(
        a,
        q,
        r,
        p,
        t,
    ) >= -q;
    let s = t - k;
    let f = r - m + s * p;
    assert(scaling_error(a, q, r, p, t) == 2 * (f * q) + 2 * (m * rho - e * p))
        by (nonlinear_arith)
        requires
            scaling_error(a, q, r, p, t) == 2 * (r * q - a * p + t * (q * p)),
            a == m * scale + e + k * q,
            q == p * scale + rho,
            s == t - k,
            f == r - m + s * p,
    {
        assert(a * p == m * (p * scale) + e * p + k * q * p) by (nonlinear_arith)
            requires
                a == m * scale + e + k * q,
        ;
        assert(m * (p * scale) == m * q - m * rho) by (nonlinear_arith)
            requires
                q == p * scale + rho,
        ;
        assert(f * q == r * q - m * q + s * p * q) by (nonlinear_arith)
            requires
                f == r - m + s * p,
        ;
        assert(s * p * q == t * (q * p) - k * q * p) by (nonlinear_arith)
            requires
                s == t - k,
        ;
    }
    assert(f == 0) by (nonlinear_arith)
        requires
            -2 * q < 2 * (f * q) < 2 * q,
            q > 0,
    ;
    assert(r == m) by (nonlinear_arith)
        requires
            0 <= r < p,
            0 <= m < p,
            r - m + s * p == 0,
    ;
}

/// Rescaling looks at the residue of its argument only.
pub proof fn lemma_rescaled_residue(a: int, inp: int, out: int)
    requires
        inp > 0,
    ensures
        rescaled(a % inp, inp, out) == rescaled(a, inp, out),
{
    vstd::arithmetic::div_mod::lemma_mod_twice(a, inp);
}

/// `floor_log2(x)` is the exponent of the last power of two up to `x`.
pub proof fn lemma_floor_log2(x: int)
    requires
        x >= 1,
    ensures
        pow2(floor_log2(x)) <= x,
        x >= 2 ==> floor_log2(x) >= 1,
    decreases x,
{
    if x <= 1 {
        vstd::arithmetic::power2::lemma2_to64();
    } else {
        lemma_floor_log2(x / 2);
        lemma_pow2_unfold(floor_log2(x));
    }
}

} // verus!
