//! The laws of the ring, by sums over coefficients.
use crate::client::is_automorph;
use crate::key_laws::{lemma_place_taken, lemma_places_differ};
use crate::params::MODULUS;
use crate::ring::{conv_sum, is_ring, residue, ring_add, ring_mul, ring_neg, ring_scale};
use crate::query::one_hot;
use crate::spiral::{near_zero, negated};
use vstd::arithmetic::div_mod::{
    lemma_fundamental_div_mod, lemma_fundamental_div_mod_converse, lemma_mod_multiples_basic,
};
use vstd::arithmetic::power2::{lemma_pow2_pos, pow2};
use vstd::prelude::*;

verus! {

/// The numbers are congruent modulo the modulus.
pub open spec fn same(x: int, y: int) -> bool {
    (x - y) % (MODULUS as int) == 0
}

/// Numbers that differ by a multiple of the modulus are congruent.
pub proof fn lemma_same_by(x: int, y: int, k: int)
    requires
        x == y + MODULUS * k,
    ensures
        same(x, y),
{
    lemma_mod_multiples_basic(k, MODULUS as int);
    assert(x - y == k * MODULUS) by (nonlinear_arith)
        requires
            x == y + MODULUS * k,
    ;
}

/// The multiple of the modulus by which congruent numbers differ.
pub proof fn lemma_same_gap(x: int, y: int) -> (k: int)
    requires
        same(x, y),
    ensures
        x == y + MODULUS * k,
{
    lemma_fundamental_div_mod(x - y, MODULUS as int);
    (x - y) / (MODULUS as int)
}

/// Congruent numbers have the same residue.
pub proof fn lemma_same_residue(x: int, y: int)
    requires
        same(x, y),
    ensures
        residue(x) == residue(y),
{
    let k = lemma_same_gap(x, y);
    vstd::arithmetic::div_mod::lemma_mod_multiples_vanish(k, y, MODULUS as int);
}

/// A number is congruent to its residue.
pub proof fn lemma_residue_same(x: int)
    ensures
        same(residue(x) as int, x),
{
    lemma_fundamental_div_mod(x, MODULUS as int);
    lemma_same_by(residue(x) as int, x, -(x / (MODULUS as int)));
}

/// Congruences can be added and chained.
pub proof fn lemma_same_add(x: int, y: int, u: int, v: int)
    requires
        same(x, y),
        same(u, v),
    ensures
        same(x + u, y + v),
        same(x - u, y - v),
        y == u ==> same(x, v),
        same(y, x),
{
    let k = lemma_same_gap(x, y);
    let l = lemma_same_gap(u, v);
    assert(MODULUS * (k + l) == MODULUS * k + MODULUS * l && MODULUS * (k - l) == MODULUS * k
        - MODULUS * l && MODULUS * (-k) == -(MODULUS * k)) by (nonlinear_arith);
    lemma_same_by(x + u, y + v, k + l);
    lemma_same_by(x - u, y - v, k - l);
    lemma_same_by(y, x, -k);
    if y == u {
        lemma_same_by(x, v, k + l);
    }
}

/// Congruences can be multiplied.
pub proof fn lemma_same_mul(x: int, y: int, u: int, v: int)
    requires
        same(x, y),
        same(u, v),
    ensures
        same(x * u, y * v),
{
    let k = lemma_same_gap(x, y);
    let l = lemma_same_gap(u, v);
    assert(x * u == y * v + MODULUS * (k * u + y * l)) by (nonlinear_arith)
        requires
            x == y + MODULUS * k,
            u == v + MODULUS * l,
    ;
    lemma_same_by(x * u, y * v, k * u + y * l);
}

/// The sum of the first `k` values of `f`.
pub open spec fn sum(f: spec_fn(int) -> int, k: int) -> int
    decreases k,
{
    if k <= 0 {
        0
    } else {
        sum(f, k - 1) + f(k - 1)
    }
}

/// Sums of congruent values are congruent.
pub proof fn lemma_sum_same(f: spec_fn(int) -> int, g: spec_fn(int) -> int, k: int)
    requires
        forall|i: int| 0 <= i < k ==> same(#[trigger] f(i), g(i)),
    ensures
        same(sum(f, k), sum(g, k)),
    decreases k,
{
    if k > 0 {
        lemma_sum_same(f, g, k - 1);
        lemma_same_add(sum(f, k - 1), sum(g, k - 1), f(k - 1), g(k - 1));
    }
}

/// Sums of equal values are equal.
pub proof fn lemma_sum_equal(f: spec_fn(int) -> int, g: spec_fn(int) -> int, k: int)
    requires
        forall|i: int| 0 <= i < k ==> #[trigger] f(i) == g(i),
    ensures
        sum(f, k) == sum(g, k),
    decreases k,
{
    if k > 0 {
        lemma_sum_equal(f, g, k - 1);
    }
}

/// A sum times a number is the sum of the products.
pub proof fn lemma_sum_scale(f: spec_fn(int) -> int, c: int, k: int)
    ensures
        sum(|i: int| c * f(i), k) == c * sum(f, k),
    decreases k,
{
    if k > 0 {
        lemma_sum_scale(f, c, k - 1);
        assert(c * (sum(f, k - 1) + f(k - 1)) == c * sum(f, k - 1) + c * f(k - 1))
            by (nonlinear_arith);
    } else {
        assert(c * 0 == 0);
    }
}

/// The sum of sums is the sum of the added values.
pub proof fn lemma_sum_add(f: spec_fn(int) -> int, g: spec_fn(int) -> int, k: int)
    ensures
        sum(|i: int| f(i) + g(i), k) == sum(f, k) + sum(g, k),
    decreases k,
{
    if k > 0 {
        lemma_sum_add(f, g, k - 1);
    }
}

/// A sum of zeros is zero.
pub proof fn lemma_sum_zero(f: spec_fn(int) -> int, k: int)
    requires
        forall|i: int| 0 <= i < k ==> #[trigger] f(i) == 0,
    ensures
        sum(f, k) == 0,
    decreases k,
{
    if k > 0 {
        lemma_sum_zero(f, k - 1);
    }
}

/// A sum with one value that is not zero is that value.
pub proof fn lemma_sum_single(f: spec_fn(int) -> int, at: int, k: int)
    requires
        0 <= at < k,
        forall|i: int| 0 <= i < k && i != at ==> #[trigger] f(i) == 0,
    ensures
        sum(f, k) == f(at),
    decreases k,
{
    if at == k - 1 {
        lemma_sum_zero(f, k - 1);
    } else {
        lemma_sum_single(f, at, k - 1);
    }
}

/// The order of two sums can be exchanged.
pub proof fn lemma_sum_exchange(f: spec_fn(int, int) -> int, m: int, k: int)
    ensures
        sum(|i: int| sum(|j: int| f(i, j), k), m) == sum(|j: int| sum(|i: int| f(i, j), m), k),
    decreases m,
{
    let rows = |i: int| sum(|j: int| f(i, j), k);
    let cols = |j: int| sum(|i: int| f(i, j), m);
    if m <= 0 {
        assert forall|j: int| 0 <= j < k implies #[trigger] cols(j) == 0 by {}
        lemma_sum_zero(cols, k);
    } else {
        lemma_sum_exchange(f, m - 1, k);
        let before = |j: int| sum(|i: int| f(i, j), m - 1);
        let last = |j: int| f(m - 1, j);
        lemma_sum_add(before, last, k);
        lemma_sum_equal(cols, |j: int| before(j) + last(j), k);
    }
}

/// The coefficient at any place, inside or outside of the degree: what runs over
/// it comes back with its sign changed.
pub open spec fn ext(a: Seq<u64>, n: int, i: int) -> int {
    if (i / n) % 2 == 0 {
        a[i % n] as int
    } else {
        -(a[i % n] as int)
    }
}

/// Moving by the degree changes the sign.
pub proof fn lemma_ext_step(a: Seq<u64>, n: int, i: int)
    requires
        n > 0,
    ensures
        ext(a, n, i + n) == -ext(a, n, i),
{
    lemma_fundamental_div_mod(i, n);
    let (d, m) = (i / n, i % n);
    assert((d + 1) * n == n * d + n) by (nonlinear_arith);
    lemma_fundamental_div_mod_converse(i + n, n, d + 1, m);
}

/// Moving by a multiple of the degree changes the sign where it is odd.
pub proof fn lemma_ext_steps(a: Seq<u64>, n: int, i: int, k: int)
    requires
        n > 0,
    ensures
        ext(a, n, i + k * n) == if k % 2 == 0 {
            ext(a, n, i)
        } else {
            -ext(a, n, i)
        },
{
    lemma_fundamental_div_mod(i, n);
    let (d, m) = (i / n, i % n);
    assert(i + k * n == (d + k) * n + m) by (nonlinear_arith)
        requires
            i == n * d + m,
    ;
    lemma_fundamental_div_mod_converse(i + k * n, n, d + k, m);
}

/// Inside the degree the coefficient is the element's own.
pub proof fn lemma_ext_inside(a: Seq<u64>, n: int, i: int)
    requires
        0 <= i < n,
    ensures
        ext(a, n, i) == a[i],
{
    lemma_fundamental_div_mod_converse(i, n, 0, i);
}

/// The sum over one period does not depend on where it starts.
pub proof fn lemma_sum_period(f: spec_fn(int) -> int, n: int, s: int)
    requires
        n > 0,
        forall|i: int| #[trigger] f(i + n) == f(i),
    ensures
        sum(|i: int| f(i + s), n) == sum(f, n),
    decreases if s >= 0 {
        s
    } else {
        -s
    },
{
    let g = |i: int| f(i + s);
    if s == 0 {
        lemma_sum_equal(g, f, n);
    } else if s > 0 {
        lemma_sum_period(f, n, s - 1);
        let h = |i: int| f(i + (s - 1));
        assert forall|i: int| 0 <= i < n implies #[trigger] g(i) == h(i + 1) by {}
        lemma_sum_step(h, n);
        lemma_sum_equal(g, |i: int| h(i + 1), n);
        assert(h(n) == h(0)) by {
            assert(f((s - 1) + n) == f(s - 1));
        }
    } else {
        lemma_sum_period(f, n, s + 1);
        let h = |i: int| f(i + (s + 1));
        assert forall|i: int| 0 <= i < n implies #[trigger] h(i) == g(i + 1) by {}
        lemma_sum_step(g, n);
        lemma_sum_equal(h, |i: int| g(i + 1), n);
        assert(g(n) == g(0)) by {
            assert(f(s + n) == f(s));
        }
    }
}

/// A sum that starts one later lacks the first value and has the next one.
proof fn lemma_sum_step(h: spec_fn(int) -> int, n: int)
    requires
        n >= 0,
    ensures
        sum(|i: int| h(i + 1), n) == sum(h, n) + h(n) - h(0),
    decreases n,
{
    if n > 0 {
        lemma_sum_step(h, n - 1);
    }
}

/// A coefficient of a product at any place.
pub proof fn lemma_mul_at(a: Seq<u64>, b: Seq<u64>, n: int, z: int)
    requires
        n > 0,
    ensures
        same(
            ext(ring_mul(a, b, n), n, z),
            sum(|i: int| ext(a, n, i) * ext(b, n, z - i), n),
        ),
{
    lemma_fundamental_div_mod(z, n);
    let (k, w) = (z / n, z % n);
    let inside = |i: int| ext(a, n, i) * ext(b, n, w - i);
    let at = |i: int| ext(a, n, i) * ext(b, n, z - i);
    lemma_conv_is_sum(a, b, n, w, n);
    let c = conv_sum(a, b, n, w, n);
    lemma_residue_same(c);
    let r = ring_mul(a, b, n);
    assert(r[w] == residue(c));
    assert(n * k == k * n) by (nonlinear_arith);
    if k % 2 == 0 {
        assert forall|i: int| 0 <= i < n implies #[trigger] at(i) == inside(i) by {
            lemma_ext_steps(b, n, w - i, k);
        }
        lemma_sum_equal(at, inside, n);
    } else {
        let minus = |i: int| -1 * inside(i);
        assert forall|i: int| 0 <= i < n implies #[trigger] at(i) == minus(i) by {
            lemma_ext_steps(b, n, w - i, k);
            let (x, y) = (ext(a, n, i), ext(b, n, w - i));
            assert(x * (-y) == -1 * (x * y)) by (nonlinear_arith);
        }
        lemma_sum_equal(at, minus, n);
        lemma_sum_scale(inside, -1, n);
        lemma_same_add(0, 0, r[w] as int, c);
    }
}

/// The contributions of the first `k` coefficients as a sum.
proof fn lemma_conv_is_sum(a: Seq<u64>, b: Seq<u64>, n: int, z: int, k: int)
    requires
        0 <= z < n,
        0 <= k <= n,
    ensures
        conv_sum(a, b, n, z, k) == sum(|i: int| ext(a, n, i) * ext(b, n, z - i), k),
    decreases k,
{
    if k > 0 {
        lemma_conv_is_sum(a, b, n, z, k - 1);
        let i = k - 1;
        lemma_ext_inside(a, n, i);
        if i <= z {
            lemma_ext_inside(b, n, z - i);
        } else {
            lemma_ext_inside(b, n, n + z - i);
            lemma_ext_step(b, n, z - i);
            let (x, y) = (a[i] as int, b[n + z - i] as int);
            assert(x * (-y) == -(x * y)) by (nonlinear_arith);
        }
    }
}

/// A coefficient of a sum, a negative or a multiple at any place.
pub proof fn lemma_linear_at(a: Seq<u64>, b: Seq<u64>, c: int, n: int, z: int)
    requires
        n > 0,
    ensures
        same(ext(ring_add(a, b, n), n, z), ext(a, n, z) + ext(b, n, z)),
        same(ext(ring_neg(a, n), n, z), -ext(a, n, z)),
        same(ext(ring_scale(a, c, n), n, z), c * ext(a, n, z)),
{
    let w = z % n;
    lemma_fundamental_div_mod(z, n);
    let (x, y) = (a[w] as int, b[w] as int);
    lemma_residue_same(x + y);
    lemma_residue_same(-x);
    lemma_residue_same(c * x);
    lemma_same_add(0, 0, residue(x + y) as int, x + y);
    lemma_same_add(0, 0, residue(-x) as int, -x);
    lemma_same_add(0, 0, residue(c * x) as int, c * x);
    assert(c * (-x) == -(c * x)) by (nonlinear_arith);
}

/// Ring elements with congruent coefficients are equal.
pub proof fn lemma_ring_equal(a: Seq<u64>, b: Seq<u64>, n: int)
    requires
        is_ring(a, n),
        is_ring(b, n),
        n > 0,
        forall|z: int| 0 <= z < n ==> same(#[trigger] ext(a, n, z), ext(b, n, z)),
    ensures
        a == b,
{
    assert forall|z: int| 0 <= z < n implies a[z] == b[z] by {
        assert(same(ext(a, n, z), ext(b, n, z)));
        lemma_ext_inside(a, n, z);
        lemma_ext_inside(b, n, z);
        let k = lemma_same_gap(a[z] as int, b[z] as int);
        assert(k == 0) by (nonlinear_arith)
            requires
                a[z] == b[z] + MODULUS * k,
                a[z] < MODULUS,
                b[z] < MODULUS,
                0 <= a[z],
                0 <= b[z],
        ;
    }
    assert(a =~= b);
}

/// The sum that gives coefficient `z` of a product.
pub open spec fn prod(a: Seq<u64>, b: Seq<u64>, n: int, z: int) -> int {
    sum(|i: int| ext(a, n, i) * ext(b, n, z - i), n)
}

/// Products of elements with congruent coefficients are congruent.
pub proof fn lemma_prod_same(
    a: Seq<u64>,
    b: Seq<u64>,
    f: spec_fn(int) -> int,
    g: spec_fn(int) -> int,
    n: int,
    z: int,
)
    requires
        forall|i: int| same(ext(a, n, i), #[trigger] f(i)),
        forall|i: int| same(ext(b, n, i), #[trigger] g(i)),
    ensures
        same(prod(a, b, n, z), sum(|i: int| f(i) * g(z - i), n)),
{
    let x = |i: int| ext(a, n, i) * ext(b, n, z - i);
    let y = |i: int| f(i) * g(z - i);
    assert forall|i: int| 0 <= i < n implies same(#[trigger] x(i), y(i)) by {
        assert(same(ext(a, n, i), f(i)));
        assert(same(ext(b, n, z - i), g(z - i)));
        lemma_same_mul(ext(a, n, i), f(i), ext(b, n, z - i), g(z - i));
    }
    lemma_sum_same(x, y, n);
}

/// Every number is congruent to itself.
pub proof fn lemma_same_self(x: int)
    ensures
        same(x, x),
{
    assert(MODULUS * 0 == 0);
    lemma_same_by(x, x, 0);
}

/// Products of three elements do not depend on their grouping.
pub proof fn lemma_mul_groups(a: Seq<u64>, b: Seq<u64>, c: Seq<u64>, n: int)
    requires
        n > 0,
    ensures
        ring_mul(ring_mul(a, b, n), c, n) == ring_mul(a, ring_mul(b, c, n), n),
{
    let (ab, bc) = (ring_mul(a, b, n), ring_mul(b, c, n));
    let (l, r) = (ring_mul(ab, c, n), ring_mul(a, bc, n));
    assert forall|z: int| 0 <= z < n implies same(#[trigger] ext(l, n, z), ext(r, n, z)) by {
        lemma_mul_at(ab, c, n, z);
        lemma_mul_at(a, bc, n, z);
        let (ea, eb, ec) = (
            |i: int| ext(a, n, i),
            |i: int| ext(b, n, i),
            |i: int| ext(c, n, i),
        );
        let fab = |j: int| prod(a, b, n, j);
        let fbc = |j: int| prod(b, c, n, j);
        assert forall|i: int| same(ext(ab, n, i), #[trigger] fab(i)) by {
            lemma_mul_at(a, b, n, i);
        }
        assert forall|i: int| same(ext(bc, n, i), #[trigger] fbc(i)) by {
            lemma_mul_at(b, c, n, i);
        }
        assert forall|i: int| same(ext(a, n, i), #[trigger] ea(i)) by {
            lemma_same_self(ext(a, n, i));
        }
        assert forall|i: int| same(ext(c, n, i), #[trigger] ec(i)) by {
            lemma_same_self(ext(c, n, i));
        }
        lemma_prod_same(ab, c, fab, ec, n, z);
        lemma_prod_same(a, bc, ea, fbc, n, z);
        let term = |j: int, i: int| ext(a, n, i) * ext(b, n, j - i) * ext(c, n, z - j);
        // The left side, as a double sum.
        let left = |j: int| fab(j) * ec(z - j);
        let rows = |j: int| sum(|i: int| term(j, i), n);
        assert forall|j: int| 0 <= j < n implies #[trigger] left(j) == rows(j) by {
            let p = |i: int| ext(a, n, i) * ext(b, n, j - i);
            lemma_sum_scale(p, ec(z - j), n);
            assert forall|i: int| 0 <= i < n implies #[trigger] term(j, i) == ec(z - j) * p(
                i,
            ) by {
                assert(p(i) * ec(z - j) == ec(z - j) * p(i)) by (nonlinear_arith);
            }
            lemma_sum_equal(|i: int| term(j, i), |i: int| ec(z - j) * p(i), n);
            assert(sum(p, n) * ec(z - j) == ec(z - j) * sum(p, n)) by (nonlinear_arith);
        }
        lemma_sum_equal(left, rows, n);
        lemma_sum_exchange(term, n, n);
        // The right side, term by term.
        let right = |i: int| ea(i) * fbc(z - i);
        let cols = |i: int| sum(|j: int| term(j, i), n);
        assert forall|i: int| 0 <= i < n implies #[trigger] right(i) == cols(i) by {
            let h = |k: int| ext(b, n, k) * ext(c, n, (z - i) - k);
            assert forall|k: int| #[trigger] h(k + n) == h(k) by {
                lemma_ext_step(b, n, k);
                lemma_ext_step(c, n, (z - i) - k - n);
                let (x, y) = (ext(b, n, k), ext(c, n, (z - i) - (k + n)));
                assert((-x) * y == x * (-y)) by (nonlinear_arith);
            }
            lemma_sum_period(h, n, -i);
            let moved = |j: int| h(j + -i);
            lemma_sum_scale(moved, ea(i), n);
            assert forall|j: int| 0 <= j < n implies #[trigger] term(j, i) == ea(i) * moved(j) by {
                assert((z - i) - (j - i) == z - j);
                let (x, y, w) = (ext(a, n, i), ext(b, n, j - i), ext(c, n, z - j));
                assert(x * y * w == x * (y * w)) by (nonlinear_arith);
            }
            lemma_sum_equal(|j: int| term(j, i), |j: int| ea(i) * moved(j), n);
        }
        lemma_sum_equal(right, cols, n);
        let m = sum(left, n);
        lemma_same_add(ext(l, n, z), prod(ab, c, n, z), prod(ab, c, n, z), m);
        lemma_same_add(ext(r, n, z), prod(a, bc, n, z), prod(a, bc, n, z), m);
        lemma_same_add(ext(r, n, z), m, m, m);
        lemma_same_add(ext(l, n, z), m, m, ext(r, n, z));
    }
    crate::ring::lemma_ring_closed(ab, c, 0, n);
    crate::ring::lemma_ring_closed(a, bc, 0, n);
    lemma_ring_equal(l, r, n);
}

/// Products of sums are sums of products, and factors can be taken out.
pub proof fn lemma_mul_linear(a: Seq<u64>, b: Seq<u64>, c: Seq<u64>, k: int, n: int)
    requires
        n > 0,
    ensures
        ring_mul(a, ring_add(b, c, n), n) == ring_add(ring_mul(a, b, n), ring_mul(a, c, n), n),
        ring_mul(ring_add(b, c, n), a, n) == ring_add(ring_mul(b, a, n), ring_mul(c, a, n), n),
        ring_mul(a, ring_scale(b, k, n), n) == ring_scale(ring_mul(a, b, n), k, n),
        ring_mul(ring_scale(b, k, n), a, n) == ring_scale(ring_mul(b, a, n), k, n),
{
    let (bc, kb) = (ring_add(b, c, n), ring_scale(b, k, n));
    let (ab, ac, ba, ca) = (
        ring_mul(a, b, n),
        ring_mul(a, c, n),
        ring_mul(b, a, n),
        ring_mul(c, a, n),
    );
    let ea = |i: int| ext(a, n, i);
    let both = |i: int| ext(b, n, i) + ext(c, n, i);
    let scaled = |i: int| k * ext(b, n, i);
    assert forall|i: int| same(ext(a, n, i), #[trigger] ea(i)) by {
        lemma_same_self(ext(a, n, i));
    }
    assert forall|i: int| same(ext(bc, n, i), #[trigger] both(i)) by {
        lemma_linear_at(b, c, k, n, i);
    }
    assert forall|i: int| same(ext(kb, n, i), #[trigger] scaled(i)) by {
        lemma_linear_at(b, c, k, n, i);
    }
    let (r1, s1) = (ring_mul(a, bc, n), ring_add(ab, ac, n));
    let (r2, s2) = (ring_mul(bc, a, n), ring_add(ba, ca, n));
    let (r3, s3) = (ring_mul(a, kb, n), ring_scale(ab, k, n));
    let (r4, s4) = (ring_mul(kb, a, n), ring_scale(ba, k, n));
    assert forall|z: int| 0 <= z < n implies same(#[trigger] ext(r1, n, z), ext(s1, n, z)) && same(
        ext(r2, n, z),
        ext(s2, n, z),
    ) by {
        lemma_prod_same(a, bc, ea, both, n, z);
        lemma_prod_same(bc, a, both, ea, n, z);
        let (f, g) = (
            |i: int| ext(a, n, i) * ext(b, n, z - i),
            |i: int| ext(a, n, i) * ext(c, n, z - i),
        );
        let (u, v) = (
            |i: int| ext(b, n, i) * ext(a, n, z - i),
            |i: int| ext(c, n, i) * ext(a, n, z - i),
        );
        let right = |i: int| ea(i) * both(z - i);
        let left = |i: int| both(i) * ea(z - i);
        assert forall|i: int| 0 <= i < n implies #[trigger] right(i) == f(i) + g(i) by {
            let (x, y, w) = (ea(i), ext(b, n, z - i), ext(c, n, z - i));
            assert(x * (y + w) == x * y + x * w) by (nonlinear_arith);
        }
        assert forall|i: int| 0 <= i < n implies #[trigger] left(i) == u(i) + v(i) by {
            let (x, y, w) = (ea(z - i), ext(b, n, i), ext(c, n, i));
            assert((y + w) * x == y * x + w * x) by (nonlinear_arith);
        }
        lemma_sum_equal(right, |i: int| f(i) + g(i), n);
        lemma_sum_equal(left, |i: int| u(i) + v(i), n);
        lemma_sum_add(f, g, n);
        lemma_sum_add(u, v, n);
        lemma_mul_at(a, bc, n, z);
        lemma_mul_at(bc, a, n, z);
        lemma_mul_at(a, b, n, z);
        lemma_mul_at(a, c, n, z);
        lemma_mul_at(b, a, n, z);
        lemma_mul_at(c, a, n, z);
        lemma_linear_at(ab, ac, k, n, z);
        lemma_linear_at(ba, ca, k, n, z);
        lemma_chain_sum(
            ext(r1, n, z),
            prod(a, bc, n, z),
            ext(ab, n, z),
            ext(ac, n, z),
            prod(a, b, n, z),
            prod(a, c, n, z),
            ext(s1, n, z),
        );
        lemma_chain_sum(
            ext(r2, n, z),
            prod(bc, a, n, z),
            ext(ba, n, z),
            ext(ca, n, z),
            prod(b, a, n, z),
            prod(c, a, n, z),
            ext(s2, n, z),
        );
    }
    assert forall|z: int| 0 <= z < n implies same(#[trigger] ext(r3, n, z), ext(s3, n, z)) && same(
        ext(r4, n, z),
        ext(s4, n, z),
    ) by {
        lemma_prod_same(a, kb, ea, scaled, n, z);
        lemma_prod_same(kb, a, scaled, ea, n, z);
        let f = |i: int| ext(a, n, i) * ext(b, n, z - i);
        let u = |i: int| ext(b, n, i) * ext(a, n, z - i);
        let right = |i: int| ea(i) * scaled(z - i);
        let left = |i: int| scaled(i) * ea(z - i);
        assert forall|i: int| 0 <= i < n implies #[trigger] right(i) == k * f(i) by {
            let (x, y) = (ea(i), ext(b, n, z - i));
            assert(x * (k * y) == k * (x * y)) by (nonlinear_arith);
        }
        assert forall|i: int| 0 <= i < n implies #[trigger] left(i) == k * u(i) by {
            let (x, y) = (ea(z - i), ext(b, n, i));
            assert((k * y) * x == k * (y * x)) by (nonlinear_arith);
        }
        lemma_sum_equal(right, |i: int| k * f(i), n);
        lemma_sum_equal(left, |i: int| k * u(i), n);
        lemma_sum_scale(f, k, n);
        lemma_sum_scale(u, k, n);
        lemma_mul_at(a, kb, n, z);
        lemma_mul_at(kb, a, n, z);
        lemma_mul_at(a, b, n, z);
        lemma_mul_at(b, a, n, z);
        lemma_linear_at(ab, ac, k, n, z);
        lemma_linear_at(ba, ca, k, n, z);
        lemma_same_self(k);
        lemma_same_mul(k, k, ext(ab, n, z), prod(a, b, n, z));
        lemma_same_mul(k, k, ext(ba, n, z), prod(b, a, n, z));
        lemma_chain(
            ext(r3, n, z),
            prod(a, kb, n, z),
            k * prod(a, b, n, z),
            k * ext(ab, n, z),
            ext(s3, n, z),
        );
        lemma_chain(
            ext(r4, n, z),
            prod(kb, a, n, z),
            k * prod(b, a, n, z),
            k * ext(ba, n, z),
            ext(s4, n, z),
        );
    }
    assert forall|z: int| 0 <= z < n implies same(#[trigger] ext(r2, n, z), ext(s2, n, z)) by {
        assert(same(ext(r1, n, z), ext(s1, n, z)));
    }
    assert forall|z: int| 0 <= z < n implies same(#[trigger] ext(r4, n, z), ext(s4, n, z)) by {
        assert(same(ext(r3, n, z), ext(s3, n, z)));
    }
    crate::ring::lemma_ring_closed(a, bc, k, n);
    crate::ring::lemma_ring_closed(bc, a, k, n);
    crate::ring::lemma_ring_closed(a, kb, k, n);
    crate::ring::lemma_ring_closed(kb, a, k, n);
    crate::ring::lemma_ring_closed(ab, ac, k, n);
    crate::ring::lemma_ring_closed(ba, ca, k, n);
    lemma_ring_equal(r1, s1, n);
    lemma_ring_equal(r2, s2, n);
    lemma_ring_equal(r3, s3, n);
    lemma_ring_equal(r4, s4, n);
}

/// Congruences in a row: the first and the last number are congruent.
proof fn lemma_chain(a: int, b: int, c: int, d: int, e: int)
    requires
        same(a, b),
        same(b, c),
        same(d, c),
        same(e, d),
    ensures
        same(a, e),
{
    lemma_same_add(a, b, b, c);
    lemma_same_add(e, d, d, c);
    lemma_same_add(e, c, c, c);
    lemma_same_add(a, c, c, e);
}

/// A number that is congruent to a sum by way of its parts.
proof fn lemma_chain_sum(r: int, p: int, x: int, y: int, u: int, v: int, s: int)
    requires
        same(r, p),
        same(p, u + v),
        same(x, u),
        same(y, v),
        same(s, x + y),
    ensures
        same(r, s),
{
    lemma_same_add(x, u, y, v);
    lemma_chain(r, p, u + v, x + y, s);
}

/// A periodic function has the same value any number of periods away.
proof fn lemma_periods(f: spec_fn(int) -> int, n: int, x: int, m: int)
    requires
        forall|i: int| #[trigger] f(i + n) == f(i),
    ensures
        f(x + m * n) == f(x),
    decreases if m >= 0 {
        m
    } else {
        -m
    },
{
    if m == 0 {
        assert(0 * n == 0);
    } else if m > 0 {
        lemma_periods(f, n, x, m - 1);
        assert((m - 1) * n + n == m * n) by (nonlinear_arith);
        assert(f((x + (m - 1) * n) + n) == f(x + (m - 1) * n));
    } else {
        lemma_periods(f, n, x, m + 1);
        assert(m * n + n == (m + 1) * n) by (nonlinear_arith);
        assert(f((x + m * n) + n) == f(x + m * n));
    }
}

/// The sum over one period can be taken in steps of an odd number.
proof fn lemma_sum_odd_steps(f: spec_fn(int) -> int, t: int, k: nat)
    requires
        t % 2 == 1,
        forall|i: int| #[trigger] f(i + pow2(k)) == f(i),
    ensures
        sum(|i: int| f(t * i), pow2(k) as int) == sum(f, pow2(k) as int),
{
    let n = pow2(k) as int;
    lemma_pow2_pos(k);
    let g = |j: int, i: int|
        if (i * t) % n == j {
            f(j)
        } else {
            0
        };
    let rows = |j: int| sum(|i: int| g(j, i), n);
    let cols = |i: int| sum(|j: int| g(j, i), n);
    assert forall|j: int| 0 <= j < n implies #[trigger] f(j) == rows(j) by {
        let at = lemma_place_taken(t, k, j);
        let row = |i: int| g(j, i);
        assert forall|i: int| 0 <= i < n && i != at implies #[trigger] row(i) == 0 by {
            if (i * t) % n == j {
                lemma_places_differ(t, k, i, at);
            }
        }
        lemma_sum_single(row, at, n);
    }
    let steps = |i: int| f(t * i);
    assert forall|i: int| 0 <= i < n implies #[trigger] steps(i) == cols(i) by {
        let at = (i * t) % n;
        lemma_fundamental_div_mod(i * t, n);
        let col = |j: int| g(j, i);
        assert forall|j: int| 0 <= j < n && j != at implies #[trigger] col(j) == 0 by {}
        lemma_sum_single(col, at, n);
        let m = (i * t) / n;
        assert(n * m == m * n && i * t == t * i) by (nonlinear_arith);
        lemma_periods(f, n, at, m);
    }
    lemma_sum_equal(f, rows, n);
    lemma_sum_equal(steps, cols, n);
    lemma_sum_exchange(g, n, n);
}

/// The coefficient at `t * i` of the image of an element under the map that
/// replaces `x` by `x^t` is the element's at `i`, at any place.
pub proof fn lemma_image_at(tau: Seq<u64>, s: Seq<u64>, t: int, n: int, i: int)
    requires
        n > 0,
        t % 2 == 1,
        is_ring(s, n),
        is_automorph(tau, s, t, n),
    ensures
        same(ext(tau, n, t * i), ext(s, n, i)),
{
    lemma_fundamental_div_mod(i, n);
    let (k, w) = (i / n, i % n);
    let v = s[w];
    let at = w * t;
    assert(tau[at % n] == if (at / n) % 2 == 0 {
        v
    } else {
        negated(v)
    });
    assert(same(ext(tau, n, at), v as int)) by {
        lemma_same_self(v as int);
        if (at / n) % 2 != 0 && v != 0 {
            lemma_same_by(-(MODULUS - v), v as int, -1);
        }
    }
    assert(t * i == at + (t * k) * n) by (nonlinear_arith)
        requires
            i == n * k + w,
            at == w * t,
    ;
    lemma_ext_steps(tau, n, at, t * k);
    assert((t * k) % 2 == k % 2) by (nonlinear_arith)
        requires
            t % 2 == 1,
    {
        let h = t / 2;
        assert(t * k == 2 * (h * k) + k) by (nonlinear_arith)
            requires
                t == 2 * h + 1,
        ;
    }
    lemma_same_add(0, 0, ext(tau, n, at), v as int);
}

/// An element whose coefficients at the multiples of `t` are those of `s` is the
/// image of `s`.
pub proof fn lemma_is_image(tau: Seq<u64>, s: Seq<u64>, t: int, n: int)
    requires
        n > 0,
        is_ring(tau, n),
        is_ring(s, n),
        forall|i: int| 0 <= i < n ==> same(#[trigger] ext(tau, n, t * i), ext(s, n, i)),
    ensures
        is_automorph(tau, s, t, n),
{
    assert forall|i: int| 0 <= i < n implies tau[(#[trigger] (i * t)) % n] == if ((i * t) / n) % 2
        == 0 {
        s[i]
    } else {
        negated(s[i])
    } by {
        assert(i * t == t * i) by (nonlinear_arith);
        assert(same(ext(tau, n, t * i), ext(s, n, i)));
        lemma_ext_inside(s, n, i);
        lemma_fundamental_div_mod(i * t, n);
        let x = tau[(i * t) % n] as int;
        let even = ((i * t) / n) % 2 == 0;
        let k = lemma_same_gap(
            if even {
                x
            } else {
                -x
            },
            s[i] as int,
        );
        if even {
            assert(k == 0) by (nonlinear_arith)
                requires
                    x == s[i] + MODULUS * k,
                    0 <= x < MODULUS,
                    0 <= s[i] < MODULUS,
            ;
        } else {
            assert(k == 0 || k == -1) by (nonlinear_arith)
                requires
                    -x == s[i] + MODULUS * k,
                    0 <= x < MODULUS,
                    0 <= s[i] < MODULUS,
            ;
        }
    }
}

/// The image of a product is the product of the images, and that of a sum their
/// sum.
pub proof fn lemma_image_of_product(
    ta: Seq<u64>,
    a: Seq<u64>,
    tb: Seq<u64>,
    b: Seq<u64>,
    t: int,
    k: nat,
)
    requires
        t % 2 == 1,
        is_ring(a, pow2(k) as int),
        is_ring(b, pow2(k) as int),
        is_automorph(ta, a, t, pow2(k) as int),
        is_automorph(tb, b, t, pow2(k) as int),
    ensures
        is_automorph(
            ring_mul(ta, tb, pow2(k) as int),
            ring_mul(a, b, pow2(k) as int),
            t,
            pow2(k) as int,
        ),
        is_automorph(
            ring_add(ta, tb, pow2(k) as int),
            ring_add(a, b, pow2(k) as int),
            t,
            pow2(k) as int,
        ),
{
    let n = pow2(k) as int;
    lemma_pow2_pos(k);
    let (tc, c) = (ring_mul(ta, tb, n), ring_mul(a, b, n));
    let (td, d) = (ring_add(ta, tb, n), ring_add(a, b, n));
    assert forall|z: int| 0 <= z < n implies same(#[trigger] ext(tc, n, t * z), ext(c, n, z)) by {
        lemma_mul_at(ta, tb, n, t * z);
        lemma_mul_at(a, b, n, z);
        let f = |j: int| ext(ta, n, j) * ext(tb, n, t * z - j);
        assert forall|j: int| #[trigger] f(j + pow2(k)) == f(j) by {
            lemma_ext_step(ta, n, j);
            lemma_ext_step(tb, n, t * z - j - n);
            let (x, y) = (ext(ta, n, j), ext(tb, n, t * z - (j + n)));
            assert((-x) * y == x * (-y)) by (nonlinear_arith);
        }
        lemma_sum_odd_steps(f, t, k);
        let steps = |i: int| f(t * i);
        let plain = |i: int| ext(a, n, i) * ext(b, n, z - i);
        assert forall|i: int| 0 <= i < n implies same(#[trigger] steps(i), plain(i)) by {
            lemma_image_at(ta, a, t, n, i);
            lemma_image_at(tb, b, t, n, z - i);
            assert(t * (z - i) == t * z - t * i) by (nonlinear_arith);
            lemma_same_mul(
                ext(ta, n, t * i),
                ext(a, n, i),
                ext(tb, n, t * (z - i)),
                ext(b, n, z - i),
            );
        }
        lemma_sum_same(steps, plain, n);
        let p = sum(plain, n);
        lemma_same_self(p);
        lemma_chain(ext(tc, n, t * z), sum(f, n), p, p, p);
        lemma_same_add(ext(c, n, z), p, p, p);
        lemma_same_add(ext(tc, n, t * z), p, p, ext(c, n, z));
    }
    assert forall|z: int| 0 <= z < n implies same(#[trigger] ext(td, n, t * z), ext(d, n, z)) by {
        lemma_linear_at(ta, tb, 0, n, t * z);
        lemma_linear_at(a, b, 0, n, z);
        lemma_image_at(ta, a, t, n, z);
        lemma_image_at(tb, b, t, n, z);
        let p = ext(a, n, z) + ext(b, n, z);
        lemma_same_self(p);
        lemma_same_add(ext(ta, n, t * z), ext(a, n, z), ext(tb, n, t * z), ext(b, n, z));
        lemma_chain(ext(td, n, t * z), ext(ta, n, t * z) + ext(tb, n, t * z), p, p, ext(d, n, z));
    }
    crate::ring::lemma_ring_closed(ta, tb, 0, n);
    crate::ring::lemma_ring_closed(a, b, 0, n);
    lemma_is_image(tc, c, t, n);
    lemma_is_image(td, d, t, n);
}

/// Products do not depend on the order of their factors.
pub proof fn lemma_mul_commutes(a: Seq<u64>, b: Seq<u64>, k: nat)
    ensures
        ring_mul(a, b, pow2(k) as int) == ring_mul(b, a, pow2(k) as int),
{
    let n = pow2(k) as int;
    lemma_pow2_pos(k);
    let (l, r) = (ring_mul(a, b, n), ring_mul(b, a, n));
    assert forall|z: int| 0 <= z < n implies same(#[trigger] ext(l, n, z), ext(r, n, z)) by {
        lemma_mul_at(a, b, n, z);
        lemma_mul_at(b, a, n, z);
        let f = |i: int| ext(a, n, i) * ext(b, n, z - i);
        assert forall|j: int| #[trigger] f(j + pow2(k)) == f(j) by {
            lemma_ext_step(a, n, j);
            lemma_ext_step(b, n, z - j - n);
            let (x, y) = (ext(a, n, j), ext(b, n, z - (j + n)));
            assert((-x) * y == x * (-y)) by (nonlinear_arith);
        }
        lemma_sum_odd_steps(f, -1, k);
        let back = |i: int| f(-1 * i);
        assert forall|j: int| #[trigger] back(j + n) == back(j) by {
            assert(f((-(j + n)) + pow2(k)) == f(-(j + n)));
        }
        lemma_sum_period(back, n, -z);
        let turned = |i: int| back(i + -z);
        let g = |i: int| ext(b, n, i) * ext(a, n, z - i);
        assert forall|i: int| 0 <= i < n implies #[trigger] turned(i) == g(i) by {
            let (x, y) = (ext(a, n, z - i), ext(b, n, i));
            assert(x * y == y * x) by (nonlinear_arith);
        }
        lemma_sum_equal(turned, g, n);
        let p = sum(g, n);
        lemma_same_self(p);
        lemma_chain(ext(l, n, z), p, p, p, ext(r, n, z));
    }
    crate::ring::lemma_ring_closed(a, b, 0, n);
    crate::ring::lemma_ring_closed(b, a, 0, n);
    lemma_ring_equal(l, r, n);
}

/// Multiplying by `v` times the power `at` of `x` moves every coefficient up by
/// that power and multiplies it.
pub proof fn lemma_mul_power(m: Seq<u64>, v: u64, at: int, a: Seq<u64>, n: int, z: int)
    requires
        0 <= at < n,
        m == one_hot(n, at, v),
    ensures
        same(ext(ring_mul(m, a, n), n, z), v * ext(a, n, z - at)),
{
    lemma_mul_at(m, a, n, z);
    let f = |i: int| ext(m, n, i) * ext(a, n, z - i);
    assert forall|i: int| 0 <= i < n && i != at implies #[trigger] f(i) == 0 by {
        lemma_ext_inside(m, n, i);
        let y = ext(a, n, z - i);
        assert(0 * y == 0) by (nonlinear_arith);
    }
    lemma_sum_single(f, at, n);
    lemma_ext_inside(m, n, at);
}

/// A sum of values within `bound` of zero is within as many times `bound`.
pub proof fn lemma_sum_bound(f: spec_fn(int) -> int, bound: int, k: int)
    requires
        0 <= k,
        forall|i: int| 0 <= i < k ==> -bound <= #[trigger] f(i) <= bound,
    ensures
        -(k * bound) <= sum(f, k) <= k * bound,
    decreases k,
{
    if k > 0 {
        lemma_sum_bound(f, bound, k - 1);
        assert(k * bound == (k - 1) * bound + bound) by (nonlinear_arith);
    } else {
        assert(0 * bound == 0);
    }
}

/// The coefficients of the product of an element near zero with one of small
/// coefficients are congruent to small numbers. Gives the number.
pub proof fn lemma_small_product(
    e: Seq<u64>,
    g: Seq<u64>,
    n: int,
    z: int,
    bound: int,
    limit: int,
) -> (r: int)
    requires
        n > 0,
        0 <= bound,
        forall|i: int| 0 <= i < n ==> near_zero(#[trigger] e[i], MODULUS, bound),
        forall|i: int| 0 <= i < n ==> #[trigger] g[i] <= limit,
    ensures
        same(ext(ring_mul(e, g, n), n, z), r),
        -(n * (bound * limit)) <= r <= n * (bound * limit),
{
    lemma_mul_at(e, g, n, z);
    let f = |i: int| ext(e, n, i) * ext(g, n, z - i);
    let small = |i: int|
        (if e[i] <= bound {
            e[i] as int
        } else {
            e[i] - MODULUS
        }) * ext(g, n, z - i);
    assert forall|i: int| 0 <= i < n implies same(#[trigger] f(i), small(i)) by {
        lemma_ext_inside(e, n, i);
        let y = ext(g, n, z - i);
        if e[i] <= bound {
            lemma_same_self(f(i));
        } else {
            assert(e[i] * y == (e[i] - MODULUS) * y + MODULUS * y) by (nonlinear_arith);
            lemma_same_by(f(i), small(i), y);
        }
    }
    assert forall|i: int| 0 <= i < n implies -(bound * limit) <= #[trigger] small(i) <= bound
        * limit by {
        assert(near_zero(e[i], MODULUS, bound));
        let x = if e[i] <= bound {
            e[i] as int
        } else {
            e[i] - MODULUS
        };
        let y = ext(g, n, z - i);
        let at = (z - i) % n;
        lemma_fundamental_div_mod(z - i, n);
        assert(g[at] <= limit);
        assert(-(bound * limit) <= x * y <= bound * limit) by (nonlinear_arith)
            requires
                -bound <= x <= bound,
                -limit <= y <= limit,
        ;
    }
    lemma_sum_same(f, small, n);
    lemma_sum_bound(small, bound * limit, n);
    let r = sum(small, n);
    lemma_same_add(ext(ring_mul(e, g, n), n, z), sum(f, n), sum(f, n), r);
    r
}

/// The negative of an element is the element times minus one.
pub proof fn lemma_neg_is_scale(a: Seq<u64>, n: int)
    ensures
        ring_neg(a, n) == ring_scale(a, -1, n),
{
    assert forall|z: int| 0 <= z < n implies ring_neg(a, n)[z] == ring_scale(a, -1, n)[z] by {
        assert(-(a[z] as int) == -1 * (a[z] as int));
    }
    assert(ring_neg(a, n) =~= ring_scale(a, -1, n));
}

} // verus!
