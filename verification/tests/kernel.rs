//! Batched products against schoolbook sums.
use valar_spiral_rs::poly as spiral_poly;
use valar_spiral_rs::poly::PolyMatrix;
use ypir::aligned::AlignedMemory64;
use ypir::kernel::{
    fast_batched_dot_product, fast_batched_dot_product_explicit_avx512,
    fast_batched_dot_product_implicit, multiply_matrices_raw_not_transposed, scalar_multiply_avx,
    split_a,
};
use ypir::params::{params_for_scenario, Params};
use ypir::poly::PolyMatrixNTT;
use ypir::ring::{negacyclic_matrix, negacyclic_perm};

const K2: usize = 2;

const K5: usize = 5;

fn test_params() -> Params {
    params_for_scenario(1 << 30, 1)
}

fn spiral_params(params: &Params) -> valar_spiral_rs::params::Params {
    valar_spiral_rs::params::Params::init(
        params.poly_len,
        &params.moduli,
        params.noise_width_e8 as f64 / 1e8,
        1,
        2,
        14,
        1,
        1,
        1,
        1,
        true,
        0,
        0,
        1,
        0,
        0,
    )
}

fn transposed(m: &[u64], n: usize) -> Vec<u64> {
    let mut out = vec![0u64; n * n];
    for i in 0..n {
        for j in 0..n {
            out[j * n + i] = m[i * n + j];
        }
    }
    out
}

#[test]
fn test_negacyclic_mul_db_col() {
    let params = test_params();
    let sp = spiral_params(&params);
    let pol_a = spiral_poly::PolyMatrixRaw::random(&sp, 1, 1);
    let pol_b = spiral_poly::PolyMatrixRaw::random(&sp, 1, 1);
    let a = pol_a.get_poly(0, 0);
    let b = pol_b.get_poly(0, 0);
    let negacylic_a = negacyclic_matrix(a, params.modulus);
    let negacyclic_a_t = transposed(&negacylic_a, params.poly_len);

    // b stands for a column of the database: the product is that of b as a row
    // vector and the transpose of the matrix of a

    assert_eq!(negacylic_a[0], a[0]);
    assert_eq!(
        negacylic_a[params.poly_len],
        (params.modulus - a[params.poly_len - 1]) % params.modulus
    );
    let prod = multiply_matrices_raw_not_transposed(
        &params,
        b,
        1,
        params.poly_len,
        &negacyclic_a_t,
        params.poly_len,
        params.poly_len,
    );

    let transformed_a = negacyclic_perm(a, 0, params.modulus);
    let mut pol_a_transformed = spiral_poly::PolyMatrixRaw::zero(&sp, 1, 1);
    pol_a_transformed.as_mut_slice().copy_from_slice(&transformed_a);
    let pol_c = (&pol_a_transformed.ntt() * &pol_b.ntt()).raw();
    let c = pol_c.get_poly(0, 0);

    for i in 0..params.poly_len {
        assert_eq!(prod[i] % params.modulus, c[i] % params.modulus, "i = {}", i);
    }
}

#[test]
fn test_negacyclic_mul() {
    let params = test_params();
    let sp = spiral_params(&params);
    let pol_a = spiral_poly::PolyMatrixRaw::random(&sp, 1, 1);
    let pol_b = spiral_poly::PolyMatrixRaw::random(&sp, 1, 1);
    let a = pol_a.get_poly(0, 0);
    let b = pol_b.get_poly(0, 0);
    let negacylic_a = negacyclic_matrix(a, params.modulus);
    assert_eq!(negacylic_a[0], a[0]);
    assert_eq!(
        negacylic_a[params.poly_len],
        (params.modulus - a[params.poly_len - 1]) % params.modulus
    );
    let prod = multiply_matrices_raw_not_transposed(
        &params,
        b,
        1,
        params.poly_len,
        &negacylic_a,
        params.poly_len,
        params.poly_len,
    );

    let pol_c = (&pol_a.ntt() * &pol_b.ntt()).raw();
    let c = pol_c.get_poly(0, 0);

    for i in 0..params.poly_len {
        assert_eq!(prod[i] % params.modulus, c[i] % params.modulus, "i = {}", i);
    }
}

/// The dot product column by column, with the two halves summed apart.
fn schoolbook_dot_product_u16(
    params: &Params,
    c: &mut [u64],
    a: &[u64],
    a_elems: usize,
    b_t: &[u16],
    b_rows: usize,
    b_cols: usize,
) {
    assert_eq!(a_elems, b_rows);
    for j in 0..b_cols {
        let mut sum_lo = 0u64;
        let mut sum_hi = 0u64;
        for k in 0..a_elems {
            let a_val = a[k];
            let a_lo = (a_val as u32) as u64;
            let a_hi = ((a_val >> 32) as u32) as u64;
            let b_val = b_t[j * b_rows + k] as u64;
            sum_lo += a_lo * b_val;
            sum_hi += a_hi * b_val;
        }
        let (lo, hi) = (
            params.barrett_coeff_u64(sum_lo, 0),
            params.barrett_coeff_u64(sum_hi, 1),
        );
        let res = params.crt_compose_2(lo, hi);
        c[j] = params.barrett_u64(c[j] + res);
    }
}

fn schoolbook_batched_dot_product_u16<const K: usize>(
    params: &Params,
    c: &mut [u64],
    a: &[u64],
    a_elems: usize,
    b_t: &[u16],
    b_rows: usize,
    b_cols: usize,
) {
    assert_eq!(a.len(), K * a_elems);
    assert_eq!(c.len(), K * b_cols);
    let a_rows = split_a::<K>(a);

    for (batch, c_row) in c.chunks_exact_mut(b_cols).enumerate() {
        schoolbook_dot_product_u16(
            params,
            c_row,
            a_rows[batch],
            a_elems,
            b_t,
            b_rows,
            b_cols,
        );
    }
}

fn random_bounded_aligned(len: usize, bound: u64) -> AlignedMemory64 {
    let mut mem = AlignedMemory64::new(len);
    for i in 0..len {
        mem[i] = fastrand::u64(..) % bound;
    }
    mem
}

fn random_u16_vec(len: usize) -> Vec<u16> {
    (0..len).map(|_| fastrand::u16(..)).collect()
}

#[test]
fn test_implicit_matches_reference() {
    let params = test_params();
    let a_elems = 65536;
    let b_cols = 1024;

    let a = random_bounded_aligned(a_elems, params.modulus);
    let b_t_u16 = random_u16_vec(a_elems * b_cols);

    let mut c_ref = vec![0u64; b_cols];
    schoolbook_dot_product_u16(
        &params,
        &mut c_ref,
        a.as_slice(),
        a_elems,
        &b_t_u16,
        a_elems,
        b_cols,
    );

    let mut c_impl = AlignedMemory64::new(b_cols);
    fast_batched_dot_product_implicit::<1, _>(
        &params,
        c_impl.as_mut_slice(),
        a.as_slice(),
        a_elems,
        &b_t_u16,
        a_elems,
        b_cols,
    );

    for j in 0..b_cols {
        assert_eq!(
            c_impl.as_slice()[j], c_ref[j],
            "mismatch at column {j}: implicit={} ref={}",
            c_impl.as_slice()[j], c_ref[j]
        );
    }
}

fn assert_implicit_k5_matches_reference(a_elems: usize, b_cols: usize) {
    let params = test_params();

    let a = random_bounded_aligned(K5 * a_elems, params.modulus);
    let b_t_u16 = random_u16_vec(a_elems * b_cols);

    let mut c_ref = vec![0u64; K5 * b_cols];
    schoolbook_batched_dot_product_u16::<K5>(
        &params,
        &mut c_ref,
        a.as_slice(),
        a_elems,
        &b_t_u16,
        a_elems,
        b_cols,
    );

    let mut c_impl = AlignedMemory64::new(K5 * b_cols);
    fast_batched_dot_product_implicit::<K5, _>(
        &params,
        c_impl.as_mut_slice(),
        a.as_slice(),
        a_elems,
        &b_t_u16,
        a_elems,
        b_cols,
    );

    assert_eq!(
        c_impl.as_slice(),
        c_ref.as_slice(),
        "implicit K=5 mismatch (a_elems={a_elems}, b_cols={b_cols})"
    );
}

#[test]
fn test_implicit_k5_matches_reference() {
    assert_implicit_k5_matches_reference(65536, 1024);
}

#[test]
fn test_implicit_k5_modulus_boundary() {
    let params = test_params();
    let a_elems = 65536;
    let b_cols = 32;

    let mut a = AlignedMemory64::new(K5 * a_elems);
    for i in 0..K5 * a_elems {
        a[i] = params.modulus - 1;
    }
    let b_t_u16: Vec<u16> = vec![u16::MAX; a_elems * b_cols];

    let mut c_ref = vec![0u64; K5 * b_cols];
    schoolbook_batched_dot_product_u16::<K5>(
        &params,
        &mut c_ref,
        a.as_slice(),
        a_elems,
        &b_t_u16,
        a_elems,
        b_cols,
    );

    let mut c_impl = AlignedMemory64::new(K5 * b_cols);
    fast_batched_dot_product_implicit::<K5, _>(
        &params,
        c_impl.as_mut_slice(),
        a.as_slice(),
        a_elems,
        &b_t_u16,
        a_elems,
        b_cols,
    );

    assert_eq!(c_impl.as_slice(), c_ref.as_slice());
}

#[test]
fn test_implicit_k5_single_column() {
    assert_implicit_k5_matches_reference(65536, 1);
}

#[test]
fn test_implicit_accumulates_into_c() {
    let params = test_params();
    let a_elems = 65536;
    let b_cols = 128;

    let a = random_bounded_aligned(a_elems, params.modulus);
    let b_t_u16 = random_u16_vec(a_elems * b_cols);

    let mut c_once = AlignedMemory64::new(b_cols);
    fast_batched_dot_product_implicit::<1, _>(
        &params,
        c_once.as_mut_slice(),
        a.as_slice(),
        a_elems,
        &b_t_u16,
        a_elems,
        b_cols,
    );

    let mut c_twice = AlignedMemory64::new(b_cols);
    fast_batched_dot_product_implicit::<1, _>(
        &params,
        c_twice.as_mut_slice(),
        a.as_slice(),
        a_elems,
        &b_t_u16,
        a_elems,
        b_cols,
    );
    fast_batched_dot_product_implicit::<1, _>(
        &params,
        c_twice.as_mut_slice(),
        a.as_slice(),
        a_elems,
        &b_t_u16,
        a_elems,
        b_cols,
    );

    for j in 0..b_cols {
        let expected = params.barrett_u64(c_once.as_slice()[j] + c_once.as_slice()[j]);
        assert_eq!(
            c_twice.as_slice()[j], expected,
            "accumulation mismatch at column {j}"
        );
    }
}

#[test]
fn test_implicit_single_column() {
    let params = test_params();
    let a_elems = 65536;
    let b_cols = 1;

    let a = random_bounded_aligned(a_elems, params.modulus);
    let b_t_u16 = random_u16_vec(a_elems);

    let mut c_ref = vec![0u64; b_cols];
    schoolbook_dot_product_u16(
        &params,
        &mut c_ref,
        a.as_slice(),
        a_elems,
        &b_t_u16,
        a_elems,
        b_cols,
    );

    let mut c_impl = AlignedMemory64::new(b_cols);
    fast_batched_dot_product_implicit::<1, _>(
        &params,
        c_impl.as_mut_slice(),
        a.as_slice(),
        a_elems,
        &b_t_u16,
        a_elems,
        b_cols,
    );

    assert_eq!(c_impl.as_slice()[0], c_ref[0], "single column mismatch");
}

#[test]
fn test_implicit_zero_input() {
    let params = test_params();
    let a_elems = 65536;
    let b_cols = 64;

    let a = AlignedMemory64::new(a_elems); // zeros
    let b_t_u16 = random_u16_vec(a_elems * b_cols);

    let mut c = AlignedMemory64::new(b_cols);
    fast_batched_dot_product_implicit::<1, _>(
        &params,
        c.as_mut_slice(),
        a.as_slice(),
        a_elems,
        &b_t_u16,
        a_elems,
        b_cols,
    );

    for j in 0..b_cols {
        assert_eq!(c.as_slice()[j], 0, "expected zero at column {j}");
    }
}

#[test]
fn test_implicit_modulus_boundary_values() {
    let params = test_params();
    let a_elems = 65536;
    let b_cols = 32;

    let mut a = AlignedMemory64::new(a_elems);
    for i in 0..a_elems {
        a[i] = params.modulus - 1;
    }
    let b_t_u16: Vec<u16> = vec![u16::MAX; a_elems * b_cols];

    let mut c_ref = vec![0u64; b_cols];
    schoolbook_dot_product_u16(
        &params,
        &mut c_ref,
        a.as_slice(),
        a_elems,
        &b_t_u16,
        a_elems,
        b_cols,
    );

    let mut c_impl = AlignedMemory64::new(b_cols);
    fast_batched_dot_product_implicit::<1, _>(
        &params,
        c_impl.as_mut_slice(),
        a.as_slice(),
        a_elems,
        &b_t_u16,
        a_elems,
        b_cols,
    );

    for j in 0..b_cols {
        assert_eq!(
            c_impl.as_slice()[j], c_ref[j],
            "modulus-boundary mismatch at column {j}"
        );
    }
}

#[test]
fn test_implicit_small_dimension() {
    let params = test_params();
    let a_elems = 65536;
    let b_cols = 2;

    let a = random_bounded_aligned(a_elems, params.modulus);
    let b_t_u16 = random_u16_vec(a_elems * b_cols);

    let mut c_ref = vec![0u64; b_cols];
    schoolbook_dot_product_u16(
        &params,
        &mut c_ref,
        a.as_slice(),
        a_elems,
        &b_t_u16,
        a_elems,
        b_cols,
    );

    let mut c_impl = AlignedMemory64::new(b_cols);
    fast_batched_dot_product_implicit::<1, _>(
        &params,
        c_impl.as_mut_slice(),
        a.as_slice(),
        a_elems,
        &b_t_u16,
        a_elems,
        b_cols,
    );

    for j in 0..b_cols {
        assert_eq!(
            c_impl.as_slice()[j], c_ref[j],
            "small dimension mismatch at column {j}"
        );
    }
}

fn assert_rayon_matches_reference(a_elems: usize, b_cols: usize) {
    let params = test_params();

    let a = random_bounded_aligned(a_elems, params.modulus);
    let b_t_u16 = random_u16_vec(a_elems * b_cols);

    let mut c_ref = vec![0u64; b_cols];
    schoolbook_dot_product_u16(
        &params,
        &mut c_ref,
        a.as_slice(),
        a_elems,
        &b_t_u16,
        a_elems,
        b_cols,
    );

    let mut c_rayon = AlignedMemory64::new(b_cols);
    fast_batched_dot_product_implicit::<1, _>(
        &params,
        c_rayon.as_mut_slice(),
        a.as_slice(),
        a_elems,
        &b_t_u16,
        a_elems,
        b_cols,
    );

    for j in 0..b_cols {
        assert_eq!(
            c_rayon.as_slice()[j], c_ref[j],
            "rayon mismatch at col {j} (a_elems={a_elems}, b_cols={b_cols})"
        );
    }
}

#[test]
fn test_rayon_implicit_standard() {
    assert_rayon_matches_reference(65536, 1024);
}

#[test]
fn test_rayon_implicit_single_column() {
    assert_rayon_matches_reference(65536, 1);
}

#[test]
fn test_rayon_implicit_two_columns() {
    assert_rayon_matches_reference(65536, 2);
}

#[test]
fn test_rayon_implicit_cols_less_than_threads() {
    let num_threads = rayon::current_num_threads();
    if num_threads > 3 {
        assert_rayon_matches_reference(65536, 3);
    }
}

#[test]
fn test_rayon_implicit_non_power_of_two_cols() {
    assert_rayon_matches_reference(65536, 100);
}

#[test]
fn test_rayon_implicit_b_cols_zero() {
    let params = test_params();
    let a_elems = 65536;
    let b_cols = 0;

    let a = random_bounded_aligned(a_elems, params.modulus);
    let b_t_u16: Vec<u16> = Vec::new();

    let mut c = AlignedMemory64::new(b_cols.max(1));
    let c_before = c.as_slice()[0];
    fast_batched_dot_product_implicit::<1, _>(
        &params,
        &mut c.as_mut_slice()[..b_cols],
        a.as_slice(),
        a_elems,
        &b_t_u16,
        a_elems,
        b_cols,
    );
    assert_eq!(c.as_slice()[0], c_before);
}

#[test]
fn test_rayon_implicit_b_cols_equal_num_threads() {
    let num_threads = rayon::current_num_threads();
    assert_rayon_matches_reference(65536, num_threads);
}

#[test]
fn test_rayon_implicit_accumulates() {
    let params = test_params();
    let a_elems = 65536;
    let b_cols = 256;

    let a = random_bounded_aligned(a_elems, params.modulus);
    let b_t_u16 = random_u16_vec(a_elems * b_cols);

    let mut c_once = AlignedMemory64::new(b_cols);
    fast_batched_dot_product_implicit::<1, _>(
        &params,
        c_once.as_mut_slice(),
        a.as_slice(),
        a_elems,
        &b_t_u16,
        a_elems,
        b_cols,
    );

    let mut c_twice = AlignedMemory64::new(b_cols);
    fast_batched_dot_product_implicit::<1, _>(
        &params,
        c_twice.as_mut_slice(),
        a.as_slice(),
        a_elems,
        &b_t_u16,
        a_elems,
        b_cols,
    );
    fast_batched_dot_product_implicit::<1, _>(
        &params,
        c_twice.as_mut_slice(),
        a.as_slice(),
        a_elems,
        &b_t_u16,
        a_elems,
        b_cols,
    );

    for j in 0..b_cols {
        let expected = params.barrett_u64(c_once.as_slice()[j] + c_once.as_slice()[j]);
        assert_eq!(
            c_twice.as_slice()[j], expected,
            "rayon accumulation mismatch at column {j}"
        );
    }
}

#[test]
fn test_rayon_implicit_zero_a() {
    let params = test_params();
    let a_elems = 65536;
    let b_cols = 64;

    let a = AlignedMemory64::new(a_elems);
    let b_t_u16 = random_u16_vec(a_elems * b_cols);

    let mut c = AlignedMemory64::new(b_cols);
    fast_batched_dot_product_implicit::<1, _>(
        &params,
        c.as_mut_slice(),
        a.as_slice(),
        a_elems,
        &b_t_u16,
        a_elems,
        b_cols,
    );

    for j in 0..b_cols {
        assert_eq!(c.as_slice()[j], 0, "expected zero at column {j}");
    }
}

#[test]
fn test_rayon_implicit_modulus_boundary() {
    let params = test_params();
    let a_elems = 65536;
    let b_cols = 32;

    let mut a = AlignedMemory64::new(a_elems);
    for i in 0..a_elems {
        a[i] = params.modulus - 1;
    }
    let b_t_u16: Vec<u16> = vec![u16::MAX; a_elems * b_cols];

    let mut c_ref = vec![0u64; b_cols];
    schoolbook_dot_product_u16(
        &params,
        &mut c_ref,
        a.as_slice(),
        a_elems,
        &b_t_u16,
        a_elems,
        b_cols,
    );

    let mut c_rayon = AlignedMemory64::new(b_cols);
    fast_batched_dot_product_implicit::<1, _>(
        &params,
        c_rayon.as_mut_slice(),
        a.as_slice(),
        a_elems,
        &b_t_u16,
        a_elems,
        b_cols,
    );

    for j in 0..b_cols {
        assert_eq!(
            c_rayon.as_slice()[j], c_ref[j],
            "rayon modulus-boundary mismatch at column {j}"
        );
    }
}

#[test]
fn test_rayon_deterministic() {
    let params = test_params();
    let a_elems = 65536;
    let b_cols = 512;

    let a = random_bounded_aligned(a_elems, params.modulus);
    let b_t_u16 = random_u16_vec(a_elems * b_cols);

    let mut c1 = AlignedMemory64::new(b_cols);
    let mut c2 = AlignedMemory64::new(b_cols);

    fast_batched_dot_product_implicit::<1, _>(
        &params,
        c1.as_mut_slice(),
        a.as_slice(),
        a_elems,
        &b_t_u16,
        a_elems,
        b_cols,
    );
    fast_batched_dot_product_implicit::<1, _>(
        &params,
        c2.as_mut_slice(),
        a.as_slice(),
        a_elems,
        &b_t_u16,
        a_elems,
        b_cols,
    );

    assert_eq!(c1.as_slice(), c2.as_slice(), "rayon results not deterministic");
}

fn assert_avx512_matches_reference(a_elems: usize, b_cols: usize) {
    let params = test_params();

    let a = random_bounded_aligned(a_elems, params.modulus);
    let b_t_u16 = random_u16_vec(a_elems * b_cols);

    let mut c_ref = vec![0u64; b_cols];
    schoolbook_dot_product_u16(
        &params,
        &mut c_ref,
        a.as_slice(),
        a_elems,
        &b_t_u16,
        a_elems,
        b_cols,
    );

    let mut c_avx = AlignedMemory64::new(b_cols);
    fast_batched_dot_product_explicit_avx512::<1, _>(
        &params,
        c_avx.as_mut_slice(),
        a.as_slice(),
        a_elems,
        &b_t_u16,
        a_elems,
        b_cols,
    );

    for j in 0..b_cols {
        assert_eq!(
            c_avx.as_slice()[j], c_ref[j],
            "AVX-512 vs reference mismatch at col {j} \
             (a_elems={a_elems}, b_cols={b_cols})"
        );
    }
}

fn assert_avx512_matches_implicit(a_elems: usize, b_cols: usize) {
    let params = test_params();

    let a = random_bounded_aligned(a_elems, params.modulus);
    let b_t_u16 = random_u16_vec(a_elems * b_cols);

    let mut c_avx = AlignedMemory64::new(b_cols);
    fast_batched_dot_product_explicit_avx512::<1, _>(
        &params,
        c_avx.as_mut_slice(),
        a.as_slice(),
        a_elems,
        &b_t_u16,
        a_elems,
        b_cols,
    );

    let mut c_scalar = AlignedMemory64::new(b_cols);
    fast_batched_dot_product_implicit::<1, _>(
        &params,
        c_scalar.as_mut_slice(),
        a.as_slice(),
        a_elems,
        &b_t_u16,
        a_elems,
        b_cols,
    );

    assert_eq!(
        c_avx.as_slice(),
        c_scalar.as_slice(),
        "AVX-512 and scalar kernels disagree (a_elems={a_elems}, b_cols={b_cols})"
    );
}

fn assert_avx512_k5_matches_reference(a_elems: usize, b_cols: usize) {
    let params = test_params();

    let a = random_bounded_aligned(K5 * a_elems, params.modulus);
    let b_t_u16 = random_u16_vec(a_elems * b_cols);

    let mut c_ref = vec![0u64; K5 * b_cols];
    schoolbook_batched_dot_product_u16::<K5>(
        &params,
        &mut c_ref,
        a.as_slice(),
        a_elems,
        &b_t_u16,
        a_elems,
        b_cols,
    );

    let mut c_avx = AlignedMemory64::new(K5 * b_cols);
    fast_batched_dot_product_explicit_avx512::<K5, _>(
        &params,
        c_avx.as_mut_slice(),
        a.as_slice(),
        a_elems,
        &b_t_u16,
        a_elems,
        b_cols,
    );

    assert_eq!(
        c_avx.as_slice(),
        c_ref.as_slice(),
        "AVX-512 K=5 mismatch (a_elems={a_elems}, b_cols={b_cols})"
    );
}

fn assert_avx512_rayon_k5_matches_reference(a_elems: usize, b_cols: usize) {
    let params = test_params();

    let a = random_bounded_aligned(K5 * a_elems, params.modulus);
    let b_t_u16 = random_u16_vec(a_elems * b_cols);

    let mut c_ref = vec![0u64; K5 * b_cols];
    schoolbook_batched_dot_product_u16::<K5>(
        &params,
        &mut c_ref,
        a.as_slice(),
        a_elems,
        &b_t_u16,
        a_elems,
        b_cols,
    );

    let mut c_avx = AlignedMemory64::new(K5 * b_cols);
    fast_batched_dot_product_explicit_avx512::<K5, _>(
        &params,
        c_avx.as_mut_slice(),
        a.as_slice(),
        a_elems,
        &b_t_u16,
        a_elems,
        b_cols,
    );

    assert_eq!(
        c_avx.as_slice(),
        c_ref.as_slice(),
        "rayon AVX-512 K=5 mismatch (a_elems={a_elems}, b_cols={b_cols})"
    );
}

#[test]
fn test_avx512_standard() {
    assert_avx512_matches_reference(65536, 1024);
}

#[test]
fn test_avx512_rayon_k5_matches_reference() {
    assert_avx512_rayon_k5_matches_reference(65536, 1024);
}

#[test]
fn test_avx512_rayon_k5_non_power_of_two_cols() {
    assert_avx512_rayon_k5_matches_reference(65536, 100);
}

#[test]
fn test_avx512_rayon_k5_single_column() {
    assert_avx512_rayon_k5_matches_reference(65536, 1);
}

#[test]
fn test_avx512_rayon_k5_cols_less_than_threads() {
    let num_threads = rayon::current_num_threads();
    if num_threads > 3 {
        assert_avx512_rayon_k5_matches_reference(65536, 3);
    }
}

#[test]
fn test_avx512_rayon_k5_accumulates() {
    let params = test_params();
    let a_elems = 65536;
    let b_cols = 100;

    let a = random_bounded_aligned(K5 * a_elems, params.modulus);
    let b_t_u16 = random_u16_vec(a_elems * b_cols);

    let mut c_initial = vec![0u64; K5 * b_cols];
    for i in 0..K5 * b_cols {
        c_initial[i] = (i as u64 * 17) % params.modulus;
    }
    let mut c_ref = c_initial.clone();
    schoolbook_batched_dot_product_u16::<K5>(
        &params,
        &mut c_ref,
        a.as_slice(),
        a_elems,
        &b_t_u16,
        a_elems,
        b_cols,
    );

    let mut c_rayon = AlignedMemory64::new(K5 * b_cols);
    c_rayon.as_mut_slice().copy_from_slice(&c_initial);
    fast_batched_dot_product_explicit_avx512::<K5, _>(
        &params,
        c_rayon.as_mut_slice(),
        a.as_slice(),
        a_elems,
        &b_t_u16,
        a_elems,
        b_cols,
    );

    assert_eq!(c_rayon.as_slice(), c_ref.as_slice());
}

#[test]
fn test_avx512_k5_matches_reference() {
    assert_avx512_k5_matches_reference(65536, 1024);
}

#[test]
fn test_avx512_k5_modulus_boundary() {
    let params = test_params();
    let a_elems = 65536;
    let b_cols = 32;

    let mut a = AlignedMemory64::new(K5 * a_elems);
    for i in 0..K5 * a_elems {
        a[i] = params.modulus - 1;
    }
    let b_t_u16: Vec<u16> = vec![u16::MAX; a_elems * b_cols];

    let mut c_ref = vec![0u64; K5 * b_cols];
    schoolbook_batched_dot_product_u16::<K5>(
        &params,
        &mut c_ref,
        a.as_slice(),
        a_elems,
        &b_t_u16,
        a_elems,
        b_cols,
    );

    let mut c_avx = AlignedMemory64::new(K5 * b_cols);
    fast_batched_dot_product_explicit_avx512::<K5, _>(
        &params,
        c_avx.as_mut_slice(),
        a.as_slice(),
        a_elems,
        &b_t_u16,
        a_elems,
        b_cols,
    );

    assert_eq!(c_avx.as_slice(), c_ref.as_slice());
}

#[test]
fn test_avx512_k5_single_column() {
    assert_avx512_k5_matches_reference(65536, 1);
}

#[test]
fn test_avx512_single_column() {
    assert_avx512_matches_reference(65536, 1);
}

#[test]
fn test_avx512_two_columns() {
    assert_avx512_matches_reference(65536, 2);
}

#[test]
fn test_avx512_non_power_of_two_cols() {
    assert_avx512_matches_reference(65536, 100);
}

#[test]
fn test_avx512_b_cols_zero() {
    let params = test_params();
    let a_elems = 65536;
    let b_cols = 0;

    let a = random_bounded_aligned(a_elems, params.modulus);
    let b_t_u16: Vec<u16> = Vec::new();

    let mut c = AlignedMemory64::new(b_cols.max(1));
    let c_before = c.as_slice()[0];
    fast_batched_dot_product_explicit_avx512::<1, _>(
        &params,
        &mut c.as_mut_slice()[..b_cols],
        a.as_slice(),
        a_elems,
        &b_t_u16,
        a_elems,
        b_cols,
    );
    assert_eq!(c.as_slice()[0], c_before);
}

#[test]
fn test_avx512_accumulates() {
    let params = test_params();
    let a_elems = 65536;
    let b_cols = 256;

    let a = random_bounded_aligned(a_elems, params.modulus);
    let b_t_u16 = random_u16_vec(a_elems * b_cols);

    let mut c_once = AlignedMemory64::new(b_cols);
    fast_batched_dot_product_explicit_avx512::<1, _>(
        &params,
        c_once.as_mut_slice(),
        a.as_slice(),
        a_elems,
        &b_t_u16,
        a_elems,
        b_cols,
    );

    let mut c_twice = AlignedMemory64::new(b_cols);
    for _ in 0..2 {
        fast_batched_dot_product_explicit_avx512::<1, _>(
            &params,
            c_twice.as_mut_slice(),
            a.as_slice(),
            a_elems,
            &b_t_u16,
            a_elems,
            b_cols,
        );
    }

    for j in 0..b_cols {
        let expected = params.barrett_u64(c_once.as_slice()[j] + c_once.as_slice()[j]);
        assert_eq!(
            c_twice.as_slice()[j], expected,
            "AVX-512 accumulation mismatch at column {j}"
        );
    }
}

#[test]
fn test_avx512_zero_a() {
    let params = test_params();
    let a_elems = 65536;
    let b_cols = 64;

    let a = AlignedMemory64::new(a_elems);
    let b_t_u16 = random_u16_vec(a_elems * b_cols);

    let mut c = AlignedMemory64::new(b_cols);
    fast_batched_dot_product_explicit_avx512::<1, _>(
        &params,
        c.as_mut_slice(),
        a.as_slice(),
        a_elems,
        &b_t_u16,
        a_elems,
        b_cols,
    );

    for j in 0..b_cols {
        assert_eq!(c.as_slice()[j], 0, "expected zero at column {j}");
    }
}

#[test]
fn test_avx512_modulus_boundary() {
    let params = test_params();
    let a_elems = 65536;
    let b_cols = 32;

    let mut a = AlignedMemory64::new(a_elems);
    for i in 0..a_elems {
        a[i] = params.modulus - 1;
    }
    let b_t_u16: Vec<u16> = vec![u16::MAX; a_elems * b_cols];

    let mut c_ref = vec![0u64; b_cols];
    schoolbook_dot_product_u16(
        &params,
        &mut c_ref,
        a.as_slice(),
        a_elems,
        &b_t_u16,
        a_elems,
        b_cols,
    );

    let mut c_avx = AlignedMemory64::new(b_cols);
    fast_batched_dot_product_explicit_avx512::<1, _>(
        &params,
        c_avx.as_mut_slice(),
        a.as_slice(),
        a_elems,
        &b_t_u16,
        a_elems,
        b_cols,
    );

    for j in 0..b_cols {
        assert_eq!(
            c_avx.as_slice()[j], c_ref[j],
            "AVX-512 modulus-boundary mismatch at column {j}"
        );
    }
}

#[test]
fn test_avx512_deterministic() {
    let params = test_params();
    let a_elems = 65536;
    let b_cols = 512;

    let a = random_bounded_aligned(a_elems, params.modulus);
    let b_t_u16 = random_u16_vec(a_elems * b_cols);

    let mut c1 = AlignedMemory64::new(b_cols);
    let mut c2 = AlignedMemory64::new(b_cols);

    fast_batched_dot_product_explicit_avx512::<1, _>(
        &params,
        c1.as_mut_slice(),
        a.as_slice(),
        a_elems,
        &b_t_u16,
        a_elems,
        b_cols,
    );
    fast_batched_dot_product_explicit_avx512::<1, _>(
        &params,
        c2.as_mut_slice(),
        a.as_slice(),
        a_elems,
        &b_t_u16,
        a_elems,
        b_cols,
    );

    assert_eq!(
        c1.as_slice(),
        c2.as_slice(),
        "AVX-512 results not deterministic"
    );
}

#[test]
fn test_avx512_matches_scalar_standard() {
    assert_avx512_matches_implicit(65536, 1024);
}

#[test]
fn test_avx512_matches_scalar_single_column() {
    assert_avx512_matches_implicit(65536, 1);
}

#[test]
fn test_avx512_matches_scalar_non_power_of_two() {
    assert_avx512_matches_implicit(65536, 100);
}

#[test]
fn test_avx512_k2_sequential() {
    let params = test_params();
    let a_elems = 65536;
    let b_cols = 256;

    let a0 = random_bounded_aligned(a_elems, params.modulus);
    let a1 = random_bounded_aligned(a_elems, params.modulus);
    let mut a = AlignedMemory64::new(K2 * a_elems);
    a.as_mut_slice()[..a_elems].copy_from_slice(a0.as_slice());
    a.as_mut_slice()[a_elems..].copy_from_slice(a1.as_slice());

    let b_t_u16 = random_u16_vec(a_elems * b_cols);

    let mut c_ref0 = vec![0u64; b_cols];
    let mut c_ref1 = vec![0u64; b_cols];
    schoolbook_dot_product_u16(
        &params,
        &mut c_ref0,
        a0.as_slice(),
        a_elems,
        &b_t_u16,
        a_elems,
        b_cols,
    );
    schoolbook_dot_product_u16(
        &params,
        &mut c_ref1,
        a1.as_slice(),
        a_elems,
        &b_t_u16,
        a_elems,
        b_cols,
    );

    let mut c_avx = AlignedMemory64::new(K2 * b_cols);
    fast_batched_dot_product_explicit_avx512::<K2, _>(
        &params,
        c_avx.as_mut_slice(),
        a.as_slice(),
        a_elems,
        &b_t_u16,
        a_elems,
        b_cols,
    );

    for j in 0..b_cols {
        assert_eq!(
            c_avx.as_slice()[j], c_ref0[j],
            "AVX-512 K=2 batch 0 mismatch at column {j}"
        );
        assert_eq!(
            c_avx.as_slice()[b_cols + j], c_ref1[j],
            "AVX-512 K=2 batch 1 mismatch at column {j}"
        );
    }
}

#[test]
fn dispatching_product_adds_to_the_accumulators() {
    let params = test_params();
    // residues 3 and 4 of the first query element, 5 and 6 of the second
    let a = vec![3 | (4 << 32), 5 | (6 << 32), 0, 0, 0, 0, 0, 0];
    let b: Vec<u8> = vec![2, 7, 0, 0, 0, 0, 0, 0];
    let mut c = vec![1u64];
    fast_batched_dot_product::<1, _>(&params, &mut c, &a, 8, &b, 8, 1);
    // 3 * 2 + 5 * 7 modulo the first prime, 4 * 2 + 6 * 7 modulo the second
    let sum = params.barrett_u64(1 + params.crt_compose_2(41, 50));
    assert_eq!(c[0], sum);
    assert_eq!((c[0] - 1) % params.moduli[0], 41);
    assert_eq!((c[0] + params.moduli[1] - 1) % params.moduli[1], 50);
}

#[test]
fn queries_are_split_into_equal_rows() {
    let a: Vec<u64> = (0..6).collect();
    let rows = split_a::<3>(&a);
    assert_eq!(rows.len(), 3);
    assert_eq!(rows[0], &[0, 1]);
    assert_eq!(rows[1], &[2, 3]);
    assert_eq!(rows[2], &[4, 5]);
}

#[test]
fn a_batch_is_its_queries_one_by_one() {
    let params = test_params();
    let a_elems = 65536;
    let b_cols = 4;
    let a = random_bounded_aligned(K2 * a_elems, params.modulus);
    let b = random_u16_vec(a_elems * b_cols);
    let mut both = vec![0u64; K2 * b_cols];
    fast_batched_dot_product_implicit::<2, _>(
        &params, &mut both, a.as_slice(), a_elems, &b, a_elems, b_cols,
    );
    for k in 0..K2 {
        let mut one = vec![0u64; b_cols];
        fast_batched_dot_product_implicit::<1, _>(
            &params,
            &mut one,
            &a.as_slice()[k * a_elems..(k + 1) * a_elems],
            a_elems,
            &b,
            a_elems,
            b_cols,
        );
        assert_eq!(&both[k * b_cols..(k + 1) * b_cols], one.as_slice());
    }
}

#[test]
fn scalar_products_use_the_low_halves() {
    let params = test_params();
    let mut a = PolyMatrixNTT::zero(&params, 1, 1);
    let mut b = PolyMatrixNTT::zero(&params, 2, 1);
    let mut res = PolyMatrixNTT::zero(&params, 2, 1);
    let words = 2 * params.poly_len;
    a.data[0] = 3 | (9 << 32);
    a.data[words - 1] = 5;
    b.data[0] = 7;
    b.data[words - 1] = 11 | (1 << 40);
    b.data[words] = 13;
    scalar_multiply_avx(&mut res, &a, &b);
    assert_eq!(res.data[0], 21);
    assert_eq!(res.data[words - 1], 55);
    assert_eq!(res.data[words], 39);
    assert_eq!(res.data[1], 0);
}

#[test]
fn products_of_small_matrices_are_exact() {
    let params = test_params();
    let a: Vec<u64> = vec![1, 2, 3, params.modulus - 1];
    let b: Vec<u64> = vec![5, 6, 7, 8];
    let prod = multiply_matrices_raw_not_transposed(&params, &a, 2, 2, &b, 2, 2);
    assert_eq!(prod, vec![19, 22, 8, 10]);
    let prod =
        multiply_matrices_raw_not_transposed(&params, &[2, 3, 1, 0], 2, 2, &[10u64, 1, 100, 0], 2, 2);
    assert_eq!(prod, vec![320, 2, 10, 1]);
}

#[test]
fn the_last_elements_enter_the_product() {
    let params = test_params();
    let elems = 65537;
    let mut a = vec![0u64; elems];
    a[elems - 1] = 1 | (1 << 32);
    let mut b = vec![0u16; elems];
    b[elems - 1] = 1;
    let mut c = vec![0u64];
    fast_batched_dot_product_implicit::<1, _>(&params, &mut c, &a, elems, &b, elems, 1);
    assert_eq!(c, vec![1]);
    fast_batched_dot_product_explicit_avx512::<1, _>(&params, &mut c, &a, elems, &b, elems, 1);
    assert_eq!(c, vec![2]);
}

#[test]
fn rows_of_a_batch_do_not_depend_on_their_number() {
    let params = test_params();
    let elems = 4104;
    let mut a = vec![0u64; 16 * elems];
    a[4100] = 1 | (1 << 32);
    let mut b = vec![0u16; elems];
    b[4100] = 1;
    let mut c = vec![0u64; 16];
    fast_batched_dot_product::<16, _>(&params, &mut c, &a, elems, &b, elems, 1);
    assert_eq!(c[0], 1);
    assert!(c[1..].iter().all(|x| *x == 0));
    let mut one = vec![0u64];
    fast_batched_dot_product::<1, _>(&params, &mut one, &a[..elems], elems, &b, elems, 1);
    assert_eq!(one[0], c[0]);
}

#[test]
fn a_run_adds_to_its_start() {
    let params = test_params();
    let a = random_bounded_aligned(1000, params.modulus);
    let b = random_u16_vec(3000);
    let mut from_zero = vec![0u64; 3];
    fast_batched_dot_product::<1, _>(&params, &mut from_zero, a.as_slice(), 1000, &b, 1000, 3);
    let start = vec![5, params.modulus - 1, 77];
    let mut c = start.clone();
    fast_batched_dot_product::<1, _>(&params, &mut c, a.as_slice(), 1000, &b, 1000, 3);
    for j in 0..3 {
        assert_eq!(c[j], (start[j] + from_zero[j]) % params.modulus);
    }
    // and columns can be taken one by one
    for j in 0..3 {
        let mut part = vec![start[j]];
        let column = &b[j * 1000..(j + 1) * 1000];
        fast_batched_dot_product::<1, _>(&params, &mut part, a.as_slice(), 1000, column, 1000, 1);
        assert_eq!(part[0], c[j]);
    }
}

#[test]
fn an_empty_slice_splits_into_empty_parts() {
    let rows = split_a::<2>(&[]);
    assert_eq!(rows.len(), 2);
    assert!(rows.iter().all(|r| r.is_empty()));
}
