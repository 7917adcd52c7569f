//! Queries, seen with the secret key.
use rand::SeedableRng;
use rand_chacha::ChaCha20Rng;
use valar_spiral_rs::arith::rescale;
use valar_spiral_rs::poly as spiral_poly;
use valar_spiral_rs::poly::PolyMatrix;
use ypir::client::{generate_matrix_ring, get_seed, Client};
use ypir::constants::{static_public_seed, static_seed_2, SEED_0, SEED_1};
use ypir::double_answer::decode_outer;
use ypir::kernel::fast_batched_dot_product_implicit;
use ypir::lwe::{take_words, LWEClient, LWEParams};
use ypir::params::{
    params_for_scenario, params_for_scenario_simplepir, DbRowsCols, GetRho, Params, YPIRSPConfig,
};
use ypir::pir_client::{bucket_of_hash, YPIRClient};
use ypir::query::YClient;
use ypir::ring::{concat_horizontal, negacyclic_matrix_u32};
use ypir::spiral::{ChaChaStream, Seed};

fn fixed_seed() -> Seed {
    [42u8; 32]
}

/// One tile of rows, so that a query is one block.
fn small_params() -> Params {
    params_for_scenario_simplepir(1 << 11, 2048 * 14)
}

fn spiral_params(params: &Params) -> valar_spiral_rs::params::Params {
    valar_spiral_rs::params::Params::init(
        params.poly_len,
        &params.moduli,
        params.noise_width_e8 as f64 / 1e8,
        1,
        2,
        14,
        1,
        1,
        1,
        1,
        true,
        0,
        0,
        1,
        0,
        0,
    )
}

/// The product of the secret key and the first mask of a public stream.
fn first_mask(params: &Params, seed: Seed, public_seed: Seed) -> Vec<u64> {
    let sp = spiral_params(params);
    let mut rng = ChaCha20Rng::from_seed(public_seed);
    let a = spiral_poly::PolyMatrixRaw::random_rng(&sp, 1, 1, &mut rng);
    let key = Client::from_seed(params, seed).get_sk_reg();
    let mut s = spiral_poly::PolyMatrixRaw::zero(&sp, 1, 1);
    s.as_mut_slice().copy_from_slice(key.as_slice());
    let prod = (&s.ntt() * &a.ntt()).raw();
    prod.as_slice().iter().map(|x| x % params.modulus).collect()
}

fn unpacked(params: &Params, word: u64) -> u64 {
    let c = params.crt_compose_2(word & 0xFFFF_FFFF, word >> 32);
    c % params.modulus
}

/// The degree times `x - y`, rounded to a plaintext.
fn times_degree(params: &Params, x: u64, y: u64) -> u64 {
    let q = params.modulus as u128;
    let d = (x as u128 + q - y as u128 % q) % q;
    rescale((d * params.poly_len as u128 % q) as u64, params.modulus, params.pt_modulus)
}

#[test]
fn a_query_selects_its_row() {
    let params = small_params();
    let row = 77;
    let (query, seed) = YPIRClient::new(&params).generate_query_simplepir(row);
    let mask = first_mask(&params, seed, get_seed(SEED_0));
    for (z, w) in query.0.as_slice().iter().enumerate() {
        let bit = times_degree(&params, unpacked(&params, *w), mask[z]);
        assert_eq!(bit, (z == row) as u64, "row {z}");
    }
}

#[test]
fn an_answer_holds_the_entry() {
    let params = small_params();
    let row = 1234;
    let (query, seed) = YPIRClient::new(&params).generate_query_simplepir(row);
    let mask = first_mask(&params, seed, get_seed(SEED_0));
    let column: Vec<u16> = (0..2048).map(|_| fastrand::u16(..) % 16384).collect();
    let mut c = vec![0u64];
    fast_batched_dot_product_implicit::<1, _>(
        &params,
        &mut c,
        query.0.as_slice(),
        2048,
        &column,
        2048,
        1,
    );
    let q = params.modulus as u128;
    let masks: u128 = column.iter().zip(&mask).map(|(b, m)| *b as u128 * *m as u128 % q).sum();
    assert_eq!(times_degree(&params, c[0], (masks % q) as u64), column[row] as u64);
}

#[test]
fn queries_of_both_kinds_have_their_sizes() {
    let params = params_for_scenario(1 << 20, 1);
    let client = YPIRClient::from_db_sz(1 << 20, 1, false);
    assert_eq!(*client.params(), params);
    let ((rows, cols, keys), _seed) = client.generate_query_normal(5);
    assert_eq!(rows.len(), params.db_rows_padded_normal());
    assert_eq!(cols.as_slice().len(), params.db_cols_normal());
    assert_eq!(keys.as_slice().len(), 11 * 3 * 2048);
    // the padding holds zeros
    assert!(rows[params.db_rows()..].iter().all(|w| *w == 0));
}

#[test]
fn plain_queries_decrypt_to_their_index() {
    let params = params_for_scenario(1 << 10, 1);
    let y = YClient::from_seed(&params, fixed_seed());
    let n = params.poly_len;
    let index = 3;
    let query = y.generate_query(SEED_1, 0, true, index);
    assert_eq!(query.len(), (n + 1) * n);
    // what packing multiplies by
    let q = params.modulus as u128;
    let scaled: Vec<u64> =
        query.iter().map(|w| (*w as u128 * n as u128 % q) as u64).collect();
    let out = y.decode_response(&scaled);
    for (j, v) in out.iter().enumerate() {
        assert_eq!(*v, (j == index) as u64, "column {j}");
    }
}

#[test]
fn fresh_queries_differ_and_fixed_ones_do_not() {
    let params = small_params();
    let y = YClient::from_seed(&params, fixed_seed());
    let mut e = vec![0u64; params.poly_len];
    e[0] = 3;
    e[1] = params.modulus - 7;
    let noise = vec![e];
    let a = y.query_rows_from_noise(SEED_0, true, 4, &noise);
    let b = y.query_rows_from_noise(SEED_0, true, 4, &noise);
    assert_eq!(a, b);
    // the second rows of the ring ciphertexts are the same words
    let cts = y.query_cts_from_noise(SEED_0, true, 4, &noise);
    assert_eq!(cts[0].get_poly(1, 0), a.as_slice());
    let c = y.generate_query_lwe_low_mem(SEED_0, 0, true, 4);
    let d = y.generate_query_lwe_low_mem(SEED_0, 0, true, 4);
    assert_ne!(c, d);
}

#[test]
fn seeds_are_numbered() {
    assert_eq!(static_public_seed(), [0u8; 32]);
    let mut two = [0u8; 32];
    two[0] = 2;
    assert_eq!(static_seed_2(), two);
    let mut one = [0u8; 32];
    one[0] = 1;
    assert_eq!(get_seed(SEED_1), one);
}

#[test]
fn streams_are_those_of_the_generator() {
    let mut ours = ChaChaStream::from_seed([7u8; 32]);
    let words = take_words(&mut ours, 40);
    let mut theirs = ChaCha20Rng::from_seed([7u8; 32]);
    for w in words {
        assert_eq!(w, rand::RngCore::next_u32(&mut theirs));
    }
    assert_eq!(ours.pos, 40);
    let a = take_words(&mut ChaChaStream::from_entropy(), 8);
    let b = take_words(&mut ChaChaStream::from_entropy(), 8);
    assert_ne!(a, b);
}

#[test]
fn many_plaintexts_share_one_mask() {
    let client = LWEClient::from_seed(LWEParams::default(), fixed_seed());
    let pts: Vec<u32> = (0..1024).map(|i| (i as u32 % 256) << 24).collect();
    let ct = client.encrypt_many(&mut ChaChaStream::from_seed([1u8; 32]), &pts);
    assert_eq!(ct.len(), 1025 * 1024);
    for col in [0usize, 1, 77, 1023] {
        let one: Vec<u32> = (0..1025).map(|r| ct[r * 1024 + col]).collect();
        let dec = rescale(client.decrypt(&one) as u64, 1 << 32, 256);
        assert_eq!(dec, col as u64 % 256);
    }
}

#[test]
fn decryption_gives_the_plaintext_plus_noise() {
    let client = LWEClient::from_seed(LWEParams::default(), fixed_seed());
    let mut rng = ChaChaStream::from_seed([1u8; 32]);
    let ct = client.encrypt_with_noise(&mut rng, 1000, 17);
    assert_eq!(client.decrypt(&ct), 1017);
    assert_eq!(rng.pos, 1024);
}

#[test]
fn negacyclic_matrices_of_words_wrap_with_a_sign() {
    assert_eq!(negacyclic_matrix_u32(&[1, 2]), vec![1, 2, 2u32.wrapping_neg(), 1]);
    let side = concat_horizontal(&vec![vec![1, 2, 3, 4], vec![5, 6, 7, 8]], 2, 2);
    assert_eq!(side, vec![1, 2, 5, 6, 3, 4, 7, 8]);
}

#[test]
fn public_matrices_come_from_the_stream() {
    let m = generate_matrix_ring(&mut ChaChaStream::from_seed([3u8; 32]), 2, 2, 4);
    let w = take_words(&mut ChaChaStream::from_seed([3u8; 32]), 4);
    let neg: Vec<u32> = w.iter().map(|x| x.wrapping_neg()).collect();
    assert_eq!(m, vec![w[0], w[1], w[2], w[3], neg[1], w[0], neg[3], w[2]]);
}

#[test]
fn items_fall_into_buckets_by_their_digest() {
    // the digest of "abc" starts with a9 99 3e 36
    let h = YPIRClient::hash("abc");
    assert_eq!(&h[..4], &[0xa9, 0x99, 0x3e, 0x36]);
    assert_eq!(bucket_of_hash(8, &h), 0xa9);
    assert_eq!(bucket_of_hash(32, &h), 0xa999_3e36);
    assert_eq!(YPIRClient::bucket(12, "abc"), 0xa99);
}

#[test]
fn outer_elements_decode_to_the_inner_plaintext() {
    let params = params_for_scenario(1 << 20, 1);
    let lwe = LWEClient::from_seed(LWEParams::default(), fixed_seed());
    let m = 201u32;
    let ct = lwe.encrypt(&mut ChaChaStream::from_seed([5u8; 32]), m << 24);
    // scale down, 28 bits to a number, in elements of 15 bits
    let q_prime = 268369921u64;
    let small: Vec<u64> = ct.iter().map(|v| rescale(*v as u64, 1 << 32, q_prime)).collect();
    let count = params.rho() * params.poly_len;
    let mut outer = vec![0u64; count];
    for (z, v) in small[..1024].iter().enumerate() {
        for b in 0..28 {
            let at = z * 28 + b;
            outer[at / 15] |= (v >> b & 1) << (at % 15);
        }
    }
    let start = (28672 + 14) / 15;
    outer[start] = small[1024] & 0x7FFF;
    outer[start + 1] = small[1024] >> 15;
    assert_eq!(decode_outer(&params, &lwe, &outer), m as u64);
    // all bits set is no residue of the reduced modulus, and counts as zero
    let (a, b) = (outer[0], outer[1]);
    outer[0] = 0x7FFF;
    outer[1] = 0x7FFF;
    let with_all_bits = decode_outer(&params, &lwe, &outer);
    outer[0] = 0;
    outer[1] = 0x6000;
    assert_eq!(with_all_bits, decode_outer(&params, &lwe, &outer));
    outer[0] = a;
    outer[1] = b;
    assert_eq!(decode_outer(&params, &lwe, &outer), m as u64);
}

#[test]
fn a_row_query_of_the_first_layer_selects_its_row() {
    let params = params_for_scenario(1 << 20, 1);
    let cols = params.db_cols_normal();
    let row = 1500;
    let ((words, _, _), seed) = YPIRClient::new(&params).generate_query_normal(row * cols + 3);
    let lwe = LWEClient::from_seed(LWEParams::default(), seed);
    let mut stream = ChaChaStream::from_seed(get_seed(SEED_0));
    for k in 0..params.db_rows() / 1024 {
        let matrix = negacyclic_matrix_u32(&take_words(&mut stream, 1024));
        for c in 0..1024 {
            let mut v = words[k * 1024 + c];
            for i in 0..1024 {
                v = v.wrapping_add(matrix[i * 1024 + c].wrapping_mul(lwe.sk[i]));
            }
            let bit = rescale(v as u64, 1 << 32, 256);
            assert_eq!(bit, (k * 1024 + c == row) as u64, "row {}", k * 1024 + c);
        }
    }
}

#[test]
fn configurations_reach_the_client() {
    let client = YPIRClient::from_db_sz_simplepir_with_config(
        1 << 14,
        1 << 17,
        YPIRSPConfig::degree_4096(),
    );
    assert_eq!(client.params().poly_len, 4096);
    assert_eq!(client.params().t_exp_left, 4);
    let default = YPIRClient::from_db_sz(1 << 14, 1 << 17, true);
    assert_eq!(default.params().poly_len, 2048);
}
