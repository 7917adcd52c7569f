//! Encryption, answers and queries of a client.
use rand::SeedableRng;
use rand_chacha::ChaCha20Rng;
use valar_spiral_rs::arith::rescale;
use valar_spiral_rs::poly::PolyMatrix;
use ypir::bits::{contiguous_bytes_to_u64s, u64s_to_contiguous_bytes};
use ypir::client::{
    ciphertext_ntt, decrypt_ct_reg_measured, noise_magnitudes, pack_query, rlwe_to_lwe, Client,
};
use ypir::lwe::{LWEClient, LWEParams};
use ypir::modulus_switch::ModulusSwitch;
use ypir::params::{
    params_for_scenario, params_for_scenario_simplepir, DbRowsCols, GetQPrime, GetRho, Params,
    PtModulusBits,
};
use ypir::pir_client::{YPIRClient, YPIRDecodeError};
use ypir::poly::PolyMatrixRaw;
use ypir::query::YClient;
use ypir::spiral::{ChaChaStream, NoiseStream, Seed};

fn make_test_params() -> Params {
    params_for_scenario(1 << 20, 1)
}

fn make_simplepir_params() -> Params {
    params_for_scenario_simplepir(1 << 14, 2048 * 14)
}

fn sp_params() -> Params {
    params_for_scenario_simplepir(1 << 14, 2048 * 14)
}

fn fixed_seed() -> Seed {
    [42u8; 32]
}

fn expected_normal_response_byte_len(params: &Params) -> usize {
    let num_rlwe_outputs = params.rho();
    let q_prime_1 = params.get_q_prime_1();
    let q_prime_2 = params.get_q_prime_2();
    let q_1_bits = (q_prime_2 as f64).log2().ceil() as usize;
    let q_2_bits = (q_prime_1 as f64).log2().ceil() as usize;
    let per_ct_bits = (q_1_bits + q_2_bits) * params.poly_len;
    let per_ct_bytes = (per_ct_bits + 7) / 8;
    per_ct_bytes * num_rlwe_outputs
}

fn expected_simplepir_response_byte_len(params: &Params) -> usize {
    let db_cols = params.instances * params.poly_len;
    let num_rlwe_outputs = db_cols / params.poly_len;
    let q_prime_1 = params.get_q_prime_1();
    let q_prime_2 = params.get_q_prime_2();
    let q_1_bits = (q_prime_2 as f64).log2().ceil() as usize;
    let q_2_bits = (q_prime_1 as f64).log2().ceil() as usize;
    let per_ct_bits = (q_1_bits + q_2_bits) * params.poly_len;
    let per_ct_bytes = (per_ct_bits + 7) / 8;
    per_ct_bytes * num_rlwe_outputs
}

fn spiral_params(params: &Params) -> valar_spiral_rs::params::Params {
    valar_spiral_rs::params::Params::init(
        params.poly_len,
        &params.moduli,
        params.noise_width_e8 as f64 / 1e8,
        1,
        2,
        14,
        1,
        1,
        1,
        1,
        true,
        0,
        0,
        1,
        0,
        0,
    )
}

/// A ciphertext of `pt` under the keys of `seed`, by coefficients.
fn encrypt_with(
    params: &Params,
    seed: Seed,
    pt: &[u64],
    rng: &mut ChaCha20Rng,
    rng_pub: &mut ChaCha20Rng,
) -> Vec<u64> {
    let sp = spiral_params(params);
    let mut client = valar_spiral_rs::client::Client::init(&sp);
    client.generate_secret_keys_from_seed(seed);
    let mut m = valar_spiral_rs::poly::PolyMatrixRaw::zero(&sp, 1, 1);
    m.as_mut_slice().copy_from_slice(pt);
    let ct = client.encrypt_matrix_reg(&m.ntt(), rng, rng_pub);
    ct.raw().as_slice().iter().map(|x| x % params.modulus).collect()
}

fn encrypt<'a>(params: &'a Params, seed: Seed, pt: &[u64]) -> PolyMatrixRaw<'a> {
    let data = encrypt_with(
        params,
        seed,
        pt,
        &mut ChaCha20Rng::from_entropy(),
        &mut ChaCha20Rng::from_entropy(),
    );
    PolyMatrixRaw { params, rows: 2, cols: 1, data }
}

/// The decrypted and rounded coefficients of a ciphertext.
fn decrypt<'a>(params: &'a Params, seed: Seed, ct: &PolyMatrixRaw<'a>) -> Vec<u64> {
    let client = Client::from_seed(params, seed);
    decrypt_ct_reg_measured(&client, params, &ciphertext_ntt(params, ct), params.poly_len).data
}

#[test]
fn test_lwe() {
    let lwe_params = LWEParams::default();
    let client = LWEClient::new(lwe_params.clone());
    let pt = fastrand::u32(0..lwe_params.pt_modulus as u32);
    let scaled_pt = pt.wrapping_mul(lwe_params.scale_k() as u32);
    let ct = client.encrypt(&mut ChaChaStream::from_entropy(), scaled_pt);
    let pt_dec = client.decrypt(&ct);
    let result = rescale(pt_dec as u64, lwe_params.modulus, lwe_params.pt_modulus) as u32;
    assert_eq!(result, pt);
}

#[test]
fn decode_response_all_zeros() {
    let params = make_test_params();
    let y_client = YClient::from_seed(&params, fixed_seed());
    let db_cols = 1usize << (params.db_dim_2 + params.poly_len_log2);
    let expected_len = (params.poly_len + 1) * db_cols;
    let result = y_client.decode_response(&vec![0u64; expected_len]);
    assert_eq!(result.len(), db_cols);
    for val in &result {
        assert_eq!(*val, 0);
    }
}

#[test]
fn decode_response_max_modular_values_does_not_panic() {
    let params = make_test_params();
    let y_client = YClient::from_seed(&params, fixed_seed());
    let db_cols = 1usize << (params.db_dim_2 + params.poly_len_log2);
    let expected_len = (params.poly_len + 1) * db_cols;
    let result = y_client.decode_response(&vec![params.modulus - 1; expected_len]);
    assert_eq!(result.len(), db_cols);
}

#[test]
fn decode_response_oversized_input_returns_correct_length() {
    let params = make_test_params();
    let y_client = YClient::from_seed(&params, fixed_seed());
    let db_cols = 1usize << (params.db_dim_2 + params.poly_len_log2);
    let expected_len = (params.poly_len + 1) * db_cols;
    let result = y_client.decode_response(&vec![0u64; expected_len + 1000]);
    assert_eq!(result.len(), db_cols);
}

#[test]
fn decode_response_random_data_does_not_panic() {
    let params = make_test_params();
    let y_client = YClient::from_seed(&params, fixed_seed());
    let db_cols = 1usize << (params.db_dim_2 + params.poly_len_log2);
    let expected_len = (params.poly_len + 1) * db_cols;
    let data: Vec<u64> = (0..expected_len).map(|_| fastrand::u64(..) % params.modulus).collect();
    let result = y_client.decode_response(&data);
    assert_eq!(result.len(), db_cols);
    for val in &result {
        assert!(*val < params.pt_modulus, "output exceeds plaintext modulus");
    }
}

#[test]
fn decode_response_deterministic_across_calls() {
    let params = make_test_params();
    let seed = fixed_seed();
    let db_cols = 1usize << (params.db_dim_2 + params.poly_len_log2);
    let expected_len = (params.poly_len + 1) * db_cols;
    let data: Vec<u64> = (0..expected_len).map(|i| (i as u64 * 7) % params.modulus).collect();

    let r1 = YClient::from_seed(&params, seed).decode_response(&data);
    let r2 = YClient::from_seed(&params, seed).decode_response(&data);
    assert_eq!(r1, r2);
}

#[test]
fn decode_normal_all_zeros_does_not_leak_via_panic() {
    let params = make_test_params();
    let len = expected_normal_response_byte_len(&params);
    let zeros = vec![0u8; len];
    let (sa, sb) = ([1u8; 32], [2u8; 32]);

    let client = YPIRClient::new(&params);
    let ra = client.try_decode_response_normal(sa, &zeros);
    let rb = client.try_decode_response_normal(sb, &zeros);
    assert_eq!(
        ra.is_some(),
        rb.is_some(),
        "All-zeros response must produce the same success/failure outcome regardless of secret key"
    );
}

#[test]
fn decode_normal_deterministic_for_same_seed() {
    let params = make_test_params();
    let len = expected_normal_response_byte_len(&params);
    let resp: Vec<u8> = (0..len).map(|i| (i % 256) as u8).collect();
    let seed = fixed_seed();

    let r1 = YPIRClient::new(&params).try_decode_response_normal(seed, &resp);
    let r2 = YPIRClient::new(&params).try_decode_response_normal(seed, &resp);
    match (r1, r2) {
        (Some(v1), Some(v2)) => assert_eq!(v1, v2),
        (None, None) => {}
        _ => panic!("Inconsistent outcome across identical decode calls"),
    }
}

#[test]
fn decode_normal_random_response_same_outcome_different_keys() {
    let params = make_test_params();
    let len = expected_normal_response_byte_len(&params);
    let resp: Vec<u8> = (0..len).map(|_| fastrand::u8(..)).collect();
    let (sa, sb) = ([10u8; 32], [20u8; 32]);

    let client = YPIRClient::new(&params);
    let ra = client.try_decode_response_normal(sa, &resp);
    let rb = client.try_decode_response_normal(sb, &resp);
    assert_eq!(
        ra.is_some(),
        rb.is_some(),
        "Random adversarial response must produce the same success/failure outcome regardless of secret key"
    );
    assert!(ra.is_some());
}

#[test]
fn decode_normal_max_value_bytes_same_outcome_different_keys() {
    let params = make_test_params();
    let len = expected_normal_response_byte_len(&params);
    let resp = vec![0xFFu8; len];
    let (sa, sb) = ([30u8; 32], [40u8; 32]);

    let client = YPIRClient::new(&params);
    let ra = client.try_decode_response_normal(sa, &resp);
    let rb = client.try_decode_response_normal(sb, &resp);
    assert_eq!(
        ra.is_some(),
        rb.is_some(),
        "Max-value response must produce the same success/failure outcome regardless of secret key"
    );
}

#[test]
fn decode_normal_crafted_near_boundary_same_outcome() {
    let params = make_test_params();
    let len = expected_normal_response_byte_len(&params);
    let crafted = vec![0x7Fu8; len];
    let seeds: Vec<Seed> = (0..5u8).map(|i| [i + 50; 32]).collect();

    let client = YPIRClient::new(&params);
    let outcomes: Vec<bool> = seeds
        .iter()
        .map(|seed| client.try_decode_response_normal(*seed, &crafted).is_some())
        .collect();

    let all_same = outcomes.windows(2).all(|w| w[0] == w[1]);
    assert!(
        all_same,
        "Crafted boundary response produced different outcomes across keys: {:?}",
        outcomes
    );
}

#[test]
fn decode_normal_refuses_wrong_lengths() {
    let params = make_test_params();
    let len = expected_normal_response_byte_len(&params);
    let client = YPIRClient::new(&params);
    let seed = fixed_seed();
    assert_eq!(client.try_decode_response_normal(seed, &[]), None);
    assert_eq!(client.try_decode_response_normal(seed, &[0xFF]), None);
    assert_eq!(client.try_decode_response_normal(seed, &vec![0u8; len + 1]), None);
    assert_eq!(client.try_decode_response_normal(seed, &vec![0u8; len / 2]), None);
}

#[test]
fn decode_normal_of_zeros_is_zero() {
    let params = make_test_params();
    let len = expected_normal_response_byte_len(&params);
    let client = YPIRClient::new(&params);
    let zeros = vec![0u8; len];
    assert_eq!(client.try_decode_response_normal(fixed_seed(), &zeros), Some(0));
    assert_eq!(client.decode_response_normal(fixed_seed(), &zeros), 0);
}

#[test]
fn decode_simplepir_all_zeros_does_not_leak_via_panic() {
    let params = make_simplepir_params();
    let len = expected_simplepir_response_byte_len(&params);
    let zeros = vec![0u8; len];
    let (sa, sb) = ([1u8; 32], [2u8; 32]);

    let client = YPIRClient::new(&params);
    let ra = client.decode_response_simplepir_batch_raw(sa, &[&zeros]);
    let rb = client.decode_response_simplepir_batch_raw(sb, &[&zeros]);
    assert_eq!(
        ra[0].is_ok(),
        rb[0].is_ok(),
        "All-zeros SimplePIR response must be key-independent"
    );
}

#[test]
fn decode_simplepir_random_response_same_outcome_different_keys() {
    let params = make_simplepir_params();
    let len = expected_simplepir_response_byte_len(&params);
    let resp: Vec<u8> = (0..len).map(|_| fastrand::u8(..)).collect();
    let (sa, sb) = ([10u8; 32], [20u8; 32]);

    let client = YPIRClient::new(&params);
    let ra = client.decode_response_simplepir_batch_raw(sa, &[&resp]);
    let rb = client.decode_response_simplepir_batch_raw(sb, &[&resp]);
    assert_eq!(
        ra[0].is_ok(),
        rb[0].is_ok(),
        "Random adversarial SimplePIR response must be key-independent"
    );
}

#[test]
fn decode_simplepir_deterministic_for_same_seed() {
    let params = make_simplepir_params();
    let len = expected_simplepir_response_byte_len(&params);
    let resp: Vec<u8> = (0..len).map(|i| (i % 256) as u8).collect();
    let seed = fixed_seed();

    let r1 = YPIRClient::new(&params).decode_response_simplepir_raw(seed, &resp);
    let r2 = YPIRClient::new(&params).decode_response_simplepir_raw(seed, &resp);
    assert_eq!(r1, r2);
}

#[test]
fn decode_simplepir_refuses_wrong_lengths() {
    let params = make_simplepir_params();
    let len = expected_simplepir_response_byte_len(&params);
    let client = YPIRClient::new(&params);
    let short = vec![0u8; len / 2];
    let long = vec![0u8; len + 1];
    let out = client.decode_response_simplepir_batch(fixed_seed(), &[&[], &short, &long]);
    assert_eq!(out.len(), 3);
    let texts = [
        "chunk size must be non-zero".to_string(),
        format!("assertion `left == right` failed\n  left: {}\n right: {len}", len / 2),
        format!("assertion `left == right` failed\n  left: {}\n right: {len}", len + 1),
    ];
    for (slot, text) in out.iter().zip(texts) {
        assert_eq!(*slot, Err(YPIRDecodeError::Panic(text.clone())));
        assert_eq!(
            slot.as_ref().unwrap_err().message(),
            format!("response decoding panicked: {text}")
        );
    }
    // three ciphertexts cannot be cut from a length that is no multiple of three
    let wide = YPIRClient::new(&params_for_scenario_simplepir(1 << 14, 3 * 2048 * 14));
    let out = wide.decode_response_simplepir_batch_raw(fixed_seed(), &[&[0, 0, 0, 0]]);
    assert_eq!(
        out[0],
        Err(YPIRDecodeError::Panic(
            "assertion `left == right` failed\n  left: 1\n right: 0".to_string()
        ))
    );
}

#[test]
fn rlwe_encrypt_decrypt_roundtrip_zero_plaintext() {
    let params = sp_params();
    let ct = encrypt(&params, fixed_seed(), &vec![0u64; params.poly_len]);
    let dec = decrypt(&params, fixed_seed(), &ct);

    for z in 0..params.poly_len {
        assert_eq!(dec[z], 0, "coeff {z} should decrypt to 0");
    }
}

#[test]
fn rlwe_encrypt_decrypt_roundtrip_known_plaintext() {
    let params = sp_params();
    let scale_k = params.modulus / params.pt_modulus;
    let pt: Vec<u64> = (0..params.poly_len)
        .map(|z| ((z as u64) % params.pt_modulus) * scale_k)
        .collect();

    let ct = encrypt(&params, fixed_seed(), &pt);
    let dec = decrypt(&params, fixed_seed(), &ct);

    for z in 0..params.poly_len {
        let expected = (z as u64) % params.pt_modulus;
        let got = dec[z];
        assert_eq!(got, expected, "coeff {z}: expected {expected}, got {got}");
    }
}

#[test]
fn rlwe_encrypt_decrypt_roundtrip_max_plaintext() {
    let params = sp_params();
    let scale_k = params.modulus / params.pt_modulus;
    let max_pt = params.pt_modulus - 1;
    let pt = vec![max_pt * scale_k; params.poly_len];

    let ct = encrypt(&params, fixed_seed(), &pt);
    let dec = decrypt(&params, fixed_seed(), &ct);

    for z in 0..params.poly_len {
        let got = dec[z];
        assert_eq!(got, max_pt, "coeff {z}: expected {max_pt}, got {got}");
    }
}

#[test]
fn rlwe_encrypt_decrypt_deterministic_with_fixed_rngs() {
    let params = sp_params();
    let seed = fixed_seed();

    let decrypt_with = |rng_seed: [u8; 32], pub_seed: [u8; 32]| -> Vec<u64> {
        let scale_k = params.modulus / params.pt_modulus;
        let mut pt = vec![0u64; params.poly_len];
        pt[0] = 7 * scale_k;
        let data = encrypt_with(
            &params,
            seed,
            &pt,
            &mut ChaCha20Rng::from_seed(rng_seed),
            &mut ChaCha20Rng::from_seed(pub_seed),
        );
        decrypt(&params, seed, &PolyMatrixRaw { params: &params, rows: 2, cols: 1, data })
    };

    let r1 = decrypt_with([99u8; 32], [100u8; 32]);
    let r2 = decrypt_with([99u8; 32], [100u8; 32]);
    assert_eq!(r1, r2, "same RNG seeds must produce identical decrypt results");
    assert_eq!(r1[0], 7);
}

#[test]
fn decrypt_ct_reg_measured_recovers_plaintext() {
    let params = sp_params();
    let client = Client::from_seed(&params, fixed_seed());
    let scale_k = params.modulus / params.pt_modulus;
    let pt: Vec<u64> = (0..params.poly_len)
        .map(|z| ((z as u64 * 3) % params.pt_modulus) * scale_k)
        .collect();

    let ct = ciphertext_ntt(&params, &encrypt(&params, fixed_seed(), &pt));
    let dec = decrypt_ct_reg_measured(&client, &params, &ct, params.poly_len);

    for z in 0..params.poly_len {
        let expected = (z as u64 * 3) % params.pt_modulus;
        assert_eq!(dec.data[z], expected, "coeff {z} mismatch");
    }
}

#[test]
fn fresh_ciphertexts_have_small_noise() {
    let params = sp_params();
    let client = Client::from_seed(&params, fixed_seed());
    let mut pt = PolyMatrixRaw::zero(&params, 1, 1);
    pt.data[0] = 1;
    let scaled: Vec<u64> = pt
        .data
        .iter()
        .map(|m| rescale(*m, params.pt_modulus, params.modulus))
        .collect();
    let ct = ciphertext_ntt(&params, &encrypt(&params, fixed_seed(), &scaled));
    let noise = noise_magnitudes(&client, &ct, &pt, 16);
    assert_eq!(noise.len(), 16);
    assert!(noise.iter().all(|e| *e <= 65));
    // one more in the plaintext is one step of the scale away
    pt.data[0] = 2;
    let off = noise_magnitudes(&client, &ct, &pt, 1);
    let step = params.modulus / params.pt_modulus;
    assert!(off[0] >= step - 66 && off[0] <= step + 66);
}

#[test]
fn modulus_switch_roundtrip_sp_params() {
    let params = sp_params();
    let q1 = params.get_q_prime_1();
    let q2 = params.get_q_prime_2();

    let scale_k = params.modulus / params.pt_modulus;
    let pt: Vec<u64> = (0..params.poly_len)
        .map(|z| ((z as u64 * 5) % params.pt_modulus) * scale_k)
        .collect();
    let ct_raw = encrypt(&params, fixed_seed(), &pt);

    let switched = ct_raw.switch(q1, q2);
    let recovered = PolyMatrixRaw::recover(&params, q1, q2, &switched);

    let dec = decrypt(&params, fixed_seed(), &recovered);
    for z in 0..params.poly_len {
        let expected = (z as u64 * 5) % params.pt_modulus;
        let got = dec[z];
        assert_eq!(got, expected, "switch/recover round-trip failed at coeff {z}");
    }
}

#[test]
fn sp_decode_synthetic_single_rlwe() {
    let params = sp_params();
    let seed = fixed_seed();
    let q1 = params.get_q_prime_1();
    let q2 = params.get_q_prime_2();

    let scale_k = params.modulus / params.pt_modulus;
    let expected_values: Vec<u64> = (0..params.poly_len)
        .map(|z| (z as u64 * 13) % params.pt_modulus)
        .collect();
    let pt: Vec<u64> = expected_values.iter().map(|v| v * scale_k).collect();
    let switched_bytes = encrypt(&params, seed, &pt).switch(q1, q2);

    let y_client = YClient::from_seed(&params, seed);
    let recovered = PolyMatrixRaw::recover(&params, q1, q2, &switched_bytes);
    let dec = decrypt_ct_reg_measured(
        &y_client.inner,
        &params,
        &ciphertext_ntt(&params, &recovered),
        params.poly_len,
    );

    for z in 0..params.poly_len {
        assert_eq!(
            dec.data[z], expected_values[z],
            "SP synthetic decode failed at coeff {z}: expected {}, got {}",
            expected_values[z], dec.data[z]
        );
    }
}

#[test]
fn sp_decode_full_pipeline_with_byte_conversion() {
    let params = sp_params();
    let seed = fixed_seed();
    let q1 = params.get_q_prime_1();
    let q2 = params.get_q_prime_2();
    let pt_bits = params.pt_modulus_bits();

    let scale_k = params.modulus / params.pt_modulus;
    let num_rlwe_outputs = params.instances;
    let mut all_expected: Vec<u64> = Vec::new();
    let mut response_bytes: Vec<u8> = Vec::new();

    for inst in 0..num_rlwe_outputs {
        let pt_vals: Vec<u64> = (0..params.poly_len)
            .map(|z| ((inst * params.poly_len + z) as u64 * 7) % params.pt_modulus)
            .collect();
        all_expected.extend_from_slice(&pt_vals);

        let pt: Vec<u64> = pt_vals.iter().map(|v| v * scale_k).collect();
        response_bytes.extend_from_slice(&encrypt(&params, seed, &pt).switch(q1, q2));
    }

    let decoded = YPIRClient::new(&params).decode_response_simplepir_raw(seed, &response_bytes);
    assert_eq!(decoded.len(), num_rlwe_outputs * params.poly_len);

    for (i, (got, expected)) in decoded.iter().zip(all_expected.iter()).enumerate() {
        assert_eq!(
            *got, *expected,
            "Full SP pipeline mismatch at index {i}: expected {expected}, got {got}"
        );
    }

    let decoded_bytes = u64s_to_contiguous_bytes(&decoded, pt_bits);
    assert_eq!(
        decoded_bytes,
        YPIRClient::new(&params).decode_response_simplepir(seed, &response_bytes)
    );
    let round_tripped = contiguous_bytes_to_u64s(&decoded_bytes, pt_bits);
    for (i, (got, expected)) in round_tripped.iter().zip(all_expected.iter()).enumerate() {
        assert_eq!(*got, *expected, "Byte conversion round-trip mismatch at index {i}");
    }
}

#[test]
fn sp_decode_output_length_invariant() {
    let params = sp_params();
    let seed = fixed_seed();
    let q1 = params.get_q_prime_1();
    let q2 = params.get_q_prime_2();

    let num_rlwe_outputs = params.instances;
    let mut response_bytes: Vec<u8> = Vec::new();
    for _ in 0..num_rlwe_outputs {
        let ct = encrypt(&params, seed, &vec![0u64; params.poly_len]);
        response_bytes.extend_from_slice(&ct.switch(q1, q2));
    }

    let decoded = YPIRClient::new(&params).decode_response_simplepir_raw(seed, &response_bytes);
    assert_eq!(
        decoded.len(),
        params.instances * params.poly_len,
        "SP decode output must be instances * poly_len"
    );
}

#[test]
fn u64s_14bit_packing_roundtrip() {
    let pt_bits = 14;
    let n = 2048;
    let vals: Vec<u64> = (0..n).map(|i| (i as u64 * 997) % (1 << pt_bits)).collect();
    let bytes = u64s_to_contiguous_bytes(&vals, pt_bits);
    let recovered = contiguous_bytes_to_u64s(&bytes, pt_bits);
    assert_eq!(recovered.len(), vals.len());
    for (i, (got, expected)) in recovered.iter().zip(vals.iter()).enumerate() {
        assert_eq!(*got, *expected, "14-bit round-trip failed at index {i}");
    }
}

#[test]
fn u64s_14bit_packing_edge_values() {
    let pt_bits = 14;
    let max_val = (1u64 << pt_bits) - 1;
    let vals = vec![0, 1, max_val, max_val - 1, (1 << 13), (1 << 13) - 1];
    let bytes = u64s_to_contiguous_bytes(&vals, pt_bits);
    let recovered = contiguous_bytes_to_u64s(&bytes, pt_bits);
    for (i, (got, expected)) in recovered.iter().zip(vals.iter()).enumerate() {
        assert_eq!(*got, *expected, "14-bit edge value failed at index {i}");
    }
}

#[test]
fn u64s_14bit_packing_random_values() {
    let pt_bits = 14;
    let max_val = 1u64 << pt_bits;
    for _ in 0..10 {
        let n = fastrand::usize(1..4096);
        let vals: Vec<u64> = (0..n).map(|_| fastrand::u64(..) % max_val).collect();
        let bytes = u64s_to_contiguous_bytes(&vals, pt_bits);
        let recovered = contiguous_bytes_to_u64s(&bytes, pt_bits);
        assert_eq!(recovered.len(), vals.len());
        assert_eq!(recovered, vals);
    }
}

#[test]
fn pack_query_crt_encoding() {
    let params = sp_params();
    let vals: Vec<u64> = (0..16).map(|i| (i as u64 * 12345) % params.modulus).collect();
    let packed = pack_query(&params, &vals);
    assert_eq!(packed.len(), vals.len());

    for (i, (&original, &packed_val)) in vals.iter().zip(packed.as_slice().iter()).enumerate() {
        let crt0 = packed_val & 0xFFFFFFFF;
        let crt1 = packed_val >> 32;
        assert_eq!(crt0, original % params.moduli[0], "CRT component 0 mismatch at index {i}");
        assert_eq!(crt1, original % params.moduli[1], "CRT component 1 mismatch at index {i}");
    }
}

#[test]
fn pack_query_zero_input() {
    let params = sp_params();
    let zeros = vec![0u64; 32];
    let packed = pack_query(&params, &zeros);
    assert_eq!(packed.len(), 32);
    for &val in packed.as_slice() {
        assert_eq!(val, 0);
    }
}

#[test]
fn rlwe_to_lwe_output_length() {
    let params = sp_params();
    let ct = PolyMatrixRaw::zero(&params, 2, 1);
    let lwe = rlwe_to_lwe(&params, &ct);
    let expected_len = params.poly_len * params.poly_len + params.poly_len;
    assert_eq!(lwe.len(), expected_len, "rlwe_to_lwe output should be poly_len^2 + poly_len");
}

#[test]
fn rlwe_to_lwe_zero_ciphertext() {
    let params = sp_params();
    let ct = PolyMatrixRaw::zero(&params, 2, 1);
    let lwe = rlwe_to_lwe(&params, &ct);
    for &val in &lwe {
        assert_eq!(val, 0, "rlwe_to_lwe of zero ct should be all zeros");
    }
}

#[test]
fn sp_decode_multi_trial_correctness() {
    let params = sp_params();
    let q1 = params.get_q_prime_1();
    let q2 = params.get_q_prime_2();
    let scale_k = params.modulus / params.pt_modulus;

    for trial in 0..5u8 {
        let seed = [trial + 1; 32];
        let expected_val = (trial as u64 * 37) % params.pt_modulus;
        let mut response_bytes = Vec::new();
        for _ in 0..params.instances {
            let mut pt = vec![0u64; params.poly_len];
            pt[0] = expected_val * scale_k;
            response_bytes.extend_from_slice(&encrypt(&params, seed, &pt).switch(q1, q2));
        }

        let decoded = YPIRClient::new(&params).decode_response_simplepir_raw(seed, &response_bytes);

        assert_eq!(
            decoded[0], expected_val,
            "trial {trial}: first coeff should be {expected_val}, got {}",
            decoded[0]
        );
    }
}

/// An answer of the one-level scheme that decodes, under `client_seed`, to
/// `expected_vals`.
fn synth_simplepir_response(params: &Params, client_seed: Seed, expected_vals: &[u64]) -> Vec<u8> {
    let q1 = params.get_q_prime_1();
    let q2 = params.get_q_prime_2();
    let scale_k = params.modulus / params.pt_modulus;
    let num_rlwe_outputs = params.instances;
    assert_eq!(expected_vals.len(), num_rlwe_outputs * params.poly_len);

    let mut response_bytes = Vec::new();
    for inst in 0..num_rlwe_outputs {
        let pt: Vec<u64> = (0..params.poly_len)
            .map(|z| expected_vals[inst * params.poly_len + z] * scale_k)
            .collect();
        response_bytes.extend_from_slice(&encrypt(params, client_seed, &pt).switch(q1, q2));
    }
    response_bytes
}

#[test]
fn batch_query_returns_k_queries_and_one_pp() {
    let params = sp_params();
    let ypir = YPIRClient::new(&params);
    let target_rows = vec![0usize, 1, 2, 7, 13];
    let ((q_vec, pp), _seed) = ypir.generate_query_simplepir_batch(&target_rows);

    assert_eq!(q_vec.len(), target_rows.len(), "batch should return K query vectors");

    let expected_pp_words = params.poly_len_log2 * params.t_exp_left * params.poly_len;
    assert_eq!(
        pp.as_slice().len(),
        expected_pp_words,
        "pp must satisfy the build_pack_pub_params length invariant"
    );

    for q in &q_vec {
        assert_eq!(
            q.as_slice().len(),
            params.db_rows(),
            "each per-row q.0 should have db_rows entries"
        );
    }
}

#[test]
fn batch_query_pp_matches_under_fixed_secret_rng() {
    let params = sp_params();
    let seed = fixed_seed();
    let secret_rng_seed = [99u8; 32];

    let pp1 = {
        let y_client = YClient::from_seed(&params, seed);
        let mut rng = NoiseStream::from_seed(params.noise_width_e8, secret_rng_seed);
        let pp = y_client.build_pack_pub_params_with_secret_rng(&mut rng);
        assert_eq!(rng.pos as usize, 11 * 3 * 2 * 2048);
        pp
    };
    let pp2 = {
        let y_client = YClient::from_seed(&params, seed);
        let mut rng = NoiseStream::from_seed(params.noise_width_e8, secret_rng_seed);
        y_client.build_pack_pub_params_with_secret_rng(&mut rng)
    };
    assert_eq!(
        pp1.as_slice(),
        pp2.as_slice(),
        "the packing keys must be deterministic given (client_seed, secret_rng_seed)"
    );

    let pp3 = {
        let y_client = YClient::from_seed(&params, seed);
        let mut rng = NoiseStream::from_seed(params.noise_width_e8, [100u8; 32]);
        y_client.build_pack_pub_params_with_secret_rng(&mut rng)
    };
    assert_ne!(
        pp1.as_slice(),
        pp3.as_slice(),
        "different secret RNG seeds should produce different pp blobs"
    );
}

#[test]
fn batch_query_each_q_decodes_independently() {
    let params = sp_params();
    let ypir = YPIRClient::new(&params);
    let pt_modulus = params.pt_modulus;
    let poly_len = params.poly_len;
    let num_rlwe_outputs = params.instances;
    let pt_bits = params.pt_modulus_bits();

    let queries: usize = 4;
    let expected_per_query: Vec<Vec<u64>> = (0..queries)
        .map(|k| {
            (0..(num_rlwe_outputs * poly_len))
                .map(|i| ((k as u64 + 1) * 17 * (i as u64 + 1)) % pt_modulus)
                .collect()
        })
        .collect();

    let target_rows: Vec<usize> = (0..queries).map(|k| k * 3).collect();
    let (_query, client_seed) = ypir.generate_query_simplepir_batch(&target_rows);

    let response_bytes_per_query: Vec<Vec<u8>> = expected_per_query
        .iter()
        .map(|expected| synth_simplepir_response(&params, client_seed, expected))
        .collect();
    let response_refs: Vec<&[u8]> =
        response_bytes_per_query.iter().map(|v| v.as_slice()).collect();

    let raws = ypir.decode_response_simplepir_batch_raw(client_seed, &response_refs);
    assert_eq!(raws.len(), queries);
    for (k, (got, expected)) in raws.iter().zip(expected_per_query.iter()).enumerate() {
        let got = got
            .as_ref()
            .unwrap_or_else(|err| panic!("batch decode slot {k} failed: {}", err.message()));
        assert_eq!(got, expected, "batch decode mismatch on query {k}");
    }

    let bytes = ypir.decode_response_simplepir_batch(client_seed, &response_refs);
    assert_eq!(bytes.len(), queries);
    for (k, (got_bytes, expected)) in bytes.iter().zip(expected_per_query.iter()).enumerate() {
        let got_bytes = got_bytes
            .as_ref()
            .unwrap_or_else(|err| panic!("batch byte decode slot {k} failed: {}", err.message()));
        let recovered = contiguous_bytes_to_u64s(got_bytes, pt_bits);
        assert_eq!(
            &recovered[..expected.len()],
            expected.as_slice(),
            "batch decode (byte variant) mismatch on query {k}"
        );
    }
}

#[test]
fn batch_query_distinct_secret_rngs_produce_distinct_q() {
    let params = sp_params();
    let ypir = YPIRClient::new(&params);
    let target_rows = vec![5usize; 3];
    let ((q_vec, _pp), _seed) = ypir.generate_query_simplepir_batch(&target_rows);
    assert_ne!(
        q_vec[0].as_slice(),
        q_vec[1].as_slice(),
        "two queries for the same row must differ (independent e_k)"
    );
    assert_ne!(q_vec[0].as_slice(), q_vec[2].as_slice());
    assert_ne!(q_vec[1].as_slice(), q_vec[2].as_slice());
}

#[test]
fn batch_decode_chunk_independence() {
    let params = sp_params();
    let ypir = YPIRClient::new(&params);
    let pt_modulus = params.pt_modulus;
    let poly_len = params.poly_len;
    let num_rlwe_outputs = params.instances;
    let n = num_rlwe_outputs * poly_len;

    let expected_0: Vec<u64> = (0..n).map(|i| (i as u64) % pt_modulus).collect();
    let expected_1: Vec<u64> = (0..n).map(|i| ((i as u64 * 5) + 1) % pt_modulus).collect();
    let expected_2: Vec<u64> = (0..n).map(|i| ((i as u64 * 7) + 3) % pt_modulus).collect();

    let target_rows = vec![0usize, 1, 2];
    let (_query, client_seed) = ypir.generate_query_simplepir_batch(&target_rows);
    let r0 = synth_simplepir_response(&params, client_seed, &expected_0);
    let r1 = synth_simplepir_response(&params, client_seed, &expected_1);
    let r2 = synth_simplepir_response(&params, client_seed, &expected_2);

    let alone_0 = ypir.decode_response_simplepir_raw(client_seed, &r0);
    let alone_1 = ypir.decode_response_simplepir_raw(client_seed, &r1);
    let alone_2 = ypir.decode_response_simplepir_raw(client_seed, &r2);

    let response_refs: Vec<&[u8]> = vec![r0.as_slice(), r1.as_slice(), r2.as_slice()];
    let batch = ypir.decode_response_simplepir_batch_raw(client_seed, &response_refs);

    assert_eq!(batch.len(), 3);
    let batch_0 = batch[0].as_ref().expect("batch slot 0 should decode");
    let batch_1 = batch[1].as_ref().expect("batch slot 1 should decode");
    let batch_2 = batch[2].as_ref().expect("batch slot 2 should decode");
    assert_eq!(batch_0, &alone_0, "batch slot 0 must match standalone decode");
    assert_eq!(batch_1, &alone_1, "batch slot 1 must match standalone decode");
    assert_eq!(batch_2, &alone_2, "batch slot 2 must match standalone decode");

    assert_eq!(batch_0, &expected_0);
    assert_eq!(batch_1, &expected_1);
    assert_eq!(batch_2, &expected_2);
}

#[test]
fn batch_decode_returns_per_slot_error_for_malformed_chunk() {
    let params = sp_params();
    let ypir = YPIRClient::new(&params);
    let pt_modulus = params.pt_modulus;
    let n = params.instances * params.poly_len;

    let expected_0: Vec<u64> = (0..n).map(|i| ((i as u64 * 3) + 2) % pt_modulus).collect();
    let expected_2: Vec<u64> = (0..n).map(|i| ((i as u64 * 11) + 7) % pt_modulus).collect();

    let target_rows = vec![0usize, 1, 2];
    let (_query, client_seed) = ypir.generate_query_simplepir_batch(&target_rows);
    let r0 = synth_simplepir_response(&params, client_seed, &expected_0);
    let malformed = vec![0xFFu8];
    let r2 = synth_simplepir_response(&params, client_seed, &expected_2);

    let response_refs: Vec<&[u8]> = vec![r0.as_slice(), malformed.as_slice(), r2.as_slice()];
    let batch = ypir.decode_response_simplepir_batch_raw(client_seed, &response_refs);

    assert_eq!(batch.len(), 3);
    assert_eq!(batch[0].as_ref().expect("slot 0 should decode"), &expected_0);
    assert!(batch[1].is_err(), "malformed slot should return an error");
    assert_eq!(batch[2].as_ref().expect("slot 2 should decode"), &expected_2);
}
