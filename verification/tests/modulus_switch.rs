//! Ciphertexts on the wire.
use ypir::modulus_switch::{expected_ct_byte_len, try_recover, ModulusSwitch};
use ypir::params::{params_for_scenario_simplepir, GetQPrime, Params};
use ypir::poly::PolyMatrixRaw;

fn test_params() -> Params {
    params_for_scenario_simplepir(1 << 14, 2048 * 14)
}

fn sp_params() -> Params {
    params_for_scenario_simplepir(1 << 14, 2048 * 14)
}

#[test]
fn other_lengths_are_not_recovered() {
    let params = test_params();
    let q1 = params.get_q_prime_1();
    let q2 = params.get_q_prime_2();
    let len = expected_ct_byte_len(&params, q1, q2);
    assert!(try_recover(&params, q1, q2, &[]).is_none());
    assert!(try_recover(&params, q1, q2, &[0xFF]).is_none());
    assert!(try_recover(&params, q1, q2, &vec![0u8; len - 1]).is_none());
    assert!(try_recover(&params, q1, q2, &vec![0u8; len + 1]).is_none());
    let zeros = try_recover(&params, q1, q2, &vec![0u8; len]);
    assert!(zeros.unwrap().as_slice().iter().all(|v| *v == 0));
}

#[test]
fn recover_exact_length_all_zeros() {
    let params = test_params();
    let q1 = params.get_q_prime_1();
    let q2 = params.get_q_prime_2();
    let expected_len = expected_ct_byte_len(&params, q1, q2);
    let zeros = vec![0u8; expected_len];
    let result = PolyMatrixRaw::recover(&params, q1, q2, &zeros);
    assert_eq!(result.rows, 2);
    assert_eq!(result.cols, 1);
}

#[test]
fn recover_exact_length_all_ff() {
    let params = test_params();
    let q1 = params.get_q_prime_1();
    let q2 = params.get_q_prime_2();
    let expected_len = expected_ct_byte_len(&params, q1, q2);
    let ff = vec![0xFFu8; expected_len];
    let result = PolyMatrixRaw::recover(&params, q1, q2, &ff);
    assert_eq!(result.rows, 2);
    assert_eq!(result.cols, 1);
    for val in result.as_slice() {
        assert!(*val < params.modulus, "recovered value must be < modulus");
    }
}

#[test]
fn switch_then_recover_preserves_structure() {
    let params = test_params();
    let q1 = params.get_q_prime_1();
    let q2 = params.get_q_prime_2();

    let mut ct = PolyMatrixRaw::zero(&params, 2, 1);
    for i in 0..params.poly_len {
        ct.data[i] = (i as u64 * 1000) % params.modulus;
        ct.data[params.poly_len + i] = (i as u64 * 777) % params.modulus;
    }

    let switched = ct.switch(q1, q2);
    let recovered = PolyMatrixRaw::recover(&params, q1, q2, &switched);

    assert_eq!(recovered.rows, 2);
    assert_eq!(recovered.cols, 1);
    for val in recovered.as_slice() {
        assert!(*val < params.modulus, "recovered value must be < modulus");
    }
}

#[test]
fn recover_random_bytes_produces_in_range_values() {
    let params = test_params();
    let q1 = params.get_q_prime_1();
    let q2 = params.get_q_prime_2();
    let expected_len = expected_ct_byte_len(&params, q1, q2);
    let random_bytes: Vec<u8> = (0..expected_len).map(|_| fastrand::u8(..)).collect();
    let result = PolyMatrixRaw::recover(&params, q1, q2, &random_bytes);
    for val in result.as_slice() {
        assert!(
            *val < params.modulus,
            "adversarial bytes must still produce in-range coefficients after rescale"
        );
    }
}

#[test]
fn sp_switch_recover_preserves_structure() {
    let params = sp_params();
    let q1 = params.get_q_prime_1();
    let q2 = params.get_q_prime_2();

    let mut ct = PolyMatrixRaw::zero(&params, 2, 1);
    for i in 0..params.poly_len {
        ct.data[i] = (i as u64 * 3001) % params.modulus;
        ct.data[params.poly_len + i] = (i as u64 * 4999) % params.modulus;
    }

    let switched = ct.switch(q1, q2);
    assert_eq!(switched.len(), expected_ct_byte_len(&params, q1, q2));

    let recovered = PolyMatrixRaw::recover(&params, q1, q2, &switched);
    assert_eq!(recovered.rows, 2);
    assert_eq!(recovered.cols, 1);
    for val in recovered.as_slice() {
        assert!(*val < params.modulus);
    }
}

#[test]
fn sp_switch_byte_length_matches_expected() {
    let params = sp_params();
    let q1 = params.get_q_prime_1();
    let q2 = params.get_q_prime_2();

    let ct = PolyMatrixRaw::zero(&params, 2, 1);
    let switched = ct.switch(q1, q2);
    assert_eq!(switched.len(), expected_ct_byte_len(&params, q1, q2));
}

#[test]
fn sp_recover_random_bytes_in_range() {
    let params = sp_params();
    let q1 = params.get_q_prime_1();
    let q2 = params.get_q_prime_2();
    let len = expected_ct_byte_len(&params, q1, q2);
    let random_bytes: Vec<u8> = (0..len).map(|_| fastrand::u8(..)).collect();
    let result = PolyMatrixRaw::recover(&params, q1, q2, &random_bytes);
    for val in result.as_slice() {
        assert!(*val < params.modulus);
    }
}

#[test]
fn wire_length_counts_the_bits_of_both_moduli() {
    let params = test_params();
    // 28 bits for the first row and 20 for the second, 2048 of each
    assert_eq!(params.get_q_prime_1(), 1 << 20);
    assert_eq!(params.get_q_prime_2(), 268369921);
    assert_eq!(expected_ct_byte_len(&params, 1 << 20, 268369921), 2048 * 48 / 8);
}

#[test]
fn scaling_down_and_up_moves_a_coefficient_by_half_a_step() {
    let params = test_params();
    let q1 = params.get_q_prime_1();
    let q2 = params.get_q_prime_2();
    let mut ct = PolyMatrixRaw::zero(&params, 2, 1);
    for i in 0..2 * params.poly_len {
        ct.data[i] = fastrand::u64(..) % params.modulus;
    }
    let bytes = ct.switch(q1, q2);
    let back = PolyMatrixRaw::recover(&params, q1, q2, &bytes);
    // the second time nothing more is lost
    assert_eq!(back.switch(q1, q2), bytes);
    for i in 0..2 * params.poly_len {
        let q = if i < params.poly_len { q2 } else { q1 };
        let d = ct.data[i].abs_diff(back.data[i]);
        let d = d.min(params.modulus - d);
        assert!(d <= params.modulus / (2 * q) + 2, "coefficient {i} moved by {d}");
    }
}

#[test]
fn the_first_coefficient_is_the_first_bits() {
    let params = test_params();
    let q1 = params.get_q_prime_1();
    let q2 = params.get_q_prime_2();
    let mut ct = PolyMatrixRaw::zero(&params, 2, 1);
    // a quarter of the modulus is a quarter of either reduced modulus
    ct.data[0] = params.modulus / 4;
    ct.data[params.poly_len] = params.modulus / 4;
    let bytes = ct.switch(q1, q2);
    let first = u32::from_le_bytes([bytes[0], bytes[1], bytes[2], bytes[3] & 0x0F]);
    assert_eq!(first as u64, q2 / 4);
    let offs = params.poly_len * 28 / 8;
    let second = u32::from_le_bytes([bytes[offs], bytes[offs + 1], bytes[offs + 2] & 0x0F, 0]);
    assert_eq!(second as u64, q1 / 4);
}
