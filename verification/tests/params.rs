//! Parameter sets.
use ypir::lwe::LWEParams;
use ypir::noise_analysis::noise_shape;
use ypir::params::{
    is_valid_ypir_sp_params, params_for_scenario, params_for_scenario_simplepir,
    params_for_scenario_simplepir_with_config, params_from_fields, DbRowsCols, GetNumDbItems,
    degree_log2, GetQPrime, GetRho, ParamsFields, PtModulusBits, YPIRParams, YPIRSPConfig,
};
use ypir::params_json::{
    ext_params_from_json, fields_valid, json_fields, params_from_json_fields,
};

#[test]
fn legacy_simplepir_builder_uses_default_config() {
    let legacy = params_for_scenario_simplepir(1 << 14, 1 << 17);
    let explicit = params_for_scenario_simplepir_with_config(
        1 << 14,
        1 << 17,
        YPIRSPConfig::degree_2048(),
    );

    assert_eq!(legacy, explicit);
}

#[test]
fn simplepir_4096_config_derives_geometry() {
    let params =
        params_for_scenario_simplepir_with_config(512, 32_768, YPIRSPConfig::degree_4096());

    assert_eq!(params.poly_len, 4096);
    assert_eq!(params.poly_len_log2, 12);
    assert_eq!(params.t_exp_left, 4);
    assert_eq!(params.db_rows(), 4096);
    assert_eq!(params.instances, 1);
    assert_eq!(params.db_cols_simplepir(), 4096);
}

#[test]
fn configurations_have_their_values() {
    assert_eq!(YPIRSPConfig::for_poly_len(2048), YPIRSPConfig::degree_2048());
    assert_eq!(YPIRSPConfig::for_poly_len(4096), YPIRSPConfig::degree_4096());
    assert_eq!(YPIRSPConfig::default(), YPIRSPConfig::degree_2048());
    assert_eq!(YPIRSPConfig::degree_2048().validated_values(), (2048, 3));
    assert_eq!(YPIRSPConfig::degree_4096().poly_len(), 4096);
    assert_eq!(YPIRSPConfig::degree_4096().t_exp_left(), 4);
    assert!(!YPIRParams::default().is_simplepir);
}

#[test]
fn mixed_configurations_are_not_valid() {
    let mut params =
        params_for_scenario_simplepir_with_config(1 << 14, 1 << 17, YPIRSPConfig::degree_4096());
    assert!(is_valid_ypir_sp_params(&params));
    params.t_exp_left = 3;
    assert!(!is_valid_ypir_sp_params(&params));
}

#[test]
fn two_level_sets_split_the_tiles() {
    // 2^27 bytes are 2^5 tiles: three dimensions of rows, two of columns
    let params = params_for_scenario(1 << 30, 1);
    assert_eq!((params.db_dim_1, params.db_dim_2), (3, 2));
    assert_eq!(params.pt_modulus, 32768);
    assert_eq!(params.pt_modulus_bits(), 15);
    assert_eq!(params.q2_bits, 28);
    assert_eq!(params.t_exp_left, 3);
    assert_eq!(params.db_rows(), 1 << 14);
    assert_eq!(params.db_rows_padded_normal(), (1 << 14) + (1 << 7));
    assert_eq!(params.db_cols_normal(), 1 << 13);
    assert_eq!(params.num_db_items(false), 1 << 27);
    // 28700 bits in rings of 2048 elements of 15 bits
    assert_eq!(params.rho(), 1);
    // a small database is one tile
    let small = params_for_scenario(1 << 20, 1);
    assert_eq!((small.db_dim_1, small.db_dim_2), (0, 0));
}

#[test]
fn one_level_sets_pad_the_rows() {
    let params = params_for_scenario_simplepir(1 << 14, 2048 * 14);
    assert_eq!(params.instances, 1);
    assert_eq!(params.db_dim_1, 3);
    assert_eq!(params.pt_modulus, 16384);
    assert_eq!(params.pt_modulus_bits(), 14);
    assert_eq!(params.db_rows(), 1 << 14);
    assert_eq!(params.db_rows_padded_simplepir(), 1 << 14);
    assert_eq!(params.num_db_items(true), 1 << 25);
    // one bit more takes another instance, and rows go up to a power of two
    let more = params_for_scenario_simplepir((1 << 14) + 1, 2048 * 14 + 1);
    assert_eq!(more.instances, 2);
    assert_eq!(more.db_rows(), 1 << 15);
}

#[test]
fn reduced_moduli_follow_their_width() {
    let lwe = LWEParams::default();
    assert_eq!(lwe.get_q_prime_1(), u64::MAX);
    assert_eq!(lwe.get_q_prime_2(), 268369921);
    let mut params = params_for_scenario(1 << 20, 1);
    params.q2_bits = 14;
    assert_eq!(params.get_q_prime_2(), 12289);
    params.q2_bits = 36;
    assert_eq!(params.get_q_prime_2(), 68718428161);
    params.q2_bits = params.modulus_log2;
    assert_eq!(params.get_q_prime_2(), params.modulus);
    assert_eq!(params.get_q_prime_1(), 1 << 20);
}

#[test]
fn fields_left_out_take_their_defaults() {
    let f = ParamsFields {
        n: 2,
        nu_1: 9,
        nu_2: 6,
        instances: None,
        p: 256,
        q2_bits: 5,
        t_gsw: 8,
        t_conv: 4,
        t_exp_left: 8,
        t_exp_right: 56,
        direct_upload: true,
        poly_len: None,
        db_item_size: None,
        version: None,
        noise_width_e8: None,
    };
    let p = params_from_fields(&f);
    assert_eq!(p.poly_len, 2048);
    assert_eq!(p.q2_bits, 14);
    assert_eq!(p.instances, 1);
    assert_eq!(p.version, 0);
    assert_eq!(p.noise_width_e8, 640_000_000);
    assert!(!p.expand_queries);
    // two by two polynomials of 2048 bytes
    assert_eq!(p.db_item_size, 8192);
    let q = params_from_fields(&ParamsFields { db_item_size: Some(100), q2_bits: 20, ..f });
    assert_eq!(q.db_item_size, 100);
    assert_eq!(q.q2_bits, 20);
    let r = params_from_fields(&ParamsFields { db_item_size: Some(0), ..f });
    assert_eq!(r.db_item_size, 8192);
}

#[test]
fn reductions_compose() {
    let params = params_for_scenario(1 << 20, 1);
    let x = 123_456_789_012_345_678u64;
    assert_eq!(params.barrett_u64(x), x % params.modulus);
    assert_eq!(params.barrett_coeff_u64(x, 0), x % params.moduli[0]);
    assert_eq!(params.barrett_coeff_u64(x, 1), x % params.moduli[1]);
    let y = (x as u128) * (x as u128);
    assert_eq!(
        params.barrett_reduction_u128(y) % params.modulus,
        (y % params.modulus as u128) as u64
    );
    let v = 987_654_321_987_654u64;
    let c = params.crt_compose_2(v % params.moduli[0], v % params.moduli[1]);
    assert_eq!(c % params.modulus, v);
}

#[test]
fn noise_shapes_match_gadget_configuration() {
    let small = noise_shape(&params_for_scenario_simplepir_with_config(
        1 << 14,
        1 << 17,
        YPIRSPConfig::degree_2048(),
    ));
    let large = noise_shape(&params_for_scenario_simplepir_with_config(
        1 << 14,
        1 << 17,
        YPIRSPConfig::degree_4096(),
    ));
    assert_eq!(small.gadget_bits_per_digit, 19);
    assert_eq!(small.gadget_base, 1 << 19);
    assert_eq!(large.gadget_bits_per_digit, 15);
    assert_eq!(large.gadget_base, 1 << 15);
    assert_eq!(small.decoded_coefficients, small.instances * small.poly_len);
    assert_eq!(large.decoded_coefficients, large.instances * large.poly_len);
    assert_eq!(small.db_rows, 1 << 14);
    assert_eq!(small.gadget_digits, 3);
    assert_eq!(small.q_prime_small, 1 << 20);
    assert_eq!(small.q_prime_large, 268369921);
}

fn json(moduli: &str, noise_width: &str, more: &str) -> String {
    format!(
        r#"{{
            "n": 1,
            "nu_1": 3,
            "nu_2": 2,
            "p": 32768,
            "q2_bits": 28,
            "t_gsw": 3,
            "t_conv": 4,
            "t_exp_left": 3,
            "t_exp_right": 2,
            "instances": 1,
            "db_item_size": 0,
            "moduli": {moduli},
            "noise_width": {noise_width},
            "poly_len": 2048{more}
        }}"#
    )
}

#[test]
fn a_text_describes_its_set() {
    let text = json("[\"268369921\", \"249561089\"]", "16.042421", "");
    let params = ext_params_from_json(&text).unwrap();
    assert_eq!(params, params_for_scenario(1 << 30, 1));
    let numbers = json("[268369921, 249561089]", "16.042421", "");
    assert_eq!(ext_params_from_json(&numbers), Some(params));
    let direct = json("null", "6.4", ", \"direct_upload\": false, \"version\": 2");
    let other = ext_params_from_json(&direct).unwrap();
    assert!(!other.expand_queries);
    assert_eq!(other.version, 2);
    assert_eq!(other.noise_width_e8, 640_000_000);
    let whole = ext_params_from_json(&json("null", "7", "")).unwrap();
    assert_eq!(whole.noise_width_e8, 700_000_000);
    let unnamed = ext_params_from_json(&json("null", "null", "")).unwrap();
    assert_eq!(unnamed.noise_width_e8, 640_000_000);
}

#[test]
fn other_texts_describe_nothing() {
    assert_eq!(ext_params_from_json("{"), None);
    assert_eq!(ext_params_from_json("{}"), None);
    assert_eq!(ext_params_from_json(&json("[3, 5]", "6.4", "")), None);
    assert_eq!(ext_params_from_json(&json("[268369921]", "6.4", "")), None);
    assert_eq!(ext_params_from_json(&json("null", "-1", "")), None);
    assert_eq!(ext_params_from_json(&json("null", "6.123456789", "")), None);
    assert_eq!(ext_params_from_json(&json("null", "6.4", ", \"poly_len\": 3000")), None);
    assert_eq!(ext_params_from_json(&json("null", "6.4", ", \"poly_len\": 65536")), None);
}

#[test]
fn sets_of_other_rings_and_widths_are_described() {
    let small = ext_params_from_json(&json("null", "6.4", ", \"poly_len\": 1024")).unwrap();
    assert_eq!((small.poly_len, small.poly_len_log2), (1024, 10));
    assert_eq!(small.modulus, 66974689739603969);
    assert!(!small.is_usable());
    let wide = ext_params_from_json(&json("null", "1000.5", "")).unwrap();
    assert_eq!(wide.noise_width_e8, 100_050_000_000);
    assert!(!wide.is_usable());
    let noiseless = ext_params_from_json(&json("null", "0", "")).unwrap();
    assert_eq!(noiseless.noise_width_e8, 0);
    assert_eq!(degree_log2(32768), Some(15));
    assert_eq!(degree_log2(65536), None);
    assert_eq!(degree_log2(1), Some(0));
    assert_eq!(degree_log2(0), None);
    assert_eq!(degree_log2(2049), None);
}

#[test]
fn fields_are_picked_by_name() {
    let f = json_fields(&json("[1, \"two\"]", "6.4", ""));
    assert_eq!(f.nu_1, Some(3));
    assert_eq!(f.version, None);
    assert_eq!(f.direct_upload, None);
    assert_eq!(f.noise_width, Some("6.4".to_string()));
    assert_eq!(f.moduli, Some(vec!["1".to_string(), "\"two\"".to_string()]));
    assert_eq!(params_from_json_fields(&f), None);
}

#[test]
fn sizes_that_overflow_are_not_valid() {
    let f = ParamsFields {
        n: 1,
        nu_1: 0,
        nu_2: 0,
        instances: Some(1),
        p: 2,
        q2_bits: 28,
        t_gsw: 3,
        t_conv: 4,
        t_exp_left: 3,
        t_exp_right: 2,
        direct_upload: false,
        poly_len: Some(4096),
        db_item_size: None,
        version: None,
        noise_width_e8: None,
    };
    assert!(fields_valid(&f));
    assert!(!fields_valid(&ParamsFields { n: 1 << 40, ..f }));
    assert!(fields_valid(&ParamsFields { n: 1 << 40, db_item_size: Some(1), ..f }));
    assert!(fields_valid(&ParamsFields { p: 0, ..f }));
    assert!(!fields_valid(&ParamsFields { poly_len: Some(8191), ..f }));
    let most = (1usize << 63) / 4096;
    assert!(fields_valid(&ParamsFields { instances: Some(most), ..f }));
    assert!(!fields_valid(&ParamsFields { instances: Some(most), p: 4, ..f }));
    let large = params_from_fields(&ParamsFields { nu_1: 60, ..f });
    assert!(!large.has_countable_sizes());
    assert!(params_from_fields(&f).has_countable_sizes());
}

#[test]
fn altered_sets_are_not_usable() {
    let params = params_for_scenario_simplepir(1 << 14, 2048 * 14);
    assert!(params.is_usable());
    assert!(params.has_supported_ring());
    let mut other = params;
    other.mod0_inv_mod1 += 1;
    assert!(!other.has_supported_ring());
    let mut other = params;
    other.poly_len = 1024;
    assert!(!other.is_usable());
    let mut other = params;
    other.instances = 0;
    assert!(other.has_supported_ring() && !other.is_usable());
}
