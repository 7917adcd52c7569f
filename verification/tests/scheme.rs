//! Trial runs.
use valar_spiral_rs::poly::PolyMatrix;
use rand::SeedableRng;
use rand_chacha::ChaCha20Rng;
use ypir::modulus_switch::ModulusSwitch;
use ypir::params::{params_for_scenario_simplepir, DbRowsCols, GetQPrime, Params};
use ypir::poly::PolyMatrixRaw;
use ypir::scheme::{
    element_of, mean_rounded, random_element, summarize, target_of, upload_bytes, Measurement,
    OfflineMeasurement, OnlineMeasurement, Sample, TrialFault, TrialRun, TrialTimes,
};

fn sp_params() -> Params {
    params_for_scenario_simplepir(1 << 14, 2048 * 14)
}

fn measured(offline: usize, server: usize, upload: usize) -> Measurement {
    Measurement {
        offline: OfflineMeasurement { server_time_ms: offline },
        online: OnlineMeasurement {
            upload_bytes: upload,
            download_bytes: upload + 1,
            server_time_ms: server,
            client_query_gen_time_ms: upload + 2,
            client_decode_time_ms: upload + 3,
            all_server_times_ms: Vec::new(),
        },
    }
}

/// An answer that holds `row` under the keys of `seed`.
fn answer(params: &Params, seed: [u8; 32], row: &[u64]) -> Vec<u8> {
    let sp = valar_spiral_rs::params::Params::init(
        params.poly_len,
        &params.moduli,
        params.noise_width_e8 as f64 / 1e8,
        1,
        2,
        14,
        1,
        1,
        1,
        1,
        true,
        0,
        0,
        1,
        0,
        0,
    );
    let mut client = valar_spiral_rs::client::Client::init(&sp);
    client.generate_secret_keys_from_seed(seed);
    let scale_k = params.modulus / params.pt_modulus;
    let mut out = Vec::new();
    for part in row.chunks_exact(params.poly_len) {
        let mut m = valar_spiral_rs::poly::PolyMatrixRaw::zero(&sp, 1, 1);
        for (z, v) in part.iter().enumerate() {
            m.as_mut_slice()[z] = v * scale_k;
        }
        let ct = client.encrypt_matrix_reg(
            &m.ntt(),
            &mut ChaCha20Rng::from_entropy(),
            &mut ChaCha20Rng::from_entropy(),
        );
        let data = ct.raw().as_slice().iter().map(|x| x % params.modulus).collect();
        let ct = PolyMatrixRaw { params, rows: 2, cols: 1, data };
        out.extend_from_slice(&ct.switch(params.get_q_prime_1(), params.get_q_prime_2()));
    }
    out
}

#[test]
fn random_elements_are_plaintexts() {
    let params = sp_params();
    assert_eq!(element_of(&params, 16383), 16383);
    assert_eq!(element_of(&params, 16384), 0);
    assert_eq!(element_of(&params, 65535), 16383);
    for _ in 0..100 {
        assert!((random_element(&params) as u64) < params.pt_modulus);
    }
}

#[test]
fn samples_vary() {
    let bytes: Vec<u8> = (0..256).map(|_| u8::sample()).collect();
    assert!(bytes.iter().any(|b| *b != bytes[0]));
    let words: Vec<u16> = (0..256).map(|_| u16::sample()).collect();
    assert!(words.iter().any(|w| *w > 255));
}

#[test]
fn targets_are_places_in_the_database() {
    let params = sp_params();
    let size = params.db_rows() * params.db_cols_simplepir();
    let t = target_of(&params, 5 * 2048 + 7);
    assert_eq!((t.idx, t.row, t.col), (5 * 2048 + 7, 5, 7));
    let t = target_of(&params, size + 3);
    assert_eq!((t.idx, t.row, t.col), (3, 0, 3));
}

#[test]
fn sizes_count_the_bits_of_the_modulus() {
    let params = sp_params();
    assert_eq!(upload_bytes(&params, 16384, 11 * 3 * 2048), 16384 * 7 + 11 * 3 * 2048 * 7);
}

#[test]
fn means_are_rounded_from_a_half_up() {
    assert_eq!(mean_rounded(&[401, 403, 402, 401, 401]), 402);
    assert_eq!(mean_rounded(&[1, 2]), 2);
    assert_eq!(mean_rounded(&[1, 1, 2]), 1);
    assert_eq!(mean_rounded(&[usize::MAX, usize::MAX]), usize::MAX);
}

#[test]
fn the_warm_up_is_left_out() {
    let ms = vec![measured(7, 100, 10), measured(8, 4, 20), measured(9, 6, 30)];
    let s = summarize(&ms);
    assert_eq!(s.offline.server_time_ms, 7);
    assert_eq!(s.online.all_server_times_ms, vec![4, 6]);
    assert_eq!(s.online.server_time_ms, 5);
    assert_eq!(s.online.upload_bytes, 20);
    assert_eq!(s.online.download_bytes, 21);
    assert_eq!(s.online.client_query_gen_time_ms, 22);
    assert_eq!(s.online.client_decode_time_ms, 23);
}

#[test]
fn the_warm_up_is_left_out_before_a_single_trial() {
    let ms = vec![measured(7, 900, 10), measured(8, 400, 20)];
    let s = summarize(&ms);
    assert_eq!(s.offline.server_time_ms, 7);
    assert_eq!(s.online.all_server_times_ms, vec![400]);
    assert_eq!(s.online.server_time_ms, 400);
    assert_eq!(s.online.upload_bytes, 20);
    let alone = summarize(&ms[..1].to_vec());
    assert_eq!(alone.online.all_server_times_ms, vec![900]);
}

#[test]
fn right_answers_are_measured() {
    let params = sp_params();
    let size = params.db_rows() * params.db_cols_simplepir();
    assert!(TrialRun::start(&params, size - 1, 12).is_none());
    let mut run = TrialRun::start(&params, size, 12).unwrap();
    let (trial, query) = run.ask(9 * 2048);
    assert_eq!(trial.target.row, 9);
    assert_eq!(query.0.as_slice().len(), 1 << 14);
    assert_eq!(trial.upload_bytes, (1 << 14) * 7 + 11 * 3 * 2048 * 7);
    let row: Vec<u64> = (0..2048).map(|i| (i * 31) % params.pt_modulus).collect();
    let good = answer(&params, trial.seed, &row);
    let times = TrialTimes { query_gen_ms: 1, server_ms: 2 };

    assert_eq!(run.judge(&trial, &good[1..], &row, times), Err(TrialFault::WrongLength));
    let mut other = row.clone();
    other[3] += 1;
    assert_eq!(run.judge(&trial, &good, &other, times), Err(TrialFault::WrongRow));
    assert!(run.measurements.is_empty());

    assert_eq!(run.judge(&trial, &good, &row, times), Ok(()));
    run.note_decode_time(5);
    let m = &run.measurements[0];
    assert_eq!(m.offline.server_time_ms, 12);
    assert_eq!(m.online.upload_bytes, trial.upload_bytes);
    assert_eq!(m.online.download_bytes, good.len());
    assert_eq!(m.online.server_time_ms, 2);
    assert_eq!(m.online.client_query_gen_time_ms, 1);
    assert_eq!(m.online.client_decode_time_ms, 5);
}
