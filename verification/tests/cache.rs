//! The cached form of precomputed values.
use ypir::aligned::aligned_from_slice;
use ypir::cache::{CacheError, Reader};
use ypir::cache_aligned::dump_aligned_memory64;
use ypir::offline::OfflinePrecomputedValues;
use ypir::offline_size::cached_len;
use ypir::params::{params_for_scenario_simplepir, Params};
use ypir::poly::PolyMatrixNTT;
use ypir::to_bytes::{FromBytesParams, ToBytes};

fn matrix<'a>(params: &'a Params, rows: usize, cols: usize, first: u64) -> PolyMatrixNTT<'a> {
    let mut m = PolyMatrixNTT::zero(params, rows, cols);
    m.data[0] = first;
    let last = m.data.len() - 1;
    m.data[last] = first + 1;
    m
}

/// Values of the shapes that the parameters ask for.
fn values(params: &Params) -> OfflinePrecomputedValues<'_> {
    let n = params.poly_len;
    let logs = params.poly_len_log2;
    let t = params.t_exp_left;
    OfflinePrecomputedValues {
        hint_0: (0..(n * params.instances * n) as u64).collect(),
        hint_1: Vec::new(),
        pseudorandom_query_1: Vec::new(),
        y_constants: (
            (0..logs).map(|i| matrix(params, 1, 1, i as u64)).collect(),
            (0..logs).map(|i| matrix(params, 1, 1, 100 + i as u64)).collect(),
        ),
        smaller_server: None,
        prepacked_lwe: (0..params.instances)
            .map(|_| (0..n).map(|i| matrix(params, 2, 1, i as u64)).collect())
            .collect(),
        fake_pack_pub_params: (0..logs).map(|i| matrix(params, 2, t, i as u64)).collect(),
        precomp: (0..params.instances)
            .map(|_| {
                (
                    matrix(params, 2, 1, 9),
                    (0..n - 1).map(|i| matrix(params, t, 1, i as u64)).collect(),
                    (0..logs).map(|i| (0..n).map(|j| i * j).collect()).collect(),
                )
            })
            .collect(),
    }
}

fn sp_params() -> Params {
    params_for_scenario_simplepir(1 << 11, 2048 * 14)
}

fn dump(params: &Params) -> Vec<u8> {
    let mut out = Vec::new();
    values(params).dump_into(&mut out);
    out
}

fn load_error(data: &[u8], params: &Params) -> CacheError {
    let mut r = Reader::new(data);
    match OfflinePrecomputedValues::load_from(&mut r, params) {
        Ok(_) => panic!("the input was accepted"),
        Err(e) => e,
    }
}

fn truncation_lengths(dump_len: usize) -> Vec<usize> {
    let mut lengths: Vec<usize> = (0..64).collect();
    lengths.extend([
        dump_len / 4,
        dump_len / 2,
        dump_len.saturating_sub(64),
        dump_len.saturating_sub(8),
        dump_len.saturating_sub(1),
    ]);
    lengths.into_iter().filter(|&n| n < dump_len).collect()
}

#[test]
fn cached_values_read_back() {
    let params = sp_params();
    let v = values(&params);
    let mut data = Vec::new();
    v.dump_into(&mut data);
    let len = data.len();
    data.extend_from_slice(&[1, 2, 3]);
    let mut r = Reader::new(&data);
    let back = match OfflinePrecomputedValues::load_from(&mut r, &params) {
        Ok(x) => x,
        Err(e) => panic!("{e:?}"),
    };
    assert_eq!(r.pos, len);
    assert_eq!(back.hint_0, v.hint_0);
    assert!(back.hint_1.is_empty());
    assert!(back.smaller_server.is_none());
    for (a, b) in back.y_constants.1.iter().zip(&v.y_constants.1) {
        assert_eq!(a.data, b.data);
    }
    assert_eq!(back.prepacked_lwe[0].len(), v.prepacked_lwe[0].len());
    for (a, b) in back.prepacked_lwe[0].iter().zip(&v.prepacked_lwe[0]) {
        assert_eq!(a.data, b.data);
    }
    assert_eq!(back.precomp[0].0.data, v.precomp[0].0.data);
    assert_eq!(back.precomp[0].1[5].data, v.precomp[0].1[5].data);
    assert_eq!(back.precomp[0].2, v.precomp[0].2);
    let mut again = Vec::new();
    back.dump_into(&mut again);
    assert_eq!(again.as_slice(), &data[..len]);
}

#[test]
fn test_offline_load_rejects_truncation() {
    let params = sp_params();
    let offline_dump = dump(&params);
    for len in truncation_lengths(offline_dump.len()) {
        let mut r = Reader::new(&offline_dump[..len]);
        let res = OfflinePrecomputedValues::load_from(&mut r, &params);
        assert!(
            res.is_err(),
            "OfflinePrecomputedValues::load_from accepted truncated dump at len={len}"
        );
    }
}

#[test]
fn test_offline_load_rejects_version_mutation() {
    let params = sp_params();
    let mut mutated = dump(&params);
    let version = mutated[0];
    for new_v in 1u8..=255 {
        if new_v == version {
            continue;
        }
        mutated[0] = new_v;
        let mut r = Reader::new(&mutated);
        let res = OfflinePrecomputedValues::load_from(&mut r, &params);
        assert!(
            res.is_err(),
            "OfflinePrecomputedValues::load_from accepted unknown version byte 0x{new_v:02x}"
        );
    }
}

#[test]
fn test_offline_load_rejects_unknown_flag_bits() {
    let params = sp_params();
    let mut mutated = dump(&params);
    let flags = mutated[1];
    for bit in 1..=7u8 {
        mutated[1] = flags | 1 << bit;
        let mut r = Reader::new(&mutated);
        let res = OfflinePrecomputedValues::load_from(&mut r, &params);
        assert!(
            res.is_err(),
            "OfflinePrecomputedValues::load_from accepted reserved flag bit {bit}"
        );
    }
}

#[test]
fn test_offline_load_rejects_normal_size_wrong_hint_0_length() {
    let params = sp_params();
    let mut offline_dump = dump(&params);
    let db_cols = params.instances * params.poly_len;
    let expected = (params.poly_len * db_cols) as u64;
    let bogus = expected + 1;
    offline_dump[2..10].copy_from_slice(&bogus.to_le_bytes());
    match load_error(&offline_dump, &params) {
        CacheError::Malformed { what, detail } => {
            assert!(
                what == "hint_0"
                    && detail.contains(&format!("{bogus}"))
                    && detail.contains(&format!("{expected}")),
                "expected hint_0 length-mismatch error, got {what}: {detail}"
            );
        }
        other => {
            panic!("expected CacheError::Malformed for wrong hint_0 length, got {other:?}")
        }
    }
}

#[test]
fn test_offline_load_rejects_normal_size_short_hint_0_length() {
    let params = sp_params();
    let mut offline_dump = dump(&params);
    let db_cols = params.instances * params.poly_len;
    let expected = (params.poly_len * db_cols) as u64;
    let bogus = expected - 1;
    offline_dump[2..10].copy_from_slice(&bogus.to_le_bytes());
    let err = load_error(&offline_dump, &params);
    assert!(
        matches!(err, CacheError::Malformed { what: "hint_0", .. }),
        "expected hint_0 length-mismatch error, got {err:?}"
    );
}

#[test]
fn errors_say_what_is_wrong() {
    let params = sp_params();
    assert_eq!(
        load_error(&[], &params),
        CacheError::Truncated { what: "payload version", needed: 1, got: 0 }
    );
    assert_eq!(
        load_error(&[7, 0], &params),
        CacheError::Malformed {
            what: "payload version",
            detail: "unknown version 7, expected 1".to_string()
        }
    );
    assert_eq!(
        load_error(&[1, 0x82], &params),
        CacheError::Malformed {
            what: "flags",
            detail: "unknown flag bits set: 0x82 (known mask 0x01)".to_string()
        }
    );
    assert_eq!(
        load_error(&[1, 1], &params),
        CacheError::Malformed {
            what: "flags",
            detail: "smaller_server-present flag set; this loader expects None".to_string()
        }
    );
    let mut long = vec![1u8, 0];
    long.extend_from_slice(&u64::MAX.to_le_bytes());
    assert!(matches!(load_error(&long, &params), CacheError::Malformed { what: "hint_0", .. }));
}

#[test]
fn buffers_read_back() {
    let m = aligned_from_slice(&[3, 1 << 40, 5]);
    let mut out = vec![0xAAu8];
    dump_aligned_memory64(&mut out, &m);
    assert_eq!(out.len(), 1 + 8 + 24);
    let mut r = Reader { data: &out, pos: 1 };
    let back = r.load_aligned_memory64_exact(3, "db").unwrap();
    assert_eq!(back.as_slice(), m.as_slice());
    assert_eq!(r.pos, out.len());

    let mut r = Reader { data: &out, pos: 1 };
    let err = r.load_aligned_memory64_exact(4, "db").err().unwrap();
    assert_eq!(
        err,
        CacheError::Malformed {
            what: "db",
            detail: "length 3 u64s != expected 4 u64s".to_string()
        }
    );
    let mut r = Reader { data: &out[..20], pos: 1 };
    let err = r.load_aligned_memory64_exact(3, "db").err().unwrap();
    assert!(matches!(err, CacheError::Truncated { what: "db", .. }));
}

#[test]
fn the_plain_byte_form_has_the_parts_in_order() {
    let params = sp_params();
    let v = values(&params);
    let bytes = v.to_bytes();
    let hint: &[u64] = &v.hint_0;
    let head = hint.to_bytes();
    assert_eq!(&bytes[..head.len()], head.as_slice());
    // an empty list of matrices follows: its length, most significant first
    assert_eq!(&bytes[head.len()..head.len() + 8], &[0u8; 8]);
}

#[test]
fn the_cached_form_has_its_length() {
    let params = sp_params();
    assert_eq!(dump(&params).len() as u128, cached_len(&params));
}

#[test]
fn a_refused_length_leaves_the_reader_behind_it() {
    let mut data = 5u64.to_le_bytes().to_vec();
    data.extend_from_slice(&[0u8; 40]);
    let mut r = Reader::new(&data);
    assert_eq!(
        r.load_vec_u64_exact(4, "words"),
        Err(CacheError::Malformed {
            what: "words",
            detail: "length 5 != expected 4".to_string()
        })
    );
    assert_eq!(r.pos, 8);
    let mut r = Reader::new(&data[..40]);
    assert_eq!(
        r.load_vec_u64_exact(5, "words"),
        Err(CacheError::Truncated { what: "words", needed: 40, got: 0 })
    );
    assert_eq!(r.pos, 8);
    let mut r = Reader::new(&data);
    assert_eq!(r.load_vec_u64_exact(5, "words"), Ok(vec![0; 5]));
    assert_eq!(r.pos, 48);
}

#[test]
fn the_plain_byte_form_reads_back() {
    let params = sp_params();
    let v = values(&params);
    let bytes = v.to_bytes();
    let back: OfflinePrecomputedValues = FromBytesParams::from_bytes(&bytes, &params);
    assert_eq!(back.hint_0, v.hint_0);
    assert!(back.hint_1.is_empty());
    assert_eq!(back.y_constants.1[3].data, v.y_constants.1[3].data);
    assert_eq!(back.prepacked_lwe[0][9].data, v.prepacked_lwe[0][9].data);
    assert_eq!(back.fake_pack_pub_params[2].data, v.fake_pack_pub_params[2].data);
    assert_eq!(back.precomp[0].1[7].data, v.precomp[0].1[7].data);
    assert_eq!(back.precomp[0].2, v.precomp[0].2);
}
