//! Byte forms, packing and the elements of a database file.
use valar_spiral_rs::poly::PolyMatrix;
use ypir::aligned::{aligned_from_slice, AlignedMemory64};
use ypir::bits::{contiguous_bytes_to_u64s, read_bits, u64s_to_contiguous_bytes};
use ypir::params::{
    params_for_scenario, params_for_scenario_simplepir, DbRowsCols, Params, PtModulusBits,
};
use ypir::poly::{PolyMatrixNTT, PolyMatrixRaw};
use ypir::pt_iter::{FilePtIter, PtAction, PtRows};
use ypir::serialize::{condense_matrix, pack_vec_pm, uncondense_matrix, unpack_vec_pm};
use ypir::to_bytes::{FromBytes, FromBytesParams, ToBytes};

fn spiral_params(params: &Params) -> valar_spiral_rs::params::Params {
    valar_spiral_rs::params::Params::init(
        params.poly_len,
        &params.moduli,
        params.noise_width_e8 as f64 / 1e8,
        1,
        2,
        14,
        1,
        1,
        1,
        1,
        true,
        0,
        0,
        1,
        0,
        0,
    )
}

fn random_ntt<'a>(params: &'a Params, rows: usize, cols: usize) -> PolyMatrixNTT<'a> {
    let sp = spiral_params(params);
    let m = valar_spiral_rs::poly::PolyMatrixRaw::random(&sp, rows, cols).ntt();
    PolyMatrixNTT { params, rows, cols, data: m.as_slice().to_vec() }
}

fn raw_words(m: &PolyMatrixNTT) -> Vec<u64> {
    let sp = spiral_params(m.params);
    let mut n = valar_spiral_rs::poly::PolyMatrixNTT::zero(&sp, m.rows, m.cols);
    n.as_mut_slice().copy_from_slice(&m.data);
    n.raw().as_slice().to_vec()
}

#[test]
fn test_pack_unpack_vec_pm() {
    let params = params_for_scenario(1 << 10, 1);
    let rows = 5;
    let cols = 3;
    let len = 7;
    let mut v_cts = Vec::new();
    for _ in 0..len {
        v_cts.push(random_ntt(&params, rows, cols));
    }
    let data = pack_vec_pm(&params, rows, cols, &v_cts);
    let v_cts2_weird = unpack_vec_pm(&params, rows, cols, data.as_slice());
    let v_cts2 = v_cts2_weird
        .into_iter()
        .map(|ct| uncondense_matrix(&params, &ct))
        .collect::<Vec<_>>();
    assert_eq!(v_cts2.len(), len);
    for (ct1, ct2) in v_cts.iter().zip(v_cts2.iter()) {
        assert_eq!(raw_words(ct1).as_slice(), raw_words(ct2).as_slice());
    }
}

#[test]
fn test_pt_iter() {
    let num_items = 1 << 14;
    let item_size_bytes = 16384;

    let params = params_for_scenario_simplepir(num_items, item_size_bytes as u64 * 8);
    let db_rows = params.db_rows();
    let db_cols = params.db_cols_simplepir();
    let mut inp_data = vec![0u8; db_rows * item_size_bytes];
    for i in 0..db_rows {
        let start = i * item_size_bytes;
        inp_data[start] = i as u8;
        inp_data[start + 1..start + 5].copy_from_slice(&(i as u32).to_be_bytes());
    }
    let mut pt_iter =
        FilePtIter::new(inp_data, item_size_bytes, db_cols, params.pt_modulus_bits());

    let mut row = vec![0u64; db_cols];
    for i in 0..db_rows {
        for x in row.iter_mut() {
            *x = pt_iter.next() as u64;
        }
        let ci_bytes = u64s_to_contiguous_bytes(&row, params.pt_modulus_bits());
        assert_eq!(ci_bytes[0], i as u8);
        assert_eq!(i as u32, u32::from_be_bytes(ci_bytes[1..5].try_into().unwrap()));
    }
}

#[test]
fn test_pt_iter_unaligned_rows() {
    let pt_bits = 14;
    let bytes_per_row = 20;
    let max_filled_col = (bytes_per_row * 8 + pt_bits - 1) / pt_bits;
    let db_cols = max_filled_col + 5;
    let num_rows = 4;

    let mut data = vec![0u8; num_rows * bytes_per_row];
    for row in 0..num_rows {
        for b in 0..bytes_per_row {
            data[row * bytes_per_row + b] = ((row + 1) * 50 + b) as u8;
        }
    }

    let mut iter = FilePtIter::new(data.clone(), bytes_per_row, db_cols, pt_bits);

    for row in 0..num_rows {
        let expected_bytes = &data[row * bytes_per_row..(row + 1) * bytes_per_row];
        let mut pt_vals = Vec::new();
        for _ in 0..db_cols {
            pt_vals.push(iter.next());
        }

        for col in max_filled_col..db_cols {
            assert_eq!(pt_vals[col], 0, "row {row} col {col}: expected zero padding");
        }

        let as_u64s: Vec<u64> = pt_vals[..max_filled_col].iter().map(|&v| v as u64).collect();
        let reconstructed = u64s_to_contiguous_bytes(&as_u64s, pt_bits);
        assert_eq!(
            &reconstructed[..bytes_per_row],
            expected_bytes,
            "row {row}: round-trip mismatch - cross-row contamination?"
        );
    }
}

#[test]
fn a_short_file_gives_zeros() {
    let mut iter = FilePtIter::new(vec![0xFF; 3], 4, 4, 8);
    // the four bytes of the first row cannot be read, nor those of the second
    for _ in 0..8 {
        assert_eq!(iter.next(), 0);
    }
}

#[test]
fn rows_ask_for_groups_of_eight_elements() {
    let mut rows = PtRows::new(4, 5, 8);
    assert_eq!(rows.next_action(), PtAction::Fetch { seek: None, len: 4 });
    assert_eq!(rows.supply(Some(&[10, 20, 30, 40])), 10);
    assert_eq!(rows.next_action(), PtAction::Value(20));
    assert_eq!(rows.next_action(), PtAction::Value(30));
    assert_eq!(rows.next_action(), PtAction::Value(40));
    assert_eq!(rows.next_action(), PtAction::Value(0));
    assert_eq!(rows.next_action(), PtAction::Fetch { seek: Some(4), len: 4 });
    assert_eq!(rows.supply(None), 0);
}

#[test]
fn condensed_words_hold_both_residues() {
    let params = params_for_scenario(1 << 10, 1);
    let n = params.poly_len;
    let mut a = PolyMatrixNTT::zero(&params, 1, 1);
    a.data[3] = 5;
    a.data[n + 3] = 9;
    let c = condense_matrix(&params, &a);
    assert_eq!(c.data[3], 5 | (9 << 32));
    assert_eq!(uncondense_matrix(&params, &c).data, a.data);
}

#[test]
fn byte_forms_are_exact() {
    let v32: &[u32] = &[1, 0x0A0B_0C0D];
    assert_eq!(v32.to_bytes(), vec![1, 0, 0, 0, 0x0D, 0x0C, 0x0B, 0x0A]);
    let v64: &[u64] = &[0x0102_0304_0506_0708];
    assert_eq!(v64.to_bytes(), vec![8, 7, 6, 5, 4, 3, 2, 1]);
    let idx: Vec<usize> = vec![7];
    assert_eq!(idx.to_bytes(), vec![7, 0, 0, 0, 0, 0, 0, 0]);
    let query = (aligned_from_slice(&[1]), aligned_from_slice(&[2, 3]));
    assert_eq!(
        query.to_bytes(),
        vec![1, 0, 0, 0, 0, 0, 0, 0, 2, 0, 0, 0, 0, 0, 0, 0, 3, 0, 0, 0, 0, 0, 0, 0]
    );
}

#[test]
fn byte_forms_read_back() {
    let params = params_for_scenario(1 << 10, 1);
    let words: Vec<u64> = vec![5, u64::MAX, 0];
    let bytes = words.as_slice().to_bytes();
    assert_eq!(<Vec<u64> as FromBytes>::from_bytes(&bytes), words);
    let m: AlignedMemory64 = FromBytes::from_bytes(&bytes);
    assert_eq!(m.as_slice(), words.as_slice());
    let small: Vec<u32> = vec![9, u32::MAX];
    assert_eq!(<Vec<u32> as FromBytes>::from_bytes(&small.as_slice().to_bytes()), small);

    let list = vec![random_ntt(&params, 2, 1), random_ntt(&params, 1, 1)];
    let back: Vec<PolyMatrixNTT> = FromBytesParams::from_bytes(&list.to_bytes(), &params);
    assert_eq!(back.len(), 2);
    for (a, b) in list.iter().zip(back.iter()) {
        assert_eq!((a.rows, a.cols), (b.rows, b.cols));
        assert_eq!(a.data, b.data);
    }
}

#[test]
fn a_matrix_starts_with_its_shape() {
    let params = params_for_scenario(1 << 10, 1);
    let m = PolyMatrixNTT::zero(&params, 2, 3);
    let bytes = m.to_bytes();
    assert_eq!(bytes.len(), 16 + 8 * 6 * 2 * params.poly_len);
    assert_eq!(&bytes[..16], &[0, 0, 0, 0, 0, 0, 0, 2, 0, 0, 0, 0, 0, 0, 0, 3]);
}

#[test]
fn fields_of_any_width_are_packed() {
    let vals: Vec<u64> = vec![0b101, 0b011, 0b110];
    let bytes = u64s_to_contiguous_bytes(&vals, 3);
    // 101, then 011, then 110, lowest bits first
    assert_eq!(bytes, vec![0b10_011_101, 0b1]);
    assert_eq!(read_bits(&bytes, 3, 3), 0b011);
    assert_eq!(contiguous_bytes_to_u64s(&bytes, 3), vec![0b101, 0b011, 0b110, 0, 0]);
}

#[test]
fn matrices_know_their_polynomials() {
    let params = params_for_scenario(1 << 10, 1);
    let n = params.poly_len;
    let mut m = PolyMatrixRaw::zero(&params, 2, 2);
    m.data[3 * n] = 8;
    assert_eq!(m.get_poly(1, 1)[0], 8);
    assert_eq!(m.get_poly(1, 0), vec![0u64; n].as_slice());
    let one = PolyMatrixRaw::single_value(&params, 6);
    assert_eq!(one.data[0], 6);
    assert_eq!(one.data.len(), n);
}
