//! How long the cached form of precomputed values is.
use crate::cache::{
    enc_list, enc_many, enc_matrices, enc_matrix, enc_precomp_item, index_bytes, indices_bytes,
    matrices_bytes, matrix_bytes, precomp_bytes, MatrixView, PrecompView,
};
use crate::cache_laws::{all_shaped, fits_params, has_shape, precomp_fits};
use crate::offline::{enc_offline, precomp_shape, OfflineView};
use crate::params::Params;
use vstd::bytes::*;
use vstd::prelude::*;

verus! {

/// The bytes of a list of `count` items of `item` bytes each.
pub open spec fn list_size(count: int, item: int) -> int {
    8 + count * item
}

/// The bytes of a matrix of `cells` polynomials of `words` words each.
pub open spec fn matrix_size(cells: int, words: int) -> int {
    8 + 8 * (cells * words)
}

/// The bytes of one precomputation.
pub open spec fn precomp_size(params: Params) -> int {
    let words = 2 * params.poly_len;
    matrix_size(2, words) + list_size(
        params.poly_len - 1,
        matrix_size(params.t_exp_left as int, words),
    ) + list_size(params.poly_len_log2 as int, list_size(params.poly_len as int, 8))
}

/// The bytes of the cached form of values for `params`.
pub open spec fn offline_size(params: Params) -> int {
    let words = 2 * params.poly_len;
    let n = params.poly_len as int;
    let logs = params.poly_len_log2 as int;
    let k = params.instances as int;
    2 + list_size(n * (k * n), 8) + 8 + 8 + 2 * list_size(logs, matrix_size(1, words)) + list_size(
        k,
        list_size(n, matrix_size(2, words)),
    ) + list_size(logs, matrix_size(2 * params.t_exp_left, words)) + list_size(
        k,
        precomp_size(params),
    )
}

/// The bytes of items of one length.
proof fn lemma_many_size<T>(s: Seq<T>, item: spec_fn(T) -> Seq<u8>, len: int)
    requires
        forall|i: int| 0 <= i < s.len() ==> (#[trigger] item(s[i])).len() == len,
    ensures
        enc_many(s, item).len() == s.len() * len,
    decreases s.len(),
{
    if s.len() > 0 {
        let t = s.drop_last();
        assert forall|i: int| 0 <= i < t.len() implies (#[trigger] item(t[i])).len() == len by {
            assert(t[i] == s[i]);
        }
        lemma_many_size(t, item, len);
        let n = s.len() as int;
        assert(item(s[n - 1]).len() == len);
        assert((n - 1) * len + len == n * len) by (nonlinear_arith);
    } else {
        assert(0 * len == 0);
    }
}

/// The bytes of a list of items of one length.
proof fn lemma_list_size<T>(s: Seq<T>, item: spec_fn(T) -> Seq<u8>, len: int)
    requires
        forall|i: int| 0 <= i < s.len() ==> (#[trigger] item(s[i])).len() == len,
    ensures
        enc_list(s, item).len() == list_size(s.len() as int, len),
{
    lemma_auto_spec_u64_to_from_le_bytes();
    assert(spec_u64_to_le_bytes(s.len() as u64).len() == 8);
    lemma_many_size(s, item, len);
}

/// The bytes of a matrix of a given shape.
proof fn lemma_matrix_size(m: MatrixView, words: int, rows: int, cols: int)
    requires
        has_shape(m, words, rows, cols),
    ensures
        enc_matrix(m).len() == matrix_size(rows * cols, words),
{
    lemma_auto_spec_u32_to_from_le_bytes();
    assert(spec_u32_to_le_bytes((m.rows % 0x1_0000_0000) as u32).len() == 4);
    assert(spec_u32_to_le_bytes((m.cols % 0x1_0000_0000) as u32).len() == 4);
}

/// The bytes of a list of matrices of a given shape.
proof fn lemma_matrices_size(s: Seq<MatrixView>, words: int, rows: int, cols: int)
    requires
        all_shaped(s, words, rows, cols),
    ensures
        enc_matrices(s).len() == list_size(s.len() as int, matrix_size(rows * cols, words)),
{
    let item = matrix_bytes();
    assert forall|i: int| 0 <= i < s.len() implies (#[trigger] item(s[i])).len() == matrix_size(
        rows * cols,
        words,
    ) by {
        lemma_matrix_size(s[i], words, rows, cols);
    }
    lemma_list_size(s, item, matrix_size(rows * cols, words));
}

/// The bytes of a precomputation.
proof fn lemma_precomp_size(x: PrecompView, params: Params)
    requires
        params.ring_wf(),
        precomp_fits(x, 2 * params.poly_len, precomp_shape(params)),
    ensures
        enc_precomp_item(x).len() == precomp_size(params),
{
    let words = 2 * params.poly_len;
    let n = params.poly_len as int;
    lemma_matrix_size(x.first, words, 2, 1);
    lemma_matrices_size(x.list, words, params.t_exp_left as int, 1);
    let item = indices_bytes();
    assert forall|i: int| 0 <= i < x.tables.len() implies (#[trigger] item(x.tables[i])).len()
        == list_size(n, 8) by {
        let row = x.tables[i];
        assert(row.len() == n);
        lemma_auto_spec_u64_to_from_le_bytes();
        let one = index_bytes();
        assert forall|k: int| 0 <= k < row.len() implies (#[trigger] one(row[k])).len() == 8 by {
            assert(spec_u64_to_le_bytes(row[k] as u64).len() == 8);
        }
        lemma_list_size(row, one, 8);
    }
    lemma_list_size(x.tables, item, list_size(n, 8));
    assert(params.t_exp_left * 1 == params.t_exp_left);
}

/// All values for one parameter set have a cached form of the same length.
pub proof fn cached_form_has_its_size(v: OfflineView, params: Params)
    requires
        params.ring_wf(),
        fits_params(v, params),
    ensures
        enc_offline(v).len() == offline_size(params),
{
    let words = 2 * params.poly_len;
    let n = params.poly_len as int;
    let k = params.instances as int;
    lemma_auto_spec_u64_to_from_le_bytes();
    assert(spec_u64_to_le_bytes(v.hint_0.len() as u64).len() == 8);
    assert(spec_u64_to_le_bytes(v.hint_1.len() as u64).len() == 8);
    assert(all_shaped(v.pseudorandom_query_1, words, 0, 0));
    lemma_matrices_size(v.pseudorandom_query_1, words, 0, 0);
    assert(0 * matrix_size(0int * 0int, words) == 0);
    lemma_matrices_size(v.y_constants_0, words, 1, 1);
    lemma_matrices_size(v.y_constants_1, words, 1, 1);
    lemma_matrices_size(v.fake_pack_pub_params, words, 2, params.t_exp_left as int);
    let lists = matrices_bytes();
    let inner = list_size(n, matrix_size(2, words));
    assert forall|i: int| 0 <= i < v.prepacked_lwe.len() implies (#[trigger] lists(
        v.prepacked_lwe[i],
    )).len() == inner by {
        lemma_matrices_size(v.prepacked_lwe[i], words, 2, 1);
    }
    lemma_list_size(v.prepacked_lwe, lists, inner);
    let item = precomp_bytes();
    assert forall|i: int| 0 <= i < v.precomp.len() implies (#[trigger] item(v.precomp[i])).len()
        == precomp_size(params) by {
        lemma_precomp_size(v.precomp[i], params);
    }
    lemma_list_size(v.precomp, item, precomp_size(params));
}

/// The product of two numbers below bounds.
proof fn lemma_bounded(a: int, b: int, x: int, y: int)
    requires
        0 <= a <= x,
        0 <= b <= y,
    ensures
        0 <= a * b <= x * y,
{
    assert(0 <= a * b <= x * y) by (nonlinear_arith)
        requires
            0 <= a <= x,
            0 <= b <= y,
    ;
}

/// The bytes of a list.
fn list_bytes_len(count: u128, item: u128) -> (r: u128)
    requires
        count <= 0x1_0000_0000_0000_0000,
        item <= 0x1_0000_0000_0000,
    ensures
        r == list_size(count as int, item as int),
        r <= 8 + count * item,
{
    proof {
        lemma_bounded(
            count as int,
            item as int,
            0x1_0000_0000_0000_0000,
            0x1_0000_0000_0000,
        );
    }
    8 + count * item
}

/// The length of the cached form of values for `params`.
pub fn cached_len(params: &Params) -> (r: u128)
    requires
        params.wf(),
    ensures
        r == offline_size(*params),
{
    let n: u128 = params.poly_len as u128;
    let words: u128 = 2 * n;
    let logs: u128 = params.poly_len_log2 as u128;
    let k: u128 = params.instances as u128;
    let t: u128 = params.t_exp_left as u128;
    proof {
        assert(k <= k * n) by (nonlinear_arith)
            requires
                0 <= k,
                1 <= n,
        ;
        lemma_bounded(n as int, k * n, 4096, 0x1_0000_0000_0000);
        lemma_bounded(t as int, words as int, 64, 8192);
        lemma_bounded(2 * t, words as int, 128, 8192);
        assert((2 * t) * words == 2 * (t * words)) by (nonlinear_arith);
        lemma_bounded(n - 1, 8 + 8 * (t * words), 4095, 4194312);
        lemma_bounded(n as int, 8 + 8 * (2 * words), 4096, 131080);
        lemma_bounded(logs as int, 8 + n * 8, 12, 32776);
        lemma_bounded(logs as int, 8 + 8 * ((2 * t) * words), 12, 8388616);
        lemma_bounded(logs as int, 8 + 8 * words, 12, 65544);
    }
    let hint: u128 = list_bytes_len(n * (k * n), 8);
    let one: u128 = 8 + 8 * words;
    let two: u128 = 8 + 8 * (2 * words);
    let column: u128 = 8 + 8 * (t * words);
    let wide: u128 = 8 + 8 * (2 * t * words);
    let constants: u128 = list_bytes_len(logs, one);
    let lwe: u128 = list_bytes_len(n, two);
    let tables: u128 = list_bytes_len(logs, list_bytes_len(n, 8));
    let per_precomp: u128 = two + list_bytes_len(n - 1, column) + tables;
    proof {
        lemma_bounded(k as int, lwe as int, 0x1_0000_0000_0000, 0x1_0000_0000_0000);
        lemma_bounded(k as int, per_precomp as int, 0x1_0000_0000_0000, 0x1_0000_0000_0000);
        assert(1 * words == words);
    }
    let packed_lwe: u128 = list_bytes_len(k, lwe);
    let fake: u128 = list_bytes_len(logs, wide);
    let precomp: u128 = list_bytes_len(k, per_precomp);
    2 + hint + 8 + 8 + 2 * constants + packed_lwe + fake + precomp
}

} // verus!
