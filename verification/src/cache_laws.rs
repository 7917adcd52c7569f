//! What holds of the cached form: reading gives back what was written, writing
//! gives back what was read, and no proper prefix is taken for the whole.
use crate::cache::{
    dec_dim, dec_index, dec_index_lists, dec_indices, dec_len, dec_len_exact, dec_list, dec_many,
    dec_matrices, dec_matrix, dec_matrix_lists, dec_precomp, dec_precomp_item, dec_vec_u64,
    dec_words, enc_index_lists, enc_indices, enc_list, enc_many, enc_matrices, enc_matrix,
    enc_matrix_lists, enc_precomp, enc_precomp_item, enc_vec_u64, enc_words, index_bytes,
    index_item, indices_bytes, indices_item, matrices_bytes, matrices_item, matrix_bytes,
    matrix_item, precomp_bytes, precomp_item, word_at, MAX_LEN_PREFIX, MatrixView, Outcome,
    PrecompShape, PrecompView, Stop,
};
use crate::offline::{
    dec_body, dec_header, dec_offline, dec_packing, enc_offline, precomp_shape, OfflineView,
    PAYLOAD_FORMAT_V1,
};
use crate::params::Params;
use vstd::bytes::*;
use vstd::prelude::*;

verus! {

/// The bytes `b` stand in `data` from `pos` on.
pub open spec fn holds_at(data: Seq<u8>, pos: int, b: Seq<u8>) -> bool {
    &&& 0 <= pos
    &&& pos + b.len() <= data.len()
    &&& data.subrange(pos, pos + b.len()) == b
}

/// Bytes that stand in `data` stand there part by part.
proof fn lemma_holds_split(data: Seq<u8>, pos: int, a: Seq<u8>, b: Seq<u8>)
    requires
        holds_at(data, pos, a + b),
    ensures
        holds_at(data, pos, a),
        holds_at(data, pos + a.len(), b),
{
    let whole = data.subrange(pos, pos + (a + b).len());
    assert forall|i: int| 0 <= i < a.len() implies data.subrange(pos, pos + a.len())[i] == a[i] by {
        assert(whole[i] == (a + b)[i]);
    }
    assert(data.subrange(pos, pos + a.len()) =~= a);
    assert forall|i: int| 0 <= i < b.len() implies data.subrange(
        pos + a.len(),
        pos + a.len() + b.len(),
    )[i] == b[i] by {
        assert(whole[a.len() + i] == (a + b)[a.len() + i]);
    }
    assert(data.subrange(pos + a.len(), pos + a.len() + b.len()) =~= b);
}

/// Parts that stand one behind the other stand there as a whole.
proof fn lemma_holds_join(data: Seq<u8>, pos: int, a: Seq<u8>, b: Seq<u8>)
    requires
        holds_at(data, pos, a),
        holds_at(data, pos + a.len(), b),
    ensures
        holds_at(data, pos, a + b),
{
    let whole = data.subrange(pos, pos + (a + b).len());
    assert forall|i: int| 0 <= i < (a + b).len() implies whole[i] == (a + b)[i] by {
        if i < a.len() {
            assert(data.subrange(pos, pos + a.len())[i] == a[i]);
        } else {
            assert(data.subrange(pos + a.len(), pos + a.len() + b.len())[i - a.len()] == b[i
                - a.len()]);
        }
    }
    assert(whole =~= a + b);
}

// Reading what was written.

/// A length prefix reads back.
proof fn lemma_len_reads(data: Seq<u8>, pos: int, n: int, label: Seq<char>, what: Seq<char>)
    requires
        0 <= n <= MAX_LEN_PREFIX,
        holds_at(data, pos, spec_u64_to_le_bytes(n as u64)),
    ensures
        dec_len(data, pos, what) == Ok::<(int, int), Stop>((n, pos + 8)),
        dec_len_exact(data, pos, n, label, what) == Ok::<((), int), Stop>(((), pos + 8)),
{
    lemma_auto_spec_u64_to_from_le_bytes();
    assert(spec_u64_to_le_bytes(n as u64).len() == 8);
    assert(data.subrange(pos, pos + 8) == spec_u64_to_le_bytes(n as u64));
}

/// Words read back.
proof fn lemma_words_read(data: Seq<u8>, pos: int, s: Seq<u64>, what: Seq<char>)
    requires
        holds_at(data, pos, enc_words(s)),
    ensures
        dec_words(data, pos, s.len() as int, what) == Ok::<(Seq<u64>, int), Stop>(
            (s, pos + 8 * s.len()),
        ),
{
    lemma_auto_spec_u64_to_from_le_bytes();
    let b = enc_words(s);
    assert forall|i: int| 0 <= i < s.len() implies #[trigger] word_at(data, pos + 8 * i) == s[i] by {
        let w = data.subrange(pos + 8 * i, pos + 8 * i + 8);
        assert(spec_u64_to_le_bytes(s[i]).len() == 8);
        assert forall|k: int| 0 <= k < 8 implies w[k] == spec_u64_to_le_bytes(s[i])[k] by {
            assert(data.subrange(pos, pos + b.len())[8 * i + k] == b[8 * i + k]);
        }
        assert(w =~= spec_u64_to_le_bytes(s[i]));
    }
    assert(Seq::new(s.len(), |i: int| word_at(data, pos + 8 * i)) =~= s);
}

/// A list of words reads back.
pub proof fn lemma_vec_u64_reads(data: Seq<u8>, pos: int, s: Seq<u64>, what: Seq<char>)
    requires
        s.len() <= MAX_LEN_PREFIX,
        holds_at(data, pos, enc_vec_u64(s)),
    ensures
        dec_vec_u64(data, pos, s.len() as int, what) == Ok::<(Seq<u64>, int), Stop>(
            (s, pos + enc_vec_u64(s).len()),
        ),
{
    lemma_auto_spec_u64_to_from_le_bytes();
    lemma_holds_split(data, pos, spec_u64_to_le_bytes(s.len() as u64), enc_words(s));
    lemma_len_reads(data, pos, s.len() as int, "length "@, what);
    lemma_words_read(data, pos + 8, s, what);
}

/// The shape of a matrix that the format can carry.
pub open spec fn has_shape(m: MatrixView, words: int, rows: int, cols: int) -> bool {
    &&& m.rows == rows
    &&& m.cols == cols
    &&& m.data.len() == rows * cols * words
    &&& rows <= MAX_LEN_PREFIX
    &&& cols <= MAX_LEN_PREFIX
}

/// A matrix reads back.
proof fn lemma_matrix_reads(
    data: Seq<u8>,
    pos: int,
    m: MatrixView,
    words: int,
    rows: int,
    cols: int,
    what: Seq<char>,
)
    requires
        has_shape(m, words, rows, cols),
        holds_at(data, pos, enc_matrix(m)),
    ensures
        dec_matrix(data, pos, words, rows, cols, what) == Ok::<(MatrixView, int), Stop>(
            (m, pos + enc_matrix(m).len()),
        ),
{
    lemma_auto_spec_u32_to_from_le_bytes();
    let r = spec_u32_to_le_bytes((m.rows % 0x1_0000_0000) as u32);
    let c = spec_u32_to_le_bytes((m.cols % 0x1_0000_0000) as u32);
    assert(r.len() == 4 && c.len() == 4);
    lemma_holds_split(data, pos, r + c, enc_words(m.data));
    lemma_holds_split(data, pos, r, c);
    assert(data.subrange(pos, pos + 4) == r);
    assert(data.subrange(pos + 4, pos + 8) == c);
    assert((m.rows % 0x1_0000_0000) as u32 == m.rows);
    assert((m.cols % 0x1_0000_0000) as u32 == m.cols);
    assert(dec_dim(data, pos, what) == Ok::<(int, int), Stop>((rows, pos + 4)));
    assert(dec_dim(data, pos + 4, what) == Ok::<(int, int), Stop>((cols, pos + 8)));
    lemma_words_read(data, pos + 8, m.data, what);
}

/// Every value of `s` reads back wherever its bytes stand.
pub open spec fn items_read<T>(
    data: Seq<u8>,
    s: Seq<T>,
    enc: spec_fn(T) -> Seq<u8>,
    dec: spec_fn(int) -> Outcome<T>,
) -> bool {
    forall|i: int, p: int|
        0 <= i < s.len() && #[trigger] holds_at(data, p, enc(s[i])) ==> dec(p) == Ok::<
            (T, int),
            Stop,
        >((s[i], p + enc(s[i]).len()))
}

/// Values one after the other read back.
proof fn lemma_many_read<T>(
    data: Seq<u8>,
    pos: int,
    s: Seq<T>,
    enc: spec_fn(T) -> Seq<u8>,
    dec: spec_fn(int) -> Outcome<T>,
)
    requires
        items_read(data, s, enc, dec),
        holds_at(data, pos, enc_many(s, enc)),
    ensures
        dec_many(pos, s.len() as int, dec) == Ok::<(Seq<T>, int), Stop>(
            (s, pos + enc_many(s, enc).len()),
        ),
    decreases s.len(),
{
    if s.len() == 0 {
        assert(s =~= Seq::empty());
    } else {
        let t = s.drop_last();
        lemma_holds_split(data, pos, enc_many(t, enc), enc(s.last()));
        assert forall|i: int, p: int|
            0 <= i < t.len() && #[trigger] holds_at(data, p, enc(t[i])) implies dec(p) == Ok::<
            (T, int),
            Stop,
        >((t[i], p + enc(t[i]).len())) by {
            assert(holds_at(data, p, enc(s[i])));
        }
        lemma_many_read(data, pos, t, enc, dec);
        let p = pos + enc_many(t, enc).len();
        assert(holds_at(data, p, enc(s[s.len() - 1])));
        assert(t.push(s.last()) =~= s);
    }
}

/// A list reads back.
proof fn lemma_list_reads<T>(
    data: Seq<u8>,
    pos: int,
    s: Seq<T>,
    enc: spec_fn(T) -> Seq<u8>,
    dec: spec_fn(int) -> Outcome<T>,
    label: Seq<char>,
    what: Seq<char>,
)
    requires
        s.len() <= MAX_LEN_PREFIX,
        items_read(data, s, enc, dec),
        holds_at(data, pos, enc_list(s, enc)),
    ensures
        dec_list(data, pos, s.len() as int, dec, label, what) == Ok::<(Seq<T>, int), Stop>(
            (s, pos + enc_list(s, enc).len()),
        ),
{
    lemma_auto_spec_u64_to_from_le_bytes();
    lemma_holds_split(data, pos, spec_u64_to_le_bytes(s.len() as u64), enc_many(s, enc));
    lemma_len_reads(data, pos, s.len() as int, label, what);
    lemma_many_read(data, pos + 8, s, enc, dec);
}

/// Every matrix of a list has the given shape.
pub open spec fn all_shaped(s: Seq<MatrixView>, words: int, rows: int, cols: int) -> bool {
    &&& s.len() <= MAX_LEN_PREFIX
    &&& forall|i: int| 0 <= i < s.len() ==> has_shape(#[trigger] s[i], words, rows, cols)
}

/// A list of matrices reads back.
proof fn lemma_matrices_read(
    data: Seq<u8>,
    pos: int,
    s: Seq<MatrixView>,
    words: int,
    rows: int,
    cols: int,
    label: Seq<char>,
    what: Seq<char>,
)
    requires
        all_shaped(s, words, rows, cols),
        holds_at(data, pos, enc_matrices(s)),
    ensures
        dec_matrices(data, pos, s.len() as int, words, rows, cols, label, what) == Ok::<
            (Seq<MatrixView>, int),
            Stop,
        >((s, pos + enc_matrices(s).len())),
{
    let dec = matrix_item(data, words, rows, cols, what);
    let enc = matrix_bytes();
    assert forall|i: int, p: int|
        0 <= i < s.len() && #[trigger] holds_at(data, p, enc(s[i])) implies dec(p) == Ok::<
        (MatrixView, int),
        Stop,
    >((s[i], p + enc(s[i]).len())) by {
        lemma_matrix_reads(data, p, s[i], words, rows, cols, what);
    }
    lemma_list_reads(data, pos, s, enc, dec, label, what);
}

/// Every list of a list of lists of matrices has `inner` matrices of the given
/// shape.
pub open spec fn all_lists_shaped(
    s: Seq<Seq<MatrixView>>,
    inner: int,
    words: int,
    rows: int,
    cols: int,
) -> bool {
    &&& s.len() <= MAX_LEN_PREFIX
    &&& forall|i: int|
        0 <= i < s.len() ==> (#[trigger] s[i]).len() == inner && all_shaped(s[i], words, rows, cols)
}

/// A list of lists of matrices reads back.
proof fn lemma_matrix_lists_read(
    data: Seq<u8>,
    pos: int,
    s: Seq<Seq<MatrixView>>,
    inner: int,
    words: int,
    rows: int,
    cols: int,
    what: Seq<char>,
)
    requires
        all_lists_shaped(s, inner, words, rows, cols),
        holds_at(data, pos, enc_matrix_lists(s)),
    ensures
        dec_matrix_lists(data, pos, s.len() as int, inner, words, rows, cols, what) == Ok::<
            (Seq<Seq<MatrixView>>, int),
            Stop,
        >((s, pos + enc_matrix_lists(s).len())),
{
    let dec = matrices_item(data, inner, words, rows, cols, what);
    let enc = matrices_bytes();
    assert forall|i: int, p: int|
        0 <= i < s.len() && #[trigger] holds_at(data, p, enc(s[i])) implies dec(p) == Ok::<
        (Seq<MatrixView>, int),
        Stop,
    >((s[i], p + enc(s[i]).len())) by {
        lemma_matrices_read(data, p, s[i], words, rows, cols, "inner length "@, what);
    }
    lemma_list_reads(data, pos, s, enc, dec, "outer length "@, what);
}

/// Every index of a list passes the length ceiling.
pub open spec fn indices_pass(s: Seq<usize>) -> bool {
    &&& s.len() <= MAX_LEN_PREFIX
    &&& forall|i: int| 0 <= i < s.len() ==> #[trigger] s[i] <= MAX_LEN_PREFIX
}

/// A list of indices reads back.
proof fn lemma_indices_read(data: Seq<u8>, pos: int, s: Seq<usize>, what: Seq<char>)
    requires
        indices_pass(s),
        holds_at(data, pos, enc_indices(s)),
    ensures
        dec_indices(data, pos, s.len() as int, what) == Ok::<(Seq<usize>, int), Stop>(
            (s, pos + enc_indices(s).len()),
        ),
{
    lemma_auto_spec_u64_to_from_le_bytes();
    let dec = index_item(data, what);
    let enc = index_bytes();
    assert forall|i: int, p: int|
        0 <= i < s.len() && #[trigger] holds_at(data, p, enc(s[i])) implies dec(p) == Ok::<
        (usize, int),
        Stop,
    >((s[i], p + enc(s[i]).len())) by {
        assert(s[i] <= MAX_LEN_PREFIX);
        lemma_len_reads(data, p, s[i] as int, "length "@, what);
        assert(enc(s[i]).len() == 8);
    }
    lemma_list_reads(data, pos, s, enc, dec, "length "@, what);
}

/// Every list of a table has `inner` indices that pass the length ceiling.
pub open spec fn tables_pass(s: Seq<Seq<usize>>, inner: int) -> bool {
    &&& s.len() <= MAX_LEN_PREFIX
    &&& forall|i: int| 0 <= i < s.len() ==> (#[trigger] s[i]).len() == inner && indices_pass(s[i])
}

/// A table of indices reads back.
proof fn lemma_index_lists_read(
    data: Seq<u8>,
    pos: int,
    s: Seq<Seq<usize>>,
    inner: int,
    what: Seq<char>,
)
    requires
        tables_pass(s, inner),
        holds_at(data, pos, enc_index_lists(s)),
    ensures
        dec_index_lists(data, pos, s.len() as int, inner, what) == Ok::<
            (Seq<Seq<usize>>, int),
            Stop,
        >((s, pos + enc_index_lists(s).len())),
{
    let dec = indices_item(data, inner, what);
    let enc = indices_bytes();
    assert forall|i: int, p: int|
        0 <= i < s.len() && #[trigger] holds_at(data, p, enc(s[i])) implies dec(p) == Ok::<
        (Seq<usize>, int),
        Stop,
    >((s[i], p + enc(s[i]).len())) by {
        lemma_indices_read(data, p, s[i], what);
    }
    lemma_list_reads(data, pos, s, enc, dec, "outer length "@, what);
}

/// A precomputation has the given shape.
pub open spec fn precomp_fits(x: PrecompView, words: int, shape: PrecompShape) -> bool {
    &&& has_shape(x.first, words, shape.m_rows as int, shape.m_cols as int)
    &&& x.list.len() == shape.vm_len
    &&& all_shaped(x.list, words, shape.vm_rows as int, shape.vm_cols as int)
    &&& x.tables.len() == shape.vvu_outer
    &&& tables_pass(x.tables, shape.vvu_inner as int)
}

/// Every precomputation of a list has the given shape.
pub open spec fn precomps_fit(s: Seq<PrecompView>, words: int, shape: PrecompShape) -> bool {
    &&& s.len() == shape.outer
    &&& s.len() <= MAX_LEN_PREFIX
    &&& forall|i: int| 0 <= i < s.len() ==> precomp_fits(#[trigger] s[i], words, shape)
}

/// A precomputation reads back.
proof fn lemma_precomp_item_reads(
    data: Seq<u8>,
    pos: int,
    x: PrecompView,
    words: int,
    shape: PrecompShape,
    what: Seq<char>,
)
    requires
        precomp_fits(x, words, shape),
        holds_at(data, pos, enc_precomp_item(x)),
    ensures
        dec_precomp_item(data, pos, words, shape, what) == Ok::<(PrecompView, int), Stop>(
            (x, pos + enc_precomp_item(x).len()),
        ),
{
    let (a, b, c) = (enc_matrix(x.first), enc_matrices(x.list), enc_index_lists(x.tables));
    lemma_holds_split(data, pos, a + b, c);
    lemma_holds_split(data, pos, a, b);
    lemma_matrix_reads(
        data,
        pos,
        x.first,
        words,
        shape.m_rows as int,
        shape.m_cols as int,
        what,
    );
    lemma_matrices_read(
        data,
        pos + a.len(),
        x.list,
        words,
        shape.vm_rows as int,
        shape.vm_cols as int,
        "vm length "@,
        what,
    );
    lemma_index_lists_read(
        data,
        pos + a.len() + b.len(),
        x.tables,
        shape.vvu_inner as int,
        what,
    );
}

/// A list of precomputations reads back.
proof fn lemma_precomp_reads(
    data: Seq<u8>,
    pos: int,
    s: Seq<PrecompView>,
    words: int,
    shape: PrecompShape,
    what: Seq<char>,
)
    requires
        precomps_fit(s, words, shape),
        holds_at(data, pos, enc_precomp(s)),
    ensures
        dec_precomp(data, pos, words, shape, what) == Ok::<(Seq<PrecompView>, int), Stop>(
            (s, pos + enc_precomp(s).len()),
        ),
{
    let dec = precomp_item(data, words, shape, what);
    let enc = precomp_bytes();
    assert forall|i: int, p: int|
        0 <= i < s.len() && #[trigger] holds_at(data, p, enc(s[i])) implies dec(p) == Ok::<
        (PrecompView, int),
        Stop,
    >((s[i], p + enc(s[i]).len())) by {
        lemma_precomp_item_reads(data, p, s[i], words, shape, what);
    }
    lemma_list_reads(data, pos, s, enc, dec, "outer length "@, what);
}

/// The values have the shapes that `params` ask for.
pub open spec fn fits_params(v: OfflineView, params: Params) -> bool {
    let words = 2 * params.poly_len;
    &&& v.hint_0.len() == params.poly_len * (params.instances * params.poly_len)
    &&& v.hint_0.len() <= MAX_LEN_PREFIX
    &&& v.hint_1.len() == 0
    &&& v.pseudorandom_query_1.len() == 0
    &&& v.y_constants_0.len() == params.poly_len_log2
    &&& all_shaped(v.y_constants_0, words, 1, 1)
    &&& v.y_constants_1.len() == params.poly_len_log2
    &&& all_shaped(v.y_constants_1, words, 1, 1)
    &&& v.prepacked_lwe.len() == params.instances
    &&& all_lists_shaped(v.prepacked_lwe, params.poly_len as int, words, 2, 1)
    &&& v.fake_pack_pub_params.len() == params.poly_len_log2
    &&& all_shaped(v.fake_pack_pub_params, words, 2, params.t_exp_left as int)
    &&& precomps_fit(v.precomp, words, precomp_shape(params))
}

/// The last three fields read back.
proof fn lemma_packing_reads(
    data: Seq<u8>,
    p6: int,
    p7: int,
    p8: int,
    v: OfflineView,
    params: Params,
)
    requires
        fits_params(v, params),
        holds_at(data, p6, enc_matrix_lists(v.prepacked_lwe)),
        p7 == p6 + enc_matrix_lists(v.prepacked_lwe).len(),
        holds_at(data, p7, enc_matrices(v.fake_pack_pub_params)),
        p8 == p7 + enc_matrices(v.fake_pack_pub_params).len(),
        holds_at(data, p8, enc_precomp(v.precomp)),
    ensures
        dec_packing(data, p6, params) == Ok::<
            ((Seq<Seq<MatrixView>>, Seq<MatrixView>, Seq<PrecompView>), int),
            Stop,
        >(
            (
                (v.prepacked_lwe, v.fake_pack_pub_params, v.precomp),
                p8 + enc_precomp(v.precomp).len(),
            ),
        ),
{
    reveal(dec_packing);
    let words = 2 * params.poly_len;
    lemma_matrix_lists_read(
        data,
        p6,
        v.prepacked_lwe,
        params.poly_len as int,
        words,
        2,
        1,
        "prepacked_lwe"@,
    );
    lemma_matrices_read(
        data,
        p7,
        v.fake_pack_pub_params,
        words,
        2,
        params.t_exp_left as int,
        "outer length "@,
        "fake_pack_pub_params"@,
    );
    lemma_precomp_reads(data, p8, v.precomp, words, precomp_shape(params), "precomp"@);
}

/// The fields behind the header read back.
proof fn lemma_body_reads(
    data: Seq<u8>,
    p1: int,
    p2: int,
    p3: int,
    p4: int,
    p5: int,
    p6: int,
    end: int,
    v: OfflineView,
    params: Params,
)
    requires
        fits_params(v, params),
        holds_at(data, p1, enc_vec_u64(v.hint_0)),
        p2 == p1 + enc_vec_u64(v.hint_0).len(),
        holds_at(data, p2, enc_vec_u64(v.hint_1)),
        p3 == p2 + enc_vec_u64(v.hint_1).len(),
        holds_at(data, p3, enc_matrices(v.pseudorandom_query_1)),
        p4 == p3 + enc_matrices(v.pseudorandom_query_1).len(),
        holds_at(data, p4, enc_matrices(v.y_constants_0)),
        p5 == p4 + enc_matrices(v.y_constants_0).len(),
        holds_at(data, p5, enc_matrices(v.y_constants_1)),
        p6 == p5 + enc_matrices(v.y_constants_1).len(),
        dec_packing(data, p6, params) == Ok::<
            ((Seq<Seq<MatrixView>>, Seq<MatrixView>, Seq<PrecompView>), int),
            Stop,
        >(((v.prepacked_lwe, v.fake_pack_pub_params, v.precomp), end)),
    ensures
        dec_body(data, p1, params) == Ok::<(OfflineView, int), Stop>((v, end)),
{
    reveal(dec_body);
    let words = 2 * params.poly_len;
    lemma_vec_u64_reads(data, p1, v.hint_0, "hint_0"@);
    lemma_vec_u64_reads(data, p2, v.hint_1, "hint_1 (SimplePIR expects empty)"@);
    lemma_matrices_read(
        data,
        p3,
        v.pseudorandom_query_1,
        words,
        0,
        0,
        "outer length "@,
        "pseudorandom_query_1 (SimplePIR expects empty)"@,
    );
    lemma_matrices_read(
        data,
        p4,
        v.y_constants_0,
        words,
        1,
        1,
        "outer length "@,
        "y_constants.0"@,
    );
    lemma_matrices_read(
        data,
        p5,
        v.y_constants_1,
        words,
        1,
        1,
        "outer length "@,
        "y_constants.1"@,
    );
}

/// Nine parts that stand in `data` as a whole stand there one by one.
proof fn lemma_holds_nine(
    data: Seq<u8>,
    pos: int,
    e0: Seq<u8>,
    e1: Seq<u8>,
    e2: Seq<u8>,
    e3: Seq<u8>,
    e4: Seq<u8>,
    e5: Seq<u8>,
    e6: Seq<u8>,
    e7: Seq<u8>,
    e8: Seq<u8>,
)
    requires
        holds_at(data, pos, e0 + e1 + e2 + e3 + e4 + e5 + e6 + e7 + e8),
    ensures
        holds_at(data, pos, e0),
        holds_at(data, pos + e0.len(), e1),
        holds_at(data, pos + e0.len() + e1.len(), e2),
        holds_at(data, pos + e0.len() + e1.len() + e2.len(), e3),
        holds_at(data, pos + e0.len() + e1.len() + e2.len() + e3.len(), e4),
        holds_at(data, pos + e0.len() + e1.len() + e2.len() + e3.len() + e4.len(), e5),
        holds_at(data, pos + e0.len() + e1.len() + e2.len() + e3.len() + e4.len() + e5.len(), e6),
        holds_at(
            data,
            pos + e0.len() + e1.len() + e2.len() + e3.len() + e4.len() + e5.len() + e6.len(),
            e7,
        ),
        holds_at(
            data,
            pos + e0.len() + e1.len() + e2.len() + e3.len() + e4.len() + e5.len() + e6.len()
                + e7.len(),
            e8,
        ),
        (e0 + e1 + e2 + e3 + e4 + e5 + e6 + e7 + e8).len() == e0.len() + e1.len() + e2.len()
            + e3.len() + e4.len() + e5.len() + e6.len() + e7.len() + e8.len(),
{
    let h2 = e0 + e1;
    let h3 = h2 + e2;
    let h4 = h3 + e3;
    let h5 = h4 + e4;
    let h6 = h5 + e5;
    let h7 = h6 + e6;
    let h8 = h7 + e7;
    lemma_holds_split(data, pos, h8, e8);
    lemma_holds_split(data, pos, h7, e7);
    lemma_holds_split(data, pos, h6, e6);
    lemma_holds_split(data, pos, h5, e5);
    lemma_holds_split(data, pos, h4, e4);
    lemma_holds_split(data, pos, h3, e3);
    lemma_holds_split(data, pos, h2, e2);
    lemma_holds_split(data, pos, e0, e1);
}

/// The header reads back.
proof fn lemma_header_reads(data: Seq<u8>, pos: int)
    requires
        holds_at(data, pos, seq![PAYLOAD_FORMAT_V1, 0u8]),
    ensures
        dec_header(data, pos) == Ok::<((), int), Stop>(((), pos + 2)),
{
    let e0 = seq![PAYLOAD_FORMAT_V1, 0u8];
    assert(data[pos] == PAYLOAD_FORMAT_V1 && data[pos + 1] == 0) by {
        assert(data.subrange(pos, pos + 2)[0] == e0[0]);
        assert(data.subrange(pos, pos + 2)[1] == e0[1]);
    }
}

/// Reading gives back what was written: where the bytes of values that fit
/// `params` stand at `pos`, with anything before and behind them, reading at
/// `pos` gives exactly those values and stops right behind their bytes.
pub proof fn load_gives_back_dump(data: Seq<u8>, pos: int, v: OfflineView, params: Params)
    requires
        params.ring_wf(),
        fits_params(v, params),
        holds_at(data, pos, enc_offline(v)),
    ensures
        dec_offline(data, pos, params) == Ok::<(OfflineView, int), Stop>(
            (v, pos + enc_offline(v).len()),
        ),
{
    let e0 = seq![PAYLOAD_FORMAT_V1, 0u8];
    let e1 = enc_vec_u64(v.hint_0);
    let e2 = enc_vec_u64(v.hint_1);
    let e3 = enc_matrices(v.pseudorandom_query_1);
    let e4 = enc_matrices(v.y_constants_0);
    let e5 = enc_matrices(v.y_constants_1);
    let e6 = enc_matrix_lists(v.prepacked_lwe);
    let e7 = enc_matrices(v.fake_pack_pub_params);
    let e8 = enc_precomp(v.precomp);
    lemma_holds_nine(data, pos, e0, e1, e2, e3, e4, e5, e6, e7, e8);
    lemma_header_reads(data, pos);
    let p1 = pos + e0.len();
    let p2 = p1 + e1.len();
    let p3 = p2 + e2.len();
    let p4 = p3 + e3.len();
    let p5 = p4 + e4.len();
    let p6 = p5 + e5.len();
    let p7 = p6 + e6.len();
    let p8 = p7 + e7.len();
    lemma_packing_reads(data, p6, p7, p8, v, params);
    lemma_body_reads(data, p1, p2, p3, p4, p5, p6, p8 + e8.len(), v, params);
    lemma_hint_len_fits(params, v.hint_0.len() as int);
}

/// A hint within the ceiling has sides that fit a word.
proof fn lemma_hint_len_fits(params: Params, len: int)
    requires
        params.ring_wf(),
        len == params.poly_len * (params.instances * params.poly_len),
        len <= MAX_LEN_PREFIX,
    ensures
        params.instances * params.poly_len <= usize::MAX,
        params.poly_len * (params.instances * params.poly_len) <= usize::MAX,
{
    let x = params.instances * params.poly_len;
    assert(x <= params.poly_len * x) by (nonlinear_arith)
        requires
            params.poly_len >= 1,
            x >= 0,
    ;
}

// Writing what was read.

/// A length that was read stands there.
proof fn lemma_len_stands(data: Seq<u8>, pos: int, n: int, label: Seq<char>, what: Seq<char>)
    requires
        0 <= pos,
        dec_len_exact(data, pos, n, label, what) is Ok,
    ensures
        0 <= n <= MAX_LEN_PREFIX,
        holds_at(data, pos, spec_u64_to_le_bytes(n as u64)),
        spec_u64_to_le_bytes(n as u64).len() == 8,
        dec_len_exact(data, pos, n, label, what) == Ok::<((), int), Stop>(((), pos + 8)),
{
    lemma_auto_spec_u64_to_from_le_bytes();
    let b = data.subrange(pos, pos + 8);
    assert(spec_u64_to_le_bytes(spec_u64_from_le_bytes(b)) == b);
}

/// Words that were read stand there.
proof fn lemma_words_stand(data: Seq<u8>, pos: int, n: int, s: Seq<u64>, e: int, what: Seq<char>)
    requires
        0 <= pos,
        0 <= n,
        dec_words(data, pos, n, what) == Ok::<(Seq<u64>, int), Stop>((s, e)),
    ensures
        s.len() == n,
        holds_at(data, pos, enc_words(s)),
        e == pos + enc_words(s).len(),
{
    lemma_auto_spec_u64_to_from_le_bytes();
    let b = enc_words(s);
    assert forall|k: int| 0 <= k < b.len() implies data.subrange(pos, pos + b.len())[k] == b[k] by {
        let i = k / 8;
        let w = data.subrange(pos + 8 * i, pos + 8 * i + 8);
        assert(s[i] == word_at(data, pos + 8 * i));
        assert(spec_u64_to_le_bytes(spec_u64_from_le_bytes(w)) == w);
        assert(w[k % 8] == data[pos + k]);
    }
    assert(data.subrange(pos, pos + b.len()) =~= b);
}

/// A list of words that was read stands there.
proof fn lemma_vec_u64_stands(
    data: Seq<u8>,
    pos: int,
    n: int,
    s: Seq<u64>,
    e: int,
    what: Seq<char>,
)
    requires
        0 <= pos,
        dec_vec_u64(data, pos, n, what) == Ok::<(Seq<u64>, int), Stop>((s, e)),
    ensures
        s.len() == n <= MAX_LEN_PREFIX,
        holds_at(data, pos, enc_vec_u64(s)),
        e == pos + enc_vec_u64(s).len(),
{
    lemma_len_stands(data, pos, n, "length "@, what);
    lemma_words_stand(data, pos + 8, n, s, e, what);
    lemma_holds_join(data, pos, spec_u64_to_le_bytes(n as u64), enc_words(s));
}

/// A matrix that was read stands there.
proof fn lemma_matrix_stands(
    data: Seq<u8>,
    pos: int,
    words: int,
    rows: int,
    cols: int,
    m: MatrixView,
    e: int,
    what: Seq<char>,
)
    requires
        0 <= pos,
        0 <= words,
        0 <= rows,
        0 <= cols,
        dec_matrix(data, pos, words, rows, cols, what) == Ok::<(MatrixView, int), Stop>(
            (m, e),
        ),
    ensures
        has_shape(m, words, rows, cols),
        holds_at(data, pos, enc_matrix(m)),
        e == pos + enc_matrix(m).len(),
{
    lemma_auto_spec_u32_to_from_le_bytes();
    let rb = data.subrange(pos, pos + 4);
    let cb = data.subrange(pos + 4, pos + 8);
    assert(spec_u32_to_le_bytes(spec_u32_from_le_bytes(rb)) == rb);
    assert(spec_u32_to_le_bytes(spec_u32_from_le_bytes(cb)) == cb);
    assert(dec_dim(data, pos, what) == Ok::<(int, int), Stop>((rows, pos + 4)));
    assert(dec_dim(data, pos + 4, what) == Ok::<(int, int), Stop>((cols, pos + 8)));
    assert(0 <= rows * cols * words) by (nonlinear_arith)
        requires
            0 <= rows,
            0 <= cols,
            0 <= words,
    ;
    lemma_words_stand(data, pos + 8, rows * cols * words, m.data, e, what);
    let r = spec_u32_to_le_bytes((m.rows % 0x1_0000_0000) as u32);
    let c = spec_u32_to_le_bytes((m.cols % 0x1_0000_0000) as u32);
    assert(r == rb && c == cb);
    lemma_holds_join(data, pos, r, c);
    lemma_holds_join(data, pos, r + c, enc_words(m.data));
}

/// Whatever `dec` reads stands where it was read, and satisfies `ok`.
pub open spec fn items_stand<T>(
    data: Seq<u8>,
    enc: spec_fn(T) -> Seq<u8>,
    dec: spec_fn(int) -> Outcome<T>,
    ok: spec_fn(T) -> bool,
) -> bool {
    forall|p: int|
        0 <= p ==> (#[trigger] dec(p) matches Ok((x, e)) ==> holds_at(data, p, enc(x)) && e == p
            + enc(x).len() && ok(x))
}

/// Values that were read one after the other stand there.
proof fn lemma_many_stand<T>(
    data: Seq<u8>,
    pos: int,
    n: int,
    s: Seq<T>,
    e: int,
    enc: spec_fn(T) -> Seq<u8>,
    dec: spec_fn(int) -> Outcome<T>,
    ok: spec_fn(T) -> bool,
)
    requires
        0 <= pos <= data.len(),
        0 <= n,
        items_stand(data, enc, dec, ok),
        dec_many(pos, n, dec) == Ok::<(Seq<T>, int), Stop>((s, e)),
    ensures
        s.len() == n,
        holds_at(data, pos, enc_many(s, enc)),
        e == pos + enc_many(s, enc).len(),
        forall|i: int| 0 <= i < s.len() ==> ok(#[trigger] s[i]),
    decreases n,
{
    if n <= 0 {
        assert(data.subrange(pos, pos) =~= Seq::empty());
    } else {
        let (t, p) = dec_many(pos, n - 1, dec)->Ok_0;
        lemma_many_stand(data, pos, n - 1, t, p, enc, dec, ok);
        let (x, p2) = dec(p)->Ok_0;
        assert(s == t.push(x));
        assert(s.drop_last() =~= t);
        lemma_holds_join(data, pos, enc_many(t, enc), enc(x));
    }
}

/// A list that was read stands there.
proof fn lemma_list_stands<T>(
    data: Seq<u8>,
    pos: int,
    n: int,
    s: Seq<T>,
    e: int,
    enc: spec_fn(T) -> Seq<u8>,
    dec: spec_fn(int) -> Outcome<T>,
    ok: spec_fn(T) -> bool,
    label: Seq<char>,
    what: Seq<char>,
)
    requires
        0 <= pos,
        items_stand(data, enc, dec, ok),
        dec_list(data, pos, n, dec, label, what) == Ok::<(Seq<T>, int), Stop>((s, e)),
    ensures
        s.len() == n <= MAX_LEN_PREFIX,
        holds_at(data, pos, enc_list(s, enc)),
        e == pos + enc_list(s, enc).len(),
        forall|i: int| 0 <= i < s.len() ==> ok(#[trigger] s[i]),
{
    lemma_len_stands(data, pos, n, label, what);
    lemma_many_stand(data, pos + 8, n, s, e, enc, dec, ok);
    lemma_holds_join(data, pos, spec_u64_to_le_bytes(n as u64), enc_many(s, enc));
}

/// A list of matrices that was read stands there.
proof fn lemma_matrices_stand(
    data: Seq<u8>,
    pos: int,
    n: int,
    words: int,
    rows: int,
    cols: int,
    s: Seq<MatrixView>,
    e: int,
    label: Seq<char>,
    what: Seq<char>,
)
    requires
        0 <= pos,
        0 <= words,
        0 <= rows,
        0 <= cols,
        dec_matrices(data, pos, n, words, rows, cols, label, what) == Ok::<
            (Seq<MatrixView>, int),
            Stop,
        >((s, e)),
    ensures
        s.len() == n,
        all_shaped(s, words, rows, cols),
        holds_at(data, pos, enc_matrices(s)),
        e == pos + enc_matrices(s).len(),
{
    let dec = matrix_item(data, words, rows, cols, what);
    let enc = matrix_bytes();
    let ok = |m: MatrixView| has_shape(m, words, rows, cols);
    assert forall|p: int| 0 <= p implies (#[trigger] dec(p) matches Ok((x, e)) ==> holds_at(
        data,
        p,
        enc(x),
    ) && e == p + enc(x).len() && ok(x)) by {
        if dec(p) is Ok {
            let (x, e) = dec(p)->Ok_0;
            lemma_matrix_stands(data, p, words, rows, cols, x, e, what);
        }
    }
    lemma_list_stands(data, pos, n, s, e, enc, dec, ok, label, what);
    assert forall|i: int| 0 <= i < s.len() implies has_shape(
        #[trigger] s[i],
        words,
        rows,
        cols,
    ) by {
        assert(ok(s[i]));
    }
}

/// A list of lists of matrices that was read stands there.
proof fn lemma_matrix_lists_stand(
    data: Seq<u8>,
    pos: int,
    outer: int,
    inner: int,
    words: int,
    rows: int,
    cols: int,
    s: Seq<Seq<MatrixView>>,
    e: int,
    what: Seq<char>,
)
    requires
        0 <= pos,
        0 <= words,
        0 <= rows,
        0 <= cols,
        dec_matrix_lists(data, pos, outer, inner, words, rows, cols, what) == Ok::<
            (Seq<Seq<MatrixView>>, int),
            Stop,
        >((s, e)),
    ensures
        s.len() == outer,
        all_lists_shaped(s, inner, words, rows, cols),
        holds_at(data, pos, enc_matrix_lists(s)),
        e == pos + enc_matrix_lists(s).len(),
{
    let dec = matrices_item(data, inner, words, rows, cols, what);
    let enc = matrices_bytes();
    let ok = |m: Seq<MatrixView>| m.len() == inner && all_shaped(m, words, rows, cols);
    assert forall|p: int| 0 <= p implies (#[trigger] dec(p) matches Ok((x, e)) ==> holds_at(
        data,
        p,
        enc(x),
    ) && e == p + enc(x).len() && ok(x)) by {
        if dec(p) is Ok {
            let (x, e) = dec(p)->Ok_0;
            lemma_matrices_stand(
                data,
                p,
                inner,
                words,
                rows,
                cols,
                x,
                e,
                "inner length "@,
                what,
            );
        }
    }
    lemma_list_stands(data, pos, outer, s, e, enc, dec, ok, "outer length "@, what);
    assert forall|i: int| 0 <= i < s.len() implies (#[trigger] s[i]).len() == inner && all_shaped(
        s[i],
        words,
        rows,
        cols,
    ) by {
        assert(ok(s[i]));
    }
}

/// A list of indices that was read stands there.
proof fn lemma_indices_stand(
    data: Seq<u8>,
    pos: int,
    n: int,
    s: Seq<usize>,
    e: int,
    what: Seq<char>,
)
    requires
        0 <= pos,
        dec_indices(data, pos, n, what) == Ok::<(Seq<usize>, int), Stop>((s, e)),
    ensures
        s.len() == n,
        indices_pass(s),
        holds_at(data, pos, enc_indices(s)),
        e == pos + enc_indices(s).len(),
{
    lemma_auto_spec_u64_to_from_le_bytes();
    let dec = index_item(data, what);
    let enc = index_bytes();
    let ok = |x: usize| x <= MAX_LEN_PREFIX;
    assert forall|p: int| 0 <= p implies (#[trigger] dec(p) matches Ok((x, e)) ==> holds_at(
        data,
        p,
        enc(x),
    ) && e == p + enc(x).len() && ok(x)) by {
        if dec(p) is Ok {
            let (x, e) = dec(p)->Ok_0;
            assert(dec_len_exact(data, p, x as int, "length "@, what) is Ok);
            lemma_len_stands(data, p, x as int, "length "@, what);
        }
    }
    lemma_list_stands(data, pos, n, s, e, enc, dec, ok, "length "@, what);
    assert forall|i: int| 0 <= i < s.len() implies #[trigger] s[i] <= MAX_LEN_PREFIX by {
        assert(ok(s[i]));
    }
}

/// A table of indices that was read stands there.
proof fn lemma_index_lists_stand(
    data: Seq<u8>,
    pos: int,
    outer: int,
    inner: int,
    s: Seq<Seq<usize>>,
    e: int,
    what: Seq<char>,
)
    requires
        0 <= pos,
        dec_index_lists(data, pos, outer, inner, what) == Ok::<(Seq<Seq<usize>>, int), Stop>(
            (s, e),
        ),
    ensures
        s.len() == outer,
        tables_pass(s, inner),
        holds_at(data, pos, enc_index_lists(s)),
        e == pos + enc_index_lists(s).len(),
{
    let dec = indices_item(data, inner, what);
    let enc = indices_bytes();
    let ok = |x: Seq<usize>| x.len() == inner && indices_pass(x);
    assert forall|p: int| 0 <= p implies (#[trigger] dec(p) matches Ok((x, e)) ==> holds_at(
        data,
        p,
        enc(x),
    ) && e == p + enc(x).len() && ok(x)) by {
        if dec(p) is Ok {
            let (x, e) = dec(p)->Ok_0;
            lemma_indices_stand(data, p, inner, x, e, what);
        }
    }
    lemma_list_stands(data, pos, outer, s, e, enc, dec, ok, "outer length "@, what);
    assert forall|i: int| 0 <= i < s.len() implies (#[trigger] s[i]).len() == inner && indices_pass(
        s[i],
    ) by {
        assert(ok(s[i]));
    }
}

/// A precomputation that was read stands there.
proof fn lemma_precomp_item_stands(
    data: Seq<u8>,
    pos: int,
    words: int,
    shape: PrecompShape,
    x: PrecompView,
    e: int,
    what: Seq<char>,
)
    requires
        0 <= pos,
        0 <= words,
        dec_precomp_item(data, pos, words, shape, what) == Ok::<(PrecompView, int), Stop>(
            (x, e),
        ),
    ensures
        precomp_fits(x, words, shape),
        holds_at(data, pos, enc_precomp_item(x)),
        e == pos + enc_precomp_item(x).len(),
{
    let (mr, mc) = (shape.m_rows as int, shape.m_cols as int);
    let (vr, vc) = (shape.vm_rows as int, shape.vm_cols as int);
    let (_, p1) = dec_matrix(data, pos, words, mr, mc, what)->Ok_0;
    lemma_matrix_stands(data, pos, words, mr, mc, x.first, p1, what);
    let (_, p2) = dec_matrices(
        data,
        p1,
        shape.vm_len as int,
        words,
        vr,
        vc,
        "vm length "@,
        what,
    )->Ok_0;
    lemma_matrices_stand(
        data,
        p1,
        shape.vm_len as int,
        words,
        vr,
        vc,
        x.list,
        p2,
        "vm length "@,
        what,
    );
    lemma_index_lists_stand(
        data,
        p2,
        shape.vvu_outer as int,
        shape.vvu_inner as int,
        x.tables,
        e,
        what,
    );
    let (a, b, c) = (enc_matrix(x.first), enc_matrices(x.list), enc_index_lists(x.tables));
    lemma_holds_join(data, pos, a, b);
    lemma_holds_join(data, pos, a + b, c);
}

/// A list of precomputations that was read stands there.
proof fn lemma_precomp_stands(
    data: Seq<u8>,
    pos: int,
    words: int,
    shape: PrecompShape,
    s: Seq<PrecompView>,
    e: int,
    what: Seq<char>,
)
    requires
        0 <= pos,
        0 <= words,
        dec_precomp(data, pos, words, shape, what) == Ok::<(Seq<PrecompView>, int), Stop>(
            (s, e),
        ),
    ensures
        precomps_fit(s, words, shape),
        holds_at(data, pos, enc_precomp(s)),
        e == pos + enc_precomp(s).len(),
{
    let dec = precomp_item(data, words, shape, what);
    let enc = precomp_bytes();
    let ok = |x: PrecompView| precomp_fits(x, words, shape);
    assert forall|p: int| 0 <= p implies (#[trigger] dec(p) matches Ok((x, e)) ==> holds_at(
        data,
        p,
        enc(x),
    ) && e == p + enc(x).len() && ok(x)) by {
        if dec(p) is Ok {
            let (x, e) = dec(p)->Ok_0;
            lemma_precomp_item_stands(data, p, words, shape, x, e, what);
        }
    }
    lemma_list_stands(
        data,
        pos,
        shape.outer as int,
        s,
        e,
        enc,
        dec,
        ok,
        "outer length "@,
        what,
    );
    assert forall|i: int| 0 <= i < s.len() implies precomp_fits(#[trigger] s[i], words, shape) by {
        assert(ok(s[i]));
    }
}

/// A list of precomputations that was written reads back if and only if it has
/// the shape that the reader asks for.
pub proof fn precomp_reads_back_by_shape(
    data: Seq<u8>,
    pos: int,
    s: Seq<PrecompView>,
    words: int,
    shape: PrecompShape,
    what: Seq<char>,
)
    requires
        0 <= words,
        holds_at(data, pos, enc_precomp(s)),
    ensures
        dec_precomp(data, pos, words, shape, what) == Ok::<(Seq<PrecompView>, int), Stop>(
            (s, pos + enc_precomp(s).len()),
        ) <==> precomps_fit(s, words, shape),
{
    let e = pos + enc_precomp(s).len();
    if precomps_fit(s, words, shape) {
        lemma_precomp_reads(data, pos, s, words, shape, what);
    }
    if dec_precomp(data, pos, words, shape, what) == Ok::<(Seq<PrecompView>, int), Stop>((s, e)) {
        lemma_precomp_stands(data, pos, words, shape, s, e, what);
    }
}

/// The last three fields that were read stand there.
proof fn lemma_packing_stands(
    data: Seq<u8>,
    pos: int,
    params: Params,
    a: Seq<Seq<MatrixView>>,
    b: Seq<MatrixView>,
    c: Seq<PrecompView>,
    e: int,
)
    requires
        0 <= pos,
        dec_packing(data, pos, params) == Ok::<
            ((Seq<Seq<MatrixView>>, Seq<MatrixView>, Seq<PrecompView>), int),
            Stop,
        >(((a, b, c), e)),
    ensures
        a.len() == params.instances,
        all_lists_shaped(a, params.poly_len as int, 2 * params.poly_len, 2, 1),
        b.len() == params.poly_len_log2,
        all_shaped(b, 2 * params.poly_len, 2, params.t_exp_left as int),
        precomps_fit(c, 2 * params.poly_len, precomp_shape(params)),
        holds_at(data, pos, enc_matrix_lists(a) + enc_matrices(b) + enc_precomp(c)),
        e == pos + enc_matrix_lists(a).len() + enc_matrices(b).len() + enc_precomp(c).len(),
{
    reveal(dec_packing);
    let words = 2 * params.poly_len;
    let (n, m) = (params.instances as int, params.poly_len as int);
    let (_, p6) = dec_matrix_lists(data, pos, n, m, words, 2, 1, "prepacked_lwe"@)->Ok_0;
    lemma_matrix_lists_stand(data, pos, n, m, words, 2, 1, a, p6, "prepacked_lwe"@);
    let (l, t) = (params.poly_len_log2 as int, params.t_exp_left as int);
    let (_, p7) = dec_matrices(
        data,
        p6,
        l,
        words,
        2,
        t,
        "outer length "@,
        "fake_pack_pub_params"@,
    )->Ok_0;
    lemma_matrices_stand(
        data,
        p6,
        l,
        words,
        2,
        t,
        b,
        p7,
        "outer length "@,
        "fake_pack_pub_params"@,
    );
    lemma_precomp_stands(data, p7, words, precomp_shape(params), c, e, "precomp"@);
    lemma_holds_join(data, pos, enc_matrix_lists(a), enc_matrices(b));
    lemma_holds_join(data, pos, enc_matrix_lists(a) + enc_matrices(b), enc_precomp(c));
}

/// The fields behind the header that were read stand there.
proof fn lemma_body_stands(data: Seq<u8>, pos: int, params: Params, v: OfflineView, e: int)
    requires
        0 <= pos,
        dec_body(data, pos, params) == Ok::<(OfflineView, int), Stop>((v, e)),
    ensures
        fits_params(v, params),
        holds_at(data, pos, body_bytes(v)),
        e == pos + body_bytes(v).len(),
{
    reveal(dec_body);
    let words = 2 * params.poly_len;
    let hint_len = params.poly_len * (params.instances * params.poly_len);
    let l = params.poly_len_log2 as int;
    let outer = "outer length "@;
    let (_, p1) = dec_vec_u64(data, pos, hint_len, "hint_0"@)->Ok_0;
    lemma_vec_u64_stands(data, pos, hint_len, v.hint_0, p1, "hint_0"@);
    let w1 = "hint_1 (SimplePIR expects empty)"@;
    let (_, p2) = dec_vec_u64(data, p1, 0, w1)->Ok_0;
    lemma_vec_u64_stands(data, p1, 0, v.hint_1, p2, w1);
    let w2 = "pseudorandom_query_1 (SimplePIR expects empty)"@;
    let (_, p3) = dec_matrices(data, p2, 0, words, 0, 0, outer, w2)->Ok_0;
    lemma_matrices_stand(data, p2, 0, words, 0, 0, v.pseudorandom_query_1, p3, outer, w2);
    let w3 = "y_constants.0"@;
    let (_, p4) = dec_matrices(data, p3, l, words, 1, 1, outer, w3)->Ok_0;
    lemma_matrices_stand(data, p3, l, words, 1, 1, v.y_constants_0, p4, outer, w3);
    let w4 = "y_constants.1"@;
    let (_, p5) = dec_matrices(data, p4, l, words, 1, 1, outer, w4)->Ok_0;
    lemma_matrices_stand(data, p4, l, words, 1, 1, v.y_constants_1, p5, outer, w4);
    lemma_packing_stands(
        data,
        p5,
        params,
        v.prepacked_lwe,
        v.fake_pack_pub_params,
        v.precomp,
        e,
    );
    let b1 = enc_vec_u64(v.hint_0);
    let b2 = enc_vec_u64(v.hint_1);
    let b3 = enc_matrices(v.pseudorandom_query_1);
    let b4 = enc_matrices(v.y_constants_0);
    let b5 = enc_matrices(v.y_constants_1);
    lemma_holds_join(data, pos, b1, b2);
    lemma_holds_join(data, pos, b1 + b2, b3);
    lemma_holds_join(data, pos, b1 + b2 + b3, b4);
    lemma_holds_join(data, pos, b1 + b2 + b3 + b4, b5);
    lemma_holds_join(data, pos, b1 + b2 + b3 + b4 + b5, packing_bytes(v));
}

/// The bytes of the last three fields.
spec fn packing_bytes(v: OfflineView) -> Seq<u8> {
    enc_matrix_lists(v.prepacked_lwe) + enc_matrices(v.fake_pack_pub_params) + enc_precomp(
        v.precomp,
    )
}

/// The bytes of the fields behind the header.
spec fn body_bytes(v: OfflineView) -> Seq<u8> {
    enc_vec_u64(v.hint_0) + enc_vec_u64(v.hint_1) + enc_matrices(v.pseudorandom_query_1)
        + enc_matrices(v.y_constants_0) + enc_matrices(v.y_constants_1) + packing_bytes(v)
}

/// The bytes of values are the header and the bytes of the fields.
proof fn lemma_offline_bytes(v: OfflineView)
    ensures
        enc_offline(v) == seq![PAYLOAD_FORMAT_V1, 0u8] + body_bytes(v),
{
    lemma_regroup(
        seq![PAYLOAD_FORMAT_V1, 0u8],
        enc_vec_u64(v.hint_0),
        enc_vec_u64(v.hint_1),
        enc_matrices(v.pseudorandom_query_1),
        enc_matrices(v.y_constants_0),
        enc_matrices(v.y_constants_1),
        enc_matrix_lists(v.prepacked_lwe),
        enc_matrices(v.fake_pack_pub_params),
        enc_precomp(v.precomp),
    );
}

/// Concatenation does not depend on grouping.
proof fn lemma_regroup(
    e0: Seq<u8>,
    e1: Seq<u8>,
    e2: Seq<u8>,
    e3: Seq<u8>,
    e4: Seq<u8>,
    e5: Seq<u8>,
    e6: Seq<u8>,
    e7: Seq<u8>,
    e8: Seq<u8>,
)
    ensures
        e0 + e1 + e2 + e3 + e4 + e5 + e6 + e7 + e8 == e0 + (e1 + e2 + e3 + e4 + e5 + (e6 + e7
            + e8)),
{
    assert(e0 + e1 + e2 + e3 + e4 + e5 + e6 + e7 + e8 =~= e0 + (e1 + e2 + e3 + e4 + e5 + (e6 + e7
        + e8)));
}

/// Writing gives back what was read: bytes that are accepted are exactly the
/// bytes of the values that they are read as, and these values have the shapes
/// that `params` ask for.
pub proof fn dump_gives_back_load(
    data: Seq<u8>,
    pos: int,
    params: Params,
    v: OfflineView,
    end: int,
)
    requires
        0 <= pos,
        dec_offline(data, pos, params) == Ok::<(OfflineView, int), Stop>((v, end)),
    ensures
        fits_params(v, params),
        holds_at(data, pos, enc_offline(v)),
        end == pos + enc_offline(v).len(),
{
    let e0 = seq![PAYLOAD_FORMAT_V1, 0u8];
    assert(dec_header(data, pos) == Ok::<((), int), Stop>(((), pos + 2)));
    assert(data.subrange(pos, pos + 2) =~= e0);
    lemma_body_stands(data, pos + 2, params, v, end);
    lemma_offline_bytes(v);
    lemma_holds_join(data, pos, e0, body_bytes(v));
}

// Reading what was cut off.

/// `part` is what `full` becomes where the input is cut to `k` bytes: a value
/// that ends by then is read all the same, and one that does not is reported
/// as truncated.
pub open spec fn cut_of<T>(full: Outcome<T>, part: Outcome<T>, k: int) -> bool {
    match full {
        Ok((x, e)) => if e <= k {
            part == full
        } else {
            is_truncated(part)
        },
        Err(_) => true,
    }
}

/// The input ended too early.
pub open spec fn is_truncated<T>(o: Outcome<T>) -> bool {
    match o {
        Ok(_) => false,
        Err(e) => e.0 is Truncated,
    }
}

/// The first `k` bytes.
pub open spec fn head(data: Seq<u8>, k: int) -> Seq<u8> {
    data.subrange(0, k)
}

/// Cutting a length.
proof fn lemma_cut_len(data: Seq<u8>, k: int, pos: int, n: int, label: Seq<char>, what: Seq<char>)
    requires
        0 <= pos <= k <= data.len(),
    ensures
        cut_of(
            dec_len_exact(data, pos, n, label, what),
            dec_len_exact(head(data, k), pos, n, label, what),
            k,
        ),
        cut_of(dec_len(data, pos, what), dec_len(head(data, k), pos, what), k),
        cut_of(dec_index(data, pos, what), dec_index(head(data, k), pos, what), k),
        dec_len_exact(data, pos, n, label, what) matches Ok((_, e)) ==> e == pos + 8,
{
    if pos + 8 <= k {
        assert(head(data, k).subrange(pos, pos + 8) =~= data.subrange(pos, pos + 8));
    }
}

/// Cutting words.
proof fn lemma_cut_words(data: Seq<u8>, k: int, pos: int, n: int, what: Seq<char>)
    requires
        0 <= pos <= k <= data.len(),
        0 <= n,
    ensures
        cut_of(dec_words(data, pos, n, what), dec_words(head(data, k), pos, n, what), k),
{
    if pos + 8 * n <= k {
        assert forall|i: int| 0 <= i < n implies #[trigger] word_at(head(data, k), pos + 8 * i)
            == word_at(data, pos + 8 * i) by {
            assert(head(data, k).subrange(pos + 8 * i, pos + 8 * i + 8) =~= data.subrange(
                pos + 8 * i,
                pos + 8 * i + 8,
            ));
        }
        assert(Seq::new(n as nat, |i: int| word_at(head(data, k), pos + 8 * i)) =~= Seq::new(
            n as nat,
            |i: int| word_at(data, pos + 8 * i),
        ));
    }
}

/// Cutting a list of words.
proof fn lemma_cut_vec_u64(data: Seq<u8>, k: int, pos: int, n: int, what: Seq<char>)
    requires
        0 <= pos <= k <= data.len(),
        0 <= n,
    ensures
        cut_of(dec_vec_u64(data, pos, n, what), dec_vec_u64(head(data, k), pos, n, what), k),
{
    lemma_cut_len(data, k, pos, n, "length "@, what);
    if pos + 8 <= k {
        lemma_cut_words(data, k, pos + 8, n, what);
    }
}

/// Cutting a matrix.
proof fn lemma_cut_matrix(
    data: Seq<u8>,
    k: int,
    pos: int,
    words: int,
    rows: int,
    cols: int,
    what: Seq<char>,
)
    requires
        0 <= pos <= k <= data.len(),
        0 <= rows * cols * words,
    ensures
        cut_of(
            dec_matrix(data, pos, words, rows, cols, what),
            dec_matrix(head(data, k), pos, words, rows, cols, what),
            k,
        ),
{
    if pos + 4 <= k {
        assert(head(data, k).subrange(pos, pos + 4) =~= data.subrange(pos, pos + 4));
        if pos + 8 <= k {
            assert(head(data, k).subrange(pos + 4, pos + 8) =~= data.subrange(pos + 4, pos + 8));
            lemma_cut_words(data, k, pos + 8, rows * cols * words, what);
        }
    }
}

/// Whatever `full` reads at a position, `part` reads from the cut input, and
/// reading never goes backwards.
pub open spec fn items_cut<T>(
    full: spec_fn(int) -> Outcome<T>,
    part: spec_fn(int) -> Outcome<T>,
    k: int,
) -> bool {
    forall|p: int|
        0 <= p ==> (#[trigger] full(p) matches Ok((x, e)) ==> p <= e) && (p <= k ==> cut_of(
            full(p),
            part(p),
            k,
        ))
}

/// Cutting values that stand one after the other.
proof fn lemma_cut_many<T>(
    k: int,
    pos: int,
    n: int,
    full: spec_fn(int) -> Outcome<T>,
    part: spec_fn(int) -> Outcome<T>,
)
    requires
        0 <= pos <= k,
        items_cut(full, part, k),
    ensures
        cut_of(dec_many(pos, n, full), dec_many(pos, n, part), k),
        dec_many(pos, n, full) matches Ok((s, e)) ==> pos <= e,
    decreases n,
{
    if n > 0 {
        lemma_cut_many(k, pos, n - 1, full, part);
        if dec_many(pos, n - 1, full) is Ok {
            let (s, p) = dec_many(pos, n - 1, full)->Ok_0;
            if full(p) is Ok {
                let (x, e) = full(p)->Ok_0;
                assert(p <= e);
            }
        }
    }
}

/// Cutting a list.
proof fn lemma_cut_list<T>(
    data: Seq<u8>,
    k: int,
    pos: int,
    n: int,
    full: spec_fn(int) -> Outcome<T>,
    part: spec_fn(int) -> Outcome<T>,
    label: Seq<char>,
    what: Seq<char>,
)
    requires
        0 <= pos <= k <= data.len(),
        items_cut(full, part, k),
    ensures
        cut_of(
            dec_list(data, pos, n, full, label, what),
            dec_list(head(data, k), pos, n, part, label, what),
            k,
        ),
{
    lemma_cut_len(data, k, pos, n, label, what);
    if pos + 8 <= k {
        lemma_cut_many(k, pos + 8, n, full, part);
    } else if dec_list(data, pos, n, full, label, what) is Ok {
        let (s, e) = dec_list(data, pos, n, full, label, what)->Ok_0;
        lemma_many_forward(pos + 8, n, full, part, k);
    }
}

/// Reading values one after the other never goes backwards.
proof fn lemma_many_forward<T>(
    pos: int,
    n: int,
    full: spec_fn(int) -> Outcome<T>,
    part: spec_fn(int) -> Outcome<T>,
    k: int,
)
    requires
        0 <= pos,
        items_cut(full, part, k),
    ensures
        dec_many(pos, n, full) matches Ok((s, e)) ==> pos <= e,
    decreases n,
{
    if n > 0 {
        lemma_many_forward(pos, n - 1, full, part, k);
        if dec_many(pos, n - 1, full) is Ok {
            let (s, p) = dec_many(pos, n - 1, full)->Ok_0;
            assert(full(p) matches Ok((x, e)) ==> p <= e);
        }
    }
}

/// Cutting a list of matrices.
proof fn lemma_cut_matrices(
    data: Seq<u8>,
    k: int,
    pos: int,
    n: int,
    words: int,
    rows: int,
    cols: int,
    label: Seq<char>,
    what: Seq<char>,
)
    requires
        0 <= pos <= k <= data.len(),
        0 <= words,
        0 <= rows,
        0 <= cols,
    ensures
        cut_of(
            dec_matrices(data, pos, n, words, rows, cols, label, what),
            dec_matrices(head(data, k), pos, n, words, rows, cols, label, what),
            k,
        ),
{
    let full = matrix_item(data, words, rows, cols, what);
    let part = matrix_item(head(data, k), words, rows, cols, what);
    assert(0 <= rows * cols * words) by (nonlinear_arith)
        requires
            0 <= rows,
            0 <= cols,
            0 <= words,
    ;
    assert forall|p: int| 0 <= p implies (#[trigger] full(p) matches Ok((x, e)) ==> p <= e) && (p
        <= k ==> cut_of(full(p), part(p), k)) by {
        if p <= k {
            lemma_cut_matrix(data, k, p, words, rows, cols, what);
        }
    }
    lemma_cut_list(data, k, pos, n, full, part, label, what);
}

/// Cutting a list of lists of matrices.
proof fn lemma_cut_matrix_lists(
    data: Seq<u8>,
    k: int,
    pos: int,
    outer: int,
    inner: int,
    words: int,
    rows: int,
    cols: int,
    what: Seq<char>,
)
    requires
        0 <= pos <= k <= data.len(),
        0 <= words,
        0 <= rows,
        0 <= cols,
    ensures
        cut_of(
            dec_matrix_lists(data, pos, outer, inner, words, rows, cols, what),
            dec_matrix_lists(head(data, k), pos, outer, inner, words, rows, cols, what),
            k,
        ),
{
    let full = matrices_item(data, inner, words, rows, cols, what);
    let part = matrices_item(head(data, k), inner, words, rows, cols, what);
    let label = "inner length "@;
    assert forall|p: int| 0 <= p implies (#[trigger] full(p) matches Ok((x, e)) ==> p <= e) && (p
        <= k ==> cut_of(full(p), part(p), k)) by {
        if p <= k {
            lemma_cut_matrices(data, k, p, inner, words, rows, cols, label, what);
        }
        if full(p) is Ok {
            let (x, e) = full(p)->Ok_0;
            lemma_matrices_stand(data, p, inner, words, rows, cols, x, e, label, what);
        }
    }
    lemma_cut_list(data, k, pos, outer, full, part, "outer length "@, what);
}

/// Cutting a list of indices.
proof fn lemma_cut_indices(data: Seq<u8>, k: int, pos: int, n: int, what: Seq<char>)
    requires
        0 <= pos <= k <= data.len(),
    ensures
        cut_of(dec_indices(data, pos, n, what), dec_indices(head(data, k), pos, n, what), k),
{
    let full = index_item(data, what);
    let part = index_item(head(data, k), what);
    assert forall|p: int| 0 <= p implies (#[trigger] full(p) matches Ok((x, e)) ==> p <= e) && (p
        <= k ==> cut_of(full(p), part(p), k)) by {
        if p <= k {
            lemma_cut_len(data, k, p, 0, "length "@, what);
        }
    }
    lemma_cut_list(data, k, pos, n, full, part, "length "@, what);
}

/// Cutting a table of indices.
proof fn lemma_cut_index_lists(
    data: Seq<u8>,
    k: int,
    pos: int,
    outer: int,
    inner: int,
    what: Seq<char>,
)
    requires
        0 <= pos <= k <= data.len(),
    ensures
        cut_of(
            dec_index_lists(data, pos, outer, inner, what),
            dec_index_lists(head(data, k), pos, outer, inner, what),
            k,
        ),
{
    let full = indices_item(data, inner, what);
    let part = indices_item(head(data, k), inner, what);
    assert forall|p: int| 0 <= p implies (#[trigger] full(p) matches Ok((x, e)) ==> p <= e) && (p
        <= k ==> cut_of(full(p), part(p), k)) by {
        if p <= k {
            lemma_cut_indices(data, k, p, inner, what);
        }
        if full(p) is Ok {
            let (x, e) = full(p)->Ok_0;
            lemma_indices_stand(data, p, inner, x, e, what);
        }
    }
    lemma_cut_list(data, k, pos, outer, full, part, "outer length "@, what);
}

/// Cutting a precomputation.
proof fn lemma_cut_precomp_item(
    data: Seq<u8>,
    k: int,
    pos: int,
    words: int,
    shape: PrecompShape,
    what: Seq<char>,
)
    requires
        0 <= pos <= k <= data.len(),
        0 <= words,
    ensures
        cut_of(
            dec_precomp_item(data, pos, words, shape, what),
            dec_precomp_item(head(data, k), pos, words, shape, what),
            k,
        ),
{
    if dec_precomp_item(data, pos, words, shape, what) is Ok {
        let (x, end) = dec_precomp_item(data, pos, words, shape, what)->Ok_0;
        let (mr, mc) = (shape.m_rows as int, shape.m_cols as int);
        let (vr, vc) = (shape.vm_rows as int, shape.vm_cols as int);
        let n = shape.vm_len as int;
        let (o, i) = (shape.vvu_outer as int, shape.vvu_inner as int);
        let label = "vm length "@;
        assert(0 <= mr * mc * words) by (nonlinear_arith)
            requires
                0 <= mr,
                0 <= mc,
                0 <= words,
        ;
        lemma_cut_matrix(data, k, pos, words, mr, mc, what);
        let (first, p1) = dec_matrix(data, pos, words, mr, mc, what)->Ok_0;
        lemma_matrix_stands(data, pos, words, mr, mc, first, p1, what);
        let (list, p2) = dec_matrices(data, p1, n, words, vr, vc, label, what)->Ok_0;
        lemma_matrices_stand(data, p1, n, words, vr, vc, list, p2, label, what);
        let (tables, p3) = dec_index_lists(data, p2, o, i, what)->Ok_0;
        lemma_index_lists_stand(data, p2, o, i, tables, p3, what);
        if p1 <= k {
            lemma_cut_matrices(data, k, p1, n, words, vr, vc, label, what);
            if p2 <= k {
                lemma_cut_index_lists(data, k, p2, o, i, what);
            }
        }
    }
}

/// Cutting a list of precomputations.
proof fn lemma_cut_precomp(
    data: Seq<u8>,
    k: int,
    pos: int,
    words: int,
    shape: PrecompShape,
    what: Seq<char>,
)
    requires
        0 <= pos <= k <= data.len(),
        0 <= words,
    ensures
        cut_of(
            dec_precomp(data, pos, words, shape, what),
            dec_precomp(head(data, k), pos, words, shape, what),
            k,
        ),
{
    let full = precomp_item(data, words, shape, what);
    let part = precomp_item(head(data, k), words, shape, what);
    assert forall|p: int| 0 <= p implies (#[trigger] full(p) matches Ok((x, e)) ==> p <= e) && (p
        <= k ==> cut_of(full(p), part(p), k)) by {
        if p <= k {
            lemma_cut_precomp_item(data, k, p, words, shape, what);
        }
        if full(p) is Ok {
            let (x, e) = full(p)->Ok_0;
            lemma_precomp_item_stands(data, p, words, shape, x, e, what);
        }
    }
    lemma_cut_list(data, k, pos, shape.outer as int, full, part, "outer length "@, what);
}

/// Cutting the last three fields.
proof fn lemma_cut_packing(data: Seq<u8>, k: int, pos: int, params: Params)
    requires
        0 <= pos <= k <= data.len(),
    ensures
        cut_of(dec_packing(data, pos, params), dec_packing(head(data, k), pos, params), k),
{
    reveal(dec_packing);
    if dec_packing(data, pos, params) is Ok {
        let words = 2 * params.poly_len;
        let (n, m) = (params.instances as int, params.poly_len as int);
        let (l, t) = (params.poly_len_log2 as int, params.t_exp_left as int);
        let outer = "outer length "@;
        let (w6, w7, w8) = ("prepacked_lwe"@, "fake_pack_pub_params"@, "precomp"@);
        let (a, p6) = dec_matrix_lists(data, pos, n, m, words, 2, 1, w6)->Ok_0;
        lemma_matrix_lists_stand(data, pos, n, m, words, 2, 1, a, p6, w6);
        let (b, p7) = dec_matrices(data, p6, l, words, 2, t, outer, w7)->Ok_0;
        lemma_matrices_stand(data, p6, l, words, 2, t, b, p7, outer, w7);
        let (c, p8) = dec_precomp(data, p7, words, precomp_shape(params), w8)->Ok_0;
        lemma_precomp_stands(data, p7, words, precomp_shape(params), c, p8, w8);
        lemma_cut_matrix_lists(data, k, pos, n, m, words, 2, 1, w6);
        if p6 <= k {
            lemma_cut_matrices(data, k, p6, l, words, 2, t, outer, w7);
            if p7 <= k {
                lemma_cut_precomp(data, k, p7, words, precomp_shape(params), w8);
            }
        }
    }
}

/// Cutting the fields behind the header.
proof fn lemma_cut_body(data: Seq<u8>, k: int, pos: int, params: Params)
    requires
        0 <= pos <= k <= data.len(),
    ensures
        cut_of(dec_body(data, pos, params), dec_body(head(data, k), pos, params), k),
{
    reveal(dec_body);
    if dec_body(data, pos, params) is Ok {
        let (v, end) = dec_body(data, pos, params)->Ok_0;
        let words = 2 * params.poly_len;
        let len = params.poly_len * (params.instances * params.poly_len);
        let l = params.poly_len_log2 as int;
        let outer = "outer length "@;
        let w0 = "hint_0"@;
        let w1 = "hint_1 (SimplePIR expects empty)"@;
        let w2 = "pseudorandom_query_1 (SimplePIR expects empty)"@;
        let (w3, w4) = ("y_constants.0"@, "y_constants.1"@);
        let (a, p1) = dec_vec_u64(data, pos, len, w0)->Ok_0;
        lemma_vec_u64_stands(data, pos, len, a, p1, w0);
        let (b, p2) = dec_vec_u64(data, p1, 0, w1)->Ok_0;
        lemma_vec_u64_stands(data, p1, 0, b, p2, w1);
        let (c, p3) = dec_matrices(data, p2, 0, words, 0, 0, outer, w2)->Ok_0;
        lemma_matrices_stand(data, p2, 0, words, 0, 0, c, p3, outer, w2);
        let (d, p4) = dec_matrices(data, p3, l, words, 1, 1, outer, w3)->Ok_0;
        lemma_matrices_stand(data, p3, l, words, 1, 1, d, p4, outer, w3);
        let (f, p5) = dec_matrices(data, p4, l, words, 1, 1, outer, w4)->Ok_0;
        lemma_matrices_stand(data, p4, l, words, 1, 1, f, p5, outer, w4);
        let (g, p8) = dec_packing(data, p5, params)->Ok_0;
        lemma_packing_stands(data, p5, params, g.0, g.1, g.2, p8);
        lemma_cut_vec_u64(data, k, pos, len, w0);
        if p1 <= k {
            lemma_cut_vec_u64(data, k, p1, 0, w1);
            if p2 <= k {
                lemma_cut_matrices(data, k, p2, 0, words, 0, 0, outer, w2);
                if p3 <= k {
                    lemma_cut_matrices(data, k, p3, l, words, 1, 1, outer, w3);
                    if p4 <= k {
                        lemma_cut_matrices(data, k, p4, l, words, 1, 1, outer, w4);
                        if p5 <= k {
                            lemma_cut_packing(data, k, p5, params);
                        }
                    }
                }
            }
        }
    }
}

/// No proper prefix is taken for the whole: where an input is accepted up to
/// `end`, the same input cut anywhere before `end` is refused as truncated.
pub proof fn cut_input_is_refused(
    data: Seq<u8>,
    pos: int,
    k: int,
    params: Params,
    v: OfflineView,
    end: int,
)
    requires
        0 <= pos <= k < end,
        k <= data.len(),
        dec_offline(data, pos, params) == Ok::<(OfflineView, int), Stop>((v, end)),
    ensures
        is_truncated(dec_offline(data.subrange(0, k), pos, params)),
{
    assert(head(data, k) == data.subrange(0, k));
    dump_gives_back_load(data, pos, params, v, end);
    if pos + 2 <= k {
        assert(head(data, k)[pos] == data[pos]);
        assert(head(data, k)[pos + 1] == data[pos + 1]);
        lemma_cut_body(data, k, pos + 2, params);
    }
}

/// An input of another version, or with any flag set, is refused as malformed.
pub proof fn other_versions_and_flags_are_refused(data: Seq<u8>, pos: int, params: Params)
    requires
        0 <= pos,
        pos + 2 <= data.len(),
        data[pos] != PAYLOAD_FORMAT_V1 || data[pos + 1] != 0,
    ensures
        dec_offline(data, pos, params) matches Err(e) && e.0 is Malformed,
{
}

} // verus!
