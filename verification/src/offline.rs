//! Values precomputed by a server, and their cached form.
use crate::cache::{
    agrees, agrees_by, all_wf, countable, dec_matrices, dec_matrix_lists, dec_precomp, dec_u8,
    dec_vec_u64, enc_index_lists, enc_indices, enc_many, enc_matrices, enc_matrix, enc_matrix_lists,
    enc_precomp, enc_precomp_item, enc_vec_u64, enc_words, index_bytes, index_lists_view,
    indices_bytes, matrices_bytes, matrices_view, matrix_bytes, matrix_lists_view, matrix_view,
    precomp_bytes, precomp_item_view, precomp_view, CacheError, CacheFault, MatrixView, Outcome,
    Precomp, PrecompItem, PrecompShape, PrecompView, Reader,
};
use crate::params::Params;
use crate::poly::PolyMatrixNTT;
use crate::text::{decimal, hex_byte, hex_byte_text, text_two_numbers};
use vstd::bytes::*;
use vstd::prelude::*;
use vstd::string::*;

verus! {

/// The version of the cached form.
pub const PAYLOAD_FORMAT_V1: u8 = 1;

/// The server of the second layer, by the database that it answers from. It is
/// never cached.
pub struct YServer<T> {
    pub db: Vec<T>,
}

/// What a server precomputes from its database.
pub struct OfflinePrecomputedValues<'a> {
    pub hint_0: Vec<u64>,
    pub hint_1: Vec<u64>,
    pub pseudorandom_query_1: Vec<PolyMatrixNTT<'a>>,
    pub y_constants: (Vec<PolyMatrixNTT<'a>>, Vec<PolyMatrixNTT<'a>>),
    pub smaller_server: Option<YServer<u16>>,
    pub prepacked_lwe: Vec<Vec<PolyMatrixNTT<'a>>>,
    pub fake_pack_pub_params: Vec<PolyMatrixNTT<'a>>,
    pub precomp: Precomp<'a>,
}

/// What precomputed values hold, the nested server left out.
pub struct OfflineView {
    pub hint_0: Seq<u64>,
    pub hint_1: Seq<u64>,
    pub pseudorandom_query_1: Seq<MatrixView>,
    pub y_constants_0: Seq<MatrixView>,
    pub y_constants_1: Seq<MatrixView>,
    pub prepacked_lwe: Seq<Seq<MatrixView>>,
    pub fake_pack_pub_params: Seq<MatrixView>,
    pub precomp: Seq<PrecompView>,
}

/// The view of precomputed values.
pub open spec fn offline_view(v: OfflinePrecomputedValues) -> OfflineView {
    OfflineView {
        hint_0: v.hint_0@,
        hint_1: v.hint_1@,
        pseudorandom_query_1: matrices_view(v.pseudorandom_query_1@),
        y_constants_0: matrices_view(v.y_constants.0@),
        y_constants_1: matrices_view(v.y_constants.1@),
        prepacked_lwe: matrix_lists_view(v.prepacked_lwe@),
        fake_pack_pub_params: matrices_view(v.fake_pack_pub_params@),
        precomp: precomp_view(v.precomp@),
    }
}

/// The bytes of precomputed values: the version, the flags, and every field in
/// turn.
pub open spec fn enc_offline(v: OfflineView) -> Seq<u8> {
    seq![PAYLOAD_FORMAT_V1, 0u8] + enc_vec_u64(v.hint_0) + enc_vec_u64(v.hint_1) + enc_matrices(
        v.pseudorandom_query_1,
    ) + enc_matrices(v.y_constants_0) + enc_matrices(v.y_constants_1) + enc_matrix_lists(
        v.prepacked_lwe,
    ) + enc_matrices(v.fake_pack_pub_params) + enc_precomp(v.precomp)
}

/// Appends `v` in four bytes.
fn write_u32_le(out: &mut Vec<u8>, v: u32)
    ensures
        final(out)@ == old(out)@ + spec_u32_to_le_bytes(v),
{
    let mut bytes: Vec<u8> = u32_to_le_bytes(v);
    out.append(&mut bytes);
}

/// Appends `v` in eight bytes.
pub(crate) fn write_u64_le(out: &mut Vec<u8>, v: u64)
    ensures
        final(out)@ == old(out)@ + spec_u64_to_le_bytes(v),
{
    let mut bytes: Vec<u8> = u64_to_le_bytes(v);
    out.append(&mut bytes);
}

/// One more word is eight more bytes.
pub proof fn lemma_enc_words_push(s: Seq<u64>, x: u64)
    ensures
        enc_words(s.push(x)) == enc_words(s) + spec_u64_to_le_bytes(x),
{
    lemma_auto_spec_u64_to_from_le_bytes();
    assert(spec_u64_to_le_bytes(x).len() == 8);
    assert(enc_words(s.push(x)) =~= enc_words(s) + spec_u64_to_le_bytes(x));
}

/// One more value is its bytes more.
pub proof fn lemma_enc_many_push<T>(s: Seq<T>, x: T, item: spec_fn(T) -> Seq<u8>)
    ensures
        enc_many(s.push(x), item) == enc_many(s, item) + item(x),
{
    assert(s.push(x).drop_last() =~= s);
}

/// Appends words.
pub(crate) fn write_u64_slice(out: &mut Vec<u8>, s: &[u64])
    ensures
        final(out)@ == old(out)@ + enc_words(s@),
{
    let ghost before = out@;
    let mut i: usize = 0;
    assert(s@.subrange(0, 0) =~= Seq::empty());
    assert(before + enc_words(s@.subrange(0, 0)) =~= before);
    while i < s.len()
        invariant
            i <= s@.len(),
            out@ == before + enc_words(s@.subrange(0, i as int)),
        decreases s@.len() - i,
    {
        write_u64_le(out, s[i]);
        proof {
            let p = s@.subrange(0, i as int);
            assert(s@.subrange(0, i + 1) =~= p.push(s@[i as int]));
            lemma_enc_words_push(p, s@[i as int]);
            assert(out@ =~= before + enc_words(s@.subrange(0, i + 1)));
        }
        i = i + 1;
    }
    assert(s@.subrange(0, s@.len() as int) =~= s@);
}

/// Appends a list of words.
fn dump_vec_u64(out: &mut Vec<u8>, v: &[u64])
    ensures
        final(out)@ == old(out)@ + enc_vec_u64(v@),
{
    write_u64_le(out, v.len() as u64);
    write_u64_slice(out, v);
    assert(out@ =~= old(out)@ + enc_vec_u64(v@));
}

/// Appends a matrix.
fn dump_poly_matrix_ntt(out: &mut Vec<u8>, m: &PolyMatrixNTT)
    ensures
        final(out)@ == old(out)@ + enc_matrix(matrix_view(*m)),
{
    write_u32_le(out, (m.rows as u64 % 0x1_0000_0000) as u32);
    write_u32_le(out, (m.cols as u64 % 0x1_0000_0000) as u32);
    write_u64_slice(out, m.data.as_slice());
    assert(out@ =~= old(out)@ + enc_matrix(matrix_view(*m)));
}

/// Appends a list of matrices.
fn dump_vec_pmntt(out: &mut Vec<u8>, v: &Vec<PolyMatrixNTT>)
    ensures
        final(out)@ == old(out)@ + enc_matrices(matrices_view(v@)),
{
    write_u64_le(out, v.len() as u64);
    let ghost before = out@;
    let ghost views = matrices_view(v@);
    let mut i: usize = 0;
    assert(views.subrange(0, 0) =~= Seq::empty());
    assert(out@ =~= before + enc_many(views.subrange(0, 0), matrix_bytes()));
    while i < v.len()
        invariant
            i <= v@.len(),
            views == matrices_view(v@),
            out@ == before + enc_many(views.subrange(0, i as int), matrix_bytes()),
        decreases v@.len() - i,
    {
        dump_poly_matrix_ntt(out, &v[i]);
        proof {
            let p = views.subrange(0, i as int);
            assert(views.subrange(0, i + 1) =~= p.push(matrix_view(v@[i as int])));
            lemma_enc_many_push(p, matrix_view(v@[i as int]), matrix_bytes());
            assert(out@ =~= before + enc_many(views.subrange(0, i + 1), matrix_bytes()));
        }
        i = i + 1;
    }
    assert(views.subrange(0, views.len() as int) =~= views);
    assert(out@ =~= old(out)@ + enc_matrices(views));
}

/// Appends a list of lists of matrices.
fn dump_vec_vec_pmntt(out: &mut Vec<u8>, v: &Vec<Vec<PolyMatrixNTT>>)
    ensures
        final(out)@ == old(out)@ + enc_matrix_lists(matrix_lists_view(v@)),
{
    write_u64_le(out, v.len() as u64);
    let ghost before = out@;
    let ghost views = matrix_lists_view(v@);
    let mut i: usize = 0;
    assert(views.subrange(0, 0) =~= Seq::empty());
    assert(out@ =~= before + enc_many(views.subrange(0, 0), matrices_bytes()));
    while i < v.len()
        invariant
            i <= v@.len(),
            views == matrix_lists_view(v@),
            out@ == before + enc_many(views.subrange(0, i as int), matrices_bytes()),
        decreases v@.len() - i,
    {
        dump_vec_pmntt(out, &v[i]);
        proof {
            let p = views.subrange(0, i as int);
            assert(views.subrange(0, i + 1) =~= p.push(matrices_view(v@[i as int]@)));
            lemma_enc_many_push(p, matrices_view(v@[i as int]@), matrices_bytes());
            assert(out@ =~= before + enc_many(views.subrange(0, i + 1), matrices_bytes()));
        }
        i = i + 1;
    }
    assert(views.subrange(0, views.len() as int) =~= views);
    assert(out@ =~= old(out)@ + enc_matrix_lists(views));
}

/// Appends a list of indices.
fn dump_vec_usize(out: &mut Vec<u8>, v: &Vec<usize>)
    ensures
        final(out)@ == old(out)@ + enc_indices(v@),
{
    write_u64_le(out, v.len() as u64);
    let ghost before = out@;
    let mut i: usize = 0;
    assert(v@.subrange(0, 0) =~= Seq::empty());
    assert(out@ =~= before + enc_many(v@.subrange(0, 0), index_bytes()));
    while i < v.len()
        invariant
            i <= v@.len(),
            out@ == before + enc_many(v@.subrange(0, i as int), index_bytes()),
        decreases v@.len() - i,
    {
        write_u64_le(out, v[i] as u64);
        proof {
            let p = v@.subrange(0, i as int);
            assert(v@.subrange(0, i + 1) =~= p.push(v@[i as int]));
            lemma_enc_many_push(p, v@[i as int], index_bytes());
            assert(out@ =~= before + enc_many(v@.subrange(0, i + 1), index_bytes()));
        }
        i = i + 1;
    }
    assert(v@.subrange(0, v@.len() as int) =~= v@);
    assert(out@ =~= old(out)@ + enc_indices(v@));
}

/// Appends a table of indices.
fn dump_vec_vec_usize(out: &mut Vec<u8>, v: &Vec<Vec<usize>>)
    ensures
        final(out)@ == old(out)@ + enc_index_lists(index_lists_view(v@)),
{
    write_u64_le(out, v.len() as u64);
    let ghost before = out@;
    let ghost views = index_lists_view(v@);
    let mut i: usize = 0;
    assert(views.subrange(0, 0) =~= Seq::empty());
    assert(out@ =~= before + enc_many(views.subrange(0, 0), indices_bytes()));
    while i < v.len()
        invariant
            i <= v@.len(),
            views == index_lists_view(v@),
            out@ == before + enc_many(views.subrange(0, i as int), indices_bytes()),
        decreases v@.len() - i,
    {
        dump_vec_usize(out, &v[i]);
        proof {
            let p = views.subrange(0, i as int);
            assert(views.subrange(0, i + 1) =~= p.push(v@[i as int]@));
            lemma_enc_many_push(p, v@[i as int]@, indices_bytes());
            assert(out@ =~= before + enc_many(views.subrange(0, i + 1), indices_bytes()));
        }
        i = i + 1;
    }
    assert(views.subrange(0, views.len() as int) =~= views);
    assert(out@ =~= old(out)@ + enc_index_lists(views));
}

/// Appends one precomputation.
fn dump_precomp_item(out: &mut Vec<u8>, p: &PrecompItem)
    ensures
        final(out)@ == old(out)@ + enc_precomp_item(precomp_item_view(*p)),
{
    dump_poly_matrix_ntt(out, &p.0);
    dump_vec_pmntt(out, &p.1);
    dump_vec_vec_usize(out, &p.2);
    assert(out@ =~= old(out)@ + enc_precomp_item(precomp_item_view(*p)));
}

/// Appends a list of precomputations.
fn dump_precomp(out: &mut Vec<u8>, v: &Precomp)
    ensures
        final(out)@ == old(out)@ + enc_precomp(precomp_view(v@)),
{
    write_u64_le(out, v.len() as u64);
    let ghost before = out@;
    let ghost views = precomp_view(v@);
    let mut i: usize = 0;
    assert(views.subrange(0, 0) =~= Seq::empty());
    assert(out@ =~= before + enc_many(views.subrange(0, 0), precomp_bytes()));
    while i < v.len()
        invariant
            i <= v@.len(),
            views == precomp_view(v@),
            out@ == before + enc_many(views.subrange(0, i as int), precomp_bytes()),
        decreases v@.len() - i,
    {
        dump_precomp_item(out, &v[i]);
        proof {
            let p = views.subrange(0, i as int);
            assert(views.subrange(0, i + 1) =~= p.push(precomp_item_view(v@[i as int])));
            lemma_enc_many_push(p, precomp_item_view(v@[i as int]), precomp_bytes());
            assert(out@ =~= before + enc_many(views.subrange(0, i + 1), precomp_bytes()));
        }
        i = i + 1;
    }
    assert(views.subrange(0, views.len() as int) =~= views);
    assert(out@ =~= old(out)@ + enc_precomp(views));
}

/// The shape of the precomputations of `params`.
pub open spec fn precomp_shape(params: Params) -> PrecompShape {
    PrecompShape {
        outer: params.instances,
        m_rows: 2,
        m_cols: 1,
        vm_len: (params.poly_len - 1) as usize,
        vm_rows: params.t_exp_left,
        vm_cols: 1,
        vvu_outer: params.poly_len_log2,
        vvu_inner: params.poly_len,
    }
}

/// The fault of a field with a fixed explanation.
pub open spec fn malformed<T>(what: Seq<char>, detail: Seq<char>, pos: int) -> Outcome<T> {
    Err((CacheFault::Malformed { what, detail }, pos))
}

/// Reading the version and the flags; gives the position behind them.
pub open spec fn dec_header(data: Seq<u8>, pos: int) -> Outcome<()> {
    match dec_u8(data, pos, "payload version"@) {
        Err(e) => Err(e),
        Ok((v, p1)) => if v != PAYLOAD_FORMAT_V1 {
            malformed(
                "payload version"@,
                "unknown version "@ + decimal(v as nat) + ", expected "@ + decimal(
                    PAYLOAD_FORMAT_V1 as nat,
                ),
                p1,
            )
        } else {
            match dec_u8(data, p1, "flags"@) {
                Err(e) => Err(e),
                Ok((f, p2)) => if f > 1 {
                    malformed(
                        "flags"@,
                        "unknown flag bits set: 0x"@ + hex_byte(f) + " (known mask 0x"@ + hex_byte(
                            1,
                        ) + ")"@,
                        p2,
                    )
                } else if f == 1 {
                    malformed(
                        "flags"@,
                        "smaller_server-present flag set; this loader expects None"@,
                        p2,
                    )
                } else {
                    Ok(((), p2))
                },
            }
        },
    }
}

/// Reading the fields behind the header.
#[verifier::opaque]
pub open spec fn dec_body(data: Seq<u8>, pos: int, params: Params) -> Outcome<OfflineView> {
    let words = 2 * params.poly_len;
    match dec_vec_u64(
        data,
        pos,
        params.poly_len * (params.instances * params.poly_len),
        "hint_0"@,
    ) {
        Err(e) => Err(e),
        Ok((hint_0, p1)) => match dec_vec_u64(data, p1, 0, "hint_1 (SimplePIR expects empty)"@) {
            Err(e) => Err(e),
            Ok((hint_1, p2)) => match dec_matrices(
                data,
                p2,
                0,
                words,
                0,
                0,
                "outer length "@,
                "pseudorandom_query_1 (SimplePIR expects empty)"@,
            ) {
                Err(e) => Err(e),
                Ok((pseudorandom_query_1, p3)) => match dec_matrices(
                    data,
                    p3,
                    params.poly_len_log2 as int,
                    words,
                    1,
                    1,
                    "outer length "@,
                    "y_constants.0"@,
                ) {
                    Err(e) => Err(e),
                    Ok((y_constants_0, p4)) => match dec_matrices(
                        data,
                        p4,
                        params.poly_len_log2 as int,
                        words,
                        1,
                        1,
                        "outer length "@,
                        "y_constants.1"@,
                    ) {
                        Err(e) => Err(e),
                        Ok((y_constants_1, p5)) => match dec_packing(data, p5, params) {
                            Err(e) => Err(e),
                            Ok((packing, p8)) => Ok(
                                (
                                    OfflineView {
                                        hint_0,
                                        hint_1,
                                        pseudorandom_query_1,
                                        y_constants_0,
                                        y_constants_1,
                                        prepacked_lwe: packing.0,
                                        fake_pack_pub_params: packing.1,
                                        precomp: packing.2,
                                    },
                                    p8,
                                ),
                            ),
                        },
                    },
                },
            },
        },
    }
}

/// Reading the last three fields, which serve packing.
#[verifier::opaque]
pub open spec fn dec_packing(data: Seq<u8>, pos: int, params: Params) -> Outcome<
    (Seq<Seq<MatrixView>>, Seq<MatrixView>, Seq<PrecompView>),
> {
    let words = 2 * params.poly_len;
    match dec_matrix_lists(
        data,
        pos,
        params.instances as int,
        params.poly_len as int,
        words,
        2,
        1,
        "prepacked_lwe"@,
    ) {
        Err(e) => Err(e),
        Ok((prepacked_lwe, p6)) => match dec_matrices(
            data,
            p6,
            params.poly_len_log2 as int,
            words,
            2,
            params.t_exp_left as int,
            "outer length "@,
            "fake_pack_pub_params"@,
        ) {
            Err(e) => Err(e),
            Ok((fake, p7)) => match dec_precomp(
                data,
                p7,
                words,
                precomp_shape(params),
                "precomp"@,
            ) {
                Err(e) => Err(e),
                Ok((precomp, p8)) => Ok(((prepacked_lwe, fake, precomp), p8)),
            },
        },
    }
}

/// Reading precomputed values at a position.
pub open spec fn dec_offline(data: Seq<u8>, pos: int, params: Params) -> Outcome<OfflineView> {
    match dec_header(data, pos) {
        Err(e) => Err(e),
        Ok((_, p)) => if params.instances * params.poly_len > usize::MAX {
            malformed("params"@, "instances * poly_len overflowed"@, p)
        } else if params.poly_len * (params.instances * params.poly_len) > usize::MAX {
            malformed("params"@, "poly_len * db_cols overflowed"@, p)
        } else {
            dec_body(data, p, params)
        },
    }
}

/// The error of a field with a fixed explanation.
fn malformed_error(what: &'static str, detail: &str) -> (r: CacheError)
    ensures
        r@ == (CacheFault::Malformed { what: what@, detail: detail@ }),
{
    CacheError::Malformed { what, detail: String::from_str(detail) }
}

/// The shapes of the precomputed matrices can be counted where the largest can.
proof fn lemma_shapes_countable(params: Params)
    requires
        params.ring_wf(),
        countable(2, params.t_exp_left as int, params),
    ensures
        countable(0, 0, params),
        countable(1, 1, params),
        countable(2, 1, params),
        countable(params.t_exp_left as int, 1, params),
{
    reveal(countable);
    let (t, w) = (params.t_exp_left as int, 2 * params.poly_len);
    assert(t * 1 * w <= 2 * t * w && 0 * 0 * w == 0 && 1 * 1 * w == w && 2 * 1 * w == 2 * w)
        by (nonlinear_arith)
        requires
            0 <= t,
            0 <= w,
    ;
}

/// Every matrix of the values belongs to `params` and has the storage of its
/// shape.
pub open spec fn all_belong(x: OfflinePrecomputedValues, params: &Params) -> bool {
    &&& all_wf(x.pseudorandom_query_1@, params)
    &&& all_wf(x.y_constants.0@, params)
    &&& all_wf(x.y_constants.1@, params)
    &&& forall|i: int|
        0 <= i < x.prepacked_lwe@.len() ==> all_wf(#[trigger] x.prepacked_lwe@[i]@, params)
    &&& all_wf(x.fake_pack_pub_params@, params)
    &&& forall|i: int|
        0 <= i < x.precomp@.len() ==> (#[trigger] x.precomp@[i]).0.wf()
            && *x.precomp@[i].0.params == *params && all_wf(x.precomp@[i].1@, params)
}

impl<'a> OfflinePrecomputedValues<'a> {
    /// Appends the cached form of the values to `out`.
    pub fn dump_into(&self, out: &mut Vec<u8>)
        requires
            self.smaller_server is None,
        ensures
            final(out)@ == old(out)@ + enc_offline(offline_view(*self)),
            final(out)@ == old(out)@ + seq![1u8, 0u8] + enc_vec_u64(self.hint_0@) + enc_vec_u64(
                self.hint_1@,
            ) + enc_matrices(matrices_view(self.pseudorandom_query_1@)) + enc_matrices(
                matrices_view(self.y_constants.0@),
            ) + enc_matrices(matrices_view(self.y_constants.1@)) + enc_matrix_lists(
                matrix_lists_view(self.prepacked_lwe@),
            ) + enc_matrices(matrices_view(self.fake_pack_pub_params@)) + enc_precomp(
                precomp_view(self.precomp@),
            ),
    {
        let ghost start = out@;
        out.push(PAYLOAD_FORMAT_V1);
        // Bit zero of the flags says that a nested server follows.
        out.push(0);
        dump_vec_u64(out, self.hint_0.as_slice());
        dump_vec_u64(out, self.hint_1.as_slice());
        dump_vec_pmntt(out, &self.pseudorandom_query_1);
        dump_vec_pmntt(out, &self.y_constants.0);
        dump_vec_pmntt(out, &self.y_constants.1);
        dump_vec_vec_pmntt(out, &self.prepacked_lwe);
        dump_vec_pmntt(out, &self.fake_pack_pub_params);
        dump_precomp(out, &self.precomp);
        assert(out@ =~= start + enc_offline(offline_view(*self)));
        assert(out@ =~= start + seq![1u8, 0u8] + enc_vec_u64(self.hint_0@) + enc_vec_u64(
            self.hint_1@,
        ) + enc_matrices(matrices_view(self.pseudorandom_query_1@)) + enc_matrices(
            matrices_view(self.y_constants.0@),
        ) + enc_matrices(matrices_view(self.y_constants.1@)) + enc_matrix_lists(
            matrix_lists_view(self.prepacked_lwe@),
        ) + enc_matrices(matrices_view(self.fake_pack_pub_params@)) + enc_precomp(
            precomp_view(self.precomp@),
        ));
    }

    /// Reads the version and the flags.
    fn load_header(r: &mut Reader) -> (h: Result<(), CacheError>)
        requires
            old(r).wf(),
        ensures
            final(r).wf(),
            final(r).data == old(r).data,
            crate::cache::agrees(
                h,
                dec_header(old(r).data@, old(r).pos as int),
                final(r).pos as int,
            ),
    {
        let v: u8 = r.read_u8("payload version")?;
        if v != PAYLOAD_FORMAT_V1 {
            let detail: String = crate::text::text_two_numbers(
                "unknown version ",
                v as u64,
                ", expected ",
                PAYLOAD_FORMAT_V1 as u64,
            );
            return Err(CacheError::Malformed { what: "payload version", detail });
        }
        let flags: u8 = r.read_u8("flags")?;
        if flags > 1 {
            let mut detail: String = String::from_str("unknown flag bits set: 0x");
            detail.append(hex_byte_text(flags).as_str());
            detail.append(" (known mask 0x");
            detail.append(hex_byte_text(1).as_str());
            detail.append(")");
            return Err(CacheError::Malformed { what: "flags", detail });
        }
        if flags == 1 {
            return Err(
                malformed_error(
                    "flags",
                    "smaller_server-present flag set; this loader expects None",
                ),
            );
        }
        Ok(())
    }

    /// Reads the cached form of values for `params`. Every length is checked
    /// against the one that `params` asks for before what follows is taken.
    /// On success the reader stands right behind the bytes of the values, and
    /// what comes after them is not looked at.
    pub fn load_from(r: &mut Reader, params: &'a Params) -> (v: Result<Self, CacheError>)
        requires
            old(r).wf(),
            params.ring_wf(),
            countable(2, params.t_exp_left as int, *params),
        ensures
            final(r).wf(),
            final(r).data == old(r).data,
            agrees_by(
                v,
                |x: OfflinePrecomputedValues<'a>| offline_view(x),
                dec_offline(old(r).data@, old(r).pos as int, *params),
                final(r).pos as int,
            ),
            v matches Ok(x) ==> x.smaller_server is None && all_belong(x, params),
    {
        proof {
            reveal(dec_body);
            reveal(dec_packing);
        }
        proof {
            lemma_shapes_countable(*params);
        }
        Self::load_header(r)?;
        let db_cols: usize = match params.instances.checked_mul(params.poly_len) {
            Some(x) => x,
            None => {
                return Err(malformed_error("params", "instances * poly_len overflowed"));
            },
        };
        let expected_hint_0_len: usize = match params.poly_len.checked_mul(db_cols) {
            Some(x) => x,
            None => {
                return Err(malformed_error("params", "poly_len * db_cols overflowed"));
            },
        };
        let num_rlwe_outputs: usize = params.instances;
        let hint_0: Vec<u64> = r.load_vec_u64_exact(expected_hint_0_len, "hint_0")?;
        let hint_1: Vec<u64> = r.load_vec_u64_exact(0, "hint_1 (SimplePIR expects empty)")?;
        let pseudorandom_query_1: Vec<PolyMatrixNTT<'a>> = r.load_vec_pmntt_exact(
            params,
            0,
            0,
            0,
            "pseudorandom_query_1 (SimplePIR expects empty)",
        )?;
        let y_constants_0: Vec<PolyMatrixNTT<'a>> = r.load_vec_pmntt_exact(
            params,
            params.poly_len_log2,
            1,
            1,
            "y_constants.0",
        )?;
        let y_constants_1: Vec<PolyMatrixNTT<'a>> = r.load_vec_pmntt_exact(
            params,
            params.poly_len_log2,
            1,
            1,
            "y_constants.1",
        )?;
        let prepacked_lwe: Vec<Vec<PolyMatrixNTT<'a>>> = r.load_vec_vec_pmntt_exact(
            params,
            num_rlwe_outputs,
            params.poly_len,
            2,
            1,
            "prepacked_lwe",
        )?;
        let fake_pack_pub_params: Vec<PolyMatrixNTT<'a>> = r.load_vec_pmntt_exact(
            params,
            params.poly_len_log2,
            2,
            params.t_exp_left,
            "fake_pack_pub_params",
        )?;
        let shape = PrecompShape {
            outer: num_rlwe_outputs,
            m_rows: 2,
            m_cols: 1,
            vm_len: params.poly_len - 1,
            vm_rows: params.t_exp_left,
            vm_cols: 1,
            vvu_outer: params.poly_len_log2,
            vvu_inner: params.poly_len,
        };
        let precomp: Precomp<'a> = r.load_precomp_exact(params, &shape, "precomp")?;
        Ok(
            OfflinePrecomputedValues {
                hint_0,
                hint_1,
                pseudorandom_query_1,
                y_constants: (y_constants_0, y_constants_1),
                smaller_server: None,
                prepacked_lwe,
                fake_pack_pub_params,
                precomp,
            },
        )
    }
}

} // verus!
