//! What was written in the plain byte form reads back.
use crate::aligned::words;
use crate::cache::{
    all_wf, enc_matrix, enc_words, index_lists_view, matrices_view, matrix_lists_view, matrix_view,
    precomp_item_view, precomp_view, MatrixView, Precomp, PrecompItem,
};
use crate::offline::{all_belong, offline_view, OfflinePrecomputedValues};
use crate::offline_bytes::{behind_list, hint_bytes, list_inside, section};
use crate::params::Params;
use crate::poly::PolyMatrixNTT;
use crate::to_bytes::{
    be64, be64_at, bytes_behind_first, dec_u32s, dec_u64s, enc_items, enc_u32s, first_bytes,
    index_words, item_bytes, item_inside, item_start, lemma_be64_reads, matrix_round_trip,
    u32s_round_trip, words_round_trip, FromBytesParams, ToBytes, YPIRQuery, YPIRSimpleQuery,
};
use vstd::bytes::*;
use vstd::prelude::*;

verus! {

/// The bytes of the first items are where the bytes of all items start.
proof fn lemma_items_prefix<T: ToBytes>(s: Seq<T>, i: int)
    requires
        0 <= i <= s.len(),
    ensures
        enc_items(s.take(i)).len() <= enc_items(s).len(),
        enc_items(s).subrange(0, enc_items(s.take(i)).len() as int) == enc_items(s.take(i)),
    decreases s.len(),
{
    if i == s.len() {
        assert(s.take(i) =~= s);
        assert(enc_items(s).subrange(0, enc_items(s).len() as int) =~= enc_items(s));
    } else {
        let t = s.drop_last();
        lemma_items_prefix(t, i);
        assert(t.take(i) =~= s.take(i));
        let p = enc_items(s.take(i)).len() as int;
        assert(enc_items(s).subrange(0, p) =~= enc_items(t).subrange(0, p));
    }
}

/// The bytes of item `i` stand behind those of the items before it.
proof fn lemma_item_stands<T: ToBytes>(s: Seq<T>, i: int)
    requires
        0 <= i < s.len(),
    ensures
        ({
            let p = enc_items(s.take(i)).len() as int;
            let e = s[i].encoded();
            &&& be64(e.len() as u64).len() == 8
            &&& enc_items(s.take(i + 1)).len() == p + 8 + e.len()
            &&& p + 8 + e.len() <= enc_items(s).len()
            &&& enc_items(s).subrange(p, p + 8) == be64(e.len() as u64)
            &&& enc_items(s).subrange(p + 8, p + 8 + e.len()) == e
        }),
{
    lemma_auto_spec_u64_to_from_le_bytes();
    let p = enc_items(s.take(i)).len() as int;
    let e = s[i].encoded();
    let n = be64(e.len() as u64);
    assert(spec_u64_to_le_bytes(e.len() as u64).len() == 8);
    lemma_items_prefix(s, i + 1);
    let t = s.take(i + 1);
    assert(t.drop_last() =~= s.take(i));
    assert(t.last() == s[i]);
    let whole = enc_items(t);
    assert(whole =~= enc_items(s.take(i)) + n + e);
    let all = enc_items(s);
    assert(all.subrange(p, p + 8) =~= whole.subrange(p, p + 8));
    assert(whole.subrange(p, p + 8) =~= n);
    assert(all.subrange(p + 8, p + 8 + e.len()) =~= whole.subrange(p + 8, p + 8 + e.len()));
    assert(whole.subrange(p + 8, p + 8 + e.len()) =~= e);
}

/// The bytes of a list, followed by others.
pub open spec fn list_bytes<T: ToBytes>(s: Seq<T>, rest: Seq<u8>) -> Seq<u8> {
    be64(s.len() as u64) + enc_items(s) + rest
}

/// Where the items of a written list start.
proof fn lemma_item_start<T: ToBytes>(s: Seq<T>, rest: Seq<u8>, i: int)
    requires
        0 <= i <= s.len(),
        enc_items(s).len() <= u64::MAX,
    ensures
        item_start(list_bytes(s, rest), i) == 8 + enc_items(s.take(i)).len(),
    decreases i,
{
    let data = list_bytes(s, rest);
    if i == 0 {
        assert(s.take(0) =~= Seq::empty());
    } else {
        lemma_item_start(s, rest, i - 1);
        lemma_item_stands(s, i - 1);
        lemma_auto_spec_u64_to_from_le_bytes();
        assert(spec_u64_to_le_bytes(s.len() as u64).len() == 8);
        let p = enc_items(s.take(i - 1)).len() as int;
        let e = s[i - 1].encoded();
        assert(data.subrange(8 + p, 8 + p + 8) =~= enc_items(s).subrange(p, p + 8));
        lemma_be64_reads(data, 8 + p, e.len() as u64);
    }
}

/// Each item takes at least the bytes of its length.
proof fn lemma_count<T: ToBytes>(s: Seq<T>)
    ensures
        8 * s.len() <= enc_items(s).len(),
    decreases s.len(),
{
    if s.len() > 0 {
        lemma_count(s.drop_last());
        lemma_auto_spec_u64_to_from_le_bytes();
        assert(spec_u64_to_le_bytes(s.last().encoded().len() as u64).len() == 8);
    }
}

/// The items of a written list are found, and what follows it.
proof fn lemma_list<T: ToBytes>(s: Seq<T>, rest: Seq<u8>)
    requires
        enc_items(s).len() <= u64::MAX,
    ensures
        list_inside(list_bytes(s, rest)),
        be64_at(list_bytes(s, rest), 0) == s.len(),
        forall|i: int|
            0 <= i < s.len() ==> #[trigger] item_bytes(list_bytes(s, rest), i) == s[i].encoded(),
        behind_list(list_bytes(s, rest)) == rest,
{
    lemma_auto_spec_u64_to_from_le_bytes();
    lemma_count(s);
    let data = list_bytes(s, rest);
    assert(spec_u64_to_le_bytes(s.len() as u64).len() == 8);
    assert(data.subrange(0, 8) =~= be64(s.len() as u64));
    lemma_be64_reads(data, 0, s.len() as u64);
    assert forall|i: int| 0 <= i < s.len() implies #[trigger] item_inside(data, i) && item_bytes(
        data,
        i,
    ) == s[i].encoded() by {
        lemma_item_start(s, rest, i);
        lemma_item_stands(s, i);
        let p = enc_items(s.take(i)).len() as int;
        let e = s[i].encoded();
        assert(data.subrange(8 + p, 8 + p + 8) =~= enc_items(s).subrange(p, p + 8));
        lemma_be64_reads(data, 8 + p, e.len() as u64);
        assert(item_bytes(data, i) =~= enc_items(s).subrange(p + 8, p + 8 + e.len()));
    }
    assert forall|i: int| 0 <= i < s.len() implies #[trigger] item_bytes(data, i)
        == s[i].encoded() by {
        assert(item_inside(data, i));
    }
    lemma_item_start(s, rest, s.len() as int);
    assert(s.take(s.len() as int) =~= s);
    assert(behind_list(data) =~= rest);
}

/// An item is no longer than all items.
proof fn lemma_item_len<T: ToBytes>(s: Seq<T>, i: int)
    requires
        0 <= i < s.len(),
    ensures
        s[i].encoded().len() <= enc_items(s).len(),
{
    lemma_item_stands(s, i);
}

/// A list of matrices reads back.
proof fn lemma_matrices<'a>(v: Vec<PolyMatrixNTT<'a>>, rest: Seq<u8>, params: &Params)
    requires
        all_wf(v@, params),
        enc_items(v@).len() <= u64::MAX,
    ensures
        <Vec<PolyMatrixNTT<'a>>>::decodable_with(list_bytes(v@, rest), params),
        forall|x: Vec<PolyMatrixNTT<'a>>|
            x.decoded_with(list_bytes(v@, rest), params) ==> #[trigger] matrices_view(x@)
                == matrices_view(v@),
{
    let data = list_bytes(v@, rest);
    lemma_list(v@, rest);
    assert forall|i: int| 0 <= i < v@.len() implies #[trigger] item_inside(data, i)
        && <PolyMatrixNTT<'a>>::decodable_with(item_bytes(data, i), params) by {
        matrix_round_trip(v@[i], v@[i], *params);
    }
    assert forall|x: Vec<PolyMatrixNTT<'a>>| x.decoded_with(data, params) implies
        #[trigger] matrices_view(x@) == matrices_view(v@) by {
        assert forall|i: int| 0 <= i < v@.len() implies matrix_view(x@[i]) == matrix_view(
            v@[i],
        ) by {
            assert(x@[i].decoded_with(item_bytes(data, i), params));
            matrix_round_trip(v@[i], x@[i], *params);
        }
        assert(matrices_view(x@) =~= matrices_view(v@));
    }
}

/// A list of lists of matrices reads back.
proof fn lemma_matrix_lists<'a>(v: Vec<Vec<PolyMatrixNTT<'a>>>, rest: Seq<u8>, params: &Params)
    requires
        forall|i: int| 0 <= i < v@.len() ==> all_wf(#[trigger] v@[i]@, params),
        enc_items(v@).len() <= u64::MAX,
    ensures
        <Vec<Vec<PolyMatrixNTT<'a>>>>::decodable_with(list_bytes(v@, rest), params),
        forall|x: Vec<Vec<PolyMatrixNTT<'a>>>|
            x.decoded_with(list_bytes(v@, rest), params) ==> #[trigger] matrix_lists_view(x@)
                == matrix_lists_view(v@),
{
    let data = list_bytes(v@, rest);
    lemma_list(v@, rest);
    assert forall|i: int| 0 <= i < v@.len() implies v@[i].encoded() == #[trigger] list_bytes(
        v@[i]@,
        Seq::empty(),
    ) && enc_items(v@[i]@).len() <= u64::MAX by {
        assert(v@[i].encoded() =~= list_bytes(v@[i]@, Seq::empty()));
        lemma_item_len(v@, i);
    }
    assert forall|i: int| 0 <= i < v@.len() implies #[trigger] item_inside(data, i)
        && <Vec<PolyMatrixNTT<'a>>>::decodable_with(item_bytes(data, i), params) by {
        assert(v@[i].encoded() == list_bytes(v@[i]@, Seq::empty()));
        lemma_matrices(v@[i], Seq::empty(), params);
    }
    assert forall|x: Vec<Vec<PolyMatrixNTT<'a>>>| x.decoded_with(data, params) implies
        #[trigger] matrix_lists_view(x@) == matrix_lists_view(v@) by {
        assert forall|i: int| 0 <= i < v@.len() implies matrices_view(x@[i]@) == matrices_view(
            v@[i]@,
        ) by {
            assert(x@[i].decoded_with(item_bytes(data, i), params));
            assert(v@[i].encoded() == list_bytes(v@[i]@, Seq::empty()));
            lemma_matrices(v@[i], Seq::empty(), params);
        }
        assert(matrix_lists_view(x@) =~= matrix_lists_view(v@));
    }
}

/// A table of indices reads back.
proof fn lemma_tables(v: Vec<Vec<usize>>, rest: Seq<u8>, params: &Params)
    requires
        enc_items(v@).len() <= u64::MAX,
    ensures
        <Vec<Vec<usize>>>::decodable_with(list_bytes(v@, rest), params),
        forall|x: Vec<Vec<usize>>|
            x.decoded_with(list_bytes(v@, rest), params) ==> #[trigger] index_lists_view(x@)
                == index_lists_view(v@),
{
    let data = list_bytes(v@, rest);
    lemma_list(v@, rest);
    assert forall|i: int| 0 <= i < v@.len() implies #[trigger] item_inside(data, i) && <Vec<
        usize,
    >>::decodable_with(item_bytes(data, i), params) by {
        assert(item_bytes(data, i) == enc_words(index_words(v@[i]@)));
        words_round_trip(index_words(v@[i]@));
    }
    assert forall|x: Vec<Vec<usize>>| x.decoded_with(data, params) implies
        #[trigger] index_lists_view(x@) == index_lists_view(v@) by {
        assert forall|i: int| 0 <= i < v@.len() implies x@[i]@ == v@[i]@ by {
            assert(x@[i].decoded_with(item_bytes(data, i), params));
            assert(item_bytes(data, i) == enc_words(index_words(v@[i]@)));
            words_round_trip(index_words(v@[i]@));
            let (a, b) = (x@[i]@, v@[i]@);
            assert(index_words(a) == index_words(b));
            assert(a.len() == b.len()) by {
                assert(index_words(a).len() == index_words(b).len());
            }
            assert forall|k: int| 0 <= k < a.len() implies a[k] == b[k] by {
                assert(index_words(a)[k] == index_words(b)[k]);
            }
            assert(a =~= b);
        }
        assert(index_lists_view(x@) =~= index_lists_view(v@));
    }
}

/// A precomputation reads back.
proof fn lemma_precomp_item<'a>(v: PrecompItem<'a>, params: &Params)
    requires
        v.0.wf(),
        *v.0.params == *params,
        all_wf(v.1@, params),
        v.encoded().len() <= u64::MAX,
    ensures
        <PrecompItem<'a>>::decodable_with(v.encoded(), params),
        forall|x: PrecompItem<'a>|
            x.decoded_with(v.encoded(), params) ==> #[trigger] precomp_item_view(x)
                == precomp_item_view(v),
{
    lemma_auto_spec_u64_to_from_le_bytes();
    let data = v.encoded();
    let (a, b, c) = (v.0.encoded(), v.1.encoded(), v.2.encoded());
    assert(spec_u64_to_le_bytes(a.len() as u64).len() == 8);
    assert(spec_u64_to_le_bytes(b.len() as u64).len() == 8);
    assert(data.subrange(0, 8) =~= be64(a.len() as u64));
    lemma_be64_reads(data, 0, a.len() as u64);
    assert(first_bytes(data) =~= a);
    let d = bytes_behind_first(data);
    assert(d =~= be64(b.len() as u64) + b + c);
    assert(d.subrange(0, 8) =~= be64(b.len() as u64));
    lemma_be64_reads(d, 0, b.len() as u64);
    assert(first_bytes(d) =~= b);
    assert(bytes_behind_first(d) =~= c);
    assert(b =~= list_bytes(v.1@, Seq::empty()));
    assert(c =~= list_bytes(v.2@, Seq::empty()));
    matrix_round_trip(v.0, v.0, *params);
    lemma_matrices(v.1, Seq::empty(), params);
    lemma_tables(v.2, Seq::empty(), params);
    assert forall|x: PrecompItem<'a>| x.decoded_with(data, params) implies
        #[trigger] precomp_item_view(x) == precomp_item_view(v) by {
        matrix_round_trip(v.0, x.0, *params);
        assert(matrices_view(x.1@) == matrices_view(v.1@));
        assert(index_lists_view(x.2@) == index_lists_view(v.2@));
    }
}

/// A list of precomputations reads back.
proof fn lemma_precomp<'a>(v: Precomp<'a>, rest: Seq<u8>, params: &Params)
    requires
        forall|i: int|
            0 <= i < v@.len() ==> (#[trigger] v@[i]).0.wf() && *v@[i].0.params == *params
                && all_wf(v@[i].1@, params),
        enc_items(v@).len() <= u64::MAX,
    ensures
        <Precomp<'a>>::decodable_with(list_bytes(v@, rest), params),
        forall|x: Precomp<'a>|
            x.decoded_with(list_bytes(v@, rest), params) ==> #[trigger] precomp_view(x@)
                == precomp_view(v@),
{
    let data = list_bytes(v@, rest);
    lemma_list(v@, rest);
    assert forall|i: int| 0 <= i < v@.len() implies #[trigger] item_inside(data, i)
        && <PrecompItem<'a>>::decodable_with(item_bytes(data, i), params) by {
        lemma_item_len(v@, i);
        lemma_precomp_item(v@[i], params);
    }
    assert forall|x: Precomp<'a>| x.decoded_with(data, params) implies #[trigger] precomp_view(x@)
        == precomp_view(v@) by {
        assert forall|i: int| 0 <= i < v@.len() implies precomp_item_view(x@[i])
            == precomp_item_view(v@[i]) by {
            assert(x@[i].decoded_with(item_bytes(data, i), params));
            lemma_item_len(v@, i);
            lemma_precomp_item(v@[i], params);
        }
        assert(precomp_view(x@) =~= precomp_view(v@));
    }
}

/// The plain byte form of precomputed values reads back, for values whose first
/// hint has the length that the parameters give and whose second is empty.
#[verifier::rlimit(60)]
pub proof fn byte_form_reads_back<'a>(
    v: OfflinePrecomputedValues<'a>,
    x: OfflinePrecomputedValues<'a>,
    params: &Params,
)
    requires
        v.smaller_server is None,
        8 * v.hint_0@.len() == hint_bytes(params),
        v.hint_1@.len() == 0,
        all_belong(v, params),
        v.encoded().len() <= u64::MAX,
    ensures
        <OfflinePrecomputedValues<'a>>::decodable_with(v.encoded(), params),
        x.decoded_with(v.encoded(), params) ==> offline_view(x) == offline_view(v),
{
    let data = v.encoded();
    let h = enc_words(v.hint_0@);
    let e5 = v.precomp.encoded();
    let e4 = v.fake_pack_pub_params.encoded() + e5;
    let e3 = v.prepacked_lwe.encoded() + e4;
    let e2 = v.y_constants.1.encoded() + e3;
    let e1 = v.y_constants.0.encoded() + e2;
    let e0 = v.pseudorandom_query_1.encoded() + e1;
    assert(enc_words(v.hint_1@) =~= Seq::empty());
    assert(data =~= h + e0);
    reveal_with_fuel(section, 7);
    assert(section(data, params, 0) =~= e0);
    assert(data.subrange(0, hint_bytes(params)) =~= h);
    words_round_trip(v.hint_0@);
    assert(e0 =~= list_bytes(v.pseudorandom_query_1@, e1));
    lemma_matrices(v.pseudorandom_query_1, e1, params);
    lemma_list(v.pseudorandom_query_1@, e1);
    assert(section(data, params, 1) == e1);
    assert(e1 =~= list_bytes(v.y_constants.0@, e2));
    lemma_matrices(v.y_constants.0, e2, params);
    lemma_list(v.y_constants.0@, e2);
    assert(section(data, params, 2) == e2);
    assert(e2 =~= list_bytes(v.y_constants.1@, e3));
    lemma_matrices(v.y_constants.1, e3, params);
    lemma_list(v.y_constants.1@, e3);
    assert(section(data, params, 3) == e3);
    assert(e3 =~= list_bytes(v.prepacked_lwe@, e4));
    lemma_matrix_lists(v.prepacked_lwe, e4, params);
    lemma_list(v.prepacked_lwe@, e4);
    assert(section(data, params, 4) == e4);
    assert(e4 =~= list_bytes(v.fake_pack_pub_params@, e5));
    lemma_matrices(v.fake_pack_pub_params, e5, params);
    lemma_list(v.fake_pack_pub_params@, e5);
    assert(section(data, params, 5) == e5);
    assert(e5 =~= list_bytes(v.precomp@, Seq::empty()));
    lemma_precomp(v.precomp, Seq::empty(), params);
    if x.decoded_with(data, params) {
        assert(x.hint_1@ =~= v.hint_1@);
        assert(matrices_view(x.pseudorandom_query_1@) == matrices_view(v.pseudorandom_query_1@));
        assert(matrices_view(x.y_constants.0@) == matrices_view(v.y_constants.0@));
        assert(matrices_view(x.y_constants.1@) == matrices_view(v.y_constants.1@));
        assert(matrix_lists_view(x.prepacked_lwe@) == matrix_lists_view(v.prepacked_lwe@));
        assert(matrices_view(x.fake_pack_pub_params@) == matrices_view(v.fake_pack_pub_params@));
        assert(precomp_view(x.precomp@) == precomp_view(v.precomp@));
    }
}

/// The bytes of a query of the one-level scheme are its words and then its
/// packing keys, and the words of both read back.
pub proof fn simple_query_reads_back(q: YPIRSimpleQuery)
    ensures
        ({
            let bytes = q.encoded();
            let n = 8 * words(q.0).len() as int;
            &&& bytes.len() == n + 8 * words(q.1).len()
            &&& dec_u64s(bytes.subrange(0, n)) == words(q.0)
            &&& dec_u64s(bytes.subrange(n, bytes.len() as int)) == words(q.1)
        }),
{
    let bytes = q.encoded();
    let (a, b) = (enc_words(words(q.0)), enc_words(words(q.1)));
    let n = 8 * words(q.0).len() as int;
    assert(bytes.subrange(0, n) =~= a);
    assert(bytes.subrange(n, bytes.len() as int) =~= b);
    words_round_trip(words(q.0));
    words_round_trip(words(q.1));
}

/// The bytes of a query of the two-level scheme are its row part, its column part
/// and its packing keys, and the words of all three read back.
pub proof fn query_reads_back(q: YPIRQuery)
    ensures
        ({
            let bytes = q.encoded();
            let n = 4 * q.0@.len() as int;
            let m = n + 8 * words(q.1).len();
            &&& bytes.len() == m + 8 * words(q.2).len()
            &&& dec_u32s(bytes.subrange(0, n)) == q.0@
            &&& dec_u64s(bytes.subrange(n, m)) == words(q.1)
            &&& dec_u64s(bytes.subrange(m, bytes.len() as int)) == words(q.2)
        }),
{
    let bytes = q.encoded();
    let a = enc_u32s(q.0@);
    let (b, c) = (enc_words(words(q.1)), enc_words(words(q.2)));
    let n = 4 * q.0@.len() as int;
    let m = n + 8 * words(q.1).len();
    assert(bytes.subrange(0, n) =~= a);
    assert(bytes.subrange(n, m) =~= b);
    assert(bytes.subrange(m, bytes.len() as int) =~= c);
    u32s_round_trip(q.0@);
    words_round_trip(words(q.1));
    words_round_trip(words(q.2));
}

/// The bytes of a word, each times its weight, add up to the word, lowest first.
pub proof fn word_bytes_are_its_digits(x: u64, b: Seq<u8>)
    requires
        b == enc_words(seq![x]),
    ensures
        b.len() == 8,
        x == b[0] + 0x100 * b[1] + 0x1_0000 * b[2] + 0x100_0000 * b[3] + 0x1_0000_0000 * b[4]
            + 0x100_0000_0000 * b[5] + 0x1_0000_0000_0000 * b[6] + 0x100_0000_0000_0000 * b[7],
{
    let le = spec_u64_to_le_bytes(x);
    spec_u64_to_le_bytes_to_open(x);
    assert(b =~= le) by {
        assert forall|k: int| 0 <= k < 8 implies b[k] == le[k] by {
            assert(seq![x][k / 8] == x);
        }
    }
    assert(x == (x & 0xff) + 0x100 * ((x >> 8) & 0xff) + 0x1_0000 * ((x >> 16) & 0xff)
        + 0x100_0000 * ((x >> 24) & 0xff) + 0x1_0000_0000 * ((x >> 32) & 0xff) + 0x100_0000_0000 * ((
    x >> 40) & 0xff) + 0x1_0000_0000_0000 * ((x >> 48) & 0xff) + 0x100_0000_0000_0000 * ((x >> 56)
        & 0xff)) by (bit_vector);
    assert((x & 0xff) < 256 && ((x >> 8) & 0xff) < 256 && ((x >> 16) & 0xff) < 256 && ((x >> 24)
        & 0xff) < 256 && ((x >> 32) & 0xff) < 256 && ((x >> 40) & 0xff) < 256 && ((x >> 48) & 0xff)
        < 256 && ((x >> 56) & 0xff) < 256) by (bit_vector);
}

/// A matrix in the plain byte form: its rows and its columns, most significant
/// byte first, and then its words.
pub proof fn matrix_bytes_are_laid_out(m: PolyMatrixNTT)
    ensures
        m.encoded().len() == 16 + 8 * m.data@.len(),
        be64_at(m.encoded(), 0) == m.rows,
        be64_at(m.encoded(), 8) == m.cols,
        m.encoded().subrange(16, m.encoded().len() as int) == enc_words(m.data@),
{
    lemma_auto_spec_u64_to_from_le_bytes();
    let data = m.encoded();
    let (a, b) = (be64(m.rows as u64), be64(m.cols as u64));
    assert(spec_u64_to_le_bytes(m.rows as u64).len() == 8);
    assert(spec_u64_to_le_bytes(m.cols as u64).len() == 8);
    assert(a.len() == 8 && b.len() == 8);
    assert(data.subrange(0, 8) =~= a);
    assert(data.subrange(8, 16) =~= b);
    lemma_be64_reads(data, 0, m.rows as u64);
    lemma_be64_reads(data, 8, m.cols as u64);
    assert(data.subrange(16, data.len() as int) =~= enc_words(m.data@));
}

/// A matrix in the cached form: its rows and its columns in four bytes each,
/// least significant byte first, and then its words.
pub proof fn cached_matrix_is_laid_out(m: MatrixView)
    requires
        m.rows <= u32::MAX,
        m.cols <= u32::MAX,
        0 <= m.rows,
        0 <= m.cols,
    ensures
        enc_matrix(m).len() == 8 + 8 * m.data.len(),
        spec_u32_from_le_bytes(enc_matrix(m).subrange(0, 4)) == m.rows,
        spec_u32_from_le_bytes(enc_matrix(m).subrange(4, 8)) == m.cols,
        enc_matrix(m).subrange(8, enc_matrix(m).len() as int) == enc_words(m.data),
{
    lemma_auto_spec_u32_to_from_le_bytes();
    let data = enc_matrix(m);
    let (a, b) = (spec_u32_to_le_bytes(m.rows as u32), spec_u32_to_le_bytes(m.cols as u32));
    assert(a.len() == 4 && b.len() == 4);
    assert(data.subrange(0, 4) =~= a);
    assert(data.subrange(4, 8) =~= b);
    assert(data.subrange(8, data.len() as int) =~= enc_words(m.data));
}

/// The plain byte form of precomputed values is that of the fields in turn.
pub proof fn offline_bytes_are_laid_out(v: OfflinePrecomputedValues)
    ensures
        v.encoded() == enc_words(v.hint_0@) + enc_words(v.hint_1@)
            + v.pseudorandom_query_1.encoded() + v.y_constants.0.encoded()
            + v.y_constants.1.encoded() + v.prepacked_lwe.encoded()
            + v.fake_pack_pub_params.encoded() + v.precomp.encoded(),
{
}

} // verus!
