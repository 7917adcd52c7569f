//! Precomputed values read from their plain byte form.
//!
//! The byte form is for bytes that this library wrote itself. It starts with the
//! words of the first hint, whose number the parameters give, and goes on with
//! lists that say their own lengths.
use crate::cache::Precomp;
use crate::offline::OfflinePrecomputedValues;
use crate::params::Params;
use crate::poly::PolyMatrixNTT;
use crate::to_bytes::{
    be64_at, dec_u64s, item_inside, item_start, read_u64_be, read_words, FromBytesParams,
};
use vstd::prelude::*;

verus! {

/// The number of items of a list, and the items themselves, lie inside `data`.
pub open spec fn list_inside(data: Seq<u8>) -> bool {
    &&& 8 <= data.len()
    &&& forall|i: int| 0 <= i < be64_at(data, 0) ==> #[trigger] item_inside(data, i)
}

/// What follows a list.
pub open spec fn behind_list(data: Seq<u8>) -> Seq<u8> {
    data.subrange(item_start(data, be64_at(data, 0) as int), data.len() as int)
}

/// The end of a list lies inside the bytes.
proof fn lemma_list_end(data: Seq<u8>)
    requires
        list_inside(data),
    ensures
        8 <= item_start(data, be64_at(data, 0) as int) <= data.len(),
{
    let n = be64_at(data, 0) as int;
    if n > 0 {
        assert(item_inside(data, n - 1));
        lemma_start_grows(data, n);
    }
}

/// Items start behind the number of them.
proof fn lemma_start_grows(data: Seq<u8>, i: int)
    ensures
        item_start(data, i) >= 8,
    decreases i,
{
    if i > 0 {
        lemma_start_grows(data, i - 1);
    }
}

/// Skips a list.
fn skip_list(data: &[u8]) -> (r: &[u8])
    requires
        list_inside(data@),
    ensures
        r@ == behind_list(data@),
{
    let count: u64 = read_u64_be(data, 0);
    let total: usize = data.len();
    let mut pos: usize = 8;
    let mut i: u64 = 0;
    while i < count
        invariant
            total == data@.len(),
            count == be64_at(data@, 0),
            i <= count,
            pos == item_start(data@, i as int),
            list_inside(data@),
        decreases count - i,
    {
        assert(item_inside(data@, i as int));
        let item_len: usize = read_u64_be(data, pos) as usize;
        pos = pos + 8 + item_len;
        i = i + 1;
    }
    proof {
        lemma_list_end(data@);
    }
    vstd::slice::slice_subrange(data, pos, total)
}

/// The bytes of the first hint.
pub open spec fn hint_bytes(params: &Params) -> int {
    8 * (params.poly_len * (params.instances * params.poly_len))
}

/// What follows the first hint, and then each list.
pub open spec fn section(data: Seq<u8>, params: &Params, k: int) -> Seq<u8>
    decreases k,
{
    if k <= 0 {
        data.subrange(hint_bytes(params), data.len() as int)
    } else {
        behind_list(section(data, params, k - 1))
    }
}

impl<'a> FromBytesParams<'a> for OfflinePrecomputedValues<'a> {
    open spec fn decodable_with(data: Seq<u8>, params: &Params) -> bool {
        &&& hint_bytes(params) <= data.len()
        &&& <Vec<PolyMatrixNTT<'a>>>::decodable_with(section(data, params, 0), params)
        &&& <Vec<PolyMatrixNTT<'a>>>::decodable_with(section(data, params, 1), params)
        &&& <Vec<PolyMatrixNTT<'a>>>::decodable_with(section(data, params, 2), params)
        &&& <Vec<Vec<PolyMatrixNTT<'a>>>>::decodable_with(section(data, params, 3), params)
        &&& <Vec<PolyMatrixNTT<'a>>>::decodable_with(section(data, params, 4), params)
        &&& <Precomp<'a>>::decodable_with(section(data, params, 5), params)
    }

    open spec fn decoded_with(&self, data: Seq<u8>, params: &Params) -> bool {
        &&& self.hint_0@ == dec_u64s(data.subrange(0, hint_bytes(params)))
        &&& self.hint_1@ == Seq::<u64>::empty()
        &&& self.pseudorandom_query_1.decoded_with(section(data, params, 0), params)
        &&& self.y_constants.0.decoded_with(section(data, params, 1), params)
        &&& self.y_constants.1.decoded_with(section(data, params, 2), params)
        &&& self.smaller_server is None
        &&& self.prepacked_lwe.decoded_with(section(data, params, 3), params)
        &&& self.fake_pack_pub_params.decoded_with(section(data, params, 4), params)
        &&& self.precomp.decoded_with(section(data, params, 5), params)
    }

    fn from_bytes(data: &[u8], params: &'a Params) -> (r: Self) {
        let total: usize = data.len();
        proof {
            let (n, k) = (params.poly_len as int, params.instances as int);
            assert(0 <= k * n <= usize::MAX && 0 <= n * (k * n) && (n == 0 || k * n <= n * (k * n)))
                by (nonlinear_arith)
                requires
                    0 <= n <= usize::MAX,
                    0 <= k,
                    8 * (n * (k * n)) <= usize::MAX,
            ;
        }
        let words: usize = params.poly_len * (params.instances * params.poly_len);
        let first: &[u8] = vstd::slice::slice_subrange(data, 0, 8 * words);
        let hint_0: Vec<u64> = read_words(first);
        let s0: &[u8] = vstd::slice::slice_subrange(data, 8 * words, total);
        let pseudorandom_query_1: Vec<PolyMatrixNTT<'a>> = FromBytesParams::from_bytes(s0, params);
        let s1: &[u8] = skip_list(s0);
        reveal_with_fuel(section, 7);
        let y_constants_0: Vec<PolyMatrixNTT<'a>> = FromBytesParams::from_bytes(s1, params);
        let s2: &[u8] = skip_list(s1);
        let y_constants_1: Vec<PolyMatrixNTT<'a>> = FromBytesParams::from_bytes(s2, params);
        let s3: &[u8] = skip_list(s2);
        let prepacked_lwe: Vec<Vec<PolyMatrixNTT<'a>>> = FromBytesParams::from_bytes(s3, params);
        let s4: &[u8] = skip_list(s3);
        let fake_pack_pub_params: Vec<PolyMatrixNTT<'a>> = FromBytesParams::from_bytes(s4, params);
        let s5: &[u8] = skip_list(s4);
        let precomp: Precomp<'a> = FromBytesParams::from_bytes(s5, params);
        OfflinePrecomputedValues {
            hint_0,
            hint_1: Vec::new(),
            pseudorandom_query_1,
            y_constants: (y_constants_0, y_constants_1),
            smaller_server: None,
            prepacked_lwe,
            fake_pack_pub_params,
            precomp,
        }
    }
}

} // verus!
