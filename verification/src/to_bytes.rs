//! Byte forms of queries, matrices and precomputed values, for bytes that stay
//! inside one process or come from a trusted peer.
use crate::aligned::{aligned_from_slice, aligned_slice, words, AlignedMemory64};
use crate::cache::{enc_words, word_at};
use crate::offline::{write_u64_le, write_u64_slice, OfflinePrecomputedValues};
use crate::params::Params;
use crate::poly::PolyMatrixNTT;
use vstd::bytes::*;
use vstd::prelude::*;

verus! {

/// The query of the two-level scheme: the row query, the column query and the
/// packing keys.
pub type YPIRQuery = (Vec<u32>, AlignedMemory64, AlignedMemory64);

/// The query of the one-level scheme: the row query and the packing keys.
pub type YPIRSimpleQuery = (AlignedMemory64, AlignedMemory64);

/// The bytes of a number, most significant first.
pub open spec fn be64(x: u64) -> Seq<u8> {
    spec_u64_to_le_bytes(x).reverse()
}

/// The number whose bytes stand at `pos`, most significant first.
pub open spec fn be64_at(data: Seq<u8>, pos: int) -> u64 {
    spec_u64_from_le_bytes(data.subrange(pos, pos + 8).reverse())
}

/// The bytes of numbers of four bytes.
pub open spec fn enc_u32s(s: Seq<u32>) -> Seq<u8> {
    Seq::new(4 * s.len(), |k: int| spec_u32_to_le_bytes(s[k / 4])[k % 4])
}

/// Appends `x`, most significant byte first.
fn write_u64_be(out: &mut Vec<u8>, x: u64)
    ensures
        final(out)@ == old(out)@ + be64(x),
        be64(x).len() == 8,
{
    let le: Vec<u8> = u64_to_le_bytes(x);
    let ghost before = out@;
    let mut i: usize = 8;
    while i > 0
        invariant
            i <= 8,
            le@.len() == 8,
            le@ == spec_u64_to_le_bytes(x),
            out@ == before + le@.reverse().subrange(0, 8 - i),
        decreases i,
    {
        i = i - 1;
        out.push(le[i]);
        assert(out@ =~= before + le@.reverse().subrange(0, 8 - i));
    }
    assert(le@.reverse().subrange(0, 8) =~= le@.reverse());
}

/// Reads the number at `pos`, most significant byte first.
pub(crate) fn read_u64_be(data: &[u8], pos: usize) -> (r: u64)
    requires
        pos + 8 <= data@.len(),
    ensures
        r == be64_at(data@, pos as int),
{
    let len: usize = data.len();
    let mut le: Vec<u8> = Vec::new();
    let mut i: usize = 8;
    while i > 0
        invariant
            i <= 8,
            len == data@.len(),
            pos + 8 <= len,
            le@ == data@.subrange(pos as int, pos + 8).reverse().subrange(0, 8 - i),
        decreases i,
    {
        i = i - 1;
        le.push(data[pos + i]);
        assert(le@ =~= data@.subrange(pos as int, pos + 8).reverse().subrange(0, 8 - i));
    }
    assert(le@ =~= data@.subrange(pos as int, pos + 8).reverse());
    u64_from_le_bytes(le.as_slice())
}

/// A number reads back from its bytes.
pub proof fn lemma_be64_reads(data: Seq<u8>, pos: int, x: u64)
    requires
        0 <= pos,
        pos + 8 <= data.len(),
        data.subrange(pos, pos + 8) == be64(x),
    ensures
        be64_at(data, pos) == x,
{
    lemma_auto_spec_u64_to_from_le_bytes();
    assert(be64(x).reverse() =~= spec_u64_to_le_bytes(x));
}

/// A value with a byte form.
pub trait ToBytes {
    /// The value has a byte form.
    spec fn encodable(&self) -> bool;

    /// The byte form.
    spec fn encoded(&self) -> Seq<u8>;

    fn to_bytes(&self) -> (r: Vec<u8>)
        requires
            self.encodable(),
        ensures
            r@ == self.encoded(),
    ;
}

/// A value that its byte form alone describes.
pub trait FromBytes: Sized {
    /// The bytes describe a value.
    spec fn decodable(data: Seq<u8>) -> bool;

    /// The value is the one that the bytes describe.
    spec fn decoded_from(&self, data: Seq<u8>) -> bool;

    fn from_bytes(data: &[u8]) -> (r: Self)
        requires
            Self::decodable(data@),
        ensures
            r.decoded_from(data@),
    ;
}

/// A value that its byte form describes together with a parameter set.
pub trait FromBytesParams<'a>: Sized {
    /// The bytes describe a value.
    spec fn decodable_with(data: Seq<u8>, params: &Params) -> bool;

    /// The value is the one that the bytes describe.
    spec fn decoded_with(&self, data: Seq<u8>, params: &Params) -> bool;

    fn from_bytes(data: &[u8], params: &'a Params) -> (r: Self)
        requires
            Self::decodable_with(data@, params),
        ensures
            r.decoded_with(data@, params),
    ;
}

/// Appends numbers of four bytes.
fn write_u32_slice(out: &mut Vec<u8>, s: &[u32])
    ensures
        final(out)@ == old(out)@ + enc_u32s(s@),
{
    let ghost before = out@;
    let mut i: usize = 0;
    assert(out@ =~= before + enc_u32s(s@.subrange(0, 0)));
    while i < s.len()
        invariant
            i <= s@.len(),
            out@ == before + enc_u32s(s@.subrange(0, i as int)),
        decreases s@.len() - i,
    {
        let mut bytes: Vec<u8> = u32_to_le_bytes(s[i]);
        out.append(&mut bytes);
        proof {
            lemma_auto_spec_u32_to_from_le_bytes();
            assert(spec_u32_to_le_bytes(s@[i as int]).len() == 4);
            assert(out@ =~= before + enc_u32s(s@.subrange(0, i + 1)));
        }
        i = i + 1;
    }
    assert(s@.subrange(0, s@.len() as int) =~= s@);
}

impl ToBytes for &[u32] {
    open spec fn encodable(&self) -> bool {
        true
    }

    open spec fn encoded(&self) -> Seq<u8> {
        enc_u32s(self@)
    }

    fn to_bytes(&self) -> (r: Vec<u8>) {
        let mut out: Vec<u8> = Vec::new();
        write_u32_slice(&mut out, *self);
        assert(out@ =~= enc_u32s(self@));
        out
    }
}

impl ToBytes for &[u64] {
    open spec fn encodable(&self) -> bool {
        true
    }

    open spec fn encoded(&self) -> Seq<u8> {
        enc_words(self@)
    }

    fn to_bytes(&self) -> (r: Vec<u8>) {
        let mut out: Vec<u8> = Vec::new();
        write_u64_slice(&mut out, *self);
        assert(out@ =~= enc_words(self@));
        out
    }
}

impl ToBytes for YPIRQuery {
    open spec fn encodable(&self) -> bool {
        true
    }

    open spec fn encoded(&self) -> Seq<u8> {
        enc_u32s(self.0@) + enc_words(words(self.1)) + enc_words(words(self.2))
    }

    fn to_bytes(&self) -> (r: Vec<u8>) {
        let mut out: Vec<u8> = Vec::new();
        write_u32_slice(&mut out, self.0.as_slice());
        write_u64_slice(&mut out, aligned_slice(&self.1));
        write_u64_slice(&mut out, aligned_slice(&self.2));
        assert(out@ =~= enc_u32s(self.0@) + enc_words(words(self.1)) + enc_words(words(self.2)));
        out
    }
}

impl ToBytes for YPIRSimpleQuery {
    open spec fn encodable(&self) -> bool {
        true
    }

    open spec fn encoded(&self) -> Seq<u8> {
        enc_words(words(self.0)) + enc_words(words(self.1))
    }

    fn to_bytes(&self) -> (r: Vec<u8>) {
        let mut out: Vec<u8> = Vec::new();
        write_u64_slice(&mut out, aligned_slice(&self.0));
        write_u64_slice(&mut out, aligned_slice(&self.1));
        assert(out@ =~= enc_words(words(self.0)) + enc_words(words(self.1)));
        out
    }
}

/// Indices as words.
pub open spec fn index_words(s: Seq<usize>) -> Seq<u64> {
    Seq::new(s.len(), |i: int| s[i] as u64)
}

impl ToBytes for Vec<usize> {
    open spec fn encodable(&self) -> bool {
        true
    }

    open spec fn encoded(&self) -> Seq<u8> {
        enc_words(index_words(self@))
    }

    fn to_bytes(&self) -> (r: Vec<u8>) {
        let mut out: Vec<u8> = Vec::new();
        let mut i: usize = 0;
        assert(out@ =~= enc_words(index_words(self@).subrange(0, 0)));
        while i < self.len()
            invariant
                i <= self@.len(),
                out@ == enc_words(index_words(self@).subrange(0, i as int)),
            decreases self@.len() - i,
        {
            write_u64_le(&mut out, self[i] as u64);
            proof {
                let p = index_words(self@).subrange(0, i as int);
                crate::offline::lemma_enc_words_push(p, self@[i as int] as u64);
                assert(index_words(self@).subrange(0, i + 1) =~= p.push(self@[i as int] as u64));
            }
            i = i + 1;
        }
        assert(index_words(self@).subrange(0, self@.len() as int) =~= index_words(self@));
        out
    }
}

impl<'a> ToBytes for PolyMatrixNTT<'a> {
    open spec fn encodable(&self) -> bool {
        true
    }

    open spec fn encoded(&self) -> Seq<u8> {
        be64(self.rows as u64) + be64(self.cols as u64) + enc_words(self.data@)
    }

    fn to_bytes(&self) -> (r: Vec<u8>) {
        let mut out: Vec<u8> = Vec::new();
        write_u64_be(&mut out, self.rows as u64);
        write_u64_be(&mut out, self.cols as u64);
        write_u64_slice(&mut out, self.data.as_slice());
        assert(out@ =~= be64(self.rows as u64) + be64(self.cols as u64) + enc_words(self.data@));
        out
    }
}

/// The bytes of values, each behind the length of its bytes.
pub open spec fn enc_items<T: ToBytes>(s: Seq<T>) -> Seq<u8>
    decreases s.len(),
{
    if s.len() == 0 {
        Seq::empty()
    } else {
        enc_items(s.drop_last()) + be64(s.last().encoded().len() as u64) + s.last().encoded()
    }
}

impl<T: ToBytes> ToBytes for Vec<T> {
    open spec fn encodable(&self) -> bool {
        forall|i: int| 0 <= i < self@.len() ==> (#[trigger] self@[i]).encodable()
    }

    open spec fn encoded(&self) -> Seq<u8> {
        be64(self@.len() as u64) + enc_items(self@)
    }

    fn to_bytes(&self) -> (r: Vec<u8>) {
        let mut out: Vec<u8> = Vec::new();
        write_u64_be(&mut out, self.len() as u64);
        let ghost head = out@;
        let mut i: usize = 0;
        assert(self@.subrange(0, 0) =~= Seq::empty());
        assert(out@ =~= head + enc_items(self@.subrange(0, 0)));
        while i < self.len()
            invariant
                i <= self@.len(),
                self.encodable(),
                out@ == head + enc_items(self@.subrange(0, i as int)),
            decreases self@.len() - i,
        {
            let mut item: Vec<u8> = self[i].to_bytes();
            let ghost bytes = item@;
            write_u64_be(&mut out, item.len() as u64);
            out.append(&mut item);
            proof {
                let p = self@.subrange(0, i + 1);
                assert(p.drop_last() =~= self@.subrange(0, i as int));
                assert(out@ =~= head + enc_items(p));
            }
            i = i + 1;
        }
        assert(self@.subrange(0, self@.len() as int) =~= self@);
        assert(out@ =~= be64(self@.len() as u64) + enc_items(self@));
        out
    }
}

impl<T1: ToBytes, T2: ToBytes> ToBytes for (T1, T2) {
    open spec fn encodable(&self) -> bool {
        self.0.encodable() && self.1.encodable()
    }

    open spec fn encoded(&self) -> Seq<u8> {
        be64(self.0.encoded().len() as u64) + self.0.encoded() + self.1.encoded()
    }

    fn to_bytes(&self) -> (r: Vec<u8>) {
        let mut out: Vec<u8> = Vec::new();
        let mut item1: Vec<u8> = self.0.to_bytes();
        let mut item2: Vec<u8> = self.1.to_bytes();
        write_u64_be(&mut out, item1.len() as u64);
        out.append(&mut item1);
        out.append(&mut item2);
        assert(out@ =~= be64(self.0.encoded().len() as u64) + self.0.encoded() + self.1.encoded());
        out
    }
}

impl<T1: ToBytes, T2: ToBytes, T3: ToBytes> ToBytes for (T1, T2, T3) {
    open spec fn encodable(&self) -> bool {
        self.0.encodable() && self.1.encodable() && self.2.encodable()
    }

    open spec fn encoded(&self) -> Seq<u8> {
        be64(self.0.encoded().len() as u64) + self.0.encoded() + be64(
            self.1.encoded().len() as u64,
        ) + self.1.encoded() + self.2.encoded()
    }

    fn to_bytes(&self) -> (r: Vec<u8>) {
        let mut out: Vec<u8> = Vec::new();
        let mut item1: Vec<u8> = self.0.to_bytes();
        let mut item2: Vec<u8> = self.1.to_bytes();
        let mut item3: Vec<u8> = self.2.to_bytes();
        write_u64_be(&mut out, item1.len() as u64);
        out.append(&mut item1);
        write_u64_be(&mut out, item2.len() as u64);
        out.append(&mut item2);
        out.append(&mut item3);
        assert(out@ =~= be64(self.0.encoded().len() as u64) + self.0.encoded() + be64(
            self.1.encoded().len() as u64,
        ) + self.1.encoded() + self.2.encoded());
        out
    }
}

impl<'a> ToBytes for OfflinePrecomputedValues<'a> {
    open spec fn encodable(&self) -> bool {
        self.smaller_server is None
    }

    open spec fn encoded(&self) -> Seq<u8> {
        enc_words(self.hint_0@) + enc_words(self.hint_1@) + self.pseudorandom_query_1.encoded()
            + self.y_constants.0.encoded() + self.y_constants.1.encoded()
            + self.prepacked_lwe.encoded() + self.fake_pack_pub_params.encoded()
            + self.precomp.encoded()
    }

    fn to_bytes(&self) -> (r: Vec<u8>) {
        let mut out: Vec<u8> = Vec::new();
        write_u64_slice(&mut out, self.hint_0.as_slice());
        write_u64_slice(&mut out, self.hint_1.as_slice());
        let mut part: Vec<u8> = self.pseudorandom_query_1.to_bytes();
        out.append(&mut part);
        let mut part: Vec<u8> = self.y_constants.0.to_bytes();
        out.append(&mut part);
        let mut part: Vec<u8> = self.y_constants.1.to_bytes();
        out.append(&mut part);
        let mut part: Vec<u8> = self.prepacked_lwe.to_bytes();
        out.append(&mut part);
        let mut part: Vec<u8> = self.fake_pack_pub_params.to_bytes();
        out.append(&mut part);
        let mut part: Vec<u8> = self.precomp.to_bytes();
        out.append(&mut part);
        assert(out@ =~= enc_words(self.hint_0@) + enc_words(self.hint_1@)
            + self.pseudorandom_query_1.encoded() + self.y_constants.0.encoded()
            + self.y_constants.1.encoded() + self.prepacked_lwe.encoded()
            + self.fake_pack_pub_params.encoded() + self.precomp.encoded());
        out
    }
}

/// The numbers of four bytes that `data` holds.
pub open spec fn dec_u32s(data: Seq<u8>) -> Seq<u32> {
    Seq::new(data.len() / 4, |i: int| spec_u32_from_le_bytes(data.subrange(4 * i, 4 * i + 4)))
}

/// The words that `data` holds.
pub open spec fn dec_u64s(data: Seq<u8>) -> Seq<u64> {
    Seq::new(data.len() / 8, |i: int| word_at(data, 8 * i))
}

/// Reads as many whole words as `data` holds.
pub fn read_words(data: &[u8]) -> (r: Vec<u64>)
    ensures
        r@ == dec_u64s(data@),
{
    let len: usize = data.len();
    let count: usize = len / 8;
    let mut out: Vec<u64> = Vec::new();
    let mut i: usize = 0;
    while i < count
        invariant
            len == data@.len(),
            count == len / 8,
            i <= count,
            out@.len() == i,
            forall|k: int| 0 <= k < i ==> #[trigger] out@[k] == word_at(data@, 8 * k),
        decreases count - i,
    {
        out.push(u64_from_le_bytes(vstd::slice::slice_subrange(data, 8 * i, 8 * i + 8)));
        i = i + 1;
    }
    assert(out@ =~= dec_u64s(data@));
    out
}

impl FromBytes for Vec<u32> {
    open spec fn decodable(data: Seq<u8>) -> bool {
        data.len() % 4 == 0
    }

    open spec fn decoded_from(&self, data: Seq<u8>) -> bool {
        self@ == dec_u32s(data)
    }

    fn from_bytes(data: &[u8]) -> (r: Self) {
        let len: usize = data.len();
        let count: usize = len / 4;
        let mut out: Vec<u32> = Vec::new();
        let mut i: usize = 0;
        while i < count
            invariant
                len == data@.len(),
                count == len / 4,
                i <= count,
                out@.len() == i,
                forall|k: int| 0 <= k < i ==> #[trigger] out@[k] == dec_u32s(data@)[k],
            decreases count - i,
        {
            out.push(u32_from_le_bytes(vstd::slice::slice_subrange(data, 4 * i, 4 * i + 4)));
            i = i + 1;
        }
        assert(out@ =~= dec_u32s(data@));
        out
    }
}

impl FromBytes for Vec<u64> {
    open spec fn decodable(data: Seq<u8>) -> bool {
        data.len() % 8 == 0
    }

    open spec fn decoded_from(&self, data: Seq<u8>) -> bool {
        self@ == dec_u64s(data)
    }

    fn from_bytes(data: &[u8]) -> (r: Self) {
        read_words(data)
    }
}

impl FromBytes for AlignedMemory64 {
    open spec fn decodable(data: Seq<u8>) -> bool {
        data.len() % 8 == 0 && 0 < data.len() <= isize::MAX - 64
    }

    open spec fn decoded_from(&self, data: Seq<u8>) -> bool {
        words(*self) == dec_u64s(data)
    }

    fn from_bytes(data: &[u8]) -> (r: Self) {
        let v: Vec<u64> = read_words(data);
        aligned_from_slice(v.as_slice())
    }
}

impl<'a> FromBytesParams<'a> for Vec<usize> {
    open spec fn decodable_with(data: Seq<u8>, params: &Params) -> bool {
        &&& data.len() % 8 == 0
        &&& forall|i: int| 0 <= i < data.len() / 8 ==> #[trigger] dec_u64s(data)[i] <= usize::MAX
    }

    open spec fn decoded_with(&self, data: Seq<u8>, params: &Params) -> bool {
        index_words(self@) == dec_u64s(data)
    }

    fn from_bytes(data: &[u8], params: &'a Params) -> (r: Self) {
        let v: Vec<u64> = read_words(data);
        let mut out: Vec<usize> = Vec::new();
        let mut i: usize = 0;
        while i < v.len()
            invariant
                i <= v@.len(),
                v@ == dec_u64s(data@),
                <Vec<usize> as FromBytesParams>::decodable_with(data@, params),
                out@.len() == i,
                forall|k: int| 0 <= k < i ==> #[trigger] out@[k] == v@[k],
            decreases v@.len() - i,
        {
            assert(dec_u64s(data@)[i as int] <= usize::MAX);
            out.push(v[i] as usize);
            i = i + 1;
        }
        assert(index_words(out@) =~= dec_u64s(data@));
        out
    }
}

impl<'a> FromBytesParams<'a> for PolyMatrixNTT<'a> {
    open spec fn decodable_with(data: Seq<u8>, params: &Params) -> bool {
        &&& 16 <= data.len()
        &&& be64_at(data, 0) <= usize::MAX
        &&& be64_at(data, 8) <= usize::MAX
        &&& data.len() == 16 + 8 * (be64_at(data, 0) * be64_at(data, 8) * (2 * params.poly_len))
    }

    open spec fn decoded_with(&self, data: Seq<u8>, params: &Params) -> bool {
        &&& self.wf()
        &&& *self.params == *params
        &&& self.rows == be64_at(data, 0)
        &&& self.cols == be64_at(data, 8)
        &&& self.data@ == dec_u64s(data.subrange(16, data.len() as int))
    }

    fn from_bytes(data: &[u8], params: &'a Params) -> (r: Self) {
        let rows: usize = read_u64_be(data, 0) as usize;
        let cols: usize = read_u64_be(data, 8) as usize;
        let rest: &[u8] = vstd::slice::slice_subrange(data, 16, data.len());
        let words: Vec<u64> = read_words(rest);
        PolyMatrixNTT { params, rows, cols, data: words }
    }
}

/// Where item `i` of a list starts: each item is its length in eight bytes and
/// then its bytes, and the list starts with the number of items.
pub open spec fn item_start(data: Seq<u8>, i: int) -> int
    decreases i,
{
    if i <= 0 {
        8
    } else {
        item_start(data, i - 1) + 8 + be64_at(data, item_start(data, i - 1))
    }
}

/// The bytes of item `i` of a list.
pub open spec fn item_bytes(data: Seq<u8>, i: int) -> Seq<u8> {
    data.subrange(
        item_start(data, i) + 8,
        item_start(data, i) + 8 + be64_at(data, item_start(data, i)),
    )
}

/// The length of item `i` and its bytes lie inside `data`.
pub open spec fn item_inside(data: Seq<u8>, i: int) -> bool {
    &&& 0 <= item_start(data, i)
    &&& item_start(data, i) + 8 <= data.len()
    &&& item_start(data, i) + 8 + be64_at(data, item_start(data, i)) <= data.len()
}

impl<'a, T: FromBytesParams<'a>> FromBytesParams<'a> for Vec<T> {
    open spec fn decodable_with(data: Seq<u8>, params: &Params) -> bool {
        &&& 8 <= data.len()
        &&& forall|i: int|
            0 <= i < be64_at(data, 0) ==> #[trigger] item_inside(data, i) && T::decodable_with(
                item_bytes(data, i),
                params,
            )
    }

    open spec fn decoded_with(&self, data: Seq<u8>, params: &Params) -> bool {
        &&& self@.len() == be64_at(data, 0)
        &&& forall|i: int|
            0 <= i < self@.len() ==> (#[trigger] self@[i]).decoded_with(
                item_bytes(data, i),
                params,
            )
    }

    fn from_bytes(data: &[u8], params: &'a Params) -> (r: Self) {
        let mut out: Vec<T> = Vec::new();
        let count: u64 = read_u64_be(data, 0);
        let total: usize = data.len();
        let mut pos: usize = 8;
        let mut i: u64 = 0;
        while i < count
            invariant
                total == data@.len(),
                count == be64_at(data@, 0),
                i <= count,
                pos == item_start(data@, i as int),
                <Vec<T> as FromBytesParams<'a>>::decodable_with(data@, params),
                out@.len() == i,
                forall|k: int|
                    0 <= k < i ==> (#[trigger] out@[k]).decoded_with(item_bytes(data@, k), params),
            decreases count - i,
        {
            assert(item_inside(data@, i as int));
            let item_len: usize = read_u64_be(data, pos) as usize;
            let bytes: &[u8] = vstd::slice::slice_subrange(data, pos + 8, pos + 8 + item_len);
            let item: T = T::from_bytes(bytes, params);
            out.push(item);
            pos = pos + 8 + item_len;
            i = i + 1;
        }
        out
    }
}

/// The bytes of the first of two or three values, which its length precedes.
pub open spec fn first_bytes(data: Seq<u8>) -> Seq<u8> {
    data.subrange(8, 8 + be64_at(data, 0))
}

/// The bytes behind the first value.
pub open spec fn bytes_behind_first(data: Seq<u8>) -> Seq<u8> {
    data.subrange(8 + be64_at(data, 0), data.len() as int)
}

/// The first value and its length lie inside `data`.
pub open spec fn first_inside(data: Seq<u8>) -> bool {
    8 <= data.len() && 8 + be64_at(data, 0) <= data.len()
}

impl<'a, T1: FromBytesParams<'a>, T2: FromBytesParams<'a>> FromBytesParams<'a> for (T1, T2) {
    open spec fn decodable_with(data: Seq<u8>, params: &Params) -> bool {
        &&& first_inside(data)
        &&& T1::decodable_with(first_bytes(data), params)
        &&& T2::decodable_with(bytes_behind_first(data), params)
    }

    open spec fn decoded_with(&self, data: Seq<u8>, params: &Params) -> bool {
        &&& self.0.decoded_with(first_bytes(data), params)
        &&& self.1.decoded_with(bytes_behind_first(data), params)
    }

    fn from_bytes(data: &[u8], params: &'a Params) -> (r: Self) {
        let total: usize = data.len();
        assert(be64_at(data@, 0) <= total);
        let len1: usize = read_u64_be(data, 0) as usize;
        let item1: T1 = T1::from_bytes(vstd::slice::slice_subrange(data, 8, 8 + len1), params);
        let item2: T2 = T2::from_bytes(
            vstd::slice::slice_subrange(data, 8 + len1, total),
            params,
        );
        (item1, item2)
    }
}

impl<'a, T1: FromBytesParams<'a>, T2: FromBytesParams<'a>, T3: FromBytesParams<'a>> FromBytesParams<
    'a,
> for (T1, T2, T3) {
    open spec fn decodable_with(data: Seq<u8>, params: &Params) -> bool {
        &&& first_inside(data)
        &&& T1::decodable_with(first_bytes(data), params)
        &&& first_inside(bytes_behind_first(data))
        &&& T2::decodable_with(first_bytes(bytes_behind_first(data)), params)
        &&& T3::decodable_with(bytes_behind_first(bytes_behind_first(data)), params)
    }

    open spec fn decoded_with(&self, data: Seq<u8>, params: &Params) -> bool {
        &&& self.0.decoded_with(first_bytes(data), params)
        &&& self.1.decoded_with(first_bytes(bytes_behind_first(data)), params)
        &&& self.2.decoded_with(bytes_behind_first(bytes_behind_first(data)), params)
    }

    fn from_bytes(data: &[u8], params: &'a Params) -> (r: Self) {
        let total: usize = data.len();
        assert(be64_at(data@, 0) <= total);
        let len1: usize = read_u64_be(data, 0) as usize;
        let item1: T1 = T1::from_bytes(vstd::slice::slice_subrange(data, 8, 8 + len1), params);
        let rest: &[u8] = vstd::slice::slice_subrange(data, 8 + len1, total);
        assert(be64_at(rest@, 0) <= total);
        let len2: usize = read_u64_be(rest, 0) as usize;
        let item2: T2 = T2::from_bytes(vstd::slice::slice_subrange(rest, 8, 8 + len2), params);
        let item3: T3 = T3::from_bytes(
            vstd::slice::slice_subrange(rest, 8 + len2, rest.len()),
            params,
        );
        (item1, item2, item3)
    }
}

/// Words read back from their bytes.
pub proof fn words_round_trip(s: Seq<u64>)
    ensures
        dec_u64s(enc_words(s)) == s,
{
    lemma_auto_spec_u64_to_from_le_bytes();
    let b = enc_words(s);
    assert forall|i: int| 0 <= i < s.len() implies dec_u64s(b)[i] == s[i] by {
        assert(spec_u64_to_le_bytes(s[i]).len() == 8);
        assert(b.subrange(8 * i, 8 * i + 8) =~= spec_u64_to_le_bytes(s[i]));
    }
    assert(dec_u64s(b) =~= s);
}

/// Numbers of four bytes read back from their bytes.
pub proof fn u32s_round_trip(s: Seq<u32>)
    ensures
        dec_u32s(enc_u32s(s)) == s,
{
    lemma_auto_spec_u32_to_from_le_bytes();
    let b = enc_u32s(s);
    assert forall|i: int| 0 <= i < s.len() implies dec_u32s(b)[i] == s[i] by {
        assert(spec_u32_to_le_bytes(s[i]).len() == 4);
        assert(b.subrange(4 * i, 4 * i + 4) =~= spec_u32_to_le_bytes(s[i]));
    }
    assert(dec_u32s(b) =~= s);
}

/// A matrix reads back from its bytes.
pub proof fn matrix_round_trip(m: PolyMatrixNTT, r: PolyMatrixNTT, params: Params)
    requires
        m.wf(),
        m.params.poly_len == params.poly_len,
    ensures
        <PolyMatrixNTT as FromBytesParams>::decodable_with(m.encoded(), &params),
        r.decoded_with(m.encoded(), &params) ==> r.rows == m.rows && r.cols == m.cols && r.data@
            == m.data@,
{
    lemma_auto_spec_u64_to_from_le_bytes();
    let data = m.encoded();
    let (a, b) = (be64(m.rows as u64), be64(m.cols as u64));
    assert(spec_u64_to_le_bytes(m.rows as u64).len() == 8);
    assert(spec_u64_to_le_bytes(m.cols as u64).len() == 8);
    assert(a.len() == 8 && b.len() == 8);
    assert(data.subrange(0, 8) =~= a);
    assert(data.subrange(8, 16) =~= b);
    lemma_be64_reads(data, 0, m.rows as u64);
    lemma_be64_reads(data, 8, m.cols as u64);
    assert(data.subrange(16, data.len() as int) =~= enc_words(m.data@));
    words_round_trip(m.data@);
}

} // verus!
