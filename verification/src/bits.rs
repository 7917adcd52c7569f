//! Byte strings read as little-endian strings of bits.
//!
//! Bit `k` of a byte string is bit `k % 8` of its byte `k / 8`. A field is a
//! run of consecutive bits, the first one being the least significant.
use vstd::arithmetic::power2::{lemma_pow2_unfold, pow2};
use vstd::prelude::*;

verus! {

/// Bit `k` of a byte string, as zero or one.
pub open spec fn bit(data: Seq<u8>, k: int) -> int {
    (data[k / 8] as int / pow2((k % 8) as nat) as int) % 2
}

/// The number written in the `num` bits that start at bit `off`.
pub open spec fn field(data: Seq<u8>, off: int, num: nat) -> int
    decreases num,
{
    if num == 0 {
        0
    } else {
        bit(data, off) + 2 * field(data, off + 1, (num - 1) as nat)
    }
}

/// A field of `num` bits is below two to the `num`.
pub proof fn lemma_field_range(data: Seq<u8>, off: int, num: nat)
    ensures
        0 <= field(data, off, num) < pow2(num),
    decreases num,
{
    if num == 0 {
        vstd::arithmetic::power2::lemma2_to64();
    } else {
        lemma_field_range(data, off + 1, (num - 1) as nat);
        lemma_pow2_unfold(num);
    }
}

/// A field depends on its own bits only.
pub proof fn lemma_field_same_bits(a: Seq<u8>, aoff: int, b: Seq<u8>, boff: int, num: nat)
    requires
        forall|i: int| 0 <= i < num ==> #[trigger] bit(a, aoff + i) == bit(b, boff + i),
    ensures
        field(a, aoff, num) == field(b, boff, num),
    decreases num,
{
    if num > 0 {
        assert(bit(a, aoff + 0) == bit(b, boff + 0));
        assert forall|i: int| 0 <= i < num - 1 implies #[trigger] bit(a, aoff + 1 + i) == bit(
            b,
            boff + 1 + i,
        ) by {
            assert(bit(a, aoff + (i + 1)) == bit(b, boff + (i + 1)));
        }
        lemma_field_same_bits(a, aoff + 1, b, boff + 1, (num - 1) as nat);
    }
}

/// Two fields are equal only where all their bits are.
pub proof fn lemma_field_injective(a: Seq<u8>, aoff: int, b: Seq<u8>, boff: int, num: nat)
    requires
        field(a, aoff, num) == field(b, boff, num),
    ensures
        forall|i: int| 0 <= i < num ==> #[trigger] bit(a, aoff + i) == bit(b, boff + i),
    decreases num,
{
    if num > 0 {
        lemma_field_injective(a, aoff + 1, b, boff + 1, (num - 1) as nat);
        assert forall|i: int| 0 <= i < num implies #[trigger] bit(a, aoff + i) == bit(
            b,
            boff + i,
        ) by {
            if i > 0 {
                assert(bit(a, aoff + 1 + (i - 1)) == bit(b, boff + 1 + (i - 1)));
            }
        }
    }
}

/// A field of zero bits only is zero.
pub proof fn lemma_field_zero(data: Seq<u8>, off: int, num: nat)
    requires
        forall|k: int| off <= k < off + num ==> #[trigger] bit(data, k) == 0,
    ensures
        field(data, off, num) == 0,
    decreases num,
{
    if num > 0 {
        lemma_field_zero(data, off + 1, (num - 1) as nat);
    }
}

/// The bits of a zero byte are zero.
pub proof fn lemma_bit_of_zero_byte(data: Seq<u8>, k: int)
    requires
        data[k / 8] == 0,
    ensures
        bit(data, k) == 0,
{
    vstd::arithmetic::power2::lemma_pow2_pos((k % 8) as nat);
    vstd::arithmetic::div_mod::lemma_div_basics(pow2((k % 8) as nat) as int);
}

/// Two byte strings of one length with the same bits are the same.
pub proof fn lemma_bits_determine(a: Seq<u8>, b: Seq<u8>)
    requires
        a.len() == b.len(),
        forall|k: int| 0 <= k < 8 * a.len() ==> #[trigger] bit(a, k) == bit(b, k),
    ensures
        a == b,
{
    assert forall|i: int| 0 <= i < a.len() implies a[i] == b[i] by {
        lemma_byte_is_field(a, i);
        lemma_byte_is_field(b, i);
        assert forall|j: int| 0 <= j < 8 implies #[trigger] bit(a, 8 * i + j) == bit(
            b,
            8 * i + j,
        ) by {}
        lemma_field_same_bits(a, 8 * i, b, 8 * i, 8);
    }
}

/// A byte is the field of its eight bits.
pub proof fn lemma_byte_is_field(data: Seq<u8>, i: int)
    ensures
        field(data, 8 * i, 8) == data[i],
{
    reveal_with_fuel(field, 9);
    let x = data[i] as int;
    vstd::arithmetic::power2::lemma2_to64();
    assert forall|j: int| 0 <= j < 8 implies (8 * i + j) / 8 == i && #[trigger] ((8 * i + j) % 8)
        == j by {}
    assert((8 * i + 0) % 8 == 0);
    assert(bit(data, 8 * i) == (x / 1) % 2);
    assert(bit(data, 8 * i + 1) == (x / 2) % 2);
    assert(bit(data, 8 * i + 2) == (x / 4) % 2);
    assert(bit(data, 8 * i + 3) == (x / 8) % 2);
    assert(bit(data, 8 * i + 4) == (x / 16) % 2);
    assert(bit(data, 8 * i + 5) == (x / 32) % 2);
    assert(bit(data, 8 * i + 6) == (x / 64) % 2);
    assert(bit(data, 8 * i + 7) == (x / 128) % 2);
}

/// Whether the words that a field touches lie inside a buffer of `len` bytes:
/// one word of eight bytes, or two where the field crosses into the next.
pub open spec fn words_inside(len: int, off: int, num: int) -> bool {
    if off % 64 + num <= 64 {
        off / 64 * 8 + 8 <= len
    } else {
        off / 64 * 8 + 16 <= len
    }
}

/// `valar_spiral_rs::util::read_arbitrary_bits`, on a little-endian machine:
/// the field of `num_bits` bits at `bit_offs`.
#[verifier::external_body]
pub(crate) fn read_arbitrary_bits(data: &[u8], bit_offs: usize, num_bits: usize) -> (r: u64)
    requires
        num_bits < 64,
        words_inside(data@.len() as int, bit_offs as int, num_bits as int),
    ensures
        r == field(data@, bit_offs as int, num_bits as nat),
{
    valar_spiral_rs::util::read_arbitrary_bits(data, bit_offs, num_bits)
}

/// `valar_spiral_rs::util::write_arbitrary_bits`, on a little-endian machine:
/// stores the low `num_bits` bits of `val` in the field at `bit_offs` and
/// leaves every other bit alone.
#[verifier::external_body]
pub(crate) fn write_arbitrary_bits(data: &mut Vec<u8>, val: u64, bit_offs: usize, num_bits: usize)
    requires
        num_bits < 64,
        words_inside(old(data)@.len() as int, bit_offs as int, num_bits as int),
    ensures
        final(data)@.len() == old(data)@.len(),
        field(final(data)@, bit_offs as int, num_bits as nat) == val as int % pow2(
            num_bits as nat,
        ) as int,
        forall|k: int|
            0 <= k < 8 * old(data)@.len() && !(bit_offs <= k < bit_offs + num_bits)
                ==> #[trigger] bit(final(data)@, k) == bit(old(data)@, k),
{
    valar_spiral_rs::util::write_arbitrary_bits(data, val, bit_offs, num_bits)
}

/// Reads the field of `num_bits` bits at `bit_offs`.
pub fn read_bits(data: &[u8], bit_offs: usize, num_bits: usize) -> (r: u64)
    requires
        num_bits < 64,
        bit_offs + num_bits <= 8 * data@.len(),
    ensures
        r == field(data@, bit_offs as int, num_bits as nat),
{
    if num_bits == 0 {
        return 0;
    }
    let word: usize = bit_offs / 64 * 8;
    if word <= data.len() && data.len() - word >= 16 {
        return read_arbitrary_bits(data, bit_offs, num_bits);
    }
    let mut tail: Vec<u8> = Vec::new();
    let mut i: usize = 0;
    while i < 16
        invariant
            i <= 16,
            word < data@.len(),
            tail@.len() == i,
            forall|k: int|
                0 <= k < i ==> tail@[k] == if word + k < data@.len() {
                    data@[word + k]
                } else {
                    0u8
                },
        decreases 16 - i,
    {
        if i < data.len() - word {
            tail.push(data[word + i]);
        } else {
            tail.push(0);
        }
        i = i + 1;
    }
    let within: usize = bit_offs % 64;
    proof {
        assert forall|k: int| 0 <= k < num_bits implies #[trigger] bit(tail@, within + k) == bit(
            data@,
            bit_offs + k,
        ) by {
            let w: int = bit_offs as int / 64;
            assert(bit_offs == 64 * w + within);
            assert((bit_offs + k) / 8 == word + (within + k) / 8);
            assert((bit_offs + k) % 8 == (within + k) % 8);
        }
        lemma_field_same_bits(tail@, within as int, data@, bit_offs as int, num_bits as nat);
    }
    read_arbitrary_bits(tail.as_slice(), within, num_bits)
}

/// The bytes that hold `data`, `bits` bits to a value, one after the other:
/// value `i` is the field at bit `i * bits`, cut to `bits` bits, and the bits
/// behind the last value are zero.
pub open spec fn is_packed(bytes: Seq<u8>, data: Seq<u64>, bits: nat) -> bool {
    &&& bytes.len() == (data.len() * bits + 7) / 8
    &&& forall|i: int|
        0 <= i < data.len() ==> #[trigger] field(bytes, i * bits, bits) == data[i] as int % pow2(
            bits,
        ) as int
    &&& forall|k: int| data.len() * bits <= k < 8 * bytes.len() ==> #[trigger] bit(bytes, k) == 0
}

/// Packs the low `inp_mod_bits` bits of each value into a byte string without
/// gaps.
pub fn u64s_to_contiguous_bytes(data: &[u64], inp_mod_bits: usize) -> (r: Vec<u8>)
    requires
        inp_mod_bits < 64,
        data@.len() * inp_mod_bits + 256 <= usize::MAX,
    ensures
        is_packed(r@, data@, inp_mod_bits as nat),
{
    let bits: usize = inp_mod_bits;
    let total_bits: usize = data.len() * bits;
    let total: usize = (total_bits + 7) / 8;
    let mut out: Vec<u8> = vec![0u8; total + 16];
    assert forall|k: int| 0 <= k < 8 * out@.len() implies #[trigger] bit(out@, k) == 0 by {
        lemma_bit_of_zero_byte(out@, k);
    }
    let mut i: usize = 0;
    let mut offs: usize = 0;
    while i < data.len()
        invariant
            bits < 64,
            total_bits == data@.len() * bits,
            total_bits + 256 <= usize::MAX,
            total == (total_bits + 7) / 8,
            i <= data@.len(),
            offs == i * bits,
            out@.len() == total + 16,
            forall|j: int|
                0 <= j < i ==> #[trigger] field(out@, j * bits, bits as nat) == data@[j] as int
                    % pow2(bits as nat) as int,
            forall|k: int| offs <= k < 8 * out@.len() ==> #[trigger] bit(out@, k) == 0,
        decreases data@.len() - i,
    {
        assert((i + 1) * bits <= data@.len() * bits) by (nonlinear_arith)
            requires
                i + 1 <= data@.len(),
        ;
        assert((i + 1) * bits == i * bits + bits) by (nonlinear_arith);
        let ghost before = out@;
        write_arbitrary_bits(&mut out, data[i], offs, bits);
        proof {
            assert forall|j: int| 0 <= j < i + 1 implies #[trigger] field(
                out@,
                j * bits,
                bits as nat,
            ) == data@[j] as int % pow2(bits as nat) as int by {
                if j < i {
                    assert(j * bits >= 0 && (j + 1) * bits <= i * bits) by (nonlinear_arith)
                        requires
                            0 <= j,
                            j + 1 <= i,
                    ;
                    assert((j + 1) * bits == j * bits + bits) by (nonlinear_arith);
                    assert forall|k: int| 0 <= k < bits implies #[trigger] bit(
                        out@,
                        j * bits + k,
                    ) == bit(before, j * bits + k) by {}
                    lemma_field_same_bits(out@, j * bits, before, j * bits, bits as nat);
                }
            }
        }
        offs = offs + bits;
        i = i + 1;
    }
    let ghost full = out@;
    out.truncate(total);
    proof {
        assert forall|k: int| 0 <= k < 8 * total implies #[trigger] bit(out@, k) == bit(full, k) by {
            assert(out@[k / 8] == full[k / 8]);
        }
        assert forall|j: int| 0 <= j < data@.len() implies #[trigger] field(
            out@,
            j * bits,
            bits as nat,
        ) == data@[j] as int % pow2(bits as nat) as int by {
            assert(j * bits >= 0 && (j + 1) * bits <= data@.len() * bits) by (nonlinear_arith)
                requires
                    0 <= j,
                    j + 1 <= data@.len(),
            ;
            assert((j + 1) * bits == j * bits + bits) by (nonlinear_arith);
            assert forall|k: int| 0 <= k < bits implies #[trigger] bit(out@, j * bits + k) == bit(
                full,
                j * bits + k,
            ) by {}
            lemma_field_same_bits(out@, j * bits, full, j * bits, bits as nat);
        }
    }
    out
}

/// Reads back as many whole values of `bits` bits as a byte string holds.
pub fn contiguous_bytes_to_u64s(bytes: &[u8], bits: usize) -> (r: Vec<u64>)
    requires
        0 < bits < 64,
        8 * bytes@.len() <= usize::MAX,
    ensures
        r@.len() == 8 * bytes@.len() as int / bits as int,
        forall|i: int| 0 <= i < r@.len() ==> r@[i] == #[trigger] field(bytes@, i * bits, bits as nat),
{
    let count: usize = 8 * bytes.len() / bits;
    let mut out: Vec<u64> = Vec::new();
    let mut i: usize = 0;
    let mut offs: usize = 0;
    assert(count * bits <= 8 * bytes@.len()) by (nonlinear_arith)
        requires
            count == 8 * bytes@.len() as int / bits as int,
            bits > 0,
    ;
    while i < count
        invariant
            0 < bits < 64,
            8 * bytes@.len() <= usize::MAX,
            count * bits <= 8 * bytes@.len(),
            i <= count,
            offs == i * bits,
            out@.len() == i,
            forall|j: int|
                0 <= j < i ==> out@[j] == #[trigger] field(bytes@, j * bits, bits as nat),
        decreases count - i,
    {
        assert((i + 1) * bits <= count * bits) by (nonlinear_arith)
            requires
                i + 1 <= count,
        ;
        assert((i + 1) * bits == i * bits + bits) by (nonlinear_arith);
        out.push(read_bits(bytes, offs, bits));
        offs = offs + bits;
        i = i + 1;
    }
    out
}

/// Values have one packing only.
pub proof fn lemma_packed_unique(a: Seq<u8>, b: Seq<u8>, data: Seq<u64>, bits: nat)
    requires
        bits > 0,
        is_packed(a, data, bits),
        is_packed(b, data, bits),
    ensures
        a == b,
{
    assert forall|k: int| 0 <= k < 8 * a.len() implies #[trigger] bit(a, k) == bit(b, k) by {
        if k < data.len() * bits {
            let j = k / bits as int;
            vstd::arithmetic::div_mod::lemma_fundamental_div_mod(k, bits as int);
            assert(k == j * bits + k % bits as int) by (nonlinear_arith)
                requires
                    k == bits as int * (k / bits as int) + k % bits as int,
                    j == k / bits as int,
            ;
            assert(0 <= j < data.len()) by (nonlinear_arith)
                requires
                    0 <= k < data.len() * bits,
                    j == k / bits as int,
                    bits > 0,
            ;
            assert(field(a, j * bits, bits) == field(b, j * bits, bits));
            lemma_field_injective(a, j * bits, b, j * bits, bits);
            assert(bit(a, j * bits + k % bits as int) == bit(b, j * bits + k % bits as int));
        }
    }
    lemma_bits_determine(a, b);
}

/// Packing loses nothing: the fields of the packed bytes are the values, where
/// each fits its number of bits, and no other byte string is a packing of them.
pub proof fn packing_round_trip(a: Seq<u8>, b: Seq<u8>, data: Seq<u64>, bits: nat)
    requires
        bits > 0,
        is_packed(a, data, bits),
        is_packed(b, data, bits),
        forall|i: int| 0 <= i < data.len() ==> #[trigger] data[i] < pow2(bits),
    ensures
        a == b,
        forall|i: int| 0 <= i < data.len() ==> data[i] == #[trigger] field(a, i * bits, bits),
{
    assert forall|i: int| 0 <= i < data.len() implies data[i] == #[trigger] field(
        a,
        i * bits,
        bits,
    ) by {
        vstd::arithmetic::div_mod::lemma_small_mod(data[i] as nat, pow2(bits));
    }
    lemma_packed_unique(a, b, data, bits);
}

} // verus!
