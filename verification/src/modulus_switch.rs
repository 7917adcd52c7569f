//! Ciphertexts on the wire: both rows scaled down to smaller moduli and packed
//! into bytes without gaps.
use crate::arith::{
    ceil_log2, lemma_ceil_log2, lemma_pow2_monotone, lemma_rescale_round_trip, lemma_rescaled_error,
    log2_ceil, rescale, rescaled, scaling_error, within_half_step,
};
use crate::bits::{
    bit, field, lemma_bits_determine, lemma_field_injective, lemma_field_same_bits,
    read_arbitrary_bits, words_inside, write_arbitrary_bits,
};
use crate::params::{MODULUS, Params};
use crate::poly::PolyMatrixRaw;
use vstd::arithmetic::power2::pow2;
use vstd::prelude::*;

verus! {

/// A reduced modulus is at least two and fits a signed word.
pub open spec fn switchable(q_1: u64, q_2: u64) -> bool {
    1 < q_1 < 0x8000_0000_0000_0000 && 1 < q_2 < 0x8000_0000_0000_0000
}

/// The bytes of a packed ciphertext of `n` coefficients a row: the first row
/// takes the bits of `q_2` for each, the second row those of `q_1`.
pub open spec fn ct_byte_len(n: int, q_1: u64, q_2: u64) -> int {
    ((ceil_log2(q_2 as int) + ceil_log2(q_1 as int)) * n + 7) / 8
}

/// `bytes` packs the rows `row_0` and `row_1`, scaled from modulus `q` down to
/// `q_2` and to `q_1`.
pub open spec fn is_switched(
    bytes: Seq<u8>,
    row_0: Seq<u64>,
    row_1: Seq<u64>,
    q: u64,
    q_1: u64,
    q_2: u64,
) -> bool {
    let n = row_0.len() as int;
    let b_0 = ceil_log2(q_2 as int);
    let b_1 = ceil_log2(q_1 as int);
    &&& bytes.len() == ct_byte_len(n, q_1, q_2)
    &&& forall|z: int|
        0 <= z < n ==> #[trigger] field(bytes, z * b_0, b_0) == rescaled(
            row_0[z] as int,
            q as int,
            q_2 as int,
        )
    &&& forall|z: int|
        0 <= z < n ==> #[trigger] field(bytes, n * b_0 + z * b_1, b_1) == rescaled(
            row_1[z] as int,
            q as int,
            q_1 as int,
        )
}

/// Coefficient `z` of the first row that `bytes` packs, scaled up to `q`.
pub open spec fn recovered_0(bytes: Seq<u8>, z: int, q: u64, q_2: u64) -> int {
    let b_0 = ceil_log2(q_2 as int);
    rescaled(field(bytes, z * b_0, b_0), q_2 as int, q as int)
}

/// Coefficient `z` of the second row that `bytes` packs, scaled up to `q`.
pub open spec fn recovered_1(bytes: Seq<u8>, n: int, z: int, q: u64, q_1: u64, q_2: u64) -> int {
    let b_0 = ceil_log2(q_2 as int);
    let b_1 = ceil_log2(q_1 as int);
    rescaled(field(bytes, n * b_0 + z * b_1, b_1), q_1 as int, q as int)
}

/// `data` is the pair of rows that `bytes` packs, scaled up to `q`.
pub open spec fn is_recovered(
    data: Seq<u64>,
    bytes: Seq<u8>,
    n: int,
    q: u64,
    q_1: u64,
    q_2: u64,
) -> bool {
    &&& data.len() == 2 * n
    &&& forall|z: int| 0 <= z < n ==> #[trigger] data[z] == recovered_0(bytes, z, q, q_2)
    &&& forall|z: int|
        0 <= z < n ==> #[trigger] data[n + z] == recovered_1(bytes, n, z, q, q_1, q_2)
}

/// The two directions of the wire encoding.
pub trait ModulusSwitch<'a>: Sized {
    /// The value can be encoded with these moduli.
    spec fn can_switch(&self, q_1: u64, q_2: u64) -> bool;

    /// `bytes` is the encoding of the value.
    spec fn switched(&self, q_1: u64, q_2: u64, bytes: Seq<u8>) -> bool;

    /// `bytes` can be decoded with these moduli.
    spec fn can_recover(params: &Params, q_1: u64, q_2: u64, bytes: Seq<u8>) -> bool;

    /// The value is the one that `bytes` decodes to.
    spec fn recovered(&self, params: &Params, q_1: u64, q_2: u64, bytes: Seq<u8>) -> bool;

    fn switch(&self, q_1: u64, q_2: u64) -> (r: Vec<u8>)
        requires
            self.can_switch(q_1, q_2),
        ensures
            self.switched(q_1, q_2, r@),
    ;

    fn recover(params: &'a Params, q_1: u64, q_2: u64, ciphertext: &[u8]) -> (r: Self)
        requires
            Self::can_recover(params, q_1, q_2, ciphertext@),
        ensures
            r.recovered(params, q_1, q_2, ciphertext@),
    ;
}

/// Expected byte length of a modulus-switched ciphertext.
pub fn expected_ct_byte_len(params: &Params, q_1: u64, q_2: u64) -> (r: usize)
    requires
        params.poly_len <= 0x10000,
    ensures
        r == ct_byte_len(params.poly_len as int, q_1, q_2),
        (ceil_log2(q_1 as int) + ceil_log2(q_2 as int)) * params.poly_len <= 8 * r < (ceil_log2(
            q_1 as int,
        ) + ceil_log2(q_2 as int)) * params.poly_len + 8,
{
    let q_1_bits: usize = log2_ceil(q_2);
    let q_2_bits: usize = log2_ceil(q_1);
    assert((q_1_bits + q_2_bits) * params.poly_len <= 128 * 0x10000) by (nonlinear_arith)
        requires
            q_1_bits <= 64,
            q_2_bits <= 64,
            params.poly_len <= 0x10000,
    ;
    let total_sz_bits: usize = (q_1_bits + q_2_bits) * params.poly_len;
    (total_sz_bits + 7) / 8
}

/// A modulus that fits a signed word takes from one to 63 bits, and its
/// residues fit them.
proof fn lemma_modulus_bits(q: u64)
    requires
        1 < q < 0x8000_0000_0000_0000,
    ensures
        1 <= ceil_log2(q as int) <= 63,
        q <= pow2(ceil_log2(q as int)),
{
    lemma_ceil_log2(q as int);
    vstd::arithmetic::power2::lemma2_to64();
    vstd::arithmetic::power2::lemma2_to64_rest();
    if ceil_log2(q as int) > 63 {
        crate::arith::lemma_pow2_monotone(63, (ceil_log2(q as int) - 1) as nat);
    }
}

/// A field that ends inside a buffer of whole words touches no word outside.
proof fn lemma_words_inside(len: int, off: int, num: int)
    requires
        len % 8 == 0,
        0 <= off,
        1 <= num < 64,
        off + num <= 8 * len,
    ensures
        words_inside(len, off, num),
{
}

/// Packs `vals`, scaled from modulus `from` to modulus `to`, into the fields
/// of `bits` bits from bit `start` on.
fn write_rescaled(
    res: &mut Vec<u8>,
    vals: &[u64],
    start: usize,
    bits: usize,
    from: u64,
    to: u64,
)
    requires
        old(res)@.len() % 8 == 0,
        old(res)@.len() <= 0x10_0000,
        1 < to < 0x8000_0000_0000_0000,
        0 < from < 0x8000_0000_0000_0000,
        bits == ceil_log2(to as int),
        start + vals@.len() * bits <= 8 * old(res)@.len(),
    ensures
        final(res)@.len() == old(res)@.len(),
        forall|z: int|
            0 <= z < vals@.len() ==> #[trigger] field(
                final(res)@,
                start + z * bits,
                bits as nat,
            ) == rescaled(vals@[z] as int, from as int, to as int),
        forall|k: int|
            0 <= k < 8 * old(res)@.len() && !(start <= k < start + vals@.len() * bits)
                ==> #[trigger] bit(final(res)@, k) == bit(old(res)@, k),
{
    let ghost before = res@;
    proof {
        lemma_modulus_bits(to);
    }
    let mut z: usize = 0;
    let mut bit_offs: usize = start;
    while z < vals.len()
        invariant
            z <= vals@.len(),
            res@.len() == before.len(),
            before.len() % 8 == 0,
            before.len() <= 0x10_0000,
            1 < to < 0x8000_0000_0000_0000,
            0 < from < 0x8000_0000_0000_0000,
            bits == ceil_log2(to as int),
            1 <= bits <= 63,
            to <= pow2(bits as nat),
            start + vals@.len() * bits <= 8 * before.len(),
            bit_offs == start + z * bits,
            forall|y: int|
                0 <= y < z ==> #[trigger] field(res@, start + y * bits, bits as nat) == rescaled(
                    vals@[y] as int,
                    from as int,
                    to as int,
                ),
            forall|k: int|
                0 <= k < 8 * before.len() && !(start <= k < start + z * bits)
                    ==> #[trigger] bit(res@, k) == bit(before, k),
        decreases vals@.len() - z,
    {
        let val_rescaled: u64 = rescale(vals[z], from, to);
        assert((z + 1) * bits <= vals@.len() * bits && (z + 1) * bits == z * bits + bits)
            by (nonlinear_arith)
            requires
                z + 1 <= vals@.len(),
        ;
        let ghost prev = res@;
        proof {
            lemma_words_inside(res@.len() as int, bit_offs as int, bits as int);
            vstd::arithmetic::div_mod::lemma_small_mod(val_rescaled as nat, pow2(bits as nat));
        }
        write_arbitrary_bits(res, val_rescaled, bit_offs, bits);
        proof {
            assert forall|y: int| 0 <= y < z + 1 implies #[trigger] field(
                res@,
                start + y * bits,
                bits as nat,
            ) == rescaled(vals@[y] as int, from as int, to as int) by {
                if y < z {
                    assert(0 <= y * bits && y * bits + bits <= z * bits) by (nonlinear_arith)
                        requires
                            0 <= y,
                            y + 1 <= z,
                    ;
                    assert forall|i: int| 0 <= i < bits implies #[trigger] bit(
                        res@,
                        start + y * bits + i,
                    ) == bit(prev, start + y * bits + i) by {}
                    lemma_field_same_bits(
                        res@,
                        start + y * bits,
                        prev,
                        start + y * bits,
                        bits as nat,
                    );
                }
            }
        }
        bit_offs = bit_offs + bits;
        z = z + 1;
    }
}

/// Appends to `out` the `count` fields of `bits` bits from bit `start` on,
/// scaled from modulus `from` to modulus `to`.
fn read_rescaled(
    ciphertext: &[u8],
    out: &mut Vec<u64>,
    count: usize,
    start: usize,
    bits: usize,
    from: u64,
    to: u64,
)
    requires
        ciphertext@.len() % 8 == 0,
        ciphertext@.len() <= 0x10_0000,
        1 < from < 0x8000_0000_0000_0000,
        0 < to,
        bits == ceil_log2(from as int),
        start + count * bits <= 8 * ciphertext@.len(),
    ensures
        final(out)@.len() == old(out)@.len() + count,
        forall|i: int| 0 <= i < old(out)@.len() ==> final(out)@[i] == old(out)@[i],
        forall|z: int|
            0 <= z < count ==> #[trigger] final(out)@[old(out)@.len() + z] == rescaled(
                field(ciphertext@, start + z * bits, bits as nat),
                from as int,
                to as int,
            ),
{
    let ghost before = out@;
    proof {
        lemma_modulus_bits(from);
    }
    let mut z: usize = 0;
    let mut bit_offs: usize = start;
    while z < count
        invariant
            z <= count,
            ciphertext@.len() % 8 == 0,
            ciphertext@.len() <= 0x10_0000,
            1 < from < 0x8000_0000_0000_0000,
            0 < to,
            1 <= bits <= 63,
            start + count * bits <= 8 * ciphertext@.len(),
            bit_offs == start + z * bits,
            out@.len() == before.len() + z,
            forall|i: int| 0 <= i < before.len() ==> out@[i] == before[i],
            forall|y: int|
                0 <= y < z ==> #[trigger] out@[before.len() + y] == rescaled(
                    field(ciphertext@, start + y * bits, bits as nat),
                    from as int,
                    to as int,
                ),
        decreases count - z,
    {
        assert((z + 1) * bits <= count * bits && (z + 1) * bits == z * bits + bits)
            by (nonlinear_arith)
            requires
                z + 1 <= count,
        ;
        proof {
            lemma_words_inside(ciphertext@.len() as int, bit_offs as int, bits as int);
        }
        let val: u64 = read_arbitrary_bits(ciphertext, bit_offs, bits);
        out.push(rescale(val, from, to));
        bit_offs = bit_offs + bits;
        z = z + 1;
    }
}

/// The sizes of the two packed rows add up to whole words.
proof fn lemma_ct_layout(n: int, q_1: u64, q_2: u64)
    requires
        switchable(q_1, q_2),
        n == 2048 || n == 4096,
    ensures
        ct_byte_len(n, q_1, q_2) % 8 == 0,
        0 < ct_byte_len(n, q_1, q_2) <= 0x10_0000,
        n * ceil_log2(q_2 as int) + n * ceil_log2(q_1 as int) == 8 * ct_byte_len(n, q_1, q_2),
{
    lemma_modulus_bits(q_1);
    lemma_modulus_bits(q_2);
    let b_0 = ceil_log2(q_2 as int) as int;
    let b_1 = ceil_log2(q_1 as int) as int;
    assert((b_0 + b_1) * n == n * b_0 + n * b_1) by (nonlinear_arith);
}

/// The two rows read one after the other are the pair that `bytes` packs.
proof fn lemma_is_recovered(
    first: Seq<u64>,
    data: Seq<u64>,
    bytes: Seq<u8>,
    n: int,
    q: u64,
    q_1: u64,
    q_2: u64,
)
    requires
        n >= 0,
        first.len() == n,
        data.len() == 2 * n,
        forall|z: int|
            0 <= z < n ==> #[trigger] first[0 + z] == rescaled(
                field(bytes, 0 + z * ceil_log2(q_2 as int), ceil_log2(q_2 as int)),
                q_2 as int,
                q as int,
            ),
        forall|i: int| 0 <= i < n ==> data[i] == first[i],
        forall|z: int|
            0 <= z < n ==> #[trigger] data[n + z] == rescaled(
                field(
                    bytes,
                    n * ceil_log2(q_2 as int) + z * ceil_log2(q_1 as int),
                    ceil_log2(q_1 as int),
                ),
                q_1 as int,
                q as int,
            ),
    ensures
        is_recovered(data, bytes, n, q, q_1, q_2),
{
    assert forall|z: int| 0 <= z < n implies #[trigger] data[z] == recovered_0(
        bytes,
        z,
        q,
        q_2,
    ) by {
        assert(first[0 + z] == data[z]);
    }
}

impl<'a> ModulusSwitch<'a> for PolyMatrixRaw<'a> {
    open spec fn can_switch(&self, q_1: u64, q_2: u64) -> bool {
        &&& self.params.ring_wf()
        &&& self.wf()
        &&& self.rows == 2
        &&& self.cols == 1
        &&& switchable(q_1, q_2)
    }

    open spec fn switched(&self, q_1: u64, q_2: u64, bytes: Seq<u8>) -> bool {
        is_switched(bytes, self.poly(0, 0), self.poly(1, 0), MODULUS, q_1, q_2)
    }

    open spec fn can_recover(params: &Params, q_1: u64, q_2: u64, bytes: Seq<u8>) -> bool {
        &&& params.ring_wf()
        &&& switchable(q_1, q_2)
        &&& bytes.len() == ct_byte_len(params.poly_len as int, q_1, q_2)
    }

    open spec fn recovered(&self, params: &Params, q_1: u64, q_2: u64, bytes: Seq<u8>) -> bool {
        &&& self.wf()
        &&& *self.params == *params
        &&& self.rows == 2
        &&& self.cols == 1
        &&& is_recovered(self.data@, bytes, params.poly_len as int, MODULUS, q_1, q_2)
    }

    fn switch(&self, q_1: u64, q_2: u64) -> (r: Vec<u8>) {
        let n: usize = self.params.poly_len;
        let q_1_bits: usize = log2_ceil(q_2);
        let q_2_bits: usize = log2_ceil(q_1);
        proof {
            lemma_ct_layout(n as int, q_1, q_2);
            assert(0 <= n * q_1_bits);
            assert((q_1_bits + q_2_bits) * n == n * q_1_bits + n * q_2_bits) by (nonlinear_arith);
        }
        let total_sz_bytes: usize = expected_ct_byte_len(self.params, q_1, q_2);
        let mut res: Vec<u8> = vec![0u8; total_sz_bytes];
        let row_0: &[u64] = self.get_poly(0, 0);
        let row_1: &[u64] = self.get_poly(1, 0);
        write_rescaled(&mut res, row_0, 0, q_1_bits, self.params.modulus, q_2);
        let ghost first = res@;
        write_rescaled(&mut res, row_1, n * q_1_bits, q_2_bits, self.params.modulus, q_1);
        proof {
            assert forall|z: int| 0 <= z < n implies #[trigger] field(
                res@,
                z * q_1_bits,
                q_1_bits as nat,
            ) == rescaled(row_0@[z] as int, MODULUS as int, q_2 as int) by {
                assert(0 <= z * q_1_bits && z * q_1_bits + q_1_bits <= n * q_1_bits)
                    by (nonlinear_arith)
                    requires
                        0 <= z,
                        z + 1 <= n,
                ;
                assert(field(first, 0 + z * q_1_bits, q_1_bits as nat) == rescaled(
                    row_0@[z] as int,
                    MODULUS as int,
                    q_2 as int,
                ));
                assert forall|i: int| 0 <= i < q_1_bits implies #[trigger] bit(
                    res@,
                    z * q_1_bits + i,
                ) == bit(first, z * q_1_bits + i) by {}
                lemma_field_same_bits(
                    res@,
                    z * q_1_bits,
                    first,
                    z * q_1_bits,
                    q_1_bits as nat,
                );
            }
        }
        res
    }

    fn recover(params: &'a Params, q_1: u64, q_2: u64, ciphertext: &[u8]) -> (r: Self) {
        let n: usize = params.poly_len;
        let q_1_bits: usize = log2_ceil(q_2);
        let q_2_bits: usize = log2_ceil(q_1);
        proof {
            lemma_ct_layout(n as int, q_1, q_2);
            assert(0 <= n * q_1_bits);
        }
        let mut data: Vec<u64> = Vec::new();
        read_rescaled(ciphertext, &mut data, n, 0, q_1_bits, q_2, params.modulus);
        let ghost first = data@;
        read_rescaled(ciphertext, &mut data, n, n * q_1_bits, q_2_bits, q_1, params.modulus);
        proof {
            lemma_is_recovered(first, data@, ciphertext@, n as int, MODULUS, q_1, q_2);
            assert(2 * 1 * n == 2 * n);
        }
        PolyMatrixRaw { params, rows: 2, cols: 1, data }
    }
}

/// Decodes `ciphertext`, unless it has the wrong length.
pub fn try_recover<'a>(params: &'a Params, q_1: u64, q_2: u64, ciphertext: &[u8]) -> (r: Option<
    PolyMatrixRaw<'a>,
>)
    requires
        params.ring_wf(),
        switchable(q_1, q_2),
    ensures
        r is Some <==> ciphertext@.len() == ct_byte_len(params.poly_len as int, q_1, q_2),
        r matches Some(m) ==> m.recovered(params, q_1, q_2, ciphertext@),
{
    if ciphertext.len() == expected_ct_byte_len(params, q_1, q_2) {
        Some(PolyMatrixRaw::recover(params, q_1, q_2, ciphertext))
    } else {
        None
    }
}

/// Whatever the bytes hold, every recovered coefficient is a residue of the
/// modulus.
pub proof fn recovered_values_in_range(
    data: Seq<u64>,
    bytes: Seq<u8>,
    n: int,
    q: u64,
    q_1: u64,
    q_2: u64,
)
    requires
        q > 0,
        is_recovered(data, bytes, n, q, q_1, q_2),
    ensures
        forall|i: int| 0 <= i < data.len() ==> #[trigger] data[i] < q,
{
    assert forall|i: int| 0 <= i < data.len() implies #[trigger] data[i] < q by {
        if i >= n {
            assert(data[n + (i - n)] == recovered_1(bytes, n, i - n, q, q_1, q_2));
        }
    }
}

/// What is recovered from a switched ciphertext is the ciphertext up to the
/// rounding of the two scalings: each coefficient of the first row comes back
/// to within `(q + q_2) / (2 * q_2)` modulo `q`, and each of the second row to
/// within `(q + q_1) / (2 * q_1)`.
pub proof fn switch_then_recover(
    data: Seq<u64>,
    bytes: Seq<u8>,
    row_0: Seq<u64>,
    row_1: Seq<u64>,
    q: u64,
    q_1: u64,
    q_2: u64,
)
    requires
        q > 0,
        switchable(q_1, q_2),
        row_1.len() == row_0.len(),
        is_switched(bytes, row_0, row_1, q, q_1, q_2),
        is_recovered(data, bytes, row_0.len() as int, q, q_1, q_2),
    ensures
        forall|z: int|
            0 <= z < row_0.len() ==> within_half_step(
                #[trigger] row_0[z] as int,
                data[z] as int,
                q as int,
                q_2 as int,
            ),
        forall|z: int|
            0 <= z < row_1.len() ==> within_half_step(
                #[trigger] row_1[z] as int,
                data[row_0.len() + z] as int,
                q as int,
                q_1 as int,
            ),
{
    let n = row_0.len() as int;
    let b_0 = ceil_log2(q_2 as int);
    let b_1 = ceil_log2(q_1 as int);
    assert forall|z: int| 0 <= z < n implies within_half_step(
        #[trigger] row_0[z] as int,
        data[z] as int,
        q as int,
        q_2 as int,
    ) by {
        assert(field(bytes, z * b_0, b_0) == rescaled(row_0[z] as int, q as int, q_2 as int));
        lemma_rescale_round_trip(row_0[z] as int, q as int, q_2 as int);
    }
    assert forall|z: int| 0 <= z < n implies within_half_step(
        #[trigger] row_1[z] as int,
        data[n + z] as int,
        q as int,
        q_1 as int,
    ) by {
        assert(field(bytes, n * b_0 + z * b_1, b_1) == rescaled(
            row_1[z] as int,
            q as int,
            q_1 as int,
        ));
        assert(data[n + z] == recovered_1(bytes, n, z, q, q_1, q_2));
        lemma_rescale_round_trip(row_1[z] as int, q as int, q_1 as int);
    }
}

/// Scaling a residue up and down again loses nothing.
proof fn lemma_up_and_down(r: int, s: int, q: int)
    requires
        0 <= r < s,
        s < q,
    ensures
        rescaled(rescaled(r, s, q), q, s) == r,
{
    let d = rescaled(r, s, q);
    let b = rescaled(d, q, s);
    lemma_rescaled_error(r, s, q);
    lemma_rescaled_error(d, q, s);
    let t1 = choose|t: int| #[trigger] scaling_error(r, s, d, q, t) <= s && scaling_error(
        r,
        s,
        d,
        q,
        t,
    ) >= -s;
    let t2 = choose|t: int| #[trigger] scaling_error(d, q, b, s, t) <= q && scaling_error(
        d,
        q,
        b,
        s,
        t,
    ) >= -q;
    let k = t1 + t2;
    let x = b - r + k * s;
    assert(2 * q * x == scaling_error(r, s, d, q, t1) + scaling_error(d, q, b, s, t2))
        by (nonlinear_arith)
        requires
            x == b - r + k * s,
            k == t1 + t2,
            scaling_error(r, s, d, q, t1) == 2 * (d * s - r * q + t1 * (s * q)),
            scaling_error(d, q, b, s, t2) == 2 * (b * q - d * s + t2 * (q * s)),
    ;
    assert(x == 0) by (nonlinear_arith)
        requires
            -(s + q) <= 2 * q * x <= s + q,
            0 < s < q,
    ;
    assert(0 <= b < s);
    assert(k == 0) by (nonlinear_arith)
        requires
            b - r + k * s == 0,
            0 <= b < s,
            0 <= r < s,
    ;
}

/// Switching loses nothing more the second time: what a switched ciphertext
/// recovers to switches to the same bytes again.
pub proof fn switch_is_idempotent(
    bytes: Seq<u8>,
    row_0: Seq<u64>,
    row_1: Seq<u64>,
    data: Seq<u64>,
    again: Seq<u8>,
    q: u64,
    q_1: u64,
    q_2: u64,
)
    requires
        1 < q_1 < q,
        1 < q_2 < q,
        row_1.len() == row_0.len(),
        row_0.len() % 8 == 0,
        is_switched(bytes, row_0, row_1, q, q_1, q_2),
        is_recovered(data, bytes, row_0.len() as int, q, q_1, q_2),
        is_switched(
            again,
            data.subrange(0, row_0.len() as int),
            data.subrange(row_0.len() as int, 2 * row_0.len() as int),
            q,
            q_1,
            q_2,
        ),
    ensures
        again == bytes,
{
    let n = row_0.len() as int;
    let b_0 = ceil_log2(q_2 as int) as int;
    let b_1 = ceil_log2(q_1 as int) as int;
    let (d_0, d_1) = (data.subrange(0, n), data.subrange(n, 2 * n));
    lemma_ceil_log2(q_1 as int);
    lemma_ceil_log2(q_2 as int);
    assert forall|z: int| 0 <= z < n implies #[trigger] field(again, z * b_0, b_0 as nat) == field(
        bytes,
        z * b_0,
        b_0 as nat,
    ) by {
        let f = field(bytes, z * b_0, b_0 as nat);
        assert(f == rescaled(row_0[z] as int, q as int, q_2 as int));
        assert(d_0[z] == data[z]);
        assert(field(again, z * b_0, b_0 as nat) == rescaled(d_0[z] as int, q as int, q_2 as int));
        lemma_up_and_down(f, q_2 as int, q as int);
    }
    assert forall|z: int| 0 <= z < n implies #[trigger] field(again, n * b_0 + z * b_1, b_1 as nat) == field(
        bytes,
        n * b_0 + z * b_1,
        b_1 as nat,
    ) by {
        let f = field(bytes, n * b_0 + z * b_1, b_1 as nat);
        assert(f == rescaled(row_1[z] as int, q as int, q_1 as int));
        assert(d_1[z] == data[n + z]);
        assert(data[n + z] == recovered_1(bytes, n, z, q, q_1, q_2));
        assert(field(again, n * b_0 + z * b_1, b_1 as nat) == rescaled(
            d_1[z] as int,
            q as int,
            q_1 as int,
        ));
        lemma_up_and_down(f, q_1 as int, q as int);
    }
    let m = n / 8;
    assert((b_0 + b_1) * n == 8 * ((b_0 + b_1) * m)) by (nonlinear_arith)
        requires
            n == 8 * m,
    ;
    assert((b_0 + b_1) * n == n * b_0 + n * b_1) by (nonlinear_arith);
    assert forall|k: int| 0 <= k < 8 * again.len() implies #[trigger] bit(again, k) == bit(
        bytes,
        k,
    ) by {
        if k < n * b_0 {
            let z = lemma_block_of(k, b_0, n);
            lemma_field_injective(again, z * b_0, bytes, z * b_0, b_0 as nat);
            assert(bit(again, z * b_0 + (k - z * b_0)) == bit(bytes, z * b_0 + (k - z * b_0)));
        } else {
            let z = lemma_block_of(k - n * b_0, b_1, n);
            let off = n * b_0 + z * b_1;
            lemma_field_injective(again, off, bytes, off, b_1 as nat);
            assert(bit(again, off + (k - off)) == bit(bytes, off + (k - off)));
        }
    }
    lemma_bits_determine(again, bytes);
}

/// The field of `b` bits that bit `k` falls into.
proof fn lemma_block_of(k: int, b: int, n: int) -> (z: int)
    requires
        b > 0,
        0 <= k < n * b,
    ensures
        0 <= z < n,
        z * b <= k < z * b + b,
{
    let z = k / b;
    vstd::arithmetic::div_mod::lemma_fundamental_div_mod(k, b);
    assert(b * z == z * b) by (nonlinear_arith);
    assert(0 <= z < n) by (nonlinear_arith)
        requires
            k == b * z + k % b,
            0 <= k % b < b,
            0 <= k < n * b,
    ;
    z
}

/// The rows do not mix on the wire: the first bits, as many as the residues of
/// `q_2` take for every coefficient, are fixed by the first row, and the bits
/// behind them, as many as the residues of `q_1` take, by the second.
pub proof fn rows_stand_apart_on_the_wire(
    a: Seq<u8>,
    b: Seq<u8>,
    a_0: Seq<u64>,
    a_1: Seq<u64>,
    b_0: Seq<u64>,
    b_1: Seq<u64>,
    q: u64,
    q_1: u64,
    q_2: u64,
    k: int,
)
    requires
        is_switched(a, a_0, a_1, q, q_1, q_2),
        is_switched(b, b_0, b_1, q, q_1, q_2),
        a_0.len() == b_0.len(),
        0 <= k,
    ensures
        a_0 == b_0 && k < a_0.len() * ceil_log2(q_2 as int) ==> bit(a, k) == bit(b, k),
        a_1 == b_1 && a_0.len() * ceil_log2(q_2 as int) <= k < a_0.len() * (ceil_log2(q_2 as int)
            + ceil_log2(q_1 as int)) ==> bit(a, k) == bit(b, k),
{
    let n = a_0.len() as int;
    let (w_0, w_1) = (ceil_log2(q_2 as int), ceil_log2(q_1 as int));
    if a_0 == b_0 && k < n * w_0 {
        let (z, j) = lemma_bit_place(k, n, w_0 as int);
        assert(field(a, z * w_0, w_0) == field(b, z * w_0, w_0));
        lemma_field_injective(a, z * w_0, b, z * w_0, w_0);
        assert(bit(a, z * w_0 + j) == bit(b, z * w_0 + j));
    }
    assert(n * (w_0 + w_1) == n * w_0 + n * w_1) by (nonlinear_arith);
    if a_1 == b_1 && n * w_0 <= k < n * (w_0 + w_1) {
        let (z, j) = lemma_bit_place(k - n * w_0, n, w_1 as int);
        let off = n * w_0 + z * w_1;
        assert(field(a, n * w_0 + z * w_1, w_1) == field(b, n * w_0 + z * w_1, w_1));
        lemma_field_injective(a, off, b, off, w_1);
        assert(bit(a, off + j) == bit(b, off + j));
    }
}

/// The number that bit `k` belongs to, and its place in it, among `n` numbers of
/// `w` bits.
proof fn lemma_bit_place(k: int, n: int, w: int) -> (r: (int, int))
    requires
        0 <= k < n * w,
        0 <= w,
    ensures
        0 <= r.0 < n,
        0 <= r.1 < w,
        k == r.0 * w + r.1,
{
    assert(w > 0) by (nonlinear_arith)
        requires
            0 <= k < n * w,
            0 <= w,
    ;
    vstd::arithmetic::div_mod::lemma_fundamental_div_mod(k, w);
    let (z, j) = (k / w, k % w);
    assert(w * z == z * w) by (nonlinear_arith);
    assert(0 <= z < n) by (nonlinear_arith)
        requires
            k == w * z + j,
            0 <= j < w,
            0 <= k < n * w,
    ;
    (z, j)
}

} // verus!
