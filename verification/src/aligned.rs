//! The cache-line aligned word buffers that queries travel in.
use valar_spiral_rs::aligned_memory::AlignedMemory;
use vstd::prelude::*;

verus! {

/// `AlignedMemory` of the spiral crate: a zero-initialised `u64` buffer whose
/// start is a multiple of `ALIGN` bytes.
#[verifier::external_type_specification]
#[verifier::external_body]
pub struct ExAlignedMemory<const ALIGN: usize>(AlignedMemory<ALIGN>);

/// A word buffer aligned to 64 bytes.
pub type AlignedMemory64 = AlignedMemory<64>;

/// The words that a buffer holds.
pub uninterp spec fn words(m: AlignedMemory64) -> Seq<u64>;

/// `AlignedMemory64::new`: a buffer of `len` zero words.
#[verifier::external_body]
pub(crate) fn aligned_new(len: usize) -> (r: AlignedMemory64)
    requires
        0 < len,
        len * 8 + 64 <= isize::MAX,
    ensures
        words(r) == Seq::new(len as nat, |i: int| 0u64),
{
    AlignedMemory64::new(len)
}

/// `AlignedMemory64::as_slice`: the whole buffer, in order.
#[verifier::external_body]
pub(crate) fn aligned_slice(m: &AlignedMemory64) -> (r: &[u64])
    ensures
        r@ == words(*m),
{
    m.as_slice()
}

/// `AlignedMemory64::as_mut_slice`, indexed: stores `value` at `i` and leaves
/// every other word alone.
#[verifier::external_body]
pub(crate) fn aligned_set(m: &mut AlignedMemory64, i: usize, value: u64)
    requires
        i < words(*old(m)).len(),
    ensures
        words(*final(m)) == words(*old(m)).update(i as int, value),
{
    m.as_mut_slice()[i] = value;
}

/// A buffer with the words of `s`.
pub fn aligned_from_slice(s: &[u64]) -> (r: AlignedMemory64)
    requires
        0 < s@.len(),
        s@.len() * 8 + 64 <= isize::MAX,
    ensures
        words(r) == s@,
{
    let mut m: AlignedMemory64 = aligned_new(s.len());
    let mut i: usize = 0;
    while i < s.len()
        invariant
            i <= s@.len(),
            words(m).len() == s@.len(),
            forall|k: int| 0 <= k < i ==> words(m)[k] == s@[k],
        decreases s@.len() - i,
    {
        aligned_set(&mut m, i, s[i]);
        i = i + 1;
    }
    assert(words(m) =~= s@);
    m
}

} // verus!
