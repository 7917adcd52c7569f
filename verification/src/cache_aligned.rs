//! Aligned word buffers in the cache format.
use crate::aligned::{aligned_from_slice, aligned_slice, words, AlignedMemory64};
use crate::cache::{
    agrees_by, dec_len, dec_words, enc_vec_u64, CacheError, CacheFault, MAX_LEN_PREFIX, Outcome,
    Reader, Stop,
};
use crate::cache_laws::{holds_at, lemma_vec_u64_reads};
use crate::offline::{write_u64_le, write_u64_slice};
use crate::text::{decimal, text_two_numbers};
use vstd::bytes::*;
use vstd::prelude::*;

verus! {

/// The fault of a buffer of the wrong length.
pub open spec fn wrong_words(what: Seq<char>, got: int, expected: int) -> CacheFault {
    CacheFault::Malformed {
        what,
        detail: "length "@ + decimal(got as nat) + " u64s != expected "@ + decimal(
            expected as nat,
        ) + " u64s"@,
    }
}

/// Reading a buffer of `n` words.
pub open spec fn dec_aligned(data: Seq<u8>, pos: int, n: int, what: Seq<char>) -> Outcome<
    Seq<u64>,
> {
    match dec_len(data, pos, what) {
        Ok((v, p)) => if v != n {
            Err((wrong_words(what, v, n), p))
        } else {
            dec_words(data, p, n, what)
        },
        Err(e) => Err(e),
    }
}

/// Appends a buffer: its length, then its words.
pub fn dump_aligned_memory64(out: &mut Vec<u8>, m: &AlignedMemory64)
    ensures
        final(out)@ == old(out)@ + enc_vec_u64(words(*m)),
{
    let s: &[u64] = aligned_slice(m);
    write_u64_le(out, s.len() as u64);
    write_u64_slice(out, s);
    assert(out@ =~= old(out)@ + enc_vec_u64(words(*m)));
}

impl<'a> Reader<'a> {
    /// Takes a buffer whose length must be `expected_len`. The length is checked
    /// before anything is allocated.
    pub fn load_aligned_memory64_exact(&mut self, expected_len: usize, what: &'static str) -> (r:
        Result<AlignedMemory64, CacheError>)
        requires
            old(self).wf(),
            0 < expected_len,
            expected_len * 8 + 64 <= isize::MAX,
        ensures
            final(self).wf(),
            final(self).data == old(self).data,
            agrees_by(
                r,
                |m: AlignedMemory64| words(m),
                dec_aligned(old(self).data@, old(self).pos as int, expected_len as int, what@),
                final(self).pos as int,
            ),
    {
        let on_disk: usize = self.read_len(what)?;
        if on_disk != expected_len {
            let mut detail: String = text_two_numbers(
                "length ",
                on_disk as u64,
                " u64s != expected ",
                expected_len as u64,
            );
            detail.append(" u64s");
            return Err(CacheError::Malformed { what, detail });
        }
        let v: Vec<u64> = self.read_u64_slice(expected_len, what)?;
        Ok(aligned_from_slice(v.as_slice()))
    }
}

/// A buffer that was written reads back, wherever it stands.
pub proof fn aligned_reads_back(data: Seq<u8>, pos: int, s: Seq<u64>, what: Seq<char>)
    requires
        s.len() <= MAX_LEN_PREFIX,
        holds_at(data, pos, enc_vec_u64(s)),
    ensures
        dec_aligned(data, pos, s.len() as int, what) == Ok::<(Seq<u64>, int), Stop>(
            (s, pos + enc_vec_u64(s).len()),
        ),
{
    lemma_vec_u64_reads(data, pos, s, what);
}

} // verus!
