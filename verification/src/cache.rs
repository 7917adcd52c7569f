//! The binary format of precomputed values kept for a warm restart.
//!
//! All integers are little-endian. Every section of variable length starts
//! with its length as eight bytes. A reader checks every length against the
//! one that the parameters ask for before it takes what follows, so that no
//! input makes it fail otherwise than by an error.
//!
//! What the bytes mean is said by the functions whose names start with `enc`,
//! which give the bytes of a value, and by those whose names start with `dec`,
//! which give what reading at a position comes to.
use crate::offline::malformed;
use crate::params::Params;
use crate::poly::PolyMatrixNTT;
use crate::text::{decimal, text_two_numbers};
use vstd::bytes::*;
use vstd::prelude::*;
use vstd::string::*;

verus! {

/// Why cached bytes could not be read.
#[derive(Debug, Clone, PartialEq, Eq)]
pub enum CacheError {
    /// The input ended before the `needed` bytes of a field. The count of
    /// bytes is cut to the largest that a `usize` holds.
    Truncated { what: &'static str, needed: usize, got: usize },
    /// A field does not have the value or the size that it must have.
    Malformed { what: &'static str, detail: String },
}

impl CacheError {
    /// The error as text.
    pub fn message(&self) -> (r: String)
        ensures
            match *self {
                CacheError::Truncated { what, needed, got } => r@ == "cache truncated: "@ + what@
                    + " needed "@ + decimal(needed as nat) + " bytes, got "@ + decimal(got as nat),
                CacheError::Malformed { what, detail } => r@ == "cache malformed: "@ + what@ + ": "@
                    + detail@,
            },
    {
        match self {
            CacheError::Truncated { what, needed, got } => {
                let mut text: String = String::from_str("cache truncated: ");
                text.append(what);
                text.append(
                    text_two_numbers(" needed ", *needed as u64, " bytes, got ", *got as u64).as_str(),
                );
                assert(text@ =~= "cache truncated: "@ + what@ + " needed "@ + decimal(
                    *needed as nat,
                ) + " bytes, got "@ + decimal(*got as nat));
                text
            },
            CacheError::Malformed { what, detail } => {
                let mut text: String = String::from_str("cache malformed: ");
                text.append(what);
                text.append(": ");
                text.append(detail.as_str());
                text
            },
        }
    }
}

/// What a `CacheError` says.
pub enum CacheFault {
    Truncated { what: Seq<char>, needed: int, got: int },
    Malformed { what: Seq<char>, detail: Seq<char> },
}

impl View for CacheError {
    type V = CacheFault;

    open spec fn view(&self) -> CacheFault {
        match self {
            CacheError::Truncated { what, needed, got } => CacheFault::Truncated {
                what: what@,
                needed: *needed as int,
                got: *got as int,
            },
            CacheError::Malformed { what, detail } => CacheFault::Malformed {
                what: what@,
                detail: detail@,
            },
        }
    }
}

/// Why and where reading stopped.
pub type Stop = (CacheFault, int);

/// The outcome of reading a value: the value and the position behind it, or
/// what is wrong and the position that reading came to. A field that the input
/// is too short for is not entered; one with a wrong value is behind it.
pub type Outcome<T> = Result<(T, int), Stop>;

/// The largest length that a length prefix may announce.
pub const MAX_LEN_PREFIX: u64 = 0x8000_0000;

/// The bytes that a read misses, as an error reports them.
pub open spec fn reported(n: int) -> int {
    if n <= usize::MAX {
        n
    } else {
        usize::MAX as int
    }
}

/// The fault of an input that ends before a field of `n` bytes.
pub open spec fn short(what: Seq<char>, n: int) -> CacheFault {
    CacheFault::Truncated { what, needed: reported(n), got: 0 }
}

/// The text of a number that differs from the expected one.
pub open spec fn differs(what: Seq<char>, label: Seq<char>, got: int, expected: int) -> CacheFault {
    CacheFault::Malformed {
        what,
        detail: label + decimal(got as nat) + " != expected "@ + decimal(expected as nat),
    }
}

/// A matrix as its shape and words.
pub struct MatrixView {
    pub rows: nat,
    pub cols: nat,
    pub data: Seq<u64>,
}

/// The view of a matrix.
pub open spec fn matrix_view(m: PolyMatrixNTT) -> MatrixView {
    MatrixView { rows: m.rows as nat, cols: m.cols as nat, data: m.data@ }
}

/// The views of a list of matrices.
pub open spec fn matrices_view(v: Seq<PolyMatrixNTT>) -> Seq<MatrixView> {
    Seq::new(v.len(), |i: int| matrix_view(v[i]))
}

/// The bytes of words, one after the other.
pub open spec fn enc_words(s: Seq<u64>) -> Seq<u8> {
    Seq::new(8 * s.len(), |k: int| spec_u64_to_le_bytes(s[k / 8])[k % 8])
}

/// The word at position `pos`.
pub open spec fn word_at(data: Seq<u8>, pos: int) -> u64 {
    spec_u64_from_le_bytes(data.subrange(pos, pos + 8))
}

/// Reading one byte.
pub open spec fn dec_u8(data: Seq<u8>, pos: int, what: Seq<char>) -> Outcome<u8> {
    if pos + 1 <= data.len() {
        Ok((data[pos], pos + 1))
    } else {
        Err((short(what, 1), pos))
    }
}

/// Reading a number of four bytes.
pub open spec fn dec_u32(data: Seq<u8>, pos: int, what: Seq<char>) -> Outcome<u32> {
    if pos + 4 <= data.len() {
        Ok((spec_u32_from_le_bytes(data.subrange(pos, pos + 4)), pos + 4))
    } else {
        Err((short(what, 4), pos))
    }
}

/// Reading a number of eight bytes.
pub open spec fn dec_u64(data: Seq<u8>, pos: int, what: Seq<char>) -> Outcome<u64> {
    if pos + 8 <= data.len() {
        Ok((word_at(data, pos), pos + 8))
    } else {
        Err((short(what, 8), pos))
    }
}

/// Reading `n` words.
pub open spec fn dec_words(data: Seq<u8>, pos: int, n: int, what: Seq<char>) -> Outcome<Seq<u64>> {
    if pos + 8 * n <= data.len() {
        Ok((Seq::new(n as nat, |i: int| word_at(data, pos + 8 * i)), pos + 8 * n))
    } else {
        Err((short(what, 8 * n), pos))
    }
}

/// A length that passed the ceiling, or the fault of one that did not.
pub open spec fn checked_len(v: int, pos: int, what: Seq<char>) -> Outcome<int> {
    if v > MAX_LEN_PREFIX {
        Err(
            (
                CacheFault::Malformed {
                    what,
                    detail: "length "@ + decimal(v as nat) + " exceeds sanity ceiling "@ + decimal(
                        MAX_LEN_PREFIX as nat,
                    ) + " (likely corrupted)"@,
                },
                pos,
            ),
        )
    } else {
        Ok((v, pos))
    }
}

/// Reading a length of eight bytes.
pub open spec fn dec_len(data: Seq<u8>, pos: int, what: Seq<char>) -> Outcome<int> {
    match dec_u64(data, pos, what) {
        Ok((v, p)) => checked_len(v as int, p, what),
        Err(e) => Err(e),
    }
}

/// Reading a length of four bytes.
pub open spec fn dec_dim(data: Seq<u8>, pos: int, what: Seq<char>) -> Outcome<int> {
    match dec_u32(data, pos, what) {
        Ok((v, p)) => checked_len(v as int, p, what),
        Err(e) => Err(e),
    }
}

/// Reading a length that must be `expected`; gives the position behind it.
pub open spec fn dec_len_exact(
    data: Seq<u8>,
    pos: int,
    expected: int,
    label: Seq<char>,
    what: Seq<char>,
) -> Outcome<()> {
    match dec_len(data, pos, what) {
        Ok((v, p)) => if v != expected {
            Err((differs(what, label, v, expected), p))
        } else {
            Ok(((), p))
        },
        Err(e) => Err(e),
    }
}

/// The bytes of a list of words: its length, then the words.
pub open spec fn enc_vec_u64(s: Seq<u64>) -> Seq<u8> {
    spec_u64_to_le_bytes(s.len() as u64) + enc_words(s)
}

/// Reading a list of `n` words.
pub open spec fn dec_vec_u64(data: Seq<u8>, pos: int, n: int, what: Seq<char>) -> Outcome<
    Seq<u64>,
> {
    match dec_len_exact(data, pos, n, "length "@, what) {
        Ok((_, p)) => dec_words(data, p, n, what),
        Err(e) => Err(e),
    }
}

/// The bytes of a matrix: rows and columns in four bytes each, then the words.
pub open spec fn enc_matrix(m: MatrixView) -> Seq<u8> {
    spec_u32_to_le_bytes((m.rows % 0x1_0000_0000) as u32) + spec_u32_to_le_bytes(
        (m.cols % 0x1_0000_0000) as u32,
    ) + enc_words(m.data)
}

/// Reading a matrix that must have the given shape, with `words` words to a
/// polynomial.
pub open spec fn dec_matrix(
    data: Seq<u8>,
    pos: int,
    words: int,
    rows: int,
    cols: int,
    what: Seq<char>,
) -> Outcome<MatrixView> {
    match dec_dim(data, pos, what) {
        Err(e) => Err(e),
        Ok((r, p1)) => match dec_dim(data, p1, what) {
            Err(e) => Err(e),
            Ok((c, p2)) => if r != rows || c != cols {
                Err(
                    (
                        CacheFault::Malformed {
                            what,
                            detail: "matrix dims "@ + decimal(r as nat) + "x"@ + decimal(c as nat)
                                + " != expected "@ + decimal(rows as nat) + "x"@ + decimal(
                                cols as nat,
                            ),
                        },
                        p2,
                    ),
                )
            } else {
                match dec_words(data, p2, rows * cols * words, what) {
                    Err(e) => Err(e),
                    Ok((d, p3)) => Ok(
                        (MatrixView { rows: rows as nat, cols: cols as nat, data: d }, p3),
                    ),
                }
            },
        },
    }
}

/// Reading `n` values one after the other, each as `item` says.
pub open spec fn dec_many<T>(pos: int, n: int, item: spec_fn(int) -> Outcome<T>) -> Outcome<
    Seq<T>,
>
    decreases n,
{
    if n <= 0 {
        Ok((Seq::empty(), pos))
    } else {
        match dec_many(pos, n - 1, item) {
            Err(e) => Err(e),
            Ok((s, p)) => match item(p) {
                Err(e) => Err(e),
                Ok((x, p2)) => Ok((s.push(x), p2)),
            },
        }
    }
}

/// The bytes of values one after the other, each as `item` says.
pub open spec fn enc_many<T>(s: Seq<T>, item: spec_fn(T) -> Seq<u8>) -> Seq<u8>
    decreases s.len(),
{
    if s.len() == 0 {
        Seq::empty()
    } else {
        enc_many(s.drop_last(), item) + item(s.last())
    }
}

/// The bytes of a list: its length, then its values.
pub open spec fn enc_list<T>(s: Seq<T>, item: spec_fn(T) -> Seq<u8>) -> Seq<u8> {
    spec_u64_to_le_bytes(s.len() as u64) + enc_many(s, item)
}

/// Reading a list that must have `n` values.
pub open spec fn dec_list<T>(
    data: Seq<u8>,
    pos: int,
    n: int,
    item: spec_fn(int) -> Outcome<T>,
    label: Seq<char>,
    what: Seq<char>,
) -> Outcome<Seq<T>> {
    match dec_len_exact(data, pos, n, label, what) {
        Ok((_, p)) => dec_many(p, n, item),
        Err(e) => Err(e),
    }
}

/// The bytes of each matrix of a list.
pub open spec fn matrix_bytes() -> spec_fn(MatrixView) -> Seq<u8> {
    |m: MatrixView| enc_matrix(m)
}

/// The bytes of a list of matrices.
pub open spec fn enc_matrices(s: Seq<MatrixView>) -> Seq<u8> {
    enc_list(s, matrix_bytes())
}

/// Reading each matrix of a list.
pub open spec fn matrix_item(
    data: Seq<u8>,
    words: int,
    rows: int,
    cols: int,
    what: Seq<char>,
) -> spec_fn(int) -> Outcome<MatrixView> {
    |p: int| dec_matrix(data, p, words, rows, cols, what)
}

/// Reading a list of `n` matrices of one shape.
pub open spec fn dec_matrices(
    data: Seq<u8>,
    pos: int,
    n: int,
    words: int,
    rows: int,
    cols: int,
    label: Seq<char>,
    what: Seq<char>,
) -> Outcome<Seq<MatrixView>> {
    dec_list(data, pos, n, matrix_item(data, words, rows, cols, what), label, what)
}

/// The bytes of each list of a list of lists of matrices.
pub open spec fn matrices_bytes() -> spec_fn(Seq<MatrixView>) -> Seq<u8> {
    |m: Seq<MatrixView>| enc_matrices(m)
}

/// The bytes of a list of lists of matrices.
pub open spec fn enc_matrix_lists(s: Seq<Seq<MatrixView>>) -> Seq<u8> {
    enc_list(s, matrices_bytes())
}

/// Reading each list of a list of lists of matrices.
pub open spec fn matrices_item(
    data: Seq<u8>,
    inner: int,
    words: int,
    rows: int,
    cols: int,
    what: Seq<char>,
) -> spec_fn(int) -> Outcome<Seq<MatrixView>> {
    |p: int| dec_matrices(data, p, inner, words, rows, cols, "inner length "@, what)
}

/// Reading a list of `outer` lists of `inner` matrices of one shape.
pub open spec fn dec_matrix_lists(
    data: Seq<u8>,
    pos: int,
    outer: int,
    inner: int,
    words: int,
    rows: int,
    cols: int,
    what: Seq<char>,
) -> Outcome<Seq<Seq<MatrixView>>> {
    dec_list(
        data,
        pos,
        outer,
        matrices_item(data, inner, words, rows, cols, what),
        "outer length "@,
        what,
    )
}

/// The bytes of each index of a list.
pub open spec fn index_bytes() -> spec_fn(usize) -> Seq<u8> {
    |x: usize| spec_u64_to_le_bytes(x as u64)
}

/// The bytes of a list of indices, eight bytes to an index.
pub open spec fn enc_indices(s: Seq<usize>) -> Seq<u8> {
    enc_list(s, index_bytes())
}

/// Reading an index, which must pass the length ceiling.
pub open spec fn dec_index(data: Seq<u8>, pos: int, what: Seq<char>) -> Outcome<usize> {
    match dec_len(data, pos, what) {
        Ok((v, p)) => Ok((v as usize, p)),
        Err(e) => Err(e),
    }
}

/// Reading each index of a list.
pub open spec fn index_item(data: Seq<u8>, what: Seq<char>) -> spec_fn(int) -> Outcome<usize> {
    |p: int| dec_index(data, p, what)
}

/// Reading a list of `n` indices.
pub open spec fn dec_indices(data: Seq<u8>, pos: int, n: int, what: Seq<char>) -> Outcome<
    Seq<usize>,
> {
    dec_list(data, pos, n, index_item(data, what), "length "@, what)
}

/// The bytes of each list of a table of indices.
pub open spec fn indices_bytes() -> spec_fn(Seq<usize>) -> Seq<u8> {
    |x: Seq<usize>| enc_indices(x)
}

/// The bytes of a table of indices.
pub open spec fn enc_index_lists(s: Seq<Seq<usize>>) -> Seq<u8> {
    enc_list(s, indices_bytes())
}

/// Reading each list of a table of indices.
pub open spec fn indices_item(data: Seq<u8>, inner: int, what: Seq<char>) -> spec_fn(
    int,
) -> Outcome<Seq<usize>> {
    |p: int| dec_indices(data, p, inner, what)
}

/// Reading a table of `outer` lists of `inner` indices.
pub open spec fn dec_index_lists(
    data: Seq<u8>,
    pos: int,
    outer: int,
    inner: int,
    what: Seq<char>,
) -> Outcome<Seq<Seq<usize>>> {
    dec_list(data, pos, outer, indices_item(data, inner, what), "outer length "@, what)
}

/// The precomputation of one packed ciphertext: a matrix, a list of matrices
/// and a table of indices.
pub struct PrecompView {
    pub first: MatrixView,
    pub list: Seq<MatrixView>,
    pub tables: Seq<Seq<usize>>,
}

/// The shape of the precomputation.
pub struct PrecompShape {
    pub outer: usize,
    pub m_rows: usize,
    pub m_cols: usize,
    pub vm_len: usize,
    pub vm_rows: usize,
    pub vm_cols: usize,
    pub vvu_outer: usize,
    pub vvu_inner: usize,
}

/// The bytes of one precomputation.
pub open spec fn enc_precomp_item(x: PrecompView) -> Seq<u8> {
    enc_matrix(x.first) + enc_matrices(x.list) + enc_index_lists(x.tables)
}

/// The bytes of each precomputation of a list.
pub open spec fn precomp_bytes() -> spec_fn(PrecompView) -> Seq<u8> {
    |x: PrecompView| enc_precomp_item(x)
}

/// The bytes of a list of precomputations.
pub open spec fn enc_precomp(s: Seq<PrecompView>) -> Seq<u8> {
    enc_list(s, precomp_bytes())
}

/// Reading one precomputation of the given shape.
pub open spec fn dec_precomp_item(
    data: Seq<u8>,
    pos: int,
    words: int,
    shape: PrecompShape,
    what: Seq<char>,
) -> Outcome<PrecompView> {
    match dec_matrix(data, pos, words, shape.m_rows as int, shape.m_cols as int, what) {
        Err(e) => Err(e),
        Ok((first, p1)) => match dec_matrices(
            data,
            p1,
            shape.vm_len as int,
            words,
            shape.vm_rows as int,
            shape.vm_cols as int,
            "vm length "@,
            what,
        ) {
            Err(e) => Err(e),
            Ok((list, p2)) => match dec_index_lists(
                data,
                p2,
                shape.vvu_outer as int,
                shape.vvu_inner as int,
                what,
            ) {
                Err(e) => Err(e),
                Ok((tables, p3)) => Ok((PrecompView { first, list, tables }, p3)),
            },
        },
    }
}

/// Reading each precomputation of a list.
pub open spec fn precomp_item(
    data: Seq<u8>,
    words: int,
    shape: PrecompShape,
    what: Seq<char>,
) -> spec_fn(int) -> Outcome<PrecompView> {
    |p: int| dec_precomp_item(data, p, words, shape, what)
}

/// Reading a list of precomputations of the given shape.
pub open spec fn dec_precomp(
    data: Seq<u8>,
    pos: int,
    words: int,
    shape: PrecompShape,
    what: Seq<char>,
) -> Outcome<Seq<PrecompView>> {
    dec_list(
        data,
        pos,
        shape.outer as int,
        precomp_item(data, words, shape, what),
        "outer length "@,
        what,
    )
}

/// Cached bytes and the position from which reading goes on.
pub struct Reader<'a> {
    pub data: &'a [u8],
    pub pos: usize,
}

/// `r` is what `outcome` says, and reading went on to `end`.
pub open spec fn agrees<T>(r: Result<T, CacheError>, outcome: Outcome<T>, end: int) -> bool {
    match r {
        Ok(v) => outcome == Ok::<(T, int), Stop>((v, end)),
        Err(e) => outcome == Err::<(T, int), Stop>((e@, end)),
    }
}

/// The value seen through `view` is what `outcome` says, and reading
/// went on to `end`.
pub open spec fn agrees_by<T, V>(
    r: Result<T, CacheError>,
    view: spec_fn(T) -> V,
    outcome: Outcome<V>,
    end: int,
) -> bool {
    match r {
        Ok(v) => outcome == Ok::<(V, int), Stop>((view(v), end)),
        Err(e) => outcome == Err::<(V, int), Stop>((e@, end)),
    }
}

/// The error of an input that ends before a field of `n` bytes.
fn short_error(what: &'static str, n: u64) -> (r: CacheError)
    ensures
        r@ == short(what@, n as int),
{
    let needed: usize = if n <= usize::MAX as u64 {
        n as usize
    } else {
        usize::MAX
    };
    CacheError::Truncated { what, needed, got: 0 }
}

/// The error of a number that differs from the expected one.
fn differs_error(what: &'static str, label: &str, got: u64, expected: u64) -> (r: CacheError)
    ensures
        r@ == differs(what@, label@, got as int, expected as int),
{
    CacheError::Malformed { what, detail: text_two_numbers(label, got, " != expected ", expected) }
}

/// Converts a length, unless it exceeds the ceiling.
fn u64_to_usize(v: u64, what: &'static str) -> (r: Result<usize, CacheError>)
    ensures
        forall|p: int|
            match r {
                Ok(n) => n == v && #[trigger] checked_len(v as int, p, what@) == Ok::<
                    (int, int),
                    Stop,
                >((v as int, p)),
                Err(e) => checked_len(v as int, p, what@) == Err::<(int, int), Stop>((e@, p)),
            },
{
    if v > MAX_LEN_PREFIX {
        let mut detail: String = text_two_numbers(
            "length ",
            v,
            " exceeds sanity ceiling ",
            MAX_LEN_PREFIX,
        );
        detail.append(" (likely corrupted)");
        return Err(CacheError::Malformed { what, detail });
    }
    Ok(v as usize)
}

impl<'a> Reader<'a> {
    /// The position lies inside the bytes or at their end.
    pub open spec fn wf(&self) -> bool {
        self.pos <= self.data@.len()
    }

    /// A reader at the start of `data`.
    pub fn new(data: &'a [u8]) -> (r: Self)
        ensures
            r.wf(),
            r.data == data,
            r.pos == 0,
    {
        Reader { data, pos: 0 }
    }

    /// Takes one byte.
    pub(crate) fn read_u8(&mut self, what: &'static str) -> (r: Result<u8, CacheError>)
        requires
            old(self).wf(),
        ensures
            final(self).wf(),
            final(self).data == old(self).data,
            agrees(
                r,
                dec_u8(old(self).data@, old(self).pos as int, what@),
                final(self).pos as int,
            ),
    {
        if self.pos < self.data.len() {
            let v: u8 = self.data[self.pos];
            self.pos = self.pos + 1;
            Ok(v)
        } else {
            Err(short_error(what, 1))
        }
    }

    /// Takes a number of four bytes.
    fn read_u32_le(&mut self, what: &'static str) -> (r: Result<u32, CacheError>)
        requires
            old(self).wf(),
        ensures
            final(self).wf(),
            final(self).data == old(self).data,
            agrees(
                r,
                dec_u32(old(self).data@, old(self).pos as int, what@),
                final(self).pos as int,
            ),
    {
        if self.data.len() - self.pos >= 4 {
            let v: u32 = u32_from_le_bytes(
                vstd::slice::slice_subrange(self.data, self.pos, self.pos + 4),
            );
            self.pos = self.pos + 4;
            Ok(v)
        } else {
            Err(short_error(what, 4))
        }
    }

    /// Takes a number of eight bytes.
    fn read_u64_le(&mut self, what: &'static str) -> (r: Result<u64, CacheError>)
        requires
            old(self).wf(),
        ensures
            final(self).wf(),
            final(self).data == old(self).data,
            agrees(
                r,
                dec_u64(old(self).data@, old(self).pos as int, what@),
                final(self).pos as int,
            ),
    {
        if self.data.len() - self.pos >= 8 {
            let v: u64 = u64_from_le_bytes(
                vstd::slice::slice_subrange(self.data, self.pos, self.pos + 8),
            );
            self.pos = self.pos + 8;
            Ok(v)
        } else {
            Err(short_error(what, 8))
        }
    }

    /// Takes `n` words.
    pub(crate) fn read_u64_slice(&mut self, n: usize, what: &'static str) -> (r: Result<Vec<u64>, CacheError>)
        requires
            old(self).wf(),
            n <= 0x1fff_ffff_ffff_ffff,
        ensures
            final(self).wf(),
            final(self).data == old(self).data,
            agrees_by(
                r,
                |v: Vec<u64>| v@,
                dec_words(old(self).data@, old(self).pos as int, n as int, what@),
                final(self).pos as int,
            ),
    {
        let left: usize = self.data.len() - self.pos;
        let needed: u64 = 8 * n as u64;
        if (left as u64) < needed {
            return Err(short_error(what, needed));
        }
        let ghost data = self.data@;
        let ghost start = self.pos as int;
        let bytes: &[u8] = self.data;
        let total: usize = bytes.len();
        let mut out: Vec<u64> = Vec::new();
        let mut at: usize = self.pos;
        let mut i: usize = 0;
        while i < n
            invariant
                bytes@ == data,
                total == data.len(),
                i <= n,
                at == start + 8 * i,
                start + 8 * n <= total,
                out@.len() == i,
                forall|k: int| 0 <= k < i ==> #[trigger] out@[k] == word_at(data, start + 8 * k),
            decreases n - i,
        {
            out.push(u64_from_le_bytes(vstd::slice::slice_subrange(bytes, at, at + 8)));
            at = at + 8;
            i = i + 1;
        }
        self.pos = at;
        assert(out@ =~= Seq::new(n as nat, |k: int| word_at(data, start + 8 * k)));
        Ok(out)
    }

    /// Takes a length of eight bytes.
    pub(crate) fn read_len(&mut self, what: &'static str) -> (r: Result<usize, CacheError>)
        requires
            old(self).wf(),
        ensures
            final(self).wf(),
            final(self).data == old(self).data,
            agrees_by(
                r,
                |v: usize| v as int,
                dec_len(old(self).data@, old(self).pos as int, what@),
                final(self).pos as int,
            ),
            agrees(
                r,
                dec_index(old(self).data@, old(self).pos as int, what@),
                final(self).pos as int,
            ),
            r matches Ok(n) ==> n <= MAX_LEN_PREFIX,
    {
        let v: u64 = self.read_u64_le(what)?;
        let ghost p = self.pos as int;
        let r: Result<usize, CacheError> = u64_to_usize(v, what);
        assert(checked_len(v as int, p, what@) == checked_len(v as int, p, what@));
        r
    }

    /// Takes a length of four bytes.
    fn read_dim(&mut self, what: &'static str) -> (r: Result<usize, CacheError>)
        requires
            old(self).wf(),
        ensures
            final(self).wf(),
            final(self).data == old(self).data,
            agrees_by(
                r,
                |v: usize| v as int,
                dec_dim(old(self).data@, old(self).pos as int, what@),
                final(self).pos as int,
            ),
    {
        let v: u32 = self.read_u32_le(what)?;
        let ghost p = self.pos as int;
        let r: Result<usize, CacheError> = u64_to_usize(v as u64, what);
        assert(checked_len(v as int, p, what@) == checked_len(v as int, p, what@));
        r
    }

    /// Takes a length of eight bytes that must be `expected`.
    fn read_len_exact(&mut self, expected: usize, label: &str, what: &'static str) -> (r: Result<
        (),
        CacheError,
    >)
        requires
            old(self).wf(),
        ensures
            final(self).wf(),
            final(self).data == old(self).data,
            agrees(
                r,
                dec_len_exact(
                    old(self).data@,
                    old(self).pos as int,
                    expected as int,
                    label@,
                    what@,
                ),
                final(self).pos as int,
            ),
            r is Ok ==> expected <= MAX_LEN_PREFIX,
    {
        let on_disk: usize = self.read_len(what)?;
        if on_disk != expected {
            return Err(differs_error(what, label, on_disk as u64, expected as u64));
        }
        Ok(())
    }

    /// Takes a list of words whose length must be `expected_len`. The length
    /// is checked before anything is allocated.
    pub fn load_vec_u64_exact(&mut self, expected_len: usize, what: &'static str) -> (r: Result<
        Vec<u64>,
        CacheError,
    >)
        requires
            old(self).wf(),
        ensures
            final(self).wf(),
            final(self).data == old(self).data,
            agrees_by(
                r,
                |v: Vec<u64>| v@,
                dec_vec_u64(old(self).data@, old(self).pos as int, expected_len as int, what@),
                final(self).pos as int,
            ),
            ({
                let (data, pos, n) = (old(self).data@, old(self).pos as int, expected_len as int);
                let prefix = spec_u64_from_le_bytes(data.subrange(pos, pos + 8));
                &&& pos + 8 <= data.len() && prefix != n ==> (r matches Err(e)
                    && e@ is Malformed) && final(self).pos == pos + 8
                &&& pos + 8 <= data.len() && prefix == n && n <= 0x8000_0000 && pos + 8 + 8 * n
                    > data.len() ==> (r matches Err(e) && e@ is Truncated) && final(self).pos == pos
                    + 8
                &&& pos + 8 > data.len() ==> (r matches Err(e) && e@ is Truncated)
                    && final(self).pos == pos
                &&& r is Ok <==> pos + 8 <= data.len() && prefix == n && n <= 0x8000_0000 && pos + 8
                    + 8 * n <= data.len()
                &&& r matches Ok(v) ==> v@.len() == n && final(self).pos == pos + 8 + 8 * n
                    && forall|i: int|
                    0 <= i < n ==> #[trigger] v@[i] == spec_u64_from_le_bytes(
                        data.subrange(pos + 8 + 8 * i, pos + 16 + 8 * i),
                    )
            }),
    {
        self.read_len_exact(expected_len, "length ", what)?;
        self.read_u64_slice(expected_len, what)
    }

    /// Takes a matrix whose shape must be the expected one. The shape is
    /// checked before anything is allocated.
    pub fn load_poly_matrix_ntt_exact<'b>(
        &mut self,
        params: &'b Params,
        expected_rows: usize,
        expected_cols: usize,
        what: &'static str,
    ) -> (r: Result<PolyMatrixNTT<'b>, CacheError>)
        requires
            old(self).wf(),
            params.ring_wf(),
            countable(expected_rows as int, expected_cols as int, *params),
        ensures
            final(self).wf(),
            final(self).data == old(self).data,
            agrees_by(
                r,
                |m: PolyMatrixNTT<'b>| matrix_view(m),
                dec_matrix(
                    old(self).data@,
                    old(self).pos as int,
                    2 * params.poly_len,
                    expected_rows as int,
                    expected_cols as int,
                    what@,
                ),
                final(self).pos as int,
            ),
            r matches Ok(m) ==> m.params == params && m.wf() && m.rows == expected_rows && m.cols
                == expected_cols,
    {
        let rows: usize = self.read_dim(what)?;
        let cols: usize = self.read_dim(what)?;
        if rows != expected_rows || cols != expected_cols {
            let mut detail: String = text_two_numbers(
                "matrix dims ",
                rows as u64,
                "x",
                cols as u64,
            );
            detail.append(" != expected ");
            let tail: String = text_two_numbers("", expected_rows as u64, "x", expected_cols as u64);
            detail.append(tail.as_str());
            proof {
                reveal_strlit("");
                assert(detail@ =~= "matrix dims "@ + decimal(rows as nat) + "x"@ + decimal(
                    cols as nat,
                ) + " != expected "@ + decimal(expected_rows as nat) + "x"@ + decimal(
                    expected_cols as nat,
                ));
            }
            return Err(CacheError::Malformed { what, detail });
        }
        reveal(countable);
        assert(rows * cols <= rows * cols * (2 * params.poly_len)) by (nonlinear_arith)
            requires
                0 <= rows,
                0 <= cols,
                1 <= params.poly_len,
        ;
        let cells: usize = rows * cols;
        let data: Vec<u64> = self.read_u64_slice(cells * (2 * params.poly_len), what)?;
        Ok(PolyMatrixNTT { params, rows, cols, data })
    }
}

/// Reading more values after one that failed fails in the same way.
pub proof fn lemma_dec_many_stays_failed<T>(
    pos: int,
    k: int,
    n: int,
    item: spec_fn(int) -> Outcome<T>,
)
    requires
        k <= n,
        dec_many(pos, k, item) is Err,
    ensures
        dec_many(pos, n, item) == dec_many(pos, k, item),
    decreases n - k,
{
    if k < n {
        lemma_dec_many_stays_failed(pos, k, n - 1, item);
        if n <= 0 {
            assert(dec_many(pos, k, item) is Ok);
        }
    }
}

/// The views of lists of matrices.
pub open spec fn matrix_lists_view(v: Seq<Vec<PolyMatrixNTT>>) -> Seq<Seq<MatrixView>> {
    Seq::new(v.len(), |i: int| matrices_view(v[i]@))
}

/// The views of lists of indices.
pub open spec fn index_lists_view(v: Seq<Vec<usize>>) -> Seq<Seq<usize>> {
    Seq::new(v.len(), |i: int| v[i]@)
}

/// One precomputation as it is held.
pub type PrecompItem<'a> = (PolyMatrixNTT<'a>, Vec<PolyMatrixNTT<'a>>, Vec<Vec<usize>>);

/// A list of precomputations.
pub type Precomp<'a> = Vec<(PolyMatrixNTT<'a>, Vec<PolyMatrixNTT<'a>>, Vec<Vec<usize>>)>;

/// The view of one precomputation.
pub open spec fn precomp_item_view(x: PrecompItem) -> PrecompView {
    PrecompView {
        first: matrix_view(x.0),
        list: matrices_view(x.1@),
        tables: index_lists_view(x.2@),
    }
}

/// The views of a list of precomputations.
pub open spec fn precomp_view(v: Seq<PrecompItem>) -> Seq<PrecompView> {
    Seq::new(v.len(), |i: int| precomp_item_view(v[i]))
}

/// The bytes of a matrix of the given shape can be counted in a `usize`.
#[verifier::opaque]
pub open spec fn countable(rows: int, cols: int, params: Params) -> bool {
    rows * cols * (2 * params.poly_len) <= usize::MAX / 8
}

/// Every matrix of a list belongs to `params` and has the storage of its shape.
pub open spec fn all_wf<'b>(v: Seq<PolyMatrixNTT<'b>>, params: &Params) -> bool {
    forall|i: int| 0 <= i < v.len() ==> (#[trigger] v[i]).wf() && *v[i].params == *params
}

impl<'a> Reader<'a> {
    /// Takes a list of matrices whose length and shapes must be the expected
    /// ones, each checked before anything is allocated for it.
    fn load_matrices<'b>(
        &mut self,
        params: &'b Params,
        expected_outer: usize,
        expected_rows: usize,
        expected_cols: usize,
        label: &str,
        what: &'static str,
    ) -> (r: Result<Vec<PolyMatrixNTT<'b>>, CacheError>)
        requires
            old(self).wf(),
            params.ring_wf(),
            countable(expected_rows as int, expected_cols as int, *params),
        ensures
            final(self).wf(),
            final(self).data == old(self).data,
            agrees_by(
                r,
                |v: Vec<PolyMatrixNTT<'b>>| matrices_view(v@),
                dec_matrices(
                    old(self).data@,
                    old(self).pos as int,
                    expected_outer as int,
                    2 * params.poly_len,
                    expected_rows as int,
                    expected_cols as int,
                    label@,
                    what@,
                ),
                final(self).pos as int,
            ),
            r matches Ok(v) ==> all_wf(v@, params),
    {
        let ghost data = self.data@;
        self.read_len_exact(expected_outer, label, what)?;
        let ghost start = self.pos as int;
        let ghost item = matrix_item(
            data,
            2 * params.poly_len,
            expected_rows as int,
            expected_cols as int,
            what@,
        );
        let mut out: Vec<PolyMatrixNTT<'b>> = Vec::new();
        let mut i: usize = 0;
        assert(matrices_view(out@) =~= Seq::empty());
        while i < expected_outer
            invariant
                self.wf(),
                self.data@ == data,
                self.data == old(self).data,
                params.ring_wf(),
                countable(expected_rows as int, expected_cols as int, *params),
                i <= expected_outer,
                item == matrix_item(
                    data,
                    2 * params.poly_len,
                    expected_rows as int,
                    expected_cols as int,
                    what@,
                ),
                dec_matrices(
                    old(self).data@,
                    old(self).pos as int,
                    expected_outer as int,
                    2 * params.poly_len,
                    expected_rows as int,
                    expected_cols as int,
                    label@,
                    what@,
                ) == dec_many(start, expected_outer as int, item),
                dec_many(start, i as int, item) == Ok::<(Seq<MatrixView>, int), Stop>(
                    (matrices_view(out@), self.pos as int),
                ),
                all_wf(out@, params),
            decreases expected_outer - i,
        {
            let ghost views = matrices_view(out@);
            let r: Result<PolyMatrixNTT<'b>, CacheError> = self.load_poly_matrix_ntt_exact(
                params,
                expected_rows,
                expected_cols,
                what,
            );
            match r {
                Ok(m) => {
                    let ghost mv = matrix_view(m);
                    out.push(m);
                    assert(matrices_view(out@) =~= views.push(mv));
                },
                Err(e) => {
                    proof {
                        lemma_dec_many_stays_failed(start, i + 1, expected_outer as int, item);
                    }
                    return Err(e);
                },
            }
            i = i + 1;
        }
        Ok(out)
    }

    /// Takes a list of matrices whose length and shapes must be the expected
    /// ones.
    pub fn load_vec_pmntt_exact<'b>(
        &mut self,
        params: &'b Params,
        expected_outer: usize,
        expected_rows: usize,
        expected_cols: usize,
        what: &'static str,
    ) -> (r: Result<Vec<PolyMatrixNTT<'b>>, CacheError>)
        requires
            old(self).wf(),
            params.ring_wf(),
            countable(expected_rows as int, expected_cols as int, *params),
        ensures
            final(self).wf(),
            final(self).data == old(self).data,
            agrees_by(
                r,
                |v: Vec<PolyMatrixNTT<'b>>| matrices_view(v@),
                dec_matrices(
                    old(self).data@,
                    old(self).pos as int,
                    expected_outer as int,
                    2 * params.poly_len,
                    expected_rows as int,
                    expected_cols as int,
                    "outer length "@,
                    what@,
                ),
                final(self).pos as int,
            ),
            r matches Ok(v) ==> all_wf(v@, params),
    {
        self.load_matrices(
            params,
            expected_outer,
            expected_rows,
            expected_cols,
            "outer length ",
            what,
        )
    }

    /// Takes a list of lists of matrices whose lengths and shapes must be the
    /// expected ones.
    pub fn load_vec_vec_pmntt_exact<'b>(
        &mut self,
        params: &'b Params,
        expected_outer: usize,
        expected_inner: usize,
        expected_rows: usize,
        expected_cols: usize,
        what: &'static str,
    ) -> (r: Result<Vec<Vec<PolyMatrixNTT<'b>>>, CacheError>)
        requires
            old(self).wf(),
            params.ring_wf(),
            countable(expected_rows as int, expected_cols as int, *params),
        ensures
            final(self).wf(),
            final(self).data == old(self).data,
            agrees_by(
                r,
                |v: Vec<Vec<PolyMatrixNTT<'b>>>| matrix_lists_view(v@),
                dec_matrix_lists(
                    old(self).data@,
                    old(self).pos as int,
                    expected_outer as int,
                    expected_inner as int,
                    2 * params.poly_len,
                    expected_rows as int,
                    expected_cols as int,
                    what@,
                ),
                final(self).pos as int,
            ),
            r matches Ok(v) ==> forall|i: int|
                0 <= i < v@.len() ==> all_wf(#[trigger] v@[i]@, params),
    {
        let ghost data = self.data@;
        self.read_len_exact(expected_outer, "outer length ", what)?;
        let ghost start = self.pos as int;
        let ghost item = matrices_item(
            data,
            expected_inner as int,
            2 * params.poly_len,
            expected_rows as int,
            expected_cols as int,
            what@,
        );
        let mut out: Vec<Vec<PolyMatrixNTT<'b>>> = Vec::new();
        let mut i: usize = 0;
        assert(matrix_lists_view(out@) =~= Seq::empty());
        while i < expected_outer
            invariant
                self.wf(),
                self.data@ == data,
                self.data == old(self).data,
                params.ring_wf(),
                countable(expected_rows as int, expected_cols as int, *params),
                i <= expected_outer,
                item == matrices_item(
                    data,
                    expected_inner as int,
                    2 * params.poly_len,
                    expected_rows as int,
                    expected_cols as int,
                    what@,
                ),
                dec_matrix_lists(
                    old(self).data@,
                    old(self).pos as int,
                    expected_outer as int,
                    expected_inner as int,
                    2 * params.poly_len,
                    expected_rows as int,
                    expected_cols as int,
                    what@,
                ) == dec_many(start, expected_outer as int, item),
                dec_many(start, i as int, item) == Ok::<(Seq<Seq<MatrixView>>, int), Stop>(
                    (matrix_lists_view(out@), self.pos as int),
                ),
                forall|k: int| 0 <= k < out@.len() ==> all_wf(#[trigger] out@[k]@, params),
            decreases expected_outer - i,
        {
            let ghost views = matrix_lists_view(out@);
            let r: Result<Vec<PolyMatrixNTT<'b>>, CacheError> = self.load_matrices(
                params,
                expected_inner,
                expected_rows,
                expected_cols,
                "inner length ",
                what,
            );
            match r {
                Ok(inner) => {
                    let ghost iv = matrices_view(inner@);
                    out.push(inner);
                    assert(matrix_lists_view(out@) =~= views.push(iv));
                },
                Err(e) => {
                    proof {
                        lemma_dec_many_stays_failed(start, i + 1, expected_outer as int, item);
                    }
                    return Err(e);
                },
            }
            i = i + 1;
        }
        Ok(out)
    }

    /// Takes a list of indices whose length must be the expected one.
    pub fn load_vec_usize_exact(&mut self, expected_len: usize, what: &'static str) -> (r: Result<
        Vec<usize>,
        CacheError,
    >)
        requires
            old(self).wf(),
        ensures
            final(self).wf(),
            final(self).data == old(self).data,
            agrees_by(
                r,
                |v: Vec<usize>| v@,
                dec_indices(old(self).data@, old(self).pos as int, expected_len as int, what@),
                final(self).pos as int,
            ),
    {
        let ghost data = self.data@;
        self.read_len_exact(expected_len, "length ", what)?;
        let ghost start = self.pos as int;
        let ghost item = index_item(data, what@);
        let mut out: Vec<usize> = Vec::new();
        let mut i: usize = 0;
        while i < expected_len
            invariant
                self.wf(),
                self.data@ == data,
                self.data == old(self).data,
                i <= expected_len,
                item == index_item(data, what@),
                dec_indices(old(self).data@, old(self).pos as int, expected_len as int, what@)
                    == dec_many(start, expected_len as int, item),
                dec_many(start, i as int, item) == Ok::<(Seq<usize>, int), Stop>(
                    (out@, self.pos as int),
                ),
            decreases expected_len - i,
        {
            let r: Result<usize, CacheError> = self.read_len(what);
            match r {
                Ok(v) => {
                    out.push(v);
                },
                Err(e) => {
                    proof {
                        lemma_dec_many_stays_failed(start, i + 1, expected_len as int, item);
                    }
                    return Err(e);
                },
            }
            i = i + 1;
        }
        Ok(out)
    }

    /// Takes a table of indices whose lengths must be the expected ones.
    pub fn load_vec_vec_usize_exact(
        &mut self,
        expected_outer: usize,
        expected_inner: usize,
        what: &'static str,
    ) -> (r: Result<Vec<Vec<usize>>, CacheError>)
        requires
            old(self).wf(),
        ensures
            final(self).wf(),
            final(self).data == old(self).data,
            agrees_by(
                r,
                |v: Vec<Vec<usize>>| index_lists_view(v@),
                dec_index_lists(
                    old(self).data@,
                    old(self).pos as int,
                    expected_outer as int,
                    expected_inner as int,
                    what@,
                ),
                final(self).pos as int,
            ),
    {
        let ghost data = self.data@;
        self.read_len_exact(expected_outer, "outer length ", what)?;
        let ghost start = self.pos as int;
        let ghost item = indices_item(data, expected_inner as int, what@);
        let mut out: Vec<Vec<usize>> = Vec::new();
        let mut i: usize = 0;
        assert(index_lists_view(out@) =~= Seq::empty());
        while i < expected_outer
            invariant
                self.wf(),
                self.data@ == data,
                self.data == old(self).data,
                i <= expected_outer,
                item == indices_item(data, expected_inner as int, what@),
                dec_index_lists(
                    old(self).data@,
                    old(self).pos as int,
                    expected_outer as int,
                    expected_inner as int,
                    what@,
                ) == dec_many(start, expected_outer as int, item),
                dec_many(start, i as int, item) == Ok::<(Seq<Seq<usize>>, int), Stop>(
                    (index_lists_view(out@), self.pos as int),
                ),
            decreases expected_outer - i,
        {
            let ghost views = index_lists_view(out@);
            let r: Result<Vec<usize>, CacheError> = self.load_vec_usize_exact(
                expected_inner,
                what,
            );
            match r {
                Ok(v) => {
                    let ghost vv = v@;
                    out.push(v);
                    assert(index_lists_view(out@) =~= views.push(vv));
                },
                Err(e) => {
                    proof {
                        lemma_dec_many_stays_failed(start, i + 1, expected_outer as int, item);
                    }
                    return Err(e);
                },
            }
            i = i + 1;
        }
        Ok(out)
    }

    /// Takes one precomputation of the given shape.
    fn load_precomp_item<'b>(
        &mut self,
        params: &'b Params,
        shape: &PrecompShape,
        what: &'static str,
    ) -> (r: Result<PrecompItem<'b>, CacheError>)
        requires
            old(self).wf(),
            params.ring_wf(),
            countable(shape.m_rows as int, shape.m_cols as int, *params),
            countable(shape.vm_rows as int, shape.vm_cols as int, *params),
        ensures
            final(self).wf(),
            final(self).data == old(self).data,
            agrees_by(
                r,
                |v: PrecompItem<'b>| precomp_item_view(v),
                dec_precomp_item(
                    old(self).data@,
                    old(self).pos as int,
                    2 * params.poly_len,
                    *shape,
                    what@,
                ),
                final(self).pos as int,
            ),
            r matches Ok(v) ==> v.0.wf() && *v.0.params == *params && all_wf(v.1@, params),
    {
        let m: PolyMatrixNTT<'b> = self.load_poly_matrix_ntt_exact(
            params,
            shape.m_rows,
            shape.m_cols,
            what,
        )?;
        let vm: Vec<PolyMatrixNTT<'b>> = self.load_matrices(
            params,
            shape.vm_len,
            shape.vm_rows,
            shape.vm_cols,
            "vm length ",
            what,
        )?;
        let vvu: Vec<Vec<usize>> = self.load_vec_vec_usize_exact(
            shape.vvu_outer,
            shape.vvu_inner,
            what,
        )?;
        Ok((m, vm, vvu))
    }

    /// Takes a list of precomputations whose every length and shape must be
    /// the one that `shape` names.
    pub fn load_precomp_exact<'b>(
        &mut self,
        params: &'b Params,
        shape: &PrecompShape,
        what: &'static str,
    ) -> (r: Result<Precomp<'b>, CacheError>)
        requires
            old(self).wf(),
            params.ring_wf(),
            countable(shape.m_rows as int, shape.m_cols as int, *params),
            countable(shape.vm_rows as int, shape.vm_cols as int, *params),
        ensures
            final(self).wf(),
            final(self).data == old(self).data,
            agrees_by(
                r,
                |v: Precomp<'b>| precomp_view(v@),
                dec_precomp(
                    old(self).data@,
                    old(self).pos as int,
                    2 * params.poly_len,
                    *shape,
                    what@,
                ),
                final(self).pos as int,
            ),
            r matches Ok(v) ==> forall|i: int|
                0 <= i < v@.len() ==> (#[trigger] v@[i]).0.wf() && *v@[i].0.params == *params
                    && all_wf(v@[i].1@, params),
    {
        let ghost data = self.data@;
        self.read_len_exact(shape.outer, "outer length ", what)?;
        let ghost start = self.pos as int;
        let ghost item = precomp_item(data, 2 * params.poly_len, *shape, what@);
        let mut out: Precomp<'b> = Vec::new();
        let mut i: usize = 0;
        assert(precomp_view(out@) =~= Seq::empty());
        while i < shape.outer
            invariant
                self.wf(),
                self.data@ == data,
                self.data == old(self).data,
                params.ring_wf(),
                countable(shape.m_rows as int, shape.m_cols as int, *params),
                countable(shape.vm_rows as int, shape.vm_cols as int, *params),
                i <= shape.outer,
                item == precomp_item(data, 2 * params.poly_len, *shape, what@),
                dec_precomp(
                    old(self).data@,
                    old(self).pos as int,
                    2 * params.poly_len,
                    *shape,
                    what@,
                ) == dec_many(start, shape.outer as int, item),
                dec_many(start, i as int, item) == Ok::<(Seq<PrecompView>, int), Stop>(
                    (precomp_view(out@), self.pos as int),
                ),
                forall|k: int|
                    0 <= k < out@.len() ==> (#[trigger] out@[k]).0.wf() && *out@[k].0.params
                        == *params && all_wf(out@[k].1@, params),
            decreases shape.outer - i,
        {
            let ghost views = precomp_view(out@);
            let r: Result<PrecompItem<'b>, CacheError> = self.load_precomp_item(
                params,
                shape,
                what,
            );
            match r {
                Ok(v) => {
                    let ghost vv = precomp_item_view(v);
                    out.push(v);
                    assert(precomp_view(out@) =~= views.push(vv));
                },
                Err(e) => {
                    proof {
                        lemma_dec_many_stays_failed(start, i + 1, shape.outer as int, item);
                    }
                    return Err(e);
                },
            }
            i = i + 1;
        }
        Ok(out)
    }
}

} // verus!
