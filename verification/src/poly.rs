//! Matrices of polynomials, by coefficients or in the number-theoretic
//! transform domain.
//!
//! A matrix is stored row by row. A polynomial by coefficients takes
//! `poly_len` words; in the transform domain it takes twice as many, first the
//! values modulo the first prime, then those modulo the second.
use crate::params::Params;
use vstd::prelude::*;

verus! {

/// A matrix of polynomials by coefficients.
#[derive(Debug)]
pub struct PolyMatrixRaw<'a> {
    pub params: &'a Params,
    pub rows: usize,
    pub cols: usize,
    pub data: Vec<u64>,
}

/// A matrix of polynomials in the transform domain.
#[derive(Debug)]
pub struct PolyMatrixNTT<'a> {
    pub params: &'a Params,
    pub rows: usize,
    pub cols: usize,
    pub data: Vec<u64>,
}

/// The words `[k * words, (k + 1) * words)` of a sequence.
pub open spec fn chunk<T>(data: Seq<T>, words: int, k: int) -> Seq<T> {
    data.subrange(k * words, k * words + words)
}

/// A chunk within the length of a sequence has its full length.
pub proof fn lemma_chunk_inside(len: int, words: int, count: int, k: int)
    requires
        0 <= k < count,
        0 <= words,
        len == count * words,
    ensures
        0 <= k * words,
        k * words + words <= len,
{
    assert(0 <= k * words && k * words + words <= count * words) by (nonlinear_arith)
        requires
            0 <= k,
            k + 1 <= count,
            0 <= words,
    ;
}

/// `count` times `words` zero words.
fn zeros(count: usize, words: usize) -> (r: Vec<u64>)
    requires
        count * words <= usize::MAX,
    ensures
        r@ == Seq::new((count * words) as nat, |i: int| 0u64),
{
    let r: Vec<u64> = vec![0u64; count * words];
    assert(r@ =~= Seq::new((count * words) as nat, |i: int| 0u64));
    r
}

impl<'a> PolyMatrixRaw<'a> {
    /// The number of words of one polynomial.
    pub open spec fn words(&self) -> nat {
        self.params.poly_len as nat
    }

    /// The storage has the size that the shape asks for.
    pub open spec fn wf(&self) -> bool {
        self.data@.len() == self.rows * self.cols * self.words()
    }

    /// The polynomial in row `r` and column `c`.
    pub open spec fn poly(&self, r: int, c: int) -> Seq<u64> {
        chunk(self.data@, self.words() as int, r * self.cols + c)
    }

    /// The zero matrix of the given shape.
    pub fn zero(params: &'a Params, rows: usize, cols: usize) -> (r: Self)
        requires
            rows * cols * params.poly_len <= usize::MAX,
            rows * cols <= usize::MAX,
        ensures
            r.wf(),
            r.params == params,
            r.rows == rows,
            r.cols == cols,
            r.data@ == Seq::new((rows * cols * params.poly_len) as nat, |i: int| 0u64),
    {
        let data: Vec<u64> = zeros(rows * cols, params.poly_len);
        PolyMatrixRaw { params, rows, cols, data }
    }

    /// The one-by-one matrix of the constant polynomial `value`.
    pub fn single_value(params: &'a Params, value: u64) -> (r: Self)
        requires
            params.poly_len >= 1,
        ensures
            r.wf(),
            r.params == params,
            r.rows == 1,
            r.cols == 1,
            r.data@ == Seq::new(
                params.poly_len as nat,
                |i: int|
                    if i == 0 {
                        value
                    } else {
                        0u64
                    },
            ),
    {
        let mut m: PolyMatrixRaw<'a> = PolyMatrixRaw::zero(params, 1, 1);
        m.data.set(0, value);
        assert(m.data@ =~= Seq::new(
            params.poly_len as nat,
            |i: int|
                if i == 0 {
                    value
                } else {
                    0u64
                },
        ));
        m
    }

    /// All words, row by row.
    pub fn as_slice(&self) -> (r: &[u64])
        ensures
            r@ == self.data@,
    {
        self.data.as_slice()
    }

    /// The polynomial in row `r` and column `c`.
    pub fn get_poly(&self, row: usize, col: usize) -> (r: &[u64])
        requires
            self.wf(),
            self.params.poly_len >= 1,
            row < self.rows,
            col < self.cols,
        ensures
            r@ == self.poly(row as int, col as int),
            r@.len() == self.words(),
            r@ == self.data@.subrange(
                (row * self.cols + col) * (self.params.poly_len),
                (row * self.cols + col) * (self.params.poly_len) + self.params.poly_len,
            ),
    {
        let len: usize = self.data.len();
        proof {
            lemma_cell(self.rows as int, self.cols as int, row as int, col as int);
            lemma_chunk_inside(
                len as int,
                self.words() as int,
                self.rows * self.cols,
                row * self.cols + col,
            );
            lemma_cell_words(
                self.rows as int,
                self.cols as int,
                row as int,
                col as int,
                self.words() as int,
                self.data@.len() as int,
            );
        }
        let start: usize = (row * self.cols + col) * self.params.poly_len;
        vstd::slice::slice_subrange(self.data.as_slice(), start, start + self.params.poly_len)
    }
}

impl<'a> PolyMatrixNTT<'a> {
    /// The number of words of one polynomial.
    pub open spec fn words(&self) -> nat {
        2 * self.params.poly_len as nat
    }

    /// The storage has the size that the shape asks for.
    pub open spec fn wf(&self) -> bool {
        self.data@.len() == self.rows * self.cols * self.words()
    }

    /// The polynomial in row `r` and column `c`.
    pub open spec fn poly(&self, r: int, c: int) -> Seq<u64> {
        chunk(self.data@, self.words() as int, r * self.cols + c)
    }

    /// The zero matrix of the given shape.
    pub fn zero(params: &'a Params, rows: usize, cols: usize) -> (r: Self)
        requires
            rows * cols * (2 * params.poly_len) <= usize::MAX,
            rows * cols <= usize::MAX,
            2 * params.poly_len <= usize::MAX,
        ensures
            r.wf(),
            r.params == params,
            r.rows == rows,
            r.cols == cols,
            r.data@ == Seq::new((rows * cols * (2 * params.poly_len)) as nat, |i: int| 0u64),
    {
        let data: Vec<u64> = zeros(rows * cols, 2 * params.poly_len);
        PolyMatrixNTT { params, rows, cols, data }
    }

    /// All words, row by row.
    pub fn as_slice(&self) -> (r: &[u64])
        ensures
            r@ == self.data@,
    {
        self.data.as_slice()
    }

    /// The polynomial in row `r` and column `c`.
    pub fn get_poly(&self, row: usize, col: usize) -> (r: &[u64])
        requires
            self.wf(),
            self.params.poly_len >= 1,
            row < self.rows,
            col < self.cols,
        ensures
            r@ == self.poly(row as int, col as int),
            r@.len() == self.words(),
            r@ == self.data@.subrange(
                (row * self.cols + col) * (2 * self.params.poly_len),
                (row * self.cols + col) * (2 * self.params.poly_len) + 2 * self.params.poly_len,
            ),
    {
        let len: usize = self.data.len();
        proof {
            lemma_cell(self.rows as int, self.cols as int, row as int, col as int);
            lemma_chunk_inside(
                len as int,
                self.words() as int,
                self.rows * self.cols,
                row * self.cols + col,
            );
            lemma_cell_words(
                self.rows as int,
                self.cols as int,
                row as int,
                col as int,
                self.words() as int,
                self.data@.len() as int,
            );
        }
        let words: usize = 2 * self.params.poly_len;
        let start: usize = (row * self.cols + col) * words;
        vstd::slice::slice_subrange(self.data.as_slice(), start, start + words)
    }
}

/// The index of a cell is below the number of cells.
pub proof fn lemma_cell(rows: int, cols: int, r: int, c: int)
    requires
        0 <= r < rows,
        0 <= c < cols,
    ensures
        0 <= r * cols + c < rows * cols,
        0 <= r * cols,
{
    assert(0 <= r * cols && r * cols + cols <= rows * cols) by (nonlinear_arith)
        requires
            0 <= r,
            r + 1 <= rows,
            0 <= cols,
    ;
}

/// The index of a cell, and that of its first word, fit where the storage does.
pub proof fn lemma_cell_words(rows: int, cols: int, r: int, c: int, words: int, len: int)
    requires
        0 <= r < rows,
        0 <= c < cols,
        0 <= words,
        len == rows * cols * words,
    ensures
        0 <= (r * cols + c) * words,
        (r * cols + c) * words + words <= len,
        words >= 1 ==> r * cols + c < len,
{
    lemma_cell(rows, cols, r, c);
    let k = r * cols + c;
    assert(0 <= k * words && k * words + words <= rows * cols * words) by (nonlinear_arith)
        requires
            0 <= k,
            k + 1 <= rows * cols,
            0 <= words,
    ;
    if words >= 1 {
        assert(k <= k * words) by (nonlinear_arith)
            requires
                0 <= k,
                1 <= words,
        ;
    }
}

/// Appending a chunk keeps the chunks before it and makes it the next one.
pub proof fn lemma_chunk_append<T>(a: Seq<T>, b: Seq<T>, words: int, i: int)
    requires
        0 <= i,
        0 <= words,
        a.len() == i * words,
        b.len() == words,
    ensures
        (a + b).len() == (i + 1) * words,
        chunk(a + b, words, i) == b,
        forall|j: int| 0 <= j < i ==> #[trigger] chunk(a + b, words, j) == chunk(a, words, j),
{
    assert((i + 1) * words == i * words + words) by (nonlinear_arith);
    assert(chunk(a + b, words, i) =~= b);
    assert forall|j: int| 0 <= j < i implies #[trigger] chunk(a + b, words, j) == chunk(
        a,
        words,
        j,
    ) by {
        lemma_chunk_inside(a.len() as int, words, i, j);
        assert(chunk(a + b, words, j) =~= chunk(a, words, j));
    }
}

/// The chunks of two rows stored one behind the other.
pub proof fn lemma_chunk_rows<T>(top: Seq<T>, bottom: Seq<T>, words: int, m: int)
    requires
        0 <= m,
        0 <= words,
        top.len() == m * words,
        bottom.len() == m * words,
    ensures
        (top + bottom).len() == 2 * m * words,
        forall|j: int| 0 <= j < m ==> #[trigger] chunk(top + bottom, words, j) == chunk(top, words, j),
        forall|j: int|
            0 <= j < m ==> #[trigger] chunk(top + bottom, words, m + j) == chunk(bottom, words, j),
{
    assert(2 * m * words == m * words + m * words) by (nonlinear_arith);
    assert forall|j: int| 0 <= j < m implies #[trigger] chunk(top + bottom, words, j) == chunk(
        top,
        words,
        j,
    ) by {
        lemma_chunk_inside(top.len() as int, words, m, j);
        assert(chunk(top + bottom, words, j) =~= chunk(top, words, j));
    }
    assert forall|j: int| 0 <= j < m implies #[trigger] chunk(top + bottom, words, m + j) == chunk(
        bottom,
        words,
        j,
    ) by {
        lemma_chunk_inside(bottom.len() as int, words, m, j);
        assert((m + j) * words == m * words + j * words) by (nonlinear_arith);
        assert(chunk(top + bottom, words, m + j) =~= chunk(bottom, words, j));
    }
}

} // verus!
