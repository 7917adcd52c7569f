//! Reading a database file as plaintext elements.
//!
//! A file holds rows of `bytes_per_row` bytes. A row is read as a string of
//! bits, cut into elements of `pt_bits` bits, and padded with zero elements to
//! `db_cols` of them. `PtRows` decides what to read and makes elements of what
//! was read; `FilePtIter` runs it over a file held in memory.
use crate::arith::lemma_pow2_monotone;
use crate::bits::{
    bit, field, is_packed, lemma_bit_of_zero_byte, lemma_bits_determine, lemma_field_injective,
    lemma_field_range, lemma_field_same_bits, lemma_field_zero, read_arbitrary_bits,
};
use vstd::arithmetic::power2::pow2;
use vstd::prelude::*;

verus! {

/// What the next element takes.
#[derive(Debug, Clone, Copy, PartialEq, Eq)]
pub enum PtAction {
    /// Nothing: this is the element.
    Value(u16),
    /// `len` bytes, after moving to `seek` where one is given.
    Fetch { seek: Option<u64>, len: usize },
}

/// The position in the rows of a file, and the elements that were read ahead.
#[derive(Debug, Clone, PartialEq, Eq)]
pub struct PtRows {
    pub pt_bits: usize,
    pub bytes_per_row: usize,
    pub db_cols: usize,
    pub max_filled_col: usize,
    pub row_idx: usize,
    pub col_idx: usize,
    pub buf_pos: usize,
    pub buf_vals: Vec<u16>,
}

/// The elements of a row that hold data.
pub open spec fn filled_cols(bytes_per_row: int, pt_bits: int) -> int {
    (bytes_per_row * 8 + pt_bits - 1) / pt_bits
}

/// The bytes of the group of eight elements that starts at element `col`: as
/// many as an element has bits, or what is left of the row.
pub open spec fn group_len(bytes_per_row: int, pt_bits: int, col: int) -> int {
    let left = bytes_per_row - (col / 8) * pt_bits;
    if left < pt_bits {
        left
    } else {
        pt_bits
    }
}

/// `bytes` followed by zeros.
pub open spec fn zero_padded(bytes: Seq<u8>, len: int) -> Seq<u8> {
    Seq::new(
        len as nat,
        |i: int|
            if i < bytes.len() {
                bytes[i]
            } else {
                0
            },
    )
}

/// Element `i` of a group read as `bytes`, cut to 16 bits.
pub open spec fn group_value(bytes: Seq<u8>, pt_bits: int, i: int) -> int {
    field(zero_padded(bytes, 16 * pt_bits), i * pt_bits, pt_bits as nat) % 0x10000
}

impl PtRows {
    /// The sizes can be counted and the data fits the columns.
    pub open spec fn sizes_ok(&self) -> bool {
        &&& 0 < self.pt_bits < 64
        &&& self.bytes_per_row * 8 + 64 <= usize::MAX
        &&& self.max_filled_col == filled_cols(self.bytes_per_row as int, self.pt_bits as int)
        &&& self.max_filled_col <= self.db_cols
    }

    /// What is read ahead belongs to the current position: either nothing is,
    /// at the start of a group, or the rest of a group of eight.
    pub open spec fn wf(&self) -> bool {
        &&& self.sizes_ok()
        &&& self.buf_vals@.len() == 8
        &&& self.buf_pos <= 8
        &&& self.col_idx < filled_cols(self.bytes_per_row as int, self.pt_bits as int)
            ==> self.col_idx % 8 == self.buf_pos % 8
    }

    /// The group at the current position has yet to be read.
    pub open spec fn pending(&self) -> bool {
        &&& self.wf()
        &&& self.buf_pos == 8
        &&& self.col_idx % 8 == 0
        &&& self.col_idx == 0 || self.col_idx < filled_cols(
            self.bytes_per_row as int,
            self.pt_bits as int,
        )
    }

    /// Starts at the first element of a file.
    pub fn new(bytes_per_row: usize, db_cols: usize, pt_bits: usize) -> (r: Self)
        requires
            0 < pt_bits < 64,
            bytes_per_row * 8 + 64 <= usize::MAX,
            filled_cols(bytes_per_row as int, pt_bits as int) <= db_cols,
        ensures
            r.wf(),
            r.pt_bits == pt_bits,
            r.bytes_per_row == bytes_per_row,
            r.db_cols == db_cols,
            r.row_idx == 0,
            r.col_idx == 0,
            r.buf_pos == 8,
    {
        PtRows {
            pt_bits,
            bytes_per_row,
            db_cols,
            max_filled_col: (bytes_per_row * 8 + pt_bits - 1) / pt_bits,
            row_idx: 0,
            col_idx: 0,
            buf_pos: 8,
            buf_vals: vec![0u16; 8],
        }
    }

    /// Advances to the next element, or says what to read for it. Behind the
    /// last column the next row starts, which takes moving in the file; behind
    /// the data of a row the elements are zero.
    pub fn next_action(&mut self) -> (r: PtAction)
        requires
            old(self).wf(),
            (old(self).row_idx + 1) * old(self).bytes_per_row <= u64::MAX,
            old(self).row_idx < usize::MAX,
        ensures
            final(self).wf(),
            final(self).pt_bits == old(self).pt_bits,
            final(self).bytes_per_row == old(self).bytes_per_row,
            final(self).db_cols == old(self).db_cols,
            old(self).col_idx >= old(self).db_cols ==> {
                &&& r == (PtAction::Fetch {
                    seek: Some(((old(self).row_idx + 1) * old(self).bytes_per_row) as u64),
                    len: group_len(
                        old(self).bytes_per_row as int,
                        old(self).pt_bits as int,
                        0,
                    ) as usize,
                })
                &&& final(self).pending()
                &&& final(self).row_idx == old(self).row_idx + 1
                &&& final(self).col_idx == 0
            },
            filled_cols(old(self).bytes_per_row as int, old(self).pt_bits as int)
                <= old(self).col_idx < old(self).db_cols ==> {
                &&& r == PtAction::Value(0)
                &&& final(self).row_idx == old(self).row_idx
                &&& final(self).col_idx == old(self).col_idx + 1
                &&& final(self).buf_pos == old(self).buf_pos
                &&& final(self).buf_vals == old(self).buf_vals
            },
            old(self).col_idx < old(self).db_cols && old(self).col_idx < filled_cols(
                old(self).bytes_per_row as int,
                old(self).pt_bits as int,
            ) && old(self).buf_pos == 8 ==> {
                &&& r == (PtAction::Fetch {
                    seek: None,
                    len: group_len(
                        old(self).bytes_per_row as int,
                        old(self).pt_bits as int,
                        old(self).col_idx as int,
                    ) as usize,
                })
                &&& final(self).pending()
                &&& *final(self) == *old(self)
            },
            old(self).col_idx < old(self).db_cols && old(self).col_idx < filled_cols(
                old(self).bytes_per_row as int,
                old(self).pt_bits as int,
            ) && old(self).buf_pos < 8 ==> {
                &&& r == PtAction::Value(old(self).buf_vals@[old(self).buf_pos as int])
                &&& final(self).row_idx == old(self).row_idx
                &&& final(self).col_idx == old(self).col_idx + 1
                &&& final(self).buf_pos == old(self).buf_pos + 1
                &&& final(self).buf_vals == old(self).buf_vals
            },
    {
        if self.col_idx >= self.db_cols {
            self.col_idx = 0;
            self.row_idx = self.row_idx + 1;
            self.buf_vals = vec![0u16; 8];
            self.buf_pos = 8;
            let to_read: usize = self.group_bytes();
            let seek: u64 = self.row_idx as u64 * self.bytes_per_row as u64;
            return PtAction::Fetch { seek: Some(seek), len: to_read };
        }
        if self.col_idx >= self.max_filled_col {
            self.col_idx = self.col_idx + 1;
            return PtAction::Value(0);
        }
        if self.buf_pos == 8 {
            let to_read: usize = self.group_bytes();
            return PtAction::Fetch { seek: None, len: to_read };
        }
        let val: u16 = self.buf_vals[self.buf_pos];
        self.buf_pos = self.buf_pos + 1;
        self.col_idx = self.col_idx + 1;
        PtAction::Value(val)
    }

    /// The bytes of the group at the current position.
    fn group_bytes(&self) -> (r: usize)
        requires
            self.sizes_ok(),
            self.col_idx == 0 || self.col_idx < filled_cols(
                self.bytes_per_row as int,
                self.pt_bits as int,
            ),
        ensures
            r == group_len(self.bytes_per_row as int, self.pt_bits as int, self.col_idx as int),
            r <= self.pt_bits,
            (self.col_idx as int / 8) * self.pt_bits + r <= self.bytes_per_row,
    {
        proof {
            lemma_group_inside(
                self.bytes_per_row as int,
                self.pt_bits as int,
                self.col_idx as int,
            );
        }
        let bytes_consumed: usize = (self.col_idx / 8) * self.pt_bits;
        let remaining_in_row: usize = self.bytes_per_row - bytes_consumed;
        if remaining_in_row < self.pt_bits {
            remaining_in_row
        } else {
            self.pt_bits
        }
    }

    /// Takes the bytes of the pending group, or the news that they cannot be
    /// read, and gives the next element. Without the bytes the element is zero
    /// and the position stays.
    pub fn supply(&mut self, bytes: Option<&[u8]>) -> (r: u16)
        requires
            old(self).pending(),
            bytes matches Some(b) ==> b@.len() == group_len(
                old(self).bytes_per_row as int,
                old(self).pt_bits as int,
                old(self).col_idx as int,
            ),
        ensures
            final(self).wf(),
            final(self).pt_bits == old(self).pt_bits,
            final(self).bytes_per_row == old(self).bytes_per_row,
            final(self).db_cols == old(self).db_cols,
            final(self).row_idx == old(self).row_idx,
            match bytes {
                Some(b) => {
                    &&& r == group_value(b@, old(self).pt_bits as int, 0)
                    &&& final(self).col_idx == old(self).col_idx + 1
                    &&& final(self).buf_pos == 1
                    &&& forall|i: int|
                        0 <= i < 8 ==> #[trigger] final(self).buf_vals@[i] == group_value(
                            b@,
                            old(self).pt_bits as int,
                            i,
                        )
                },
                None => r == 0 && *final(self) == *old(self),
            },
    {
        match bytes {
            None => 0,
            Some(b) => {
                self.fill(b);
                let val: u16 = self.buf_vals[0];
                self.buf_pos = 1;
                self.col_idx = self.col_idx + 1;
                val
            },
        }
    }

    /// Cuts the bytes of a group into its elements.
    fn fill(&mut self, b: &[u8])
        requires
            0 < old(self).pt_bits < 64,
            b@.len() <= old(self).pt_bits,
            old(self).buf_vals@.len() == 8,
        ensures
            *final(self) == (PtRows { buf_vals: final(self).buf_vals, ..*old(self) }),
            final(self).buf_vals@.len() == 8,
            forall|i: int|
                0 <= i < 8 ==> #[trigger] final(self).buf_vals@[i] == group_value(
                    b@,
                    old(self).pt_bits as int,
                    i,
                ),
    {
        let pt_bits: usize = self.pt_bits;
        let len: usize = b.len();
        let mut buf: [u8; 80] = [0u8; 80];
        let mut k: usize = 0;
        while k < len
            invariant
                len == b@.len(),
                len < 64,
                k <= len,
                forall|i: int|
                    0 <= i < 80 ==> #[trigger] buf@[i] == if i < k {
                        b@[i]
                    } else {
                        0u8
                    },
            decreases len - k,
        {
            buf[k] = b[k];
            k = k + 1;
        }
        let ghost padded = zero_padded(b@, 16 * pt_bits);
        let mut i: usize = 0;
        let mut bit_offs: usize = 0;
        while i < 8
            invariant
                0 < pt_bits < 64,
                len == b@.len(),
                len <= pt_bits,
                i <= 8,
                bit_offs == i * pt_bits,
                padded == zero_padded(b@, 16 * pt_bits),
                forall|j: int|
                    0 <= j < 80 ==> #[trigger] buf@[j] == if j < len {
                        b@[j]
                    } else {
                        0u8
                    },
                *self == (PtRows { buf_vals: self.buf_vals, ..*old(self) }),
                self.buf_vals@.len() == 8,
                forall|j: int|
                    0 <= j < i ==> #[trigger] self.buf_vals@[j] == group_value(
                        b@,
                        pt_bits as int,
                        j,
                    ),
            decreases 8 - i,
        {
            assert(i * pt_bits <= 7 * pt_bits && (i + 1) * pt_bits == i * pt_bits + pt_bits)
                by (nonlinear_arith)
                requires
                    i <= 7,
            ;
            let val: u64 = read_arbitrary_bits(buf.as_slice(), bit_offs, pt_bits);
            proof {
                assert forall|j: int| 0 <= j < pt_bits implies #[trigger] bit(buf@, bit_offs + j)
                    == bit(padded, bit_offs + j) by {
                    let at = (bit_offs + j) / 8;
                    assert(0 <= at < pt_bits);
                    assert(buf@[at] == padded[at]);
                }
                lemma_field_same_bits(
                    buf@,
                    bit_offs as int,
                    padded,
                    bit_offs as int,
                    pt_bits as nat,
                );
            }
            self.buf_vals.set(i, (val % 0x10000) as u16);
            bit_offs = bit_offs + pt_bits;
            i = i + 1;
        }
    }
}

/// Inside the data of a row, a group starts before the end of the row.
proof fn lemma_group_inside(bytes_per_row: int, pt_bits: int, col: int)
    requires
        0 < pt_bits,
        0 <= bytes_per_row,
        0 <= col,
        col == 0 || col < filled_cols(bytes_per_row, pt_bits),
    ensures
        0 <= (col / 8) * pt_bits <= bytes_per_row,
        0 <= group_len(bytes_per_row, pt_bits, col) <= pt_bits,
        (col / 8) * pt_bits + group_len(bytes_per_row, pt_bits, col) <= bytes_per_row,
        col > 0 ==> col * pt_bits < bytes_per_row * 8,
{
    if col == 0 {
        assert((0int / 8) * pt_bits == 0) by (nonlinear_arith);
    } else {
        let f = filled_cols(bytes_per_row, pt_bits);
        assert(f * pt_bits <= bytes_per_row * 8 + pt_bits - 1) by (nonlinear_arith)
            requires
                f == (bytes_per_row * 8 + pt_bits - 1) / pt_bits,
                0 < pt_bits,
        ;
        assert(col * pt_bits + pt_bits <= f * pt_bits) by (nonlinear_arith)
            requires
                col + 1 <= f,
                0 < pt_bits,
        ;
        let g = col / 8;
        assert(g * pt_bits * 8 <= col * pt_bits) by (nonlinear_arith)
            requires
                g * 8 <= col,
                0 < pt_bits,
        ;
        assert(0 <= g * pt_bits) by (nonlinear_arith)
            requires
                0 <= g,
                0 < pt_bits,
        ;
    }
}

/// A row of a file, followed by zeros for the elements that reach behind it.
pub open spec fn padded_row(file: Seq<u8>, bytes_per_row: int, pt_bits: int, row: int) -> Seq<u8> {
    Seq::new(
        (bytes_per_row + 16 * pt_bits) as nat,
        |i: int|
            if i < bytes_per_row {
                file[row * bytes_per_row + i]
            } else {
                0
            },
    )
}

/// Element `col` of row `row` of a file: the field of `pt_bits` bits at bit
/// `col * pt_bits` of the row, cut to 16 bits, and zero behind the data.
pub open spec fn row_value(
    file: Seq<u8>,
    bytes_per_row: int,
    pt_bits: int,
    row: int,
    col: int,
) -> int {
    if col < filled_cols(bytes_per_row, pt_bits) {
        field(
            padded_row(file, bytes_per_row, pt_bits, row),
            col * pt_bits,
            pt_bits as nat,
        ) % 0x10000
    } else {
        0
    }
}

/// Where the group of element `col` of row `row` starts in the file.
pub open spec fn group_start(bytes_per_row: int, pt_bits: int, row: int, col: int) -> int {
    row * bytes_per_row + (col / 8) * pt_bits
}

/// The file is long enough for the group of element `col` of row `row`.
pub open spec fn group_present(
    file: Seq<u8>,
    bytes_per_row: int,
    pt_bits: int,
    row: int,
    col: int,
) -> bool {
    group_start(bytes_per_row, pt_bits, row, col) + group_len(bytes_per_row, pt_bits, col)
        <= file.len()
}

/// The elements of a group are those of the row.
proof fn lemma_group_is_row(
    file: Seq<u8>,
    bytes_per_row: int,
    pt_bits: int,
    row: int,
    col: int,
    bytes: Seq<u8>,
    i: int,
)
    requires
        0 < pt_bits < 64,
        0 <= bytes_per_row,
        0 <= row,
        0 <= col,
        col % 8 == 0,
        col == 0 || col < filled_cols(bytes_per_row, pt_bits),
        group_present(file, bytes_per_row, pt_bits, row, col),
        bytes == file.subrange(
            group_start(bytes_per_row, pt_bits, row, col),
            group_start(bytes_per_row, pt_bits, row, col) + group_len(bytes_per_row, pt_bits, col),
        ),
        0 <= i < 8,
        col + i < filled_cols(bytes_per_row, pt_bits),
    ensures
        group_value(bytes, pt_bits, i) == row_value(file, bytes_per_row, pt_bits, row, col + i),
{
    lemma_group_inside(bytes_per_row, pt_bits, col);
    lemma_group_inside(bytes_per_row, pt_bits, col + i);
    let g = zero_padded(bytes, 16 * pt_bits);
    let r = padded_row(file, bytes_per_row, pt_bits, row);
    let base = (col / 8) * pt_bits;
    let len = group_len(bytes_per_row, pt_bits, col);
    assert(0 <= row * bytes_per_row) by (nonlinear_arith)
        requires
            0 <= row,
            0 <= bytes_per_row,
    ;
    assert((col + i) * pt_bits == base * 8 + i * pt_bits) by (nonlinear_arith)
        requires
            base == (col / 8) * pt_bits,
            col == (col / 8) * 8,
    ;
    assert(0 <= i * pt_bits <= 7 * pt_bits) by (nonlinear_arith)
        requires
            0 <= i <= 7,
            0 < pt_bits,
    ;
    assert forall|j: int| 0 <= j < pt_bits implies #[trigger] bit(g, i * pt_bits + j) == bit(
        r,
        (col + i) * pt_bits + j,
    ) by {
        let x = i * pt_bits + j;
        let y = (col + i) * pt_bits + j;
        assert(y == base * 8 + x);
        assert(y / 8 == base + x / 8);
        assert(y % 8 == x % 8);
        let b = x / 8;
        assert(b < pt_bits);
        if b < len {
            assert(bytes[b] == file[row * bytes_per_row + base + b]);
            assert(base + b < bytes_per_row);
        } else {
            assert(len == bytes_per_row - base);
        }
        assert(g[b] == r[base + b]);
    }
    lemma_field_same_bits(g, i * pt_bits, r, (col + i) * pt_bits, pt_bits as nat);
}

/// A database file held in memory, read element by element.
pub struct FilePtIter {
    pub file: Vec<u8>,
    pub pos: u64,
    pub rows: PtRows,
}

impl FilePtIter {
    /// The current row.
    pub open spec fn row(&self) -> int {
        self.rows.row_idx as int
    }

    /// The current column.
    pub open spec fn col(&self) -> int {
        self.rows.col_idx as int
    }

    /// Element `col` of row `row` of the file.
    pub open spec fn value(&self, row: int, col: int) -> int {
        row_value(
            self.file@,
            self.rows.bytes_per_row as int,
            self.rows.pt_bits as int,
            row,
            col,
        )
    }

    /// The elements of a row that hold data.
    pub open spec fn filled(&self) -> int {
        filled_cols(self.rows.bytes_per_row as int, self.rows.pt_bits as int)
    }

    /// The file is long enough for the group of an element.
    pub open spec fn present(&self, row: int, col: int) -> bool {
        group_present(
            self.file@,
            self.rows.bytes_per_row as int,
            self.rows.pt_bits as int,
            row,
            col,
        )
    }

    /// Where nothing is read ahead, the file stands at the group of the current
    /// element; elsewhere what is read ahead are the elements of that group.
    pub open spec fn wf(&self) -> bool {
        let r = self.rows;
        let (bpr, bits) = (r.bytes_per_row as int, r.pt_bits as int);
        &&& r.wf()
        &&& self.col() < self.filled() && r.buf_pos == 8 ==> self.pos == group_start(
            bpr,
            bits,
            self.row(),
            self.col(),
        )
        &&& self.col() < self.filled() && r.buf_pos < 8 ==> self.present(self.row(), self.col())
            && r.buf_pos >= 1 && self.pos == group_start(bpr, bits, self.row(), self.col())
            + group_len(bpr, bits, self.col())
        &&& self.col() < self.filled() && r.buf_pos < 8 ==> forall|i: int|
            0 <= i < 8 && self.col() - r.buf_pos + i < self.filled() ==> #[trigger] r.buf_vals@[i]
                == self.value(self.row(), self.col() - r.buf_pos + i)
    }

    /// Reads `file` from its start.
    pub fn new(file: Vec<u8>, bytes_per_row: usize, db_cols: usize, pt_bits: usize) -> (r: Self)
        requires
            0 < pt_bits < 64,
            bytes_per_row * 8 + 64 <= usize::MAX,
            filled_cols(bytes_per_row as int, pt_bits as int) <= db_cols,
        ensures
            r.wf(),
            r.file == file,
            r.rows.bytes_per_row == bytes_per_row,
            r.rows.db_cols == db_cols,
            r.rows.pt_bits == pt_bits,
            r.row() == 0,
            r.col() == 0,
    {
        let rows: PtRows = PtRows::new(bytes_per_row, db_cols, pt_bits);
        let r = FilePtIter { file, pos: 0, rows };
        assert(group_start(bytes_per_row as int, pt_bits as int, 0, 0) == 0) by (nonlinear_arith)
            requires
                group_start(bytes_per_row as int, pt_bits as int, 0, 0) == 0 * bytes_per_row + (
                0int / 8) * pt_bits,
        ;
        r
    }

    /// The next element. Behind the last column the next row follows. Where
    /// the file is too short for the element's group of eight, the element is
    /// zero and the position stays.
    pub fn next(&mut self) -> (r: u16)
        requires
            old(self).wf(),
            old(self).row() < usize::MAX,
            (old(self).row() + 2) * old(self).rows.bytes_per_row <= u64::MAX,
        ensures
            stepped(*old(self), *final(self), r),
    {
        let ghost before = *self;
        let ghost (bpr, bits) = (self.rows.bytes_per_row as int, self.rows.pt_bits as int);
        assert((self.row() + 2) * bpr == (self.row() + 1) * bpr + bpr) by (nonlinear_arith);
        let action: PtAction = self.rows.next_action();
        match action {
            PtAction::Value(v) => {
                proof {
                    if before.col() < before.filled() {
                        let p = before.rows.buf_pos as int;
                        assert(before.rows.buf_vals@[p] == before.value(
                            before.row(),
                            before.col() - p + p,
                        ));
                        if self.col() < self.filled() {
                            lemma_next_in_file(*self, before);
                        }
                    }
                }
                v
            },
            PtAction::Fetch { seek, len } => {
                match seek {
                    Some(p) => {
                        self.pos = p;
                    },
                    None => {},
                }
                let ghost (row, col) = (self.row(), self.col());
                proof {
                    lemma_group_inside(bpr, bits, col);
                    if seek is Some {
                        assert((0int / 8) * bits == 0) by (nonlinear_arith);
                    }
                    assert(self.pos == group_start(bpr, bits, row, col));
                    assert(len == group_len(bpr, bits, col));
                    assert(row * bpr <= u64::MAX);
                }
                let total: usize = self.file.len();
                if self.pos <= total as u64 && total - self.pos as usize >= len {
                    let start: usize = self.pos as usize;
                    let bytes: &[u8] = vstd::slice::slice_subrange(
                        self.file.as_slice(),
                        start,
                        start + len,
                    );
                    let ghost group = bytes@;
                    let v: u16 = self.rows.supply(Some(bytes));
                    self.pos = (start + len) as u64;
                    proof {
                        lemma_supplied(*self, row, col, group, v);
                    }
                    v
                } else {
                    self.rows.supply(None)
                }
            },
        }
    }
}

/// What taking one element does: `after` is `before` one element on, and `r` is
/// that element. Behind the last column the next row follows. Where the file is
/// too short for the element's group of eight, the element is zero and the
/// position stays.
pub open spec fn stepped(before: FilePtIter, after: FilePtIter, r: u16) -> bool {
    let turn = before.col() >= before.rows.db_cols;
    let row = if turn {
        before.row() + 1
    } else {
        before.row()
    };
    let col = if turn {
        0
    } else {
        before.col()
    };
    &&& after.wf()
    &&& after.file == before.file
    &&& after.rows.bytes_per_row == before.rows.bytes_per_row
    &&& after.rows.db_cols == before.rows.db_cols
    &&& after.rows.pt_bits == before.rows.pt_bits
    &&& after.row() == row
    &&& if (!turn && col >= before.filled()) || before.present(row, col) {
        r == before.value(row, col) && after.col() == col + 1
    } else {
        r == 0 && after.col() == col
    }
}

/// The elements come row by row: of an iterator at its start over a file that
/// holds every row, call number `r * db_cols + c` gives element `c` of row `r`.
/// `states` are the iterator before each call and `values` what the calls give.
pub proof fn calls_run_through_the_rows(
    states: Seq<FilePtIter>,
    values: Seq<u16>,
    r: int,
    c: int,
)
    requires
        states.len() == values.len() + 1,
        states[0].row() == 0,
        states[0].col() == 0,
        0 <= r,
        0 <= c < states[0].rows.db_cols,
        r * states[0].rows.db_cols + c < values.len(),
        forall|k: int|
            0 <= k < values.len() ==> #[trigger] stepped(states[k], states[k + 1], values[k]),
        forall|i: int, j: int| #[trigger]
            states[0].present(i, j) <== 0 <= i <= r && 0 <= j && (j == 0 || j < states[0].filled()),
    ensures
        values[r * states[0].rows.db_cols + c] == states[0].value(r, c),
{
    let cols = states[0].rows.db_cols as int;
    let k = r * cols + c;
    lemma_run(states, values, r, c);
    assert(stepped(states[k], states[k + 1], values[k]));
    assert(0 * cols == 0);
    if c == 0 && r > 0 {
        assert(states[0].present(r, 0));
    } else if c < states[0].filled() || c == 0 {
        assert(states[0].present(r, c));
    }
}

/// Where an iterator stands before call number `r * db_cols + c`: behind the
/// previous element.
proof fn lemma_run(states: Seq<FilePtIter>, values: Seq<u16>, r: int, c: int)
    requires
        states.len() == values.len() + 1,
        states[0].row() == 0,
        states[0].col() == 0,
        0 <= r,
        0 <= c < states[0].rows.db_cols,
        r * states[0].rows.db_cols + c < values.len(),
        forall|k: int|
            0 <= k < values.len() ==> #[trigger] stepped(states[k], states[k + 1], values[k]),
        forall|i: int, j: int| #[trigger]
            states[0].present(i, j) <== 0 <= i <= r && 0 <= j && (j == 0 || j < states[0].filled()),
    ensures
        ({
            let cols = states[0].rows.db_cols as int;
            let s = states[r * cols + c];
            &&& s.file == states[0].file
            &&& s.rows.bytes_per_row == states[0].rows.bytes_per_row
            &&& s.rows.db_cols == states[0].rows.db_cols
            &&& s.rows.pt_bits == states[0].rows.pt_bits
            &&& if c == 0 && r > 0 {
                s.row() == r - 1 && s.col() == cols
            } else {
                s.row() == r && s.col() == c
            }
        }),
    decreases r, c,
{
    let cols = states[0].rows.db_cols as int;
    if c > 0 {
        lemma_run(states, values, r, c - 1);
        let k = r * cols + (c - 1);
        assert(0 <= r * cols) by (nonlinear_arith)
            requires
                0 <= r,
                0 <= cols,
        ;
        assert(stepped(states[k], states[k + 1], values[k]));
        if c - 1 == 0 {
            assert(states[0].present(r, 0));
        } else if c - 1 < states[0].filled() {
            assert(states[0].present(r, c - 1));
        }
        assert(states[k].present(r, c - 1) == states[0].present(r, c - 1));
    } else if r > 0 {
        assert((r - 1) * cols + (cols - 1) + 1 == r * cols + 0 && 0 <= (r - 1) * cols)
            by (nonlinear_arith)
            requires
                1 <= r,
                1 <= cols,
        ;
        lemma_run(states, values, r - 1, cols - 1);
        let k = (r - 1) * cols + (cols - 1);
        assert(stepped(states[k], states[k + 1], values[k]));
        if cols - 1 == 0 {
            assert(states[0].present(r - 1, 0));
        } else if cols - 1 < states[0].filled() {
            assert(states[0].present(r - 1, cols - 1));
        }
        assert(states[k].present(r - 1, cols - 1) == states[0].present(r - 1, cols - 1));
    } else {
        assert(0 * cols == 0);
    }
}

/// Stepping through what was read ahead keeps file and position together.
proof fn lemma_next_in_file(now: FilePtIter, before: FilePtIter)
    requires
        before.wf(),
        before.col() < before.filled(),
        before.rows.buf_pos < 8,
        now.file == before.file,
        now.pos == before.pos,
        now.rows == (PtRows {
            col_idx: now.rows.col_idx,
            buf_pos: now.rows.buf_pos,
            ..before.rows
        }),
        now.col() == before.col() + 1,
        now.rows.buf_pos == before.rows.buf_pos + 1,
        now.rows.wf(),
        now.col() < now.filled(),
    ensures
        now.wf(),
{
    let (bpr, bits) = (now.rows.bytes_per_row as int, now.rows.pt_bits as int);
    let (c, d) = (before.col(), now.col());
    let p = before.rows.buf_pos as int;
    assert(c % 8 == p);
    if p + 1 == 8 {
        assert(d / 8 == c / 8 + 1);
        let g = c / 8;
        assert((g + 1) * bits == g * bits + bits) by (nonlinear_arith);
        lemma_group_inside(bpr, bits, d);
    } else {
        assert(d / 8 == c / 8);
        assert forall|i: int|
            0 <= i < 8 && d - (p + 1) + i < now.filled() implies #[trigger] now.rows.buf_vals@[i]
            == now.value(now.row(), d - (p + 1) + i) by {
            assert(before.rows.buf_vals@[i] == before.value(before.row(), c - p + i));
        }
    }
}

/// What was just read are the elements of the group.
proof fn lemma_supplied(it: FilePtIter, row: int, col: int, bytes: Seq<u8>, v: u16)
    requires
        it.rows.wf(),
        0 <= row,
        0 <= col,
        col % 8 == 0,
        col == 0 || col < it.filled(),
        it.row() == row,
        it.col() == col + 1,
        it.rows.buf_pos == 1,
        it.present(row, col),
        bytes == it.file@.subrange(
            group_start(it.rows.bytes_per_row as int, it.rows.pt_bits as int, row, col),
            group_start(it.rows.bytes_per_row as int, it.rows.pt_bits as int, row, col) + group_len(
                it.rows.bytes_per_row as int,
                it.rows.pt_bits as int,
                col,
            ),
        ),
        it.pos == group_start(it.rows.bytes_per_row as int, it.rows.pt_bits as int, row, col)
            + group_len(it.rows.bytes_per_row as int, it.rows.pt_bits as int, col),
        forall|i: int|
            0 <= i < 8 ==> #[trigger] it.rows.buf_vals@[i] == group_value(
                bytes,
                it.rows.pt_bits as int,
                i,
            ),
        v == group_value(bytes, it.rows.pt_bits as int, 0),
    ensures
        it.wf(),
        v == it.value(row, col),
{
    let (bpr, bits) = (it.rows.bytes_per_row as int, it.rows.pt_bits as int);
    assert((col + 1) / 8 == col / 8);
    if col < it.filled() {
        lemma_group_is_row(it.file@, bpr, bits, row, col, bytes, 0);
        assert forall|i: int| 0 <= i < 8 && col + i < it.filled() implies #[trigger] it.rows.buf_vals@[i]
            == it.value(row, col + i) by {
            lemma_group_is_row(it.file@, bpr, bits, row, col, bytes, i);
        }
    } else {
        lemma_group_inside(bpr, bits, 0);
        assert(bpr == 0) by (nonlinear_arith)
            requires
                (bpr * 8 + bits - 1) / bits <= 0,
                bpr >= 0,
                bits > 0,
        ;
        assert(bytes.len() == 0);
        let g = zero_padded(bytes, 16 * bits);
        assert forall|k: int| 0 <= k < 0 + bits implies #[trigger] bit(g, k) == 0 by {
            crate::bits::lemma_bit_of_zero_byte(g, k);
        }
        assert(0 * bits == 0) by (nonlinear_arith);
        crate::bits::lemma_field_zero(g, 0, bits as nat);
    }
}

/// Nothing of a row is lost and nothing of another row gets in: packing the
/// elements of a row gives bytes that start with those of the row.
pub proof fn packed_elements_are_the_row(
    file: Seq<u8>,
    bytes_per_row: int,
    pt_bits: int,
    row: int,
    vals: Seq<u64>,
    bytes: Seq<u8>,
)
    requires
        0 < pt_bits <= 16,
        0 <= bytes_per_row,
        0 <= row,
        (row + 1) * bytes_per_row <= file.len(),
        vals.len() == filled_cols(bytes_per_row, pt_bits),
        forall|c: int|
            0 <= c < vals.len() ==> #[trigger] vals[c] == row_value(
                file,
                bytes_per_row,
                pt_bits,
                row,
                c,
            ),
        is_packed(bytes, vals, pt_bits as nat),
    ensures
        bytes_per_row <= bytes.len(),
        bytes.subrange(0, bytes_per_row) == file.subrange(
            row * bytes_per_row,
            (row + 1) * bytes_per_row,
        ),
{
    let f = filled_cols(bytes_per_row, pt_bits);
    assert(f * pt_bits >= 8 * bytes_per_row && (f - 1) * pt_bits < 8 * bytes_per_row)
        by (nonlinear_arith)
        requires
            f == (bytes_per_row * 8 + pt_bits - 1) / pt_bits,
            pt_bits > 0,
    ;
    assert(0 <= row * bytes_per_row && (row + 1) * bytes_per_row == row * bytes_per_row
        + bytes_per_row) by (nonlinear_arith)
        requires
            0 <= row,
            0 <= bytes_per_row,
    ;
    let r = padded_row(file, bytes_per_row, pt_bits, row);
    let a = bytes.subrange(0, bytes_per_row);
    let b = file.subrange(row * bytes_per_row, (row + 1) * bytes_per_row);
    vstd::arithmetic::power2::lemma2_to64();
    assert forall|k: int| 0 <= k < 8 * a.len() implies #[trigger] bit(a, k) == bit(b, k) by {
        let c = k / pt_bits;
        let j = k % pt_bits;
        vstd::arithmetic::div_mod::lemma_fundamental_div_mod(k, pt_bits);
        assert(pt_bits * c == c * pt_bits) by (nonlinear_arith);
        assert(0 <= c < f) by (nonlinear_arith)
            requires
                k == c * pt_bits + j,
                0 <= j < pt_bits,
                0 <= k < 8 * bytes_per_row,
                f * pt_bits >= 8 * bytes_per_row,
        ;
        let x = field(r, c * pt_bits, pt_bits as nat);
        assert(vals[c] == row_value(file, bytes_per_row, pt_bits, row, c));
        lemma_field_range(r, c * pt_bits, pt_bits as nat);
        lemma_pow2_monotone(pt_bits as nat, 16);
        vstd::arithmetic::div_mod::lemma_small_mod(x as nat, 0x10000);
        vstd::arithmetic::div_mod::lemma_small_mod(x as nat, pow2(pt_bits as nat));
        assert(field(bytes, c * pt_bits, pt_bits as nat) == x);
        lemma_field_injective(bytes, c * pt_bits, r, c * pt_bits, pt_bits as nat);
        assert(bit(bytes, c * pt_bits + j) == bit(r, c * pt_bits + j));
        assert(a[k / 8] == bytes[k / 8]);
        assert(b[k / 8] == r[k / 8]);
    }
    lemma_bits_determine(a, b);
}

} // verus!
