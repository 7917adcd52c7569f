//! Batched matrix-vector products, the hot loop of answering a query.
//!
//! The operation is `c += A * B` where `A` holds `K` query vectors, `B` is the
//! database stored column by column, and `c` holds `K` rows of accumulators.
//! A query element packs a residue modulo the first prime in its low half and
//! one modulo the second prime in its high half. The products of both halves
//! are summed apart, reduced, and composed into one residue of the modulus.
use crate::arith::{
    ceil_log2, lemma_ceil_log2, lemma_mod_factor, lemma_pow2_monotone, log2_ceil, pow2_usize,
};
use crate::params::{lemma_crt_unique, MODULUS, MODULUS_0, MODULUS_1, Params};
use crate::poly::{chunk, lemma_cell, PolyMatrixNTT};
use vstd::arithmetic::power2::pow2;
use vstd::prelude::*;

verus! {

/// A database element that widens to a word.
pub trait ToU64: Copy {
    /// The element as a word.
    spec fn word(self) -> u64;

    /// The largest word of the type.
    spec fn max_word() -> u64;

    fn to_u64(self) -> (r: u64)
        ensures
            r == self.word(),
            r <= Self::max_word(),
    ;

    proof fn lemma_word_bound(self)
        ensures
            self.word() <= Self::max_word(),
    ;
}

impl ToU64 for u8 {
    open spec fn word(self) -> u64 {
        self as u64
    }

    open spec fn max_word() -> u64 {
        0xff
    }

    fn to_u64(self) -> (r: u64) {
        self as u64
    }

    proof fn lemma_word_bound(self) {
    }
}

impl ToU64 for u16 {
    open spec fn word(self) -> u64 {
        self as u64
    }

    open spec fn max_word() -> u64 {
        0xffff
    }

    fn to_u64(self) -> (r: u64) {
        self as u64
    }

    proof fn lemma_word_bound(self) {
    }
}

impl ToU64 for u32 {
    open spec fn word(self) -> u64 {
        self as u64
    }

    open spec fn max_word() -> u64 {
        0xffff_ffff
    }

    fn to_u64(self) -> (r: u64) {
        self as u64
    }

    proof fn lemma_word_bound(self) {
    }
}

impl ToU64 for u64 {
    open spec fn word(self) -> u64 {
        self
    }

    open spec fn max_word() -> u64 {
        u64::MAX
    }

    fn to_u64(self) -> (r: u64) {
        self
    }

    proof fn lemma_word_bound(self) {
    }
}

/// The low or the high half of a packed word.
pub open spec fn half(x: u64, high: bool) -> int {
    if high {
        x as int / 0x1_0000_0000
    } else {
        x as int % 0x1_0000_0000
    }
}

/// The sum, over `k` from `from` to `to`, of the chosen half of `a[abase + k]`
/// times `b[bbase + k]`.
pub open spec fn half_sum<T: ToU64>(
    high: bool,
    a: Seq<u64>,
    abase: int,
    b: Seq<T>,
    bbase: int,
    from: int,
    to: int,
) -> int
    decreases to - from,
{
    if to <= from {
        0
    } else {
        half_sum(high, a, abase, b, bbase, from, to - 1) + half(a[abase + to - 1], high) * b[bbase
            + to - 1].word()
    }
}

/// A sum splits at any point between its ends.
pub proof fn lemma_half_sum_split<T: ToU64>(
    high: bool,
    a: Seq<u64>,
    abase: int,
    b: Seq<T>,
    bbase: int,
    from: int,
    mid: int,
    to: int,
)
    requires
        from <= mid <= to,
    ensures
        half_sum(high, a, abase, b, bbase, from, to) == half_sum(
            high,
            a,
            abase,
            b,
            bbase,
            from,
            mid,
        ) + half_sum(high, a, abase, b, bbase, mid, to),
    decreases to - mid,
{
    if mid < to {
        lemma_half_sum_split(high, a, abase, b, bbase, from, mid, to - 1);
    }
}

/// A sum is not negative, and grows by at most the largest product per term.
pub proof fn lemma_half_sum_bound<T: ToU64>(
    high: bool,
    a: Seq<u64>,
    abase: int,
    b: Seq<T>,
    bbase: int,
    from: int,
    to: int,
)
    requires
        from <= to,
    ensures
        0 <= half_sum(high, a, abase, b, bbase, from, to),
        half_sum(high, a, abase, b, bbase, from, to) <= T::max_word() * 0xffff_ffff * (to - from),
    decreases to - from,
{
    if from < to {
        lemma_half_sum_bound(high, a, abase, b, bbase, from, to - 1);
        b[bbase + to - 1].lemma_word_bound();
        let x = half(a[abase + to - 1], high);
        let y = b[bbase + to - 1].word() as int;
        let m = T::max_word() as int;
        assert(0 <= x * y && x * y <= m * 0xffff_ffff) by (nonlinear_arith)
            requires
                0 <= x <= 0xffff_ffff,
                0 <= y <= m,
        ;
        assert(m * 0xffff_ffff * (to - 1 - from) + m * 0xffff_ffff == m * 0xffff_ffff * (to
            - from)) by (nonlinear_arith);
    } else {
        assert(T::max_word() * 0xffff_ffff * 0 == 0);
    }
}

/// A part of a sum is at most the whole.
proof fn lemma_half_sum_prefix<T: ToU64>(
    high: bool,
    a: Seq<u64>,
    abase: int,
    b: Seq<T>,
    bbase: int,
    from: int,
    mid: int,
    to: int,
)
    requires
        from <= mid <= to,
    ensures
        0 <= half_sum(high, a, abase, b, bbase, from, mid) <= half_sum(
            high,
            a,
            abase,
            b,
            bbase,
            from,
            to,
        ),
{
    lemma_half_sum_split(high, a, abase, b, bbase, from, mid, to);
    lemma_half_sum_bound(high, a, abase, b, bbase, from, mid);
    lemma_half_sum_bound(high, a, abase, b, bbase, mid, to);
}

/// `new` is the residue of the modulus that is `old + lo` modulo the first
/// prime and `old + hi` modulo the second.
pub open spec fn accumulated(new: u64, old: u64, lo: int, hi: int) -> bool {
    &&& new < MODULUS
    &&& new as int % MODULUS_0 as int == (old + lo) % MODULUS_0 as int
    &&& new as int % MODULUS_1 as int == (old + hi) % MODULUS_1 as int
}

/// Splits `a` into `K` parts of equal length.
pub fn split_a<const K: usize>(a: &[u64]) -> (r: Vec<&[u64]>)
    requires
        K > 0,
        a@.len() % (K as nat) == 0,
    ensures
        r@.len() == K,
        forall|i: int|
            0 <= i < K ==> #[trigger] r@[i]@ == a@.subrange(
                i * (a@.len() / K as nat),
                (i + 1) * (a@.len() / K as nat),
            ),
{
    let total: usize = a.len();
    let len: usize = total / K;
    let mut out: Vec<&[u64]> = Vec::new();
    let mut i: usize = 0;
    let mut start: usize = 0;
    proof {
        vstd::arithmetic::div_mod::lemma_fundamental_div_mod(a@.len() as int, K as int);
    }
    while i < K
        invariant
            i <= K,
            total == a@.len(),
            K * len == total,
            len == a@.len() / K as nat,
            start == i * len,
            out@.len() == i,
            forall|j: int|
                0 <= j < i ==> #[trigger] out@[j]@ == a@.subrange(j * len, (j + 1) * len),
        decreases K - i,
    {
        assert((i + 1) * len <= K * len && (i + 1) * len == i * len + len) by (nonlinear_arith)
            requires
                i + 1 <= K,
        ;
        out.push(vstd::slice::slice_subrange(a, start, start + len));
        start = start + len;
        i = i + 1;
    }
    out
}

/// Adds two half-sums to the accumulator `c_cell`: each is reduced modulo its
/// prime, the two are composed, and the total is reduced modulo the modulus.
pub fn writeback(params: &Params, c_cell: u64, sum_lo: u64, sum_hi: u64) -> (r: u64)
    requires
        params.ring_wf(),
        c_cell < MODULUS,
    ensures
        accumulated(r, c_cell, sum_lo as int, sum_hi as int),
{
    let lo: u64 = params.barrett_coeff_u64(sum_lo, 0);
    let hi: u64 = params.barrett_coeff_u64(sum_hi, 1);
    let res: u64 = params.crt_compose_2(lo, hi);
    let r: u64 = params.barrett_u64(c_cell + res);
    proof {
        lemma_writeback(c_cell as int, sum_lo as int, sum_hi as int, res as int, r as int);
    }
    r
}

/// The residues of a reduced total.
proof fn lemma_writeback(c: int, lo: int, hi: int, res: int, r: int)
    requires
        r == (c + res) % MODULUS as int,
        res % MODULUS_0 as int == (lo % MODULUS_0 as int) % MODULUS_0 as int,
        res % MODULUS_1 as int == (hi % MODULUS_1 as int) % MODULUS_1 as int,
    ensures
        r % MODULUS_0 as int == (c + lo) % MODULUS_0 as int,
        r % MODULUS_1 as int == (c + hi) % MODULUS_1 as int,
{
    let q0 = MODULUS_0 as int;
    let q1 = MODULUS_1 as int;
    assert(q0 * q1 == MODULUS);
    vstd::arithmetic::div_mod::lemma_mod_twice(c + res, MODULUS as int);
    crate::arith::lemma_mod_factor(r, c + res, q0, q1);
    lemma_add_same_residue(c, res, lo, q0);
    lemma_add_same_residue(c, res, hi, q1);
}

/// Adding the same number keeps a congruence.
pub proof fn lemma_add_same_residue(c: int, x: int, y: int, m: int)
    requires
        m > 0,
        x % m == (y % m) % m,
    ensures
        (c + x) % m == (c + y) % m,
{
    vstd::arithmetic::div_mod::lemma_mod_twice(y, m);
    vstd::arithmetic::div_mod::lemma_add_mod_noop(c, x, m);
    vstd::arithmetic::div_mod::lemma_add_mod_noop(c, y, m);
}

/// Writing back twice is writing back the sum of the half-sums.
proof fn lemma_accumulate_twice(c0: u64, c1: u64, c2: u64, lo1: int, hi1: int, lo2: int, hi2: int)
    requires
        accumulated(c1, c0, lo1, hi1),
        accumulated(c2, c1, lo2, hi2),
    ensures
        accumulated(c2, c0, lo1 + lo2, hi1 + hi2),
{
    let q0 = MODULUS_0 as int;
    let q1 = MODULUS_1 as int;
    lemma_shift_residue(c1 as int, c0 + lo1, lo2, q0);
    lemma_shift_residue(c1 as int, c0 + hi1, hi2, q1);
    assert(c0 + lo1 + lo2 == c0 + (lo1 + lo2));
    assert(c0 + hi1 + hi2 == c0 + (hi1 + hi2));
}

/// Congruent numbers stay congruent when the same number is added to both.
proof fn lemma_shift_residue(x: int, y: int, d: int, m: int)
    requires
        m > 0,
        x % m == y % m,
    ensures
        (x + d) % m == (y + d) % m,
{
    vstd::arithmetic::div_mod::lemma_add_mod_noop(x, d, m);
    vstd::arithmetic::div_mod::lemma_add_mod_noop(y, d, m);
}

/// The sums of both halves over one chunk of a column, for every batch row.
struct ChunkSums {
    lo: Vec<u64>,
    hi: Vec<u64>,
}

impl ChunkSums {
    /// Row `i` holds the sums over `[from, to)` of the rows of `a`, each
    /// `stride` long, with the column of `b` that starts at `bbase`.
    spec fn hold<T: ToU64>(
        &self,
        rows: int,
        a: Seq<u64>,
        stride: int,
        b: Seq<T>,
        bbase: int,
        from: int,
        to: int,
    ) -> bool {
        &&& self.lo@.len() == rows
        &&& self.hi@.len() == rows
        &&& forall|i: int|
            0 <= i < rows ==> #[trigger] self.lo@[i] == half_sum(
                false,
                a,
                i * stride,
                b,
                bbase,
                from,
                to,
            )
        &&& forall|i: int|
            0 <= i < rows ==> #[trigger] self.hi@[i] == half_sum(
                true,
                a,
                i * stride,
                b,
                bbase,
                from,
                to,
            )
    }
}

/// The rows of `slcs` are the rows of `a`, each `stride` long.
spec fn rows_of(slcs: Seq<&[u64]>, a: Seq<u64>, stride: int) -> bool {
    forall|i: int|
        0 <= i < slcs.len() ==> #[trigger] slcs[i]@ == a.subrange(i * stride, (i + 1) * stride)
}

/// Both half-sums of every row over `[from, to)` fit a word.
spec fn chunk_fits<T: ToU64>(
    rows: int,
    a: Seq<u64>,
    stride: int,
    b: Seq<T>,
    bbase: int,
    from: int,
    to: int,
) -> bool {
    forall|i: int, high: bool|
        0 <= i < rows ==> #[trigger] half_sum(high, a, i * stride, b, bbase, from, to) <= u64::MAX
}

/// The word that row `i` of `slcs` holds at `k`.
proof fn lemma_row_word(slcs: Seq<&[u64]>, a: Seq<u64>, stride: int, i: int, k: int)
    requires
        rows_of(slcs, a, stride),
        0 <= i < slcs.len(),
        0 <= k < stride,
        slcs.len() * stride <= a.len(),
    ensures
        slcs[i]@.len() == stride,
        slcs[i]@[k] == a[i * stride + k],
{
    assert(0 <= i * stride && (i + 1) * stride <= slcs.len() * stride && (i + 1) * stride == i
        * stride + stride) by (nonlinear_arith)
        requires
            0 <= i,
            i + 1 <= slcs.len(),
            0 <= stride,
    ;
    assert(slcs[i]@ == a.subrange(i * stride, (i + 1) * stride));
}

/// Splits a packed word into its halves.
fn split_word(x: u64) -> (r: (u64, u64))
    ensures
        r.0 == half(x, false),
        r.1 == half(x, true),
{
    (x % 0x1_0000_0000, x / 0x1_0000_0000)
}

/// Sums one chunk of a column, one element at a time.
fn chunk_sums<T: ToU64>(
    slcs: &Vec<&[u64]>,
    b_t: &[T],
    bbase: usize,
    from: usize,
    to: usize,
    Ghost(a): Ghost<Seq<u64>>,
    Ghost(stride): Ghost<int>,
) -> (r: ChunkSums)
    requires
        rows_of(slcs@, a, stride),
        slcs@.len() * stride <= a.len(),
        from <= to <= stride,
        bbase + to <= b_t@.len(),
        chunk_fits(slcs@.len() as int, a, stride, b_t@, bbase as int, from as int, to as int),
    ensures
        r.hold(slcs@.len() as int, a, stride, b_t@, bbase as int, from as int, to as int),
{
    let rows: usize = slcs.len();
    let b_len: usize = b_t.len();
    let mut sums = ChunkSums { lo: vec![0u64; rows], hi: vec![0u64; rows] };
    let mut k: usize = from;
    while k < to
        invariant
            rows == slcs@.len(),
            rows_of(slcs@, a, stride),
            slcs@.len() * stride <= a.len(),
            from <= k <= to <= stride,
            b_len == b_t@.len(),
            bbase + to <= b_len,
            chunk_fits(rows as int, a, stride, b_t@, bbase as int, from as int, to as int),
            sums.hold(rows as int, a, stride, b_t@, bbase as int, from as int, k as int),
        decreases to - k,
    {
        let b_val: u64 = b_t[bbase + k].to_u64();
        let mut batch: usize = 0;
        while batch < rows
            invariant
                rows == slcs@.len(),
                rows_of(slcs@, a, stride),
                slcs@.len() * stride <= a.len(),
                from <= k < to <= stride,
                b_len == b_t@.len(),
                bbase + to <= b_len,
                b_val == b_t@[bbase + k].word(),
                chunk_fits(rows as int, a, stride, b_t@, bbase as int, from as int, to as int),
                batch <= rows,
                sums.lo@.len() == rows,
                sums.hi@.len() == rows,
                forall|i: int|
                    0 <= i < rows ==> #[trigger] sums.lo@[i] == half_sum(
                        false,
                        a,
                        i * stride,
                        b_t@,
                        bbase as int,
                        from as int,
                        if i < batch {
                            k + 1
                        } else {
                            k as int
                        },
                    ),
                forall|i: int|
                    0 <= i < rows ==> #[trigger] sums.hi@[i] == half_sum(
                        true,
                        a,
                        i * stride,
                        b_t@,
                        bbase as int,
                        from as int,
                        if i < batch {
                            k + 1
                        } else {
                            k as int
                        },
                    ),
            decreases rows - batch,
        {
            proof {
                lemma_row_word(slcs@, a, stride, batch as int, k as int);
                lemma_step_fits(
                    a,
                    batch * stride,
                    b_t@,
                    bbase as int,
                    from as int,
                    k as int,
                    to as int,
                );
                assert(half_sum(
                    false,
                    a,
                    batch * stride,
                    b_t@,
                    bbase as int,
                    from as int,
                    to as int,
                ) <= u64::MAX);
                assert(half_sum(
                    true,
                    a,
                    batch * stride,
                    b_t@,
                    bbase as int,
                    from as int,
                    to as int,
                ) <= u64::MAX);
            }
            let (a_lo, a_hi): (u64, u64) = split_word(slcs[batch][k]);
            let lo: u64 = sums.lo[batch] + a_lo * b_val;
            let hi: u64 = sums.hi[batch] + a_hi * b_val;
            sums.lo.set(batch, lo);
            sums.hi.set(batch, hi);
            batch = batch + 1;
        }
        k = k + 1;
    }
    sums
}

/// The next term keeps a partial sum below the whole.
proof fn lemma_step_fits<T: ToU64>(
    a: Seq<u64>,
    abase: int,
    b: Seq<T>,
    bbase: int,
    from: int,
    k: int,
    to: int,
)
    requires
        from <= k < to,
    ensures
        forall|high: bool|
            0 <= #[trigger] half_sum(high, a, abase, b, bbase, from, k) && 0 <= half(
                a[abase + k],
                high,
            ) * b[bbase + k].word() && half_sum(high, a, abase, b, bbase, from, k) + half(
                a[abase + k],
                high,
            ) * b[bbase + k].word() == half_sum(high, a, abase, b, bbase, from, k + 1) && half_sum(
                high,
                a,
                abase,
                b,
                bbase,
                from,
                k + 1,
            ) <= half_sum(high, a, abase, b, bbase, from, to),
{
    assert forall|high: bool|
        0 <= #[trigger] half_sum(high, a, abase, b, bbase, from, k) && 0 <= half(
            a[abase + k],
            high,
        ) * b[bbase + k].word() && half_sum(high, a, abase, b, bbase, from, k) + half(
            a[abase + k],
            high,
        ) * b[bbase + k].word() == half_sum(high, a, abase, b, bbase, from, k + 1) && half_sum(
            high,
            a,
            abase,
            b,
            bbase,
            from,
            k + 1,
        ) <= half_sum(high, a, abase, b, bbase, from, to) by {
        lemma_half_sum_bound(high, a, abase, b, bbase, from, k);
        lemma_half_sum_prefix(high, a, abase, b, bbase, from, k + 1, to);
        let x = half(a[abase + k], high);
        let y = b[bbase + k].word() as int;
        assert(0 <= x * y) by (nonlinear_arith)
            requires
                0 <= x,
                0 <= y,
        ;
    }
}

/// A sum depends on the words that it runs over only.
proof fn lemma_half_sum_same<T: ToU64>(
    high: bool,
    a1: Seq<u64>,
    abase1: int,
    a2: Seq<u64>,
    abase2: int,
    b: Seq<T>,
    bbase: int,
    from: int,
    to: int,
)
    requires
        forall|k: int| from <= k < to ==> #[trigger] a1[abase1 + k] == a2[abase2 + k],
    ensures
        half_sum(high, a1, abase1, b, bbase, from, to) == half_sum(
            high,
            a2,
            abase2,
            b,
            bbase,
            from,
            to,
        ),
    decreases to - from,
{
    if from < to {
        lemma_half_sum_same(high, a1, abase1, a2, abase2, b, bbase, from, to - 1);
        assert(a1[abase1 + (to - 1)] == a2[abase2 + (to - 1)]);
    }
}

/// The total of the eight lanes of row `i`.
spec fn lane_total(lanes: Seq<u64>, i: int) -> int {
    lanes[8 * i] + lanes[8 * i + 1] + lanes[8 * i + 2] + lanes[8 * i + 3] + lanes[8 * i + 4]
        + lanes[8 * i + 5] + lanes[8 * i + 6] + lanes[8 * i + 7]
}

/// Adds eight products, one to each lane of row `batch`.
fn add_group<T: ToU64>(
    lanes: &mut Vec<u64>,
    batch: usize,
    row: &[u64],
    b_t: &[T],
    bbase: usize,
    k: usize,
    high: bool,
    Ghost(from): Ghost<int>,
    Ghost(to): Ghost<int>,
)
    requires
        8 * batch + 8 <= old(lanes)@.len(),
        from <= k,
        k + 8 <= to <= row@.len(),
        bbase + k + 8 <= b_t@.len(),
        lane_total(old(lanes)@, batch as int) == half_sum(
            high,
            row@,
            0,
            b_t@,
            bbase as int,
            from,
            k as int,
        ),
        half_sum(high, row@, 0, b_t@, bbase as int, from, to) <= u64::MAX,
    ensures
        final(lanes)@.len() == old(lanes)@.len(),
        lane_total(final(lanes)@, batch as int) == half_sum(
            high,
            row@,
            0,
            b_t@,
            bbase as int,
            from,
            k + 8,
        ),
        forall|i: int|
            0 <= i < old(lanes)@.len() && !(8 * batch <= i < 8 * batch + 8) ==> final(lanes)@[i]
                == old(lanes)@[i],
{
    let ghost before = lanes@;
    let total: usize = lanes.len();
    let row_len: usize = row.len();
    let b_len: usize = b_t.len();
    let mut l: usize = 0;
    while l < 8
        invariant
            l <= 8,
            total == lanes@.len(),
            row_len == row@.len(),
            b_len == b_t@.len(),
            lanes@.len() == before.len(),
            8 * batch + 8 <= total,
            from <= k,
            k + 8 <= to <= row_len,
            bbase + k + 8 <= b_len,
            lane_total(lanes@, batch as int) == half_sum(
                high,
                row@,
                0,
                b_t@,
                bbase as int,
                from,
                k + l,
            ),
            half_sum(high, row@, 0, b_t@, bbase as int, from, to) <= u64::MAX,
            forall|i: int|
                0 <= i < before.len() && !(8 * batch <= i < 8 * batch + 8) ==> lanes@[i]
                    == before[i],
        decreases 8 - l,
    {
        proof {
            lemma_step_fits(row@, 0, b_t@, bbase as int, from, k + l, to);
            assert(0 <= half_sum(high, row@, 0, b_t@, bbase as int, from, k + l));
        }
        let (a_lo, a_hi): (u64, u64) = split_word(row[k + l]);
        let a_val: u64 = if high {
            a_hi
        } else {
            a_lo
        };
        let b_val: u64 = b_t[bbase + k + l].to_u64();
        let at: usize = 8 * batch + l;
        assert(lanes@[at as int] <= lane_total(lanes@, batch as int));
        let lane: u64 = lanes[at] + a_val * b_val;
        lanes.set(at, lane);
        l = l + 1;
    }
}

/// The totals of the lanes of all rows.
fn lane_totals(lanes: &Vec<u64>, rows: usize) -> (r: Vec<u64>)
    requires
        lanes@.len() == 8 * rows,
        forall|i: int| 0 <= i < rows ==> #[trigger] lane_total(lanes@, i) <= u64::MAX,
    ensures
        r@.len() == rows,
        forall|i: int| 0 <= i < rows ==> #[trigger] r@[i] == lane_total(lanes@, i),
{
    let total: usize = lanes.len();
    let mut out: Vec<u64> = Vec::new();
    let mut i: usize = 0;
    while i < rows
        invariant
            i <= rows,
            total == lanes@.len(),
            total == 8 * rows,
            forall|j: int| 0 <= j < rows ==> #[trigger] lane_total(lanes@, j) <= u64::MAX,
            out@.len() == i,
            forall|j: int| 0 <= j < i ==> #[trigger] out@[j] == lane_total(lanes@, j),
        decreases rows - i,
    {
        assert(lane_total(lanes@, i as int) <= u64::MAX);
        let base: usize = 8 * i;
        out.push(
            lanes[base] + lanes[base + 1] + lanes[base + 2] + lanes[base + 3] + lanes[base + 4]
                + lanes[base + 5] + lanes[base + 6] + lanes[base + 7],
        );
        i = i + 1;
    }
    out
}

/// Sums one chunk of a column in groups of eight elements, with one running
/// sum to each position in the group.
fn chunk_sums_lanes<T: ToU64>(
    slcs: &Vec<&[u64]>,
    b_t: &[T],
    bbase: usize,
    from: usize,
    to: usize,
    Ghost(a): Ghost<Seq<u64>>,
    Ghost(stride): Ghost<int>,
) -> (r: ChunkSums)
    requires
        rows_of(slcs@, a, stride),
        slcs@.len() * stride <= a.len(),
        slcs@.len() <= 8192,
        from <= to <= stride,
        (to - from) % 8 == 0,
        bbase + to <= b_t@.len(),
        chunk_fits(slcs@.len() as int, a, stride, b_t@, bbase as int, from as int, to as int),
    ensures
        r.hold(slcs@.len() as int, a, stride, b_t@, bbase as int, from as int, to as int),
{
    let rows: usize = slcs.len();
    let mut lo: Vec<u64> = vec![0u64; 8 * rows];
    let mut hi: Vec<u64> = vec![0u64; 8 * rows];
    proof {
        assert forall|i: int| 0 <= i < rows implies #[trigger] slcs@[i]@.len() == stride by {
            assert(0 <= i * stride && (i + 1) * stride <= rows * stride && (i + 1) * stride == i
                * stride + stride) by (nonlinear_arith)
                requires
                    0 <= i,
                    i + 1 <= rows,
                    0 <= stride,
            ;
            assert(slcs@[i]@ == a.subrange(i * stride, (i + 1) * stride));
        }
        assert forall|i: int, high: bool| 0 <= i < rows implies #[trigger] half_sum(
            high,
            slcs@[i]@,
            0,
            b_t@,
            bbase as int,
            from as int,
            to as int,
        ) == half_sum(high, a, i * stride, b_t@, bbase as int, from as int, to as int) by {
            assert forall|k: int| from <= k < to implies #[trigger] slcs@[i]@[0 + k] == a[i * stride
                + k] by {
                lemma_row_word(slcs@, a, stride, i, k);
            }
            lemma_half_sum_same(
                high,
                slcs@[i]@,
                0,
                a,
                i * stride,
                b_t@,
                bbase as int,
                from as int,
                to as int,
            );
        }
    }
    let mut k: usize = from;
    while k < to
        invariant
            rows == slcs@.len(),
            rows <= 8192,
            lo@.len() == 8 * rows,
            hi@.len() == 8 * rows,
            from <= k <= to <= stride,
            (to - k) % 8 == 0,
            bbase + to <= b_t@.len(),
            chunk_fits(rows as int, a, stride, b_t@, bbase as int, from as int, to as int),
            forall|i: int| 0 <= i < rows ==> #[trigger] slcs@[i]@.len() == stride,
            forall|i: int, high: bool|
                0 <= i < rows ==> #[trigger] half_sum(
                    high,
                    slcs@[i]@,
                    0,
                    b_t@,
                    bbase as int,
                    from as int,
                    to as int,
                ) == half_sum(high, a, i * stride, b_t@, bbase as int, from as int, to as int),
            forall|i: int|
                0 <= i < rows ==> #[trigger] lane_total(lo@, i) == half_sum(
                    false,
                    slcs@[i]@,
                    0,
                    b_t@,
                    bbase as int,
                    from as int,
                    k as int,
                ),
            forall|i: int|
                0 <= i < rows ==> #[trigger] lane_total(hi@, i) == half_sum(
                    true,
                    slcs@[i]@,
                    0,
                    b_t@,
                    bbase as int,
                    from as int,
                    k as int,
                ),
        decreases to - k,
    {
        let mut batch: usize = 0;
        while batch < rows
            invariant
                rows == slcs@.len(),
                rows <= 8192,
                lo@.len() == 8 * rows,
                hi@.len() == 8 * rows,
                batch <= rows,
                from <= k,
                k + 8 <= to <= stride,
                bbase + to <= b_t@.len(),
                chunk_fits(rows as int, a, stride, b_t@, bbase as int, from as int, to as int),
                forall|i: int| 0 <= i < rows ==> #[trigger] slcs@[i]@.len() == stride,
                forall|i: int, high: bool|
                    0 <= i < rows ==> #[trigger] half_sum(
                        high,
                        slcs@[i]@,
                        0,
                        b_t@,
                        bbase as int,
                        from as int,
                        to as int,
                    ) == half_sum(high, a, i * stride, b_t@, bbase as int, from as int, to as int),
                forall|i: int|
                    0 <= i < rows ==> #[trigger] lane_total(lo@, i) == half_sum(
                        false,
                        slcs@[i]@,
                        0,
                        b_t@,
                        bbase as int,
                        from as int,
                        if i < batch {
                            k + 8
                        } else {
                            k as int
                        },
                    ),
                forall|i: int|
                    0 <= i < rows ==> #[trigger] lane_total(hi@, i) == half_sum(
                        true,
                        slcs@[i]@,
                        0,
                        b_t@,
                        bbase as int,
                        from as int,
                        if i < batch {
                            k + 8
                        } else {
                            k as int
                        },
                    ),
            decreases rows - batch,
        {
            let ghost lo0 = lo@;
            let ghost hi0 = hi@;
            let ghost t: int = to as int;
            let ghost f: int = from as int;
            assert(slcs@[batch as int]@.len() == stride);
            assert(lane_total(lo@, batch as int) == half_sum(
                false,
                slcs@[batch as int]@,
                0,
                b_t@,
                bbase as int,
                f,
                k as int,
            ));
            assert(lane_total(hi@, batch as int) == half_sum(
                true,
                slcs@[batch as int]@,
                0,
                b_t@,
                bbase as int,
                f,
                k as int,
            ));
            assert(half_sum(false, slcs@[batch as int]@, 0, b_t@, bbase as int, f, t) <= u64::MAX);
            assert(half_sum(true, slcs@[batch as int]@, 0, b_t@, bbase as int, f, t) <= u64::MAX);
            add_group(&mut lo, batch, slcs[batch], b_t, bbase, k, false, Ghost(f), Ghost(t));
            add_group(&mut hi, batch, slcs[batch], b_t, bbase, k, true, Ghost(f), Ghost(t));
            proof {
                assert forall|i: int| 0 <= i < rows && i != batch implies #[trigger] lane_total(
                    lo@,
                    i,
                ) == lane_total(lo0, i) by {}
                assert forall|i: int| 0 <= i < rows && i != batch implies #[trigger] lane_total(
                    hi@,
                    i,
                ) == lane_total(hi0, i) by {}
            }
            batch = batch + 1;
        }
        k = k + 8;
    }
    proof {
        assert forall|i: int| 0 <= i < rows implies #[trigger] lane_total(lo@, i) <= u64::MAX by {
            assert(half_sum(
                false,
                a,
                i * stride,
                b_t@,
                bbase as int,
                from as int,
                to as int,
            ) <= u64::MAX);
        }
        assert forall|i: int| 0 <= i < rows implies #[trigger] lane_total(hi@, i) <= u64::MAX by {
            assert(half_sum(
                true,
                a,
                i * stride,
                b_t@,
                bbase as int,
                from as int,
                to as int,
            ) <= u64::MAX);
        }
    }
    let sums = ChunkSums { lo: lane_totals(&lo, rows), hi: lane_totals(&hi, rows) };
    proof {
        assert forall|i: int| 0 <= i < rows implies #[trigger] sums.lo@[i] == half_sum(
            false,
            a,
            i * stride,
            b_t@,
            bbase as int,
            from as int,
            to as int,
        ) by {
            assert(lane_total(lo@, i) == half_sum(
                false,
                slcs@[i]@,
                0,
                b_t@,
                bbase as int,
                from as int,
                to as int,
            ));
        }
        assert forall|i: int| 0 <= i < rows implies #[trigger] sums.hi@[i] == half_sum(
            true,
            a,
            i * stride,
            b_t@,
            bbase as int,
            from as int,
            to as int,
        ) by {
            assert(lane_total(hi@, i) == half_sum(
                true,
                slcs@[i]@,
                0,
                b_t@,
                bbase as int,
                from as int,
                to as int,
            ));
        }
    }
    sums
}

/// Cell (`batch`, `j`) of `c` is that of `c0` plus the product of row `batch`
/// of `a` and column `j` of `b`, taken over the first `upto` elements.
pub open spec fn cell_done<T: ToU64>(
    c: Seq<u64>,
    c0: Seq<u64>,
    a: Seq<u64>,
    stride: int,
    b: Seq<T>,
    b_rows: int,
    b_cols: int,
    batch: int,
    j: int,
    upto: int,
) -> bool {
    accumulated(
        c[batch * b_cols + j],
        c0[batch * b_cols + j],
        half_sum(false, a, batch * stride, b, j * b_rows, 0, upto),
        half_sum(true, a, batch * stride, b, j * b_rows, 0, upto),
    )
}

/// Cell (`batch`, `i`) of `c` has its product over the first `to` elements
/// where `i` is below `j`, and over the first `from` elements elsewhere.
spec fn cell_reached<T: ToU64>(
    c: Seq<u64>,
    c0: Seq<u64>,
    a: Seq<u64>,
    stride: int,
    b: Seq<T>,
    b_rows: int,
    b_cols: int,
    batch: int,
    i: int,
    j: int,
    from: int,
    to: int,
) -> bool {
    let upto = if i < j {
        to
    } else {
        from
    };
    cell_done(c, c0, a, stride, b, b_rows, b_cols, batch, i, upto)
}

/// Every cell of `c` is that of `c0` plus the product of its row and column
/// over the first `upto` elements.
pub open spec fn product_added<T: ToU64>(
    c: Seq<u64>,
    c0: Seq<u64>,
    rows: int,
    a: Seq<u64>,
    stride: int,
    b: Seq<T>,
    b_rows: int,
    b_cols: int,
    upto: int,
) -> bool {
    &&& c.len() == c0.len()
    &&& forall|batch: int, j: int|
        0 <= batch < rows && 0 <= j < b_cols ==> #[trigger] cell_done(
            c,
            c0,
            a,
            stride,
            b,
            b_rows,
            b_cols,
            batch,
            j,
            upto,
        )
}

/// Where chunk `o` of `len` elements ends: the last one may be shorter.
pub open spec fn chunk_end(o: int, len: int, elems: int) -> int {
    if elems - o * len < len {
        elems
    } else {
        o * len + len
    }
}

/// The half-sums of every row and column over each chunk of `len` elements fit
/// a word: either because the largest products do, or because these do.
pub open spec fn chunks_fit<T: ToU64>(
    rows: int,
    a: Seq<u64>,
    stride: int,
    b: Seq<T>,
    b_rows: int,
    b_cols: int,
    len: int,
    elems: int,
) -> bool {
    ||| T::max_word() * 0xffff_ffff * len <= u64::MAX
    ||| forall|i: int, j: int, o: int, high: bool|
        0 <= i < rows && 0 <= j < b_cols && 0 <= o && o * len < elems ==> #[trigger] half_sum(
            high,
            a,
            i * stride,
            b,
            j * b_rows,
            o * len,
            chunk_end(o, len, elems),
        ) <= u64::MAX
}

/// One column of one chunk fits where all chunks do.
proof fn lemma_chunk_fits<T: ToU64>(
    rows: int,
    a: Seq<u64>,
    stride: int,
    b: Seq<T>,
    b_rows: int,
    b_cols: int,
    len: int,
    elems: int,
    j: int,
    o: int,
)
    requires
        chunks_fit(rows, a, stride, b, b_rows, b_cols, len, elems),
        0 <= j < b_cols,
        0 <= o,
        o * len < elems,
        len >= 0,
    ensures
        chunk_fits(rows, a, stride, b, j * b_rows, o * len, chunk_end(o, len, elems)),
{
    let (from, to) = (o * len, chunk_end(o, len, elems));
    if T::max_word() * 0xffff_ffff * len <= u64::MAX {
        assert forall|i: int, high: bool| 0 <= i < rows implies #[trigger] half_sum(
            high,
            a,
            i * stride,
            b,
            j * b_rows,
            from,
            to,
        ) <= u64::MAX by {
            lemma_half_sum_bound(high, a, i * stride, b, j * b_rows, from, to);
            let m = T::max_word() * 0xffff_ffff;
            assert(m * (to - from) <= m * len) by (nonlinear_arith)
                requires
                    0 <= to - from <= len,
                    m >= 0,
            ;
        }
    }
}

/// Two cells share an index only where they are the same cell.
proof fn lemma_cell_index(cols: int, r1: int, j1: int, r2: int, j2: int)
    requires
        0 <= j1 < cols,
        0 <= j2 < cols,
        r1 * cols + j1 == r2 * cols + j2,
    ensures
        r1 == r2,
        j1 == j2,
{
    assert(r1 == r2) by (nonlinear_arith)
        requires
            0 <= j1 < cols,
            0 <= j2 < cols,
            r1 * cols + j1 == r2 * cols + j2,
    ;
}

/// Adding the sums of the next chunk to a cell extends its product by that
/// chunk.
proof fn lemma_cell_step<T: ToU64>(
    c1: Seq<u64>,
    c2: Seq<u64>,
    c0: Seq<u64>,
    a: Seq<u64>,
    stride: int,
    b: Seq<T>,
    b_rows: int,
    b_cols: int,
    batch: int,
    j: int,
    from: int,
    to: int,
)
    requires
        0 <= from <= to,
        cell_done(c1, c0, a, stride, b, b_rows, b_cols, batch, j, from),
        accumulated(
            c2[batch * b_cols + j],
            c1[batch * b_cols + j],
            half_sum(false, a, batch * stride, b, j * b_rows, from, to),
            half_sum(true, a, batch * stride, b, j * b_rows, from, to),
        ),
    ensures
        cell_done(c2, c0, a, stride, b, b_rows, b_cols, batch, j, to),
{
    let (x, y) = (batch * stride, j * b_rows);
    lemma_accumulate_twice(
        c0[batch * b_cols + j],
        c1[batch * b_cols + j],
        c2[batch * b_cols + j],
        half_sum(false, a, x, b, y, 0, from),
        half_sum(true, a, x, b, y, 0, from),
        half_sum(false, a, x, b, y, from, to),
        half_sum(true, a, x, b, y, from, to),
    );
    lemma_half_sum_split(false, a, x, b, y, 0, from, to);
    lemma_half_sum_split(true, a, x, b, y, 0, from, to);
}

/// Adds the sums of one chunk of column `j` to the cells of that column.
fn write_column<T: ToU64>(
    params: &Params,
    c: &mut [u64],
    sums: &ChunkSums,
    rows: usize,
    b_cols: usize,
    j: usize,
    Ghost(a): Ghost<Seq<u64>>,
    Ghost(stride): Ghost<int>,
    Ghost(b): Ghost<Seq<T>>,
    Ghost(b_rows): Ghost<int>,
    Ghost(from): Ghost<int>,
    Ghost(to): Ghost<int>,
)
    requires
        params.ring_wf(),
        old(c)@.len() == rows * b_cols,
        j < b_cols,
        forall|i: int| 0 <= i < old(c)@.len() ==> #[trigger] old(c)@[i] < MODULUS,
        sums.hold(rows as int, a, stride, b, j * b_rows, from, to),
    ensures
        final(c)@.len() == old(c)@.len(),
        forall|i: int| 0 <= i < final(c)@.len() ==> #[trigger] final(c)@[i] < MODULUS,
        forall|batch: int|
            0 <= batch < rows ==> accumulated(
                #[trigger] final(c)@[batch * b_cols + j],
                old(c)@[batch * b_cols + j],
                half_sum(false, a, batch * stride, b, j * b_rows, from, to),
                half_sum(true, a, batch * stride, b, j * b_rows, from, to),
            ),
        forall|batch: int, i: int|
            0 <= batch < rows && 0 <= i < b_cols && i != j ==> #[trigger] final(c)@[batch * b_cols
                + i] == old(c)@[batch * b_cols + i],
{
    let ghost before = c@;
    let total: usize = c.len();
    let mut batch: usize = 0;
    let mut base: usize = 0;
    while batch < rows
        invariant
            params.ring_wf(),
            batch <= rows,
            base == batch * b_cols,
            total == rows * b_cols,
            total == c@.len(),
            before.len() == total,
            j < b_cols,
            forall|i: int| 0 <= i < c@.len() ==> #[trigger] c@[i] < MODULUS,
            sums.hold(rows as int, a, stride, b, j * b_rows, from, to),
            forall|r: int|
                0 <= r < batch ==> accumulated(
                    #[trigger] c@[r * b_cols + j],
                    before[r * b_cols + j],
                    half_sum(false, a, r * stride, b, j * b_rows, from, to),
                    half_sum(true, a, r * stride, b, j * b_rows, from, to),
                ),
            forall|r: int|
                batch <= r < rows ==> #[trigger] c@[r * b_cols + j] == before[r * b_cols + j],
            forall|r: int, i: int|
                0 <= r < rows && 0 <= i < b_cols && i != j ==> #[trigger] c@[r * b_cols + i]
                    == before[r * b_cols + i],
        decreases rows - batch,
    {
        assert(batch * b_cols + b_cols <= rows * b_cols && (batch + 1) * b_cols == batch * b_cols
            + b_cols) by (nonlinear_arith)
            requires
                batch + 1 <= rows,
        ;
        let ghost prev = c@;
        let at: usize = base + j;
        let cell: u64 = writeback(params, c[at], sums.lo[batch], sums.hi[batch]);
        c[at] = cell;
        proof {
            assert(prev[batch * b_cols + j] == before[batch * b_cols + j]);
            assert forall|r: int, i: int|
                0 <= r < rows && 0 <= i < b_cols && (r != batch || i != j) implies #[trigger] c@[r
                * b_cols + i] == prev[r * b_cols + i] by {
                if r * b_cols + i == at {
                    lemma_cell_index(b_cols as int, r, i, batch as int, j as int);
                }
                crate::poly::lemma_cell(rows as int, b_cols as int, r, i);
            }
        }
        base = base + b_cols;
        batch = batch + 1;
    }
}

/// Adds the product of the rows of `a` and the columns of `b_t`, taken over
/// `elems` elements in chunks of `len`, to `c`. With `lanes`, chunks are summed
/// in groups of eight, but for a last one that has no whole groups.
fn add_products<const K: usize, T: ToU64>(
    params: &Params,
    c: &mut [u64],
    a: &[u64],
    b_t: &[T],
    b_rows: usize,
    b_cols: usize,
    len: usize,
    elems: usize,
    lanes: bool,
)
    requires
        params.ring_wf(),
        0 < K <= 65536,
        lanes ==> K <= 8192,
        0 < len,
        a@.len() % (K as nat) == 0,
        elems <= a@.len() / (K as nat),
        elems <= b_rows,
        b_rows * b_cols <= b_t@.len(),
        old(c)@.len() == K * b_cols,
        forall|i: int| 0 <= i < old(c)@.len() ==> #[trigger] old(c)@[i] < MODULUS,
        chunks_fit(
            K as int,
            a@,
            (a@.len() / K as nat) as int,
            b_t@,
            b_rows as int,
            b_cols as int,
            len as int,
            elems as int,
        ),
    ensures
        product_added(
            final(c)@,
            old(c)@,
            K as int,
            a@,
            (a@.len() / K as nat) as int,
            b_t@,
            b_rows as int,
            b_cols as int,
            elems as int,
        ),
{
    let slcs: Vec<&[u64]> = split_a::<K>(a);
    let a_len: usize = a.len();
    let b_len: usize = b_t.len();
    let ghost stride: int = (a@.len() / K as nat) as int;
    let ghost c0 = c@;
    proof {
        vstd::arithmetic::div_mod::lemma_fundamental_div_mod(a@.len() as int, K as int);
        assert(K * stride == a@.len());
        assert(rows_of(slcs@, a@, stride));
        assert forall|batch: int, j: int| 0 <= batch < K && 0 <= j < b_cols implies #[trigger] cell_done(
            c@,
            c0,
            a@,
            stride,
            b_t@,
            b_rows as int,
            b_cols as int,
            batch,
            j,
            0,
        ) by {
            crate::poly::lemma_cell(K as int, b_cols as int, batch, j);
        }
    }
    let mut o: usize = 0;
    let mut from: usize = 0;
    while from < elems
        invariant
            params.ring_wf(),
            0 < K <= 65536,
            lanes ==> K <= 8192,
            0 < len,
            a_len == a@.len(),
            b_len == b_t@.len(),
            slcs@.len() == K,
            rows_of(slcs@, a@, stride),
            K * stride == a@.len(),
            elems <= stride,
            elems <= b_rows,
            b_rows * b_cols <= b_len,
            c@.len() == K * b_cols,
            c0.len() == c@.len(),
            forall|i: int| 0 <= i < c@.len() ==> #[trigger] c@[i] < MODULUS,
            chunks_fit(
                K as int,
                a@,
                stride,
                b_t@,
                b_rows as int,
                b_cols as int,
                len as int,
                elems as int,
            ),
            from <= elems,
            from == o * len || from == elems,
            o <= from,
            product_added(
                c@,
                c0,
                K as int,
                a@,
                stride,
                b_t@,
                b_rows as int,
                b_cols as int,
                from as int,
            ),
        decreases elems - from,
    {
        assert((o + 1) * len == o * len + len) by (nonlinear_arith);
        let to: usize = if elems - from < len {
            elems
        } else {
            from + len
        };
        let mut j: usize = 0;
        let mut bbase: usize = 0;
        proof {
            assert forall|batch: int, i: int| 0 <= batch < K && 0 <= i < b_cols implies #[trigger] cell_reached(
                c@,
                c0,
                a@,
                stride,
                b_t@,
                b_rows as int,
                b_cols as int,
                batch,
                i,
                0,
                from as int,
                to as int,
            ) by {
                assert(cell_done(
                    c@,
                    c0,
                    a@,
                    stride,
                    b_t@,
                    b_rows as int,
                    b_cols as int,
                    batch,
                    i,
                    from as int,
                ));
            }
        }
        while j < b_cols
            invariant
                params.ring_wf(),
                0 < K <= 65536,
                lanes ==> K <= 8192,
            0 < len,
                a_len == a@.len(),
                b_len == b_t@.len(),
                slcs@.len() == K,
                rows_of(slcs@, a@, stride),
                K * stride == a@.len(),
                to <= stride,
                to <= b_rows,
                b_rows * b_cols <= b_len,
                c@.len() == K * b_cols,
                c0.len() == c@.len(),
                forall|i: int| 0 <= i < c@.len() ==> #[trigger] c@[i] < MODULUS,
                chunks_fit(
                    K as int,
                    a@,
                    stride,
                    b_t@,
                    b_rows as int,
                    b_cols as int,
                    len as int,
                    elems as int,
                ),
                from == o * len,
                from < to,
                from < elems,
                to == chunk_end(o as int, len as int, elems as int),
                j <= b_cols,
                bbase == j * b_rows,
                forall|batch: int, i: int|
                    0 <= batch < K && 0 <= i < b_cols ==> #[trigger] cell_reached(
                        c@,
                        c0,
                        a@,
                        stride,
                        b_t@,
                        b_rows as int,
                        b_cols as int,
                        batch,
                        i,
                        j as int,
                        from as int,
                        to as int,
                    ),
            decreases b_cols - j,
        {
            assert(j * b_rows + b_rows <= b_rows * b_cols && (j + 1) * b_rows == j * b_rows
                + b_rows) by (nonlinear_arith)
                requires
                    j + 1 <= b_cols,
            ;
            proof {
                lemma_chunk_fits(
                    K as int,
                    a@,
                    stride,
                    b_t@,
                    b_rows as int,
                    b_cols as int,
                    len as int,
                    elems as int,
                    j as int,
                    o as int,
                );
            }
            let sums: ChunkSums = if lanes && (to - from) % 8 == 0 {
                chunk_sums_lanes(&slcs, b_t, bbase, from, to, Ghost(a@), Ghost(stride))
            } else {
                chunk_sums(&slcs, b_t, bbase, from, to, Ghost(a@), Ghost(stride))
            };
            let ghost prev = c@;
            write_column::<T>(
                params,
                c,
                &sums,
                K,
                b_cols,
                j,
                Ghost(a@),
                Ghost(stride),
                Ghost(b_t@),
                Ghost(b_rows as int),
                Ghost(from as int),
                Ghost(to as int),
            );
            proof {
                assert forall|batch: int, i: int| 0 <= batch < K && 0 <= i < b_cols implies #[trigger] cell_reached(
                    c@,
                    c0,
                    a@,
                    stride,
                    b_t@,
                    b_rows as int,
                    b_cols as int,
                    batch,
                    i,
                    j + 1,
                    from as int,
                    to as int,
                ) by {
                    assert(cell_reached(
                        prev,
                        c0,
                        a@,
                        stride,
                        b_t@,
                        b_rows as int,
                        b_cols as int,
                        batch,
                        i,
                        j as int,
                        from as int,
                        to as int,
                    ));
                    if i == j {
                        assert(accumulated(
                            c@[batch * b_cols + j],
                            prev[batch * b_cols + j],
                            half_sum(
                                false,
                                a@,
                                batch * stride,
                                b_t@,
                                j * b_rows,
                                from as int,
                                to as int,
                            ),
                            half_sum(
                                true,
                                a@,
                                batch * stride,
                                b_t@,
                                j * b_rows,
                                from as int,
                                to as int,
                            ),
                        ));
                        lemma_cell_step(
                            prev,
                            c@,
                            c0,
                            a@,
                            stride,
                            b_t@,
                            b_rows as int,
                            b_cols as int,
                            batch,
                            i,
                            from as int,
                            to as int,
                        );
                    } else {
                        assert(c@[batch * b_cols + i] == prev[batch * b_cols + i]);
                    }
                }
            }
            bbase = bbase + b_rows;
            j = j + 1;
        }
        proof {
            assert forall|batch: int, i: int| 0 <= batch < K && 0 <= i < b_cols implies #[trigger] cell_done(
                c@,
                c0,
                a@,
                stride,
                b_t@,
                b_rows as int,
                b_cols as int,
                batch,
                i,
                to as int,
            ) by {
                assert(cell_reached(
                    c@,
                    c0,
                    a@,
                    stride,
                    b_t@,
                    b_rows as int,
                    b_cols as int,
                    batch,
                    i,
                    j as int,
                    from as int,
                    to as int,
                ));
            }
        }
        from = to;
        o = o + 1;
    }
}

/// The elements of a chunk summed one by one: `65536` shared among the rows,
/// whose number is rounded up to a power of two, or all elements where they
/// are fewer.
pub open spec fn implicit_chunk(rows: int, elems: int) -> int {
    let limit: int = 65536int / pow2(ceil_log2(rows)) as int;
    if elems < limit {
        elems
    } else {
        limit
    }
}

/// The elements of a chunk summed in groups of eight: as many groups as
/// `8192` shared among the rows gives, or all whole groups where they are
/// fewer.
pub open spec fn explicit_chunk(rows: int, elems: int) -> int {
    let limit: int = 8192int / pow2(ceil_log2(rows)) as int;
    8 * if elems / 8 < limit {
        elems / 8
    } else {
        limit
    }
}

/// The arguments of a product have matching sizes: `a` holds `rows` vectors of
/// at least `a_elems` elements, `b_t` holds `b_cols` columns of `b_rows`
/// elements, and `c` holds a residue of the modulus for each row and column.
pub open spec fn product_args<T: ToU64>(
    params: &Params,
    c: Seq<u64>,
    rows: int,
    a: Seq<u64>,
    a_elems: int,
    b_t: Seq<T>,
    b_rows: int,
    b_cols: int,
) -> bool {
    &&& params.ring_wf()
    &&& rows > 0
    &&& a_elems == b_rows
    &&& a.len() > 0
    &&& a.len() as int % rows == 0
    &&& a_elems <= a.len() as int / rows
    &&& b_rows * b_cols <= b_t.len()
    &&& c.len() == rows * b_cols
    &&& forall|i: int| 0 <= i < c.len() ==> #[trigger] c[i] < MODULUS
}

/// The power of two at which the number of rows is rounded up.
fn padded_rows(rows: usize, limit: usize) -> (r: usize)
    requires
        0 < rows <= limit,
        limit == 65536 || limit == 8192,
    ensures
        r == pow2(ceil_log2(rows as int)),
        0 < r <= limit,
{
    proof {
        vstd::arithmetic::power2::lemma2_to64();
        lemma_ceil_log2(rows as int);
        let top: nat = if limit == 65536 {
            16
        } else {
            13
        };
        let k = ceil_log2(rows as int);
        if k > top {
            lemma_pow2_monotone(top, (k - 1) as nat);
        }
        lemma_pow2_monotone(k, top);
        vstd::arithmetic::power2::lemma_pow2_pos(k);
    }
    pow2_usize(log2_ceil(rows as u64))
}

/// Batched dot product `c += A * B`.
pub fn fast_batched_dot_product<const K: usize, T: ToU64>(
    params: &Params,
    c: &mut [u64],
    a: &[u64],
    a_elems: usize,
    b_t: &[T],
    b_rows: usize,
    b_cols: usize,
)
    requires
        K <= 65536,
        0 < a_elems,
        product_args(
            params,
            old(c)@,
            K as int,
            a@,
            a_elems as int,
            b_t@,
            b_rows as int,
            b_cols as int,
        ),
        chunks_fit(
            K as int,
            a@,
            a@.len() as int / K as int,
            b_t@,
            b_rows as int,
            b_cols as int,
            implicit_chunk(K as int, a_elems as int),
            a_elems as int,
        ),
    ensures
        product_added(
            final(c)@,
            old(c)@,
            K as int,
            a@,
            a@.len() as int / K as int,
            b_t@,
            b_rows as int,
            b_cols as int,
            a_elems as int,
        ),
{
    fast_batched_dot_product_implicit::<K, T>(params, c, a, a_elems, b_t, b_rows, b_cols);
}

/// Batched dot product `c += A * B`, one element at a time.
pub fn fast_batched_dot_product_implicit<const K: usize, T: ToU64>(
    params: &Params,
    c: &mut [u64],
    a: &[u64],
    a_elems: usize,
    b_t: &[T],
    b_rows: usize,
    b_cols: usize,
)
    requires
        K <= 65536,
        0 < a_elems,
        product_args(
            params,
            old(c)@,
            K as int,
            a@,
            a_elems as int,
            b_t@,
            b_rows as int,
            b_cols as int,
        ),
        chunks_fit(
            K as int,
            a@,
            a@.len() as int / K as int,
            b_t@,
            b_rows as int,
            b_cols as int,
            implicit_chunk(K as int, a_elems as int),
            a_elems as int,
        ),
    ensures
        product_added(
            final(c)@,
            old(c)@,
            K as int,
            a@,
            a@.len() as int / K as int,
            b_t@,
            b_rows as int,
            b_cols as int,
            a_elems as int,
        ),
{
    let padded: usize = padded_rows(K, 65536);
    let limit: usize = 65536 / padded;
    assert(limit >= 1) by (nonlinear_arith)
        requires
            limit == 65536int / padded as int,
            0 < padded <= 65536,
    ;
    let chunk_size: usize = if a_elems < limit {
        a_elems
    } else {
        limit
    };
    add_products::<K, T>(params, c, a, b_t, b_rows, b_cols, chunk_size, a_elems, false);
}

/// Batched dot product `c += A * B`, in groups of eight elements with one
/// running sum to each position in the group.
pub fn fast_batched_dot_product_explicit_avx512<const K: usize, T: ToU64>(
    params: &Params,
    c: &mut [u64],
    a: &[u64],
    a_elems: usize,
    b_t: &[T],
    b_rows: usize,
    b_cols: usize,
)
    requires
        K <= 8192,
        8 <= a_elems,
        product_args(
            params,
            old(c)@,
            K as int,
            a@,
            a_elems as int,
            b_t@,
            b_rows as int,
            b_cols as int,
        ),
        T::max_word() <= 0xffff_ffff,
        chunks_fit(
            K as int,
            a@,
            a@.len() as int / K as int,
            b_t@,
            b_rows as int,
            b_cols as int,
            explicit_chunk(K as int, a_elems as int),
            a_elems as int,
        ),
    ensures
        product_added(
            final(c)@,
            old(c)@,
            K as int,
            a@,
            a@.len() as int / K as int,
            b_t@,
            b_rows as int,
            b_cols as int,
            a_elems as int,
        ),
{
    let simd_width: usize = 8;
    let padded: usize = padded_rows(K, 8192);
    let limit: usize = 8192 / padded;
    assert(limit >= 1) by (nonlinear_arith)
        requires
            limit == 8192int / padded as int,
            0 < padded <= 8192,
    ;
    let groups: usize = a_elems / simd_width;
    let chunk_size: usize = if groups < limit {
        groups
    } else {
        limit
    };
    assert(limit <= 8192) by (nonlinear_arith)
        requires
            limit == 8192int / padded as int,
            0 < padded <= 8192,
    ;
    let len: usize = simd_width * chunk_size;
    add_products::<K, T>(params, c, a, b_t, b_rows, b_cols, len, a_elems, true);
}

/// The product fixes the result: two runs over the same elements from the same
/// accumulators end with the same words, whichever of the functions made them,
/// in chunks of whichever length, and whatever else runs beside them.
pub proof fn product_is_unique<T: ToU64>(
    c1: Seq<u64>,
    c2: Seq<u64>,
    c0: Seq<u64>,
    rows: int,
    a: Seq<u64>,
    stride: int,
    b: Seq<T>,
    b_rows: int,
    b_cols: int,
    upto: int,
)
    requires
        rows >= 0,
        c0.len() == rows * b_cols,
        product_added(c1, c0, rows, a, stride, b, b_rows, b_cols, upto),
        product_added(c2, c0, rows, a, stride, b, b_rows, b_cols, upto),
    ensures
        c1 == c2,
{
    assert forall|i: int| 0 <= i < c1.len() implies c1[i] == c2[i] by {
        assert(b_cols > 0) by (nonlinear_arith)
            requires
                0 <= i < rows * b_cols,
                rows >= 0,
        ;
        let r = i / b_cols;
        let j = i % b_cols;
        vstd::arithmetic::div_mod::lemma_fundamental_div_mod(i, b_cols);
        assert(b_cols * r == r * b_cols) by (nonlinear_arith);
        assert(0 <= r < rows) by (nonlinear_arith)
            requires
                0 <= i < rows * b_cols,
                r == i / b_cols,
                b_cols > 0,
        ;
        assert(cell_done(c1, c0, a, stride, b, b_rows, b_cols, r, j, upto));
        assert(cell_done(c2, c0, a, stride, b, b_rows, b_cols, r, j, upto));
        crate::params::lemma_crt_unique(c1[i] as int, c2[i] as int);
    }
}

/// Products accumulate: a second run adds its own sums to those of the first.
pub proof fn products_accumulate<T: ToU64>(
    c0: Seq<u64>,
    c1: Seq<u64>,
    c2: Seq<u64>,
    rows: int,
    a: Seq<u64>,
    stride: int,
    b: Seq<T>,
    b_rows: int,
    b_cols: int,
    upto: int,
)
    requires
        product_added(c1, c0, rows, a, stride, b, b_rows, b_cols, upto),
        product_added(c2, c1, rows, a, stride, b, b_rows, b_cols, upto),
    ensures
        forall|batch: int, j: int|
            0 <= batch < rows && 0 <= j < b_cols ==> accumulated(
                #[trigger] c2[batch * b_cols + j],
                c0[batch * b_cols + j],
                2 * half_sum(false, a, batch * stride, b, j * b_rows, 0, upto),
                2 * half_sum(true, a, batch * stride, b, j * b_rows, 0, upto),
            ),
{
    assert forall|batch: int, j: int| 0 <= batch < rows && 0 <= j < b_cols implies accumulated(
        #[trigger] c2[batch * b_cols + j],
        c0[batch * b_cols + j],
        2 * half_sum(false, a, batch * stride, b, j * b_rows, 0, upto),
        2 * half_sum(true, a, batch * stride, b, j * b_rows, 0, upto),
    ) by {
        assert(cell_done(c1, c0, a, stride, b, b_rows, b_cols, batch, j, upto));
        assert(cell_done(c2, c1, a, stride, b, b_rows, b_cols, batch, j, upto));
        let lo = half_sum(false, a, batch * stride, b, j * b_rows, 0, upto);
        let hi = half_sum(true, a, batch * stride, b, j * b_rows, 0, upto);
        lemma_accumulate_twice(
            c0[batch * b_cols + j],
            c1[batch * b_cols + j],
            c2[batch * b_cols + j],
            lo,
            hi,
            lo,
            hi,
        );
    }
}

/// A run adds to its start what a run from zero ends with.
pub proof fn run_adds_to_its_start<T: ToU64>(
    c: Seq<u64>,
    c0: Seq<u64>,
    from_zero: Seq<u64>,
    zeros: Seq<u64>,
    rows: int,
    a: Seq<u64>,
    stride: int,
    b: Seq<T>,
    b_rows: int,
    b_cols: int,
    upto: int,
)
    requires
        rows >= 0,
        c0.len() == rows * b_cols,
        zeros == Seq::new(c0.len(), |i: int| 0u64),
        product_added(c, c0, rows, a, stride, b, b_rows, b_cols, upto),
        product_added(from_zero, zeros, rows, a, stride, b, b_rows, b_cols, upto),
    ensures
        forall|i: int|
            0 <= i < c.len() ==> #[trigger] c[i] == (c0[i] + from_zero[i]) % MODULUS as int,
{
    assert forall|i: int| 0 <= i < c.len() implies #[trigger] c[i] == (c0[i] + from_zero[i])
        % MODULUS as int by {
        let (r, j) = lemma_cell_of(rows, b_cols, i);
        assert(cell_done(c, c0, a, stride, b, b_rows, b_cols, r, j, upto));
        assert(cell_done(from_zero, zeros, a, stride, b, b_rows, b_cols, r, j, upto));
        let lo = half_sum(false, a, r * stride, b, j * b_rows, 0, upto);
        let hi = half_sum(true, a, r * stride, b, j * b_rows, 0, upto);
        let x = (c0[i] + from_zero[i]) % MODULUS as int;
        let (q0, q1) = (MODULUS_0 as int, MODULUS_1 as int);
        assert(q0 * q1 == MODULUS);
        vstd::arithmetic::div_mod::lemma_mod_twice(c0[i] + from_zero[i], MODULUS as int);
        lemma_mod_factor(x, c0[i] + from_zero[i], q0, q1);
        lemma_shift_residue(from_zero[i] as int, lo, c0[i] as int, q0);
        lemma_shift_residue(from_zero[i] as int, hi, c0[i] as int, q1);
        lemma_crt_unique(c[i] as int, x);
    }
}

/// The row and column of a cell.
proof fn lemma_cell_of(rows: int, cols: int, i: int) -> (r: (int, int))
    requires
        rows >= 0,
        0 <= i < rows * cols,
    ensures
        0 <= r.0 < rows,
        0 <= r.1 < cols,
        i == r.0 * cols + r.1,
{
    assert(cols > 0) by (nonlinear_arith)
        requires
            0 <= i < rows * cols,
            rows >= 0,
    ;
    let r = i / cols;
    vstd::arithmetic::div_mod::lemma_fundamental_div_mod(i, cols);
    assert(cols * r == r * cols) by (nonlinear_arith);
    assert(0 <= r < rows) by (nonlinear_arith)
        requires
            0 <= i < rows * cols,
            r == i / cols,
            cols > 0,
    ;
    (r, i % cols)
}

/// Columns can be handed out: a run over the columns from `first` on, from the
/// accumulators of those columns, gives them what a run over all columns gives
/// them, however the columns are divided.
pub proof fn columns_are_independent<T: ToU64>(
    c: Seq<u64>,
    c0: Seq<u64>,
    part: Seq<u64>,
    part0: Seq<u64>,
    rows: int,
    a: Seq<u64>,
    stride: int,
    b: Seq<T>,
    b_rows: int,
    b_cols: int,
    first: int,
    count: int,
    upto: int,
)
    requires
        0 <= first,
        0 <= count,
        first + count <= b_cols,
        0 <= upto <= b_rows,
        b_rows * b_cols <= b.len(),
        product_added(c, c0, rows, a, stride, b, b_rows, b_cols, upto),
        product_added(
            part,
            part0,
            rows,
            a,
            stride,
            b.subrange(first * b_rows, (first + count) * b_rows),
            b_rows,
            count,
            upto,
        ),
        forall|r: int, j: int|
            0 <= r < rows && 0 <= j < count ==> #[trigger] part0[r * count + j] == c0[r * b_cols
                + (first + j)],
    ensures
        forall|r: int, j: int|
            0 <= r < rows && 0 <= j < count ==> #[trigger] part[r * count + j] == c[r * b_cols + (
            first + j)],
{
    let cut = b.subrange(first * b_rows, (first + count) * b_rows);
    assert(0 <= first * b_rows <= (first + count) * b_rows <= b_rows * b_cols) by (nonlinear_arith)
        requires
            0 <= first,
            0 <= count,
            first + count <= b_cols,
            0 <= b_rows,
    ;
    assert forall|r: int, j: int| 0 <= r < rows && 0 <= j < count implies #[trigger] part[r * count
        + j] == c[r * b_cols + (first + j)] by {
        assert(cell_done(part, part0, a, stride, cut, b_rows, count, r, j, upto));
        assert(cell_done(c, c0, a, stride, b, b_rows, b_cols, r, first + j, upto));
        assert(part0[r * count + j] == c0[r * b_cols + (first + j)]);
        assert(j * b_rows + b_rows <= count * b_rows && 0 <= j * b_rows && (first + j) * b_rows
            == first * b_rows + j * b_rows && (first + count) * b_rows == first * b_rows + count
            * b_rows) by (nonlinear_arith)
            requires
                0 <= j,
                j + 1 <= count,
                0 <= b_rows,
        ;
        assert forall|k: int| 0 <= k < upto implies #[trigger] cut[j * b_rows + k] == b[(first + j)
            * b_rows + k] by {}
        lemma_same_column(false, a, r * stride, cut, j * b_rows, b, (first + j) * b_rows, upto);
        lemma_same_column(true, a, r * stride, cut, j * b_rows, b, (first + j) * b_rows, upto);
        lemma_crt_unique(part[r * count + j] as int, c[r * b_cols + (first + j)] as int);
    }
}

/// A sum depends on the elements that it runs over only.
proof fn lemma_same_column<T: ToU64>(
    high: bool,
    a: Seq<u64>,
    abase: int,
    b1: Seq<T>,
    bbase1: int,
    b2: Seq<T>,
    bbase2: int,
    to: int,
)
    requires
        forall|k: int| 0 <= k < to ==> #[trigger] b1[bbase1 + k] == b2[bbase2 + k],
    ensures
        half_sum(high, a, abase, b1, bbase1, 0, to) == half_sum(high, a, abase, b2, bbase2, 0, to),
    decreases to,
{
    if to > 0 {
        lemma_same_column(high, a, abase, b1, bbase1, b2, bbase2, to - 1);
        assert(b1[bbase1 + (to - 1)] == b2[bbase2 + (to - 1)]);
    }
}

/// A zero query leaves the accumulators as they were.
pub proof fn zero_query_changes_nothing<T: ToU64>(
    c: Seq<u64>,
    c0: Seq<u64>,
    rows: int,
    a: Seq<u64>,
    stride: int,
    b: Seq<T>,
    b_rows: int,
    b_cols: int,
    upto: int,
)
    requires
        rows >= 0,
        0 <= upto <= stride,
        rows * stride <= a.len(),
        c0.len() == rows * b_cols,
        forall|i: int| 0 <= i < c0.len() ==> #[trigger] c0[i] < MODULUS,
        forall|i: int| 0 <= i < a.len() ==> #[trigger] a[i] == 0,
        product_added(c, c0, rows, a, stride, b, b_rows, b_cols, upto),
    ensures
        c == c0,
{
    assert forall|batch: int, j: int| 0 <= batch < rows && 0 <= j < b_cols implies #[trigger] cell_done(
        c0,
        c0,
        a,
        stride,
        b,
        b_rows,
        b_cols,
        batch,
        j,
        upto,
    ) by {
        crate::poly::lemma_cell(rows, b_cols, batch, j);
        assert(0 <= batch * stride && (batch + 1) * stride <= rows * stride && (batch + 1) * stride
            == batch * stride + stride) by (nonlinear_arith)
            requires
                0 <= batch,
                batch + 1 <= rows,
                0 <= stride,
        ;
        lemma_zero_sum(false, a, batch * stride, b, j * b_rows, upto);
        lemma_zero_sum(true, a, batch * stride, b, j * b_rows, upto);
    }
    product_is_unique(c, c0, c0, rows, a, stride, b, b_rows, b_cols, upto);
}

/// A sum of zero words is zero.
proof fn lemma_zero_sum<T: ToU64>(
    high: bool,
    a: Seq<u64>,
    abase: int,
    b: Seq<T>,
    bbase: int,
    to: int,
)
    requires
        0 <= abase,
        abase + to <= a.len(),
        forall|i: int| 0 <= i < a.len() ==> #[trigger] a[i] == 0,
    ensures
        half_sum(high, a, abase, b, bbase, 0, to) == 0,
    decreases to,
{
    if to > 0 {
        lemma_zero_sum(high, a, abase, b, bbase, to - 1);
        assert(a[abase + to - 1] == 0);
        assert(half(a[abase + to - 1], high) == 0);
        let y = b[bbase + to - 1].word() as int;
        assert(0 * y == 0);
    }
}

/// A batch of queries gives each query the answer that it gets alone, whichever
/// of the functions answers the batch and whichever the query alone.
pub proof fn batch_is_independent_queries<T: ToU64>(
    c: Seq<u64>,
    c0: Seq<u64>,
    single: Seq<u64>,
    single0: Seq<u64>,
    rows: int,
    a: Seq<u64>,
    stride: int,
    b: Seq<T>,
    b_rows: int,
    b_cols: int,
    upto: int,
    batch: int,
)
    requires
        0 <= batch < rows,
        0 <= upto <= stride,
        rows * stride <= a.len(),
        c0.len() == rows * b_cols,
        single0 == c0.subrange(batch * b_cols, (batch + 1) * b_cols),
        b_cols >= 0,
        product_added(c, c0, rows, a, stride, b, b_rows, b_cols, upto),
        product_added(
            single,
            single0,
            1,
            a.subrange(batch * stride, (batch + 1) * stride),
            stride,
            b,
            b_rows,
            b_cols,
            upto,
        ),
    ensures
        single == c.subrange(batch * b_cols, (batch + 1) * b_cols),
{
    let row = a.subrange(batch * stride, (batch + 1) * stride);
    assert(0 <= batch * stride && (batch + 1) * stride <= rows * stride && (batch + 1) * stride
        == batch * stride + stride) by (nonlinear_arith)
        requires
            0 <= batch,
            batch + 1 <= rows,
            0 <= stride,
    ;
    assert(0 <= batch * b_cols && (batch + 1) * b_cols <= rows * b_cols && (batch + 1) * b_cols
        == batch * b_cols + b_cols) by (nonlinear_arith)
        requires
            0 <= batch,
            batch + 1 <= rows,
            0 <= b_cols,
    ;
    let part = c.subrange(batch * b_cols, (batch + 1) * b_cols);
    assert forall|r: int, j: int| 0 <= r < 1 && 0 <= j < b_cols implies #[trigger] cell_done(
        part,
        single0,
        row,
        stride,
        b,
        b_rows,
        b_cols,
        r,
        j,
        upto,
    ) by {
        assert(r == 0);
        assert(0 * b_cols == 0 && 0 * stride == 0);
        assert(cell_done(c, c0, a, stride, b, b_rows, b_cols, batch, j, upto));
        assert forall|k: int| 0 <= k < upto implies #[trigger] row[0 + k] == a[batch * stride
            + k] by {}
        lemma_half_sum_same(false, row, 0, a, batch * stride, b, j * b_rows, 0, upto);
        lemma_half_sum_same(true, row, 0, a, batch * stride, b, j * b_rows, 0, upto);
    }
    assert(1 * b_cols == b_cols);
    product_is_unique(single, part, single0, 1, row, stride, b, b_rows, b_cols, upto);
}

/// The sum over the first `n` elements of row `i` of `a` times column `j` of
/// `b`, both stored row by row.
pub open spec fn row_by_column<T: ToU64>(
    a: Seq<u64>,
    a_cols: int,
    i: int,
    b: Seq<T>,
    b_cols: int,
    j: int,
    n: int,
) -> int
    decreases n,
{
    if n <= 0 {
        0
    } else {
        row_by_column(a, a_cols, i, b, b_cols, j, n - 1) + a[i * a_cols + n - 1] * b[(n - 1)
            * b_cols + j].word()
    }
}

/// A sum of products is not negative, and at most the largest product times
/// the number of terms.
pub proof fn lemma_row_by_column_bound<T: ToU64>(
    a: Seq<u64>,
    a_cols: int,
    i: int,
    b: Seq<T>,
    b_cols: int,
    j: int,
    n: int,
)
    requires
        0 <= n,
    ensures
        0 <= row_by_column(a, a_cols, i, b, b_cols, j, n) <= u64::MAX * T::max_word() * n,
    decreases n,
{
    if n > 0 {
        lemma_row_by_column_bound(a, a_cols, i, b, b_cols, j, n - 1);
        b[(n - 1) * b_cols + j].lemma_word_bound();
        let x = a[i * a_cols + n - 1] as int;
        let y = b[(n - 1) * b_cols + j].word() as int;
        let m = T::max_word() as int;
        assert(0 <= x * y && x * y <= u64::MAX * m) by (nonlinear_arith)
            requires
                0 <= x <= u64::MAX,
                0 <= y <= m,
        ;
        assert(u64::MAX * m * (n - 1) + u64::MAX * m == u64::MAX * m * n) by (nonlinear_arith);
    } else {
        assert(u64::MAX * T::max_word() * 0 == 0);
    }
}

/// A sum over fewer terms is at most the sum over more.
proof fn lemma_row_by_column_prefix<T: ToU64>(
    a: Seq<u64>,
    a_cols: int,
    i: int,
    b: Seq<T>,
    b_cols: int,
    j: int,
    k: int,
    n: int,
)
    requires
        0 <= k <= n,
    ensures
        row_by_column(a, a_cols, i, b, b_cols, j, k) <= row_by_column(
            a,
            a_cols,
            i,
            b,
            b_cols,
            j,
            n,
        ),
    decreases n - k,
{
    if k < n {
        lemma_row_by_column_prefix(a, a_cols, i, b, b_cols, j, k, n - 1);
        let x = a[i * a_cols + n - 1] as int;
        let y = b[(n - 1) * b_cols + j].word() as int;
        assert(0 <= x * y) by (nonlinear_arith)
            requires
                0 <= x,
                0 <= y,
        ;
    }
}

/// Every sum of the product of `a` and `b` fits a double word: either because
/// the largest one does, or because these do.
pub open spec fn sums_fit<T: ToU64>(
    a: Seq<u64>,
    a_rows: int,
    a_cols: int,
    b: Seq<T>,
    b_cols: int,
) -> bool {
    ||| u64::MAX * T::max_word() * a_cols <= u128::MAX
    ||| forall|i: int, j: int|
        0 <= i < a_rows && 0 <= j < b_cols ==> #[trigger] row_by_column(
            a,
            a_cols,
            i,
            b,
            b_cols,
            j,
            a_cols,
        ) <= u128::MAX
}

/// One element of a matrix product, reduced.
fn product_element<T: ToU64>(
    params: &Params,
    a: &[u64],
    a_cols: usize,
    i: usize,
    b: &[T],
    b_cols: usize,
    j: usize,
) -> (r: u64)
    requires
        params.ring_wf(),
        (i + 1) * a_cols <= a@.len(),
        a_cols * b_cols <= b@.len(),
        j < b_cols,
        row_by_column(a@, a_cols as int, i as int, b@, b_cols as int, j as int, a_cols as int)
            <= u128::MAX,
    ensures
        r < 2 * MODULUS,
        r as int % MODULUS as int == row_by_column(
            a@,
            a_cols as int,
            i as int,
            b@,
            b_cols as int,
            j as int,
            a_cols as int,
        ) % MODULUS as int,
{
    let a_len: usize = a.len();
    let b_len: usize = b.len();
    let mut sum: u128 = 0;
    let mut k: usize = 0;
    assert((i + 1) * a_cols == i * a_cols + a_cols) by (nonlinear_arith);
    assert(0 <= i * a_cols) by (nonlinear_arith)
        requires
            0 <= i,
            0 <= a_cols,
    ;
    let abase: usize = i * a_cols;
    while k < a_cols
        invariant
            a_len == a@.len(),
            b_len == b@.len(),
            abase == i * a_cols,
            abase + a_cols <= a_len,
            a_cols * b_cols <= b_len,
            j < b_cols,
            k <= a_cols,
            sum == row_by_column(
                a@,
                a_cols as int,
                i as int,
                b@,
                b_cols as int,
                j as int,
                k as int,
            ),
            row_by_column(a@, a_cols as int, i as int, b@, b_cols as int, j as int, a_cols as int)
                <= u128::MAX,
        decreases a_cols - k,
    {
        assert(k * b_cols + b_cols <= a_cols * b_cols && 0 <= k * b_cols) by (nonlinear_arith)
            requires
                0 <= k,
                k + 1 <= a_cols,
                0 <= b_cols,
        ;
        let a_val: u64 = a[abase + k];
        let b_val: u64 = b[k * b_cols + j].to_u64();
        proof {
            lemma_row_by_column_prefix(
                a@,
                a_cols as int,
                i as int,
                b@,
                b_cols as int,
                j as int,
                k + 1,
                a_cols as int,
            );
            assert(a_val * b_val <= u64::MAX * u64::MAX) by (nonlinear_arith)
                requires
                    a_val <= u64::MAX,
                    b_val <= u64::MAX,
            ;
        }
        sum = sum + a_val as u128 * b_val as u128;
        k = k + 1;
    }
    params.barrett_reduction_u128(sum)
}

/// The product of the `a_rows` by `a_cols` matrix `a` and the `b_rows` by
/// `b_cols` matrix `b`, modulo the modulus.
pub fn multiply_matrices_raw_not_transposed<T: ToU64>(
    params: &Params,
    a: &[u64],
    a_rows: usize,
    a_cols: usize,
    b: &[T],
    b_rows: usize,
    b_cols: usize,
) -> (r: Vec<u64>)
    requires
        params.ring_wf(),
        a_cols == b_rows,
        a_rows * a_cols <= a@.len(),
        b_rows * b_cols <= b@.len(),
        a_rows * b_cols <= usize::MAX,
        sums_fit(a@, a_rows as int, a_cols as int, b@, b_cols as int),
    ensures
        r@.len() == a_rows * b_cols,
        forall|i: int, j: int|
            0 <= i < a_rows && 0 <= j < b_cols ==> #[trigger] r@[i * b_cols + j]
                == row_by_column(
                a@,
                a_cols as int,
                i,
                b@,
                b_cols as int,
                j,
                a_cols as int,
            ) % MODULUS as int,
{
    let mut out: Vec<u64> = Vec::new();
    let mut i: usize = 0;
    assert(0 * b_cols == 0);
    while i < a_rows
        invariant
            params.ring_wf(),
            a_cols == b_rows,
            a_rows * a_cols <= a@.len(),
            b_rows * b_cols <= b@.len(),
            sums_fit(a@, a_rows as int, a_cols as int, b@, b_cols as int),
            i <= a_rows,
            out@.len() == i * b_cols,
            forall|x: int, y: int|
                0 <= x < i && 0 <= y < b_cols ==> #[trigger] out@[x * b_cols + y]
                    == row_by_column(
                    a@,
                    a_cols as int,
                    x,
                    b@,
                    b_cols as int,
                    y,
                    a_cols as int,
                ) % MODULUS as int,
        decreases a_rows - i,
    {
        let mut j: usize = 0;
        while j < b_cols
            invariant
                params.ring_wf(),
                a_cols == b_rows,
                a_rows * a_cols <= a@.len(),
                b_rows * b_cols <= b@.len(),
                sums_fit(a@, a_rows as int, a_cols as int, b@, b_cols as int),
                i < a_rows,
                j <= b_cols,
                out@.len() == i * b_cols + j,
                forall|x: int, y: int|
                    ((0 <= x < i && 0 <= y < b_cols) || (x == i && 0 <= y < j)) ==> #[trigger] out@[x
                        * b_cols + y] == row_by_column(
                        a@,
                        a_cols as int,
                        x,
                        b@,
                        b_cols as int,
                        y,
                        a_cols as int,
                    ) % MODULUS as int,
            decreases b_cols - j,
        {
            proof {
                assert((i + 1) * a_cols <= a_rows * a_cols) by (nonlinear_arith)
                    requires
                        i + 1 <= a_rows,
                        0 <= a_cols,
                ;
                lemma_row_by_column_bound(
                    a@,
                    a_cols as int,
                    i as int,
                    b@,
                    b_cols as int,
                    j as int,
                    a_cols as int,
                );
            }
            let ghost prev = out@;
            let v: u64 = params.barrett_u64(product_element(params, a, a_cols, i, b, b_cols, j));
            out.push(v);
            proof {
                assert forall|x: int, y: int|
                    ((0 <= x < i && 0 <= y < b_cols) || (x == i && 0 <= y < j)) implies #[trigger] out@[x
                    * b_cols + y] == prev[x * b_cols + y] by {
                    assert(0 <= x * b_cols && x * b_cols + y < i * b_cols + j) by (nonlinear_arith)
                        requires
                            0 <= x <= i,
                            0 <= y < b_cols,
                            x < i || y < j,
                            0 <= j,
                    ;
                }
            }
            j = j + 1;
        }
        assert((i + 1) * b_cols == i * b_cols + b_cols) by (nonlinear_arith);
        i = i + 1;
    }
    out
}

/// Multiplies every polynomial of `b` by the only polynomial of `a`, word by
/// word on the low halves of the words, without reducing the products.
pub fn scalar_multiply_avx(res: &mut PolyMatrixNTT, a: &PolyMatrixNTT, b: &PolyMatrixNTT)
    requires
        a.rows == 1,
        a.cols == 1,
        a.wf(),
        b.wf(),
        old(res).wf(),
        old(res).rows == b.rows,
        old(res).cols == b.cols,
        old(res).params.poly_len == b.params.poly_len,
        a.params.poly_len == b.params.poly_len,
        b.params.poly_len >= 1,
        2 * b.params.poly_len <= usize::MAX,
    ensures
        final(res).wf(),
        final(res).rows == b.rows,
        final(res).cols == b.cols,
        final(res).params == old(res).params,
        forall|i: int|
            0 <= i < b.data@.len() ==> #[trigger] final(res).data@[i] == half(b.data@[i], false)
                * half(a.data@[i % (2 * b.params.poly_len)], false),
{
    let words: usize = 2 * b.params.poly_len;
    let total: usize = b.data.len();
    assert(1 * 1 * (2 * a.params.poly_len) == words);
    let mut i: usize = 0;
    let mut z: usize = 0;
    while i < total
        invariant
            words == 2 * b.params.poly_len,
            words >= 1,
            total == b.data@.len(),
            res.data@.len() == total,
            a.data@.len() == words,
            res.rows == b.rows,
            res.cols == b.cols,
            res.params == old(res).params,
            i <= total,
            z < words,
            z == i as int % words as int,
            forall|k: int|
                0 <= k < i ==> #[trigger] res.data@[k] == half(b.data@[k], false) * half(
                    a.data@[k % words as int],
                    false,
                ),
        decreases total - i,
    {
        let (x, _): (u64, u64) = split_word(b.data[i]);
        let (y, _): (u64, u64) = split_word(a.data[z]);
        assert(x * y <= 0xffff_ffff * 0xffff_ffff) by (nonlinear_arith)
            requires
                x <= 0xffff_ffff,
                y <= 0xffff_ffff,
        ;
        res.data.set(i, x * y);
        proof {
            lemma_next_residue(i as int, words as int);
        }
        i = i + 1;
        z = if z + 1 == words {
            0
        } else {
            z + 1
        };
    }
}

/// The residue of the next number.
pub proof fn lemma_next_residue(i: int, m: int)
    requires
        m > 0,
        i >= 0,
    ensures
        (i + 1) % m == if i % m + 1 == m {
            0
        } else {
            i % m + 1
        },
{
    vstd::arithmetic::div_mod::lemma_fundamental_div_mod(i, m);
    let q = i / m;
    if i % m + 1 == m {
        assert(i + 1 == (q + 1) * m) by (nonlinear_arith)
            requires
                i == m * q + i % m,
                i % m + 1 == m,
        ;
        vstd::arithmetic::div_mod::lemma_fundamental_div_mod_converse(i + 1, m, q + 1, 0);
    } else {
        assert(m * q == q * m) by (nonlinear_arith);
        vstd::arithmetic::div_mod::lemma_fundamental_div_mod_converse(i + 1, m, q, i % m + 1);
    }
}

} // verus!
