//! Trial runs of the one-level scheme: random targets and elements, sizes on
//! the wire, and the summary of what was measured.
use crate::aligned::{aligned_slice, words, AlignedMemory64};
use crate::answer_laws::is_right_answer;
use crate::constants::numbered_seed;
use crate::modulus_switch::expected_ct_byte_len;
use crate::params::{div_ceil, DbRowsCols, GetQPrime, Params};
use crate::pir_client::{decodes_to, decoding_is_deterministic, lemma_switchable, YPIRClient};
use crate::query::{is_packing_blob, is_row_query};
use crate::query_laws::query_number;
use crate::spiral::Seed;
use vstd::prelude::*;

verus! {

/// Types with a random value.
pub trait Sample: Sized {
    /// A random value. Nothing is promised of it.
    fn sample() -> (r: Self);
}

/// `fastrand::u8` over the whole range: any byte.
#[verifier::external_body]
fn random_u8() -> u8 {
    fastrand::u8(..)
}

/// `fastrand::u16` over the whole range: any number of 16 bits.
#[verifier::external_body]
fn random_u16() -> u16 {
    fastrand::u16(..)
}

impl Sample for u8 {
    fn sample() -> (r: Self) {
        random_u8()
    }
}

impl Sample for u16 {
    fn sample() -> (r: Self) {
        random_u16()
    }
}

/// The database element made of a random number.
pub fn element_of(params: &Params, random: u16) -> (r: u16)
    requires
        params.pt_modulus > 0,
    ensures
        r == random as int % params.pt_modulus as int,
{
    proof {
        if random < params.pt_modulus {
            vstd::arithmetic::div_mod::lemma_small_mod(random as nat, params.pt_modulus as nat);
        }
    }
    (random as u64 % params.pt_modulus) as u16
}

/// A random database element.
pub fn random_element(params: &Params) -> (r: u16)
    requires
        params.pt_modulus > 0,
    ensures
        r < params.pt_modulus,
{
    element_of(params, u16::sample())
}

/// The place of an element of the database.
#[derive(Debug, Clone, Copy, PartialEq, Eq)]
pub struct Target {
    pub idx: usize,
    pub row: usize,
    pub col: usize,
}

/// The element of a database of the one-level scheme that a random number
/// points at.
pub fn target_of(params: &Params, random: usize) -> (r: Target)
    requires
        params.wf(),
        params.rows() * params.cols_simplepir() <= usize::MAX,
    ensures
        r.idx == random as int % (params.rows() * params.cols_simplepir()) as int,
        r.row == r.idx as int / params.cols_simplepir() as int,
        r.col == r.idx as int % params.cols_simplepir() as int,
        r.row < params.rows(),
        r.col < params.cols_simplepir(),
        r.idx == r.row * params.cols_simplepir() + r.col,
{
    let ghost (m, c) = (params.rows() as int, params.cols_simplepir() as int);
    proof {
        vstd::arithmetic::power2::lemma_pow2_pos((params.db_dim_1 + params.poly_len_log2) as nat);
        assert(c >= 1) by (nonlinear_arith)
            requires
                c == params.instances * params.poly_len,
                params.instances >= 1,
                params.poly_len >= 1,
        ;
        assert(m * c >= 1) by (nonlinear_arith)
            requires
                m >= 1,
                c >= 1,
        ;
    }
    let db_rows: usize = params.db_rows();
    let db_cols: usize = params.db_cols_simplepir();
    let idx: usize = random % (db_rows * db_cols);
    proof {
        vstd::arithmetic::div_mod::lemma_fundamental_div_mod(idx as int, c);
        assert(idx as int / c < m && c * (idx as int / c) == (idx as int / c) * c)
            by (nonlinear_arith)
            requires
                0 <= idx < m * c,
                c >= 1,
        ;
    }
    Target { idx, row: idx / db_cols, col: idx % db_cols }
}

/// The bytes of a query of `query_words` residues with packing keys of
/// `key_words` residues. Only the bits of the modulus are counted; those of the
/// query are rounded up to a byte, those of the keys down.
pub fn upload_bytes(params: &Params, query_words: usize, key_words: usize) -> (r: usize)
    requires
        query_words * params.modulus_log2 + 7 + key_words * params.modulus_log2 <= usize::MAX,
        params.modulus_log2 <= usize::MAX,
    ensures
        r == div_ceil(query_words * params.modulus_log2, 8) + (key_words * params.modulus_log2)
            / 8,
{
    let bits: usize = params.modulus_log2 as usize;
    assert(0 <= query_words * bits && 0 <= key_words * bits) by (nonlinear_arith)
        requires
            0 <= query_words,
            0 <= key_words,
            0 <= bits,
    ;
    let query_size: usize = (query_words * bits + 7) / 8;
    let pub_params_size: usize = key_words * bits / 8;
    query_size + pub_params_size
}

/// What the offline phase of a trial cost.
#[derive(Debug, Clone, Copy, PartialEq, Eq)]
pub struct OfflineMeasurement {
    pub server_time_ms: usize,
}

/// What the online phase of a trial cost.
#[derive(Debug, Clone, PartialEq, Eq)]
pub struct OnlineMeasurement {
    pub upload_bytes: usize,
    pub download_bytes: usize,
    pub server_time_ms: usize,
    pub client_query_gen_time_ms: usize,
    pub client_decode_time_ms: usize,
    pub all_server_times_ms: Vec<usize>,
}

/// What a trial cost.
#[derive(Debug, Clone, PartialEq, Eq)]
pub struct Measurement {
    pub offline: OfflineMeasurement,
    pub online: OnlineMeasurement,
}

/// The sum of the first `k` numbers.
pub open spec fn sum_of_first(xs: Seq<usize>, k: int) -> int
    decreases k,
{
    if k <= 0 {
        0
    } else {
        sum_of_first(xs, k - 1) + xs[k - 1]
    }
}

/// The sum of the first `k` numbers is what adding them up one by one gives.
proof fn lemma_sum_is_fold(xs: Seq<usize>, k: int)
    requires
        0 <= k <= xs.len(),
    ensures
        sum_of_first(xs, k) == xs.take(k).fold_left(0int, |t: int, x: usize| t + x),
    decreases k,
{
    if k > 0 {
        lemma_sum_is_fold(xs, k - 1);
        assert(xs.take(k).drop_last() =~= xs.take(k - 1));
    }
}

/// The mean of `xs`, rounded to the nearest integer, up from a half.
pub open spec fn rounded_mean(xs: Seq<usize>) -> int {
    (2 * sum_of_first(xs, xs.len() as int) + xs.len()) / (2 * xs.len() as int)
}

/// The mean, rounded.
pub fn mean_rounded(xs: &[usize]) -> (r: usize)
    requires
        0 < xs@.len(),
    ensures
        r == rounded_mean(xs@),
        ({
            let total = xs@.fold_left(0int, |t: int, x: usize| t + x);
            -(xs@.len() as int) <= 2 * total - 2 * (xs@.len() * r) < xs@.len()
        }),
{
    let len: usize = xs.len();
    let mut sum: u128 = 0;
    let mut i: usize = 0;
    while i < len
        invariant
            len == xs@.len(),
            i <= len,
            sum == sum_of_first(xs@, i as int),
            sum <= i * usize::MAX,
        decreases len - i,
    {
        assert(i * usize::MAX + usize::MAX == (i + 1) * usize::MAX && (i + 1) * usize::MAX
            <= 0xffff_ffff_ffff_ffff * 0xffff_ffff_ffff_ffff) by (nonlinear_arith)
            requires
                0 <= i < usize::MAX,
                0 <= usize::MAX <= 0xffff_ffff_ffff_ffff,
        ;
        sum = sum + xs[i] as u128;
        i = i + 1;
    }
    let d: u128 = len as u128;
    let quot: u128 = sum / d;
    let rest: u128 = sum % d;
    proof {
        vstd::arithmetic::div_mod::lemma_fundamental_div_mod(sum as int, d as int);
        assert(quot <= usize::MAX && (quot == usize::MAX ==> rest == 0)) by (nonlinear_arith)
            requires
                sum == d * quot + rest,
                sum <= d * usize::MAX,
                d >= 1,
                rest >= 0,
        ;
        let up: int = if rest >= d - rest {
            1
        } else {
            0
        };
        let left = 2 * sum + d - 2 * d * (quot + up);
        assert(2 * sum + d == (quot + up) * (2 * d) + left && 0 <= left < 2 * d)
            by (nonlinear_arith)
            requires
                sum == d * quot + rest,
                left == 2 * sum + d - 2 * d * (quot + up),
                0 <= rest < d,
                up == 1 && rest >= d - rest || up == 0 && rest < d - rest,
        ;
        vstd::arithmetic::div_mod::lemma_fundamental_div_mod_converse(
            2 * sum + d,
            2 * d,
            quot + up,
            left,
        );
        lemma_sum_is_fold(xs@, len as int);
        assert(xs@.take(len as int) =~= xs@);
        assert(2 * d * (quot + up) == 2 * (d * (quot + up))) by (nonlinear_arith);
    }
    if rest >= d - rest {
        (quot + 1) as usize
    } else {
        quot as usize
    }
}

/// The server times of the trials that count: all of them but the first, which
/// is a warm-up, where there is another one.
pub open spec fn counted_times(ms: Seq<Measurement>) -> Seq<usize> {
    let skip: int = if ms.len() > 1 {
        1
    } else {
        0
    };
    Seq::new((ms.len() - skip) as nat, |i: int| ms[i + skip].online.server_time_ms)
}

/// The summary of the measurements of a run. The first is a warm-up and is left
/// out where a trial follows it; the offline cost is always its.
pub fn summarize(measurements: &Vec<Measurement>) -> (r: Measurement)
    requires
        0 < measurements@.len(),
    ensures
        r.offline == measurements@[0].offline,
        r.online.all_server_times_ms@ == counted_times(measurements@),
        r.online.server_time_ms == rounded_mean(counted_times(measurements@)),
        measurements@.len() == 1 ==> r.online.all_server_times_ms@ == seq![
            measurements@[0].online.server_time_ms,
        ],
        measurements@.len() > 1 ==> r.online.all_server_times_ms@.len() == measurements@.len() - 1
            && forall|i: int|
            0 <= i < measurements@.len() - 1 ==> #[trigger] r.online.all_server_times_ms@[i]
                == measurements@[i + 1].online.server_time_ms,
        ({
            let times = r.online.all_server_times_ms@;
            let total = times.fold_left(0int, |t: int, x: usize| t + x);
            -(times.len() as int) <= 2 * total - 2 * (times.len() * r.online.server_time_ms)
                < times.len()
        }),
        ({
            let first = measurements@[if measurements@.len() > 1 {
                1int
            } else {
                0int
            }].online;
            &&& r.online.upload_bytes == first.upload_bytes
            &&& r.online.download_bytes == first.download_bytes
            &&& r.online.client_query_gen_time_ms == first.client_query_gen_time_ms
            &&& r.online.client_decode_time_ms == first.client_decode_time_ms
        }),
{
    let skip: usize = if measurements.len() > 1 {
        1
    } else {
        0
    };
    let mut times: Vec<usize> = Vec::new();
    let mut i: usize = skip;
    while i < measurements.len()
        invariant
            skip == if measurements@.len() > 1 {
                1int
            } else {
                0int
            },
            skip <= i <= measurements@.len(),
            times@.len() == i - skip,
            forall|k: int|
                0 <= k < times@.len() ==> #[trigger] times@[k] == measurements@[k
                    + skip].online.server_time_ms,
        decreases measurements@.len() - i,
    {
        times.push(measurements[i].online.server_time_ms);
        i = i + 1;
    }
    assert(times@ =~= counted_times(measurements@));
    assert(measurements@.len() == 1 ==> times@ =~= seq![measurements@[0].online.server_time_ms]);
    let mean: usize = mean_rounded(times.as_slice());
    let first: &Measurement = &measurements[skip];
    Measurement {
        offline: measurements[0].offline,
        online: OnlineMeasurement {
            upload_bytes: first.online.upload_bytes,
            download_bytes: first.online.download_bytes,
            server_time_ms: mean,
            client_query_gen_time_ms: first.online.client_query_gen_time_ms,
            client_decode_time_ms: first.online.client_decode_time_ms,
            all_server_times_ms: times,
        },
    }
}

/// One trial: what was asked for, under which keys, at which cost.
#[derive(Debug, Clone, Copy, PartialEq, Eq)]
pub struct Trial {
    pub target: Target,
    pub seed: Seed,
    pub upload_bytes: usize,
}

/// The times of a trial.
#[derive(Debug, Clone, Copy, PartialEq, Eq)]
pub struct TrialTimes {
    pub query_gen_ms: usize,
    pub server_ms: usize,
}

/// Why a trial failed.
#[derive(Debug, Clone, Copy, PartialEq, Eq)]
pub enum TrialFault {
    /// The answer does not have the length of an answer.
    WrongLength,
    /// The answer does not decode to the row that was asked for.
    WrongRow,
}

/// A run of trials against a server. The run decides what is asked and judges
/// the answers; asking, answering and taking the time are the caller's.
pub struct TrialRun {
    pub client: YPIRClient,
    pub offline_ms: usize,
    pub measurements: Vec<Measurement>,
}

/// The query of a trial: the row of the target under the keys of the trial, the
/// packing keys, and the bytes of the two.
pub open spec fn is_trial_query(
    t: Trial,
    query: (AlignedMemory64, AlignedMemory64),
    params: Params,
    key: Seq<u64>,
) -> bool {
    &&& words(query.0).len() == params.rows()
    &&& is_row_query(words(query.0), params, key, t.target.row as int)
    &&& is_packing_blob(words(query.1), params, key)
    &&& t.upload_bytes == div_ceil(words(query.0).len() * params.modulus_log2, 8) + (words(
        query.1,
    ).len() * params.modulus_log2) / 8
}

/// The measurement of a trial.
pub open spec fn is_trial_measurement(
    m: Measurement,
    offline_ms: usize,
    t: Trial,
    times: TrialTimes,
    answer_bytes: int,
) -> bool {
    &&& m.offline.server_time_ms == offline_ms
    &&& m.online.upload_bytes == t.upload_bytes
    &&& m.online.download_bytes == answer_bytes
    &&& m.online.server_time_ms == times.server_ms
    &&& m.online.client_query_gen_time_ms == times.query_gen_ms
    &&& m.online.client_decode_time_ms == 0
    &&& m.online.all_server_times_ms@ == Seq::<usize>::empty()
}

/// Whether two lists are the same.
fn same_elements(a: &[u64], b: &[u64]) -> (r: bool)
    ensures
        r == (a@ == b@),
{
    if a.len() != b.len() {
        return false;
    }
    let mut i: usize = 0;
    while i < a.len()
        invariant
            a@.len() == b@.len(),
            i <= a@.len(),
            forall|k: int| 0 <= k < i ==> a@[k] == b@[k],
        decreases a@.len() - i,
    {
        if a[i] != b[i] {
            return false;
        }
        i = i + 1;
    }
    assert(a@ =~= b@);
    true
}

impl TrialRun {
    /// The parameters are usable, and a database of them can be indexed.
    pub open spec fn wf(&self) -> bool {
        &&& self.client.wf()
        &&& self.client.params.rows() * self.client.params.cols_simplepir() <= usize::MAX
    }

    /// A run against a server that holds `db_len` elements and took
    /// `offline_ms` for its precomputation, unless that is not the size of the
    /// database.
    pub fn start(params: &Params, db_len: usize, offline_ms: usize) -> (r: Option<Self>)
        requires
            params.wf(),
            params.rows() * params.cols_simplepir() <= usize::MAX,
        ensures
            r is Some <==> db_len == params.rows() * params.cols_simplepir(),
            r matches Some(run) ==> run.wf() && run.client.params == *params && run.offline_ms
                == offline_ms && run.measurements@ == Seq::<Measurement>::empty(),
    {
        if db_len != params.db_rows_padded_simplepir() * params.db_cols_simplepir() {
            return None;
        }
        Some(TrialRun { client: YPIRClient::new(params), offline_ms, measurements: Vec::new() })
    }

    /// The query of a trial, for the row of the element that a random number
    /// points at.
    pub fn ask(&self, random: usize) -> (r: (Trial, (AlignedMemory64, AlignedMemory64)))
        requires
            self.wf(),
        ensures
            r.0.target.idx == random as int % (self.client.params.rows()
                * self.client.params.cols_simplepir()) as int,
            r.0.target.row == r.0.target.idx as int / self.client.params.cols_simplepir() as int,
            r.0.target.col == r.0.target.idx as int % self.client.params.cols_simplepir() as int,
            is_trial_query(r.0, r.1, self.client.params, self.client.key(r.0.seed)),
            forall|x: int|
                0 <= x < words(r.1.0).len() ==> #[trigger] query_number(
                    words(r.1.0)[x],
                    self.client.params,
                    self.client.key(r.0.seed),
                    numbered_seed(0),
                    x,
                ) == if x == r.0.target.row {
                    1int
                } else {
                    0int
                },
            r.0.upload_bytes == (words(r.1.0).len() * 56 + 7) / 8 + (words(r.1.1).len() * 56) / 8,
    {
        let params: &Params = &self.client.params;
        let target: Target = target_of(params, random);
        proof {
            let (k, n, t) = (
                params.poly_len_log2 as int,
                params.poly_len as int,
                params.t_exp_left as int,
            );
            assert(k * (t * n) <= 12 * (64 * 4096) && 0 <= k * (t * n)) by (nonlinear_arith)
                requires
                    0 <= k <= 12,
                    0 <= n <= 4096,
                    0 <= t <= 64,
            ;
        }
        let asked: ((AlignedMemory64, AlignedMemory64), Seed) =
            self.client.generate_query_simplepir(target.row);
        let query: (AlignedMemory64, AlignedMemory64) = asked.0;
        let bytes: usize = upload_bytes(
            params,
            aligned_slice(&query.0).len(),
            aligned_slice(&query.1).len(),
        );
        (Trial { target, seed: asked.1, upload_bytes: bytes }, query)
    }

    /// Judges the answer to a trial by the row that the server holds, and keeps
    /// the measurement where the answer is right.
    pub fn judge(
        &mut self,
        trial: &Trial,
        response: &[u8],
        row: &[u64],
        times: TrialTimes,
    ) -> (r: Result<(), TrialFault>)
        requires
            old(self).wf(),
            old(self).client.answer_len() <= usize::MAX,
        ensures
            final(self).client == old(self).client,
            final(self).offline_ms == old(self).offline_ms,
            r == Err::<(), TrialFault>(TrialFault::WrongLength) <==> response@.len()
                != old(self).client.answer_len(),
            r is Ok <==> response@.len() == old(self).client.answer_len() && decodes_to(
                row@,
                response@,
                old(self).client.params.instances as int,
                old(self).client.params,
                old(self).client.key(trial.seed),
            ),
            forall|m: Seq<u64>|
                #[trigger] is_right_answer(
                    response@,
                    old(self).client.params.instances as int,
                    old(self).client.params,
                    old(self).client.key(trial.seed),
                    m,
                ) ==> (r is Ok <==> row@ == m),
            r is Err ==> final(self).measurements@ == old(self).measurements@,
            r is Ok ==> {
                let kept = final(self).measurements@.last();
                &&& kept.offline.server_time_ms == old(self).offline_ms
                &&& kept.online.upload_bytes == trial.upload_bytes
                &&& kept.online.download_bytes == response@.len()
                &&& kept.online.server_time_ms == times.server_ms
                &&& kept.online.client_query_gen_time_ms == times.query_gen_ms
            },
            r is Ok ==> {
                &&& final(self).measurements@.len() == old(self).measurements@.len() + 1
                &&& final(self).measurements@.drop_last() == old(self).measurements@
                &&& is_trial_measurement(
                    final(self).measurements@.last(),
                    old(self).offline_ms,
                    *trial,
                    times,
                    response@.len() as int,
                )
            },
    {
        proof {
            lemma_switchable(self.client.params);
        }
        let per_ct: usize = expected_ct_byte_len(
            &self.client.params,
            self.client.params.get_q_prime_1(),
            self.client.params.get_q_prime_2(),
        );
        if response.len() != self.client.params.instances * per_ct {
            return Err(TrialFault::WrongLength);
        }
        let decoded: Vec<u64> = self.client.decode_response_simplepir_raw(trial.seed, response);
        if !same_elements(decoded.as_slice(), row) {
            proof {
                if decodes_to(
                    row@,
                    response@,
                    self.client.params.instances as int,
                    self.client.params,
                    self.client.key(trial.seed),
                ) {
                    decoding_is_deterministic(
                        decoded@,
                        row@,
                        response@,
                        self.client.params.instances as int,
                        self.client.params,
                        self.client.key(trial.seed),
                    );
                }
            }
            return Err(TrialFault::WrongRow);
        }
        self.measurements.push(
            Measurement {
                offline: OfflineMeasurement { server_time_ms: self.offline_ms },
                online: OnlineMeasurement {
                    upload_bytes: trial.upload_bytes,
                    download_bytes: response.len(),
                    server_time_ms: times.server_ms,
                    client_query_gen_time_ms: times.query_gen_ms,
                    client_decode_time_ms: 0,
                    all_server_times_ms: Vec::new(),
                },
            },
        );
        assert(self.measurements@.drop_last() =~= old(self).measurements@);
        Ok(())
    }

    /// Notes how long the last answer took to decode.
    pub fn note_decode_time(&mut self, decode_ms: usize)
        requires
            0 < old(self).measurements@.len(),
        ensures
            final(self).client == old(self).client,
            final(self).offline_ms == old(self).offline_ms,
            final(self).measurements@.len() == old(self).measurements@.len(),
            final(self).measurements@.drop_last() == old(self).measurements@.drop_last(),
            final(self).measurements@.last() == (Measurement {
                online: (OnlineMeasurement {
                    client_decode_time_ms: decode_ms,
                    ..old(self).measurements@.last().online
                }),
                ..old(self).measurements@.last()
            }),
    {
        if let Some(mut last) = self.measurements.pop() {
            last.online.client_decode_time_ms = decode_ms;
            self.measurements.push(last);
            assert(self.measurements@.drop_last() =~= old(self).measurements@.drop_last());
        }
    }
}

} // verus!
