//! Parameter sets: the ring, the moduli and the shape of the database.
use crate::arith::{
    barrett_raw_u64, barrett_reduction_u128_raw, ceil_log2, floor_log2, get_barrett_crs,
    invert_uint_mod, lemma_barrett_high_word, lemma_ceil_log2, lemma_ceil_log2_u64,
    lemma_ceil_log2_unique, lemma_crt_select, lemma_mod_factor, lemma_pow2_monotone, log2_ceil,
    log2_floor, pow2_usize, two_64,
};
use crate::lwe::LWEParams;
use vstd::arithmetic::power2::{lemma_pow2_unfold, pow2};
use vstd::prelude::*;

verus! {

/// The first prime factor of the ciphertext modulus.
pub const MODULUS_0: u64 = 268369921;

/// The second prime factor of the ciphertext modulus.
pub const MODULUS_1: u64 = 249561089;

/// The ciphertext modulus, the product of the two primes.
pub const MODULUS: u64 = 66974689739603969;

/// The ring degree of a parameter set that names none.
pub const DEFAULT_POLY_LEN: usize = 2048;

/// The smallest bit width of a reduced modulus.
pub const MIN_Q2_BITS: u64 = 14;

/// The Gaussian width of a parameter set that names none, in units of 10^-8.
pub const DEFAULT_NOISE_WIDTH_E8: u64 = 640000000;

/// The Gaussian width of the protocol's parameter sets, in units of 10^-8.
pub const YPIR_NOISE_WIDTH_E8: u64 = 1604242100;

/// One parameter set.
///
/// Ciphertexts are pairs of polynomials modulo `x^poly_len + 1` and `modulus`.
/// The modulus is the product of two primes, and the fields from
/// `barrett_cr_1` to `mod1_inv_mod0` are constants of the reductions modulo
/// them. `noise_width_e8` is the Gaussian width in units of 10^-8.
#[derive(Debug, Clone, Copy, PartialEq, Eq)]
pub struct Params {
    pub poly_len: usize,
    pub poly_len_log2: usize,
    pub crt_count: usize,
    pub barrett_cr_1: [u64; 2],
    pub barrett_cr_0_modulus: u64,
    pub barrett_cr_1_modulus: u64,
    pub mod0_inv_mod1: u64,
    pub mod1_inv_mod0: u64,
    pub moduli: [u64; 2],
    pub modulus: u64,
    pub modulus_log2: u64,
    pub noise_width_e8: u64,
    pub n: usize,
    pub pt_modulus: u64,
    pub q2_bits: u64,
    pub t_conv: usize,
    pub t_exp_left: usize,
    pub t_exp_right: usize,
    pub t_gsw: usize,
    pub expand_queries: bool,
    pub db_dim_1: usize,
    pub db_dim_2: usize,
    pub instances: usize,
    pub db_item_size: usize,
    pub version: usize,
}

impl Params {
    /// The ring is one of the two supported ones, and every constant derived
    /// from the moduli has the value that the reductions need.
    pub open spec fn ring_wf(&self) -> bool {
        &&& (self.poly_len == 2048 && self.poly_len_log2 == 11) || (self.poly_len == 4096
            && self.poly_len_log2 == 12)
        &&& self.moduli_wf()
        &&& 0 < self.noise_width_e8 <= 10_000_000_000
    }

    /// The moduli are the two primes and their product, with the constants of
    /// their reductions.
    pub open spec fn moduli_wf(&self) -> bool {
        &&& self.crt_count == 2
        &&& self.moduli@[0] == MODULUS_0
        &&& self.moduli@[1] == MODULUS_1
        &&& self.modulus == MODULUS
        &&& self.modulus_log2 == 56
        &&& self.reduction_ok()
    }

    /// The constants of the reductions have their values.
    pub closed spec fn reduction_ok(&self) -> bool {
        &&& self.barrett_cr_1@[0] == two_64() / (MODULUS_0 as int)
        &&& self.barrett_cr_1@[1] == two_64() / (MODULUS_1 as int)
        &&& self.barrett_cr_0_modulus + two_64() * self.barrett_cr_1_modulus == (two_64()
            * two_64()) / (MODULUS as int)
        &&& self.mod0_inv_mod1 < MODULUS
        &&& self.mod0_inv_mod1 % MODULUS_0 == 0
        &&& self.mod0_inv_mod1 % MODULUS_1 == 1
        &&& self.mod1_inv_mod0 < MODULUS
        &&& self.mod1_inv_mod0 % MODULUS_0 == 1
        &&& self.mod1_inv_mod0 % MODULUS_1 == 0
    }

    /// The number of rows of the database.
    pub open spec fn rows(&self) -> nat {
        pow2((self.db_dim_1 + self.poly_len_log2) as nat)
    }

    /// The number of columns of the database of the two-level scheme.
    pub open spec fn cols_normal(&self) -> nat {
        pow2((self.db_dim_2 + self.poly_len_log2) as nat)
    }

    /// The number of columns of the database of the one-level scheme.
    pub open spec fn cols_simplepir(&self) -> nat {
        (self.instances * self.poly_len) as nat
    }

    /// The words of a query or an answer can be counted in a `usize`.
    pub open spec fn sizes_fit(&self) -> bool {
        &&& self.rows() <= usize::MAX / 0x20000
        &&& self.cols_simplepir() <= usize::MAX / 0x20000
    }

    /// The parameter set is usable: besides the ring, the plaintext modulus,
    /// the reduced modulus and the gadget have sensible sizes, and the words
    /// of a query or an answer can be counted in a `usize`.
    pub open spec fn wf(&self) -> bool {
        &&& self.ring_wf()
        &&& 1 < self.pt_modulus <= 0x1_0000_0000
        &&& 14 <= self.q2_bits <= 36 || self.q2_bits == 56
        &&& 1 <= self.t_exp_left <= 64
        &&& 1 <= self.n <= 64
        &&& 1 <= self.instances
        &&& self.sizes_fit()
    }
}

/// The fields of a parameter set as a configuration names them. Those that may
/// be left out have a default.
#[derive(Debug, Clone, Copy, PartialEq, Eq)]
pub struct ParamsFields {
    pub n: usize,
    pub nu_1: usize,
    pub nu_2: usize,
    pub instances: Option<usize>,
    pub p: u64,
    pub q2_bits: u64,
    pub t_gsw: usize,
    pub t_conv: usize,
    pub t_exp_left: usize,
    pub t_exp_right: usize,
    pub direct_upload: bool,
    pub poly_len: Option<usize>,
    pub db_item_size: Option<usize>,
    pub version: Option<usize>,
    pub noise_width_e8: Option<u64>,
}

impl ParamsFields {
    /// The ring degree named, or the default one.
    pub open spec fn degree(&self) -> usize {
        match self.poly_len {
            Some(v) => v,
            None => DEFAULT_POLY_LEN,
        }
    }

    /// The number of instances named, or one.
    pub open spec fn instance_count(&self) -> usize {
        match self.instances {
            Some(v) => v,
            None => 1,
        }
    }

    /// The bytes of a database item that fill every instance.
    pub open spec fn full_item_size(&self) -> int {
        (self.instance_count() * self.n * self.n * self.degree() * ceil_log2(self.p as int)) / 8
    }

    /// The bytes of a database item: those named, unless none or zero.
    pub open spec fn item_size(&self) -> int {
        match self.db_item_size {
            Some(v) => if v == 0 {
                self.full_item_size()
            } else {
                v as int
            },
            None => self.full_item_size(),
        }
    }

    /// The size of an item is named, and not as zero.
    pub open spec fn names_item_size(&self) -> bool {
        self.db_item_size matches Some(v) && v != 0
    }

    /// The two primes have roots of unity for the degree, and the size of an
    /// item can be counted where it is not named.
    pub open spec fn valid(&self) -> bool {
        let words = self.instance_count() * self.n * self.n * self.degree();
        &&& is_degree(self.degree() as int)
        &&& self.names_item_size() || (words <= usize::MAX && words * ceil_log2(self.p as int)
            <= usize::MAX)
    }

    /// The degree and the width of the noise are among those that the rest of
    /// the library works with.
    pub open spec fn supported(&self) -> bool {
        &&& self.degree() == 2048 || self.degree() == 4096
        &&& self.noise_width_e8 matches Some(w) ==> 0 < w <= 10_000_000_000
    }
}

/// A power of two whose double divides both primes less one.
pub open spec fn is_degree(d: int) -> bool {
    exists|k: nat| k <= 15 && #[trigger] pow2(k) == d
}

/// `p` is the parameter set that `f` describes.
pub open spec fn described_by(p: Params, f: ParamsFields) -> bool {
    &&& f.supported() ==> p.ring_wf()
    &&& p.moduli_wf()
    &&& p.poly_len == f.degree()
    &&& pow2(p.poly_len_log2 as nat) == f.degree()
    &&& p.n == f.n
    &&& p.pt_modulus == f.p
    &&& p.q2_bits == if f.q2_bits >= MIN_Q2_BITS {
        f.q2_bits
    } else {
        MIN_Q2_BITS
    }
    &&& p.t_conv == f.t_conv
    &&& p.t_exp_left == f.t_exp_left
    &&& p.t_exp_right == f.t_exp_right
    &&& p.t_gsw == f.t_gsw
    &&& p.expand_queries == !f.direct_upload
    &&& p.db_dim_1 == f.nu_1
    &&& p.db_dim_2 == f.nu_2
    &&& p.instances == f.instance_count()
    &&& p.db_item_size == f.item_size()
    &&& p.version == match f.version {
        Some(v) => v,
        None => 0,
    }
    &&& p.noise_width_e8 == match f.noise_width_e8 {
        Some(v) => v,
        None => DEFAULT_NOISE_WIDTH_E8,
    }
}

/// The constants that reductions modulo the two primes and their product use.
struct ReductionConstants {
    cr_1: [u64; 2],
    cr_0_modulus: u64,
    cr_1_modulus: u64,
    mod0_inv_mod1: u64,
    mod1_inv_mod0: u64,
}

/// Computes the reduction constants of the ciphertext modulus.
fn reduction_constants() -> (r: ReductionConstants)
    ensures
        r.cr_1@[0] == two_64() / (MODULUS_0 as int),
        r.cr_1@[1] == two_64() / (MODULUS_1 as int),
        r.cr_0_modulus + two_64() * r.cr_1_modulus == (two_64() * two_64()) / (MODULUS as int),
        r.mod0_inv_mod1 < MODULUS,
        r.mod0_inv_mod1 % MODULUS_0 == 0,
        r.mod0_inv_mod1 % MODULUS_1 == 1,
        r.mod1_inv_mod0 < MODULUS,
        r.mod1_inv_mod0 % MODULUS_0 == 1,
        r.mod1_inv_mod0 % MODULUS_1 == 0,
{
    let c0: (u64, u64) = get_barrett_crs(MODULUS_0);
    let c1: (u64, u64) = get_barrett_crs(MODULUS_1);
    let c: (u64, u64) = get_barrett_crs(MODULUS);
    proof {
        lemma_barrett_high_word(MODULUS_0, c0.0, c0.1);
        lemma_barrett_high_word(MODULUS_1, c1.0, c1.1);
    }
    let i01: Option<u64> = invert_uint_mod(MODULUS_0, MODULUS_1);
    let i10: Option<u64> = invert_uint_mod(MODULUS_1, MODULUS_0);
    assert(i01 is Some) by {
        assert((97389680 * MODULUS_0) % (MODULUS_1 as int) == 1);
    }
    assert(i10 is Some) by {
        assert((163640210 * MODULUS_1) % (MODULUS_0 as int) == 1);
    }
    let i01: u64 = i01.unwrap();
    let i10: u64 = i10.unwrap();
    assert(i01 * MODULUS_0 < MODULUS);
    assert(i10 * MODULUS_1 < MODULUS);
    let m0: u64 = MODULUS_0 * i01;
    let m1: u64 = MODULUS_1 * i10;
    ReductionConstants {
        cr_1: [c0.1, c1.1],
        cr_0_modulus: c.0,
        cr_1_modulus: c.1,
        mod0_inv_mod1: m0,
        mod1_inv_mod0: m1,
    }
}

/// The exponent of a ring degree, unless it is none.
pub fn degree_log2(poly_len: usize) -> (r: Option<usize>)
    ensures
        r is Some <==> is_degree(poly_len as int),
        r matches Some(k) ==> k <= 15 && 1 <= poly_len == pow2(k as nat),
{
    let mut k: usize = 0;
    let mut power: usize = 1;
    proof {
        vstd::arithmetic::power2::lemma2_to64();
    }
    while power < poly_len && k < 15
        invariant
            k <= 15,
            power == pow2(k as nat),
            1 <= power <= 32768,
            pow2(15) == 32768,
            forall|j: nat| j < k ==> #[trigger] pow2(j) < poly_len,
        decreases 15 - k,
    {
        proof {
            lemma_pow2_unfold((k + 1) as nat);
            lemma_pow2_monotone((k + 1) as nat, 15);
        }
        power = 2 * power;
        k = k + 1;
    }
    if power == poly_len {
        return Some(k);
    }
    proof {
        assert forall|j: nat| j <= 15 implies #[trigger] pow2(j) != poly_len by {
            if j > k {
                lemma_pow2_monotone(k as nat, j);
            }
        }
    }
    None
}

/// A degree is a power of two for which both primes have roots of unity: twice
/// the degree divides each of them less one.
pub proof fn degrees_have_roots_of_unity(k: nat)
    ensures
        is_degree(pow2(k) as int) <==> (MODULUS_0 - 1) % (2 * pow2(k) as int) == 0 && (MODULUS_1
            - 1) % (2 * pow2(k) as int) == 0,
{
    vstd::arithmetic::power2::lemma2_to64();
    lemma_pow2_pos_all(k);
    if k <= 15 {
        vstd::arithmetic::power2::lemma_pow2_adds(k, (15 - k) as nat);
        lemma_pow2_pos_all((15 - k) as nat);
        let (d, c) = (pow2(k) as int, pow2((15 - k) as nat) as int);
        assert(d * c == 32768);
        assert(268369920 == (4095 * c) * (2 * d)) by (nonlinear_arith)
            requires
                d * c == 32768,
        ;
        assert(249561088 == (3808 * c) * (2 * d)) by (nonlinear_arith)
            requires
                d * c == 32768,
        ;
        vstd::arithmetic::div_mod::lemma_mod_multiples_basic(4095 * c, 2 * d);
        vstd::arithmetic::div_mod::lemma_mod_multiples_basic(3808 * c, 2 * d);
        assert(is_degree(pow2(k) as int));
    } else {
        vstd::arithmetic::power2::lemma_pow2_adds(16, (k - 16) as nat);
        lemma_pow2_pos_all((k - 16) as nat);
        let (d, c) = (pow2(k) as int, pow2((k - 16) as nat) as int);
        assert(d == 65536 * c);
        if 268369920int % (2 * d) == 0 {
            vstd::arithmetic::div_mod::lemma_fundamental_div_mod(268369920, 2 * d);
            let q = 268369920int / (2 * d);
            assert(268369920 == 131072 * (c * q)) by (nonlinear_arith)
                requires
                    268369920 == (2 * d) * q,
                    d == 65536 * c,
            ;
            assert(false);
        }
        if is_degree(d) {
            let j = choose|j: nat| j <= 15 && #[trigger] pow2(j) == d;
            vstd::arithmetic::power2::lemma_pow2_strictly_increases(j, k);
        }
    }
}

/// Powers of two are positive.
proof fn lemma_pow2_pos_all(k: nat)
    ensures
        pow2(k) > 0,
{
    vstd::arithmetic::power2::lemma_pow2_pos(k);
}

/// The exponents of the two degrees that the library works with.
proof fn lemma_degree_exponents(k: nat)
    ensures
        pow2(k) == 2048 ==> k == 11,
        pow2(k) == 4096 ==> k == 12,
{
    vstd::arithmetic::power2::lemma2_to64();
    if k < 11 {
        vstd::arithmetic::power2::lemma_pow2_strictly_increases(k, 11);
    } else if k > 12 {
        vstd::arithmetic::power2::lemma_pow2_strictly_increases(12, k);
    }
}

/// Builds the parameter set that `f` describes.
pub fn params_from_fields(f: &ParamsFields) -> (r: Params)
    requires
        f.valid(),
    ensures
        described_by(r, *f),
        r.n == f.n && r.pt_modulus == f.p && r.t_conv == f.t_conv && r.t_gsw == f.t_gsw,
        r.t_exp_left == f.t_exp_left && r.t_exp_right == f.t_exp_right,
        r.db_dim_1 == f.nu_1 && r.db_dim_2 == f.nu_2 && r.expand_queries == !f.direct_upload,
        r.poly_len == f.poly_len.unwrap_or(2048),
        r.instances == f.instances.unwrap_or(1),
        r.version == f.version.unwrap_or(0),
        r.noise_width_e8 == f.noise_width_e8.unwrap_or(640000000),
        r.q2_bits >= 14 && r.q2_bits >= f.q2_bits && (r.q2_bits == 14 || r.q2_bits == f.q2_bits),
        f.db_item_size.unwrap_or(0) != 0 ==> r.db_item_size == f.db_item_size.unwrap(),
        f.db_item_size.unwrap_or(0) == 0 ==> r.db_item_size == (r.instances * r.n * r.n * r.poly_len
            * ceil_log2(r.pt_modulus as int)) / 8,
{
    let n: usize = f.n;
    let instances: usize = match f.instances {
        Some(v) => v,
        None => 1,
    };
    let poly_len: usize = match f.poly_len {
        Some(v) => v,
        None => DEFAULT_POLY_LEN,
    };
    let poly_len_log2: usize = degree_log2(poly_len).unwrap();
    let q2_bits: u64 = if f.q2_bits >= MIN_Q2_BITS {
        f.q2_bits
    } else {
        MIN_Q2_BITS
    };
    let mut db_item_size: usize = match f.db_item_size {
        Some(v) => v,
        None => 0,
    };
    if db_item_size == 0 {
        let log_p: usize = log2_ceil(f.p);
        assert(instances * n <= usize::MAX && instances * n * n <= usize::MAX) by (nonlinear_arith)
            requires
                instances * n * n * poly_len <= usize::MAX,
                poly_len >= 1,
                n >= 0,
                instances >= 0,
        {
            if n == 0 {
                assert(instances * n == 0);
            } else {
                assert(instances * n <= instances * n * n);
            }
            assert(instances * n * n <= instances * n * n * poly_len);
        }
        db_item_size = instances * n * n;
        db_item_size = db_item_size * poly_len * log_p / 8;
    }
    let version: usize = match f.version {
        Some(v) => v,
        None => 0,
    };
    let noise_width_e8: u64 = match f.noise_width_e8 {
        Some(v) => v,
        None => DEFAULT_NOISE_WIDTH_E8,
    };
    let c: ReductionConstants = reduction_constants();
    let modulus_log2: usize = log2_ceil(MODULUS);
    proof {
        vstd::arithmetic::power2::lemma2_to64();
        vstd::arithmetic::power2::lemma2_to64_rest();
        lemma_ceil_log2_unique(MODULUS as int, 56);
        lemma_degree_exponents(poly_len_log2 as nat);
    }
    Params {
        poly_len,
        poly_len_log2,
        crt_count: 2,
        barrett_cr_1: c.cr_1,
        barrett_cr_0_modulus: c.cr_0_modulus,
        barrett_cr_1_modulus: c.cr_1_modulus,
        mod0_inv_mod1: c.mod0_inv_mod1,
        mod1_inv_mod0: c.mod1_inv_mod0,
        moduli: [MODULUS_0, MODULUS_1],
        modulus: MODULUS,
        modulus_log2: modulus_log2 as u64,
        noise_width_e8,
        n,
        pt_modulus: f.p,
        q2_bits,
        t_conv: f.t_conv,
        t_exp_left: f.t_exp_left,
        t_exp_right: f.t_exp_right,
        t_gsw: f.t_gsw,
        expand_queries: !f.direct_upload,
        db_dim_1: f.nu_1,
        db_dim_2: f.nu_2,
        instances,
        db_item_size,
        version,
    }
}

/// The configuration of a protocol parameter set with the given database
/// dimensions, plaintext modulus, gadget length and ring degree.
pub open spec fn protocol_fields(
    nu_1: usize,
    nu_2: usize,
    p: u64,
    q2_bits: u64,
    t_exp_left: usize,
    poly_len: usize,
) -> ParamsFields {
    ParamsFields {
        n: 1,
        nu_1,
        nu_2,
        instances: Some(1),
        p,
        q2_bits,
        t_gsw: 3,
        t_conv: 4,
        t_exp_left,
        t_exp_right: 2,
        direct_upload: false,
        poly_len: Some(poly_len),
        db_item_size: Some(0),
        version: None,
        noise_width_e8: Some(YPIR_NOISE_WIDTH_E8),
    }
}

/// Builds the protocol parameter set with the given database dimensions,
/// plaintext modulus, gadget length and ring degree.
fn internal_params_for(
    nu_1: usize,
    nu_2: usize,
    p: u64,
    q2_bits: u64,
    t_exp_left: usize,
    poly_len: usize,
) -> (r: Params)
    requires
        poly_len == 2048 || poly_len == 4096,
    ensures
        described_by(r, protocol_fields(nu_1, nu_2, p, q2_bits, t_exp_left, poly_len)),
{
    let f = ParamsFields {
        n: 1,
        nu_1,
        nu_2,
        instances: Some(1),
        p,
        q2_bits,
        t_gsw: 3,
        t_conv: 4,
        t_exp_left,
        t_exp_right: 2,
        direct_upload: false,
        poly_len: Some(poly_len),
        db_item_size: Some(0),
        version: None,
        noise_width_e8: Some(YPIR_NOISE_WIDTH_E8),
    };
    assert(f == protocol_fields(nu_1, nu_2, p, q2_bits, t_exp_left, poly_len));
    assert(f.valid()) by {
        vstd::arithmetic::power2::lemma2_to64();
        assert(pow2(11) == 2048 && pow2(12) == 4096);
        if p >= 1 {
            lemma_ceil_log2_u64(p);
        }
        let c = ceil_log2(p as int) as int;
        assert(c <= 64);
        assert(f.instance_count() * f.n * f.n * f.degree() == poly_len && poly_len * c <= poly_len
            * 64) by (nonlinear_arith)
            requires
                f.instance_count() == 1,
                f.n == 1,
                f.degree() == poly_len,
                0 <= c <= 64,
        ;
    }
    params_from_fields(&f)
}

/// A configuration of the one-level scheme: the ring degree and the length of
/// the gadget of its packing keys.
///
/// Only two pairs exist: degree 2048 with three digits, and degree 4096 with
/// four. The extra digit makes up for the packing noise of the larger ring.
#[derive(Debug, Clone, Copy, PartialEq, Eq)]
pub struct YPIRSPConfig {
    poly_len: usize,
    t_exp_left: usize,
}

/// The degree and gadget length that a configuration may have.
pub open spec fn supported_pair(poly_len: int, t_exp_left: int) -> bool {
    (poly_len == 2048 && t_exp_left == 3) || (poly_len == 4096 && t_exp_left == 4)
}

impl YPIRSPConfig {
    #[verifier::type_invariant]
    spec fn inv(self) -> bool {
        supported_pair(self.poly_len as int, self.t_exp_left as int)
    }

    /// The ring degree.
    pub closed spec fn degree(self) -> usize {
        self.poly_len
    }

    /// The number of gadget digits.
    pub closed spec fn digits(self) -> usize {
        self.t_exp_left
    }

    /// Degree 2048, three digits.
    pub fn degree_2048() -> (r: Self)
        ensures
            r.degree() == 2048,
            r.digits() == 3,
    {
        YPIRSPConfig { poly_len: 2048, t_exp_left: 3 }
    }

    /// Degree 4096, four digits.
    pub fn degree_4096() -> (r: Self)
        ensures
            r.degree() == 4096,
            r.digits() == 4,
    {
        YPIRSPConfig { poly_len: 4096, t_exp_left: 4 }
    }

    /// The configuration with the given degree.
    pub fn for_poly_len(poly_len: usize) -> (r: Self)
        requires
            poly_len == 2048 || poly_len == 4096,
        ensures
            r.degree() == poly_len,
            supported_pair(r.degree() as int, r.digits() as int),
            poly_len == 2048 ==> r.digits() == 3,
            poly_len == 4096 ==> r.digits() == 4,
    {
        if poly_len == 2048 {
            Self::degree_2048()
        } else {
            Self::degree_4096()
        }
    }

    /// The ring degree.
    pub fn poly_len(self) -> (r: usize)
        ensures
            r == self.degree(),
    {
        self.poly_len
    }

    /// The number of gadget digits.
    pub fn t_exp_left(self) -> (r: usize)
        ensures
            r == self.digits(),
    {
        self.t_exp_left
    }

    /// Both values, which are always one of the two supported pairs.
    pub fn validated_values(self) -> (r: (usize, usize))
        ensures
            r.0 == self.degree(),
            r.1 == self.digits(),
            supported_pair(r.0 as int, r.1 as int),
    {
        proof {
            use_type_invariant(self);
        }
        (self.poly_len, self.t_exp_left)
    }
}

impl Default for YPIRSPConfig {
    fn default() -> (r: Self)
        ensures
            r.degree() == 2048,
            r.digits() == 3,
    {
        Self::degree_2048()
    }
}

/// The number of 2048 by 2048 tiles of bytes that hold a database.
pub open spec fn tile_count(num_items: u64, item_size_bits: u64) -> int {
    ((num_items * item_size_bits) / 8 + 0x3f_ffff) / 0x40_0000
}

/// `r` is the parameter set of the two-level scheme for a database of
/// `num_items` items of `item_size_bits` bits each. The tiles of the database
/// are laid out in a rectangle whose sides are powers of two.
pub open spec fn double_params(r: Params, num_items: u64, item_size_bits: u64) -> bool {
    let log_tiles = ceil_log2(tile_count(num_items, item_size_bits)) as int;
    &&& log_tiles <= 64
    &&& described_by(
        r,
        protocol_fields(
            ((log_tiles + 1) / 2) as usize,
            (log_tiles / 2) as usize,
            32768,
            28,
            3,
            2048,
        ),
    )
}

/// The parameter set of the two-level scheme for a database of `num_items`
/// items of `item_size_bits` bits each. The tiles of the database are laid out
/// in a rectangle whose sides are powers of two and differ by at most a factor
/// of two, the row side being the longer one.
pub fn params_for_scenario(num_items: u64, item_size_bits: u64) -> (r: Params)
    requires
        num_items * item_size_bits <= u64::MAX,
    ensures
        r.sizes_fit() ==> r.wf(),
        double_params(r, num_items, item_size_bits),
        (num_items * item_size_bits) / 8 <= r.rows() * r.cols_normal(),
        r.rows() * r.cols_normal() == 0x40_0000 || r.rows() * r.cols_normal() < 2 * ((num_items
            * item_size_bits) / 8 + 0x40_0000),
        r.rows() == r.cols_normal() || r.rows() == 2 * r.cols_normal(),
        r.poly_len == 2048 && r.pt_modulus == 32768 && r.q2_bits == 28 && r.t_exp_left == 3,
        r.n == 1 && r.instances == 1 && r.noise_width_e8 == 1604242100,
{
    let total_db_bytes: u64 = num_items * item_size_bits / 8;
    let num_tiles: u64 = total_db_bytes / 0x40_0000 + if total_db_bytes % 0x40_0000 == 0 {
        0u64
    } else {
        1u64
    };
    assert(num_tiles == tile_count(num_items, item_size_bits));
    let num_tiles_log2: usize = log2_ceil(num_tiles);
    let nu_1: usize;
    let nu_2: usize;
    if num_tiles_log2 % 2 == 0 {
        nu_1 = num_tiles_log2 / 2;
        nu_2 = num_tiles_log2 / 2;
    } else {
        nu_1 = (num_tiles_log2 + 1) / 2;
        nu_2 = (num_tiles_log2 - 1) / 2;
    }
    let r: Params = internal_params_for(nu_1, nu_2, 32768, 28, 3, DEFAULT_POLY_LEN);
    proof {
        double_params_hold_the_database(r, num_items, item_size_bits);
    }
    r
}

/// A database fits its set of the two-level scheme: one of `num_items` items of
/// `item_size_bits` bits each has no more bytes than the set has cells. There are
/// fewer cells than twice the bytes and one tile, unless one tile is all, and
/// there are as many rows as columns or twice as many.
pub proof fn double_params_hold_the_database(r: Params, num_items: u64, item_size_bits: u64)
    requires
        double_params(r, num_items, item_size_bits),
    ensures
        (num_items * item_size_bits) / 8 <= r.rows() * r.cols_normal(),
        r.rows() * r.cols_normal() == 0x40_0000 || r.rows() * r.cols_normal() < 2 * ((num_items
            * item_size_bits) / 8 + 0x40_0000),
        r.rows() == r.cols_normal() || r.rows() == 2 * r.cols_normal(),
{
    let bytes = (num_items * item_size_bits) / 8;
    let tiles = tile_count(num_items, item_size_bits);
    let l = ceil_log2(tiles);
    let (a, b) = (r.db_dim_1 as nat, r.db_dim_2 as nat);
    assert(num_items * item_size_bits >= 0) by (nonlinear_arith)
        requires
            num_items >= 0,
            item_size_bits >= 0,
    ;
    vstd::arithmetic::power2::lemma2_to64();
    assert(r.poly_len_log2 == 11);
    assert(a + b == l);
    vstd::arithmetic::power2::lemma_pow2_adds(a, 11);
    vstd::arithmetic::power2::lemma_pow2_adds(b, 11);
    vstd::arithmetic::power2::lemma_pow2_adds(a, b);
    if a != b {
        assert(a == b + 1);
        lemma_pow2_unfold(a);
    }
    let (x, y) = (pow2(a) as int, pow2(b) as int);
    assert((x * 2048) * (y * 2048) == (x * y) * 0x40_0000) by (nonlinear_arith);
    if tiles >= 1 {
        lemma_ceil_log2(tiles);
        if tiles > 1 {
            lemma_pow2_unfold(l);
        }
    }
}

/// The quotient of `a` by `b`, rounded up.
pub open spec fn div_ceil(a: int, b: int) -> int {
    (a + b - 1) / b
}

/// `r` is the parameter set of the one-level scheme, in the ring of degree
/// `poly_len` with `t_exp_left` gadget digits, for a database of `num_items`
/// items of `item_size_bits` bits each: the rows are padded to a power of two
/// no smaller than the degree, and each instance holds 14 bits per
/// coefficient.
pub open spec fn simplepir_params(
    r: Params,
    num_items: u64,
    item_size_bits: u64,
    poly_len: usize,
    t_exp_left: usize,
) -> bool {
    let deg_log2: int = if poly_len == 2048 {
        11
    } else {
        12
    };
    let row_log2 = ceil_log2(num_items as int) as int;
    let nu_1 = if row_log2 <= deg_log2 {
        0
    } else {
        row_log2 - deg_log2
    };
    &&& r.instances == div_ceil(item_size_bits as int, poly_len * 14)
    &&& described_by(
        (Params { instances: 1, ..r }),
        protocol_fields(nu_1 as usize, 1, 0x4000, 28, t_exp_left, poly_len),
    )
}

/// The parameter set of the one-level scheme in the default configuration.
pub fn params_for_scenario_simplepir(num_items: u64, item_size_bits: u64) -> (r: Params)
    requires
        0 < num_items <= 0x8000_0000_0000_0000,
        0 < item_size_bits,
        div_ceil(item_size_bits as int, 28672) <= usize::MAX,
    ensures
        simplepir_params(r, num_items, item_size_bits, 2048, 3),
        r.sizes_fit() ==> r.wf(),
        r.poly_len == 2048,
        num_items <= r.rows(),
        r.poly_len <= r.rows(),
        r.rows() == r.poly_len || r.rows() < 2 * num_items,
        item_size_bits <= r.cols_simplepir() * 14 < item_size_bits + r.poly_len * 14,
{
    let config: YPIRSPConfig = YPIRSPConfig::default();
    params_for_scenario_simplepir_with_config(num_items, item_size_bits, config)
}

/// The parameter set of the one-level scheme in the given configuration.
pub fn params_for_scenario_simplepir_with_config(
    num_items: u64,
    item_size_bits: u64,
    config: YPIRSPConfig,
) -> (r: Params)
    requires
        0 < num_items <= 0x8000_0000_0000_0000,
        0 < item_size_bits,
        div_ceil(item_size_bits as int, config.degree() * 14) <= usize::MAX,
    ensures
        simplepir_params(r, num_items, item_size_bits, config.degree(), config.digits()),
        supported_pair(config.degree() as int, config.digits() as int),
        r.sizes_fit() ==> r.wf(),
        r.poly_len == config.degree(),
        r.t_exp_left == config.digits(),
        r.pt_modulus == 16384 && r.q2_bits == 28 && r.n == 1 && r.noise_width_e8 == 1604242100,
        num_items <= r.rows(),
        r.poly_len <= r.rows(),
        r.rows() == r.poly_len || r.rows() < 2 * num_items,
        item_size_bits <= r.cols_simplepir() * 14 < item_size_bits + r.poly_len * 14,
{
    let (poly_len, t_exp_left): (usize, usize) = config.validated_values();
    let bits_per_instance: u64 = poly_len as u64 * 14;
    let whole: u64 = item_size_bits / bits_per_instance;
    assert(whole < u64::MAX) by (nonlinear_arith)
        requires
            whole == item_size_bits as int / bits_per_instance as int,
            bits_per_instance >= 2,
    ;
    let db_cols_u64: u64 = if item_size_bits % bits_per_instance == 0 {
        whole
    } else {
        whole + 1
    };
    assert(db_cols_u64 == div_ceil(item_size_bits as int, poly_len * 14)) by (nonlinear_arith)
        requires
            bits_per_instance == poly_len * 14,
            bits_per_instance > 0,
            whole == item_size_bits as int / bits_per_instance as int,
            db_cols_u64 == if item_size_bits as int % bits_per_instance as int == 0 {
                whole as int
            } else {
                whole + 1
            },
            div_ceil(item_size_bits as int, poly_len * 14) == (item_size_bits + poly_len * 14 - 1)
                / (poly_len * 14),
    ;
    let db_cols: usize = db_cols_u64 as usize;
    let deg_log2: usize = if poly_len == 2048 {
        11
    } else {
        12
    };
    let row_log2: usize = log2_ceil(num_items);
    let nu_1: usize = if row_log2 <= deg_log2 {
        0
    } else {
        row_log2 - deg_log2
    };
    let mut params: Params = internal_params_for(nu_1, 1, 0x4000, 28, t_exp_left, poly_len);
    let ghost built = params;
    params.instances = db_cols;
    assert((Params { instances: 1, ..params }) == built);
    assert(db_cols >= 1) by (nonlinear_arith)
        requires
            db_cols == (item_size_bits + poly_len * 14 - 1) / (poly_len * 14),
            item_size_bits >= 1,
            poly_len >= 1,
    ;
    proof {
        simplepir_params_hold_the_database(
            params,
            num_items,
            item_size_bits,
            poly_len,
            t_exp_left,
        );
    }
    params
}

/// A database fits its set of the one-level scheme: there is a row for each item,
/// in the least power of two that is no less than the degree, and a row has room
/// for the bits of an item, 14 to a column, in the least number of instances.
pub proof fn simplepir_params_hold_the_database(
    r: Params,
    num_items: u64,
    item_size_bits: u64,
    poly_len: usize,
    t_exp_left: usize,
)
    requires
        simplepir_params(r, num_items, item_size_bits, poly_len, t_exp_left),
        poly_len == 2048 || poly_len == 4096,
        0 < num_items,
    ensures
        r.poly_len == poly_len,
        r.t_exp_left == t_exp_left,
        num_items <= r.rows(),
        r.poly_len <= r.rows(),
        r.rows() == r.poly_len || r.rows() < 2 * num_items,
        item_size_bits <= r.cols_simplepir() * 14 < item_size_bits + r.poly_len * 14,
{
    let k = ceil_log2(num_items as int);
    let built = Params { instances: 1, ..r };
    assert(built.ring_wf());
    let d = r.poly_len_log2 as nat;
    vstd::arithmetic::power2::lemma2_to64();
    lemma_ceil_log2(num_items as int);
    lemma_ceil_log2_u64(num_items);
    assert(pow2(d) == poly_len);
    if k <= d {
        lemma_pow2_monotone(k, d);
        assert(r.db_dim_1 == 0);
    } else {
        assert(r.db_dim_1 + d == k);
        lemma_pow2_monotone(d, k);
        lemma_pow2_unfold(k);
        vstd::arithmetic::power2::lemma_pow2_pos((k - 1) as nat);
        vstd::arithmetic::power2::lemma_pow2_pos((d - 1) as nat);
        assert(num_items > 1);
    }
    let (c, w, x) = (r.instances as int, poly_len * 14, item_size_bits as int);
    assert(c == (x + w - 1) / w);
    assert(x <= c * w < x + w) by (nonlinear_arith)
        requires
            c == (x + w - 1) / w,
            w > 0,
    ;
    assert(c * poly_len * 14 == c * w) by (nonlinear_arith)
        requires
            w == poly_len * 14,
    ;
}

/// Whether a bare parameter set has the degree and gadget length of one of the
/// two configurations of the one-level scheme.
pub fn is_valid_ypir_sp_params(params: &Params) -> (r: bool)
    ensures
        r == supported_pair(params.poly_len as int, params.t_exp_left as int),
        r == (params.poly_len == 2048 && params.t_exp_left == 3 || params.poly_len == 4096
            && params.t_exp_left == 4),
{
    (params.poly_len == 2048 && params.t_exp_left == 3) || (params.poly_len == 4096
        && params.t_exp_left == 4)
}

/// The builder without a configuration builds the set of the degree-2048
/// configuration: the two differ in no field.
pub proof fn default_builder_is_degree_2048(
    a: Params,
    b: Params,
    num_items: u64,
    item_size_bits: u64,
)
    requires
        simplepir_params(a, num_items, item_size_bits, 2048, 3),
        simplepir_params(b, num_items, item_size_bits, 2048, 3),
    ensures
        a == b,
{
    lemma_reduction_constants_unique(
        (Params { instances: 1, ..a }),
        (Params { instances: 1, ..b }),
    );
    assert(a.moduli@ =~= b.moduli@);
    assert(a.barrett_cr_1@ =~= b.barrett_cr_1@);
    assert(a.moduli == b.moduli);
    assert(a.barrett_cr_1 == b.barrett_cr_1);
}

/// The moduli fix the reduction constants.
proof fn lemma_reduction_constants_unique(a: Params, b: Params)
    requires
        a.ring_wf(),
        b.ring_wf(),
    ensures
        a.barrett_cr_0_modulus == b.barrett_cr_0_modulus,
        a.barrett_cr_1_modulus == b.barrett_cr_1_modulus,
        a.mod0_inv_mod1 == b.mod0_inv_mod1,
        a.mod1_inv_mod0 == b.mod1_inv_mod0,
{
    let q = MODULUS as int;
    let total = (two_64() * two_64()) / q;
    vstd::arithmetic::div_mod::lemma_fundamental_div_mod_converse(
        total,
        two_64(),
        a.barrett_cr_1_modulus as int,
        a.barrett_cr_0_modulus as int,
    );
    vstd::arithmetic::div_mod::lemma_fundamental_div_mod_converse(
        total,
        two_64(),
        b.barrett_cr_1_modulus as int,
        b.barrett_cr_0_modulus as int,
    );
    lemma_crt_unique(a.mod0_inv_mod1 as int, b.mod0_inv_mod1 as int);
    lemma_crt_unique(a.mod1_inv_mod0 as int, b.mod1_inv_mod0 as int);
}

/// A residue of the ciphertext modulus is fixed by its two prime residues.
pub proof fn lemma_crt_unique(x: int, y: int)
    requires
        0 <= x < MODULUS,
        0 <= y < MODULUS,
        x % (MODULUS_0 as int) == y % (MODULUS_0 as int),
        x % (MODULUS_1 as int) == y % (MODULUS_1 as int),
    ensures
        x == y,
{
    let q0 = MODULUS_0 as int;
    let q1 = MODULUS_1 as int;
    let u: int = 97389680;
    let w: int = 104729711;
    assert(u * q0 - w * q1 == 1);
    assert(q0 * q1 == MODULUS);
    lemma_coprime_residues(x, y, q0, q1, u, w);
}

/// Two numbers below `a * b` with the same residues modulo `a` and modulo `b`
/// are equal where some combination of `a` and `b` is one.
proof fn lemma_coprime_residues(x: int, y: int, a: int, b: int, u: int, w: int)
    requires
        a > 0,
        b > 0,
        u * a - w * b == 1,
        0 <= x < a * b,
        0 <= y < a * b,
        x % a == y % a,
        x % b == y % b,
    ensures
        x == y,
{
    vstd::arithmetic::div_mod::lemma_fundamental_div_mod(x, a);
    vstd::arithmetic::div_mod::lemma_fundamental_div_mod(y, a);
    vstd::arithmetic::div_mod::lemma_fundamental_div_mod(x, b);
    vstd::arithmetic::div_mod::lemma_fundamental_div_mod(y, b);
    let d = x - y;
    let k = x / a - y / a;
    let l = x / b - y / b;
    assert(d == a * k) by (nonlinear_arith)
        requires
            x == a * (x / a) + x % a,
            y == a * (y / a) + x % a,
            d == x - y,
            k == x / a - y / a,
    ;
    assert(d == b * l) by (nonlinear_arith)
        requires
            x == b * (x / b) + x % b,
            y == b * (y / b) + x % b,
            d == x - y,
            l == x / b - y / b,
    ;
    let m = u * l - w * k;
    assert(u * a * d == (a * b) * (u * l)) by (nonlinear_arith)
        requires
            d == b * l,
    ;
    assert(w * b * d == (a * b) * (w * k)) by (nonlinear_arith)
        requires
            d == a * k,
    ;
    assert(u * a * d - w * b * d == d) by (nonlinear_arith)
        requires
            u * a - w * b == 1,
    ;
    assert((a * b) * m == (a * b) * (u * l) - (a * b) * (w * k)) by (nonlinear_arith)
        requires
            m == u * l - w * k,
    ;
    assert(m == 0) by (nonlinear_arith)
        requires
            d == (a * b) * m,
            -(a * b) < d < a * b,
            a * b > 0,
    ;
}

impl Params {
    /// Whether the ring is a supported one with the constants of its reductions.
    pub fn has_supported_ring(&self) -> (r: bool)
        ensures
            r == self.ring_wf(),
    {
        let degree_ok: bool = (self.poly_len == 2048 && self.poly_len_log2 == 11) || (self.poly_len
            == 4096 && self.poly_len_log2 == 12);
        if !degree_ok || self.crt_count != 2 || self.moduli[0] != MODULUS_0 || self.moduli[1]
            != MODULUS_1 || self.modulus != MODULUS || self.modulus_log2 != 56
            || self.noise_width_e8 == 0 || self.noise_width_e8 > 10_000_000_000 {
            return false;
        }
        let c: ReductionConstants = reduction_constants();
        proof {
            let other = Params {
                barrett_cr_1: c.cr_1,
                barrett_cr_0_modulus: c.cr_0_modulus,
                barrett_cr_1_modulus: c.cr_1_modulus,
                mod0_inv_mod1: c.mod0_inv_mod1,
                mod1_inv_mod0: c.mod1_inv_mod0,
                ..*self
            };
            assert(other.ring_wf());
            if self.ring_wf() {
                lemma_reduction_constants_unique(*self, other);
            }
        }
        self.barrett_cr_1[0] == c.cr_1[0] && self.barrett_cr_1[1] == c.cr_1[1]
            && self.barrett_cr_0_modulus == c.cr_0_modulus && self.barrett_cr_1_modulus
            == c.cr_1_modulus && self.mod0_inv_mod1 == c.mod0_inv_mod1 && self.mod1_inv_mod0
            == c.mod1_inv_mod0
    }

    /// Whether the parameter set is usable.
    pub fn is_usable(&self) -> (r: bool)
        ensures
            r == self.wf(),
    {
        self.has_supported_ring() && 1 < self.pt_modulus && self.pt_modulus <= 0x1_0000_0000 && ((14
            <= self.q2_bits && self.q2_bits <= 36) || self.q2_bits == 56) && 1 <= self.t_exp_left
            && self.t_exp_left <= 64 && 1 <= self.n && self.n <= 64 && 1 <= self.instances
            && self.has_countable_sizes()
    }

    /// Whether the words of a query or an answer can be counted in a `usize`.
    pub fn has_countable_sizes(&self) -> (r: bool)
        requires
            self.ring_wf(),
        ensures
            r == self.sizes_fit(),
    {
        let limit: usize = usize::MAX / 0x20000;
        proof {
            let (n, k) = (self.poly_len as int, self.instances as int);
            assert(k <= limit as int / n <==> k * n <= limit) by (nonlinear_arith)
                requires
                    n > 0,
                    k >= 0,
                    limit >= 0,
            ;
        }
        if self.instances > limit / self.poly_len {
            return false;
        }
        let mut rows: usize = self.poly_len;
        let mut i: usize = 0;
        proof {
            vstd::arithmetic::power2::lemma2_to64();
        }
        if rows > limit {
            proof {
                lemma_pow2_monotone(
                    self.poly_len_log2 as nat,
                    (self.db_dim_1 + self.poly_len_log2) as nat,
                );
            }
            return false;
        }
        while i < self.db_dim_1
            invariant
                limit == usize::MAX / 0x20000,
                self.poly_len_log2 <= 12,
                i <= self.db_dim_1,
                rows == pow2((i + self.poly_len_log2) as nat),
                rows <= limit,
            decreases self.db_dim_1 - i,
        {
            proof {
                lemma_pow2_unfold((i + 1 + self.poly_len_log2) as nat);
                lemma_pow2_monotone(
                    (i + 1 + self.poly_len_log2) as nat,
                    (self.db_dim_1 + self.poly_len_log2) as nat,
                );
            }
            if rows > limit / 2 {
                return false;
            }
            rows = 2 * rows;
            i = i + 1;
        }
        true
    }

    /// The remainder of `val` by the ciphertext modulus.
    pub fn barrett_u64(&self, val: u64) -> (r: u64)
        requires
            self.ring_wf(),
        ensures
            r == val % MODULUS,
    {
        proof {
            lemma_barrett_high_word(MODULUS, self.barrett_cr_0_modulus, self.barrett_cr_1_modulus);
        }
        barrett_raw_u64(val, self.barrett_cr_1_modulus, self.modulus)
    }

    /// The remainder of `val` by prime number `n`.
    pub fn barrett_coeff_u64(&self, val: u64, n: usize) -> (r: u64)
        requires
            self.ring_wf(),
            n < 2,
        ensures
            r == val % self.moduli@[n as int],
    {
        barrett_raw_u64(val, self.barrett_cr_1[n], self.moduli[n])
    }

    /// A number below twice the ciphertext modulus that is congruent to `val`.
    pub fn barrett_reduction_u128(&self, val: u128) -> (r: u64)
        requires
            self.ring_wf(),
        ensures
            r < 2 * MODULUS,
            r % MODULUS == (val as int) % (MODULUS as int),
    {
        let hi: u64 = (val / 0x1_0000_0000_0000_0000) as u64;
        if hi < self.modulus {
            assert(val < self.modulus * two_64());
            return barrett_reduction_u128_raw(
                self.modulus,
                self.barrett_cr_0_modulus,
                self.barrett_cr_1_modulus,
                val,
            );
        }
        // The high word is reduced first, so that the quotient fits a word.
        let lo: u64 = (val % 0x1_0000_0000_0000_0000) as u64;
        let hi_reduced: u64 = self.barrett_u64(hi);
        let folded: u128 = hi_reduced as u128 * 0x1_0000_0000_0000_0000 + lo as u128;
        proof {
            let q = MODULUS as int;
            assert(val == hi * two_64() + lo);
            vstd::arithmetic::div_mod::lemma_mul_mod_noop_left(hi as int, two_64(), q);
            vstd::arithmetic::div_mod::lemma_add_mod_noop(hi * two_64(), lo as int, q);
            vstd::arithmetic::div_mod::lemma_add_mod_noop(hi_reduced * two_64(), lo as int, q);
            assert(folded as int % q == val as int % q);
            assert(folded < self.modulus * two_64());
        }
        barrett_reduction_u128_raw(
            self.modulus,
            self.barrett_cr_0_modulus,
            self.barrett_cr_1_modulus,
            folded,
        )
    }

    /// A number below twice the ciphertext modulus with the two given prime
    /// residues.
    pub fn crt_compose_2(&self, x: u64, y: u64) -> (r: u64)
        requires
            self.ring_wf(),
        ensures
            r < 2 * MODULUS,
            r % MODULUS_0 == x % MODULUS_0,
            r % MODULUS_1 == y % MODULUS_1,
    {
        assert(x * self.mod1_inv_mod0 <= u64::MAX * MODULUS) by (nonlinear_arith)
            requires
                x <= u64::MAX,
                self.mod1_inv_mod0 < MODULUS,
        ;
        assert(y * self.mod0_inv_mod1 <= u64::MAX * MODULUS) by (nonlinear_arith)
            requires
                y <= u64::MAX,
                self.mod0_inv_mod1 < MODULUS,
        ;
        let val: u128 = x as u128 * self.mod1_inv_mod0 as u128 + y as u128
            * self.mod0_inv_mod1 as u128;
        let r: u64 = self.barrett_reduction_u128(val);
        proof {
            let q0 = MODULUS_0 as int;
            let q1 = MODULUS_1 as int;
            assert(q0 * q1 == MODULUS);
            lemma_mod_factor(r as int, val as int, q0, q1);
            lemma_crt_select(
                x as int,
                self.mod1_inv_mod0 as int,
                y as int,
                self.mod0_inv_mod1 as int,
                q0,
            );
            lemma_crt_select(
                y as int,
                self.mod0_inv_mod1 as int,
                x as int,
                self.mod1_inv_mod0 as int,
                q1,
            );
        }
        r
    }
}

/// The reduced moduli by bit width.
pub open spec fn q2_values() -> Seq<u64> {
    seq![
        0, 0, 0, 0, 0, 0, 0, 0, 0, 0, 0, 0, 0, 0,
        12289, 12289, 61441, 65537, 65537, 520193, 786433, 786433, 3604481, 7340033, 16515073,
        33292289, 67043329, 132120577, 268369921, 469762049, 1073479681, 2013265921, 4293918721,
        8588886017, 17175674881, 34359214081, 68718428161,
    ]
}

/// `valar_spiral_rs::params::Q2_VALUES`: the reduced modulus of a bit width.
#[verifier::external_body]
fn q2_value(bits: usize) -> (r: u64)
    requires
        bits < 37,
    ensures
        r == q2_values()[bits as int],
{
    valar_spiral_rs::params::Q2_VALUES[bits]
}

/// The two moduli that answers are switched to.
pub trait GetQPrime {
    /// The set names a reduced modulus.
    spec fn has_q_prime(&self) -> bool;

    /// The smaller reduced modulus.
    spec fn q_prime_1(&self) -> u64;

    /// The larger reduced modulus.
    spec fn q_prime_2(&self) -> u64;

    /// The smaller reduced modulus, used on the second row of the encoding.
    fn get_q_prime_1(&self) -> (r: u64)
        ensures
            r == self.q_prime_1(),
    ;

    /// The larger reduced modulus, used on the first row of the encoding.
    fn get_q_prime_2(&self) -> (r: u64)
        requires
            self.has_q_prime(),
        ensures
            r == self.q_prime_2(),
    ;
}

impl GetQPrime for Params {
    open spec fn has_q_prime(&self) -> bool {
        self.q2_bits == self.modulus_log2 || self.q2_bits < 37
    }

    open spec fn q_prime_1(&self) -> u64 {
        0x10_0000
    }

    open spec fn q_prime_2(&self) -> u64 {
        if self.q2_bits == self.modulus_log2 {
            self.modulus
        } else {
            q2_values()[self.q2_bits as int]
        }
    }

    fn get_q_prime_1(&self) -> (r: u64) {
        0x10_0000
    }

    fn get_q_prime_2(&self) -> (r: u64) {
        if self.q2_bits == self.modulus_log2 {
            self.modulus
        } else {
            q2_value(self.q2_bits as usize)
        }
    }
}

impl GetQPrime for LWEParams {
    open spec fn has_q_prime(&self) -> bool {
        self.q2_bits == ceil_log2(self.modulus as int) || self.q2_bits < 37
    }

    /// The inner layer has no second reduced modulus.
    open spec fn q_prime_1(&self) -> u64 {
        u64::MAX
    }

    open spec fn q_prime_2(&self) -> u64 {
        if self.q2_bits == ceil_log2(self.modulus as int) {
            self.modulus
        } else {
            q2_values()[self.q2_bits as int]
        }
    }

    fn get_q_prime_1(&self) -> (r: u64) {
        u64::MAX
    }

    fn get_q_prime_2(&self) -> (r: u64) {
        if self.q2_bits == log2_ceil(self.modulus) {
            self.modulus
        } else {
            q2_value(self.q2_bits)
        }
    }
}

/// The choice between the two schemes.
#[derive(Debug, Clone, Copy, PartialEq, Eq)]
pub struct YPIRParams {
    pub is_simplepir: bool,
}

impl Default for YPIRParams {
    fn default() -> (r: Self)
        ensures
            !r.is_simplepir,
    {
        YPIRParams { is_simplepir: false }
    }
}

/// The number of ciphertexts of an answer of the two-level scheme.
pub trait GetRho {
    spec fn has_rho(&self) -> bool;

    spec fn rho_value(&self) -> nat;

    fn rho(&self) -> (r: usize)
        requires
            self.has_rho(),
        ensures
            r == self.rho_value(),
    ;
}

impl GetRho for Params {
    open spec fn has_rho(&self) -> bool {
        2 <= self.pt_modulus && 2048 <= self.poly_len <= 4096
    }

    /// The least power of two of rings whose coefficients hold the 1025
    /// numbers of 28 bits of an inner ciphertext.
    open spec fn rho_value(&self) -> nat {
        pow2(ceil_log2(div_ceil(28700, floor_log2(self.pt_modulus as int) * self.poly_len)))
    }

    fn rho(&self) -> (r: usize) {
        let lwe_params: LWEParams = LWEParams::default();
        let pt_bits: usize = log2_floor(self.pt_modulus);
        let total: usize = lwe_params.q2_bits * (lwe_params.n + 1);
        assert(2048 <= pt_bits * self.poly_len <= 64 * 4096) by (nonlinear_arith)
            requires
                1 <= pt_bits <= 64,
                2048 <= self.poly_len <= 4096,
        ;
        let per_ring: usize = pt_bits * self.poly_len;
        let rings: usize = (total + per_ring - 1) / per_ring;
        assert(1 <= rings <= 15) by (nonlinear_arith)
            requires
                total == 28700,
                2048 <= per_ring,
                rings == (total + per_ring - 1) / per_ring as int,
        ;
        let log: usize = log2_ceil(rings as u64);
        proof {
            vstd::arithmetic::power2::lemma2_to64();
            crate::arith::lemma_ceil_log2(rings as int);
            if log > 4 {
                crate::arith::lemma_pow2_monotone(4, (log - 1) as nat);
            }
            crate::arith::lemma_pow2_monotone(log as nat, 4);
        }
        pow2_usize(log)
    }
}

/// The rings of an answer are the least power of two whose coefficients hold the
/// 1025 numbers of 28 bits of an inner ciphertext.
pub proof fn rho_is_least(params: Params)
    requires
        2 <= params.pt_modulus,
        2048 <= params.poly_len <= 4096,
    ensures
        exists|k: nat| params.rho_value() == #[trigger] pow2(k),
        1025 * 28 <= params.rho_value() * (params.poly_len * floor_log2(params.pt_modulus as int)),
        params.rho_value() == 1 || params.rho_value() * (params.poly_len * floor_log2(
            params.pt_modulus as int,
        )) < 2 * (1025 * 28),
{
    let b = floor_log2(params.pt_modulus as int) as int;
    let n = params.poly_len as int;
    crate::arith::lemma_floor_log2(params.pt_modulus as int);
    vstd::arithmetic::power2::lemma2_to64();
    assert(b >= 1) by {
        if b == 0 {
            assert(pow2(1) == 2);
        }
    }
    let w = b * n;
    assert(w >= 1 && n * b == w) by (nonlinear_arith)
        requires
            w == b * n,
            b >= 1,
            n >= 1,
    ;
    let rings = div_ceil(28700, w);
    assert(rings >= 1 && 28700 <= rings * w && (rings - 1) * w < 28700) by (nonlinear_arith)
        requires
            rings == (28700 + w - 1) / w,
            w >= 1,
    ;
    let k = ceil_log2(rings);
    lemma_ceil_log2(rings);
    let rho = pow2(k) as int;
    assert(rings * w <= rho * w) by (nonlinear_arith)
        requires
            rings <= rho,
            w >= 1,
    ;
    if rings > 1 {
        lemma_pow2_unfold(k);
        let h = pow2((k - 1) as nat) as int;
        assert(rho * w <= 2 * ((rings - 1) * w)) by (nonlinear_arith)
            requires
                rho == 2 * h,
                h <= rings - 1,
                w >= 1,
        ;
    }
}

/// The reduced moduli: the smaller one is two to the 20th, and the larger one is
/// one more than a multiple of 4096 below two to the number of its bits, unless
/// those are the bits of the modulus, which it then is.
pub proof fn reduced_moduli_have_their_bits(params: Params)
    requires
        params.wf(),
    ensures
        params.q_prime_1() == pow2(20),
        params.q2_bits == 56 ==> params.q_prime_2() == MODULUS,
        params.q2_bits != 56 ==> params.q_prime_2() < pow2(params.q2_bits as nat)
            && params.q_prime_2() % 4096 == 1,
{
    vstd::arithmetic::power2::lemma2_to64();
    vstd::arithmetic::power2::lemma2_to64_rest();
    let b = params.q2_bits as int;
    let v = q2_values();
    assert(v.len() == 37);
    if b <= 24 {
        assert(v[14] == 12289 && v[15] == 12289 && v[16] == 61441 && v[17] == 65537 && v[18]
            == 65537 && v[19] == 520193 && v[20] == 786433 && v[21] == 786433 && v[22] == 3604481
            && v[23] == 7340033 && v[24] == 16515073);
    } else if b <= 36 {
        assert(v[25] == 33292289 && v[26] == 67043329 && v[27] == 132120577 && v[28] == 268369921
            && v[29] == 469762049 && v[30] == 1073479681 && v[31] == 2013265921 && v[32]
            == 4293918721 && v[33] == 8588886017 && v[34] == 17175674881 && v[35] == 34359214081
            && v[36] == 68718428161);
    }
}

/// The number of plaintext elements of the database.
pub trait GetNumDbItems {
    spec fn db_items(&self, is_simplepir: bool) -> nat;

    fn num_db_items(&self, is_simplepir: bool) -> (r: usize)
        requires
            self.db_items(is_simplepir) <= usize::MAX,
        ensures
            r == self.db_items(is_simplepir),
    ;
}

impl GetNumDbItems for Params {
    open spec fn db_items(&self, is_simplepir: bool) -> nat {
        if is_simplepir {
            self.rows() * self.cols_simplepir()
        } else {
            self.rows() * self.cols_normal()
        }
    }

    fn num_db_items(&self, is_simplepir: bool) -> (r: usize) {
        proof {
            vstd::arithmetic::power2::lemma_pow2_pos((self.db_dim_1 + self.poly_len_log2) as nat);
            vstd::arithmetic::power2::lemma_pow2_pos((self.db_dim_2 + self.poly_len_log2) as nat);
            let (a, b) = (self.rows() as int, self.cols_normal() as int);
            let c = self.cols_simplepir() as int;
            if is_simplepir {
                assert(c <= a * c) by (nonlinear_arith)
                    requires
                        a >= 1,
                        c >= 0,
                ;
            } else {
                assert(a <= a * b && b <= a * b) by (nonlinear_arith)
                    requires
                        a >= 1,
                        b >= 1,
                ;
            }
        }
        if is_simplepir {
            let db_cols: usize = self.instances * self.poly_len;
            if db_cols == 0 {
                assert(self.rows() * db_cols == 0) by (nonlinear_arith)
                    requires
                        db_cols == 0,
                ;
                return 0;
            }
            let ghost a = self.rows() as int;
            assert(a <= a * db_cols) by (nonlinear_arith)
                requires
                    a >= 1,
                    db_cols >= 1,
            ;
            proof {
                lemma_exponent_fits(self.db_dim_1, self.poly_len_log2);
            }
            let db_rows: usize = pow2_usize(self.db_dim_1 + self.poly_len_log2);
            db_rows * db_cols
        } else {
            proof {
                lemma_exponent_fits(self.db_dim_1, self.poly_len_log2);
                lemma_exponent_fits(self.db_dim_2, self.poly_len_log2);
            }
            let db_rows: usize = pow2_usize(self.db_dim_1 + self.poly_len_log2);
            let db_cols: usize = pow2_usize(self.db_dim_2 + self.poly_len_log2);
            db_rows * db_cols
        }
    }
}

/// The elements of a database are its rows times its columns.
pub proof fn db_items_fill_rows_and_columns(params: Params)
    ensures
        params.db_items(true) == params.spec_rows() * (params.instances * params.poly_len),
        params.db_items(false) == params.spec_rows() * params.spec_cols_normal(),
        params.spec_rows() == pow2(params.db_dim_1 as nat) * pow2(params.poly_len_log2 as nat),
        params.spec_cols_normal() == pow2(params.db_dim_2 as nat) * pow2(
            params.poly_len_log2 as nat,
        ),
        params.spec_cols_simplepir() == params.instances * params.poly_len,
{
    vstd::arithmetic::power2::lemma_pow2_adds(
        params.db_dim_1 as nat,
        params.poly_len_log2 as nat,
    );
    vstd::arithmetic::power2::lemma_pow2_adds(
        params.db_dim_2 as nat,
        params.poly_len_log2 as nat,
    );
}

/// The reduced modulus of the inner layer is the one that its ciphertexts are
/// switched to in an answer, and takes the bits that an answer gives to it.
pub proof fn inner_modulus_has_its_bits(lwe: LWEParams)
    requires
        lwe.is_default(),
    ensures
        lwe.q_prime_2() == crate::double_answer::LWE_Q_PRIME,
        lwe.q_prime_2() == 268369921,
        lwe.q_prime_2() < pow2(28),
{
    vstd::arithmetic::power2::lemma2_to64();
    let v = q2_values();
    assert(v[28] == 268369921);
    lemma_ceil_log2_unique(lwe.modulus as int, 32);
}

/// Exponents whose power of two fits a word add up without overflow.
proof fn lemma_exponent_fits(a: usize, b: usize)
    requires
        pow2((a + b) as nat) <= usize::MAX,
    ensures
        a + b <= usize::MAX,
{
    lemma_below_pow2((a + b) as nat);
}

/// A number is below its power of two.
pub proof fn lemma_below_pow2(k: nat)
    ensures
        k < pow2(k),
    decreases k,
{
    if k == 0 {
        vstd::arithmetic::power2::lemma2_to64();
    } else {
        lemma_below_pow2((k - 1) as nat);
        lemma_pow2_unfold(k);
    }
}

/// The bits that hold one plaintext element.
pub trait PtModulusBits {
    spec fn pt_bits(&self) -> nat;

    fn pt_modulus_bits(&self) -> (r: usize)
        ensures
            r == self.pt_bits(),
            r <= 64,
    ;
}

impl PtModulusBits for Params {
    open spec fn pt_bits(&self) -> nat {
        ceil_log2(self.pt_modulus as int)
    }

    fn pt_modulus_bits(&self) -> (r: usize) {
        log2_ceil(self.pt_modulus)
    }
}

/// The sides of the database.
pub trait DbRowsCols {
    spec fn spec_rows(&self) -> nat;

    spec fn spec_cols_normal(&self) -> nat;

    spec fn spec_cols_simplepir(&self) -> nat;

    fn db_rows(&self) -> (r: usize)
        requires
            self.spec_rows() <= usize::MAX,
        ensures
            r == self.spec_rows(),
    ;

    fn db_rows_padded_normal(&self) -> (r: usize)
        requires
            self.spec_rows() + self.spec_rows() / 128 <= usize::MAX,
        ensures
            r == self.spec_rows() + self.spec_rows() / 128,
    ;

    fn db_rows_padded_simplepir(&self) -> (r: usize)
        requires
            self.spec_rows() <= usize::MAX,
        ensures
            r == self.spec_rows(),
    ;

    fn db_cols_normal(&self) -> (r: usize)
        requires
            self.spec_cols_normal() <= usize::MAX,
        ensures
            r == self.spec_cols_normal(),
    ;

    fn db_cols_simplepir(&self) -> (r: usize)
        requires
            self.spec_cols_simplepir() <= usize::MAX,
        ensures
            r == self.spec_cols_simplepir(),
    ;
}

impl DbRowsCols for Params {
    open spec fn spec_rows(&self) -> nat {
        self.rows()
    }

    open spec fn spec_cols_normal(&self) -> nat {
        self.cols_normal()
    }

    open spec fn spec_cols_simplepir(&self) -> nat {
        self.cols_simplepir()
    }

    fn db_rows(&self) -> (r: usize) {
        proof {
            lemma_exponent_fits(self.db_dim_1, self.poly_len_log2);
        }
        pow2_usize(self.db_dim_1 + self.poly_len_log2)
    }

    fn db_rows_padded_normal(&self) -> (r: usize) {
        proof {
            lemma_exponent_fits(self.db_dim_1, self.poly_len_log2);
        }
        let db_rows: usize = pow2_usize(self.db_dim_1 + self.poly_len_log2);
        db_rows + db_rows / 128
    }

    fn db_rows_padded_simplepir(&self) -> (r: usize) {
        proof {
            lemma_exponent_fits(self.db_dim_1, self.poly_len_log2);
        }
        pow2_usize(self.db_dim_1 + self.poly_len_log2)
    }

    fn db_cols_normal(&self) -> (r: usize) {
        proof {
            lemma_exponent_fits(self.db_dim_2, self.poly_len_log2);
        }
        pow2_usize(self.db_dim_2 + self.poly_len_log2)
    }

    fn db_cols_simplepir(&self) -> (r: usize) {
        self.instances * self.poly_len
    }
}

} // verus!
