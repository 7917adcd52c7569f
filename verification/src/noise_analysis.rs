//! The whole numbers that the noise model of the one-level scheme is made of.
use crate::arith::pow2_usize;
use crate::params::{supported_pair, DbRowsCols, GetQPrime, Params};
use crate::pir_client::lemma_switchable;
use crate::spiral::gadget_bits;
use vstd::arithmetic::power2::pow2;
use vstd::prelude::*;

verus! {

/// The whole numbers that the noise of a decoded answer depends on.
#[derive(Debug, Clone, Copy, PartialEq, Eq)]
pub struct NoiseShape {
    pub poly_len: usize,
    pub instances: usize,
    /// The coefficients decoded from one answer.
    pub decoded_coefficients: usize,
    pub db_rows: usize,
    pub gadget_digits: usize,
    pub gadget_bits_per_digit: usize,
    pub gadget_base: u64,
    /// The modulus that the second row of an answer is switched to.
    pub q_prime_small: u64,
    /// The modulus that the first row of an answer is switched to.
    pub q_prime_large: u64,
}

/// The bits of one digit of a gadget of `dim` digits.
pub fn gadget_bits_per_digit(dim: usize) -> (r: usize)
    requires
        dim > 0,
    ensures
        r == gadget_bits(dim as int),
        56 <= r * dim,
        dim < 56 ==> (r - 1) * dim <= 56,
{
    if dim == 56 {
        1
    } else {
        let whole: usize = 56 / dim;
        assert(whole * dim <= 56 < (whole + 1) * dim) by (nonlinear_arith)
            requires
                whole == 56int / dim as int,
                dim > 0,
        ;
        whole + 1
    }
}

/// The numbers of the noise model, for parameters of one of the two
/// configurations of the one-level scheme.
pub fn noise_shape(params: &Params) -> (r: NoiseShape)
    requires
        params.wf(),
        supported_pair(params.poly_len as int, params.t_exp_left as int),
    ensures
        r.poly_len == params.poly_len,
        r.instances == params.instances,
        r.decoded_coefficients == params.instances * params.poly_len,
        r.db_rows == params.rows(),
        r.gadget_digits == params.t_exp_left,
        r.gadget_bits_per_digit == gadget_bits(params.t_exp_left as int),
        r.gadget_base == pow2(r.gadget_bits_per_digit as nat),
        r.q_prime_small == params.q_prime_1(),
        r.q_prime_large == params.q_prime_2(),
{
    proof {
        lemma_switchable(*params);
        vstd::arithmetic::power2::lemma2_to64();
    }
    let bits: usize = gadget_bits_per_digit(params.t_exp_left);
    NoiseShape {
        poly_len: params.poly_len,
        instances: params.instances,
        decoded_coefficients: params.db_cols_simplepir(),
        db_rows: params.db_rows(),
        gadget_digits: params.t_exp_left,
        gadget_bits_per_digit: bits,
        gadget_base: pow2_usize(bits) as u64,
        q_prime_small: params.get_q_prime_1(),
        q_prime_large: params.get_q_prime_2(),
    }
}

} // verus!
