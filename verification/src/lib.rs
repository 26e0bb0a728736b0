//! A gas-metered modular-exponentiation precompile.
//!
//! Given three unsigned big-endian integers (base, exponent, modulus) packed
//! into a length-prefixed byte buffer, `Modexp::execute` computes
//! `base^exponent mod modulus`, charges a deterministic gas cost derived from
//! the operand sizes and the exponent's magnitude, and returns the result
//! left-padded to the modulus's byte length. `spec_execute` states the whole
//! pipeline as one function of the raw bytes and the gas limit; every call is
//! independent, so equal inputs give equal outcomes.

pub mod bigint;
pub mod bytes;
pub mod gas;

use vstd::prelude::*;
use vstd::arithmetic::power::pow;
use vstd::arithmetic::div_mod::lemma_mod_division_less_than_divisor;
use vstd::slice::slice_subrange;
use crate::bytes::{
    be_encode, be_value, left_pad, lemma_be_encode_len, lemma_be_value_bound,
    lemma_be_value_first_nonzero, lemma_pow2_le, read_length_field, zero_bytes, MAX_OPERAND_LEN,
};
use crate::bigint::{
    big_from_bytes_be, big_is_one, big_is_zero, big_modpow, big_to_bytes_be, big_value, big_zero,
};
use crate::gas::{calculate_gas_cost, gas_cost, MIN_GAS_COST};

verus! {

/// Which declared operand length broke the cap.
#[derive(Clone, Copy, Debug, PartialEq, Eq, Structural)]
pub enum Operand {
    Base,
    Exponent,
    Modulus,
}

/// Why a call failed. Every failure is terminal: no partial result is
/// returned and no state is kept.
#[derive(Clone, Copy, Debug, PartialEq, Eq, Structural)]
pub enum ExecutionError {
    /// The input holds fewer than the 96 header bytes.
    TooShort,
    /// The named declared length exceeds 1024.
    LengthTooLarge(Operand),
    /// The declared lengths promise more bytes than the input holds.
    InsufficientInput,
    /// No gas limit was supplied although the call had to be priced.
    MissingGasLimit,
    /// The computed price exceeds the supplied limit; the exponentiation is
    /// never started.
    OutOfGas,
    /// The encoded result would be longer than the modulus. The pipeline
    /// proves this cannot happen, so `execute` never returns it.
    UnexpectedOutputSize,
}

/// The modular-exponentiation precompile.
pub struct Modexp;

/// The base length declared in the first 32 header bytes.
pub open spec fn declared_base_len(input: Seq<u8>) -> nat {
    be_value(input.subrange(0, 32))
}

/// The exponent length declared in the second 32 header bytes.
pub open spec fn declared_exp_len(input: Seq<u8>) -> nat {
    be_value(input.subrange(32, 64))
}

/// The modulus length declared in the third 32 header bytes.
pub open spec fn declared_mod_len(input: Seq<u8>) -> nat {
    be_value(input.subrange(64, 96))
}

/// The base operand: the `base_len` bytes after the header.
pub open spec fn base_value(input: Seq<u8>) -> nat {
    be_value(input.subrange(96, 96 + declared_base_len(input) as int))
}

/// The exponent operand: the `exp_len` bytes after the base.
pub open spec fn exponent_value(input: Seq<u8>) -> nat {
    let off = 96 + declared_base_len(input);
    be_value(input.subrange(off as int, (off + declared_exp_len(input)) as int))
}

/// The modulus operand: the `mod_len` bytes after the exponent.
pub open spec fn modulus_value(input: Seq<u8>) -> nat {
    let off = 96 + declared_base_len(input) + declared_exp_len(input);
    be_value(input.subrange(off as int, (off + declared_mod_len(input)) as int))
}

/// The result of the modular power: 0 for a modulus of 0 or 1 (the standard
/// modular convention), else `base^exponent` reduced by the modulus.
pub open spec fn spec_modexp(b: nat, e: nat, m: nat) -> nat {
    if m <= 1 {
        0
    } else {
        (pow(b as int, e) % (m as int)) as nat
    }
}

/// Computes `base^exponent mod modulus`, handling the degenerate moduli 0
/// and 1 that the underlying routine refuses. Pure and total; the result is
/// always smaller than a nontrivial modulus.
pub fn modexp(base: &num::BigUint, exponent: &num::BigUint, modulus: &num::BigUint) -> (r:
    num::BigUint)
    ensures
        big_value(r) == spec_modexp(big_value(*base), big_value(*exponent), big_value(*modulus)),
        big_value(*modulus) > 1 ==> big_value(r) < big_value(*modulus),
{
    if big_is_zero(modulus) || big_is_one(modulus) {
        big_zero()
    } else {
        proof {
            lemma_mod_division_less_than_divisor(
                pow(big_value(*base) as int, big_value(*exponent)),
                big_value(*modulus) as int,
            );
        }
        big_modpow(base, exponent, modulus)
    }
}

/// What a call returns, as a function of the raw input and the gas limit
/// alone. On success the payload is the output bytes — `base^exponent mod
/// modulus`, left-padded to the declared modulus length, where a modulus of 0
/// or 1 gives 0 — and the gas charged. An empty base and modulus short-cut to
/// the empty output at the minimum price before the exponent or the gas limit
/// is ever looked at.
pub open spec fn spec_execute(input: Seq<u8>, gas_limit: Option<u64>) -> Result<
    (Seq<u8>, nat),
    ExecutionError,
> {
    if input.len() < 96 {
        Err(ExecutionError::TooShort)
    } else {
        let base_len = declared_base_len(input);
        let exp_len = declared_exp_len(input);
        let mod_len = declared_mod_len(input);
        if base_len > MAX_OPERAND_LEN {
            Err(ExecutionError::LengthTooLarge(Operand::Base))
        } else if exp_len > MAX_OPERAND_LEN {
            Err(ExecutionError::LengthTooLarge(Operand::Exponent))
        } else if mod_len > MAX_OPERAND_LEN {
            Err(ExecutionError::LengthTooLarge(Operand::Modulus))
        } else if input.len() < 96 + base_len + exp_len + mod_len {
            Err(ExecutionError::InsufficientInput)
        } else if base_len == 0 && mod_len == 0 {
            Ok((Seq::empty(), MIN_GAS_COST as nat))
        } else {
            let g = gas_cost(base_len, exp_len, mod_len, exponent_value(input));
            match gas_limit {
                None => Err(ExecutionError::MissingGasLimit),
                Some(limit) => if g > limit {
                    Err(ExecutionError::OutOfGas)
                } else {
                    let result = spec_modexp(
                        base_value(input),
                        exponent_value(input),
                        modulus_value(input),
                    );
                    Ok((be_encode(result, mod_len), g))
                },
            }
        }
    }
}

impl Modexp {
    /// Runs the precompile on a raw input buffer: parses the three length
    /// fields and operands, prices the call, enforces the gas limit, and
    /// returns `base^exponent mod modulus` padded to the modulus length,
    /// together with the gas charged — exactly `spec_execute` of the input.
    pub fn execute(input: &[u8], target_gas: Option<u64>) -> (r: Result<
        (Vec<u8>, u64),
        ExecutionError,
    >)
        ensures
            (match spec_execute(input@, target_gas) {
                Ok(payload) => r is Ok && r->Ok_0.0@ == payload.0 && r->Ok_0.1 == payload.1,
                Err(e) => r is Err && r->Err_0 == e,
            }),
    {
        let n: usize = input.len();
        if n < 96 {
            return Err(ExecutionError::TooShort);
        }
        let base_len: u64 = match read_length_field(input, 0) {
            Some(v) => v,
            None => {
                return Err(ExecutionError::LengthTooLarge(Operand::Base));
            },
        };
        let exp_len: u64 = match read_length_field(input, 32) {
            Some(v) => v,
            None => {
                return Err(ExecutionError::LengthTooLarge(Operand::Exponent));
            },
        };
        let mod_len: u64 = match read_length_field(input, 64) {
            Some(v) => v,
            None => {
                return Err(ExecutionError::LengthTooLarge(Operand::Modulus));
            },
        };
        let total_len: u64 = 96 + base_len + exp_len + mod_len;
        if (n as u64) < total_len {
            return Err(ExecutionError::InsufficientInput);
        }
        if base_len == 0 && mod_len == 0 {
            return Ok((Vec::new(), MIN_GAS_COST));
        }
        let base_start: usize = 96;
        let exp_start: usize = base_start + base_len as usize;
        let mod_start: usize = exp_start + exp_len as usize;
        let mod_end: usize = mod_start + mod_len as usize;
        let base_slice = slice_subrange(input, base_start, exp_start);
        let exp_slice = slice_subrange(input, exp_start, mod_start);
        let base = big_from_bytes_be(base_slice);
        let exponent = big_from_bytes_be(exp_slice);
        proof {
            lemma_be_value_bound(exp_slice@);
        }
        let gas = calculate_gas_cost(base_len, exp_len, mod_len, &exponent);
        let limit: u64 = match target_gas {
            Some(l) => l,
            None => {
                return Err(ExecutionError::MissingGasLimit);
            },
        };
        if gas > limit {
            return Err(ExecutionError::OutOfGas);
        }
        let mod_slice = slice_subrange(input, mod_start, mod_end);
        let modulus = big_from_bytes_be(mod_slice);
        let ghost m = modulus_value(input@);
        proof {
            lemma_be_value_bound(mod_slice@);
        }
        let result = modexp(&base, &exponent, &modulus);
        if big_is_zero(&result) {
            let out = zero_bytes(mod_len as usize);
            return Ok((out, gas));
        }
        let result_bytes = big_to_bytes_be(&result);
        proof {
            assert(m > 1);
            lemma_be_value_first_nonzero(result_bytes@);
            if result_bytes@.len() > mod_len as nat {
                lemma_pow2_le(8 * mod_len as nat, 8 * (result_bytes@.len() - 1) as nat);
                assert(false);
            }
        }
        let out = left_pad(result_bytes.as_slice(), mod_len as usize);
        Ok((out, gas))
    }
}

/// On success the output has exactly the declared modulus length, the
/// zero-length case included.
pub proof fn lemma_output_length(input: Seq<u8>, gas_limit: Option<u64>)
    requires
        spec_execute(input, gas_limit) is Ok,
    ensures
        spec_execute(input, gas_limit)->Ok_0.0.len() == declared_mod_len(input),
{
    broadcast use lemma_be_encode_len;

}

/// Every call, successful or not, is priced at or above the fixed minimum;
/// on success the gas charged is at least that minimum.
pub proof fn lemma_gas_at_least_min(input: Seq<u8>, gas_limit: Option<u64>)
    requires
        spec_execute(input, gas_limit) is Ok,
    ensures
        spec_execute(input, gas_limit)->Ok_0.1 >= MIN_GAS_COST,
{
    crate::gas::lemma_gas_cost_min(
        declared_base_len(input),
        declared_exp_len(input),
        declared_mod_len(input),
        exponent_value(input),
    );
}

/// An empty base and empty modulus cost exactly the minimum and return the
/// empty output, whatever exponent length or exponent value is declared and
/// whether or not a gas limit is supplied.
pub proof fn lemma_empty_base_and_modulus(input: Seq<u8>, gas_limit: Option<u64>)
    requires
        spec_execute(input, gas_limit) is Ok,
        declared_base_len(input) == 0,
        declared_mod_len(input) == 0,
    ensures
        spec_execute(input, gas_limit)->Ok_0.0 == Seq::<u8>::empty(),
        spec_execute(input, gas_limit)->Ok_0.1 == MIN_GAS_COST,
{
}

/// A modulus of 0 or 1 gives an output of `mod_len` zero bytes.
pub proof fn lemma_trivial_modulus(input: Seq<u8>, gas_limit: Option<u64>)
    requires
        spec_execute(input, gas_limit) is Ok,
        modulus_value(input) <= 1,
    ensures
        spec_execute(input, gas_limit)->Ok_0.0 =~= Seq::new(
            declared_mod_len(input),
            |i: int| 0u8,
        ),
{
    crate::bytes::lemma_be_encode_zero(declared_mod_len(input));
    if declared_base_len(input) == 0 && declared_mod_len(input) == 0 {
        assert(spec_execute(input, gas_limit)->Ok_0.0 =~= Seq::new(0nat, |i: int| 0u8));
    }
}

/// Two calls on the same input and gas limit return the same outcome: the
/// result is a function of the arguments alone, with no hidden state.
pub proof fn lemma_execute_deterministic(
    input: Seq<u8>,
    gas_limit: Option<u64>,
    r1: Result<(Seq<u8>, nat), ExecutionError>,
    r2: Result<(Seq<u8>, nat), ExecutionError>,
)
    requires
        r1 == spec_execute(input, gas_limit),
        r2 == spec_execute(input, gas_limit),
    ensures
        r1 == r2,
{
}

} // verus!
