//! The deterministic gas price of a call.
//!
//! The price depends only on the three declared operand lengths and the
//! exponent's magnitude: a multiplication complexity grows quadratically in
//! the wider of base and modulus (counted in 8-byte words), an iteration
//! count follows the exponent's bit length — with only the low 256 bits
//! counted exactly and a flat charge of 8 per byte beyond them — and the
//! final price is their product divided by 3, floored at a fixed minimum.

use vstd::prelude::*;
use vstd::arithmetic::power2::{pow2, lemma_pow2_adds, lemma_pow2_pos, lemma2_to64};
use vstd::arithmetic::div_mod::{
    lemma_div_is_ordered, lemma_div_multiples_vanish_fancy, lemma_fundamental_div_mod,
    lemma_mod_division_less_than_divisor, lemma_multiply_divide_lt,
};
use vstd::arithmetic::mul::lemma_mul_inequality;
use crate::bigint::{big_and, big_bits, big_from_bytes_be, big_is_zero, big_value};
use crate::bytes::{lemma_be_value_ones, lemma_pow2_le};

verus! {

/// The fixed minimum price of a call.
pub const MIN_GAS_COST: u64 = 200;

/// The binary digits needed to write `n`; zero needs none.
pub open spec fn bit_len(n: nat) -> nat
    decreases n,
{
    if n == 0 {
        0
    } else {
        1 + bit_len(n / 2)
    }
}

/// A value below `2^k` needs at most `k` binary digits.
pub proof fn lemma_bit_len_le(n: nat, k: nat)
    requires
        n < pow2(k),
    ensures
        bit_len(n) <= k,
    decreases k,
{
    if n == 0 {
    } else {
        lemma2_to64();
        assert(k >= 1);
        lemma_pow2_adds(1, (k - 1) as nat);
        assert(pow2(k) == 2 * pow2((k - 1) as nat));
        lemma_multiply_divide_lt(n as int, 2, pow2((k - 1) as nat) as int);
        lemma_bit_len_le(n / 2, (k - 1) as nat);
    }
}

/// The quadratic word-count factor of the price: the wider of base and
/// modulus, in 8-byte words rounded up, squared.
pub open spec fn mult_complexity(base_len: nat, mod_len: nat) -> nat {
    let max_len = if base_len >= mod_len {
        base_len
    } else {
        mod_len
    };
    let words = (max_len + 7) / 8;
    words * words
}

/// The iteration factor of the price. For exponents declared at most 32
/// bytes wide it is one less than the exponent's bit length; beyond 32 bytes
/// each extra byte adds a flat 8 and only the low 256 bits are counted
/// exactly. It is never less than 1.
pub open spec fn iter_count(exp_len: nat, e: nat) -> nat {
    let raw: int = if exp_len <= 32 {
        if e == 0 {
            0
        } else {
            bit_len(e) - 1
        }
    } else {
        8 * (exp_len - 32) + bit_len(e % pow2(256)) - 1
    };
    if raw < 1 {
        1
    } else {
        raw as nat
    }
}

/// The price of a call: the product of the two factors, divided by 3 and
/// floored at the minimum.
pub open spec fn gas_cost(base_len: nat, exp_len: nat, mod_len: nat, e: nat) -> nat {
    let g = mult_complexity(base_len, mod_len) * iter_count(exp_len, e) / 3;
    if g < MIN_GAS_COST {
        MIN_GAS_COST as nat
    } else {
        g
    }
}

/// The larger of two gas quantities.
pub fn max(a: u64, b: u64) -> (r: u64)
    ensures
        r == if a > b {
            a
        } else {
            b
        },
{
    if a > b {
        a
    } else {
        b
    }
}

fn calculate_multiplication_complexity(base_length: u64, mod_length: u64) -> (r: u64)
    requires
        base_length <= 1024,
        mod_length <= 1024,
    ensures
        r == mult_complexity(base_length as nat, mod_length as nat),
        r <= 16384,
{
    let max_length = max(base_length, mod_length);
    let mut words = max_length / 8;
    if max_length % 8 > 0 {
        words = words + 1;
    }
    proof {
        let m = max_length as int;
        lemma_fundamental_div_mod(m, 8);
        if m % 8 == 0 {
            lemma_div_multiples_vanish_fancy(m / 8, 7, 8);
            assert((m + 7) / 8 == m / 8);
        } else {
            lemma_div_multiples_vanish_fancy(m / 8 + 1, m % 8 - 1, 8);
            assert(8 * (m / 8 + 1) + (m % 8 - 1) == m + 7);
            assert((m + 7) / 8 == m / 8 + 1);
        }
        lemma_div_is_ordered(m, 1024, 8);
        assert(words <= 128);
        assert(words * words <= 16384) by (nonlinear_arith)
            requires
                0 <= words <= 128,
        ;
    }
    words * words
}

fn calculate_iteration_count(exp_length: u64, exponent: &num::BigUint) -> (r: u64)
    requires
        exp_length <= 1024,
        big_value(*exponent) < pow2(8 * exp_length as nat),
    ensures
        r == iter_count(exp_length as nat, big_value(*exponent)),
        r <= 8191,
{
    let ghost e = big_value(*exponent);
    let mut iteration_count: u64 = 0;
    if exp_length <= 32 && big_is_zero(exponent) {
        iteration_count = 0;
    } else if exp_length <= 32 {
        proof {
            lemma_pow2_le(8 * exp_length as nat, 256);
            lemma_pow2_le(8 * exp_length as nat, 8192);
            lemma_bit_len_le(e, 256);
        }
        let bits = big_bits(exponent);
        iteration_count = bits - 1;
    } else {
        let mut ff: Vec<u8> = Vec::new();
        let mut i: usize = 0;
        while i < 32
            invariant
                0 <= i <= 32,
                ff@.len() == i,
                forall|k: int| 0 <= k < i ==> ff@[k] == 0xFF,
            decreases 32 - i,
        {
            ff.push(0xFF);
            i = i + 1;
        }
        let mask = big_from_bytes_be(ff.as_slice());
        proof {
            lemma_be_value_ones(ff@);
            assert(big_value(mask) == pow2(256) - 1);
        }
        let masked = big_and(exponent, &mask);
        proof {
            lemma_pow2_pos(256);
            lemma_mod_division_less_than_divisor(e as int, pow2(256) as int);
            lemma_bit_len_le(e % pow2(256), 256);
            lemma_pow2_le(256, 8192);
        }
        let bits = big_bits(&masked);
        if bits == 0 {
            iteration_count = 8 * (exp_length - 32) - 1;
        } else {
            iteration_count = 8 * (exp_length - 32) + (bits - 1);
        }
    }
    max(iteration_count, 1)
}

/// Computes the price of a call from the three declared lengths and the
/// parsed exponent. Pure: the result is fixed by the arguments alone, and
/// with all lengths capped at 1024 no intermediate product can overflow.
pub fn calculate_gas_cost(
    base_length: u64,
    exp_length: u64,
    mod_length: u64,
    exponent: &num::BigUint,
) -> (r: u64)
    requires
        base_length <= 1024,
        exp_length <= 1024,
        mod_length <= 1024,
        big_value(*exponent) < pow2(8 * exp_length as nat),
    ensures
        r == gas_cost(base_length as nat, exp_length as nat, mod_length as nat, big_value(
            *exponent,
        )),
{
    let multiplication_complexity = calculate_multiplication_complexity(base_length, mod_length);
    let iteration_count = calculate_iteration_count(exp_length, exponent);
    proof {
        assert(multiplication_complexity * iteration_count <= 16384 * 8191) by (nonlinear_arith)
            requires
                0 <= multiplication_complexity <= 16384,
                0 <= iteration_count <= 8191,
        ;
    }
    max(MIN_GAS_COST, multiplication_complexity * iteration_count / 3)
}

/// The price of any call is at least the fixed minimum.
pub proof fn lemma_gas_cost_min(base_len: nat, exp_len: nat, mod_len: nat, e: nat)
    ensures
        gas_cost(base_len, exp_len, mod_len, e) >= MIN_GAS_COST,
{
}

/// With no base and no modulus the price is exactly the minimum, whatever
/// the declared exponent length or the exponent's value.
pub proof fn lemma_gas_cost_empty(exp_len: nat, e: nat)
    ensures
        gas_cost(0, exp_len, 0, e) == MIN_GAS_COST,
{
    assert(mult_complexity(0, 0) == 0);
    assert(0 * iter_count(exp_len, e) == 0);
    assert(0nat / 3 == 0);
}

/// Growing the base length or the modulus length, with the other inputs
/// fixed, never lowers the price.
pub proof fn lemma_gas_cost_monotonic(
    base_len1: nat,
    base_len2: nat,
    exp_len: nat,
    mod_len1: nat,
    mod_len2: nat,
    e: nat,
)
    requires
        base_len1 <= base_len2,
        mod_len1 <= mod_len2,
    ensures
        gas_cost(base_len1, exp_len, mod_len1, e) <= gas_cost(base_len2, exp_len, mod_len2, e),
{
    let m1 = if base_len1 >= mod_len1 {
        base_len1
    } else {
        mod_len1
    };
    let m2 = if base_len2 >= mod_len2 {
        base_len2
    } else {
        mod_len2
    };
    assert(m1 <= m2);
    lemma_div_is_ordered(m1 as int + 7, m2 as int + 7, 8);
    let w1 = (m1 + 7) / 8;
    let w2 = (m2 + 7) / 8;
    lemma_mul_inequality(w1 as int, w2 as int, w1 as int);
    lemma_mul_inequality(w1 as int, w2 as int, w2 as int);
    assert(w1 * w1 <= w2 * w2);
    let ic = iter_count(exp_len, e);
    lemma_mul_inequality(
        mult_complexity(base_len1, mod_len1) as int,
        mult_complexity(base_len2, mod_len2) as int,
        ic as int,
    );
    lemma_div_is_ordered(
        (mult_complexity(base_len1, mod_len1) * ic) as int,
        (mult_complexity(base_len2, mod_len2) * ic) as int,
        3,
    );
}

} // verus!
