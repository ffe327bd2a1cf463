//! Bringing a large number into the range of a machine word, for the
//! logarithm that is taken of it afterwards.

use vstd::prelude::*;
use num_bigint::BigUint;
use vstd::arithmetic::power::pow;
use crate::big::{big_decimal_len, big_div, big_from, big_pow, big_to_u64, big_value, decimal_len};

verus! {

/// A number as its leading digits and the number of digits cut off: about
/// `mantissa * 10^shift`.
#[derive(Clone, Copy, Debug, PartialEq, Eq, Structural)]
pub struct Scaled {
    pub mantissa: u64,
    pub shift: usize,
}

/// The number of digits that are kept.
pub open spec fn kept_digits() -> nat {
    18
}

/// How many decimal digits are cut off from `n`: what it has beyond those
/// kept.
pub open spec fn cut_digits(n: nat) -> nat {
    if decimal_len(n) > kept_digits() {
        (decimal_len(n) - kept_digits()) as nat
    } else {
        0
    }
}

/// The leading digits of `n`.
pub open spec fn leading_digits(n: nat) -> nat {
    (n / (pow(10, cut_digits(n)) as nat)) as nat
}

/// A number is below the power of ten that has one digit more.
pub proof fn lemma_decimal_len_bound(n: nat)
    ensures
        n < pow(10, decimal_len(n)),
    decreases n,
{
    if n < 10 {
        vstd::arithmetic::power::lemma_pow1(10);
    } else {
        lemma_decimal_len_bound(n / 10);
        let d = decimal_len(n / 10);
        assert(pow(10, d + 1) == 10 * pow(10, d)) by {
            vstd::arithmetic::power::lemma_pow_adds(10, 1, d);
            vstd::arithmetic::power::lemma_pow1(10);
        }
    }
}

/// The leading digits fit a machine word.
pub proof fn lemma_leading_digits_fit(n: nat)
    ensures
        pow(10, cut_digits(n)) > 0,
        leading_digits(n) < 1_000_000_000_000_000_000,
{
    let cut = cut_digits(n);
    let len = decimal_len(n);
    vstd::arithmetic::power::lemma_pow_positive(10, cut);
    lemma_decimal_len_bound(n);
    assert(pow(10, 18) == 1_000_000_000_000_000_000) by {
        reveal_with_fuel(pow, 19);
    }
    if len > 18 {
        vstd::arithmetic::power::lemma_pow_adds(10, cut, 18);
        vstd::arithmetic::div_mod::lemma_multiply_divide_lt(n as int, pow(10, cut), pow(10, 18));
    } else {
        vstd::arithmetic::power::lemma_pow0(10);
        vstd::arithmetic::power::lemma_pow_increases(10, len, 18);
    }
}

/// Cuts `n` down to its eighteen leading decimal digits and says how many
/// digits were cut off. There is no result where that count does not fit 32
/// bits.
pub fn scale_down(n: &BigUint) -> (r: Option<Scaled>)
    ensures
        cut_digits(big_value(*n)) > u32::MAX ==> r is None,
        cut_digits(big_value(*n)) <= u32::MAX ==> r == Some(
            Scaled {
                mantissa: leading_digits(big_value(*n)) as u64,
                shift: cut_digits(big_value(*n)) as usize,
            },
        ),
{
    let digit_count: usize = big_decimal_len(n);
    proof {
        lemma_leading_digits_fit(big_value(*n));
    }
    if digit_count > 18 {
        let shift: usize = digit_count - 18;
        if shift > 0xffff_ffff {
            return None;
        }
        let reduction_factor = big_pow(&big_from(10), shift as u32);
        let reduced = big_div(n, &reduction_factor);
        assert(big_value(reduced) == leading_digits(big_value(*n)));
        match big_to_u64(&reduced) {
            Some(mantissa) => Some(Scaled { mantissa, shift }),
            None => None,
        }
    } else {
        proof {
            vstd::arithmetic::power::lemma_pow0(10);
            assert(big_value(*n) / 1 == big_value(*n));
            assert(leading_digits(big_value(*n)) == big_value(*n));
        }
        match big_to_u64(n) {
            Some(mantissa) => Some(Scaled { mantissa, shift: 0 }),
            None => None,
        }
    }
}

} // verus!
