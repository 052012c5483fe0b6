//! Exact fixed-point decimals.
//!
//! A price or quantity is held as an `i128` count of units of `10^-SCALE`,
//! so `"50000.00"`, `"50000"` and `"5E4"` are the same value. Text is read
//! by `rust_decimal` (at most 28 fractional digits); a value with more than
//! `SCALE` fractional digits (after trailing zeros), or too large for the
//! range, is rejected rather than rounded.
use vstd::prelude::*;
use rust_decimal::Decimal;
use std::str::FromStr;
use crate::models::ProcessingError;
use vstd::arithmetic::div_mod::{lemma_fundamental_div_mod_converse_div, lemma_fundamental_div_mod_converse_mod};

verus! {

/// Number of fractional decimal digits of the fixed-point representation.
pub const SCALE: u32 = 18;

pub open spec fn pow10(n: nat) -> int
    decreases n,
{
    if n == 0 {
        1
    } else {
        10 * pow10((n - 1) as nat)
    }
}

/// The value `m * 10^-e` in units of `10^-SCALE`, when that is an integer
/// that fits an `i128`.
pub open spec fn units_of(m: int, e: nat) -> Option<int> {
    if e <= SCALE {
        let u = m * pow10((SCALE - e) as nat);
        if i128::MIN <= u <= i128::MAX {
            Some(u)
        } else {
            None
        }
    } else if m % pow10((e - SCALE) as nat) == 0 {
        Some(m / pow10((e - SCALE) as nat))
    } else {
        None
    }
}

/// What `rust_decimal` reads from a text: its mantissa and scale, or
/// nothing if the text is not a decimal number.
pub uninterp spec fn decimal_text(s: Seq<char>) -> Option<(i128, u32)>;

/// Relies on `<rust_decimal::Decimal as FromStr>::from_str`, read back with
/// `Decimal::mantissa` and `Decimal::scale`: the value is
/// `mantissa * 10^-scale`, with a scale of at most 28 and a mantissa of at
/// most 96 bits.
#[verifier::external_body]
fn decimal_parts(s: &str) -> (r: Option<(i128, u32)>)
    ensures
        r == decimal_text(s@),
        r matches Some((m, e)) ==> e <= 28 && -0x1_0000_0000_0000_0000_0000_0000 < m < 0x1_0000_0000_0000_0000_0000_0000,
{
    match Decimal::from_str(s) {
        Ok(d) => Some((d.mantissa(), d.scale())),
        Err(_) => None,
    }
}

proof fn lemma_pow10_monotone(a: nat, b: nat)
    requires
        a <= b,
    ensures
        1 <= pow10(a) <= pow10(b),
    decreases b,
{
    if b > a {
        lemma_pow10_monotone(a, (b - 1) as nat);
    } else if a > 0 {
        lemma_pow10_monotone(0, (a - 1) as nat);
    }
}

proof fn lemma_pow10_bounds(n: nat)
    requires
        n <= 28,
    ensures
        1 <= pow10(n) <= 10_000_000_000_000_000_000_000_000_000,
{
    reveal_with_fuel(pow10, 29);
    lemma_pow10_monotone(n, 28);
}

/// `10^n`.
fn pow10_exec(n: u32) -> (r: i128)
    requires
        n <= 28,
    ensures
        r == pow10(n as nat),
{
    let mut p: i128 = 1;
    let mut k: u32 = 0;
    while k < n
        invariant
            k <= n <= 28,
            p == pow10(k as nat),
        decreases n - k,
    {
        proof {
            lemma_pow10_bounds((k + 1) as nat);
        }
        p = p * 10;
        k += 1;
    }
    p
}

/// The value `mantissa * 10^-scale` in units of `10^-SCALE`. Fails with
/// `MalformedNumber` exactly when that is not an integer that fits an `i128`.
/// The bounds are those of a `rust_decimal` value.
pub fn units_from_parts(mantissa: i128, scale: u32) -> (r: Result<i128, ProcessingError>)
    requires
        scale <= 28,
        -0x1_0000_0000_0000_0000_0000_0000 < mantissa < 0x1_0000_0000_0000_0000_0000_0000,
    ensures
        r matches Ok(u) ==> units_of(mantissa as int, scale as nat) == Some(u as int),
        r is Err <==> units_of(mantissa as int, scale as nat) is None,
        r is Err ==> r == Err::<i128, ProcessingError>(ProcessingError::MalformedNumber),
{
    if scale <= SCALE {
        let f = pow10_exec(SCALE - scale);
        match mantissa.checked_mul(f) {
            Some(u) => Ok(u),
            None => Err(ProcessingError::MalformedNumber),
        }
    } else {
        let f = pow10_exec(scale - SCALE);
        proof {
            lemma_pow10_monotone(0, (scale - SCALE) as nat);
        }
        let negative = mantissa < 0;
        let a: i128 = if negative { -mantissa } else { mantissa };
        let q = a / f;
        let rem = a % f;
        proof {
            let fi = f as int;
            assert(a as int == q as int * fi + rem as int) by (nonlinear_arith)
                requires a >= 0, fi > 0, q as int == a as int / fi, rem as int == a as int % fi;
            if negative {
                if rem == 0 {
                    assert(mantissa as int == (-q) * fi + 0) by (nonlinear_arith)
                        requires mantissa as int == -(a as int), a as int == q as int * fi + rem as int, rem == 0;
                    lemma_fundamental_div_mod_converse_mod(mantissa as int, fi, -q, 0);
                    lemma_fundamental_div_mod_converse_div(mantissa as int, fi, -q, 0);
                } else {
                    assert(mantissa as int == (-q - 1) * fi + (fi - rem)) by (nonlinear_arith)
                        requires mantissa as int == -(a as int), a as int == q as int * fi + rem as int;
                    lemma_fundamental_div_mod_converse_mod(mantissa as int, fi, -q - 1, fi - rem);
                }
            }
        }
        if rem != 0 {
            Err(ProcessingError::MalformedNumber)
        } else if negative {
            Ok(-q)
        } else {
            Ok(q)
        }
    }
}

/// Reads a decimal text (as `rust_decimal` does) into units of `10^-SCALE`.
/// Fails with `MalformedNumber` when the text is not a decimal, or when its
/// value is not a whole number of units that fits an `i128`.
pub fn parse_decimal(s: &str) -> (r: Result<i128, ProcessingError>)
    ensures
        decimal_text(s@) is None ==> r == Err::<i128, ProcessingError>(ProcessingError::MalformedNumber),
        decimal_text(s@) matches Some((m, e)) ==> (r is Err <==> units_of(m as int, e as nat) is None),
        decimal_text(s@) matches Some((m, e)) ==> (r matches Ok(u) ==> units_of(m as int, e as nat) == Some(u as int)),
        r is Err ==> r == Err::<i128, ProcessingError>(ProcessingError::MalformedNumber),
{
    match decimal_parts(s) {
        Some((m, e)) => units_from_parts(m, e),
        None => Err(ProcessingError::MalformedNumber),
    }
}

} // verus!
