//! IEEE 754 binary64 values carried as raw bit patterns.
//!
//! Every float that flows through the engine (column cells, filter
//! literals, aggregate accumulators) is held as its 64-bit pattern.
//! Ordering and NaN classification are pure bit arithmetic and are
//! verified here; rounding arithmetic and decimal parsing rely on the
//! software IEEE implementation in `rustc_apfloat`.
use rustc_apfloat::Float;
use vstd::prelude::*;

verus! {

/// Magnitude part of a bit pattern: everything but the sign bit.
pub open spec fn f64_mag(b: u64) -> u64 {
    b & 0x7fff_ffff_ffff_ffff
}

/// Sign bit set.
pub open spec fn f64_is_neg(b: u64) -> bool {
    b >= 0x8000_0000_0000_0000
}

/// NaN: exponent all ones and a non-zero fraction.
pub open spec fn f64_is_nan(b: u64) -> bool {
    f64_mag(b) > 0x7ff0_0000_0000_0000
}

/// Rank of a non-NaN pattern: an integer that orders bit patterns
/// exactly as IEEE 754 orders the values they denote (both zeros rank 0).
pub open spec fn f64_rank(b: u64) -> int {
    if f64_is_neg(b) {
        -(f64_mag(b) as int)
    } else {
        f64_mag(b) as int
    }
}

/// Outcome of a comparison.
#[derive(Clone, Copy, Debug, PartialEq, Eq, Structural)]
pub enum Rel {
    Lt,
    Eq,
    Gt,
}

/// IEEE comparison of two patterns: unordered exactly when a NaN is involved.
pub open spec fn spec_f64_cmp(a: u64, b: u64) -> Option<Rel> {
    if f64_is_nan(a) || f64_is_nan(b) {
        None
    } else if f64_rank(a) < f64_rank(b) {
        Some(Rel::Lt)
    } else if f64_rank(a) == f64_rank(b) {
        Some(Rel::Eq)
    } else {
        Some(Rel::Gt)
    }
}

pub fn f64_nan_bits(b: u64) -> (r: bool)
    ensures
        r == f64_is_nan(b),
{
    (b & 0x7fff_ffff_ffff_ffff) > 0x7ff0_0000_0000_0000
}

pub fn f64_cmp_bits(a: u64, b: u64) -> (r: Option<Rel>)
    ensures
        r == spec_f64_cmp(a, b),
{
    let ma: u64 = a & 0x7fff_ffff_ffff_ffff;
    let mb: u64 = b & 0x7fff_ffff_ffff_ffff;
    if ma > 0x7ff0_0000_0000_0000 || mb > 0x7ff0_0000_0000_0000 {
        return None;
    }
    let na: bool = a >= 0x8000_0000_0000_0000;
    let nb: bool = b >= 0x8000_0000_0000_0000;
    if na && nb {
        if ma > mb {
            Some(Rel::Lt)
        } else if ma == mb {
            Some(Rel::Eq)
        } else {
            Some(Rel::Gt)
        }
    } else if !na && !nb {
        if ma < mb {
            Some(Rel::Lt)
        } else if ma == mb {
            Some(Rel::Eq)
        } else {
            Some(Rel::Gt)
        }
    } else if na {
        // a <= -0.0 <= +0.0 <= b; equal only when both are zeros
        if ma == 0 && mb == 0 {
            Some(Rel::Eq)
        } else {
            Some(Rel::Lt)
        }
    } else {
        if ma == 0 && mb == 0 {
            Some(Rel::Eq)
        } else {
            Some(Rel::Gt)
        }
    }
}

/// The smaller of two patterns, NaN acting as identity; on equal ranks the
/// first argument is kept.
pub open spec fn spec_f64_min(a: u64, b: u64) -> u64 {
    if f64_is_nan(a) {
        b
    } else if f64_is_nan(b) {
        a
    } else if f64_rank(b) < f64_rank(a) {
        b
    } else {
        a
    }
}

/// The larger of two patterns, NaN acting as identity; on equal ranks the
/// first argument is kept.
pub open spec fn spec_f64_max(a: u64, b: u64) -> u64 {
    if f64_is_nan(a) {
        b
    } else if f64_is_nan(b) {
        a
    } else if f64_rank(b) > f64_rank(a) {
        b
    } else {
        a
    }
}

pub fn f64_min_bits(a: u64, b: u64) -> (r: u64)
    ensures
        r == spec_f64_min(a, b),
{
    if f64_nan_bits(a) {
        b
    } else if f64_nan_bits(b) {
        a
    } else {
        match f64_cmp_bits(b, a) {
            Some(Rel::Lt) => b,
            _ => a,
        }
    }
}

pub fn f64_max_bits(a: u64, b: u64) -> (r: u64)
    ensures
        r == spec_f64_max(a, b),
{
    if f64_nan_bits(a) {
        b
    } else if f64_nan_bits(b) {
        a
    } else {
        match f64_cmp_bits(b, a) {
            Some(Rel::Gt) => b,
            _ => a,
        }
    }
}

/// The bit pattern of the IEEE sum of the two operands
/// (round to nearest, ties to even).
pub uninterp spec fn spec_f64_add(a: u64, b: u64) -> u64;

/// Relies on rustc_apfloat::ieee::Double: add_r with round-to-nearest-even
/// is IEEE 754 addition of the two patterns, which is commutative whenever
/// neither operand is a NaN.
#[verifier::external_body]
pub fn f64_add_bits(a: u64, b: u64) -> (r: u64)
    ensures
        r == spec_f64_add(a, b),
        !f64_is_nan(a) && !f64_is_nan(b) ==> r == spec_f64_add(b, a),
{
    let x = rustc_apfloat::ieee::Double::from_bits(a as u128);
    let y = rustc_apfloat::ieee::Double::from_bits(b as u128);
    x.add_r(y, rustc_apfloat::Round::NearestTiesToEven).value.to_bits() as u64
}

/// The bit pattern of the IEEE quotient of the two operands.
pub uninterp spec fn spec_f64_div(a: u64, b: u64) -> u64;

/// Relies on rustc_apfloat::ieee::Double: div_r with round-to-nearest-even
/// is IEEE 754 division of the two patterns.
#[verifier::external_body]
pub fn f64_div_bits(a: u64, b: u64) -> (r: u64)
    ensures
        r == spec_f64_div(a, b),
{
    let x = rustc_apfloat::ieee::Double::from_bits(a as u128);
    let y = rustc_apfloat::ieee::Double::from_bits(b as u128);
    x.div_r(y, rustc_apfloat::Round::NearestTiesToEven).value.to_bits() as u64
}

/// What integer-to-double conversion returns.
pub uninterp spec fn spec_f64_of_i64_raw(i: i64) -> u64;

/// The bit pattern of the double nearest to the given integer; never a
/// NaN, since rounding an integer cannot produce one.
pub open spec fn spec_f64_of_i64(i: i64) -> u64 {
    if f64_is_nan(spec_f64_of_i64_raw(i)) {
        0
    } else {
        spec_f64_of_i64_raw(i)
    }
}

/// Relies on rustc_apfloat::ieee::Double::from_i128: conversion from an
/// integer, round to nearest, ties to even; the result is never a NaN.
#[verifier::external_body]
pub fn f64_of_i64(i: i64) -> (r: u64)
    ensures
        r == spec_f64_of_i64_raw(i),
        r == spec_f64_of_i64(i),
{
    rustc_apfloat::ieee::Double::from_i128(i as i128).value.to_bits() as u64
}

/// What unsigned-to-double conversion returns.
pub uninterp spec fn spec_f64_of_u64_raw(n: u64) -> u64;

/// The bit pattern of the double nearest to the given unsigned integer;
/// never a NaN.
pub open spec fn spec_f64_of_u64(n: u64) -> u64 {
    if f64_is_nan(spec_f64_of_u64_raw(n)) {
        0
    } else {
        spec_f64_of_u64_raw(n)
    }
}

/// Relies on rustc_apfloat::ieee::Double::from_u128: conversion from an
/// unsigned integer, round to nearest, ties to even; the result is never
/// a NaN.
#[verifier::external_body]
pub fn f64_of_u64(n: u64) -> (r: u64)
    ensures
        r == spec_f64_of_u64_raw(n),
        r == spec_f64_of_u64(n),
{
    rustc_apfloat::ieee::Double::from_u128(n as u128).value.to_bits() as u64
}

/// The integer conversions never yield a NaN pattern.
pub proof fn lemma_conv_not_nan(i: i64, n: u64)
    ensures
        !f64_is_nan(spec_f64_of_i64(i)),
        !f64_is_nan(spec_f64_of_u64(n)),
{
    assert(0u64 & 0x7fff_ffff_ffff_ffff == 0) by (bit_vector);
}

/// The bit pattern denoted by a decimal text, or None when the text is not
/// a readable number.
pub uninterp spec fn spec_parse_f64(s: Seq<char>) -> Option<u64>;

/// Relies on rustc_apfloat::ieee::Double::from_str: correctly rounded
/// decimal-to-double conversion; malformed text gives an error rather
/// than a value. Its grammar differs from std's float parsing at the
/// edges: hexadecimal forms and NaN payloads are read, while some
/// spellings of infinity are not.
#[verifier::external_body]
pub fn parse_f64_bits(s: &str) -> (r: Option<u64>)
    ensures
        r == spec_parse_f64(s@),
{
    match s.parse::<rustc_apfloat::ieee::Double>() {
        Ok(d) => Some(d.to_bits() as u64),
        Err(_) => None,
    }
}

} // verus!
