//! Floating-point values as they travel through the tape: by bit pattern.
//!
//! The tape stores and compares what the graph computed, it never computes with it, so a value is
//! carried as the IEEE 754 bits it arrived in and only classified here.
use vstd::prelude::*;

verus! {

/// The bit pattern of a double-precision value.
pub type Bits = u64;

/// One past the largest mantissa.
pub const MANTISSA: u64 = 4503599627370496;

/// One past the largest biased exponent.
pub const EXPONENT: u64 = 2048;

/// The biased exponent.
pub open spec fn exponent(x: Bits) -> int {
    ((x / MANTISSA) % EXPONENT) as int
}

/// The stored mantissa.
pub open spec fn mantissa(x: Bits) -> int {
    (x % MANTISSA) as int
}

/// Neither an infinity nor a NaN: the exponent is not all ones.
pub open spec fn finite(x: Bits) -> bool {
    exponent(x) != EXPONENT - 1
}

/// A NaN: the exponent is all ones and the mantissa is not zero.
pub open spec fn nan(x: Bits) -> bool {
    exponent(x) == EXPONENT - 1 && mantissa(x) != 0
}

/// Whether `x` is neither infinite nor NaN.
pub fn is_finite(x: Bits) -> (r: bool)
    ensures
        r == finite(x),
{
    (x / MANTISSA) % EXPONENT != EXPONENT - 1
}

/// Whether `x` is a NaN.
pub fn is_nan(x: Bits) -> (r: bool)
    ensures
        r == nan(x),
{
    (x / MANTISSA) % EXPONENT == EXPONENT - 1 && x % MANTISSA != 0
}

/// One past the largest magnitude: the sign is the bit above it.
pub const MAGNITUDE: u64 = 9223372036854775808;

/// A zero, of either sign.
pub open spec fn zero(x: Bits) -> bool {
    x % MAGNITUDE == 0
}

/// Whether `x` is a zero, of either sign.
pub fn is_zero(x: Bits) -> (r: bool)
    ensures
        r == zero(x),
{
    x % MAGNITUDE == 0
}

/// Every slot of `xs` that is finite, the others empty.
pub open spec fn finite_slots(xs: Seq<Bits>) -> Seq<Option<Bits>> {
    Seq::new(
        xs.len(),
        |k: int|
            if finite(xs[k]) {
                Some(xs[k])
            } else {
                None
            },
    )
}

/// Every slot of `xs` that is a number (an infinity is one), the others empty.
pub open spec fn number_slots(xs: Seq<Bits>) -> Seq<Option<Bits>> {
    Seq::new(
        xs.len(),
        |k: int|
            if nan(xs[k]) {
                None
            } else {
                Some(xs[k])
            },
    )
}

/// Empties every slot that is not finite.
pub fn only_finite(xs: &[Bits]) -> (r: Vec<Option<Bits>>)
    ensures
        r@ == finite_slots(xs@),
{
    let mut out: Vec<Option<Bits>> = Vec::new();
    let mut k: usize = 0;
    while k < xs.len()
        invariant
            k <= xs@.len(),
            out@ == finite_slots(xs@).take(k as int),
        decreases xs@.len() - k,
    {
        let x: Bits = xs[k];
        out.push(if is_finite(x) { Some(x) } else { None });
        assert(finite_slots(xs@).take(k as int).push(finite_slots(xs@)[k as int])
            =~= finite_slots(xs@).take(k + 1));
        k += 1;
    }
    assert(finite_slots(xs@).take(k as int) =~= finite_slots(xs@));
    out
}

/// Empties every slot that is a NaN.
pub fn only_numbers(xs: &[Bits]) -> (r: Vec<Option<Bits>>)
    ensures
        r@ == number_slots(xs@),
{
    let mut out: Vec<Option<Bits>> = Vec::new();
    let mut k: usize = 0;
    while k < xs.len()
        invariant
            k <= xs@.len(),
            out@ == number_slots(xs@).take(k as int),
        decreases xs@.len() - k,
    {
        let x: Bits = xs[k];
        out.push(if is_nan(x) { None } else { Some(x) });
        assert(number_slots(xs@).take(k as int).push(number_slots(xs@)[k as int])
            =~= number_slots(xs@).take(k + 1));
        k += 1;
    }
    assert(number_slots(xs@).take(k as int) =~= number_slots(xs@));
    out
}

} // verus!
