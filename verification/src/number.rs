//! Real numbers, as far as they are compared and shown.

use vstd::prelude::*;

verus! {

/// A real number: the bits of its IEEE 754 double precision form, next to its rendering with one
/// decimal.
#[derive(Clone, Debug)]
pub struct Real {
    /// The bits of the number.
    pub bits: u64,
    /// The number rounded to one decimal, as it is shown.
    pub tenths: String,
}

/// A real number as a mathematical value.
pub struct RealView {
    pub bits: u64,
    pub tenths: Seq<char>,
}

impl View for Real {
    type V = RealView;

    open spec fn view(&self) -> RealView {
        RealView { bits: self.bits, tenths: self.tenths@ }
    }
}

impl Real {
    /// The same number again.
    pub fn copy(&self) -> (same: Real)
        ensures
            same@ == self@,
    {
        Real { bits: self.bits, tenths: self.tenths.clone() }
    }
}

/// The sign bit.
pub const SIGN: u64 = 0x8000_0000_0000_0000;

/// The bits of positive infinity. Above them lie the forms that are no number.
pub const INFINITY: u64 = 0x7ff0_0000_0000_0000;

/// The place of a form among all forms in the order of the numbers that they stand for. Both zeros
/// have place 0.
pub open spec fn place(bits: u64) -> int {
    if bits >= SIGN {
        SIGN - bits
    } else {
        bits as int
    }
}

/// Whether the bits stand for no number.
pub open spec fn not_a_number(bits: u64) -> bool {
    place(bits) > INFINITY || place(bits) < -INFINITY
}

/// Whether the number of `a` is less than that of `b`. Nothing is less than what is no number, nor
/// the other way round.
pub open spec fn less(a: u64, b: u64) -> bool {
    !not_a_number(a) && !not_a_number(b) && place(a) < place(b)
}

fn place_of(bits: u64) -> (at: i64)
    ensures
        at == place(bits),
{
    if bits >= SIGN {
        -((bits - SIGN) as i64)
    } else {
        bits as i64
    }
}

/// Decides whether bits stand for no number.
pub fn is_not_a_number(bits: u64) -> (yes: bool)
    ensures
        yes == not_a_number(bits),
{
    let at: i64 = place_of(bits);
    at > INFINITY as i64 || at < -(INFINITY as i64)
}

/// Decides whether the number of `a` is less than that of `b`.
pub fn is_less(a: u64, b: u64) -> (yes: bool)
    ensures
        yes == less(a, b),
{
    !is_not_a_number(a) && !is_not_a_number(b) && place_of(a) < place_of(b)
}

/// Numbers without a sign are in the order of their bits and those with a sign in the opposite one.
/// Those with a sign are below the others, but for the two zeros, which are equal.
pub proof fn law_order_of_numbers(a: u64, b: u64)
    ensures
        a < SIGN && b < SIGN && !not_a_number(a) && !not_a_number(b) ==> (less(a, b) <==> a < b),
        a >= SIGN && b >= SIGN && !not_a_number(a) && !not_a_number(b) ==> (less(a, b) <==> a > b),
        a >= SIGN && b < SIGN && !not_a_number(a) && !not_a_number(b) ==> (less(a, b) <==> !(a
            == SIGN && b == 0)),
        a < SIGN && b >= SIGN ==> !less(a, b),
        not_a_number(a) || not_a_number(b) ==> !less(a, b),
        a < SIGN ==> (not_a_number(a) <==> a > INFINITY),
        a >= SIGN ==> (not_a_number(a) <==> a - SIGN > INFINITY),
        SIGN == 0x8000_0000_0000_0000,
        INFINITY == 0x7ff0_0000_0000_0000,
{
}

} // verus!
