//! The numbers that the signal path computes with, and the language in which
//! the contracts speak of them.

use vstd::prelude::*;

verus! {

/// A real number type with the operations of the audio arithmetic.
///
/// The methods promise nothing: no contract of this library rests on how a
/// number type rounds, or even on its giving the same answer twice. What the
/// library states is which operation is applied to which operands, and in what
/// order. `call_ensures(N::plus, (a, b), r)` reads "`a.plus(b)` came out as `r`".
///
/// The type is meant to behave as IEEE 754 binary32. Each method names the
/// operation of that format it stands for.
pub trait Scalar: Copy {
    /// The number with this binary32 encoding.
    fn from_bits(bits: u32) -> Self;

    /// The number nearest to a count.
    fn from_usize(count: usize) -> Self;

    /// The number with its fraction cut off, held to the range of `u32`.
    fn to_u32(self) -> u32;

    /// `self + other`
    fn plus(self, other: Self) -> Self;

    /// `self - other`
    fn minus(self, other: Self) -> Self;

    /// `self * other`
    fn times(self, other: Self) -> Self;

    /// `self / other`
    fn over(self, other: Self) -> Self;

    /// `self % other`, with the sign of `self`
    fn remainder(self, other: Self) -> Self;

    /// `-self`
    fn negated(self) -> Self;

    /// `|self|`
    fn magnitude(self) -> Self;

    /// The lesser of the two; the other one where one is not a number.
    fn lesser(self, other: Self) -> Self;

    /// The greater of the two; the other one where one is not a number.
    fn greater(self, other: Self) -> Self;

    /// The square root.
    fn square_root(self) -> Self;

    /// The sine of an angle in radians.
    fn sine(self) -> Self;

    /// The cosine of an angle in radians.
    fn cosine(self) -> Self;

    /// The tangent of an angle in radians.
    fn tangent(self) -> Self;

    /// `e` raised to `self`.
    fn exponential(self) -> Self;

    /// The natural logarithm.
    fn logarithm(self) -> Self;

    /// `self` raised to `exponent`.
    fn power(self, exponent: Self) -> Self;

    /// `self < other`
    fn is_below(self, other: Self) -> bool;

    /// `self > other`
    fn is_above(self, other: Self) -> bool;

    /// `self <= other`
    fn is_at_most(self, other: Self) -> bool;

    /// `self >= other`
    fn is_at_least(self, other: Self) -> bool;

    /// `self != other`
    fn differs_from(self, other: Self) -> bool;
}

/// The binary32 encoding of 0.
pub const ZERO: u32 = 0x0000_0000;

/// The binary32 encoding of 1.
pub const ONE: u32 = 0x3f80_0000;

/// The binary32 encoding of 2.
pub const TWO: u32 = 0x4000_0000;

/// The binary32 encoding of the number nearest to pi.
pub const PI: u32 = 0x4049_0fdb;

/// The binary32 encoding of the number nearest to two pi.
pub const TAU: u32 = 0x40c9_0fdb;

/// `r` is `x` held to the range from `lo` to `hi`: `lo` where `x` answers that
/// it is below `lo`, else `hi` where it answers that it is above `hi`, else `x`.
pub open spec fn clamped<N: Scalar>(x: N, lo: N, hi: N, r: N) -> bool {
    ||| call_ensures(N::is_below, (x, lo), true) && r == lo
    ||| call_ensures(N::is_below, (x, lo), false) && call_ensures(N::is_above, (x, hi), true) && r
        == hi
    ||| call_ensures(N::is_below, (x, lo), false) && call_ensures(N::is_above, (x, hi), false) && r
        == x
}

/// Hold a number to the range from `lo` to `hi`.
pub fn clamp<N: Scalar>(x: N, lo: N, hi: N) -> (r: N)
    ensures
        clamped(x, lo, hi, r),
{
    if x.is_below(lo) {
        lo
    } else if x.is_above(hi) {
        hi
    } else {
        x
    }
}

/// Computing twice gives the same value: every operation answers as its
/// operands decide.
pub open spec fn repeatable<N: Scalar>() -> bool {
    &&& forall|bits: u32, r: N, s: N| #[trigger]
        call_ensures(N::from_bits, (bits,), r) && #[trigger] call_ensures(N::from_bits, (bits,), s)
            ==> r == s
    &&& forall|n: usize, r: N, s: N| #[trigger]
        call_ensures(N::from_usize, (n,), r) && #[trigger] call_ensures(N::from_usize, (n,), s)
            ==> r == s
    &&& forall|x: N, r: u32, s: u32| #[trigger]
        call_ensures(N::to_u32, (x,), r) && #[trigger] call_ensures(N::to_u32, (x,), s) ==> r == s
    &&& forall|x: N, r: N, s: N| #[trigger]
        call_ensures(N::negated, (x,), r) && #[trigger] call_ensures(N::negated, (x,), s) ==> r == s
    &&& forall|x: N, r: N, s: N| #[trigger]
        call_ensures(N::magnitude, (x,), r) && #[trigger] call_ensures(N::magnitude, (x,), s) ==> r
            == s
    &&& forall|x: N, r: N, s: N| #[trigger]
        call_ensures(N::square_root, (x,), r) && #[trigger] call_ensures(N::square_root, (x,), s)
            ==> r == s
    &&& forall|x: N, r: N, s: N| #[trigger]
        call_ensures(N::sine, (x,), r) && #[trigger] call_ensures(N::sine, (x,), s) ==> r == s
    &&& forall|x: N, r: N, s: N| #[trigger]
        call_ensures(N::cosine, (x,), r) && #[trigger] call_ensures(N::cosine, (x,), s) ==> r == s
    &&& forall|x: N, r: N, s: N| #[trigger]
        call_ensures(N::tangent, (x,), r) && #[trigger] call_ensures(N::tangent, (x,), s) ==> r == s
    &&& forall|x: N, r: N, s: N| #[trigger]
        call_ensures(N::exponential, (x,), r) && #[trigger] call_ensures(N::exponential, (x,), s)
            ==> r == s
    &&& forall|x: N, r: N, s: N| #[trigger]
        call_ensures(N::logarithm, (x,), r) && #[trigger] call_ensures(N::logarithm, (x,), s) ==> r
            == s
    &&& forall|x: N, y: N, r: N, s: N| #[trigger]
        call_ensures(N::plus, (x, y), r) && #[trigger] call_ensures(N::plus, (x, y), s) ==> r == s
    &&& forall|x: N, y: N, r: N, s: N| #[trigger]
        call_ensures(N::minus, (x, y), r) && #[trigger] call_ensures(N::minus, (x, y), s) ==> r == s
    &&& forall|x: N, y: N, r: N, s: N| #[trigger]
        call_ensures(N::times, (x, y), r) && #[trigger] call_ensures(N::times, (x, y), s) ==> r == s
    &&& forall|x: N, y: N, r: N, s: N| #[trigger]
        call_ensures(N::over, (x, y), r) && #[trigger] call_ensures(N::over, (x, y), s) ==> r == s
    &&& forall|x: N, y: N, r: N, s: N| #[trigger]
        call_ensures(N::remainder, (x, y), r) && #[trigger] call_ensures(N::remainder, (x, y), s)
            ==> r == s
    &&& forall|x: N, y: N, r: N, s: N| #[trigger]
        call_ensures(N::lesser, (x, y), r) && #[trigger] call_ensures(N::lesser, (x, y), s) ==> r
            == s
    &&& forall|x: N, y: N, r: N, s: N| #[trigger]
        call_ensures(N::greater, (x, y), r) && #[trigger] call_ensures(N::greater, (x, y), s) ==> r
            == s
    &&& forall|x: N, y: N, r: N, s: N| #[trigger]
        call_ensures(N::power, (x, y), r) && #[trigger] call_ensures(N::power, (x, y), s) ==> r == s
    &&& decided::<N>()
}

/// No comparison answers both ways.
pub open spec fn decided<N: Scalar>() -> bool {
    &&& forall|x: N, y: N|
        !(#[trigger] call_ensures(N::is_below, (x, y), true) && call_ensures(
            N::is_below,
            (x, y),
            false,
        ))
    &&& forall|x: N, y: N|
        !(#[trigger] call_ensures(N::is_above, (x, y), true) && call_ensures(
            N::is_above,
            (x, y),
            false,
        ))
    &&& forall|x: N, y: N|
        !(#[trigger] call_ensures(N::is_at_most, (x, y), true) && call_ensures(
            N::is_at_most,
            (x, y),
            false,
        ))
    &&& forall|x: N, y: N|
        !(#[trigger] call_ensures(N::is_at_least, (x, y), true) && call_ensures(
            N::is_at_least,
            (x, y),
            false,
        ))
    &&& forall|x: N, y: N|
        !(#[trigger] call_ensures(N::differs_from, (x, y), true) && call_ensures(
            N::differs_from,
            (x, y),
            false,
        ))
}

/// `x` never fails to answer that it is at least 0 and at most 1.
pub open spec fn in_unit<N: Scalar>(x: N) -> bool {
    &&& forall|zero: N|
        call_ensures(N::from_bits, (ZERO,), zero) ==> !#[trigger] call_ensures(
            N::is_at_least,
            (x, zero),
            false,
        )
    &&& forall|one: N|
        call_ensures(N::from_bits, (ONE,), one) ==> !#[trigger] call_ensures(
            N::is_at_most,
            (x, one),
            false,
        )
}

/// `x` is a number, as seen from 0 and 1: if it is not below 0, it is at least
/// 0, and if it is not above 1, it is at most 1.
pub open spec fn is_number<N: Scalar>(x: N) -> bool {
    &&& forall|zero: N|
        call_ensures(N::from_bits, (ZERO,), zero) && #[trigger] call_ensures(
            N::is_below,
            (x, zero),
            false,
        ) ==> !call_ensures(N::is_at_least, (x, zero), false)
    &&& forall|one: N|
        call_ensures(N::from_bits, (ONE,), one) && #[trigger] call_ensures(
            N::is_above,
            (x, one),
            false,
        ) ==> !call_ensures(N::is_at_most, (x, one), false)
}

/// `x` never fails to answer that it is at least -1 and at most 1.
pub open spec fn in_signal_range<N: Scalar>(x: N) -> bool {
    &&& forall|one: N, low: N|
        call_ensures(N::from_bits, (ONE,), one) && #[trigger] call_ensures(N::negated, (one,), low)
            ==> !call_ensures(N::is_at_least, (x, low), false)
    &&& forall|one: N|
        call_ensures(N::from_bits, (ONE,), one) ==> !#[trigger] call_ensures(
            N::is_at_most,
            (x, one),
            false,
        )
}

/// `x` is finite: the difference from itself never answers that it is not 0.
pub open spec fn is_finite<N: Scalar>(x: N) -> bool {
    forall|d: N, zero: N| #[trigger]
        call_ensures(N::minus, (x, x), d) && call_ensures(N::from_bits, (ZERO,), zero)
            ==> !#[trigger] call_ensures(N::differs_from, (d, zero), true)
}

/// `x` is 0, with either sign: it never answers that it differs from 0.
pub open spec fn is_zero<N: Scalar>(x: N) -> bool {
    forall|zero: N|
        call_ensures(N::from_bits, (ZERO,), zero) ==> !#[trigger] call_ensures(
            N::differs_from,
            (x, zero),
            true,
        )
}

/// 0 times a finite number is 0, and so is a finite number times 0. This is IEEE
/// arithmetic.
pub open spec fn zero_annihilates<N: Scalar>() -> bool {
    &&& forall|zero: N, x: N, p: N| #[trigger]
        call_ensures(N::times, (zero, x), p) && is_zero(zero) && is_finite(x) ==> is_zero(p)
    &&& forall|x: N, zero: N, p: N| #[trigger]
        call_ensures(N::times, (x, zero), p) && is_zero(zero) && is_finite(x) ==> is_zero(p)
    &&& forall|zero: N| #[trigger] call_ensures(N::from_bits, (ZERO,), zero) ==> is_zero(zero)
}

/// A number times 1 is the number. This is IEEE arithmetic.
pub open spec fn one_is_neutral<N: Scalar>() -> bool {
    forall|x: N, one: N, p: N| #[trigger]
        call_ensures(N::times, (x, one), p) && call_ensures(N::from_bits, (ONE,), one) ==> p == x
}

/// The sine of a finite angle lies between -1 and 1. IEEE arithmetic does not
/// promise it of a number type; it is assumed.
pub open spec fn sine_is_bounded<N: Scalar>() -> bool {
    forall|angle: N, r: N| #[trigger]
        call_ensures(N::sine, (angle,), r) && is_finite(angle) ==> in_signal_range(r)
}

/// The unit interval is closed under the arithmetic of the envelope: products
/// of its members and their distances from 1 lie in it, and so do 0 and 1
/// themselves; a member is neither below 0 nor above 1; 0 and every product are
/// at most the member that they come from. This is IEEE arithmetic, which rounds
/// monotonically.
pub open spec fn unit_is_closed<N: Scalar>() -> bool {
    &&& forall|zero: N| #[trigger] call_ensures(N::from_bits, (ZERO,), zero) ==> in_unit(zero)
    &&& forall|one: N| #[trigger] call_ensures(N::from_bits, (ONE,), one) ==> in_unit(one)
    &&& forall|bits: u32, r: N, s: N| #[trigger]
        call_ensures(N::from_bits, (bits,), r) && #[trigger] call_ensures(N::from_bits, (bits,), s)
            ==> r == s
    &&& forall|x: N, y: N, r: N| #[trigger]
        call_ensures(N::times, (x, y), r) && in_unit(x) && in_unit(y) ==> in_unit(r)
    &&& forall|one: N, x: N, r: N| #[trigger]
        call_ensures(N::minus, (one, x), r) && call_ensures(N::from_bits, (ONE,), one) && in_unit(x)
            ==> in_unit(r)
    &&& forall|x: N, y: N, r: N| #[trigger]
        call_ensures(N::times, (x, y), r) && in_unit(x) && in_unit(y) ==> !call_ensures(
            N::is_at_most,
            (r, x),
            false,
        )
    &&& forall|x: N, zero: N|
        in_unit(x) && call_ensures(N::from_bits, (ZERO,), zero) ==> !#[trigger] call_ensures(
            N::is_at_most,
            (zero, x),
            false,
        )
    &&& forall|x: N, zero: N|
        in_unit(x) && call_ensures(N::from_bits, (ZERO,), zero) ==> !#[trigger] call_ensures(
            N::is_below,
            (x, zero),
            true,
        )
    &&& forall|x: N, one: N|
        in_unit(x) && call_ensures(N::from_bits, (ONE,), one) ==> !#[trigger] call_ensures(
            N::is_above,
            (x, one),
            true,
        )
}

} // verus!
