//! Stereo panning.

use vstd::prelude::*;

use crate::formula::{evaluates, law_formula_has_one_value, lit, val, Formula};
use crate::reading::{is_within, lemma_product_is_bounded, magnitude, Reading};
use crate::scalar::{
    is_finite, is_zero, one_is_neutral, repeatable, zero_annihilates, Scalar, ONE, ZERO,
};

verus! {

/// A quarter of pi: the binary32 encoding of the nearest number.
pub const QUARTER_PI: u32 = 0x3f49_0fdb;

/// The angle of a pan position: maps [-1, 1] to [0, pi/2].
pub open spec fn pan_angle<N>(pan: N) -> Formula<N> {
    val(pan).plus(lit(ONE)).times(lit(QUARTER_PI))
}

/// The two sides are the sample times the cosine and the sine of the angle.
pub open spec fn panned<N: Scalar>(sample: N, pan: N, sides: (N, N)) -> bool {
    &&& evaluates(val(sample).times(pan_angle(pan).cosine()), sides.0)
    &&& evaluates(val(sample).times(pan_angle(pan).sine()), sides.1)
}

/// Apply constant-power panning to a mono signal.
///
/// `pan` is in [-1.0, 1.0]: -1.0 is hard left, 0.0 center, 1.0 hard right.
/// Returns the `(left, right)` samples. The sine and cosine of one angle keep
/// the sum of the squares.
pub fn apply_constant_power_pan<N: Scalar>(sample: N, pan: N) -> (sides: (N, N))
    ensures
        panned(sample, pan, sides),
{
    proof {
        reveal_with_fuel(evaluates, 6);
    }
    let theta = pan.plus(N::from_bits(ONE)).times(N::from_bits(QUARTER_PI));
    let left = sample.times(theta.cosine());
    let right = sample.times(theta.sine());
    (left, right)
}

/// Sine and cosine of the angle of the position lie on the unit circle, but for
/// `tolerance`. Exact sine and cosine do; how close those of a number type come
/// is not IEEE arithmetic.
pub open spec fn is_on_circle<N: Scalar>(reading: Reading<N>, pan: N, tolerance: real) -> bool {
    forall|theta: N, c: N, s: N|
        evaluates(pan_angle(pan), theta) && #[trigger] call_ensures(N::cosine, (theta,), c)
            && #[trigger] call_ensures(N::sine, (theta,), s) ==> is_within(
            reading.of(c) * reading.of(c) + reading.of(s) * reading.of(s),
            1real,
            tolerance,
        )
}

/// `c` and `s` are the cosine and the sine of one angle, that of the position, and
/// the sides are the products with them.
spec fn are_sides_of<N: Scalar>(sample: N, pan: N, sides: (N, N), theta: N, c: N, s: N) -> bool {
    &&& evaluates(pan_angle(pan), theta)
    &&& call_ensures(N::cosine, (theta,), c)
    &&& call_ensures(N::sine, (theta,), s)
    &&& call_ensures(N::times, (sample, c), sides.0)
    &&& call_ensures(N::times, (sample, s), sides.1)
}

proof fn lemma_sides<N: Scalar>(sample: N, pan: N, sides: (N, N)) -> (found: (N, N, N))
    requires
        repeatable::<N>(),
        panned(sample, pan, sides),
    ensures
        are_sides_of(sample, pan, sides, found.0, found.1, found.2),
{
    let angle = pan_angle(pan);
    let (x, c) = choose|x: N, c: N| #[trigger]
        call_ensures(N::times, (x, c), sides.0) && evaluates(val(sample), x) && evaluates(
            angle.cosine(),
            c,
        );
    let (y, s) = choose|y: N, s: N| #[trigger]
        call_ensures(N::times, (y, s), sides.1) && evaluates(val(sample), y) && evaluates(
            angle.sine(),
            s,
        );
    let theta = choose|theta: N| #[trigger]
        call_ensures(N::cosine, (theta,), c) && evaluates(angle, theta);
    let theta2 = choose|theta: N| #[trigger]
        call_ensures(N::sine, (theta,), s) && evaluates(angle, theta);
    law_formula_has_one_value(angle, theta, theta2);
    (theta, c, s)
}

/// Panning keeps the power: the squares of the two sides add up to the square of
/// the sample, but for rounding, in every position.
pub proof fn law_power_is_constant<N: Scalar>(
    reading: Reading<N>,
    tolerance: real,
    sample: N,
    pan: N,
    sides: (N, N),
)
    requires
        repeatable::<N>(),
        reading.is_accurate(),
        reading.bound >= 2real,
        tolerance <= 1real,
        is_on_circle(reading, pan, tolerance),
        magnitude(reading.of(sample)) <= 1real,
        panned(sample, pan, sides),
    ensures
        is_within(
            reading.of(sides.0) * reading.of(sides.0) + reading.of(sides.1) * reading.of(sides.1),
            reading.of(sample) * reading.of(sample),
            tolerance + 8real * reading.error + 2real * reading.error * reading.error,
        ),
{
    let (theta, c, s) = lemma_sides(sample, pan, sides);
    let x = reading.of(sample);
    let cos = reading.of(c);
    let sin = reading.of(s);
    assert(is_within(cos * cos + sin * sin, 1real, tolerance));
    lemma_circle_is_bounded(cos, sin);
    lemma_circle_is_bounded(sin, cos);
    lemma_product_is_bounded(x, cos, 1real, 2real);
    lemma_product_is_bounded(x, sin, 1real, 2real);
    lemma_power_of_sides(
        x,
        cos,
        sin,
        reading.of(sides.0),
        reading.of(sides.1),
        tolerance,
        reading.error,
    );
}

proof fn lemma_circle_is_bounded(x: real, y: real)
    requires
        x * x + y * y <= 2real,
    ensures
        magnitude(x) <= 2real,
{
    assert(0real - 2real <= x <= 2real) by (nonlinear_arith)
        requires
            x * x + y * y <= 2real,
    ;
}

proof fn lemma_power_of_sides(
    x: real,
    cos: real,
    sin: real,
    left: real,
    right: real,
    tolerance: real,
    error: real,
)
    requires
        magnitude(x) <= 1real,
        magnitude(cos) <= 2real,
        magnitude(sin) <= 2real,
        is_within(cos * cos + sin * sin, 1real, tolerance),
        is_within(left, x * cos, error),
        is_within(right, x * sin, error),
    ensures
        is_within(
            left * left + right * right,
            x * x,
            tolerance + 8real * error + 2real * error * error,
        ),
{
    let a = left - x * cos;
    let b = right - x * sin;
    let off = cos * cos + sin * sin - 1real;
    lemma_product_is_bounded(x, x, 1real, 1real);
    lemma_product_is_bounded(x * x, off, 1real, tolerance);
    lemma_product_is_bounded(x, cos, 1real, 2real);
    lemma_product_is_bounded(x, sin, 1real, 2real);
    lemma_product_is_bounded(x * cos, a, 2real, error);
    lemma_product_is_bounded(x * sin, b, 2real, error);
    lemma_product_is_bounded(a, a, error, error);
    lemma_product_is_bounded(b, b, error, error);
    assert(left * left == (x * cos) * (x * cos) + 2real * ((x * cos) * a) + a * a)
        by (nonlinear_arith)
        requires
            left == x * cos + a,
    ;
    assert(right * right == (x * sin) * (x * sin) + 2real * ((x * sin) * b) + b * b)
        by (nonlinear_arith)
        requires
            right == x * sin + b,
    ;
    assert((x * cos) * (x * cos) + (x * sin) * (x * sin) == x * x + (x * x) * off)
        by (nonlinear_arith)
        requires
            off == cos * cos + sin * sin - 1real,
    ;
    assert(2real * error * error == 2real * (error * error)) by (nonlinear_arith);
}

/// The angle of the position -1 is 0, of which the cosine is 1 and the sine 0.
/// That the angle comes out as 0 is IEEE arithmetic; its cosine and sine are
/// assumed.
pub open spec fn left_end_is_exact<N: Scalar>() -> bool {
    forall|pan: N, theta: N|
        evaluates(lit(ONE).negated(), pan) && #[trigger] evaluates(pan_angle(pan), theta) ==> {
            &&& forall|c: N| #[trigger]
                call_ensures(N::cosine, (theta,), c) ==> call_ensures(N::from_bits, (ONE,), c)
            &&& forall|s: N| #[trigger] call_ensures(N::sine, (theta,), s) ==> is_zero(s)
        }
}

/// At the angle of the position 1 the cosine is no more than `tolerance` off 0, and
/// the sine off 1.
pub open spec fn right_end_is_close<N: Scalar>(reading: Reading<N>, tolerance: real) -> bool {
    forall|pan: N, theta: N|
        evaluates(lit(ONE), pan) && #[trigger] evaluates(pan_angle(pan), theta) ==> {
            &&& forall|c: N| #[trigger]
                call_ensures(N::cosine, (theta,), c) ==> is_within(
                    reading.of(c),
                    0real,
                    tolerance,
                )
            &&& forall|s: N| #[trigger]
                call_ensures(N::sine, (theta,), s) ==> is_within(reading.of(s), 1real, tolerance)
        }
}

/// At the angle of the position 0 cosine and sine are the same number.
pub open spec fn center_is_exact<N: Scalar>() -> bool {
    forall|pan: N, theta: N, c: N, s: N|
        evaluates(lit(ZERO), pan) && #[trigger] evaluates(pan_angle(pan), theta)
            && #[trigger] call_ensures(N::cosine, (theta,), c) && #[trigger] call_ensures(
            N::sine,
            (theta,),
            s,
        ) ==> c == s
}

/// Hard left leaves the sample as it is on the left, and silence on the right.
pub proof fn law_hard_left_silences_right<N: Scalar>(sample: N, pan: N, sides: (N, N))
    requires
        repeatable::<N>(),
        one_is_neutral::<N>(),
        zero_annihilates::<N>(),
        left_end_is_exact::<N>(),
        evaluates(lit(ONE).negated(), pan),
        is_finite(sample),
        panned(sample, pan, sides),
    ensures
        sides.0 == sample,
        is_zero(sides.1),
{
    let (theta, c, s) = lemma_sides(sample, pan, sides);
}

/// Hard right leaves the sample as it is on the right and silence on the left, but
/// for rounding. The angle nearest to a right angle is not quite one, so the left side
/// is not quite 0.
pub proof fn law_hard_right_silences_left<N: Scalar>(
    reading: Reading<N>,
    tolerance: real,
    sample: N,
    pan: N,
    sides: (N, N),
)
    requires
        repeatable::<N>(),
        reading.is_accurate(),
        reading.bound >= 2real,
        tolerance <= 1real,
        right_end_is_close(reading, tolerance),
        evaluates(lit(ONE), pan),
        magnitude(reading.of(sample)) <= 1real,
        panned(sample, pan, sides),
    ensures
        is_within(reading.of(sides.0), 0real, tolerance + reading.error),
        is_within(reading.of(sides.1), reading.of(sample), tolerance + reading.error),
{
    let (theta, c, s) = lemma_sides(sample, pan, sides);
    let x = reading.of(sample);
    lemma_product_is_bounded(x, reading.of(c), 1real, tolerance);
    lemma_product_is_bounded(x, reading.of(s), 1real, 2real);
    lemma_product_is_bounded(x, reading.of(s) - 1real, 1real, tolerance);
    assert(x * (reading.of(s) - 1real) == x * reading.of(s) - x) by (nonlinear_arith);
}

/// The center gives both sides the same.
pub proof fn law_center_is_even<N: Scalar>(sample: N, pan: N, sides: (N, N))
    requires
        repeatable::<N>(),
        center_is_exact::<N>(),
        evaluates(lit(ZERO), pan),
        panned(sample, pan, sides),
    ensures
        sides.0 == sides.1,
{
    let (theta, c, s) = lemma_sides(sample, pan, sides);
}

} // verus!
