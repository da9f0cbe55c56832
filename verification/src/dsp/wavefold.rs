//! The sine wavefolder.

use vstd::prelude::*;

use crate::formula::{evaluates, law_formula_has_one_value, lit, val, Formula};
use crate::reading::Reading;
use crate::scalar::{
    in_signal_range, is_finite, repeatable, sine_is_bounded, Scalar, ONE, PI, ZERO,
};

verus! {

/// Drive of the folder at full amount, as a multiple of pi: the binary32
/// encoding of 4. A unit sine then folds back on itself about four times per
/// half-cycle.
pub const MAX_DRIVE_IN_PI: u32 = 0x4080_0000;

/// The drive: goes linearly from 1 to four pi with the amount, which counts as at
/// most 1.
pub open spec fn drive_of<N>(fold: N) -> Formula<N> {
    let max_drive = lit(MAX_DRIVE_IN_PI).times(lit(PI));
    lit(ONE).plus(val(fold).lesser(lit(ONE)).times(max_drive.minus(lit(ONE))))
}

/// The input times the drive.
pub open spec fn driven<N>(input: N, fold: N) -> Formula<N> {
    val(input).times(drive_of(fold))
}

/// The folded signal: the sine of the driven input.
pub open spec fn folded<N>(input: N, fold: N) -> Formula<N> {
    driven(input, fold).sine()
}

/// `out` is the input itself where the amount is at most 0, else the folded
/// signal.
pub open spec fn is_folded<N: Scalar>(input: N, fold: N, out: N) -> bool {
    exists|zero: N, bypass: bool|
        {
            &&& #[trigger] call_ensures(N::is_at_most, (fold, zero), bypass)
            &&& evaluates(lit(ZERO), zero)
            &&& if bypass {
                out == input
            } else {
                evaluates(folded(input, fold), out)
            }
        }
}

/// Apply a sine wavefolder to a signal.
///
/// - `fold` at most 0: bypass, returns `input` unchanged.
/// - `fold` 1: maximum folding.
pub fn wavefold<N: Scalar>(input: N, fold: N) -> (out: N)
    ensures
        is_folded(input, fold, out),
{
    proof {
        reveal_with_fuel(evaluates, 8);
    }
    // The sine of the input itself is not the input: bypass hands it through.
    if fold.is_at_most(N::from_bits(ZERO)) {
        return input;
    }
    // Hold the amount so that the drive never exceeds its maximum.
    let amount = fold.lesser(N::from_bits(ONE));
    let max_drive = N::from_bits(MAX_DRIVE_IN_PI).times(N::from_bits(PI));
    let drive = N::from_bits(ONE).plus(amount.times(max_drive.minus(N::from_bits(ONE))));
    input.times(drive).sine()
}

/// An amount that is surely at most 0 leaves every input as it is.
pub proof fn law_no_fold_is_identity<N: Scalar>(input: N, fold: N, out: N)
    requires
        is_folded(input, fold, out),
        forall|zero: N|
            evaluates(lit(ZERO), zero) ==> !#[trigger] call_ensures(
                N::is_at_most,
                (fold, zero),
                false,
            ),
    ensures
        out == input,
{
}

/// An amount that is not at most 0 drives a signal between -1 and 1 to a finite
/// angle. This is IEEE arithmetic, since the drive is at most four pi.
pub open spec fn drive_is_finite<N: Scalar>() -> bool {
    forall|input: N, fold: N, zero: N, angle: N|
        in_signal_range(input) && #[trigger] call_ensures(N::is_at_most, (fold, zero), false)
            && evaluates(lit(ZERO), zero) && #[trigger] evaluates(driven(input, fold), angle)
            ==> is_finite(angle)
}

/// The output of the folder stays in [-1.0, 1.0] where the input does, whatever
/// the amount.
pub proof fn law_folding_is_bounded<N: Scalar>(input: N, fold: N, out: N)
    requires
        sine_is_bounded::<N>(),
        drive_is_finite::<N>(),
        in_signal_range(input),
        is_folded(input, fold, out),
    ensures
        in_signal_range(out),
{
    if evaluates(folded(input, fold), out) {
        let angle = choose|angle: N| #[trigger]
            call_ensures(N::sine, (angle,), out) && evaluates(driven(input, fold), angle);
        assert(is_finite(angle) || out == input);
    }
}

/// The amount counts as 1: it is not at most 0, and the lesser of it and 1 is 1.
/// Over binary32 these are 1, every amount above, and what is not a number.
pub open spec fn is_full_amount<N: Scalar>(fold: N) -> bool {
    &&& forall|zero: N|
        evaluates(lit(ZERO), zero) ==> !#[trigger] call_ensures(N::is_at_most, (fold, zero), true)
    &&& forall|one: N, amount: N|
        evaluates(lit(ONE), one) && #[trigger] call_ensures(N::lesser, (fold, one), amount)
            ==> amount == one
}

/// An amount above 1 acts as 1: the drive never exceeds its maximum.
pub proof fn law_full_amounts_fold_alike<N: Scalar>(
    input: N,
    fold: N,
    other_fold: N,
    out: N,
    other_out: N,
)
    requires
        repeatable::<N>(),
        is_full_amount(fold),
        is_full_amount(other_fold),
        is_folded(input, fold, out),
        is_folded(input, other_fold, other_out),
    ensures
        out == other_out,
{
    let max_drive = lit(MAX_DRIVE_IN_PI).times(lit(PI));
    let drive = lit(ONE).plus(lit(ONE).times(max_drive.minus(lit(ONE))));
    let full = val(input).times(drive).sine();
    assert(evaluates(full, out)) by {
        reveal_with_fuel(evaluates, 6);
    }
    assert(evaluates(full, other_out)) by {
        reveal_with_fuel(evaluates, 6);
    }
    law_formula_has_one_value(full, out, other_out);
}

/// Negating an operand of a product that is finite negates the product, and
/// negating a finite angle negates its sine. Of the product this is IEEE
/// arithmetic; of the sine it is assumed.
pub open spec fn negation_carries_over<N: Scalar>() -> bool {
    &&& forall|x: N, minus_x: N, y: N, p: N, q: N|
        call_ensures(N::negated, (x,), minus_x) && #[trigger] call_ensures(N::times, (x, y), p)
            && #[trigger] call_ensures(N::times, (minus_x, y), q) && is_finite(p) ==> call_ensures(
            N::negated,
            (p,),
            q,
        )
    &&& forall|x: N, minus_x: N, p: N, q: N|
        call_ensures(N::negated, (x,), minus_x) && #[trigger] call_ensures(N::sine, (x,), p)
            && #[trigger] call_ensures(N::sine, (minus_x,), q) && is_finite(x) ==> call_ensures(
            N::negated,
            (p,),
            q,
        )
}

/// The folder is odd: where the driven input is a finite angle, the negated input
/// comes out as the negated output.
pub proof fn law_folding_is_odd<N: Scalar>(
    input: N,
    minus_input: N,
    fold: N,
    out: N,
    minus_out: N,
)
    requires
        repeatable::<N>(),
        negation_carries_over::<N>(),
        call_ensures(N::negated, (input,), minus_input),
        forall|angle: N| #[trigger]
            evaluates(driven(input, fold), angle) ==> is_finite(angle),
        is_folded(input, fold, out),
        is_folded(minus_input, fold, minus_out),
    ensures
        call_ensures(N::negated, (out,), minus_out),
{
    assert forall|x: N, y: N| #[trigger]
        evaluates(lit(ZERO), x) && #[trigger] evaluates(lit(ZERO), y) implies x == y by {
        law_formula_has_one_value(lit(ZERO), x, y);
    }
    if evaluates(folded(input, fold), out) && evaluates(folded(minus_input, fold), minus_out) {
        let drive = drive_of(fold);
        let angle = choose|angle: N| #[trigger]
            call_ensures(N::sine, (angle,), out) && evaluates(driven(input, fold), angle);
        let minus_angle = choose|angle: N| #[trigger]
            call_ensures(N::sine, (angle,), minus_out) && evaluates(
                driven(minus_input, fold),
                angle,
            );
        let (x, d) = choose|x: N, d: N| #[trigger]
            call_ensures(N::times, (x, d), angle) && evaluates(val(input), x) && evaluates(
                drive,
                d,
            );
        let (y, e) = choose|y: N, e: N| #[trigger]
            call_ensures(N::times, (y, e), minus_angle) && evaluates(val(minus_input), y)
                && evaluates(drive, e);
        law_formula_has_one_value(drive, d, e);
        assert(call_ensures(N::negated, (angle,), minus_angle));
    }
}

/// With repeatable arithmetic the folder leaves nothing open.
pub proof fn law_folding_is_repeatable<N: Scalar>(input: N, fold: N, out: N, out2: N)
    requires
        repeatable::<N>(),
        is_folded(input, fold, out),
        is_folded(input, fold, out2),
    ensures
        out == out2,
{
    let (zero, bypass) = choose|zero: N, bypass: bool|
        {
            &&& #[trigger] call_ensures(N::is_at_most, (fold, zero), bypass)
            &&& evaluates(lit(ZERO), zero)
            &&& if bypass {
                out == input
            } else {
                evaluates(folded(input, fold), out)
            }
        };
    let (zero2, bypass2) = choose|zero: N, bypass: bool|
        {
            &&& #[trigger] call_ensures(N::is_at_most, (fold, zero), bypass)
            &&& evaluates(lit(ZERO), zero)
            &&& if bypass {
                out2 == input
            } else {
                evaluates(folded(input, fold), out2)
            }
        };
    law_formula_has_one_value(lit(ZERO), zero, zero2);
    assert(bypass == bypass2);
    if !bypass {
        law_formula_has_one_value(folded(input, fold), out, out2);
    }
}

/// The drive grows evenly with the amount: in exact arithmetic the output is the sine
/// of the input times a factor that goes from 1 at no amount to four pi at full
/// amount, and no further.
pub proof fn law_drive_grows_evenly<N: Scalar>(
    reading: Reading<N>,
    pi: real,
    input: N,
    fold: N,
    out: N,
) -> (angle: N)
    requires
        reading.is_exact(),
        forall|x: N| #[trigger] evaluates(lit(PI), x) ==> reading.of(x) == pi,
        forall|x: N| #[trigger] evaluates(lit(MAX_DRIVE_IN_PI), x) ==> reading.of(x) == 4real,
        forall|zero: N|
            evaluates(lit(ZERO), zero) ==> !#[trigger] call_ensures(
                N::is_at_most,
                (fold, zero),
                true,
            ),
        is_folded(input, fold, out),
    ensures
        call_ensures(N::sine, (angle,), out),
        reading.of(fold) <= 1real ==> reading.of(angle) == reading.of(input) * (1real + reading.of(
            fold,
        ) * (4real * pi - 1real)),
        reading.of(fold) >= 1real ==> reading.of(angle) == reading.of(input) * (4real * pi),
{
    let angle = choose|angle: N| #[trigger]
        call_ensures(N::sine, (angle,), out) && evaluates(driven(input, fold), angle);
    let most: Formula<N> = lit(MAX_DRIVE_IN_PI).times(lit(PI));
    let (x, d) = choose|x: N, d: N| #[trigger]
        call_ensures(N::times, (x, d), angle) && evaluates(val(input), x) && evaluates(
            drive_of(fold),
            d,
        );
    let (one, p) = choose|one: N, p: N| #[trigger]
        call_ensures(N::plus, (one, p), d) && evaluates(lit(ONE), one) && evaluates(
            val(fold).lesser(lit(ONE)).times(most.minus(lit(ONE))),
            p,
        );
    let (a, w) = choose|a: N, w: N| #[trigger]
        call_ensures(N::times, (a, w), p) && evaluates(val(fold).lesser(lit(ONE)), a)
            && evaluates(most.minus(lit(ONE)), w);
    let (f, one2) = choose|f: N, one2: N| #[trigger]
        call_ensures(N::lesser, (f, one2), a) && evaluates(val(fold), f) && evaluates(
            lit(ONE),
            one2,
        );
    let (m, one3) = choose|m: N, one3: N| #[trigger]
        call_ensures(N::minus, (m, one3), w) && evaluates(most, m) && evaluates(lit(ONE), one3);
    let (four, pi2) = choose|four: N, pi2: N| #[trigger]
        call_ensures(N::times, (four, pi2), m) && evaluates(lit(MAX_DRIVE_IN_PI), four)
            && evaluates(lit(PI), pi2);
    assert(reading.of(w) == 4real * pi - 1real);
    if reading.of(fold) >= 1real {
        assert(reading.of(a) == 1real);
        assert(1real * (4real * pi - 1real) == 4real * pi - 1real) by (nonlinear_arith);
    }
    angle
}

} // verus!
