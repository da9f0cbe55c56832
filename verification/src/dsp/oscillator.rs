//! The sine oscillator.

use vstd::prelude::*;

use crate::formula::{evaluates, law_formula_has_one_value, lit, val, Formula};
use crate::reading::{is_within, lemma_product_is_bounded, lemma_scaled_error, Reading};
use crate::scalar::{
    in_signal_range, is_finite, one_is_neutral, repeatable, sine_is_bounded, Scalar, ONE, TAU, TWO,
    ZERO,
};

verus! {

/// Cents in an octave: the binary32 encoding of 1200.
pub const CENTS_PER_OCTAVE: u32 = 0x4496_0000;

/// A phase-accumulator sine oscillator.
///
/// With each sample the phase advances by `phase_increment`; the output is the
/// sine of the phase. A sine is band-limited by itself.
pub struct SineOscillator<N> {
    /// Current phase in [0, 1). One full cycle is 1.0.
    pub phase: N,
    /// Phase added per sample: frequency / sample rate.
    pub phase_increment: N,
}

impl<N: Scalar> SineOscillator<N> {
    /// The oscillator is in its initial state: everything zero.
    pub open spec fn is_zeroed(self) -> bool {
        &&& evaluates(lit(ZERO), self.phase)
        &&& evaluates(lit(ZERO), self.phase_increment)
    }

    /// `post` is this oscillator tuned to `frequency`, its phase kept.
    pub open spec fn tuned(self, post: Self, frequency: N, sample_rate: N) -> bool {
        &&& post.phase == self.phase
        &&& evaluates(val(frequency).over(val(sample_rate)), post.phase_increment)
    }

    /// `post` is this oscillator one sample later, having handed out `out`: the
    /// sine of the phase before the sample; the phase moves by one increment,
    /// less one cycle if that brings it to a full cycle.
    pub open spec fn advanced(self, post: Self, out: N) -> bool {
        &&& evaluates(val(self.phase).times(lit(TAU)).sine(), out)
        &&& post.phase_increment == self.phase_increment
        &&& exists|moved: N, one: N, wraps: bool|
            {
                &&& #[trigger] call_ensures(N::is_at_least, (moved, one), wraps)
                &&& evaluates(val(self.phase).plus(val(self.phase_increment)), moved)
                &&& evaluates(lit(ONE), one)
                &&& if wraps {
                    evaluates(val(moved).minus(lit(ONE)), post.phase)
                } else {
                    post.phase == moved
                }
            }
    }

    /// Set the frequency, whenever the note or the sample rate changes. One
    /// subtraction wraps the phase as long as `frequency` is below `sample_rate`.
    pub fn set_frequency(&mut self, frequency: N, sample_rate: N)
        ensures
            old(self).tuned(*final(self), frequency, sample_rate),
    {
        proof {
            reveal_with_fuel(evaluates, 3);
        }
        self.phase_increment = frequency.over(sample_rate);
    }

    /// Move the phase pointer to `phase`.
    pub fn set_phase(&mut self, phase: N)
        ensures
            *final(self) == (SineOscillator { phase, ..*old(self) }),
    {
        self.phase = phase;
    }

    /// Return the sine at the current phase, and then move the phase by one
    /// increment.
    pub fn next_sample(&mut self) -> (out: N)
        ensures
            old(self).advanced(*final(self), out),
    {
        proof {
            reveal_with_fuel(evaluates, 4);
        }
        let sample = self.phase.times(N::from_bits(TAU)).sine();
        self.phase = self.phase.plus(self.phase_increment);
        if self.phase.is_at_least(N::from_bits(ONE)) {
            self.phase = self.phase.minus(N::from_bits(ONE));
        }
        sample
    }

    /// Zero the phase. The frequency stays.
    pub fn reset(&mut self)
        ensures
            evaluates(lit(ZERO), final(self).phase),
            final(self).phase_increment == old(self).phase_increment,
    {
        self.phase = N::from_bits(ZERO);
    }
}

impl<N: Scalar> Default for SineOscillator<N> {
    fn default() -> (osc: Self)
        ensures
            osc.is_zeroed(),
    {
        SineOscillator { phase: N::from_bits(ZERO), phase_increment: N::from_bits(ZERO) }
    }
}

/// A frequency raised by an interval: `base_freq * 2 ^ (cents / 1200)`.
pub open spec fn detuned<N>(base_freq: N, cents: N) -> Formula<N> {
    val(base_freq).times(detune_factor(cents))
}

/// Apply a fine-tune offset in cents to a base frequency. 1200 cents are an
/// octave.
pub fn apply_detune<N: Scalar>(base_freq: N, cents: N) -> (freq: N)
    ensures
        evaluates(detuned(base_freq, cents), freq),
{
    proof {
        reveal_with_fuel(evaluates, 5);
    }
    base_freq.times(N::from_bits(TWO).power(cents.over(N::from_bits(CENTS_PER_OCTAVE))))
}

/// An interval of 0 cents is 0 octaves, one of 1200 cents is 1 octave; 2 to the
/// power of 0 is 1, to the power of 1 is 2. The quotients are IEEE arithmetic; the
/// powers are assumed.
pub open spec fn octaves_are_exact<N: Scalar>() -> bool {
    &&& forall|cents: N, octaves: N, p: N|
        evaluates(lit(ZERO), cents) && #[trigger] evaluates(
            val(cents).over(lit(CENTS_PER_OCTAVE)),
            octaves,
        ) && #[trigger] evaluates(lit(TWO).power(val(octaves)), p) ==> evaluates(lit(ONE), p)
    &&& forall|cents: N, octaves: N, p: N|
        evaluates(lit(CENTS_PER_OCTAVE), cents) && #[trigger] evaluates(
            val(cents).over(lit(CENTS_PER_OCTAVE)),
            octaves,
        ) && #[trigger] evaluates(lit(TWO).power(val(octaves)), p) ==> evaluates(lit(TWO), p)
}

/// The factor by which an interval raises a frequency: `2 ^ (cents / 1200)`.
pub open spec fn detune_factor<N>(cents: N) -> Formula<N> {
    lit(TWO).power(val(cents).over(lit(CENTS_PER_OCTAVE)))
}

proof fn lemma_detune_factor<N: Scalar>(base_freq: N, cents: N, freq: N) -> (factor: N)
    requires
        evaluates(detuned(base_freq, cents), freq),
    ensures
        evaluates(detune_factor(cents), factor),
        call_ensures(N::times, (base_freq, factor), freq),
{
    let (x, factor) = choose|x: N, factor: N| #[trigger]
        call_ensures(N::times, (x, factor), freq) && evaluates(val(base_freq), x) && evaluates(
            detune_factor(cents),
            factor,
        );
    factor
}

proof fn lemma_octaves<N: Scalar>(cents: N, factor: N) -> (octaves: N)
    requires
        evaluates(detune_factor(cents), factor),
    ensures
        evaluates(val(cents).over(lit(CENTS_PER_OCTAVE)), octaves),
        evaluates(lit(TWO).power(val(octaves)), factor),
{
    let (two, octaves) = choose|two: N, octaves: N| #[trigger]
        call_ensures(N::power, (two, octaves), factor) && evaluates(lit(TWO), two) && evaluates(
            val(cents).over(lit(CENTS_PER_OCTAVE)),
            octaves,
        );
    assert(evaluates(val(octaves), octaves));
    octaves
}

/// 0 cents leave a frequency as it is.
pub proof fn law_zero_cents_is_identity<N: Scalar>(base_freq: N, cents: N, freq: N)
    requires
        octaves_are_exact::<N>(),
        one_is_neutral::<N>(),
        evaluates(lit(ZERO), cents),
        evaluates(detuned(base_freq, cents), freq),
    ensures
        freq == base_freq,
{
    let factor = lemma_detune_factor(base_freq, cents, freq);
    let octaves = lemma_octaves(cents, factor);
}

/// 1200 cents double a frequency.
pub proof fn law_octave_doubles<N: Scalar>(base_freq: N, cents: N, freq: N)
    requires
        octaves_are_exact::<N>(),
        evaluates(lit(CENTS_PER_OCTAVE), cents),
        evaluates(detuned(base_freq, cents), freq),
    ensures
        evaluates(val(base_freq).times(lit(TWO)), freq),
{
    let factor = lemma_detune_factor(base_freq, cents, freq);
    let octaves = lemma_octaves(cents, factor);
    assert(evaluates(val(base_freq), base_freq));
}

/// The factors of intervals multiply: that of two intervals is that of their sum,
/// but for a share of `tolerance`. Exact powers do; how close those of a number
/// type come is not IEEE arithmetic. The factors of intervals up to an octave are
/// at most 2.
pub open spec fn factors_multiply<N: Scalar>(
    reading: Reading<N>,
    tolerance: real,
    a: N,
    b: N,
    sum: N,
) -> bool {
    forall|p: N, q: N, r: N| #[trigger]
        evaluates(detune_factor(a), p) && #[trigger] evaluates(detune_factor(b), q)
            && #[trigger] evaluates(detune_factor(sum), r) ==> {
            &&& 0real < reading.of(p) <= 2real
            &&& 0real < reading.of(q) <= 2real
            &&& 0real < reading.of(r) <= 2real
            &&& is_within(
                reading.of(p) * reading.of(q),
                reading.of(r),
                tolerance * reading.of(r),
            )
        }
}

/// Two detunings in a row are one by the sum of the cents, but for rounding: a
/// share of twice `tolerance` of the frequency, and four errors of one operation.
pub proof fn law_detunings_add_up<N: Scalar>(
    reading: Reading<N>,
    tolerance: real,
    base_freq: N,
    a: N,
    b: N,
    sum: N,
    once: N,
    twice: N,
    at_once: N,
)
    requires
        reading.is_accurate(),
        0real <= tolerance <= 1real,
        0real < reading.of(base_freq),
        4real <= reading.bound,
        4real * (reading.of(base_freq) + reading.error) <= reading.bound,
        evaluates(val(a).plus(val(b)), sum),
        factors_multiply(reading, tolerance, a, b, sum),
        evaluates(detuned(base_freq, a), once),
        evaluates(detuned(once, b), twice),
        evaluates(detuned(base_freq, sum), at_once),
    ensures
        is_within(
            reading.of(twice),
            reading.of(at_once),
            2real * tolerance * reading.of(base_freq) + 4real * reading.error,
        ),
{
    let p = lemma_detune_factor(base_freq, a, once);
    let q = lemma_detune_factor(once, b, twice);
    let r = lemma_detune_factor(base_freq, sum, at_once);
    let f = reading.of(base_freq);
    let u = reading.error;
    let (vp, vq, vr) = (reading.of(p), reading.of(q), reading.of(r));
    let v1 = reading.of(once);
    assert(is_within(vp * vq, vr, tolerance * vr));
    // The first detuning.
    lemma_product_is_bounded(f, vp, f, 2real);
    assert(is_within(v1, f * vp, u));
    // The second one.
    lemma_product_is_bounded(v1, vq, 2real * f + u, 2real);
    assert((2real * f + u) * 2real == 4real * f + 2real * u) by (nonlinear_arith);
    assert(is_within(reading.of(twice), v1 * vq, u));
    lemma_scaled_error(vq, v1, f * vp, u, 2real);
    assert(vq * v1 == v1 * vq) by (nonlinear_arith);
    assert(vq * (f * vp) == f * (vp * vq)) by (nonlinear_arith);
    // Both at once.
    lemma_product_is_bounded(f, vr, f, 2real);
    assert(is_within(reading.of(at_once), f * vr, u));
    assert(tolerance * vr <= 2real * tolerance) by (nonlinear_arith)
        requires
            0real <= tolerance,
            vr <= 2real,
    ;
    lemma_scaled_error(f, vp * vq, vr, 2real * tolerance, f);
    assert(f * (2real * tolerance) == 2real * tolerance * f) by (nonlinear_arith);
}

/// Detuning by the opposite undoes a detuning, but for rounding.
pub proof fn law_opposite_detunings_cancel<N: Scalar>(
    reading: Reading<N>,
    tolerance: real,
    base_freq: N,
    a: N,
    b: N,
    zero: N,
    once: N,
    twice: N,
    at_once: N,
)
    requires
        reading.is_accurate(),
        octaves_are_exact::<N>(),
        one_is_neutral::<N>(),
        0real <= tolerance <= 1real,
        0real < reading.of(base_freq),
        4real <= reading.bound,
        4real * (reading.of(base_freq) + reading.error) <= reading.bound,
        evaluates(val(a).plus(val(b)), zero),
        evaluates(lit(ZERO), zero),
        factors_multiply(reading, tolerance, a, b, zero),
        evaluates(detuned(base_freq, a), once),
        evaluates(detuned(once, b), twice),
        evaluates(detuned(base_freq, zero), at_once),
    ensures
        is_within(
            reading.of(twice),
            reading.of(base_freq),
            2real * tolerance * reading.of(base_freq) + 4real * reading.error,
        ),
{
    law_zero_cents_is_identity(base_freq, zero, at_once);
    law_detunings_add_up(reading, tolerance, base_freq, a, b, zero, once, twice, at_once);
}

/// `x` never fails to answer that it is at least 0 and below 1.
pub open spec fn in_cycle<N: Scalar>(x: N) -> bool {
    &&& forall|zero: N|
        evaluates(lit(ZERO), zero) ==> !#[trigger] call_ensures(N::is_at_least, (x, zero), false)
    &&& forall|one: N|
        evaluates(lit(ONE), one) ==> !#[trigger] call_ensures(N::is_below, (x, one), false)
}

/// `frequency` never fails to answer that it is at least 0 and below the sample
/// rate.
pub open spec fn is_tunable<N: Scalar>(frequency: N, sample_rate: N) -> bool {
    &&& forall|zero: N|
        evaluates(lit(ZERO), zero) ==> !#[trigger] call_ensures(
            N::is_at_least,
            (frequency, zero),
            false,
        )
    &&& !call_ensures(N::is_below, (frequency, sample_rate), false)
}

/// The cycle is closed under the arithmetic of the oscillator: 0 lies in it; so
/// does the quotient of a frequency and a higher sample rate; the sum of two of
/// its members lies in it, or does so less 1 if it is at least 1; and the angle
/// of a member is finite. This is IEEE arithmetic: the quotient never rounds up
/// to 1, and the sum never rounds up to 2.
pub open spec fn cycle_is_closed<N: Scalar>() -> bool {
    &&& forall|zero: N| #[trigger] evaluates(lit(ZERO), zero) ==> in_cycle(zero)
    &&& forall|frequency: N, sample_rate: N, quotient: N|
        is_tunable(frequency, sample_rate) && #[trigger] evaluates(
            val(frequency).over(val(sample_rate)),
            quotient,
        ) ==> in_cycle(quotient)
    &&& forall|x: N, y: N, sum: N, one: N|
        in_cycle(x) && in_cycle(y) && #[trigger] call_ensures(N::plus, (x, y), sum) && evaluates(
            lit(ONE),
            one,
        ) && #[trigger] call_ensures(N::is_at_least, (sum, one), false) ==> in_cycle(sum)
    &&& forall|x: N, y: N, sum: N, one: N, one2: N, rest: N|
        in_cycle(x) && in_cycle(y) && #[trigger] call_ensures(N::plus, (x, y), sum) && evaluates(
            lit(ONE),
            one,
        ) && #[trigger] call_ensures(N::is_at_least, (sum, one), true) && evaluates(
            lit(ONE),
            one2,
        ) && #[trigger] call_ensures(N::minus, (sum, one2), rest) ==> in_cycle(rest)
    &&& forall|x: N, angle: N|
        in_cycle(x) && #[trigger] evaluates(val(x).times(lit(TAU)), angle) ==> is_finite(angle)
}

impl<N: Scalar> SineOscillator<N> {
    /// Some operation leads from this oscillator to `post`: a reset, a phase in
    /// [0, 1), a frequency from 0 to below the sample rate, or a sample.
    pub open spec fn leads_to(self, post: Self) -> bool {
        ||| evaluates(lit(ZERO), post.phase) && post.phase_increment == self.phase_increment
        ||| in_cycle(post.phase) && post.phase_increment == self.phase_increment
        ||| exists|frequency: N, sample_rate: N| #[trigger]
            self.tuned(post, frequency, sample_rate) && is_tunable(frequency, sample_rate)
        ||| exists|out: N| #[trigger] self.advanced(post, out)
    }

    /// `history` lists an oscillator from its initial state on, one operation
    /// after the other.
    pub open spec fn is_history(history: Seq<Self>) -> bool {
        &&& history.len() > 0
        &&& history[0].is_zeroed()
        &&& forall|i: int|
            0 < i < history.len() ==> history[i - 1].leads_to(#[trigger] history[i])
    }
}

/// A sample keeps the phase in [0, 1), and its output lies in [-1.0, 1.0].
pub proof fn law_sample_stays_in_cycle<N: Scalar>(
    pre: SineOscillator<N>,
    post: SineOscillator<N>,
    out: N,
)
    requires
        cycle_is_closed::<N>(),
        sine_is_bounded::<N>(),
        in_cycle(pre.phase),
        in_cycle(pre.phase_increment),
        pre.advanced(post, out),
    ensures
        in_cycle(post.phase),
        in_cycle(post.phase_increment),
        in_signal_range(out),
{
    reveal_with_fuel(evaluates, 3);
    let angle = choose|angle: N| #[trigger]
        call_ensures(N::sine, (angle,), out) && evaluates(val(pre.phase).times(lit(TAU)), angle);
    assert(is_finite(angle));
}

/// Whatever was done to an oscillator since its initial state, in whatever
/// order: its phase lies in [0, 1), and its next sample in [-1.0, 1.0].
pub proof fn law_oscillation_is_bounded<N: Scalar>(
    history: Seq<SineOscillator<N>>,
    i: int,
    post: SineOscillator<N>,
    out: N,
)
    requires
        cycle_is_closed::<N>(),
        sine_is_bounded::<N>(),
        SineOscillator::is_history(history),
        0 <= i < history.len(),
        history[i].advanced(post, out),
    ensures
        in_cycle(history[i].phase),
        in_cycle(post.phase),
        in_signal_range(out),
{
    lemma_history_stays_in_cycle(history, i);
    law_sample_stays_in_cycle(history[i], post, out);
}

proof fn lemma_history_stays_in_cycle<N: Scalar>(history: Seq<SineOscillator<N>>, i: int)
    requires
        cycle_is_closed::<N>(),
        sine_is_bounded::<N>(),
        SineOscillator::is_history(history),
        0 <= i < history.len(),
    ensures
        in_cycle(history[i].phase),
        in_cycle(history[i].phase_increment),
    decreases i,
{
    if i > 0 {
        let pre = history[i - 1];
        let post = history[i];
        lemma_history_stays_in_cycle(history, i - 1);
        assert(pre.leads_to(post));
        if exists|frequency: N, sample_rate: N| #[trigger]
            pre.tuned(post, frequency, sample_rate) && is_tunable(frequency, sample_rate) {
        } else if exists|out: N| #[trigger] pre.advanced(post, out) {
            let out = choose|out: N| #[trigger] pre.advanced(post, out);
            law_sample_stays_in_cycle(pre, post, out);
        }
    }
}

/// With repeatable arithmetic a sample of an oscillator leaves nothing open.
pub proof fn law_oscillation_is_repeatable<N: Scalar>(
    pre: SineOscillator<N>,
    post: SineOscillator<N>,
    out: N,
    post2: SineOscillator<N>,
    out2: N,
)
    requires
        repeatable::<N>(),
        pre.advanced(post, out),
        pre.advanced(post2, out2),
    ensures
        post == post2,
        out == out2,
{
    let sum = val(pre.phase).plus(val(pre.phase_increment));
    let (moved, one, wraps) = choose|moved: N, one: N, wraps: bool|
        {
            &&& #[trigger] call_ensures(N::is_at_least, (moved, one), wraps)
            &&& evaluates(sum, moved)
            &&& evaluates(lit(ONE), one)
            &&& if wraps {
                evaluates(val(moved).minus(lit(ONE)), post.phase)
            } else {
                post.phase == moved
            }
        };
    let (moved2, one2, wraps2) = choose|moved: N, one: N, wraps: bool|
        {
            &&& #[trigger] call_ensures(N::is_at_least, (moved, one), wraps)
            &&& evaluates(sum, moved)
            &&& evaluates(lit(ONE), one)
            &&& if wraps {
                evaluates(val(moved).minus(lit(ONE)), post2.phase)
            } else {
                post2.phase == moved
            }
        };
    law_formula_has_one_value(val(pre.phase).times(lit(TAU)).sine(), out, out2);
    law_formula_has_one_value(sum, moved, moved2);
    law_formula_has_one_value(lit(ONE), one, one2);
    assert(wraps == wraps2);
    if wraps {
        law_formula_has_one_value(val(moved).minus(lit(ONE)), post.phase, post2.phase);
    }
}

/// The phase counts cycles: in exact arithmetic, after `k` samples it is where it began
/// plus `k` increments, less a whole number of cycles.
pub proof fn law_phase_counts_cycles<N: Scalar>(
    reading: Reading<N>,
    trace: Seq<SineOscillator<N>>,
    outs: Seq<N>,
    k: nat,
) -> (cycles: nat)
    requires
        reading.is_exact(),
        trace.len() == outs.len() + 1,
        forall|i: int|
            0 <= i < outs.len() ==> trace[i].advanced(trace[i + 1], #[trigger] outs[i]),
        k < trace.len(),
    ensures
        reading.of(trace[k as int].phase) == reading.of(trace[0].phase) + k as real * reading.of(
            trace[0].phase_increment,
        ) - cycles as real,
        cycles <= k,
        trace[k as int].phase_increment == trace[0].phase_increment,
    decreases k,
{
    let step = reading.of(trace[0].phase_increment);
    if k == 0 {
        assert(0real * step == 0real) by (nonlinear_arith);
        0
    } else {
        let j = (k - 1) as nat;
        let before = law_phase_counts_cycles(reading, trace, outs, j);
        let (pre, post) = (trace[j as int], trace[k as int]);
        assert(pre.advanced(trace[j as int + 1], outs[j as int]));
        let (moved, one, wraps) = choose|moved: N, one: N, wraps: bool|
            {
                &&& #[trigger] call_ensures(N::is_at_least, (moved, one), wraps)
                &&& evaluates(val(pre.phase).plus(val(pre.phase_increment)), moved)
                &&& evaluates(lit(ONE), one)
                &&& if wraps {
                    evaluates(val(moved).minus(lit(ONE)), post.phase)
                } else {
                    post.phase == moved
                }
            };
        let (x, y) = choose|x: N, y: N| #[trigger]
            call_ensures(N::plus, (x, y), moved) && evaluates(val(pre.phase), x) && evaluates(
                val(pre.phase_increment),
                y,
            );
        assert(reading.of(moved) == reading.of(pre.phase) + step);
        assert(k as real == j as real + 1real);
        assert((j as real + 1real) * step == j as real * step + step) by (nonlinear_arith);
        if wraps {
            let (m, one2) = choose|m: N, one2: N| #[trigger]
                call_ensures(N::minus, (m, one2), post.phase) && evaluates(val(moved), m)
                    && evaluates(lit(ONE), one2);
            assert(reading.of(post.phase) == reading.of(moved) - 1real);
            assert((before + 1) as nat as real == before as real + 1real);
            (before + 1) as nat
        } else {
            before
        }
    }
}

} // verus!
