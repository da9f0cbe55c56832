//! The lowpass gate: a state variable filter whose cutoff follows the envelope.

use vstd::prelude::*;

use crate::formula::{
    evaluates, law_formula_has_one_value, lemma_minus_carries_over, lemma_over_carries_over,
    lemma_plus_carries_over, lemma_times_carries_over, lit, val, Formula,
};
use crate::reading::{
    is_within, is_worth, lemma_difference_is_worth, lemma_product_is_bounded,
    lemma_product_is_worth, lemma_quotient_is_worth, lemma_scaled_error, lemma_sum_is_worth,
    Growth, Reading,
};
use crate::scalar::{
    clamp, clamped, is_finite, one_is_neutral, repeatable, Scalar, ONE, PI, TWO, ZERO,
};

verus! {

/// Lowest cutoff frequency that the filter accepts: 20 Hz. Keeps clear of
/// near-DC operation. The binary32 encoding of the number.
pub const MIN_CUTOFF_HZ: u32 = 0x41a0_0000;

/// The logarithm of the lowest cutoff, 2.9957323: computed ahead, because it is
/// needed for every sample. The binary32 encoding of the number.
pub const LOG_MIN_CUTOFF: u32 = 0x403f_ba14;

/// Highest cutoff frequency that the filter accepts: 20 kHz. The binary32
/// encoding of the number.
pub const MAX_CUTOFF_HZ: u32 = 0x469c_4000;

/// Butterworth Q, 1/sqrt(2): flat passband, no resonant peak. The binary32
/// encoding of the number.
pub const Q_MIN: u32 = 0x3f35_04f3;

/// Maximum Q, 20: near self-oscillation. The binary32 encoding of the number.
pub const Q_MAX: u32 = 0x41a0_0000;

/// Fraction of the sample rate used as the upper limit of the cutoff, 0.498: a
/// little below one half, where the tangent diverges. The binary32 encoding of
/// the number.
pub const NYQUIST_LIMIT_RATIO: u32 = 0x3efe_f9db;

/// A topology-preserving state variable filter with a lowpass output.
///
/// It stays stable when the coefficients change from sample to sample, as they
/// do in a lowpass gate: the two states stand for the capacitor voltages of an
/// analog circuit.
pub struct SvfFilter<N> {
    /// First integrator state (bandpass path).
    pub ic1eq: N,
    /// Second integrator state (lowpass path).
    pub ic2eq: N,
}

/// The upper limit of the cutoff: just below half the sample rate, and never
/// above the highest frequency.
pub open spec fn cutoff_limit<N>(sample_rate: N) -> Formula<N> {
    val(sample_rate).times(lit(NYQUIST_LIMIT_RATIO)).lesser(lit(MAX_CUTOFF_HZ))
}

/// The cutoff of the analog prototype: `tan(pi * fc / sample_rate)`, with the
/// cutoff held between the lowest frequency and its upper limit.
pub open spec fn warped_cutoff<N>(cutoff_hz: N, sample_rate: N) -> Formula<N> {
    let fc = val(cutoff_hz).clamp(lit(MIN_CUTOFF_HZ), cutoff_limit(sample_rate));
    lit(PI).times(fc).over(val(sample_rate)).tangent()
}

/// The first coefficient: `1 / (1 + g * (g + 1/q))` for the warped cutoff `g`.
pub open spec fn damping<N>(cutoff_hz: N, q: N, sample_rate: N) -> Formula<N> {
    let g = warped_cutoff(cutoff_hz, sample_rate);
    let k = lit(ONE).over(val(q));
    lit(ONE).over(lit(ONE).plus(g.times(g.plus(k))))
}

impl<N: Scalar> SvfFilter<N> {
    /// Both states are zero.
    pub open spec fn is_zeroed(self) -> bool {
        &&& evaluates(lit(ZERO), self.ic1eq)
        &&& evaluates(lit(ZERO), self.ic2eq)
    }

    /// The bandpass output: `a1 * ic1 + a2 * (input - ic2)`.
    pub open spec fn bandpass(self, input: N, cutoff_hz: N, q: N, sample_rate: N) -> Formula<N> {
        let g = warped_cutoff(cutoff_hz, sample_rate);
        let a1 = damping(cutoff_hz, q, sample_rate);
        let a2 = g.times(a1);
        let v3 = val(input).minus(val(self.ic2eq));
        a1.times(val(self.ic1eq)).plus(a2.times(v3))
    }

    /// The lowpass output: `ic2 + a2 * ic1 + a3 * (input - ic2)`.
    pub open spec fn lowpass(self, input: N, cutoff_hz: N, q: N, sample_rate: N) -> Formula<N> {
        let g = warped_cutoff(cutoff_hz, sample_rate);
        let a1 = damping(cutoff_hz, q, sample_rate);
        let a2 = g.times(a1);
        let a3 = g.times(a2);
        let v3 = val(input).minus(val(self.ic2eq));
        val(self.ic2eq).plus(a2.times(val(self.ic1eq))).plus(a3.times(v3))
    }

    /// `post` is this filter one sample later, having turned `input` into `out`:
    /// the output is the lowpass, and each state is reflected at its output.
    pub open spec fn processed(
        self,
        post: Self,
        input: N,
        cutoff_hz: N,
        q: N,
        sample_rate: N,
        out: N,
    ) -> bool {
        &&& evaluates(self.lowpass(input, cutoff_hz, q, sample_rate), out)
        &&& evaluates(
            lit(TWO).times(self.bandpass(input, cutoff_hz, q, sample_rate)).minus(val(self.ic1eq)),
            post.ic1eq,
        )
        &&& evaluates(lit(TWO).times(val(out)).minus(val(self.ic2eq)), post.ic2eq)
    }

    /// Process one sample through the lowpass output, with coefficients
    /// computed for this sample.
    ///
    /// - `input`: audio sample
    /// - `cutoff_hz`: cutoff frequency in Hz
    /// - `q`: quality factor
    /// - `sample_rate`: sample rate in Hz
    pub fn process(&mut self, input: N, cutoff_hz: N, q: N, sample_rate: N) -> (out: N)
        ensures
            old(self).processed(*final(self), input, cutoff_hz, q, sample_rate, out),
    {
        proof {
            reveal_with_fuel(evaluates, 17);
        }
        // Hold the cutoff below half the sample rate, where the tangent diverges,
        // and to the highest frequency.
        let limit = sample_rate.times(N::from_bits(NYQUIST_LIMIT_RATIO)).lesser(
            N::from_bits(MAX_CUTOFF_HZ),
        );
        let fc = clamp(cutoff_hz, N::from_bits(MIN_CUTOFF_HZ), limit);

        // Bilinear transform: maps the analog cutoff to the digital domain.
        let g = N::from_bits(PI).times(fc).over(sample_rate).tangent();

        // Lower Q means more damping and a flatter response.
        let k = N::from_bits(ONE).over(q);

        let a1 = N::from_bits(ONE).over(N::from_bits(ONE).plus(g.times(g.plus(k))));
        let a2 = g.times(a1);
        let a3 = g.times(a2);

        // The delay-free loop, solved analytically.
        let v3 = input.minus(self.ic2eq);
        let v1 = a1.times(self.ic1eq).plus(a2.times(v3));
        let v2 = self.ic2eq.plus(a2.times(self.ic1eq)).plus(a3.times(v3));

        self.ic1eq = N::from_bits(TWO).times(v1).minus(self.ic1eq);
        self.ic2eq = N::from_bits(TWO).times(v2).minus(self.ic2eq);

        v2
    }

    /// Zero both states.
    pub fn reset(&mut self)
        ensures
            final(self).is_zeroed(),
    {
        self.ic1eq = N::from_bits(ZERO);
        self.ic2eq = N::from_bits(ZERO);
    }
}

impl<N: Scalar> Default for SvfFilter<N> {
    fn default() -> (filter: Self)
        ensures
            filter.is_zeroed(),
    {
        SvfFilter { ic1eq: N::from_bits(ZERO), ic2eq: N::from_bits(ZERO) }
    }
}

/// The cutoff of the lowpass gate, interpolated in log-frequency between the
/// lowest frequency and `max_cutoff` by the envelope level, and blended by the depth:
/// `exp((1 - depth) * ln(max) + depth * (ln(min) + env * (ln(max) - ln(min))))`.
pub open spec fn gate_cutoff<N>(env_level: N, lpg_depth: N, max_cutoff: N) -> Formula<N> {
    open_share(lpg_depth, max_cutoff).plus(
        val(lpg_depth).times(swept_log(env_level, max_cutoff)),
    ).exponential()
}

/// The logarithm of the cutoff that follows the envelope all the way:
/// `ln(min) + env * (ln(max) - ln(min))`.
pub open spec fn swept_log<N>(env_level: N, max_cutoff: N) -> Formula<N> {
    lit(LOG_MIN_CUTOFF).plus(val(env_level).times(log_span(max_cutoff)))
}

/// The logarithmic width of the sweep: `ln(max) - ln(min)`.
pub open spec fn log_span<N>(max_cutoff: N) -> Formula<N> {
    val(max_cutoff).logarithm().minus(lit(LOG_MIN_CUTOFF))
}

/// The share of the open cutoff in the blend: `(1 - depth) * ln(max)`.
pub open spec fn open_share<N>(lpg_depth: N, max_cutoff: N) -> Formula<N> {
    lit(ONE).minus(val(lpg_depth)).times(val(max_cutoff).logarithm())
}

/// Compute the cutoff frequency of the lowpass gate from the envelope level.
///
/// Depth 0 leaves the cutoff at `max_cutoff`; depth 1 sweeps it from the lowest
/// frequency to `max_cutoff` as the envelope opens.
pub fn compute_lpg_cutoff<N: Scalar>(env_level: N, lpg_depth: N, max_cutoff: N) -> (cutoff: N)
    ensures
        evaluates(gate_cutoff(env_level, lpg_depth, max_cutoff), cutoff),
{
    proof {
        reveal_with_fuel(evaluates, 8);
    }
    let log_max = max_cutoff.logarithm();

    let log_modulated = N::from_bits(LOG_MIN_CUTOFF).plus(
        env_level.times(log_max.minus(N::from_bits(LOG_MIN_CUTOFF))),
    );

    let log_fc = N::from_bits(ONE).minus(lpg_depth).times(log_max).plus(
        lpg_depth.times(log_modulated),
    );

    log_fc.exponential()
}

/// The Q of a resonance: `Q_MIN * (Q_MAX / Q_MIN) ^ resonance`.
pub open spec fn quality<N>(resonance: N) -> Formula<N> {
    lit(Q_MIN).times(quality_power(resonance))
}

/// Map the resonance parameter (0 to 1) to Q, exponentially, for a perceptually
/// even spread from `Q_MIN` to `Q_MAX`.
pub fn resonance_to_q<N: Scalar>(resonance: N) -> (q: N)
    ensures
        evaluates(quality(resonance), q),
{
    proof {
        reveal_with_fuel(evaluates, 5);
    }
    let q_ratio = N::from_bits(Q_MAX).over(N::from_bits(Q_MIN));
    N::from_bits(Q_MIN).times(q_ratio.power(resonance))
}

/// With repeatable arithmetic a sample of the filter leaves nothing open.
pub proof fn law_filtering_is_repeatable<N: Scalar>(
    pre: SvfFilter<N>,
    input: N,
    cutoff_hz: N,
    q: N,
    sample_rate: N,
    post: SvfFilter<N>,
    out: N,
    post2: SvfFilter<N>,
    out2: N,
)
    requires
        repeatable::<N>(),
        pre.processed(post, input, cutoff_hz, q, sample_rate, out),
        pre.processed(post2, input, cutoff_hz, q, sample_rate, out2),
    ensures
        post == post2,
        out == out2,
{
    law_formula_has_one_value(pre.lowpass(input, cutoff_hz, q, sample_rate), out, out2);
    law_formula_has_one_value(
        lit(TWO).times(pre.bandpass(input, cutoff_hz, q, sample_rate)).minus(val(pre.ic1eq)),
        post.ic1eq,
        post2.ic1eq,
    );
    law_formula_has_one_value(
        lit(TWO).times(val(out)).minus(val(pre.ic2eq)),
        post.ic2eq,
        post2.ic2eq,
    );
}

/// The two ends of the range of the cutoff are in order: neither answers that it
/// is below the lower end or above the upper one. Over binary32 this is so at
/// every sample rate of which 0.498 is at least 20 Hz.
pub open spec fn range_is_ordered<N: Scalar>(sample_rate: N) -> bool {
    forall|lo: N, hi: N| #[trigger]
        evaluates(lit(MIN_CUTOFF_HZ), lo) && #[trigger] evaluates(cutoff_limit(sample_rate), hi)
            ==> {
            &&& !call_ensures(N::is_below, (lo, lo), true)
            &&& !call_ensures(N::is_above, (lo, hi), true)
            &&& !call_ensures(N::is_below, (hi, lo), true)
            &&& !call_ensures(N::is_above, (hi, hi), true)
        }
}

/// `held` is the cutoff held to its range: 20 Hz where it is below, the upper
/// limit where it is above, else the cutoff itself.
pub open spec fn is_held_cutoff<N: Scalar>(cutoff_hz: N, sample_rate: N, held: N) -> bool {
    evaluates(
        val(cutoff_hz).clamp(lit(MIN_CUTOFF_HZ), cutoff_limit(sample_rate)),
        held,
    )
}

/// A cutoff outside its range acts as the nearer end: below 20 Hz as 20 Hz, above
/// the upper limit, which is at most 20 kHz, as that limit.
pub proof fn law_cutoff_acts_as_held<N: Scalar>(
    pre: SvfFilter<N>,
    input: N,
    cutoff_hz: N,
    held: N,
    q: N,
    sample_rate: N,
    post: SvfFilter<N>,
    out: N,
    post2: SvfFilter<N>,
    out2: N,
)
    requires
        repeatable::<N>(),
        range_is_ordered(sample_rate),
        is_held_cutoff(cutoff_hz, sample_rate, held),
        pre.processed(post, input, cutoff_hz, q, sample_rate, out),
        pre.processed(post2, input, held, q, sample_rate, out2),
    ensures
        post == post2,
        out == out2,
{
    assert forall|fc: N| #[trigger] is_held_cutoff(cutoff_hz, sample_rate, fc) implies fc
        == held by {
        law_formula_has_one_value(
            val(cutoff_hz).clamp(lit(MIN_CUTOFF_HZ), cutoff_limit(sample_rate)),
            fc,
            held,
        );
    }
    assert forall|fc: N| #[trigger] is_held_cutoff(held, sample_rate, fc) implies fc == held by {
        lemma_held_cutoff_stays(cutoff_hz, sample_rate, held, fc);
    }
    let g = lit(PI).times(val(held)).over(val(sample_rate)).tangent();
    assert forall|r: N| #[trigger]
        evaluates(warped_cutoff(cutoff_hz, sample_rate), r) implies evaluates(g, r) by {
        lemma_warped(cutoff_hz, sample_rate, held, r);
    }
    assert forall|r: N| #[trigger]
        evaluates(warped_cutoff(held, sample_rate), r) implies evaluates(g, r) by {
        lemma_warped(held, sample_rate, held, r);
    }
    lemma_outputs_by_warped_cutoff(pre, input, cutoff_hz, q, sample_rate, g, post, out);
    lemma_outputs_by_warped_cutoff(pre, input, held, q, sample_rate, g, post2, out2);
    law_formula_has_one_value(lowpass_by(pre, input, q, g), out, out2);
    law_formula_has_one_value(
        lit(TWO).times(bandpass_by(pre, input, q, g)).minus(val(pre.ic1eq)),
        post.ic1eq,
        post2.ic1eq,
    );
    law_formula_has_one_value(
        lit(TWO).times(val(out)).minus(val(pre.ic2eq)),
        post.ic2eq,
        post2.ic2eq,
    );
}

/// A cutoff that was held is held at itself.
proof fn lemma_held_cutoff_stays<N: Scalar>(cutoff_hz: N, sample_rate: N, held: N, fc: N)
    requires
        repeatable::<N>(),
        range_is_ordered(sample_rate),
        is_held_cutoff(cutoff_hz, sample_rate, held),
        is_held_cutoff(held, sample_rate, fc),
    ensures
        fc == held,
{
    let limit = cutoff_limit(sample_rate);
    let (x, lo, hi) = choose|x: N, l: N, h: N| #[trigger]
        clamped(x, l, h, held) && evaluates(val(cutoff_hz), x) && evaluates(
            lit(MIN_CUTOFF_HZ),
            l,
        ) && evaluates(limit, h);
    let (x2, lo2, hi2) = choose|x: N, l: N, h: N| #[trigger]
        clamped(x, l, h, fc) && evaluates(val(held), x) && evaluates(lit(MIN_CUTOFF_HZ), l)
            && evaluates(limit, h);
    law_formula_has_one_value(lit(MIN_CUTOFF_HZ), lo, lo2);
    law_formula_has_one_value(limit, hi, hi2);
}

/// The warped cutoff is computed from the cutoff as it is held.
proof fn lemma_warped<N: Scalar>(cutoff_hz: N, sample_rate: N, held: N, r: N)
    requires
        forall|fc: N| #[trigger] is_held_cutoff(cutoff_hz, sample_rate, fc) ==> fc == held,
        evaluates(warped_cutoff(cutoff_hz, sample_rate), r),
    ensures
        evaluates(lit(PI).times(val(held)).over(val(sample_rate)).tangent(), r),
{
    let fc: Formula<N> = val(cutoff_hz).clamp(lit(MIN_CUTOFF_HZ), cutoff_limit(sample_rate));
    let rate: Formula<N> = val(sample_rate);
    assert forall|x: N| #[trigger] evaluates(fc, x) implies evaluates(val(held), x) by {
        assert(is_held_cutoff(cutoff_hz, sample_rate, x));
    }
    lemma_times_carries_over(lit(PI), lit(PI), fc, val(held));
    lemma_over_carries_over(lit(PI).times(fc), lit(PI).times(val(held)), rate, rate);
    let angle = choose|angle: N| #[trigger]
        call_ensures(N::tangent, (angle,), r) && evaluates(lit(PI).times(fc).over(rate), angle);
    assert(evaluates(lit(PI).times(val(held)).over(rate), angle));
}

/// The bandpass output for a warped cutoff.
spec fn bandpass_by<N: Scalar>(
    filter: SvfFilter<N>,
    input: N,
    q: N,
    g: Formula<N>,
) -> Formula<N> {
    let a1 = lit(ONE).over(lit(ONE).plus(g.times(g.plus(lit(ONE).over(val(q))))));
    let v3 = val(input).minus(val(filter.ic2eq));
    a1.times(val(filter.ic1eq)).plus(g.times(a1).times(v3))
}

/// The lowpass output for a warped cutoff.
spec fn lowpass_by<N: Scalar>(filter: SvfFilter<N>, input: N, q: N, g: Formula<N>) -> Formula<N> {
    let a1 = lit(ONE).over(lit(ONE).plus(g.times(g.plus(lit(ONE).over(val(q))))));
    let a2 = g.times(a1);
    let v3 = val(input).minus(val(filter.ic2eq));
    val(filter.ic2eq).plus(a2.times(val(filter.ic1eq))).plus(g.times(a2).times(v3))
}

/// The outputs depend on cutoff and sample rate only by the warped cutoff.
proof fn lemma_outputs_by_warped_cutoff<N: Scalar>(
    pre: SvfFilter<N>,
    input: N,
    cutoff_hz: N,
    q: N,
    sample_rate: N,
    g: Formula<N>,
    post: SvfFilter<N>,
    out: N,
)
    requires
        pre.processed(post, input, cutoff_hz, q, sample_rate, out),
        forall|r: N| #[trigger]
            evaluates(warped_cutoff(cutoff_hz, sample_rate), r) ==> evaluates(g, r),
    ensures
        evaluates(lowpass_by(pre, input, q, g), out),
        evaluates(
            lit(TWO).times(bandpass_by(pre, input, q, g)).minus(val(pre.ic1eq)),
            post.ic1eq,
        ),
{
    let w = warped_cutoff(cutoff_hz, sample_rate);
    let k = lit(ONE).over(val(q));
    let a1 = damping(cutoff_hz, q, sample_rate);
    let b1 = lit(ONE).over(lit(ONE).plus(g.times(g.plus(k))));
    lemma_plus_carries_over(w, g, k, k);
    lemma_times_carries_over(w, g, w.plus(k), g.plus(k));
    lemma_plus_carries_over(lit(ONE), lit(ONE), w.times(w.plus(k)), g.times(g.plus(k)));
    lemma_over_carries_over(
        lit(ONE),
        lit(ONE),
        lit(ONE).plus(w.times(w.plus(k))),
        lit(ONE).plus(g.times(g.plus(k))),
    );
    let a2 = w.times(a1);
    let b2 = g.times(b1);
    lemma_times_carries_over(w, g, a1, b1);
    lemma_times_carries_over(w, g, a2, b2);
    let ic1 = val(pre.ic1eq);
    let ic2 = val(pre.ic2eq);
    let v3 = val(input).minus(ic2);
    lemma_times_carries_over(a1, b1, ic1, ic1);
    lemma_times_carries_over(a2, b2, v3, v3);
    lemma_plus_carries_over(a1.times(ic1), b1.times(ic1), a2.times(v3), b2.times(v3));
    let two: Formula<N> = lit(TWO);
    let v1 = pre.bandpass(input, cutoff_hz, q, sample_rate);
    let u1 = bandpass_by(pre, input, q, g);
    lemma_times_carries_over(two, two, v1, u1);
    lemma_minus_carries_over(two.times(v1), two.times(u1), ic1, ic1);
    lemma_times_carries_over(a2, b2, ic1, ic1);
    lemma_plus_carries_over(ic2, ic2, a2.times(ic1), b2.times(ic1));
    lemma_times_carries_over(w.times(a2), g.times(b2), v3, v3);
    lemma_plus_carries_over(
        ic2.plus(a2.times(ic1)),
        ic2.plus(b2.times(ic1)),
        w.times(a2).times(v3),
        g.times(b2).times(v3),
    );
}

/// `x` never answers that it is above `y`.
pub open spec fn not_above<N: Scalar>(x: N, y: N) -> bool {
    !call_ensures(N::is_above, (x, y), true)
}

/// `x` never answers that it is below 0.
pub open spec fn not_negative<N: Scalar>(x: N) -> bool {
    forall|zero: N|
        evaluates(lit(ZERO), zero) ==> !#[trigger] call_ensures(N::is_below, (x, zero), true)
}

/// Raising an operand does not lower a product with a number that is not
/// negative, nor a sum, nor an exponential, nor a power of the ratio of the
/// qualities, which is above 1; and the lowest quality is not negative. What is
/// not a number is not above anything.
///
/// Of products and sums this is IEEE arithmetic, which rounds monotonically. Of
/// exponential and power it is assumed: IEEE arithmetic does not promise it.
pub open spec fn order_is_kept<N: Scalar>() -> bool {
    &&& forall|x: N, y: N, d: N, p: N, q: N|
        not_above(x, y) && not_negative(d) && #[trigger] call_ensures(N::times, (x, d), p)
            && #[trigger] call_ensures(N::times, (y, d), q) ==> not_above(p, q)
    &&& forall|x: N, y: N, d: N, p: N, q: N|
        not_above(x, y) && not_negative(d) && #[trigger] call_ensures(N::times, (d, x), p)
            && #[trigger] call_ensures(N::times, (d, y), q) ==> not_above(p, q)
    &&& forall|x: N, y: N, c: N, p: N, q: N|
        not_above(x, y) && #[trigger] call_ensures(N::plus, (c, x), p) && #[trigger] call_ensures(
            N::plus,
            (c, y),
            q,
        ) ==> not_above(p, q)
    &&& forall|x: N, y: N, p: N, q: N|
        not_above(x, y) && #[trigger] call_ensures(N::exponential, (x,), p)
            && #[trigger] call_ensures(N::exponential, (y,), q) ==> not_above(p, q)
    &&& forall|x: N, y: N, b: N, p: N, q: N|
        not_above(x, y) && evaluates(lit(Q_MAX).over(lit(Q_MIN)), b) && #[trigger] call_ensures(
            N::power,
            (b, x),
            p,
        ) && #[trigger] call_ensures(N::power, (b, y), q) ==> not_above(p, q)
    &&& forall|q: N| #[trigger] evaluates(lit(Q_MIN), q) ==> not_negative(q)
}

/// The cutoff never falls as the envelope rises: a level that is not above another
/// gives a cutoff that is not above the other's, at every depth that is not
/// negative and every open cutoff that is not below the lowest.
pub proof fn law_cutoff_never_falls<N: Scalar>(
    low: N,
    high: N,
    lpg_depth: N,
    max_cutoff: N,
    low_cutoff: N,
    high_cutoff: N,
)
    requires
        repeatable::<N>(),
        order_is_kept::<N>(),
        not_above(low, high),
        not_negative(lpg_depth),
        forall|span: N| #[trigger]
            evaluates(log_span(max_cutoff), span) ==> not_negative(span),
        evaluates(gate_cutoff(low, lpg_depth, max_cutoff), low_cutoff),
        evaluates(gate_cutoff(high, lpg_depth, max_cutoff), high_cutoff),
    ensures
        not_above(low_cutoff, high_cutoff),
{
    let span = log_span(max_cutoff);
    let depth = val(lpg_depth);
    let share = open_share(lpg_depth, max_cutoff);
    let low_log = choose|x: N| #[trigger]
        call_ensures(N::exponential, (x,), low_cutoff) && evaluates(
            share.plus(depth.times(swept_log(low, max_cutoff))),
            x,
        );
    let high_log = choose|x: N| #[trigger]
        call_ensures(N::exponential, (x,), high_cutoff) && evaluates(
            share.plus(depth.times(swept_log(high, max_cutoff))),
            x,
        );
    lemma_scaling_keeps_order(val(low), val(high), span);
    lemma_shifting_keeps_order(
        lit(LOG_MIN_CUTOFF),
        val(low).times(span),
        val(high).times(span),
    );
    lemma_weighing_keeps_order(depth, swept_log(low, max_cutoff), swept_log(high, max_cutoff));
    lemma_shifting_keeps_order(
        share,
        depth.times(swept_log(low, max_cutoff)),
        depth.times(swept_log(high, max_cutoff)),
    );
    assert(not_above(low_log, high_log));
}

/// The quality never falls as the resonance rises.
pub proof fn law_quality_never_falls<N: Scalar>(
    low: N,
    high: N,
    low_quality: N,
    high_quality: N,
)
    requires
        repeatable::<N>(),
        order_is_kept::<N>(),
        not_above(low, high),
        evaluates(quality(low), low_quality),
        evaluates(quality(high), high_quality),
    ensures
        not_above(low_quality, high_quality),
{
    let ratio: Formula<N> = lit(Q_MAX).over(lit(Q_MIN));
    let f = ratio.power(val(low));
    let g = ratio.power(val(high));
    assert(is_in_order(f, g)) by {
        assert forall|r: N, s: N| #[trigger]
            evaluates(f, r) && #[trigger] evaluates(g, s) implies not_above(r, s) by {
            let (b, x) = choose|b: N, x: N| #[trigger]
                call_ensures(N::power, (b, x), r) && evaluates(ratio, b) && evaluates(val(low), x);
            let (b2, y) = choose|b: N, y: N| #[trigger]
                call_ensures(N::power, (b, y), s) && evaluates(ratio, b) && evaluates(
                    val(high),
                    y,
                );
            law_formula_has_one_value(ratio, b, b2);
        }
    }
    lemma_weighing_keeps_order(lit(Q_MIN), f, g);
}

/// No value of `f` is above a value of `g`.
spec fn is_in_order<N: Scalar>(f: Formula<N>, g: Formula<N>) -> bool {
    forall|r: N, s: N| #[trigger]
        evaluates(f, r) && #[trigger] evaluates(g, s) ==> not_above(r, s)
}

proof fn lemma_scaling_keeps_order<N: Scalar>(f: Formula<N>, g: Formula<N>, d: Formula<N>)
    requires
        repeatable::<N>(),
        order_is_kept::<N>(),
        is_in_order(f, g),
        forall|x: N| #[trigger] evaluates(d, x) ==> not_negative(x),
    ensures
        is_in_order(f.times(d), g.times(d)),
{
    assert forall|r: N, s: N| #[trigger]
        evaluates(f.times(d), r) && #[trigger] evaluates(g.times(d), s) implies not_above(r, s) by {
        let (x, c) = choose|x: N, c: N| #[trigger]
            call_ensures(N::times, (x, c), r) && evaluates(f, x) && evaluates(d, c);
        let (y, c2) = choose|y: N, c: N| #[trigger]
            call_ensures(N::times, (y, c), s) && evaluates(g, y) && evaluates(d, c);
        law_formula_has_one_value(d, c, c2);
        assert(not_above(x, y));
    }
}

proof fn lemma_weighing_keeps_order<N: Scalar>(d: Formula<N>, f: Formula<N>, g: Formula<N>)
    requires
        repeatable::<N>(),
        order_is_kept::<N>(),
        is_in_order(f, g),
        forall|x: N| #[trigger] evaluates(d, x) ==> not_negative(x),
    ensures
        is_in_order(d.times(f), d.times(g)),
{
    assert forall|r: N, s: N| #[trigger]
        evaluates(d.times(f), r) && #[trigger] evaluates(d.times(g), s) implies not_above(r, s) by {
        let (c, x) = choose|c: N, x: N| #[trigger]
            call_ensures(N::times, (c, x), r) && evaluates(d, c) && evaluates(f, x);
        let (c2, y) = choose|c: N, y: N| #[trigger]
            call_ensures(N::times, (c, y), s) && evaluates(d, c) && evaluates(g, y);
        law_formula_has_one_value(d, c, c2);
        assert(not_above(x, y));
    }
}

proof fn lemma_shifting_keeps_order<N: Scalar>(c: Formula<N>, f: Formula<N>, g: Formula<N>)
    requires
        repeatable::<N>(),
        order_is_kept::<N>(),
        is_in_order(f, g),
    ensures
        is_in_order(c.plus(f), c.plus(g)),
{
    assert forall|r: N, s: N| #[trigger]
        evaluates(c.plus(f), r) && #[trigger] evaluates(c.plus(g), s) implies not_above(r, s) by {
        let (b, x) = choose|b: N, x: N| #[trigger]
            call_ensures(N::plus, (b, x), r) && evaluates(c, b) && evaluates(f, x);
        let (b2, y) = choose|b: N, y: N| #[trigger]
            call_ensures(N::plus, (b, y), s) && evaluates(c, b) && evaluates(g, y);
        law_formula_has_one_value(c, b, b2);
        assert(not_above(x, y));
    }
}

/// Adding 0 times a finite number to a finite number other than 0 changes
/// nothing. This is IEEE arithmetic.
pub open spec fn zero_share_adds_nothing<N: Scalar>() -> bool {
    forall|zero: N, x: N, p: N, y: N, sum: N|
        evaluates(lit(ZERO), zero) && is_finite(x) && #[trigger] call_ensures(
            N::times,
            (zero, x),
            p,
        ) && is_finite(y) && !call_ensures(N::differs_from, (y, zero), false)
            && #[trigger] call_ensures(N::plus, (y, p), sum) ==> sum == y
}

/// At depth 0 the envelope does not move the cutoff: it is the exponential of the
/// open share, whatever the level. The logarithms on the way are finite, and the
/// open share is not 0, where the open cutoff is neither 1 nor out of bounds.
pub proof fn law_zero_depth_keeps_gate_open<N: Scalar>(
    env_level: N,
    lpg_depth: N,
    max_cutoff: N,
    cutoff: N,
)
    requires
        repeatable::<N>(),
        zero_share_adds_nothing::<N>(),
        evaluates(lit(ZERO), lpg_depth),
        forall|x: N| #[trigger]
            evaluates(swept_log(env_level, max_cutoff), x) ==> is_finite(x),
        forall|y: N| #[trigger]
            evaluates(open_share(lpg_depth, max_cutoff), y) ==> is_finite(y) && !call_ensures(
                N::differs_from,
                (y, lpg_depth),
                false,
            ),
        evaluates(gate_cutoff(env_level, lpg_depth, max_cutoff), cutoff),
    ensures
        evaluates(open_share(lpg_depth, max_cutoff).exponential(), cutoff),
{
    let share = open_share(lpg_depth, max_cutoff);
    let swept = swept_log(env_level, max_cutoff);
    let weighed = val(lpg_depth).times(swept);
    let log = choose|x: N| #[trigger]
        call_ensures(N::exponential, (x,), cutoff) && evaluates(share.plus(weighed), x);
    let (y, p) = choose|y: N, p: N| #[trigger]
        call_ensures(N::plus, (y, p), log) && evaluates(share, y) && evaluates(weighed, p);
    let (zero, x) = choose|zero: N, x: N| #[trigger]
        call_ensures(N::times, (zero, x), p) && evaluates(val(lpg_depth), zero) && evaluates(
            swept,
            x,
        );
    assert(zero == lpg_depth);
    assert(log == y);
}

/// `lo` and `hi` are the logarithms of the lowest and of the open cutoff, as the
/// filter has them, and the reading is good for sums and products of them.
pub open spec fn are_log_ends<N: Scalar>(
    reading: Reading<N>,
    max_cutoff: N,
    lo: real,
    hi: real,
) -> bool {
    &&& reading.is_accurate()
    &&& reading.error <= 1real
    &&& 2real * hi + 8real <= reading.bound
    &&& 0real <= lo <= hi
    &&& forall|l: N| #[trigger] evaluates(lit(LOG_MIN_CUTOFF), l) ==> reading.of(l) == lo
    &&& forall|h: N| #[trigger]
        evaluates(val(max_cutoff).logarithm(), h) ==> reading.of(h) == hi
}

/// The logarithm of the cutoff in exact arithmetic.
pub open spec fn exact_log(env: real, depth: real, lo: real, hi: real) -> real {
    (1real - depth) * hi + depth * (lo + env * (hi - lo))
}

/// How far the logarithm of the cutoff is off, at most.
pub open spec fn log_error<N: Scalar>(reading: Reading<N>, hi: real) -> real {
    (6real + hi) * reading.error
}

/// The real lies between 0 and 1.
pub open spec fn is_share(x: real) -> bool {
    0real <= x <= 1real
}

/// `log` is what the cutoff is the exponential of.
spec fn is_cutoff_log<N: Scalar>(env_level: N, lpg_depth: N, max_cutoff: N, log: N) -> bool {
    evaluates(
        open_share(lpg_depth, max_cutoff).plus(
            val(lpg_depth).times(swept_log(env_level, max_cutoff)),
        ),
        log,
    )
}

proof fn lemma_cutoff_log<N: Scalar>(
    env_level: N,
    lpg_depth: N,
    max_cutoff: N,
    cutoff: N,
) -> (log: N)
    requires
        evaluates(gate_cutoff(env_level, lpg_depth, max_cutoff), cutoff),
    ensures
        is_cutoff_log(env_level, lpg_depth, max_cutoff, log),
        call_ensures(N::exponential, (log,), cutoff),
{
    choose|log: N| #[trigger]
        call_ensures(N::exponential, (log,), cutoff) && evaluates(
            open_share(lpg_depth, max_cutoff).plus(
                val(lpg_depth).times(swept_log(env_level, max_cutoff)),
            ),
            log,
        )
}

/// The exact logarithm lies between its ends, and moves with the level.
proof fn lemma_exact_log(env: real, depth: real, lo: real, hi: real)
    requires
        is_share(env),
        is_share(depth),
        lo <= hi,
    ensures
        lo <= exact_log(env, depth, lo, hi) <= hi,
        exact_log(env, depth, lo, hi) == hi - depth * ((1real - env) * (hi - lo)),
{
    let width = hi - lo;
    let drop = (1real - env) * width;
    assert(0real <= drop <= width) by (nonlinear_arith)
        requires
            drop == (1real - env) * width,
            0real <= env <= 1real,
            0real <= width,
    ;
    assert(0real <= depth * drop <= drop) by (nonlinear_arith)
        requires
            0real <= depth <= 1real,
            0real <= drop,
    ;
    assert(exact_log(env, depth, lo, hi) == hi - depth * drop) by (nonlinear_arith)
        requires
            exact_log(env, depth, lo, hi) == (1real - depth) * hi + depth * (lo + env * (hi
                - lo)),
            drop == (1real - env) * (hi - lo),
    ;
}

/// The logarithm of the cutoff is the exact one, but for rounding.
proof fn lemma_log_is_close<N: Scalar>(
    reading: Reading<N>,
    env_level: N,
    lpg_depth: N,
    max_cutoff: N,
    lo: real,
    hi: real,
    log: N,
)
    requires
        are_log_ends(reading, max_cutoff, lo, hi),
        is_share(reading.of(env_level)),
        is_share(reading.of(lpg_depth)),
        is_cutoff_log(env_level, lpg_depth, max_cutoff, log),
    ensures
        is_within(
            reading.of(log),
            exact_log(reading.of(env_level), reading.of(lpg_depth), lo, hi),
            log_error(reading, hi),
        ),
{
    let u = reading.error;
    let e = reading.of(env_level);
    let d = reading.of(lpg_depth);
    let share = open_share(lpg_depth, max_cutoff);
    let swept = swept_log(env_level, max_cutoff);
    let (h, q) = choose|h: N, q: N| #[trigger]
        call_ensures(N::plus, (h, q), log) && evaluates(share, h) && evaluates(
            val(lpg_depth).times(swept),
            q,
        );
    let (d2, w) = choose|d2: N, w: N| #[trigger]
        call_ensures(N::times, (d2, w), q) && evaluates(val(lpg_depth), d2) && evaluates(swept, w);
    let (l, p) = choose|l: N, p: N| #[trigger]
        call_ensures(N::plus, (l, p), w) && evaluates(lit(LOG_MIN_CUTOFF), l) && evaluates(
            val(env_level).times(log_span(max_cutoff)),
            p,
        );
    let (e2, s) = choose|e2: N, s: N| #[trigger]
        call_ensures(N::times, (e2, s), p) && evaluates(val(env_level), e2) && evaluates(
            log_span(max_cutoff),
            s,
        );
    let (m, l2) = choose|m: N, l2: N| #[trigger]
        call_ensures(N::minus, (m, l2), s) && evaluates(val(max_cutoff).logarithm(), m)
            && evaluates(lit(LOG_MIN_CUTOFF), l2);
    let (k, m2) = choose|k: N, m2: N| #[trigger]
        call_ensures(N::times, (k, m2), h) && evaluates(lit(ONE).minus(val(lpg_depth)), k)
            && evaluates(val(max_cutoff).logarithm(), m2);
    let (one, d3) = choose|one: N, d3: N| #[trigger]
        call_ensures(N::minus, (one, d3), k) && evaluates(lit(ONE), one) && evaluates(
            val(lpg_depth),
            d3,
        );
    let width = hi - lo;
    let (vs, vp, vw, vk, vh, vq) = (
        reading.of(s),
        reading.of(p),
        reading.of(w),
        reading.of(k),
        reading.of(h),
        reading.of(q),
    );
    // The span, and its share by the level.
    assert(is_within(vs, width, u));
    lemma_product_is_bounded(e, vs, 1real, width + u);
    assert(is_within(vp, e * vs, u));
    lemma_scaled_error(e, vs, width, u, 1real);
    lemma_product_is_bounded(e, width, 1real, width);
    assert(is_within(vp, e * width, 2real * u));
    // The swept logarithm, and its share by the depth.
    assert(0real <= e * width) by (nonlinear_arith)
        requires
            0real <= e,
            0real <= width,
    ;
    assert(is_within(vw, lo + e * width, 3real * u));
    lemma_product_is_bounded(d, vw, 1real, hi + 3real * u);
    assert(is_within(vq, d * vw, u));
    lemma_scaled_error(d, vw, lo + e * width, 3real * u, 1real);
    assert(is_within(vq, d * (lo + e * width), 4real * u));
    // The open share.
    assert(is_within(vk, 1real - d, u));
    lemma_product_is_bounded(vk, hi, 1real + u, hi);
    assert((1real + u) * hi <= 2real * hi) by (nonlinear_arith)
        requires
            u <= 1real,
            0real <= hi,
    ;
    assert(is_within(vh, vk * hi, u));
    lemma_scaled_error(hi, vk, 1real - d, u, hi);
    assert(hi * vk == vk * hi) by (nonlinear_arith);
    assert(hi * (1real - d) == (1real - d) * hi) by (nonlinear_arith);
    assert(is_within(vh, (1real - d) * hi, u + hi * u));
    // Their sum.
    lemma_exact_log(e, d, lo, hi);
    assert(log_error(reading, hi) == 6real * u + hi * u) by (nonlinear_arith)
        requires
            log_error(reading, hi) == (6real + hi) * u,
    ;
    assert(hi * u <= hi) by (nonlinear_arith)
        requires
            u <= 1real,
            0real <= hi,
    ;
    assert(0real <= hi * u) by (nonlinear_arith)
        requires
            0real <= u,
            0real <= hi,
    ;
    assert(is_within(reading.of(log), vh + vq, u));
}

/// The exponential rises: where one number is above another by more than `gap`, so
/// is its exponential above the other's. IEEE arithmetic does not promise it.
pub open spec fn exponential_rises<N: Scalar>(reading: Reading<N>, gap: real) -> bool {
    forall|x: N, y: N, p: N, q: N| #[trigger]
        call_ensures(N::exponential, (x,), p) && #[trigger] call_ensures(N::exponential, (y,), q)
            && reading.of(x) + gap < reading.of(y) ==> !call_ensures(N::is_below, (p, q), false)
}

/// The cutoff rises with the envelope: of two levels far enough apart for the
/// rounding, the lower gives the lower cutoff.
pub proof fn law_cutoff_rises_with_envelope<N: Scalar>(
    reading: Reading<N>,
    gap: real,
    lo: real,
    hi: real,
    low: N,
    high: N,
    lpg_depth: N,
    max_cutoff: N,
    low_cutoff: N,
    high_cutoff: N,
)
    requires
        are_log_ends(reading, max_cutoff, lo, hi),
        exponential_rises(reading, gap),
        is_share(reading.of(low)),
        is_share(reading.of(high)),
        is_share(reading.of(lpg_depth)),
        reading.of(lpg_depth) * ((reading.of(high) - reading.of(low)) * (hi - lo)) > gap + 2real
            * log_error(reading, hi),
        evaluates(gate_cutoff(low, lpg_depth, max_cutoff), low_cutoff),
        evaluates(gate_cutoff(high, lpg_depth, max_cutoff), high_cutoff),
    ensures
        !call_ensures(N::is_below, (low_cutoff, high_cutoff), false),
{
    let x = lemma_cutoff_log(low, lpg_depth, max_cutoff, low_cutoff);
    let y = lemma_cutoff_log(high, lpg_depth, max_cutoff, high_cutoff);
    lemma_log_is_close(reading, low, lpg_depth, max_cutoff, lo, hi, x);
    lemma_log_is_close(reading, high, lpg_depth, max_cutoff, lo, hi, y);
    let d = reading.of(lpg_depth);
    let (a, b) = (reading.of(low), reading.of(high));
    let width = hi - lo;
    lemma_exact_log(a, d, lo, hi);
    lemma_exact_log(b, d, lo, hi);
    assert(d * ((1real - a) * width) - d * ((1real - b) * width) == d * ((b - a) * width))
        by (nonlinear_arith);
}

/// The exponential of a number follows the curve, but for a share of `tolerance`,
/// and so undoes the logarithms of the lowest and of the open cutoff. IEEE
/// arithmetic does not promise it.
pub open spec fn exponential_follows<N: Scalar>(
    reading: Reading<N>,
    growth: Growth,
    tolerance: real,
    max_cutoff: N,
    lo: real,
    hi: real,
) -> bool {
    &&& growth.is_exponential()
    &&& is_share(tolerance)
    &&& 0real <= reading.of(max_cutoff)
    &&& forall|x: N, p: N| #[trigger]
        call_ensures(N::exponential, (x,), p) && reading.covers(reading.of(x)) ==> is_within(
            reading.of(p),
            growth.at(reading.of(x)),
            tolerance * growth.at(reading.of(x)),
        )
    &&& forall|min: N| #[trigger]
        evaluates(lit(MIN_CUTOFF_HZ), min) ==> 0real <= reading.of(min) && is_within(
            growth.at(lo),
            reading.of(min),
            tolerance * reading.of(min),
        )
    &&& is_within(growth.at(hi), reading.of(max_cutoff), tolerance * reading.of(max_cutoff))
}

/// The cutoff lies between 20 Hz and the open cutoff, but for rounding: a share of
/// the tolerance for the exponential, one for the logarithm, and the growth over
/// the error of the logarithm. At depth 0 it is the open cutoff, whatever the
/// level, but for the same.
pub proof fn law_cutoff_lies_in_range<N: Scalar>(
    reading: Reading<N>,
    growth: Growth,
    tolerance: real,
    lo: real,
    hi: real,
    env_level: N,
    lpg_depth: N,
    max_cutoff: N,
    min_cutoff: N,
    cutoff: N,
)
    requires
        are_log_ends(reading, max_cutoff, lo, hi),
        exponential_follows(reading, growth, tolerance, max_cutoff, lo, hi),
        is_share(reading.of(env_level)),
        is_share(reading.of(lpg_depth)),
        log_error(reading, hi) <= 1real,
        evaluates(lit(MIN_CUTOFF_HZ), min_cutoff),
        evaluates(gate_cutoff(env_level, lpg_depth, max_cutoff), cutoff),
    ensures
        (1real - tolerance) * ((1real - tolerance) * reading.of(min_cutoff)) <= growth.at(
            log_error(reading, hi),
        ) * reading.of(cutoff),
        reading.of(cutoff) <= (1real + tolerance) * (growth.at(log_error(reading, hi)) * ((1real
            + tolerance) * reading.of(max_cutoff))),
        reading.of(lpg_depth) == 0real ==> (1real - tolerance) * ((1real - tolerance) * reading.of(
            max_cutoff,
        )) <= growth.at(log_error(reading, hi)) * reading.of(cutoff),
{
    let log = lemma_cutoff_log(env_level, lpg_depth, max_cutoff, cutoff);
    lemma_log_is_close(reading, env_level, lpg_depth, max_cutoff, lo, hi, log);
    let (e, d) = (reading.of(env_level), reading.of(lpg_depth));
    let exact = exact_log(e, d, lo, hi);
    let off = log_error(reading, hi);
    let v = reading.of(log);
    let c = reading.of(cutoff);
    lemma_exact_log(e, d, lo, hi);
    assert(0real <= off) by (nonlinear_arith)
        requires
            off == (6real + hi) * reading.error,
            0real <= hi,
            0real <= reading.error,
    ;
    assert(is_within(c, growth.at(v), tolerance * growth.at(v)));
    lemma_growth_is_bounded(growth, lo, v, hi, off);
    assert(is_within(growth.at(lo), reading.of(min_cutoff), tolerance * reading.of(min_cutoff)));
    lemma_lower_end(
        tolerance,
        reading.of(min_cutoff),
        growth.at(lo),
        growth.at(v),
        growth.at(off),
        c,
    );
    lemma_upper_end(
        tolerance,
        reading.of(max_cutoff),
        growth.at(hi),
        growth.at(v),
        growth.at(off),
        c,
    );
    if d == 0real {
        assert(exact == hi) by (nonlinear_arith)
            requires
                exact == hi - d * ((1real - e) * (hi - lo)),
                d == 0real,
        ;
        lemma_growth_is_bounded(growth, hi, v, hi, off);
        lemma_lower_end(
            tolerance,
            reading.of(max_cutoff),
            growth.at(hi),
            growth.at(v),
            growth.at(off),
            c,
        );
    }
}

/// The cutoff follows its curve, but for rounding: in log-frequency it is the open
/// cutoff less what the depth and the distance of the level from 1 take off the way
/// down to 20 Hz.
pub proof fn law_cutoff_follows_curve<N: Scalar>(
    reading: Reading<N>,
    growth: Growth,
    tolerance: real,
    lo: real,
    hi: real,
    env_level: N,
    lpg_depth: N,
    max_cutoff: N,
    cutoff: N,
)
    requires
        are_log_ends(reading, max_cutoff, lo, hi),
        exponential_follows(reading, growth, tolerance, max_cutoff, lo, hi),
        is_share(reading.of(env_level)),
        is_share(reading.of(lpg_depth)),
        log_error(reading, hi) <= 1real,
        evaluates(gate_cutoff(env_level, lpg_depth, max_cutoff), cutoff),
    ensures
        is_cutoff_near(
            reading,
            growth,
            tolerance,
            hi,
            cutoff,
            hi - reading.of(lpg_depth) * ((1real - reading.of(env_level)) * (hi - lo)),
        ),
{
    let log = lemma_cutoff_log(env_level, lpg_depth, max_cutoff, cutoff);
    lemma_log_is_close(reading, env_level, lpg_depth, max_cutoff, lo, hi, log);
    let (e, d) = (reading.of(env_level), reading.of(lpg_depth));
    let exact = hi - d * ((1real - e) * (hi - lo));
    let off = log_error(reading, hi);
    let v = reading.of(log);
    let c = reading.of(cutoff);
    lemma_exact_log(e, d, lo, hi);
    assert(0real <= off) by (nonlinear_arith)
        requires
            off == (6real + hi) * reading.error,
            0real <= hi,
            0real <= reading.error,
    ;
    assert(is_within(c, growth.at(v), tolerance * growth.at(v)));
    lemma_growth_is_bounded(growth, exact, v, exact, off);
    let (f, g, h) = (growth.at(off), growth.at(v), growth.at(exact));
    assert((1real - tolerance) * h <= f * c) by (nonlinear_arith)
        requires
            h <= f * g,
            g - tolerance * g <= c,
            0real <= tolerance <= 1real,
            0real < f,
    {
        assert((1real - tolerance) * h <= (1real - tolerance) * (f * g));
        assert((1real - tolerance) * (f * g) == f * (g - tolerance * g));
        assert(f * (g - tolerance * g) <= f * c);
    }
    assert(c <= (1real + tolerance) * (f * h)) by (nonlinear_arith)
        requires
            g <= f * h,
            c <= g + tolerance * g,
            0real <= tolerance,
    {
        assert(g + tolerance * g == (1real + tolerance) * g);
        assert((1real + tolerance) * g <= (1real + tolerance) * (f * h));
    }
}

/// The cutoff is the exponential of `log`, but for a share of the tolerance and the
/// growth over the error of the logarithm.
pub open spec fn is_cutoff_near<N: Scalar>(
    reading: Reading<N>,
    growth: Growth,
    tolerance: real,
    hi: real,
    cutoff: N,
    log: real,
) -> bool {
    let factor = growth.at(log_error(reading, hi));
    &&& (1real - tolerance) * growth.at(log) <= factor * reading.of(cutoff)
    &&& reading.of(cutoff) <= (1real + tolerance) * (factor * growth.at(log))
}

proof fn lemma_growth_is_bounded(growth: Growth, lo: real, v: real, hi: real, off: real)
    requires
        growth.is_exponential(),
        lo - off <= v <= hi + off,
    ensures
        growth.at(lo) <= growth.at(off) * growth.at(v),
        growth.at(v) <= growth.at(off) * growth.at(hi),
        0real < growth.at(v),
        0real < growth.at(off),
{
    assert(growth.at(off + v) == growth.at(off) * growth.at(v));
    assert(growth.at(off + hi) == growth.at(off) * growth.at(hi));
    if lo < off + v {
        assert(growth.at(lo) < growth.at(off + v));
    } else {
        assert(lo == off + v);
    }
    if v < off + hi {
        assert(growth.at(v) < growth.at(off + hi));
    } else {
        assert(v == off + hi);
    }
}

proof fn lemma_lower_end(
    tolerance: real,
    end: real,
    at_end: real,
    at: real,
    factor: real,
    c: real,
)
    requires
        is_share(tolerance),
        at_end >= end - tolerance * end,
        at_end <= factor * at,
        c >= at - tolerance * at,
        0real < factor,
    ensures
        (1real - tolerance) * ((1real - tolerance) * end) <= factor * c,
{
    let keep = 1real - tolerance;
    assert(at_end >= keep * end) by (nonlinear_arith)
        requires
            at_end >= end - tolerance * end,
            keep == 1real - tolerance,
    ;
    assert(c >= keep * at) by (nonlinear_arith)
        requires
            c >= at - tolerance * at,
            keep == 1real - tolerance,
    ;
    assert(keep * (keep * end) <= keep * at_end) by (nonlinear_arith)
        requires
            at_end >= keep * end,
            0real <= keep,
    ;
    assert(keep * at_end <= keep * (factor * at)) by (nonlinear_arith)
        requires
            at_end <= factor * at,
            0real <= keep,
    ;
    assert(keep * (factor * at) == factor * (keep * at)) by (nonlinear_arith);
    assert(factor * (keep * at) <= factor * c) by (nonlinear_arith)
        requires
            c >= keep * at,
            0real < factor,
    ;
}

proof fn lemma_upper_end(
    tolerance: real,
    end: real,
    at_end: real,
    at: real,
    factor: real,
    c: real,
)
    requires
        is_share(tolerance),
        at_end <= end + tolerance * end,
        at <= factor * at_end,
        c <= at + tolerance * at,
        0real < factor,
    ensures
        c <= (1real + tolerance) * (factor * ((1real + tolerance) * end)),
{
    let more = 1real + tolerance;
    assert(at_end <= more * end) by (nonlinear_arith)
        requires
            at_end <= end + tolerance * end,
            more == 1real + tolerance,
    ;
    assert(c <= more * at) by (nonlinear_arith)
        requires
            c <= at + tolerance * at,
            more == 1real + tolerance,
    ;
    assert(factor * at_end <= factor * (more * end)) by (nonlinear_arith)
        requires
            at_end <= more * end,
            0real < factor,
    ;
    assert(more * at <= more * (factor * (more * end))) by (nonlinear_arith)
        requires
            at <= factor * (more * end),
            0real <= more,
    ;
}

/// A power of 0 is 1, and a power of 1 is the base. IEEE arithmetic does not
/// promise it.
pub open spec fn end_powers_are_exact<N: Scalar>() -> bool {
    &&& forall|b: N, x: N, p: N| #[trigger]
        call_ensures(N::power, (b, x), p) && evaluates(lit(ZERO), x) ==> evaluates(lit(ONE), p)
    &&& forall|b: N, x: N, p: N| #[trigger]
        call_ensures(N::power, (b, x), p) && evaluates(lit(ONE), x) ==> p == b
}

/// The power that the quality is a multiple of.
pub open spec fn quality_power<N>(resonance: N) -> Formula<N> {
    lit(Q_MAX).over(lit(Q_MIN)).power(val(resonance))
}

proof fn lemma_quality_power<N: Scalar>(resonance: N, q: N) -> (found: (N, N))
    requires
        evaluates(quality(resonance), q),
    ensures
        evaluates(lit(Q_MIN), found.0),
        evaluates(quality_power(resonance), found.1),
        call_ensures(N::times, (found.0, found.1), q),
{
    choose|m: N, p: N| #[trigger]
        call_ensures(N::times, (m, p), q) && evaluates(lit(Q_MIN), m) && evaluates(
            quality_power(resonance),
            p,
        )
}

/// Resonance 0 gives the Butterworth quality itself.
pub proof fn law_zero_resonance_is_butterworth<N: Scalar>(resonance: N, q: N)
    requires
        end_powers_are_exact::<N>(),
        one_is_neutral::<N>(),
        evaluates(lit(ZERO), resonance),
        evaluates(quality(resonance), q),
    ensures
        evaluates(lit(Q_MIN), q),
{
    let (m, p) = lemma_quality_power(resonance, q);
    let (b, x) = choose|b: N, x: N| #[trigger]
        call_ensures(N::power, (b, x), p) && evaluates(lit(Q_MAX).over(lit(Q_MIN)), b)
            && evaluates(val(resonance), x);
}

/// `min` and `max` are the two ends of the quality, as the filter has them, and the
/// reading is good for their quotient.
pub open spec fn are_quality_ends<N: Scalar>(reading: Reading<N>, min: real, max: real) -> bool {
    &&& reading.is_accurate()
    &&& reading.error <= 1real
    &&& 0real < min <= 1real
    &&& 0real <= max
    &&& max + 1real <= reading.bound
    &&& max / min + 1real <= reading.bound
    &&& forall|q: N| #[trigger] evaluates(lit(Q_MIN), q) ==> reading.of(q) == min
    &&& forall|q: N| #[trigger] evaluates(lit(Q_MAX), q) ==> reading.of(q) == max
}

/// Resonance 1 gives the maximum quality, but for rounding.
pub proof fn law_full_resonance_is_max<N: Scalar>(
    reading: Reading<N>,
    min: real,
    max: real,
    resonance: N,
    q: N,
)
    requires
        are_quality_ends(reading, min, max),
        end_powers_are_exact::<N>(),
        evaluates(lit(ONE), resonance),
        evaluates(quality(resonance), q),
    ensures
        is_within(reading.of(q), max, 2real * reading.error),
{
    let (m, p) = lemma_quality_power(resonance, q);
    let (b, x) = choose|b: N, x: N| #[trigger]
        call_ensures(N::power, (b, x), p) && evaluates(lit(Q_MAX).over(lit(Q_MIN)), b)
            && evaluates(val(resonance), x);
    let (hi, lo) = choose|hi: N, lo: N| #[trigger]
        call_ensures(N::over, (hi, lo), b) && evaluates(lit(Q_MAX), hi) && evaluates(
            lit(Q_MIN),
            lo,
        );
    let u = reading.error;
    let ratio = max / min;
    assert(0real <= ratio && min * ratio == max) by (nonlinear_arith)
        requires
            ratio == max / min,
            0real < min,
            0real <= max,
    ;
    assert(is_within(reading.of(b), ratio, u));
    lemma_scaled_error(min, reading.of(b), ratio, u, 1real);
    assert(reading.covers(min * reading.of(b)));
}

/// The quality rises with the resonance: where the powers are far enough apart for
/// the rounding, the lower resonance gives the lower quality.
pub proof fn law_quality_rises_with_resonance<N: Scalar>(
    reading: Reading<N>,
    min: real,
    max: real,
    low: N,
    high: N,
    low_quality: N,
    high_quality: N,
)
    requires
        are_quality_ends(reading, min, max),
        forall|p: N, q: N| #[trigger]
            evaluates(quality_power(low), p) && #[trigger] evaluates(quality_power(high), q) ==> {
                &&& 0real <= reading.of(p)
                &&& reading.of(q) <= max / min
                &&& min * (reading.of(q) - reading.of(p)) > 2real * reading.error
            },
        evaluates(quality(low), low_quality),
        evaluates(quality(high), high_quality),
    ensures
        reading.of(low_quality) < reading.of(high_quality),
        !call_ensures(N::is_below, (low_quality, high_quality), false),
{
    let (m, p) = lemma_quality_power(low, low_quality);
    let (m2, q) = lemma_quality_power(high, high_quality);
    let (x, y) = (reading.of(p), reading.of(q));
    let u = reading.error;
    let ratio = max / min;
    assert(min * ratio == max) by (nonlinear_arith)
        requires
            ratio == max / min,
            0real < min,
    ;
    assert(min * (y - x) == min * y - min * x) by (nonlinear_arith);
    assert(x <= y) by (nonlinear_arith)
        requires
            min * (y - x) > 0real,
            0real < min,
    ;
    assert(0real <= min * x && 0real <= min * y <= min * ratio) by (nonlinear_arith)
        requires
            0real < min,
            0real <= x <= y,
            y <= ratio,
    ;
    assert(is_within(reading.of(low_quality), min * x, u));
    assert(is_within(reading.of(high_quality), min * y, u));
}

/// Where 0.498 of the sample rate is the upper end of the cutoff, a cutoff acts as
/// if held between 20 Hz and that.
pub proof fn law_cutoff_acts_as_held_below_nyquist<N: Scalar>(
    pre: SvfFilter<N>,
    input: N,
    cutoff_hz: N,
    lo: N,
    hi: N,
    held: N,
    q: N,
    sample_rate: N,
    post: SvfFilter<N>,
    out: N,
    post2: SvfFilter<N>,
    out2: N,
)
    requires
        repeatable::<N>(),
        range_is_ordered(sample_rate),
        evaluates(lit(MIN_CUTOFF_HZ), lo),
        evaluates(val(sample_rate).times(lit(NYQUIST_LIMIT_RATIO)), hi),
        evaluates(cutoff_limit(sample_rate), hi),
        clamped(cutoff_hz, lo, hi, held),
        pre.processed(post, input, cutoff_hz, q, sample_rate, out),
        pre.processed(post2, input, held, q, sample_rate, out2),
    ensures
        post == post2,
        out == out2,
{
    assert(evaluates(val(cutoff_hz), cutoff_hz));
    assert(is_held_cutoff(cutoff_hz, sample_rate, held));
    law_cutoff_acts_as_held(
        pre,
        input,
        cutoff_hz,
        held,
        q,
        sample_rate,
        post,
        out,
        post2,
        out2,
    );
}

/// The filter is two integrators in a loop: in exact arithmetic, with `bandpass` for
/// the mean of the first state before and after the sample, the output is the mean
/// of the second state, it is the second state plus `g` times the bandpass, and the
/// bandpass is the first state plus `g` times what is left of the input once the
/// bandpass over `q` and the output are taken off. `g` is the tangent of pi times the
/// held cutoff over the sample rate.
pub proof fn law_filter_is_two_integrators<N: Scalar>(
    reading: Reading<N>,
    pre: SvfFilter<N>,
    post: SvfFilter<N>,
    input: N,
    cutoff_hz: N,
    held: N,
    q: N,
    sample_rate: N,
    out: N,
    g: N,
    bandpass: real,
)
    requires
        repeatable::<N>(),
        reading.is_exact(),
        pre.processed(post, input, cutoff_hz, q, sample_rate, out),
        is_held_cutoff(cutoff_hz, sample_rate, held),
        evaluates(lit(PI).times(val(held)).over(val(sample_rate)).tangent(), g),
        reading.of(q) != 0real,
        1real + reading.of(g) * (reading.of(g) + 1real / reading.of(q)) != 0real,
        2real * bandpass == reading.of(pre.ic1eq) + reading.of(post.ic1eq),
    ensures
        2real * reading.of(out) == reading.of(pre.ic2eq) + reading.of(post.ic2eq),
        reading.of(out) == reading.of(pre.ic2eq) + reading.of(g) * bandpass,
        bandpass == reading.of(pre.ic1eq) + reading.of(g) * (reading.of(input) - bandpass
            / reading.of(q) - reading.of(out)),
{
    assert forall|fc: N| #[trigger] is_held_cutoff(cutoff_hz, sample_rate, fc) implies fc
        == held by {
        law_formula_has_one_value(
            val(cutoff_hz).clamp(lit(MIN_CUTOFF_HZ), cutoff_limit(sample_rate)),
            fc,
            held,
        );
    }
    assert forall|r: N| #[trigger]
        evaluates(warped_cutoff(cutoff_hz, sample_rate), r) implies evaluates(val(g), r) by {
        lemma_warped(cutoff_hz, sample_rate, held, r);
        law_formula_has_one_value(
            lit(PI).times(val(held)).over(val(sample_rate)).tangent(),
            r,
            g,
        );
    }
    lemma_outputs_by_warped_cutoff(pre, input, cutoff_hz, q, sample_rate, val(g), post, out);
    let (s1, s2, x) = (reading.of(pre.ic1eq), reading.of(pre.ic2eq), reading.of(input));
    let (w, k) = (reading.of(g), 1real / reading.of(q));
    let d = 1real + w * (w + k);
    let a = 1real / d;
    let one: Formula<N> = lit(ONE);
    let two: Formula<N> = lit(TWO);
    let (vg, vq) = (val(g), val(q));
    let denominator = one.plus(vg.times(vg.plus(one.over(vq))));
    let a1 = one.over(denominator);
    let a2 = vg.times(a1);
    let (i1, i2): (Formula<N>, Formula<N>) = (val(pre.ic1eq), val(pre.ic2eq));
    let v3 = val(input).minus(i2);
    assert(is_worth(reading, one, 1real));
    assert(is_worth(reading, two, 2real));
    assert(is_worth(reading, vg, w));
    assert(is_worth(reading, vq, reading.of(q)));
    assert(is_worth(reading, i1, s1));
    assert(is_worth(reading, i2, s2));
    assert(is_worth(reading, val(input), x));
    lemma_quotient_is_worth(reading, one, vq, 1real, reading.of(q));
    lemma_sum_is_worth(reading, vg, one.over(vq), w, k);
    lemma_product_is_worth(reading, vg, vg.plus(one.over(vq)), w, w + k);
    lemma_sum_is_worth(reading, one, vg.times(vg.plus(one.over(vq))), 1real, w * (w + k));
    lemma_quotient_is_worth(reading, one, denominator, 1real, d);
    lemma_product_is_worth(reading, vg, a1, w, a);
    lemma_difference_is_worth(reading, val(input), i2, x, s2);
    // The bandpass, and the first state after it.
    lemma_product_is_worth(reading, a1, i1, a, s1);
    lemma_product_is_worth(reading, a2, v3, w * a, x - s2);
    lemma_sum_is_worth(reading, a1.times(i1), a2.times(v3), a * s1, (w * a) * (x - s2));
    let band = a * s1 + (w * a) * (x - s2);
    let bands = bandpass_by(pre, input, q, val(g));
    lemma_product_is_worth(reading, two, bands, 2real, band);
    lemma_difference_is_worth(reading, two.times(bands), i1, 2real * band, s1);
    // The lowpass, and the second state after it.
    lemma_product_is_worth(reading, a2, i1, w * a, s1);
    lemma_product_is_worth(reading, vg, a2, w, w * a);
    lemma_product_is_worth(reading, vg.times(a2), v3, w * (w * a), x - s2);
    lemma_sum_is_worth(reading, i2, a2.times(i1), s2, (w * a) * s1);
    lemma_sum_is_worth(
        reading,
        i2.plus(a2.times(i1)),
        vg.times(a2).times(v3),
        s2 + (w * a) * s1,
        (w * (w * a)) * (x - s2),
    );
    assert(is_worth(reading, val(out), reading.of(out)));
    lemma_product_is_worth(reading, two, val(out), 2real, reading.of(out));
    lemma_difference_is_worth(reading, two.times(val(out)), i2, 2real * reading.of(out), s2);
    assert(bandpass == band);
    lemma_loop(s1, x - s2, w, k, d, a, band);
    assert((w * a) * s1 + (w * (w * a)) * (x - s2) == w * band);
    let low = reading.of(out);
    assert(low == s2 + w * band);
    assert(band / reading.of(q) == k * band) by (nonlinear_arith)
        requires
            k == 1real / reading.of(q),
            reading.of(q) != 0real,
    ;
    assert(x - k * band - low == (x - s2) - k * band - w * band);
}

/// The solution of the loop solves it: `rest` is the input less the second state.
proof fn lemma_loop(s1: real, rest: real, w: real, k: real, d: real, a: real, band: real)
    requires
        d == 1real + w * (w + k),
        d != 0real,
        a == 1real / d,
        band == a * s1 + (w * a) * rest,
    ensures
        (w * a) * s1 + (w * (w * a)) * rest == w * band,
        band == s1 + w * (rest - k * band - w * band),
{
    let (p, t) = (a * s1, (w * a) * rest);
    assert((w * a) * s1 == w * p) by (nonlinear_arith)
        requires
            p == a * s1,
    ;
    assert((w * (w * a)) * rest == w * t) by (nonlinear_arith)
        requires
            t == (w * a) * rest,
    ;
    assert(w * band == w * p + w * t) by (nonlinear_arith)
        requires
            band == p + t,
    ;
    assert(d * a == 1real) by (nonlinear_arith)
        requires
            a == 1real / d,
            d != 0real,
    ;
    assert(d * p == s1) by (nonlinear_arith)
        requires
            p == a * s1,
            d * a == 1real,
    {
        assert(d * (a * s1) == (d * a) * s1);
    }
    let r = a * rest;
    assert(t == w * r) by (nonlinear_arith)
        requires
            t == (w * a) * rest,
            r == a * rest,
    ;
    assert(d * r == rest) by (nonlinear_arith)
        requires
            r == a * rest,
            d * a == 1real,
    {
        assert(d * (a * rest) == (d * a) * rest);
    }
    assert(d * t == w * (d * r)) by (nonlinear_arith)
        requires
            t == w * r,
    ;
    assert(d * band == d * p + d * t) by (nonlinear_arith)
        requires
            band == p + t,
    ;
    let m = w + k;
    assert(d * band == band + w * (m * band)) by (nonlinear_arith)
        requires
            d == 1real + w * m,
    ;
    assert(m * band == k * band + w * band) by (nonlinear_arith)
        requires
            m == w + k,
    ;
    let n = m * band;
    assert(w * (rest - n) == w * rest - w * n) by (nonlinear_arith);
    assert(rest - k * band - w * band == rest - n);
}

/// In exact arithmetic a constant passes the filter: once the second state is the
/// input and the first is 0, the output is the input and nothing moves.
pub proof fn law_constant_passes_filter<N: Scalar>(
    reading: Reading<N>,
    pre: SvfFilter<N>,
    post: SvfFilter<N>,
    input: N,
    cutoff_hz: N,
    held: N,
    q: N,
    sample_rate: N,
    out: N,
    g: N,
)
    requires
        repeatable::<N>(),
        reading.is_exact(),
        pre.processed(post, input, cutoff_hz, q, sample_rate, out),
        is_held_cutoff(cutoff_hz, sample_rate, held),
        evaluates(lit(PI).times(val(held)).over(val(sample_rate)).tangent(), g),
        0real < reading.of(q),
        0real <= reading.of(g),
        reading.of(pre.ic1eq) == 0real,
        reading.of(pre.ic2eq) == reading.of(input),
    ensures
        reading.of(out) == reading.of(input),
        reading.of(post.ic1eq) == 0real,
        reading.of(post.ic2eq) == reading.of(input),
{
    let bandpass = reading.of(post.ic1eq) / 2real;
    let (w, k) = (reading.of(g), 1real / reading.of(q));
    assert(0real < k) by (nonlinear_arith)
        requires
            k == 1real / reading.of(q),
            0real < reading.of(q),
    ;
    assert(0real <= w * (w + k)) by (nonlinear_arith)
        requires
            0real <= w,
            0real < k,
    ;
    law_filter_is_two_integrators(
        reading,
        pre,
        post,
        input,
        cutoff_hz,
        held,
        q,
        sample_rate,
        out,
        g,
        bandpass,
    );
    assert(bandpass / reading.of(q) == k * bandpass) by (nonlinear_arith)
        requires
            k == 1real / reading.of(q),
            0real < reading.of(q),
    ;
    let m = k + w;
    assert(m * bandpass == k * bandpass + w * bandpass) by (nonlinear_arith)
        requires
            m == k + w,
    ;
    let n = m * bandpass;
    assert(bandpass == w * (0real - n));
    assert(w * (0real - n) == 0real - w * n) by (nonlinear_arith);
    let d = w * m;
    assert(w * n == d * bandpass) by (nonlinear_arith)
        requires
            n == m * bandpass,
            d == w * m,
    ;
    assert(0real <= d) by (nonlinear_arith)
        requires
            d == w * m,
            0real <= w,
            0real < m,
    ;
    assert(bandpass == 0real) by (nonlinear_arith)
        requires
            bandpass + d * bandpass == 0real,
            0real <= d,
    ;
    assert(w * bandpass == 0real) by (nonlinear_arith)
        requires
            bandpass == 0real,
    ;
}

} // verus!
