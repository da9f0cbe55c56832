//! The way of the signal through a voice: what a sample is made of.

use vstd::prelude::*;

use crate::dsp::envelope::EnvState;
use crate::dsp::oscillator::{SineOscillator, CENTS_PER_OCTAVE};
use crate::dsp::svf::{
    are_log_ends, exponential_follows, exponential_rises, gate_cutoff, is_cutoff_near, is_share,
    law_cutoff_follows_curve, law_cutoff_rises_with_envelope, log_error, quality, Q_MAX, Q_MIN,
};
use crate::dsp::voice::{SignalChain, Voice};
use crate::dsp::wavefold::is_folded;
use crate::formula::{evaluates, lemma_times_carries_over, lit, val, Formula};
use crate::reading::{Growth, Reading};
use crate::scalar::{Scalar, TAU, TWO, ZERO};

verus! {

/// The signals of a sample of a voice that sounds.
proof fn lemma_chain<N: Scalar>(
    pre: Voice<N>,
    post: Voice<N>,
    fine_tune_cents: N,
    fold: N,
    lpg_depth: N,
    lpg_cutoff_hz: N,
    lpg_resonance: N,
    sample_rate: N,
    out: (N, N),
) -> (chain: SignalChain<N>)
    requires
        pre.rendered(
            post,
            fine_tune_cents,
            fold,
            lpg_depth,
            lpg_cutoff_hz,
            lpg_resonance,
            sample_rate,
            out,
        ),
        pre.env.state != EnvState::Idle,
    ensures
        pre.sounds(
            post,
            fine_tune_cents,
            fold,
            lpg_depth,
            lpg_cutoff_hz,
            lpg_resonance,
            sample_rate,
            chain,
            out,
        ),
{
    choose|chain: SignalChain<N>| #[trigger]
        pre.sounds(
            post,
            fine_tune_cents,
            fold,
            lpg_depth,
            lpg_cutoff_hz,
            lpg_resonance,
            sample_rate,
            chain,
            out,
        )
}

/// A voice that sounds is in tune: its phase moves by
/// `base_freq * 2 ^ (cents / 1200) / sample_rate` cycles per sample, and the
/// frequency of the note itself does not move.
pub proof fn law_voice_is_in_tune<N: Scalar>(
    pre: Voice<N>,
    post: Voice<N>,
    fine_tune_cents: N,
    fold: N,
    lpg_depth: N,
    lpg_cutoff_hz: N,
    lpg_resonance: N,
    sample_rate: N,
    out: (N, N),
)
    requires
        pre.rendered(
            post,
            fine_tune_cents,
            fold,
            lpg_depth,
            lpg_cutoff_hz,
            lpg_resonance,
            sample_rate,
            out,
        ),
        pre.env.state != EnvState::Idle,
    ensures
        evaluates(
            val(pre.base_freq).times(
                lit(TWO).power(val(fine_tune_cents).over(lit(CENTS_PER_OCTAVE))),
            ).over(val(sample_rate)),
            post.osc.phase_increment,
        ),
        post.base_freq == pre.base_freq,
{
    let chain = lemma_chain(
        pre,
        post,
        fine_tune_cents,
        fold,
        lpg_depth,
        lpg_cutoff_hz,
        lpg_resonance,
        sample_rate,
        out,
    );
    let (f, r) = choose|f: N, r: N| #[trigger]
        call_ensures(N::over, (f, r), chain.osc.phase_increment) && evaluates(val(chain.freq), f)
            && evaluates(val(sample_rate), r);
    let exact: Formula<N> = val(pre.base_freq).times(
        lit(TWO).power(val(fine_tune_cents).over(lit(CENTS_PER_OCTAVE))),
    );
    assert(evaluates(exact, f));
    assert(evaluates(exact.over(val(sample_rate)), post.osc.phase_increment));
}

/// Of a voice that sounds, the two sides of the sample are a signal times the level
/// of the envelope after the sample, the velocity and the gain of the side.
pub open spec fn is_amplified<N: Scalar>(signal: Formula<N>, post: Voice<N>, out: (N, N)) -> bool {
    let mono = signal.times(val(post.env.level)).times(val(post.velocity_smoother.current));
    &&& evaluates(mono.times(val(post.pan_left_smoother.current)), out.0)
    &&& evaluates(mono.times(val(post.pan_right_smoother.current)), out.1)
}

/// A number stands in for the formula that it is a value of.
proof fn lemma_amplified<N: Scalar>(x: N, signal: Formula<N>, post: Voice<N>, out: (N, N))
    requires
        is_amplified(val(x), post, out),
        evaluates(signal, x),
    ensures
        is_amplified(signal, post, out),
{
    let (level, velocity) = (val(post.env.level), val(post.velocity_smoother.current));
    let (left, right) = (
        val(post.pan_left_smoother.current),
        val(post.pan_right_smoother.current),
    );
    lemma_times_carries_over(val(x), signal, level, level);
    lemma_times_carries_over(val(x).times(level), signal.times(level), velocity, velocity);
    let (mono, full) = (val(x).times(level).times(velocity), signal.times(level).times(velocity));
    lemma_times_carries_over(mono, full, left, left);
    lemma_times_carries_over(mono, full, right, right);
}

/// The sample never fails to be unfolded: the amount is at most 0.
pub open spec fn is_unfolded<N: Scalar>(fold: N) -> bool {
    forall|zero: N|
        evaluates(lit(ZERO), zero) ==> !#[trigger] call_ensures(N::is_at_most, (fold, zero), false)
}

/// The lowpass gate is never in force: the depth is not above 0.
pub open spec fn is_ungated<N: Scalar>(lpg_depth: N) -> bool {
    forall|zero: N|
        evaluates(lit(ZERO), zero) ==> !#[trigger] call_ensures(
            N::is_above,
            (lpg_depth, zero),
            true,
        )
}

/// The lowpass gate never fails to be in force: the depth is above 0.
pub open spec fn is_gated<N: Scalar>(lpg_depth: N) -> bool {
    forall|zero: N|
        evaluates(lit(ZERO), zero) ==> !#[trigger] call_ensures(
            N::is_above,
            (lpg_depth, zero),
            false,
        )
}

/// Without fold and gate a voice hands out a sine: that of its phase, times level,
/// velocity and the gain of the side. The filter does not move.
pub proof fn law_dry_sample_is_a_sine<N: Scalar>(
    pre: Voice<N>,
    post: Voice<N>,
    fine_tune_cents: N,
    fold: N,
    lpg_depth: N,
    lpg_cutoff_hz: N,
    lpg_resonance: N,
    sample_rate: N,
    out: (N, N),
)
    requires
        pre.rendered(
            post,
            fine_tune_cents,
            fold,
            lpg_depth,
            lpg_cutoff_hz,
            lpg_resonance,
            sample_rate,
            out,
        ),
        pre.env.state != EnvState::Idle,
        is_unfolded(fold),
        is_ungated(lpg_depth),
    ensures
        is_amplified(val(pre.osc.phase).times(lit(TAU)).sine(), post, out),
        post.svf == pre.svf,
{
    let chain = lemma_chain(
        pre,
        post,
        fine_tune_cents,
        fold,
        lpg_depth,
        lpg_cutoff_hz,
        lpg_resonance,
        sample_rate,
        out,
    );
    assert(chain.folded == chain.osc_sample);
    assert(chain.filtered == chain.folded);
    lemma_amplified(
        chain.filtered,
        val(pre.osc.phase).times(lit(TAU)).sine(),
        post,
        out,
    );
}

/// Without the lowpass gate, fold or not, the filter does not move.
pub proof fn law_ungated_sample_leaves_filter<N: Scalar>(
    pre: Voice<N>,
    post: Voice<N>,
    fine_tune_cents: N,
    fold: N,
    lpg_depth: N,
    lpg_cutoff_hz: N,
    lpg_resonance: N,
    sample_rate: N,
    out: (N, N),
) -> (folded: N)
    requires
        pre.rendered(
            post,
            fine_tune_cents,
            fold,
            lpg_depth,
            lpg_cutoff_hz,
            lpg_resonance,
            sample_rate,
            out,
        ),
        pre.env.state != EnvState::Idle,
        is_ungated(lpg_depth),
    ensures
        post.svf == pre.svf,
        is_folded_sine(pre, fold, folded),
        is_amplified(val(folded), post, out),
{
    let chain = lemma_chain(
        pre,
        post,
        fine_tune_cents,
        fold,
        lpg_depth,
        lpg_cutoff_hz,
        lpg_resonance,
        sample_rate,
        out,
    );
    assert(chain.filtered == chain.folded);
    chain.folded
}

/// `folded` is the sine at the phase of the voice, by way of the folder.
pub open spec fn is_folded_sine<N: Scalar>(pre: Voice<N>, fold: N, folded: N) -> bool {
    exists|wave: N| #[trigger]
        is_folded(wave, fold, folded) && evaluates(
            val(pre.osc.phase).times(lit(TAU)).sine(),
            wave,
        )
}

/// What the filter of a voice does in one sample.
pub struct GateRun<N> {
    pub input: N,
    pub cutoff: N,
    pub q: N,
    pub output: N,
}

impl<N: Scalar> GateRun<N> {
    /// The run is that of a sample of the voice: the filter takes the folded sine
    /// and leads to the filter after the sample, and its output is what level,
    /// velocity and pan are applied to.
    pub open spec fn is_of(
        self,
        pre: Voice<N>,
        post: Voice<N>,
        fold: N,
        sample_rate: N,
        out: (N, N),
    ) -> bool {
        &&& is_folded_sine(pre, fold, self.input)
        &&& pre.svf.processed(
            post.svf,
            self.input,
            self.cutoff,
            self.q,
            sample_rate,
            self.output,
        )
        &&& is_amplified(val(self.output), post, out)
    }
}

/// The run of the filter in a sample with the lowpass gate in force.
proof fn lemma_gate_run<N: Scalar>(
    pre: Voice<N>,
    post: Voice<N>,
    fine_tune_cents: N,
    fold: N,
    lpg_depth: N,
    lpg_cutoff_hz: N,
    lpg_resonance: N,
    sample_rate: N,
    out: (N, N),
) -> (run: GateRun<N>)
    requires
        pre.rendered(
            post,
            fine_tune_cents,
            fold,
            lpg_depth,
            lpg_cutoff_hz,
            lpg_resonance,
            sample_rate,
            out,
        ),
        pre.env.state != EnvState::Idle,
        is_gated(lpg_depth),
    ensures
        run.is_of(pre, post, fold, sample_rate, out),
        evaluates(gate_cutoff(post.env.level, lpg_depth, lpg_cutoff_hz), run.cutoff),
        evaluates(quality(lpg_resonance), run.q),
{
    let chain = lemma_chain(
        pre,
        post,
        fine_tune_cents,
        fold,
        lpg_depth,
        lpg_cutoff_hz,
        lpg_resonance,
        sample_rate,
        out,
    );
    let (fc, q) = choose|fc: N, q: N|
        {
            &&& #[trigger] pre.svf.processed(
                post.svf,
                chain.folded,
                fc,
                q,
                sample_rate,
                chain.filtered,
            )
            &&& evaluates(gate_cutoff(chain.env_level, lpg_depth, lpg_cutoff_hz), fc)
            &&& evaluates(quality(lpg_resonance), q)
        };
    GateRun { input: chain.folded, cutoff: fc, q, output: chain.filtered }
}

/// The lowpass gate closes with the envelope: the filter of a sample runs on a
/// cutoff that, in log-frequency, is the LPG cutoff less what depth and missing
/// level take off the way down to 20 Hz. At full level it is the LPG cutoff,
/// whatever the depth; at full depth and no level it is 20 Hz.
pub proof fn law_gate_closes_with_envelope<N: Scalar>(
    reading: Reading<N>,
    growth: Growth,
    tolerance: real,
    lo: real,
    hi: real,
    pre: Voice<N>,
    post: Voice<N>,
    fine_tune_cents: N,
    fold: N,
    lpg_depth: N,
    lpg_cutoff_hz: N,
    lpg_resonance: N,
    sample_rate: N,
    out: (N, N),
) -> (run: GateRun<N>)
    requires
        are_log_ends(reading, lpg_cutoff_hz, lo, hi),
        exponential_follows(reading, growth, tolerance, lpg_cutoff_hz, lo, hi),
        log_error(reading, hi) <= 1real,
        pre.rendered(
            post,
            fine_tune_cents,
            fold,
            lpg_depth,
            lpg_cutoff_hz,
            lpg_resonance,
            sample_rate,
            out,
        ),
        pre.env.state != EnvState::Idle,
        is_gated(lpg_depth),
        is_share(reading.of(post.env.level)),
        is_share(reading.of(lpg_depth)),
    ensures
        run.is_of(pre, post, fold, sample_rate, out),
        is_cutoff_near(
            reading,
            growth,
            tolerance,
            hi,
            run.cutoff,
            hi - reading.of(lpg_depth) * ((1real - reading.of(post.env.level)) * (hi - lo)),
        ),
        reading.of(post.env.level) == 1real ==> is_cutoff_near(
            reading,
            growth,
            tolerance,
            hi,
            run.cutoff,
            hi,
        ),
        reading.of(lpg_depth) == 1real && reading.of(post.env.level) == 0real ==> is_cutoff_near(
            reading,
            growth,
            tolerance,
            hi,
            run.cutoff,
            lo,
        ),
        evaluates(
            lit(Q_MIN).times(lit(Q_MAX).over(lit(Q_MIN)).power(val(lpg_resonance))),
            run.q,
        ),
{
    let run = lemma_gate_run(
        pre,
        post,
        fine_tune_cents,
        fold,
        lpg_depth,
        lpg_cutoff_hz,
        lpg_resonance,
        sample_rate,
        out,
    );
    law_cutoff_follows_curve(
        reading,
        growth,
        tolerance,
        lo,
        hi,
        post.env.level,
        lpg_depth,
        lpg_cutoff_hz,
        run.cutoff,
    );
    let (d, e) = (reading.of(lpg_depth), reading.of(post.env.level));
    if e == 1real {
        assert(d * ((1real - e) * (hi - lo)) == 0real) by (nonlinear_arith)
            requires
                e == 1real,
        ;
    }
    if d == 1real && e == 0real {
        assert(d * ((1real - e) * (hi - lo)) == hi - lo) by (nonlinear_arith)
            requires
                d == 1real,
                e == 0real,
        ;
    }
    run
}

/// The lowpass gate opens with the level: of two samples at the same depth and LPG
/// cutoff, with levels far enough apart for the rounding, the one with the higher
/// level runs its filter on the higher cutoff.
pub proof fn law_gate_opens_with_level<N: Scalar>(
    reading: Reading<N>,
    gap: real,
    lo: real,
    hi: real,
    pre: Voice<N>,
    post: Voice<N>,
    pre2: Voice<N>,
    post2: Voice<N>,
    fine_tune_cents: N,
    fold: N,
    lpg_depth: N,
    lpg_cutoff_hz: N,
    lpg_resonance: N,
    sample_rate: N,
    out: (N, N),
    out2: (N, N),
) -> (runs: (GateRun<N>, GateRun<N>))
    requires
        are_log_ends(reading, lpg_cutoff_hz, lo, hi),
        exponential_rises(reading, gap),
        pre.rendered(
            post,
            fine_tune_cents,
            fold,
            lpg_depth,
            lpg_cutoff_hz,
            lpg_resonance,
            sample_rate,
            out,
        ),
        pre2.rendered(
            post2,
            fine_tune_cents,
            fold,
            lpg_depth,
            lpg_cutoff_hz,
            lpg_resonance,
            sample_rate,
            out2,
        ),
        pre.env.state != EnvState::Idle,
        pre2.env.state != EnvState::Idle,
        is_gated(lpg_depth),
        is_share(reading.of(post.env.level)),
        is_share(reading.of(post2.env.level)),
        is_share(reading.of(lpg_depth)),
        reading.of(lpg_depth) * ((reading.of(post2.env.level) - reading.of(post.env.level)) * (hi
            - lo)) > gap + 2real * log_error(reading, hi),
    ensures
        runs.0.is_of(pre, post, fold, sample_rate, out),
        runs.1.is_of(pre2, post2, fold, sample_rate, out2),
        !call_ensures(N::is_below, (runs.0.cutoff, runs.1.cutoff), false),
{
    let run = lemma_gate_run(
        pre,
        post,
        fine_tune_cents,
        fold,
        lpg_depth,
        lpg_cutoff_hz,
        lpg_resonance,
        sample_rate,
        out,
    );
    let run2 = lemma_gate_run(
        pre2,
        post2,
        fine_tune_cents,
        fold,
        lpg_depth,
        lpg_cutoff_hz,
        lpg_resonance,
        sample_rate,
        out2,
    );
    law_cutoff_rises_with_envelope(
        reading,
        gap,
        lo,
        hi,
        post.env.level,
        post2.env.level,
        lpg_depth,
        lpg_cutoff_hz,
        run.cutoff,
        run2.cutoff,
    );
    (run, run2)
}

/// Each part of a voice moves by one sample of its own: the oscillator from its
/// phase, the envelope, and the smoothers of velocity and pan.
pub proof fn law_parts_move_by_one_sample<N: Scalar>(
    pre: Voice<N>,
    post: Voice<N>,
    fine_tune_cents: N,
    fold: N,
    lpg_depth: N,
    lpg_cutoff_hz: N,
    lpg_resonance: N,
    sample_rate: N,
    out: (N, N),
) -> (wave: N)
    requires
        pre.rendered(
            post,
            fine_tune_cents,
            fold,
            lpg_depth,
            lpg_cutoff_hz,
            lpg_resonance,
            sample_rate,
            out,
        ),
        pre.env.state != EnvState::Idle,
    ensures
        (SineOscillator {
            phase: pre.osc.phase,
            phase_increment: post.osc.phase_increment,
        }).advanced(post.osc, wave),
        pre.env.advanced(post.env, post.env.level),
        pre.velocity_smoother.advanced(
            post.velocity_smoother,
            post.velocity_smoother.current,
        ),
        pre.pan_left_smoother.advanced(
            post.pan_left_smoother,
            post.pan_left_smoother.current,
        ),
        pre.pan_right_smoother.advanced(
            post.pan_right_smoother,
            post.pan_right_smoother.current,
        ),
        post.note == pre.note,
        post.pan == pre.pan,
{
    let chain = lemma_chain(
        pre,
        post,
        fine_tune_cents,
        fold,
        lpg_depth,
        lpg_cutoff_hz,
        lpg_resonance,
        sample_rate,
        out,
    );
    assert(chain.osc.phase == pre.osc.phase);
    chain.osc_sample
}

/// A voice that is idle hands out silence and does not move.
pub proof fn law_idle_voice_is_silent<N: Scalar>(
    pre: Voice<N>,
    post: Voice<N>,
    fine_tune_cents: N,
    fold: N,
    lpg_depth: N,
    lpg_cutoff_hz: N,
    lpg_resonance: N,
    sample_rate: N,
    out: (N, N),
)
    requires
        pre.rendered(
            post,
            fine_tune_cents,
            fold,
            lpg_depth,
            lpg_cutoff_hz,
            lpg_resonance,
            sample_rate,
            out,
        ),
        pre.env.state == EnvState::Idle,
    ensures
        post == pre,
        evaluates(lit(ZERO), out.0),
        evaluates(lit(ZERO), out.1),
{
}

} // verus!
