//! How events and the controls of a sample reach the voices that they are for.

use vstd::prelude::*;

use crate::dsp::chain::{
    is_amplified, is_folded_sine, is_gated, is_ungated, law_gate_closes_with_envelope,
    law_ungated_sample_leaves_filter, law_voice_is_in_tune, GateRun,
};
use crate::dsp::envelope::EnvState;
use crate::dsp::oscillator::CENTS_PER_OCTAVE;
use crate::dsp::pan::panned;
use crate::dsp::svf::{
    are_log_ends, exponential_follows, is_cutoff_near, is_share, log_error, Q_MAX, Q_MIN,
};
use crate::dsp::voice::{
    any_accepted, ramp_length, NoteOnParams, Voice, VoiceFilter, MAX_VOICES, PAN_RAMP_SECS,
    VELOCITY_RAMP_SECS,
};
use crate::formula::{evaluates, lit, val};
use crate::plugin::{
    compensation, held_voice_count, is_first_playing, NoteEvent, SampleControls, SineOne,
    GAIN_RAMP_SECS,
};
use crate::reading::{Growth, Reading};
use crate::scalar::{Scalar, ONE, TWO};

verus! {

/// A sample of the synthesizer is a sample of each voice that sounds, in tune with
/// the fine-tune of the controls. A voice that is idle stays as it is.
pub proof fn law_controls_reach_tuning<N: Scalar>(
    pre: SineOne<N>,
    post: SineOne<N>,
    controls: SampleControls<N>,
    output_gain: N,
    out: (N, N),
    idx: int,
)
    requires
        pre.rendered(post, controls, output_gain, out),
        0 <= idx < MAX_VOICES,
    ensures
        pre.voices@[idx].env.state == EnvState::Idle ==> post.voices@[idx] == pre.voices@[idx],
        pre.voices@[idx].env.state != EnvState::Idle ==> evaluates(
            val(pre.voices@[idx].base_freq).times(
                lit(TWO).power(val(controls.fine_tune_cents).over(lit(CENTS_PER_OCTAVE))),
            ).over(val(pre.sample_rate)),
            post.voices@[idx].osc.phase_increment,
        ),
{
    let (gain, lefts, rights) = choose|gain: N, lefts: Seq<N>, rights: Seq<N>| #[trigger]
        pre.mixed(post, controls, output_gain, gain, lefts, rights, out);
    assert(post.voices@[idx] == post.voices@[idx]);
    if pre.voices@[idx].env.state != EnvState::Idle {
        law_voice_is_in_tune(
            pre.voices@[idx],
            post.voices@[idx],
            controls.fine_tune_cents,
            controls.fold,
            controls.lpg_depth,
            controls.lpg_cutoff_hz,
            controls.lpg_resonance,
            pre.sample_rate,
            (lefts[idx], rights[idx]),
        );
    }
}

/// Without the lowpass gate a voice that sounds hands out the sine at its phase,
/// folded by the fold of the controls, times level, velocity and the gain of the
/// side.
pub proof fn law_controls_reach_fold<N: Scalar>(
    pre: SineOne<N>,
    post: SineOne<N>,
    controls: SampleControls<N>,
    output_gain: N,
    out: (N, N),
    idx: int,
) -> (found: (N, (N, N)))
    requires
        pre.rendered(post, controls, output_gain, out),
        0 <= idx < MAX_VOICES,
        pre.voices@[idx].env.state != EnvState::Idle,
        is_ungated(controls.lpg_depth),
    ensures
        is_folded_sine(pre.voices@[idx], controls.fold, found.0),
        is_amplified(val(found.0), post.voices@[idx], found.1),
{
    let (gain, lefts, rights) = choose|gain: N, lefts: Seq<N>, rights: Seq<N>| #[trigger]
        pre.mixed(post, controls, output_gain, gain, lefts, rights, out);
    let sample = (lefts[idx], rights[idx]);
    assert(post.voices@[idx] == post.voices@[idx]);
    let folded = law_ungated_sample_leaves_filter(
        pre.voices@[idx],
        post.voices@[idx],
        controls.fine_tune_cents,
        controls.fold,
        controls.lpg_depth,
        controls.lpg_cutoff_hz,
        controls.lpg_resonance,
        pre.sample_rate,
        sample,
    );
    (folded, sample)
}

/// With the lowpass gate in force the filter of a voice that sounds takes the
/// folded sine and runs, in log-frequency, on the LPG cutoff of the controls less
/// what their depth and the missing level of the voice take off the way down to 20
/// Hz, with the quality of their resonance.
pub proof fn law_controls_reach_gate<N: Scalar>(
    reading: Reading<N>,
    growth: Growth,
    tolerance: real,
    lo: real,
    hi: real,
    pre: SineOne<N>,
    post: SineOne<N>,
    controls: SampleControls<N>,
    output_gain: N,
    out: (N, N),
    idx: int,
) -> (found: (GateRun<N>, (N, N)))
    requires
        are_log_ends(reading, controls.lpg_cutoff_hz, lo, hi),
        exponential_follows(reading, growth, tolerance, controls.lpg_cutoff_hz, lo, hi),
        log_error(reading, hi) <= 1real,
        pre.rendered(post, controls, output_gain, out),
        0 <= idx < MAX_VOICES,
        pre.voices@[idx].env.state != EnvState::Idle,
        is_gated(controls.lpg_depth),
        is_share(reading.of(post.voices@[idx].env.level)),
        is_share(reading.of(controls.lpg_depth)),
    ensures
        found.0.is_of(
            pre.voices@[idx],
            post.voices@[idx],
            controls.fold,
            pre.sample_rate,
            found.1,
        ),
        is_cutoff_near(
            reading,
            growth,
            tolerance,
            hi,
            found.0.cutoff,
            hi - reading.of(controls.lpg_depth) * ((1real - reading.of(
                post.voices@[idx].env.level,
            )) * (hi - lo)),
        ),
        evaluates(
            lit(Q_MIN).times(lit(Q_MAX).over(lit(Q_MIN)).power(val(controls.lpg_resonance))),
            found.0.q,
        ),
{
    let (gain, lefts, rights) = choose|gain: N, lefts: Seq<N>, rights: Seq<N>| #[trigger]
        pre.mixed(post, controls, output_gain, gain, lefts, rights, out);
    let sample = (lefts[idx], rights[idx]);
    assert(post.voices@[idx] == post.voices@[idx]);
    let run = law_gate_closes_with_envelope(
        reading,
        growth,
        tolerance,
        lo,
        hi,
        pre.voices@[idx],
        post.voices@[idx],
        controls.fine_tune_cents,
        controls.fold,
        controls.lpg_depth,
        controls.lpg_cutoff_hz,
        controls.lpg_resonance,
        pre.sample_rate,
        sample,
    );
    (run, sample)
}

/// `n` is so many seconds (by their binary32 encoding) in samples, cut to a whole.
pub open spec fn is_length_of<N: Scalar>(seconds: u32, sample_rate: N, n: u32) -> bool {
    exists|length: N|
        evaluates(lit(seconds).times(val(sample_rate)), length) && #[trigger] call_ensures(
            N::to_u32,
            (length,),
            n,
        )
}

/// A note that begins while the voice sounds sends the velocity to that of the note
/// over 2 ms.
pub proof fn law_retrigger_ramps_velocity<N: Scalar>(
    pre: Voice<N>,
    post: Voice<N>,
    params: NoteOnParams<N>,
)
    requires
        pre.begun(post, params),
        pre.env.state != EnvState::Idle,
    ensures
        post.velocity_smoother.target == params.velocity,
        is_length_of(
            VELOCITY_RAMP_SECS,
            params.sample_rate,
            post.velocity_smoother.remaining_samples,
        ),
        post.velocity_smoother.remaining_samples > 0 ==> post.velocity_smoother.current
            == pre.velocity_smoother.current,
        post.velocity_smoother.remaining_samples == 0 ==> post.velocity_smoother.current
            == params.velocity,
{
    let n = choose|n: u32|
        {
            &&& #[trigger] ramp_length(VELOCITY_RAMP_SECS, params.sample_rate, n)
            &&& pre.velocity_smoother.retargeted(post.velocity_smoother, params.velocity, n)
        };
    let length = choose|length: N| #[trigger]
        call_ensures(N::to_u32, (length,), n) && evaluates(
            lit(VELOCITY_RAMP_SECS).times(val(params.sample_rate)),
            length,
        );
    assert(call_ensures(N::to_u32, (length,), post.velocity_smoother.remaining_samples));
}

/// A pan sends both gains of the voice to those of a full signal at the position,
/// over 2 ms.
pub proof fn law_pan_ramps_gains<N: Scalar>(
    pre: Voice<N>,
    post: Voice<N>,
    pan: N,
    sample_rate: N,
)
    requires
        pre.panned_to(post, pan, sample_rate),
    ensures
        post.pan == pan,
        exists|full: N| #[trigger]
            panned(
                full,
                pan,
                (post.pan_left_smoother.target, post.pan_right_smoother.target),
            ) && evaluates(lit(ONE), full),
        is_length_of(PAN_RAMP_SECS, sample_rate, post.pan_left_smoother.remaining_samples),
        post.pan_right_smoother.remaining_samples == post.pan_left_smoother.remaining_samples,
        post.osc == pre.osc,
        post.env == pre.env,
        post.svf == pre.svf,
        post.velocity_smoother == pre.velocity_smoother,
{
    let (full, gains, n) = choose|full: N, gains: (N, N), n: u32|
        {
            &&& #[trigger] panned(full, pan, gains)
            &&& evaluates(lit(ONE), full)
            &&& #[trigger] ramp_length(PAN_RAMP_SECS, sample_rate, n)
            &&& pre.pan_left_smoother.retargeted(post.pan_left_smoother, gains.0, n)
            &&& pre.pan_right_smoother.retargeted(post.pan_right_smoother, gains.1, n)
        };
    assert(gains == (post.pan_left_smoother.target, post.pan_right_smoother.target));
    let length = choose|length: N| #[trigger]
        call_ensures(N::to_u32, (length,), n) && evaluates(
            lit(PAN_RAMP_SECS).times(val(sample_rate)),
            length,
        );
    assert(call_ensures(N::to_u32, (length,), post.pan_left_smoother.remaining_samples));
}

/// With several voices a pan moves the first voice that holds its note, and no
/// other.
pub proof fn law_pan_moves_first_holder<N: Scalar>(
    pre: SineOne<N>,
    post: SineOne<N>,
    timing: u32,
    note: u8,
    pan: N,
    voice_count: usize,
    idx: int,
)
    requires
        pre.handled(post, NoteEvent::PolyPan { timing, note, pan }, voice_count),
        voice_count != 1,
        0 <= idx < MAX_VOICES,
        pre.voices@[idx].note == Some(note),
        forall|i: int| 0 <= i < idx ==> (#[trigger] pre.voices@[i]).note != Some(note),
    ensures
        post.voices@[idx].pan == pan,
        forall|i: int|
            0 <= i < MAX_VOICES && i != idx ==> #[trigger] post.voices@[i] == pre.voices@[i],
{
    assert(VoiceFilter::Playing(note).accepts(pre.voices@[idx]));
    assert(any_accepted(pre.voices@, VoiceFilter::Playing(note)));
    let found = choose|idx: int|
        {
            &&& #[trigger] is_first_playing(pre.voices@, note, idx)
            &&& pre.changed_at(post, idx)
            &&& pre.voices@[idx].panned_to(post.voices@[idx], pan, pre.sample_rate)
        };
    if found < idx {
        assert(pre.voices@[found].note == Some(note));
    }
    assert(found == idx);
}

/// A change of the number of voices leaves alone the voices that are within the new
/// number and those that were not within the old one, keeps the wave of those that
/// fall out, and does not let the gain jump where its ramp has a sample.
pub proof fn law_resizing_is_gentle<N: Scalar>(
    pre: SineOne<N>,
    post: SineOne<N>,
    voice_count: usize,
    idx: int,
)
    requires
        pre.resized(post, voice_count),
        0 <= idx < MAX_VOICES,
    ensures
        idx < voice_count || idx >= pre.previous_voice_count ==> post.voices@[idx]
            == pre.voices@[idx],
        post.voices@[idx].osc == pre.voices@[idx].osc,
        post.voices@[idx].svf == pre.voices@[idx].svf,
        post.voices@[idx].velocity_smoother == pre.voices@[idx].velocity_smoother,
        post.voices@[idx].env.state == EnvState::Release ==> post.voices@[idx].env.level
            == pre.voices@[idx].env.level,
        post.gain_smoother.remaining_samples > 0 ==> post.gain_smoother.current
            == pre.gain_smoother.current,
        voice_count != pre.previous_voice_count ==> is_length_of(
            GAIN_RAMP_SECS,
            pre.sample_rate,
            post.gain_smoother.remaining_samples,
        ),
{
    assert(post.voices@[idx] == post.voices@[idx]);
    if voice_count != pre.previous_voice_count {
        let (gain, n) = choose|gain: N, n: u32|
            {
                &&& #[trigger] ramp_length(GAIN_RAMP_SECS, pre.sample_rate, n)
                &&& #[trigger] evaluates(compensation(voice_count), gain)
                &&& pre.gain_smoother.retargeted(post.gain_smoother, gain, n)
            };
        let length = choose|length: N| #[trigger]
            call_ensures(N::to_u32, (length,), n) && evaluates(
                lit(GAIN_RAMP_SECS).times(val(pre.sample_rate)),
                length,
            );
        assert(call_ensures(N::to_u32, (length,), post.gain_smoother.remaining_samples));
    }
}

/// The number of voices is what the parameter asks for, from 1 to 8: 0 counts as 1,
/// and what is beyond counts as 8.
pub proof fn law_voice_count_is_held(value: i32)
    ensures
        1 <= held_voice_count(value) <= MAX_VOICES,
        1 <= value <= MAX_VOICES ==> held_voice_count(value) == value,
        value == 0 ==> held_voice_count(value) == 1,
        value < 0 || value > MAX_VOICES ==> held_voice_count(value) == MAX_VOICES,
{
}

} // verus!
