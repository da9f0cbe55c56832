//! How loud voices are together: the gain that keeps the power of a sum of voices,
//! and the sum itself.

use vstd::prelude::*;

use crate::dsp::chain::{
    is_amplified, is_ungated, is_unfolded, law_dry_sample_is_a_sine,
    law_ungated_sample_leaves_filter,
};
use crate::dsp::envelope::EnvState;
use crate::dsp::voice::{law_rendering_is_repeatable, ramp_length, Voice, MAX_VOICES};
use crate::formula::{
    count, evaluates, law_formula_has_one_value, lemma_plus_carries_over, lemma_times_carries_over,
    lit, val, Formula,
};
use crate::plugin::{
    active_sum, compensation, held_voice_count, is_processed, BlockCourse, NoteEvent,
    SampleControls, SineOne, GAIN_RAMP_SECS,
};
use crate::reading::{is_within, Reading};
use crate::scalar::{repeatable, Scalar, ONE, TAU, ZERO};

verus! {

/// `gain` is `1 / sqrt(n)`.
pub open spec fn is_gain_for<N: Scalar>(n: usize, gain: N) -> bool {
    evaluates(lit(ONE).over(count(n).square_root()), gain)
}

impl<N: Scalar> SineOne<N> {
    /// The gain goes to `1 / sqrt(n)` for the number of voices in the last block,
    /// and stands there once no ramp is left.
    pub open spec fn gain_follows_count(self) -> bool {
        &&& is_gain_for(self.previous_voice_count, self.gain_smoother.target)
        &&& self.gain_smoother.remaining_samples == 0 ==> self.gain_smoother.current
            == self.gain_smoother.target
    }
}

/// Bringing the gain in line with the parameter, as `initialize` and `reset` do,
/// makes it follow the number of voices.
pub proof fn law_synced_gain_follows_count<N: Scalar>(synth: SineOne<N>)
    requires
        synth.gain_is_synced(),
    ensures
        synth.gain_follows_count(),
        synth.gain_smoother.remaining_samples == 0,
{
}

/// The gain follows the number of voices through every step: a change of the
/// number, up or down, an event, or a sample.
pub proof fn law_gain_follows_count<N: Scalar>(
    pre: SineOne<N>,
    post: SineOne<N>,
    voice_count: usize,
    event: NoteEvent<N>,
    controls: SampleControls<N>,
    output_gain: N,
    out: (N, N),
)
    requires
        pre.gain_follows_count(),
        pre.resized(post, voice_count) || pre.handled(post, event, voice_count) || pre.rendered(
            post,
            controls,
            output_gain,
            out,
        ),
    ensures
        post.gain_follows_count(),
        pre.resized(post, voice_count) ==> is_gain_for(voice_count, post.gain_smoother.target),
{
    if pre.rendered(post, controls, output_gain, out) {
        let (gain, lefts, rights) = choose|gain: N, lefts: Seq<N>, rights: Seq<N>| #[trigger]
            pre.mixed(post, controls, output_gain, gain, lefts, rights, out);
        assert(pre.gain_smoother.advanced(post.gain_smoother, gain));
    }
    if pre.resized(post, voice_count) && voice_count != pre.previous_voice_count {
        let (gain, n) = choose|gain: N, n: u32|
            {
                &&& #[trigger] ramp_length(GAIN_RAMP_SECS, pre.sample_rate, n)
                &&& #[trigger] evaluates(compensation(voice_count), gain)
                &&& pre.gain_smoother.retargeted(post.gain_smoother, gain, n)
            };
        assert(post.gain_smoother.target == gain);
    }
}

proof fn lemma_events_keep_gain<N: Scalar>(
    pre: SineOne<N>,
    post: SineOne<N>,
    events: Seq<NoteEvent<N>>,
    voice_count: usize,
)
    requires
        pre.handled_all(post, events, voice_count),
    ensures
        post.gain_smoother == pre.gain_smoother,
        post.previous_voice_count == pre.previous_voice_count,
    decreases events.len(),
{
    if events.len() > 0 {
        let mid = choose|mid: SineOne<N>|
            {
                &&& pre.handled_all(mid, events.drop_last(), voice_count)
                &&& #[trigger] mid.handled(post, events.last(), voice_count)
            };
        lemma_events_keep_gain(pre, mid, events.drop_last(), voice_count);
    }
}

/// In the course of a block the gain takes one step of its ramp per sample.
proof fn lemma_course_moves_gain<N: Scalar>(
    course: BlockCourse<N>,
    start: SineOne<N>,
    voice_count: usize,
    events: Seq<NoteEvent<N>>,
    controls: Seq<SampleControls<N>>,
    output_gain: N,
    left: Seq<N>,
    right: Seq<N>,
    n: int,
    i: int,
)
    requires
        course.is_course(start, voice_count, events, controls, output_gain, left, right, n),
        start.gain_follows_count(),
        0 <= i <= n,
    ensures
        course.states[i].gain_follows_count(),
        course.states[i].previous_voice_count == start.previous_voice_count,
        course.states[i].gain_smoother.target == start.gain_smoother.target,
        course.states[i].gain_smoother.remaining_samples == if i
            < start.gain_smoother.remaining_samples {
            start.gain_smoother.remaining_samples - i
        } else {
            0
        },
        i < n ==> course.played[i].gain_smoother == course.states[i].gain_smoother,
    decreases i,
{
    if i < n {
        assert(course.takes_sample(
            voice_count,
            events,
            controls,
            output_gain,
            left,
            right,
            i,
        ));
        lemma_events_keep_gain(
            course.states[i],
            course.played[i],
            events.subrange(course.cursors[i], course.cursors[i + 1]),
            voice_count,
        );
    }
    if i > 0 {
        let k = i - 1;
        lemma_course_moves_gain(
            course,
            start,
            voice_count,
            events,
            controls,
            output_gain,
            left,
            right,
            n,
            k,
        );
        assert(course.takes_sample(
            voice_count,
            events,
            controls,
            output_gain,
            left,
            right,
            k,
        ));
        lemma_events_keep_gain(
            course.states[k],
            course.played[k],
            events.subrange(course.cursors[k], course.cursors[k + 1]),
            voice_count,
        );
        let played = course.played[k];
        let (gain, lefts, rights) = choose|gain: N, lefts: Seq<N>, rights: Seq<N>| #[trigger]
            played.mixed(
                course.states[k + 1],
                controls[k],
                output_gain,
                gain,
                lefts,
                rights,
                (left[k], right[k]),
            );
        assert(played.gain_smoother.advanced(course.states[k + 1].gain_smoother, gain));
    }
}

/// After a block the gain goes to `1 / sqrt(n)` for the number of voices that the
/// parameter asks for. Once a block has lasted 5 ms of samples, and what was left
/// of a ramp before it, the gain is there.
pub proof fn law_block_brings_gain<N: Scalar>(
    pre: SineOne<N>,
    post: SineOne<N>,
    events: Seq<NoteEvent<N>>,
    controls: Seq<SampleControls<N>>,
    output_gain: N,
    left: Seq<N>,
    right: Seq<N>,
)
    requires
        is_processed(pre, post, events, controls, output_gain, left, right),
        pre.gain_follows_count(),
        1 <= pre.params.voices.value <= MAX_VOICES,
    ensures
        post.gain_follows_count(),
        post.previous_voice_count == pre.params.voices.value,
        is_gain_for(pre.params.voices.value as usize, post.gain_smoother.target),
        pre.gain_smoother.remaining_samples <= controls.len() && (forall|length: N, n: u32|
            evaluates(lit(GAIN_RAMP_SECS).times(val(pre.sample_rate)), length)
                && #[trigger] call_ensures(N::to_u32, (length,), n) ==> n <= controls.len())
            ==> is_gain_for(
            pre.params.voices.value as usize,
            post.gain_smoother.current,
        ) && post.gain_smoother.remaining_samples == 0,
{
    let voice_count = held_voice_count(pre.params.voices.value);
    let n = controls.len() as int;
    let (start, course) = choose|start: SineOne<N>, course: BlockCourse<N>|
        {
            &&& #[trigger] pre.resized(start, voice_count)
            &&& #[trigger] course.is_course(
                start,
                voice_count,
                events,
                controls,
                output_gain,
                left,
                right,
                n,
            )
            &&& post == course.states.last()
        };
    if voice_count != pre.previous_voice_count {
        let (gain, m) = choose|gain: N, m: u32|
            {
                &&& #[trigger] ramp_length(GAIN_RAMP_SECS, pre.sample_rate, m)
                &&& #[trigger] evaluates(compensation(voice_count), gain)
                &&& pre.gain_smoother.retargeted(start.gain_smoother, gain, m)
            };
        assert(start.gain_smoother.target == gain);
        assert(start.gain_smoother.remaining_samples == m);
    }
    lemma_course_moves_gain(
        course,
        start,
        voice_count,
        events,
        controls,
        output_gain,
        left,
        right,
        n,
        n,
    );
}

/// A gain at rest scales every sample: with the number of voices as it is, both
/// channels of a block are sums times the gain, which is `1 / sqrt(n)`, and the
/// output gain.
pub proof fn law_resting_gain_scales_block<N: Scalar>(
    pre: SineOne<N>,
    post: SineOne<N>,
    events: Seq<NoteEvent<N>>,
    controls: Seq<SampleControls<N>>,
    output_gain: N,
    left: Seq<N>,
    right: Seq<N>,
    i: int,
) -> (sums: (N, N))
    requires
        is_processed(pre, post, events, controls, output_gain, left, right),
        pre.gain_follows_count(),
        pre.gain_smoother.remaining_samples == 0,
        1 <= pre.params.voices.value <= MAX_VOICES,
        pre.previous_voice_count == pre.params.voices.value,
        0 <= i < controls.len(),
    ensures
        is_gain_for(pre.params.voices.value as usize, pre.gain_smoother.current),
        evaluates(
            val(sums.0).times(val(pre.gain_smoother.current).times(val(output_gain))),
            left[i],
        ),
        evaluates(
            val(sums.1).times(val(pre.gain_smoother.current).times(val(output_gain))),
            right[i],
        ),
{
    let voice_count = held_voice_count(pre.params.voices.value);
    let n = controls.len() as int;
    let (start, course) = choose|start: SineOne<N>, course: BlockCourse<N>|
        {
            &&& #[trigger] pre.resized(start, voice_count)
            &&& #[trigger] course.is_course(
                start,
                voice_count,
                events,
                controls,
                output_gain,
                left,
                right,
                n,
            )
            &&& post == course.states.last()
        };
    lemma_course_moves_gain(
        course,
        start,
        voice_count,
        events,
        controls,
        output_gain,
        left,
        right,
        n,
        i,
    );
    assert(course.takes_sample(voice_count, events, controls, output_gain, left, right, i));
    let played = course.played[i];
    let (gain, lefts, rights) = choose|gain: N, lefts: Seq<N>, rights: Seq<N>| #[trigger]
        played.mixed(
            course.states[i + 1],
            controls[i],
            output_gain,
            gain,
            lefts,
            rights,
            (left[i], right[i]),
        );
    assert(gain == pre.gain_smoother.current);
    let scale = val(gain).times(val(output_gain));
    let l = lemma_first_factor(
        active_sum(played.voices@, lefts, MAX_VOICES as nat),
        scale,
        left[i],
    );
    let r = lemma_first_factor(
        active_sum(played.voices@, rights, MAX_VOICES as nat),
        scale,
        right[i],
    );
    (l, r)
}

/// The value of the first factor of a product.
proof fn lemma_first_factor<N: Scalar>(f: Formula<N>, g: Formula<N>, product: N) -> (x: N)
    requires
        evaluates(f.times(g), product),
    ensures
        evaluates(f, x),
        evaluates(val(x).times(g), product),
{
    let (x, y) = choose|x: N, y: N| #[trigger]
        call_ensures(N::times, (x, y), product) && evaluates(f, x) && evaluates(g, y);
    assert(evaluates(val(x), x));
    x
}

/// The gain keeps the power of voices that are not in step: `n` times its square is
/// 1, but for the rounding of one quotient and for a share of `tolerance` of the
/// root.
pub proof fn law_gain_keeps_power<N: Scalar>(
    reading: Reading<N>,
    tolerance: real,
    n: usize,
    gain: N,
)
    requires
        reading.is_accurate(),
        reading.bound >= 4real,
        reading.error <= 1real,
        0real <= tolerance <= 1real / 2real,
        1 <= n <= MAX_VOICES,
        forall|root: N| #[trigger]
            evaluates(count(n).square_root(), root) ==> 1real <= reading.of(root) <= 3real
                && is_within(
                reading.of(root) * reading.of(root),
                n as real,
                tolerance * n as real,
            ),
        is_gain_for(n, gain),
    ensures
        is_within(
            n as real * (reading.of(gain) * reading.of(gain)),
            1real,
            2real * tolerance + 24real * reading.error,
        ),
{
    let (one, root) = choose|one: N, root: N| #[trigger]
        call_ensures(N::over, (one, root), gain) && evaluates(lit(ONE), one) && evaluates(
            count(n).square_root(),
            root,
        );
    let (s, g, u, m) = (reading.of(root), reading.of(gain), reading.error, n as real);
    let exact = 1real / s;
    assert(exact * s == 1real && 0real < exact <= 1real) by (nonlinear_arith)
        requires
            exact == 1real / s,
            1real <= s,
    ;
    assert(is_within(g, exact, u));
    // The square of the gain is close to the square of the exact one.
    assert(exact * exact - 3real * u <= g * g <= exact * exact + 3real * u) by (nonlinear_arith)
        requires
            exact - u <= g <= exact + u,
            0real <= u <= 1real,
            0real < exact <= 1real,
    {
        let d = g - exact;
        assert(g * g == exact * exact + 2real * (exact * d) + d * d);
        assert(0real - u <= exact * d <= u);
        assert(0real <= d * d <= u);
    }
    assert(m <= 8real);
    let power = m * (exact * exact);
    assert(power * (s * s) == m) by (nonlinear_arith)
        requires
            power == m * (exact * exact),
            exact * s == 1real,
    {
        assert((exact * exact) * (s * s) == (exact * s) * (exact * s));
    }
    assert(1real - 2real * tolerance <= power <= 1real + 2real * tolerance) by (nonlinear_arith)
        requires
            power * (s * s) == m,
            m - tolerance * m <= s * s <= m + tolerance * m,
            1real <= m,
            0real <= tolerance <= 1real / 2real,
    {
        let q = s * s;
        assert(power * q == m);
        assert(q > 0real);
        if power > 1real + 2real * tolerance {
            assert(power * q >= (1real + 2real * tolerance) * q);
            assert((1real + 2real * tolerance) * q >= (1real + 2real * tolerance) * (m * (1real
                - tolerance)));
            assert((1real + 2real * tolerance) * (1real - tolerance) >= 1real);
            assert(power * q > (1real + 2real * tolerance) * q);
            assert((1real + 2real * tolerance) * (m * (1real - tolerance)) == m * ((1real + 2real
                * tolerance) * (1real - tolerance)));
            assert(m * ((1real + 2real * tolerance) * (1real - tolerance)) >= m);
        }
        if power < 1real - 2real * tolerance {
            assert(power * q < (1real - 2real * tolerance) * q);
            assert((1real - 2real * tolerance) * q <= (1real - 2real * tolerance) * (m * (1real
                + tolerance)));
            assert((1real - 2real * tolerance) * (1real + tolerance) <= 1real);
            assert((1real - 2real * tolerance) * (m * (1real + tolerance)) == m * ((1real - 2real
                * tolerance) * (1real + tolerance)));
            assert(m * ((1real - 2real * tolerance) * (1real + tolerance)) <= m);
        }
    }
    assert(power - 24real * u <= m * (g * g) <= power + 24real * u) by (nonlinear_arith)
        requires
            power == m * (exact * exact),
            exact * exact - 3real * u <= g * g <= exact * exact + 3real * u,
            1real <= m <= 8real,
            0real <= u,
    ;
}

/// Of all voices only `idx` sounds.
pub open spec fn is_sole_voice<N: Scalar>(synth: SineOne<N>, idx: int) -> bool {
    &&& 0 <= idx < MAX_VOICES
    &&& synth.voices@[idx].env.state != EnvState::Idle
    &&& forall|i: int|
        0 <= i < MAX_VOICES && i != idx ==> (#[trigger] synth.voices@[i]).env.state
            == EnvState::Idle
}

/// A sum over one voice is 0.0 plus its sample.
proof fn lemma_sole_sum<N: Scalar>(synth: SineOne<N>, samples: Seq<N>, idx: int, n: nat)
    requires
        is_sole_voice(synth, idx),
        n <= MAX_VOICES,
    ensures
        active_sum(synth.voices@, samples, n) == if n <= idx {
            lit::<N>(ZERO)
        } else {
            lit::<N>(ZERO).plus(val(samples[idx]))
        },
    decreases n,
{
    if n > 0 {
        lemma_sole_sum(synth, samples, idx, (n - 1) as nat);
        if n - 1 != idx {
            assert(synth.voices@[n - 1].env.state == EnvState::Idle);
        }
    }
}

/// A sole voice is heard, whichever it is and however many voices there may be: the
/// output is its own sample with the gain and the output gain. Without fold and
/// gate that is the sine at its phase times level, velocity, gain of the side, gain
/// and output gain.
pub proof fn law_sole_voice_is_heard<N: Scalar>(
    pre: SineOne<N>,
    post: SineOne<N>,
    controls: SampleControls<N>,
    output_gain: N,
    out: (N, N),
    idx: int,
) -> (sample: (N, N))
    requires
        pre.rendered(post, controls, output_gain, out),
        is_sole_voice(pre, idx),
    ensures
        evaluates(
            lit(ZERO).plus(val(sample.0)).times(
                val(post.gain_smoother.current).times(val(output_gain)),
            ),
            out.0,
        ),
        evaluates(
            lit(ZERO).plus(val(sample.1)).times(
                val(post.gain_smoother.current).times(val(output_gain)),
            ),
            out.1,
        ),
        is_unfolded(controls.fold) && is_ungated(controls.lpg_depth) ==> is_amplified(
            val(pre.voices@[idx].osc.phase).times(lit(TAU)).sine(),
            post.voices@[idx],
            sample,
        ),
{
    let (gain, lefts, rights) = choose|gain: N, lefts: Seq<N>, rights: Seq<N>| #[trigger]
        pre.mixed(post, controls, output_gain, gain, lefts, rights, out);
    lemma_sole_sum(pre, lefts, idx, MAX_VOICES as nat);
    lemma_sole_sum(pre, rights, idx, MAX_VOICES as nat);
    assert(gain == post.gain_smoother.current);
    let sample = (lefts[idx], rights[idx]);
    assert(pre.voices@[idx].rendered(
        post.voices@[idx],
        controls.fine_tune_cents,
        controls.fold,
        controls.lpg_depth,
        controls.lpg_cutoff_hz,
        controls.lpg_resonance,
        pre.sample_rate,
        sample,
    ));
    if is_unfolded(controls.fold) && is_ungated(controls.lpg_depth) {
        law_dry_sample_is_a_sine(
            pre.voices@[idx],
            post.voices@[idx],
            controls.fine_tune_cents,
            controls.fold,
            controls.lpg_depth,
            controls.lpg_cutoff_hz,
            controls.lpg_resonance,
            pre.sample_rate,
            sample,
        );
    }
    sample
}

/// A depth that is not above 0 leaves the filters of all voices alone, whatever the
/// fold and the other controls.
pub proof fn law_zero_depth_leaves_filters<N: Scalar>(
    pre: SineOne<N>,
    post: SineOne<N>,
    controls: SampleControls<N>,
    output_gain: N,
    out: (N, N),
    idx: int,
)
    requires
        pre.rendered(post, controls, output_gain, out),
        is_ungated(controls.lpg_depth),
        0 <= idx < MAX_VOICES,
    ensures
        post.voices@[idx].svf == pre.voices@[idx].svf,
{
    let (gain, lefts, rights) = choose|gain: N, lefts: Seq<N>, rights: Seq<N>| #[trigger]
        pre.mixed(post, controls, output_gain, gain, lefts, rights, out);
    assert(post.voices@[idx] == post.voices@[idx]);
    if pre.voices@[idx].env.state != EnvState::Idle {
        law_ungated_sample_leaves_filter(
            pre.voices@[idx],
            post.voices@[idx],
            controls.fine_tune_cents,
            controls.fold,
            controls.lpg_depth,
            controls.lpg_cutoff_hz,
            controls.lpg_resonance,
            pre.sample_rate,
            (lefts[idx], rights[idx]),
        );
    }
}

/// Voice `idx` sounds, and none above it.
pub open spec fn is_last_sounding<N: Scalar>(synth: SineOne<N>, idx: int) -> bool {
    &&& 0 <= idx < MAX_VOICES
    &&& synth.voices@[idx].env.state != EnvState::Idle
    &&& forall|i: int|
        idx < i < MAX_VOICES ==> (#[trigger] synth.voices@[i]).env.state == EnvState::Idle
}

/// A sum ends with the last voice that sounds.
proof fn lemma_sum_ends<N: Scalar>(voices: Seq<Voice<N>>, samples: Seq<N>, from: nat, n: nat)
    requires
        from <= n <= MAX_VOICES,
        voices.len() == MAX_VOICES,
        forall|i: int| from <= i < n ==> (#[trigger] voices[i]).env.state == EnvState::Idle,
    ensures
        active_sum(voices, samples, n) == active_sum(voices, samples, from),
    decreases n,
{
    if from < n {
        assert(voices[n - 1].env.state == EnvState::Idle);
        lemma_sum_ends(voices, samples, from, (n - 1) as nat);
    }
}

/// Two sums over the same voices are the same where the voices sound the same.
proof fn lemma_same_sum<N: Scalar>(
    voices: Seq<Voice<N>>,
    others: Seq<Voice<N>>,
    samples: Seq<N>,
    samples2: Seq<N>,
    n: nat,
)
    requires
        n <= MAX_VOICES,
        voices.len() == MAX_VOICES,
        others.len() == MAX_VOICES,
        forall|i: int| 0 <= i < n ==> #[trigger] voices[i] == others[i],
        forall|i: int|
            0 <= i < n && voices[i].env.state != EnvState::Idle ==> #[trigger] samples[i]
                == samples2[i],
    ensures
        active_sum(voices, samples, n) == active_sum(others, samples2, n),
    decreases n,
{
    if n > 0 {
        lemma_same_sum(voices, others, samples, samples2, (n - 1) as nat);
        assert(voices[n - 1] == others[n - 1]);
    }
}

/// Voices add up: where `idx` is the last voice that sounds, the output is that of
/// the synthesizer in which this voice is idle, with the sample of the voice added
/// before the gains.
pub proof fn law_voices_add_up<N: Scalar>(
    pre: SineOne<N>,
    post: SineOne<N>,
    without: SineOne<N>,
    post2: SineOne<N>,
    controls: SampleControls<N>,
    output_gain: N,
    out: (N, N),
    out2: (N, N),
    idx: int,
) -> (parts: ((N, N), (N, N)))
    requires
        repeatable::<N>(),
        pre.rendered(post, controls, output_gain, out),
        without.rendered(post2, controls, output_gain, out2),
        is_last_sounding(pre, idx),
        without.voices@[idx].env.state == EnvState::Idle,
        pre.changed_at(without, idx),
    ensures
        evaluates(
            val(parts.0.0).plus(val(parts.1.0)).times(
                val(post.gain_smoother.current).times(val(output_gain)),
            ),
            out.0,
        ),
        evaluates(
            val(parts.0.1).plus(val(parts.1.1)).times(
                val(post.gain_smoother.current).times(val(output_gain)),
            ),
            out.1,
        ),
        evaluates(
            val(parts.0.0).times(val(post2.gain_smoother.current).times(val(output_gain))),
            out2.0,
        ),
        evaluates(
            val(parts.0.1).times(val(post2.gain_smoother.current).times(val(output_gain))),
            out2.1,
        ),
        pre.voices@[idx].rendered(
            post.voices@[idx],
            controls.fine_tune_cents,
            controls.fold,
            controls.lpg_depth,
            controls.lpg_cutoff_hz,
            controls.lpg_resonance,
            pre.sample_rate,
            parts.1,
        ),
{
    let (gain, lefts, rights) = choose|gain: N, lefts: Seq<N>, rights: Seq<N>| #[trigger]
        pre.mixed(post, controls, output_gain, gain, lefts, rights, out);
    let (gain2, lefts2, rights2) = choose|gain: N, lefts: Seq<N>, rights: Seq<N>| #[trigger]
        without.mixed(post2, controls, output_gain, gain, lefts, rights, out2);
    assert forall|i: int| 0 <= i < idx && pre.voices@[i].env.state != EnvState::Idle implies
        #[trigger] lefts[i] == lefts2[i] && rights[i] == rights2[i] by {
        assert(without.voices@[i] == pre.voices@[i]);
        assert(post.voices@[i] == post.voices@[i]);
        assert(post2.voices@[i] == post2.voices@[i]);
        law_rendering_is_repeatable(
            pre.voices@[i],
            controls.fine_tune_cents,
            controls.fold,
            controls.lpg_depth,
            controls.lpg_cutoff_hz,
            controls.lpg_resonance,
            pre.sample_rate,
            post.voices@[i],
            (lefts[i], rights[i]),
            post2.voices@[i],
            (lefts2[i], rights2[i]),
        );
    }
    assert forall|i: int| 0 <= i < idx && pre.voices@[i].env.state != EnvState::Idle implies
        #[trigger] rights[i] == rights2[i] by {
        assert(lefts[i] == lefts2[i]);
    }
    let k = idx as nat;
    lemma_same_sum(pre.voices@, without.voices@, lefts, lefts2, k);
    lemma_same_sum(pre.voices@, without.voices@, rights, rights2, k);
    lemma_sum_ends(pre.voices@, lefts, k + 1, MAX_VOICES as nat);
    lemma_sum_ends(pre.voices@, rights, k + 1, MAX_VOICES as nat);
    assert forall|i: int| k <= i < MAX_VOICES implies (#[trigger] without.voices@[i]).env.state
        == EnvState::Idle by {
        if i != idx {
            assert(without.voices@[i] == pre.voices@[i]);
        }
    }
    lemma_sum_ends(without.voices@, lefts2, k, MAX_VOICES as nat);
    lemma_sum_ends(without.voices@, rights2, k, MAX_VOICES as nat);
    let (below, below2) = (
        active_sum(pre.voices@, lefts, k),
        active_sum(pre.voices@, rights, k),
    );
    let (scale, scale2) = (
        val(gain).times(val(output_gain)),
        val(gain2).times(val(output_gain)),
    );
    let l = lemma_first_factor(below, scale2, out2.0);
    let r = lemma_first_factor(below2, scale2, out2.1);
    lemma_sum_of_parts(below, val(lefts[idx]), scale, l, out.0);
    lemma_sum_of_parts(below2, val(rights[idx]), scale, r, out.1);
    assert(post.voices@[idx] == post.voices@[idx]);
    ((l, r), (lefts[idx], rights[idx]))
}

/// A formula in a sum can be taken by its value.
proof fn lemma_sum_of_parts<N: Scalar>(
    f: Formula<N>,
    g: Formula<N>,
    scale: Formula<N>,
    x: N,
    out: N,
)
    requires
        repeatable::<N>(),
        evaluates(f, x),
        evaluates(f.plus(g).times(scale), out),
    ensures
        evaluates(val(x).plus(g).times(scale), out),
{
    assert forall|r: N| #[trigger] evaluates(f, r) implies evaluates(val(x), r) by {
        law_formula_has_one_value(f, r, x);
    }
    lemma_plus_carries_over(f, val(x), g, g);
    lemma_times_carries_over(f.plus(g), val(x).plus(g), scale, scale);
}

} // verus!
