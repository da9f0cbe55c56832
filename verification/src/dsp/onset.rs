//! How a note begins on a voice: the transient of the start phase.

use vstd::prelude::*;

use crate::dsp::envelope::EnvState;
use crate::dsp::oscillator::SineOscillator;
use crate::dsp::voice::{transient_level, NoteOnParams, Voice, MIN_ATTACK_MS, TRANSIENT_GATE_MS};
use crate::formula::{evaluates, law_formula_has_one_value, lit, val, Formula};
use crate::reading::{
    held_to_unit, is_within, lemma_held_to_unit, lemma_scaled_error, magnitude, Reading,
};
use crate::scalar::{clamped, repeatable, Scalar, ONE, TAU, ZERO};

verus! {

/// The start phase never fails to differ from 0.
pub open spec fn has_start_phase<N: Scalar>(params: NoteOnParams<N>) -> bool {
    forall|zero: N|
        evaluates(lit(ZERO), zero) ==> !#[trigger] call_ensures(
            N::differs_from,
            (params.start_phase_normalized, zero),
            false,
        )
}

/// A number and its negation are of the same magnitude. This is IEEE arithmetic.
pub open spec fn magnitude_has_no_sign<N: Scalar>() -> bool {
    forall|x: N, minus_x: N, m: N, m2: N|
        call_ensures(N::negated, (x,), minus_x) && #[trigger] call_ensures(N::magnitude, (x,), m)
            && #[trigger] call_ensures(N::magnitude, (minus_x,), m2) ==> m == m2
}

/// The part of the level at the begin of a note that the attack time decides.
spec fn opening<N>(attack_ms: N) -> Formula<N> {
    lit(TRANSIENT_GATE_MS).minus(val(attack_ms)).over(
        lit(TRANSIENT_GATE_MS).minus(lit(MIN_ATTACK_MS)),
    ).clamp(lit(ZERO), lit(ONE))
}

/// The level at the begin of a note is the magnitude of the wave there, times the
/// opening, held to the range from 0 to 1.
proof fn lemma_transient_parts<N: Scalar>(
    pre: Voice<N>,
    post: Voice<N>,
    params: NoteOnParams<N>,
    next: SineOscillator<N>,
    wave: N,
) -> (parts: (N, N, N))
    requires
        repeatable::<N>(),
        pre.begun(post, params),
        pre.env.state == EnvState::Idle,
        has_start_phase(params),
        post.osc.advanced(next, wave),
    ensures
        call_ensures(N::magnitude, (wave,), parts.0),
        evaluates(opening(params.attack_ms), parts.1),
        call_ensures(N::times, (parts.0, parts.1), parts.2),
        evaluates(val(parts.2).clamp(lit(ZERO), lit(ONE)), post.env.level),
{
    let initial = choose|initial: N|
        {
            &&& #[trigger] pre.begins_at(params, initial)
            &&& evaluates(val(initial).clamp(lit(ZERO), lit(ONE)), post.env.level)
        };
    assert(evaluates(transient_level(params), initial));
    let sine: Formula<N> = val(params.start_phase_normalized).times(lit(TAU)).sine();
    let (a, g) = choose|a: N, g: N| #[trigger]
        call_ensures(N::times, (a, g), initial) && evaluates(sine.magnitude(), a) && evaluates(
            opening(params.attack_ms),
            g,
        );
    let x = choose|x: N| #[trigger] call_ensures(N::magnitude, (x,), a) && evaluates(sine, x);
    law_formula_has_one_value(sine, x, wave);
    (a, g, initial)
}

/// The transient has no sign: notes from silence whose waves begin at negated
/// values, as half a cycle apart, begin at the same level.
pub proof fn law_transient_has_no_sign<N: Scalar>(
    pre: Voice<N>,
    post: Voice<N>,
    post2: Voice<N>,
    params: NoteOnParams<N>,
    params2: NoteOnParams<N>,
    next: SineOscillator<N>,
    next2: SineOscillator<N>,
    wave: N,
    wave2: N,
)
    requires
        repeatable::<N>(),
        magnitude_has_no_sign::<N>(),
        pre.env.state == EnvState::Idle,
        pre.begun(post, params),
        pre.begun(post2, params2),
        params2.attack_ms == params.attack_ms,
        has_start_phase(params),
        has_start_phase(params2),
        post.osc.advanced(next, wave),
        post2.osc.advanced(next2, wave2),
        call_ensures(N::negated, (wave,), wave2),
    ensures
        post.env.level == post2.env.level,
{
    let (a, g, initial) = lemma_transient_parts(pre, post, params, next, wave);
    let (a2, g2, initial2) = lemma_transient_parts(pre, post2, params2, next2, wave2);
    assert(a == a2);
    law_formula_has_one_value(opening(params.attack_ms), g, g2);
    assert(initial == initial2);
    law_formula_has_one_value(
        val(initial).clamp(lit(ZERO), lit(ONE)),
        post.env.level,
        post2.env.level,
    );
}

/// The transient follows the wave: a note from silence begins at the magnitude of
/// what its oscillator hands out first, times an opening that falls from 1 at an
/// attack of 1 ms to 0 at one of 10 ms, but for three errors of rounding.
pub proof fn law_transient_follows_wave<N: Scalar>(
    reading: Reading<N>,
    pre: Voice<N>,
    post: Voice<N>,
    params: NoteOnParams<N>,
    next: SineOscillator<N>,
    wave: N,
)
    requires
        repeatable::<N>(),
        reading.is_accurate(),
        reading.is_decisive(),
        reading.error <= 1real,
        reading.bound >= 10real,
        forall|x: N| #[trigger]
            evaluates(lit(TRANSIENT_GATE_MS), x) ==> reading.of(x) == 10real,
        forall|x: N| #[trigger]
            evaluates(lit(TRANSIENT_GATE_MS).minus(lit(MIN_ATTACK_MS)), x) ==> reading.of(x)
                == 9real,
        reading.covers(reading.of(params.attack_ms)),
        magnitude(10real - reading.of(params.attack_ms)) + 1real <= reading.bound,
        magnitude(reading.of(wave)) <= 1real,
        pre.env.state == EnvState::Idle,
        pre.begun(post, params),
        has_start_phase(params),
        post.osc.advanced(next, wave),
    ensures
        is_within(
            reading.of(post.env.level),
            magnitude(reading.of(wave)) * held_to_unit(
                (10real - reading.of(params.attack_ms)) / 9real,
            ),
            3real * reading.error,
        ),
{
    let (a, g, initial) = lemma_transient_parts(pre, post, params, next, wave);
    let u = reading.error;
    let ratio: Formula<N> = lit(TRANSIENT_GATE_MS).minus(val(params.attack_ms)).over(
        lit(TRANSIENT_GATE_MS).minus(lit(MIN_ATTACK_MS)),
    );
    let (q, lo, hi) = choose|q: N, lo: N, hi: N| #[trigger]
        clamped(q, lo, hi, g) && evaluates(ratio, q) && evaluates(lit(ZERO), lo) && evaluates(
            lit(ONE),
            hi,
        );
    let (num, den) = choose|num: N, den: N| #[trigger]
        call_ensures(N::over, (num, den), q) && evaluates(
            lit(TRANSIENT_GATE_MS).minus(val(params.attack_ms)),
            num,
        ) && evaluates(lit(TRANSIENT_GATE_MS).minus(lit(MIN_ATTACK_MS)), den);
    let (ten, ms) = choose|ten: N, ms: N| #[trigger]
        call_ensures(N::minus, (ten, ms), num) && evaluates(lit(TRANSIENT_GATE_MS), ten)
            && evaluates(val(params.attack_ms), ms);
    let exact = 10real - reading.of(params.attack_ms);
    let (vn, vq) = (reading.of(num), reading.of(q));
    assert(is_within(vn, exact, u));
    assert(exact / 9real - u <= vn / 9real <= exact / 9real + u);
    assert(is_within(vq, vn / 9real, u));
    lemma_held_to_unit(reading, q, lo, hi, g);
    let (vg, target) = (reading.of(g), held_to_unit(exact / 9real));
    assert(is_within(vg, target, 2real * u));
    let m = magnitude(reading.of(wave));
    assert(reading.of(a) == m);
    assert(0real <= m * vg <= 1real && 0real <= m * target <= 1real) by (nonlinear_arith)
        requires
            0real <= m <= 1real,
            0real <= vg <= 1real,
            0real <= target <= 1real,
    ;
    assert(is_within(reading.of(initial), m * vg, u));
    lemma_scaled_error(m, vg, target, 2real * u, 1real);
    let (x, zero, one) = choose|x: N, zero: N, one: N| #[trigger]
        clamped(x, zero, one, post.env.level) && evaluates(val(initial), x) && evaluates(
            lit(ZERO),
            zero,
        ) && evaluates(lit(ONE), one);
    lemma_held_to_unit(reading, x, zero, one, post.env.level);
}

/// Without a start phase a note from silence begins where the envelope stands, held
/// to the range from 0 to 1, and so does every note that begins while the voice
/// sounds.
pub proof fn law_other_notes_begin_where_they_stand<N: Scalar>(
    reading: Reading<N>,
    pre: Voice<N>,
    post: Voice<N>,
    params: NoteOnParams<N>,
)
    requires
        reading.is_accurate(),
        reading.is_decisive(),
        pre.begun(post, params),
        pre.env.state != EnvState::Idle || (forall|zero: N|
            evaluates(lit(ZERO), zero) ==> !#[trigger] call_ensures(
                N::differs_from,
                (params.start_phase_normalized, zero),
                true,
            )),
        0real <= reading.of(pre.env.level) <= 1real,
    ensures
        reading.of(post.env.level) == reading.of(pre.env.level),
        post.env.state == EnvState::Attack,
{
    let initial = choose|initial: N|
        {
            &&& #[trigger] pre.begins_at(params, initial)
            &&& evaluates(val(initial).clamp(lit(ZERO), lit(ONE)), post.env.level)
        };
    assert(initial == pre.env.level);
    let (x, zero, one) = choose|x: N, zero: N, one: N| #[trigger]
        clamped(x, zero, one, post.env.level) && evaluates(val(initial), x) && evaluates(
            lit(ZERO),
            zero,
        ) && evaluates(lit(ONE), one);
    lemma_held_to_unit(reading, x, zero, one, post.env.level);
}

} // verus!
