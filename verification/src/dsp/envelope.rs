//! The attack/release envelope.

use vstd::prelude::*;

use crate::formula::{
    evaluates, law_formula_has_one_value, lemma_minus_carries_over, lemma_times_carries_over, lit,
    val, Formula,
};
use crate::reading::{
    compound_error, is_within, lemma_compound_error_grows, lemma_compound_error_is_bounded,
    lemma_power_is_share, lemma_power_of_growth, lemma_scaled_error, power_of, Growth, Reading,
};
use crate::scalar::{clamp, in_unit, is_number, repeatable, unit_is_closed, Scalar, ONE, ZERO};

verus! {

/// The current phase of the envelope.
///
/// `note_on()` leads to Attack from any state and keeps the level; Attack
/// approaches 1.0 and holds there; `note_off()` leads to Release; Release
/// decays to 0.0 and ends in Idle.
#[derive(Debug, Clone, Copy, PartialEq, Eq, Hash, Structural)]
pub enum EnvState {
    /// Silent: outputs 0.0 continuously.
    Idle,
    /// Level is rising toward 1.0, or holding at 1.0 after the attack is over.
    Attack,
    /// Level is falling toward 0.0 from wherever it was when the note ended.
    Release,
}

impl Default for EnvState {
    fn default() -> (state: Self)
        ensures
            state == EnvState::Idle,
    {
        EnvState::Idle
    }
}

/// Threshold below which the envelope snaps to its target (0.0 or 1.0):
/// 1e-4, about -80 dB, inaudible. The binary32 encoding of the number.
pub const IDLE_THRESHOLD: u32 = 0x38d1_b717;

/// Number of time constants that fit in a duration given by the user: 9.2103,
/// the negated logarithm of the threshold, so that in exact arithmetic a duration
/// is the time to come within -80 dB of the target. The binary32 encoding of the
/// number.
///
/// In binary32 the steps of a long attack round to nothing near its end: at
/// 44.1 kHz one of 1000 ms stands still near 0.99986, one of 5000 ms near 0.9993,
/// and neither snaps to 1.0.
pub const NUM_TC: u32 = 0x4113_5d64;

/// Milliseconds in a second: the binary32 encoding of 1000.
pub const MS_PER_SECOND: u32 = 0x447a_0000;

/// An exponential attack/release envelope generator.
///
/// Both phases follow one-pole exponential curves: the attack rises fast and
/// settles toward the peak, the release drops fast and has a long tail.
pub struct ArEnvelope<N> {
    pub state: EnvState,
    /// Current amplitude in [0.0, 1.0].
    pub level: N,
    /// Factor per sample by which the distance to 1.0 shrinks during Attack.
    /// Closer to 1.0 is slower; 1.0 itself does not move.
    pub attack_coeff: N,
    /// Factor per sample by which the level shrinks during Release.
    pub release_coeff: N,
}

/// The factor per sample that brings a distance down to the idle threshold over
/// a duration: `exp(-NUM_TC / n)` for a duration of `n` samples. The duration
/// counts as no less than 1 millisecond, and `n` as no less than 1.
pub open spec fn decay_coefficient<N>(duration_ms: N, sample_rate: N) -> Formula<N> {
    let samples = val(duration_ms).greater(lit(ONE)).times(val(sample_rate)).over(
        lit(MS_PER_SECOND),
    ).greater(lit(ONE));
    lit(NUM_TC).negated().over(samples).exponential()
}

/// The factor per sample that brings a distance down to the idle threshold over
/// `duration_ms` milliseconds.
fn decay_per_sample<N: Scalar>(duration_ms: N, sample_rate: N) -> (coeff: N)
    ensures
        evaluates(decay_coefficient(duration_ms, sample_rate), coeff),
{
    proof {
        reveal_with_fuel(evaluates, 8);
    }
    let samples = duration_ms.greater(N::from_bits(ONE)).times(sample_rate).over(
        N::from_bits(MS_PER_SECOND),
    ).greater(N::from_bits(ONE));
    N::from_bits(NUM_TC).negated().over(samples).exponential()
}

impl<N: Scalar> ArEnvelope<N> {
    /// The envelope is silent, and set to curves that do not move.
    pub open spec fn is_cleared(self) -> bool {
        &&& self.state == EnvState::Idle
        &&& evaluates(lit(ZERO), self.level)
        &&& evaluates(lit(ONE), self.attack_coeff)
        &&& evaluates(lit(ONE), self.release_coeff)
    }

    /// The level after one sample of attack, before it snaps.
    pub open spec fn risen_level(self) -> Formula<N> {
        lit(ONE).minus(lit(ONE).minus(val(self.level)).times(val(self.attack_coeff)))
    }

    /// The level after one sample of release, before it snaps.
    pub open spec fn fallen_level(self) -> Formula<N> {
        val(self.level).times(val(self.release_coeff))
    }

    /// `post` is this envelope with the attack begun at `initial_level`, held
    /// to [0.0, 1.0].
    pub open spec fn triggered(self, post: Self, initial_level: N) -> bool {
        &&& post.state == EnvState::Attack
        &&& evaluates(val(initial_level).clamp(lit(ZERO), lit(ONE)), post.level)
        &&& post.attack_coeff == self.attack_coeff
        &&& post.release_coeff == self.release_coeff
    }

    /// `post` is this envelope with the note ended: unchanged if it is idle,
    /// idle at 0.0 if the level is at most the threshold, releasing from the
    /// level where it stands otherwise.
    pub open spec fn released(self, post: Self) -> bool {
        if self.state == EnvState::Idle {
            post == self
        } else {
            exists|threshold: N, silent: bool|
                {
                    &&& #[trigger] call_ensures(N::is_at_most, (self.level, threshold), silent)
                    &&& evaluates(lit(IDLE_THRESHOLD), threshold)
                    &&& post.attack_coeff == self.attack_coeff
                    &&& post.release_coeff == self.release_coeff
                    &&& if silent {
                        post.state == EnvState::Idle && evaluates(lit(ZERO), post.level)
                    } else {
                        post.state == EnvState::Release && post.level == self.level
                    }
                }
        }
    }

    /// `post` is this envelope one sample later, having handed out `out`.
    pub open spec fn advanced(self, post: Self, out: N) -> bool {
        match self.state {
            EnvState::Idle => post == self && evaluates(lit(ZERO), out),
            EnvState::Attack => {
                &&& out == post.level
                &&& post.state == EnvState::Attack
                &&& post.attack_coeff == self.attack_coeff
                &&& post.release_coeff == self.release_coeff
                &&& exists|risen: N, bound: N, arrived: bool|
                    {
                        &&& #[trigger] call_ensures(N::is_at_least, (risen, bound), arrived)
                        &&& evaluates(self.risen_level(), risen)
                        &&& evaluates(lit(ONE).minus(lit(IDLE_THRESHOLD)), bound)
                        &&& if arrived {
                            evaluates(lit(ONE), post.level)
                        } else {
                            post.level == risen
                        }
                    }
            },
            EnvState::Release => {
                &&& out == post.level
                &&& post.attack_coeff == self.attack_coeff
                &&& post.release_coeff == self.release_coeff
                &&& exists|fallen: N, threshold: N, silent: bool|
                    {
                        &&& #[trigger] call_ensures(N::is_at_most, (fallen, threshold), silent)
                        &&& evaluates(self.fallen_level(), fallen)
                        &&& evaluates(lit(IDLE_THRESHOLD), threshold)
                        &&& if silent {
                            post.state == EnvState::Idle && evaluates(lit(ZERO), post.level)
                        } else {
                            post.state == EnvState::Release && post.level == fallen
                        }
                    }
            },
        }
    }

    /// `trace` lists the envelope before, between and after the samples `outs`.
    pub open spec fn runs(trace: Seq<Self>, outs: Seq<N>) -> bool {
        &&& trace.len() == outs.len() + 1
        &&& forall|i: int|
            0 <= i < outs.len() ==> trace[i].advanced(trace[i + 1], #[trigger] outs[i])
    }

    /// The two envelopes are the same in what they will hand out: phase, level
    /// and the coefficient of the phase. The other coefficient is open: it is set
    /// before it counts.
    pub open spec fn agrees_with(self, other: Self) -> bool {
        &&& self.state == other.state
        &&& self.level == other.level
        &&& self.state == EnvState::Attack ==> self.attack_coeff == other.attack_coeff
        &&& self.state == EnvState::Release ==> self.release_coeff == other.release_coeff
    }

    /// Some operation leads from this envelope to `post`: a reset, a time that is
    /// set, the begin of a note at a number or at the level where the envelope
    /// stands, the end of a note, or a sample.
    pub open spec fn leads_to(self, post: Self) -> bool {
        ||| post.is_cleared()
        ||| exists|attack_ms: N, sample_rate: N|
            post == (ArEnvelope { attack_coeff: post.attack_coeff, ..self })
                && #[trigger] evaluates(
                decay_coefficient(attack_ms, sample_rate),
                post.attack_coeff,
            )
        ||| exists|release_ms: N, sample_rate: N|
            post == (ArEnvelope { release_coeff: post.release_coeff, ..self })
                && #[trigger] evaluates(
                decay_coefficient(release_ms, sample_rate),
                post.release_coeff,
            )
        ||| exists|level: N| #[trigger]
            self.triggered(post, level) && (is_number(level) || level == self.level)
        ||| self.released(post)
        ||| exists|out: N| #[trigger] self.advanced(post, out)
    }

    /// `history` lists an envelope from its initial state on, one operation after
    /// the other.
    pub open spec fn is_history(history: Seq<Self>) -> bool {
        &&& history.len() > 0
        &&& history[0].is_cleared()
        &&& forall|i: int|
            0 < i < history.len() ==> history[i - 1].leads_to(#[trigger] history[i])
    }

    /// If the envelope is silent, its level is 0.0.
    pub open spec fn is_idle_at_zero(self) -> bool {
        self.state == EnvState::Idle ==> evaluates(lit(ZERO), self.level)
    }

    /// Level and coefficients lie in [0.0, 1.0].
    pub open spec fn is_bounded(self) -> bool {
        &&& in_unit(self.level)
        &&& in_unit(self.attack_coeff)
        &&& in_unit(self.release_coeff)
    }

    /// Configure the attack time, held to at least 1 millisecond and one sample.
    pub fn set_attack(&mut self, attack_ms: N, sample_rate: N)
        ensures
            evaluates(decay_coefficient(attack_ms, sample_rate), final(self).attack_coeff),
            *final(self) == (ArEnvelope { attack_coeff: final(self).attack_coeff, ..*old(self) }),
    {
        self.attack_coeff = decay_per_sample(attack_ms, sample_rate);
    }

    /// Configure the release time, held to at least 1 millisecond and one sample.
    pub fn set_release(&mut self, release_ms: N, sample_rate: N)
        ensures
            evaluates(decay_coefficient(release_ms, sample_rate), final(self).release_coeff),
            *final(self) == (ArEnvelope { release_coeff: final(self).release_coeff, ..*old(self) }),
    {
        self.release_coeff = decay_per_sample(release_ms, sample_rate);
    }

    /// Begin the attack from the current level, so that a retrigger during the
    /// release rises smoothly rather than from zero.
    pub fn note_on(&mut self)
        ensures
            old(self).triggered(*final(self), old(self).level),
    {
        self.note_on_at_level(self.level);
    }

    /// Begin the attack from an explicit level, held to [0.0, 1.0].
    pub fn note_on_at_level(&mut self, initial_level: N)
        ensures
            old(self).triggered(*final(self), initial_level),
    {
        proof {
            reveal_with_fuel(evaluates, 2);
        }
        self.level = clamp(initial_level, N::from_bits(ZERO), N::from_bits(ONE));
        self.state = EnvState::Attack;
    }

    /// Begin the release from any state but Idle.
    pub fn note_off(&mut self)
        ensures
            old(self).released(*final(self)),
    {
        if self.state == EnvState::Idle {
            return;
        }
        // A level that is effectively zero goes straight to Idle.
        if self.level.is_at_most(N::from_bits(IDLE_THRESHOLD)) {
            self.state = EnvState::Idle;
            self.level = N::from_bits(ZERO);
            return;
        }
        self.state = EnvState::Release;
    }

    /// Advance the envelope by one sample and return the current level.
    pub fn next_sample(&mut self) -> (out: N)
        ensures
            old(self).advanced(*final(self), out),
    {
        proof {
            reveal_with_fuel(evaluates, 5);
        }
        match self.state {
            EnvState::Idle => N::from_bits(ZERO),
            EnvState::Attack => {
                let distance = N::from_bits(ONE).minus(self.level);
                self.level = N::from_bits(ONE).minus(distance.times(self.attack_coeff));
                // Snap to 1.0 within the threshold: the curve never arrives.
                if self.level.is_at_least(N::from_bits(ONE).minus(N::from_bits(IDLE_THRESHOLD))) {
                    self.level = N::from_bits(ONE);
                }
                self.level
            },
            EnvState::Release => {
                self.level = self.level.times(self.release_coeff);
                // Snap to 0.0 within the threshold: the curve never arrives.
                if self.level.is_at_most(N::from_bits(IDLE_THRESHOLD)) {
                    self.level = N::from_bits(ZERO);
                    self.state = EnvState::Idle;
                }
                self.level
            },
        }
    }

    /// Returns `true` when the envelope is silent.
    pub fn is_idle(&self) -> (idle: bool)
        ensures
            idle == (self.state == EnvState::Idle),
    {
        self.state == EnvState::Idle
    }

    /// Returns `true` when the envelope is fading out.
    pub fn is_releasing(&self) -> (releasing: bool)
        ensures
            releasing == (self.state == EnvState::Release),
    {
        self.state == EnvState::Release
    }

    /// Return to the initial state.
    pub fn reset(&mut self)
        ensures
            final(self).is_cleared(),
    {
        self.state = EnvState::Idle;
        self.level = N::from_bits(ZERO);
        self.attack_coeff = N::from_bits(ONE);
        self.release_coeff = N::from_bits(ONE);
    }
}

impl<N: Scalar> Default for ArEnvelope<N> {
    fn default() -> (env: Self)
        ensures
            env.is_cleared(),
    {
        ArEnvelope {
            state: EnvState::Idle,
            level: N::from_bits(ZERO),
            attack_coeff: N::from_bits(ONE),
            release_coeff: N::from_bits(ONE),
        }
    }
}

/// An idle envelope stays as it is and outputs 0.0, sample after sample.
pub proof fn law_idle_is_silent<N: Scalar>(trace: Seq<ArEnvelope<N>>, outs: Seq<N>, i: int)
    requires
        ArEnvelope::runs(trace, outs),
        trace[0].state == EnvState::Idle,
        0 <= i < trace.len(),
    ensures
        trace[i] == trace[0],
        i < outs.len() ==> evaluates(lit(ZERO), outs[i]),
    decreases i,
{
    if i > 0 {
        law_idle_is_silent(trace, outs, i - 1);
        assert(trace[i - 1].advanced(trace[i - 1 + 1], outs[i - 1]));
    }
    if i < outs.len() {
        assert(trace[i].advanced(trace[i + 1], outs[i]));
    }
}

/// Samples keep the order of the phases: they never begin an attack, never end
/// one, and lead from the release only to silence.
pub proof fn law_samples_keep_phase_order<N: Scalar>(
    pre: ArEnvelope<N>,
    post: ArEnvelope<N>,
    out: N,
)
    requires
        pre.advanced(post, out),
    ensures
        post.state == EnvState::Attack <==> pre.state == EnvState::Attack,
        pre.state == EnvState::Idle ==> post == pre && evaluates(lit(ZERO), out),
        post.state == EnvState::Release ==> pre.state == EnvState::Release,
{
}

/// The end of a note never begins an attack, and leaves silence alone.
pub proof fn law_note_end_keeps_phase_order<N: Scalar>(pre: ArEnvelope<N>, post: ArEnvelope<N>)
    requires
        pre.released(post),
    ensures
        post.state != EnvState::Attack,
        pre.state == EnvState::Idle ==> post == pre,
{
}

/// The begin of a note leads to the attack from anywhere, and touches no
/// coefficient.
pub proof fn law_note_begin_leads_to_attack<N: Scalar>(
    pre: ArEnvelope<N>,
    post: ArEnvelope<N>,
    initial_level: N,
)
    requires
        pre.triggered(post, initial_level),
    ensures
        post.state == EnvState::Attack,
        post.attack_coeff == pre.attack_coeff,
        post.release_coeff == pre.release_coeff,
{
}

/// The attack holds until the note ends: it lasts for any number of samples.
pub proof fn law_attack_holds<N: Scalar>(trace: Seq<ArEnvelope<N>>, outs: Seq<N>, i: int)
    requires
        ArEnvelope::runs(trace, outs),
        trace[0].state == EnvState::Attack,
        0 <= i < trace.len(),
    ensures
        trace[i].state == EnvState::Attack,
        trace[i].attack_coeff == trace[0].attack_coeff,
    decreases i,
{
    if i > 0 {
        law_attack_holds(trace, outs, i - 1);
        assert(trace[i - 1].advanced(trace[i - 1 + 1], outs[i - 1]));
    }
}

/// A note that begins at the level where the envelope stands keeps that level,
/// whatever the phase.
pub proof fn law_retrigger_preserves_level<N: Scalar>(pre: ArEnvelope<N>, post: ArEnvelope<N>)
    requires
        unit_is_closed::<N>(),
        in_unit(pre.level),
        pre.triggered(post, pre.level),
    ensures
        post.level == pre.level,
        post.state == EnvState::Attack,
{
    reveal_with_fuel(evaluates, 2);
}

/// A sample lies in [0.0, 1.0], and keeps level and coefficients there.
pub proof fn law_sample_is_bounded<N: Scalar>(pre: ArEnvelope<N>, post: ArEnvelope<N>, out: N)
    requires
        unit_is_closed::<N>(),
        pre.is_bounded(),
        pre.advanced(post, out),
    ensures
        in_unit(out),
        post.is_bounded(),
{
    reveal_with_fuel(evaluates, 5);
}

/// The end of a note keeps level and coefficients in [0.0, 1.0].
pub proof fn law_note_end_is_bounded<N: Scalar>(pre: ArEnvelope<N>, post: ArEnvelope<N>)
    requires
        unit_is_closed::<N>(),
        pre.is_bounded(),
        pre.released(post),
    ensures
        post.is_bounded(),
{
}

/// The begin of a note at any number, inside [0.0, 1.0] or not, keeps level and
/// coefficients in [0.0, 1.0].
pub proof fn law_note_begin_is_bounded<N: Scalar>(
    pre: ArEnvelope<N>,
    post: ArEnvelope<N>,
    initial_level: N,
)
    requires
        unit_is_closed::<N>(),
        pre.is_bounded(),
        is_number(initial_level),
        pre.triggered(post, initial_level),
    ensures
        post.is_bounded(),
{
    lemma_clamped_to_unit(initial_level, post.level);
}

/// A release never rises: each sample is at most the level before it.
pub proof fn law_release_never_rises<N: Scalar>(pre: ArEnvelope<N>, post: ArEnvelope<N>, out: N)
    requires
        unit_is_closed::<N>(),
        pre.is_bounded(),
        pre.state == EnvState::Release,
        pre.advanced(post, out),
    ensures
        !call_ensures(N::is_at_most, (out, pre.level), false),
{
    reveal_with_fuel(evaluates, 3);
}

/// 1.0 is where the attack stands still: no distance is left, and it counts as
/// arrived. IEEE arithmetic computes these exactly.
pub open spec fn full_level_is_fixed<N: Scalar>() -> bool {
    &&& forall|one: N, coeff: N, risen: N|
        evaluates(lit(ONE), one) && in_unit(coeff) && #[trigger] evaluates(
            lit(ONE).minus(lit(ONE).minus(val(one)).times(val(coeff))),
            risen,
        ) ==> evaluates(lit(ONE), risen)
    &&& forall|one: N, bound: N|
        evaluates(lit(ONE), one) && evaluates(lit(ONE).minus(lit(IDLE_THRESHOLD)), bound)
            ==> !#[trigger] call_ensures(N::is_at_least, (one, bound), false)
}

/// Once at 1.0 the attack holds there until the note ends.
pub proof fn law_hold_stays_at_one<N: Scalar>(trace: Seq<ArEnvelope<N>>, outs: Seq<N>, i: int)
    requires
        full_level_is_fixed::<N>(),
        ArEnvelope::runs(trace, outs),
        trace[0].state == EnvState::Attack,
        evaluates(lit(ONE), trace[0].level),
        in_unit(trace[0].attack_coeff),
        0 <= i < trace.len(),
    ensures
        trace[i].state == EnvState::Attack,
        trace[i].attack_coeff == trace[0].attack_coeff,
        evaluates(lit(ONE), trace[i].level),
        i > 0 ==> evaluates(lit(ONE), outs[i - 1]),
    decreases i,
{
    if i > 0 {
        law_hold_stays_at_one(trace, outs, i - 1);
        assert(trace[i - 1].advanced(trace[i - 1 + 1], outs[i - 1]));
    }
}

/// A cleared envelope is bounded.
pub proof fn law_cleared_is_bounded<N: Scalar>(env: ArEnvelope<N>)
    requires
        unit_is_closed::<N>(),
        env.is_cleared(),
    ensures
        env.is_bounded(),
{
}

/// A number held to [0.0, 1.0] lies in it.
proof fn lemma_clamped_to_unit<N: Scalar>(x: N, r: N)
    requires
        unit_is_closed::<N>(),
        is_number(x),
        evaluates(val(x).clamp(lit(ZERO), lit(ONE)), r),
    ensures
        in_unit(r),
{
    reveal_with_fuel(evaluates, 2);
}

/// Silence is at 0.0: this is so at the start, and every operation keeps it. So
/// a note that begins from silence begins at 0.0.
pub proof fn law_silence_is_at_zero<N: Scalar>(pre: ArEnvelope<N>, post: ArEnvelope<N>)
    requires
        pre.is_cleared() || pre.is_idle_at_zero(),
        pre.leads_to(post),
    ensures
        pre.is_idle_at_zero(),
        post.is_idle_at_zero(),
{
}

/// Dividing into a negative number and raising `e` to the quotient ends in the
/// unit interval: the greater of a number and 1 is at least 1; the negated
/// number of time constants over such a divisor is at most 0; and `e` raised to
/// what is at most 0 lies in [0.0, 1.0]. The first two are IEEE arithmetic; of the
/// exponential it is assumed.
pub open spec fn decay_falls<N: Scalar>() -> bool {
    &&& forall|x: N, one: N, r: N| #[trigger]
        call_ensures(N::greater, (x, one), r) && evaluates(lit(ONE), one) ==> is_at_least_one(r)
    &&& forall|negative: N, n: N, q: N| #[trigger]
        call_ensures(N::over, (negative, n), q) && evaluates(lit(NUM_TC).negated(), negative)
            && is_at_least_one(n) ==> is_at_most_zero(q)
    &&& forall|x: N, r: N| #[trigger]
        call_ensures(N::exponential, (x,), r) && is_at_most_zero(x) ==> in_unit(r)
}

/// `x` never fails to answer that it is at least 1.
pub open spec fn is_at_least_one<N: Scalar>(x: N) -> bool {
    forall|one: N|
        evaluates(lit(ONE), one) ==> !#[trigger] call_ensures(N::is_at_least, (x, one), false)
}

/// `x` never fails to answer that it is at most 0.
pub open spec fn is_at_most_zero<N: Scalar>(x: N) -> bool {
    forall|zero: N|
        evaluates(lit(ZERO), zero) ==> !#[trigger] call_ensures(N::is_at_most, (x, zero), false)
}

/// Every attack or release time, negative ones and such as are not numbers
/// included, gives a coefficient in [0.0, 1.0]: setting one keeps the bounds.
pub proof fn law_times_are_bounded<N: Scalar>(
    pre: ArEnvelope<N>,
    duration_ms: N,
    sample_rate: N,
    coeff: N,
)
    requires
        decay_falls::<N>(),
        pre.is_bounded(),
        evaluates(decay_coefficient(duration_ms, sample_rate), coeff),
    ensures
        (ArEnvelope { attack_coeff: coeff, ..pre }).is_bounded(),
        (ArEnvelope { release_coeff: coeff, ..pre }).is_bounded(),
{
    reveal_with_fuel(evaluates, 4);
}

/// A level times a coefficient, `n` times over.
pub open spec fn decayed<N>(level: N, coeff: N, n: nat) -> Formula<N>
    decreases n,
{
    if n == 0 {
        val(level)
    } else {
        decayed(level, coeff, (n - 1) as nat).times(val(coeff))
    }
}

/// A level with its distance to 1.0 multiplied by a coefficient, `n` times over.
pub open spec fn approached<N>(level: N, coeff: N, n: nat) -> Formula<N>
    decreases n,
{
    if n == 0 {
        val(level)
    } else {
        lit(ONE).minus(
            lit(ONE).minus(approached(level, coeff, (n - 1) as nat)).times(val(coeff)),
        )
    }
}

/// A release is geometric: as long as it lasts, its level after `n` samples is the
/// level at its begin times the coefficient, `n` times over.
pub proof fn law_release_is_geometric<N: Scalar>(
    trace: Seq<ArEnvelope<N>>,
    outs: Seq<N>,
    n: nat,
)
    requires
        ArEnvelope::runs(trace, outs),
        n < trace.len(),
        trace[0].state == EnvState::Release,
        trace[n as int].state == EnvState::Release,
    ensures
        evaluates(
            decayed(trace[0].level, trace[0].release_coeff, n),
            trace[n as int].level,
        ),
        trace[n as int].release_coeff == trace[0].release_coeff,
    decreases n,
{
    if n > 0 {
        let k = n - 1;
        assert(trace[k].advanced(trace[k + 1], outs[k]));
        law_samples_keep_phase_order(trace[k], trace[k + 1], outs[k]);
        law_release_is_geometric(trace, outs, k as nat);
        lemma_fallen_level(trace[k], trace[0].level, trace[0].release_coeff, k as nat);
    }
}

/// One more sample of release is one more factor.
proof fn lemma_fallen_level<N: Scalar>(env: ArEnvelope<N>, level: N, coeff: N, k: nat)
    requires
        evaluates(decayed(level, coeff, k), env.level),
        env.release_coeff == coeff,
    ensures
        forall|r: N| #[trigger]
            evaluates(env.fallen_level(), r) ==> evaluates(decayed(level, coeff, k + 1), r),
{
    lemma_times_carries_over(
        val(env.level),
        decayed(level, coeff, k),
        val(coeff),
        val(coeff),
    );
}

/// A release ends in silence: once the level at its begin times the coefficient,
/// `n` times over, is at most the threshold, the envelope is idle.
pub proof fn law_release_ends_in_silence<N: Scalar>(
    trace: Seq<ArEnvelope<N>>,
    outs: Seq<N>,
    n: nat,
    product: N,
)
    requires
        repeatable::<N>(),
        ArEnvelope::runs(trace, outs),
        0 < n < trace.len(),
        trace[0].state == EnvState::Release,
        evaluates(decayed(trace[0].level, trace[0].release_coeff, n), product),
        forall|threshold: N|
            evaluates(lit(IDLE_THRESHOLD), threshold) ==> !#[trigger] call_ensures(
                N::is_at_most,
                (product, threshold),
                false,
            ),
    ensures
        trace[n as int].state == EnvState::Idle,
{
    let k = n - 1;
    assert(trace[k].advanced(trace[k + 1], outs[k]));
    lemma_release_leads_to_idle(trace, outs, k);
    if trace[k].state == EnvState::Release {
        law_release_is_geometric(trace, outs, k as nat);
        lemma_fallen_level(trace[k], trace[0].level, trace[0].release_coeff, k as nat);
        let formula = decayed(trace[0].level, trace[0].release_coeff, n);
        assert forall|fallen: N| #[trigger]
            evaluates(trace[k].fallen_level(), fallen) implies fallen == product by {
            law_formula_has_one_value(formula, fallen, product);
        }
    }
}

proof fn lemma_release_leads_to_idle<N: Scalar>(
    trace: Seq<ArEnvelope<N>>,
    outs: Seq<N>,
    i: int,
)
    requires
        ArEnvelope::runs(trace, outs),
        0 <= i < trace.len(),
        trace[0].state == EnvState::Release,
    ensures
        trace[i].state == EnvState::Release || trace[i].state == EnvState::Idle,
    decreases i,
{
    if i > 0 {
        lemma_release_leads_to_idle(trace, outs, i - 1);
        assert(trace[i - 1].advanced(trace[i - 1 + 1], outs[i - 1]));
    }
}

/// No sample up to the `n`th brings the attack that begins here to its end: what
/// the distance comes to is never answered to be within the threshold.
pub open spec fn is_under_way<N: Scalar>(env: ArEnvelope<N>, n: nat) -> bool {
    forall|k: nat, risen: N, bound: N|
        0 < k <= n && #[trigger] evaluates(approached(env.level, env.attack_coeff, k), risen)
            && evaluates(lit(ONE).minus(lit(IDLE_THRESHOLD)), bound) ==> !#[trigger] call_ensures(
            N::is_at_least,
            (risen, bound),
            true,
        )
}

/// An attack approaches 1.0 geometrically: as long as it is under way, its level
/// after `n` samples is the level at its begin with the distance multiplied by the
/// coefficient, `n` times over.
pub proof fn law_attack_is_geometric<N: Scalar>(
    trace: Seq<ArEnvelope<N>>,
    outs: Seq<N>,
    n: nat,
)
    requires
        ArEnvelope::runs(trace, outs),
        n < trace.len(),
        trace[0].state == EnvState::Attack,
        is_under_way(trace[0], n),
    ensures
        evaluates(
            approached(trace[0].level, trace[0].attack_coeff, n),
            trace[n as int].level,
        ),
        trace[n as int].state == EnvState::Attack,
        trace[n as int].attack_coeff == trace[0].attack_coeff,
    decreases n,
{
    if n > 0 {
        let k = n - 1;
        assert(is_under_way(trace[0], k as nat));
        law_attack_is_geometric(trace, outs, k as nat);
        assert(trace[k].advanced(trace[k + 1], outs[k]));
        lemma_risen_level(trace[k], trace[0].level, trace[0].attack_coeff, k as nat);
    }
}

/// One more sample of attack is one more factor on the distance.
proof fn lemma_risen_level<N: Scalar>(env: ArEnvelope<N>, level: N, coeff: N, k: nat)
    requires
        evaluates(approached(level, coeff, k), env.level),
        env.attack_coeff == coeff,
    ensures
        forall|r: N| #[trigger]
            evaluates(env.risen_level(), r) ==> evaluates(approached(level, coeff, k + 1), r),
{
    let one: Formula<N> = lit(ONE);
    let before = approached(level, coeff, k);
    lemma_minus_carries_over(one, one, val(env.level), before);
    lemma_times_carries_over(
        one.minus(val(env.level)),
        one.minus(before),
        val(coeff),
        val(coeff),
    );
    lemma_minus_carries_over(
        one,
        one,
        one.minus(val(env.level)).times(val(coeff)),
        one.minus(before).times(val(coeff)),
    );
}

/// An attack arrives: once the distance, multiplied by the coefficient `n` times
/// over, is within the threshold, the level is 1.0.
pub proof fn law_attack_arrives<N: Scalar>(
    trace: Seq<ArEnvelope<N>>,
    outs: Seq<N>,
    n: nat,
    risen: N,
)
    requires
        repeatable::<N>(),
        ArEnvelope::runs(trace, outs),
        0 < n < trace.len(),
        trace[0].state == EnvState::Attack,
        is_under_way(trace[0], (n - 1) as nat),
        evaluates(approached(trace[0].level, trace[0].attack_coeff, n), risen),
        forall|bound: N|
            evaluates(lit(ONE).minus(lit(IDLE_THRESHOLD)), bound) ==> !#[trigger] call_ensures(
                N::is_at_least,
                (risen, bound),
                false,
            ),
    ensures
        evaluates(lit(ONE), trace[n as int].level),
{
    let k = n - 1;
    law_attack_is_geometric(trace, outs, k as nat);
    assert(trace[k].advanced(trace[k + 1], outs[k]));
    lemma_risen_level(trace[k], trace[0].level, trace[0].attack_coeff, k as nat);
    let formula = approached(trace[0].level, trace[0].attack_coeff, n);
    assert forall|r: N| #[trigger] evaluates(trace[k].risen_level(), r) implies r == risen by {
        law_formula_has_one_value(formula, r, risen);
    }
}

/// The level is restored by its distance: taken from 1 it gives a number that taken
/// from 1 gives the level. Over binary32 these are, in [0.0, 1.0], the multiples of
/// 2^-24.
pub open spec fn is_restored<N: Scalar>(level: N) -> bool {
    forall|one: N, distance: N|
        evaluates(lit(ONE), one) && #[trigger] call_ensures(N::minus, (one, level), distance)
            ==> call_ensures(N::minus, (one, distance), level)
}

/// Distances to 1 fall as numbers rise; the distance of a number in [0.0, 1.0] is
/// itself restored; and so are 0 and 1. This is IEEE arithmetic.
pub open spec fn distance_is_restored<N: Scalar>() -> bool {
    &&& forall|one: N, x: N, y: N, r: N, s: N|
        evaluates(lit(ONE), one) && !call_ensures(N::is_at_most, (y, x), false)
            && #[trigger] call_ensures(N::minus, (one, x), r) && #[trigger] call_ensures(
            N::minus,
            (one, y),
            s,
        ) ==> !call_ensures(N::is_at_most, (r, s), false)
    &&& forall|one: N, x: N, r: N|
        evaluates(lit(ONE), one) && in_unit(x) && #[trigger] call_ensures(N::minus, (one, x), r)
            ==> is_restored(r)
    &&& forall|zero: N| #[trigger] evaluates(lit(ZERO), zero) ==> is_restored(zero)
    &&& forall|one: N| #[trigger] evaluates(lit(ONE), one) ==> is_restored(one)
}

/// An attack never falls: each sample is at least the level before it. It begins at
/// a level that is restored by its distance, as 0.0 is and every level that an
/// attack has brought about.
pub proof fn law_attack_never_falls<N: Scalar>(trace: Seq<ArEnvelope<N>>, outs: Seq<N>, i: int)
    requires
        unit_is_closed::<N>(),
        distance_is_restored::<N>(),
        ArEnvelope::runs(trace, outs),
        trace[0].state == EnvState::Attack,
        trace[0].is_bounded(),
        is_restored(trace[0].level),
        0 <= i < outs.len(),
    ensures
        !call_ensures(N::is_at_most, (trace[i].level, outs[i]), false),
{
    lemma_attack_keeps_restored(trace, outs, i);
    assert(trace[i].advanced(trace[i + 1], outs[i]));
    lemma_attack_sample_rises(trace[i], trace[i + 1], outs[i]);
}

/// Far from 1.0 an attack rises from whatever level it begins at: where the exact
/// rise of a sample is more than three errors of rounding, the sample is above the
/// level before it.
pub proof fn law_attack_rises_while_far<N: Scalar>(
    reading: Reading<N>,
    pre: ArEnvelope<N>,
    post: ArEnvelope<N>,
    out: N,
)
    requires
        reading.is_accurate(),
        reading.bound >= 2real,
        reading.error <= 1real / 12real,
        pre.state == EnvState::Attack,
        0real <= reading.of(pre.level) <= 1real,
        0real <= reading.of(pre.attack_coeff) <= 1real,
        (1real - reading.of(pre.level)) * (1real - reading.of(pre.attack_coeff)) > 3real
            * reading.error,
        pre.advanced(post, out),
    ensures
        !call_ensures(N::is_below, (pre.level, out), false),
{
    let (level, c) = (reading.of(pre.level), reading.of(pre.attack_coeff));
    assert(1real - (1real - level) * c == level + (1real - level) * (1real - c))
        by (nonlinear_arith);
    assert(level < 1real) by (nonlinear_arith)
        requires
            level <= 1real,
            (1real - level) * (1real - c) > 0real,
    ;
    assert(0real <= (1real - level) * c <= 1real) by (nonlinear_arith)
        requires
            0real <= level <= 1real,
            0real <= c <= 1real,
    ;
    if !evaluates(lit(ONE), out) {
        lemma_risen_is_close(reading, pre, out);
        assert(reading.covers(reading.of(out)));
    }
}

proof fn lemma_attack_keeps_restored<N: Scalar>(
    trace: Seq<ArEnvelope<N>>,
    outs: Seq<N>,
    i: int,
)
    requires
        unit_is_closed::<N>(),
        distance_is_restored::<N>(),
        ArEnvelope::runs(trace, outs),
        trace[0].state == EnvState::Attack,
        trace[0].is_bounded(),
        is_restored(trace[0].level),
        0 <= i < trace.len(),
    ensures
        trace[i].state == EnvState::Attack,
        trace[i].is_bounded(),
        is_restored(trace[i].level),
    decreases i,
{
    if i > 0 {
        let k = i - 1;
        lemma_attack_keeps_restored(trace, outs, k);
        assert(trace[k].advanced(trace[k + 1], outs[k]));
        law_sample_is_bounded(trace[k], trace[k + 1], outs[k]);
        lemma_attack_sample_rises(trace[k], trace[k + 1], outs[k]);
    }
}

proof fn lemma_attack_sample_rises<N: Scalar>(pre: ArEnvelope<N>, post: ArEnvelope<N>, out: N)
    requires
        unit_is_closed::<N>(),
        distance_is_restored::<N>(),
        pre.state == EnvState::Attack,
        pre.is_bounded(),
        is_restored(pre.level),
        pre.advanced(post, out),
    ensures
        !call_ensures(N::is_at_most, (pre.level, out), false),
        is_restored(post.level),
{
    let (risen, bound, arrived) = choose|risen: N, bound: N, arrived: bool|
        {
            &&& #[trigger] call_ensures(N::is_at_least, (risen, bound), arrived)
            &&& evaluates(pre.risen_level(), risen)
            &&& evaluates(lit(ONE).minus(lit(IDLE_THRESHOLD)), bound)
            &&& if arrived {
                evaluates(lit(ONE), post.level)
            } else {
                post.level == risen
            }
        };
    if !arrived {
        let one: Formula<N> = lit(ONE);
        let (x, p) = choose|x: N, p: N| #[trigger]
            call_ensures(N::minus, (x, p), risen) && evaluates(one, x) && evaluates(
                one.minus(val(pre.level)).times(val(pre.attack_coeff)),
                p,
            );
        let (d, c) = choose|d: N, c: N| #[trigger]
            call_ensures(N::times, (d, c), p) && evaluates(one.minus(val(pre.level)), d)
                && evaluates(val(pre.attack_coeff), c);
        let (y, l) = choose|y: N, l: N| #[trigger]
            call_ensures(N::minus, (y, l), d) && evaluates(one, y) && evaluates(
                val(pre.level),
                l,
            );
        assert(x == y);
        assert(in_unit(d));
        assert(in_unit(p));
        assert(call_ensures(N::minus, (x, d), pre.level));
    }
}

/// The release follows its curve: as long as it lasts, the level after `n` samples
/// is the level at its begin times the coefficient to the power of `n`, but for one
/// share of rounding per sample.
pub proof fn law_release_follows_curve<N: Scalar>(
    reading: Reading<N>,
    share: real,
    floor: real,
    threshold: real,
    trace: Seq<ArEnvelope<N>>,
    outs: Seq<N>,
    n: nat,
)
    requires
        reading.is_accurate(),
        reading.is_proportionate(share, floor),
        floor <= threshold <= 1real,
        forall|t: N| #[trigger] evaluates(lit(IDLE_THRESHOLD), t) ==> reading.of(t) == threshold,
        ArEnvelope::runs(trace, outs),
        n < trace.len(),
        trace[0].state == EnvState::Release,
        trace[n as int].state == EnvState::Release,
        0real <= reading.of(trace[0].level) <= 1real,
        0real <= reading.of(trace[0].release_coeff),
        reading.of(trace[0].release_coeff) * (1real + share) <= 1real,
        floor <= reading.of(trace[0].level) * reading.of(trace[0].release_coeff),
        floor <= threshold * reading.of(trace[0].release_coeff),
    ensures
        reading.of(trace[0].level) * power_of(
            reading.of(trace[0].release_coeff) * (1real - share),
            n,
        ) <= reading.of(trace[n as int].level) <= reading.of(trace[0].level) * power_of(
            reading.of(trace[0].release_coeff) * (1real + share),
            n,
        ),
        reading.of(trace[n as int].level) <= 1real,
        0 < n ==> threshold <= reading.of(trace[n as int].level),
        trace[n as int].release_coeff == trace[0].release_coeff,
    decreases n,
{
    let start = reading.of(trace[0].level);
    let c = reading.of(trace[0].release_coeff);
    if n == 0 {
        assert(start * 1real == start) by (nonlinear_arith);
    } else {
        let k = n - 1;
        let (pre, post) = (trace[k], trace[n as int]);
        assert(pre.advanced(trace[k + 1], outs[k]));
        law_samples_keep_phase_order(pre, trace[k + 1], outs[k]);
        law_release_follows_curve(reading, share, floor, threshold, trace, outs, k as nat);
        let (level, fallen) = (reading.of(pre.level), reading.of(post.level));
        let (x, y) = choose|x: N, y: N| #[trigger]
            call_ensures(N::times, (x, y), post.level) && evaluates(val(pre.level), x)
                && evaluates(val(trace[0].release_coeff), y);
        assert(c <= 1real && floor <= level * c <= 1real) by (nonlinear_arith)
            requires
                0real <= share,
                0real <= c,
                c * (1real + share) <= 1real,
                level <= 1real,
                floor <= start * c,
                floor <= threshold * c,
                level == start || threshold <= level,
        ;
        assert(0real <= level) by (nonlinear_arith)
            requires
                0real < floor,
                floor <= level * c,
                0real <= c,
        ;
        assert(is_within(fallen, level * c, share * (level * c)));
        lemma_release_step(start, c, share, k as nat, level, fallen);
        assert(reading.covers(fallen));
    }
}

proof fn lemma_release_step(
    start: real,
    c: real,
    share: real,
    k: nat,
    level: real,
    fallen: real,
)
    requires
        0real <= share <= 1real,
        0real <= c,
        c * (1real + share) <= 1real,
        0real <= level <= 1real,
        start * power_of(c * (1real - share), k) <= level <= start * power_of(
            c * (1real + share),
            k,
        ),
        is_within(fallen, level * c, share * (level * c)),
    ensures
        start * power_of(c * (1real - share), k + 1) <= fallen <= start * power_of(
            c * (1real + share),
            k + 1,
        ),
        0real <= fallen <= 1real,
{
    let (low, high) = (c * (1real - share), c * (1real + share));
    let (p, q) = (power_of(low, k), power_of(high, k));
    assert(level * c - share * (level * c) == level * low) by (nonlinear_arith)
        requires
            low == c * (1real - share),
    ;
    assert(level * c + share * (level * c) == level * high) by (nonlinear_arith)
        requires
            high == c * (1real + share),
    ;
    assert(0real <= low) by (nonlinear_arith)
        requires
            low == c * (1real - share),
            0real <= c,
            share <= 1real,
    ;
    assert(0real <= high) by (nonlinear_arith)
        requires
            high == c * (1real + share),
            0real <= c,
            0real <= share,
    ;
    assert(start * (p * low) <= level * low) by (nonlinear_arith)
        requires
            start * p <= level,
            0real <= low,
    ;
    assert(level * high <= start * (q * high)) by (nonlinear_arith)
        requires
            level <= start * q,
            0real <= high,
    ;
    assert(0real <= level * low && level * high <= 1real) by (nonlinear_arith)
        requires
            0real <= level <= 1real,
            0real <= low,
            0real <= high <= 1real,
    ;
}

/// A release lasts its time: the envelope is still fading out while the level at its
/// begin times the coefficient to the power of `n`, less one share of rounding per
/// sample, is above the threshold.
pub proof fn law_release_lasts_its_time<N: Scalar>(
    reading: Reading<N>,
    share: real,
    floor: real,
    threshold: real,
    trace: Seq<ArEnvelope<N>>,
    outs: Seq<N>,
    n: nat,
)
    requires
        reading.is_accurate(),
        reading.is_decisive(),
        reading.is_proportionate(share, floor),
        floor <= threshold <= 1real,
        forall|t: N| #[trigger] evaluates(lit(IDLE_THRESHOLD), t) ==> reading.of(t) == threshold,
        ArEnvelope::runs(trace, outs),
        n < trace.len(),
        trace[0].state == EnvState::Release,
        0real <= reading.of(trace[0].level) <= 1real,
        0real <= reading.of(trace[0].release_coeff),
        reading.of(trace[0].release_coeff) * (1real + share) <= 1real,
        floor <= reading.of(trace[0].level) * reading.of(trace[0].release_coeff),
        floor <= threshold * reading.of(trace[0].release_coeff),
        reading.of(trace[0].level) * power_of(
            reading.of(trace[0].release_coeff) * (1real - share),
            n,
        ) > threshold,
    ensures
        trace[n as int].state == EnvState::Release,
    decreases n,
{
    if n > 0 {
        let start = reading.of(trace[0].level);
        let c = reading.of(trace[0].release_coeff);
        let k = (n - 1) as nat;
        let low = c * (1real - share);
        assert(c <= 1real && 0real <= low <= 1real) by (nonlinear_arith)
            requires
                0real <= share <= 1real,
                0real <= c,
                c * (1real + share) <= 1real,
                low == c * (1real - share),
        ;
        lemma_power_is_share(low, k);
        let p = power_of(low, k);
        assert(start * (p * low) <= start * p) by (nonlinear_arith)
            requires
                0real <= start,
                0real <= p,
                0real <= low <= 1real,
        {
            assert(p * low <= p);
        }
        law_release_lasts_its_time(reading, share, floor, threshold, trace, outs, k);
        law_release_follows_curve(reading, share, floor, threshold, trace, outs, k);
        let (pre, post) = (trace[k as int], trace[n as int]);
        assert(pre.advanced(trace[k as int + 1], outs[k as int]));
        let (fallen, limit, silent) = choose|fallen: N, limit: N, silent: bool|
            {
                &&& #[trigger] call_ensures(N::is_at_most, (fallen, limit), silent)
                &&& evaluates(pre.fallen_level(), fallen)
                &&& evaluates(lit(IDLE_THRESHOLD), limit)
                &&& if silent {
                    post.state == EnvState::Idle && evaluates(lit(ZERO), post.level)
                } else {
                    post.state == EnvState::Release && post.level == fallen
                }
            };
        let (level, f) = (reading.of(pre.level), reading.of(fallen));
        let (x, y) = choose|x: N, y: N| #[trigger]
            call_ensures(N::times, (x, y), fallen) && evaluates(val(pre.level), x) && evaluates(
                val(trace[0].release_coeff),
                y,
            );
        assert(floor <= level * c <= 1real) by (nonlinear_arith)
            requires
                0real <= c <= 1real,
                level <= 1real,
                floor <= start * c,
                floor <= threshold * c,
                level == start || threshold <= level,
        ;
        assert(0real <= level) by (nonlinear_arith)
            requires
                0real < floor,
                floor <= level * c,
                0real <= c,
        ;
        assert(is_within(f, level * c, share * (level * c)));
        lemma_release_step(start, c, share, k, level, f);
        assert(reading.covers(f));
    }
}

/// A release ends in its time: the envelope is idle once the level at its begin
/// times the coefficient to the power of `n`, with one share of rounding per
/// sample, is below the threshold.
pub proof fn law_release_ends_in_time<N: Scalar>(
    reading: Reading<N>,
    share: real,
    floor: real,
    threshold: real,
    trace: Seq<ArEnvelope<N>>,
    outs: Seq<N>,
    n: nat,
)
    requires
        reading.is_accurate(),
        reading.is_proportionate(share, floor),
        floor <= threshold <= 1real,
        forall|t: N| #[trigger] evaluates(lit(IDLE_THRESHOLD), t) ==> reading.of(t) == threshold,
        ArEnvelope::runs(trace, outs),
        0 < n < trace.len(),
        trace[0].state == EnvState::Release,
        0real <= reading.of(trace[0].level) <= 1real,
        0real <= reading.of(trace[0].release_coeff),
        reading.of(trace[0].release_coeff) * (1real + share) <= 1real,
        floor <= reading.of(trace[0].level) * reading.of(trace[0].release_coeff),
        floor <= threshold * reading.of(trace[0].release_coeff),
        reading.of(trace[0].level) * power_of(
            reading.of(trace[0].release_coeff) * (1real + share),
            n,
        ) < threshold,
    ensures
        trace[n as int].state == EnvState::Idle,
{
    lemma_release_leads_to_idle(trace, outs, n as int);
    if trace[n as int].state == EnvState::Release {
        law_release_follows_curve(reading, share, floor, threshold, trace, outs, n);
    }
}

/// The curve of an attack in exact arithmetic: the distance to 1 is that at its
/// begin times the coefficient to the power of `n`.
pub open spec fn attack_curve(start: real, coeff: real, n: nat) -> real {
    1real - (1real - start) * power_of(coeff, n)
}

/// The attack follows its curve until it arrives: the level after `n` samples is 1.0
/// or on the curve, but for three errors of rounding per sample, which shrink with
/// the distance.
pub proof fn law_attack_follows_curve<N: Scalar>(
    reading: Reading<N>,
    trace: Seq<ArEnvelope<N>>,
    outs: Seq<N>,
    n: nat,
)
    requires
        reading.is_accurate(),
        full_level_is_fixed::<N>(),
        reading.bound >= 2real,
        compound_error(
            reading.of(trace[0].attack_coeff),
            3real * reading.error,
            n,
        ) <= 1real / 4real,
        ArEnvelope::runs(trace, outs),
        n < trace.len(),
        trace[0].state == EnvState::Attack,
        in_unit(trace[0].attack_coeff),
        0real <= reading.of(trace[0].level) <= 1real,
        0real <= reading.of(trace[0].attack_coeff) <= 1real,
    ensures
        trace[n as int].state == EnvState::Attack,
        trace[n as int].attack_coeff == trace[0].attack_coeff,
        evaluates(lit(ONE), trace[n as int].level) || is_within(
            reading.of(trace[n as int].level),
            attack_curve(
                reading.of(trace[0].level),
                reading.of(trace[0].attack_coeff),
                n,
            ),
            compound_error(reading.of(trace[0].attack_coeff), 3real * reading.error, n),
        ),
    decreases n,
{
    let start = reading.of(trace[0].level);
    let c = reading.of(trace[0].attack_coeff);
    let u = reading.error;
    if n == 0 {
        assert((1real - start) * 1real == 1real - start) by (nonlinear_arith);
    } else {
        let k = (n - 1) as nat;
        lemma_compound_error_grows(c, 3real * u, k);
        law_attack_follows_curve(reading, trace, outs, k);
        let pre = trace[k as int];
        let post = trace[n as int];
        assert(pre.advanced(trace[k as int + 1], outs[k as int]));
        if evaluates(lit(ONE), pre.level) {
            let (t, o) = (seq![pre, post], seq![outs[k as int]]);
            assert(ArEnvelope::runs(t, o));
            law_hold_stays_at_one(t, o, 1);
        } else if !evaluates(lit(ONE), post.level) {
            assert(evaluates(pre.risen_level(), post.level));
            let error = compound_error(c, 3real * u, k);
            assert(0real <= error * c) by (nonlinear_arith)
                requires
                    0real <= error,
                    0real <= c,
            ;
            lemma_attack_step(start, c, k, reading.of(pre.level), error);
            lemma_risen_is_close(reading, pre, post.level);
        }
    }
}

/// One sample of attack is off by three errors of rounding.
proof fn lemma_risen_is_close<N: Scalar>(reading: Reading<N>, env: ArEnvelope<N>, risen: N)
    requires
        reading.is_accurate(),
        reading.bound >= 2real,
        reading.error <= 1real / 12real,
        0real - 1real / 4real <= reading.of(env.level) <= 5real / 4real,
        0real <= reading.of(env.attack_coeff) <= 1real,
        evaluates(env.risen_level(), risen),
    ensures
        is_within(
            reading.of(risen),
            1real - (1real - reading.of(env.level)) * reading.of(env.attack_coeff),
            3real * reading.error,
        ),
{
    let one: Formula<N> = lit(ONE);
    let u = reading.error;
    let (x, p) = choose|x: N, p: N| #[trigger]
        call_ensures(N::minus, (x, p), risen) && evaluates(one, x) && evaluates(
            one.minus(val(env.level)).times(val(env.attack_coeff)),
            p,
        );
    let (d, c) = choose|d: N, c: N| #[trigger]
        call_ensures(N::times, (d, c), p) && evaluates(one.minus(val(env.level)), d)
            && evaluates(val(env.attack_coeff), c);
    let (y, l) = choose|y: N, l: N| #[trigger]
        call_ensures(N::minus, (y, l), d) && evaluates(one, y) && evaluates(val(env.level), l);
    let (vd, vc, distance) = (reading.of(d), reading.of(c), 1real - reading.of(env.level));
    assert(is_within(vd, distance, u));
    assert(0real - 1real / 3real <= vd * vc <= 4real / 3real) by (nonlinear_arith)
        requires
            0real - 1real / 3real <= vd <= 4real / 3real,
            0real <= vc <= 1real,
    ;
    assert(is_within(reading.of(p), vd * vc, u));
    lemma_scaled_error(vc, vd, distance, u, 1real);
    assert(vc * vd == vd * vc) by (nonlinear_arith);
    assert(vc * distance == distance * vc) by (nonlinear_arith);
}

proof fn lemma_attack_step(start: real, c: real, k: nat, level: real, error: real)
    requires
        0real <= start <= 1real,
        0real <= c <= 1real,
        0real <= error <= 1real / 4real,
        is_within(level, attack_curve(start, c, k), error),
    ensures
        0real - 1real / 4real <= level <= 5real / 4real,
        is_within(
            1real - (1real - level) * c,
            attack_curve(start, c, k + 1),
            error * c,
        ),
{
    let p = power_of(c, k);
    lemma_power_is_share(c, k);
    assert(0real <= (1real - start) * p <= 1real) by (nonlinear_arith)
        requires
            0real <= start <= 1real,
            0real <= p <= 1real,
    ;
    let distance = (1real - start) * p;
    assert(distance * c - error * c <= (1real - level) * c <= distance * c + error * c)
        by (nonlinear_arith)
        requires
            distance - error <= 1real - level <= distance + error,
            0real <= c,
    ;
    assert(distance * c == (1real - start) * (p * c)) by (nonlinear_arith)
        requires
            distance == (1real - start) * p,
    ;
}

/// An attack arrives in its time: the level is 1.0 once the curve is above the point
/// of arrival by more than the rounding of the samples, which comes to at most
/// `slack`. Of an attack so long that its slack exceeds the threshold this promises
/// nothing.
pub proof fn law_attack_arrives_in_time<N: Scalar>(
    reading: Reading<N>,
    arrival: real,
    slack: real,
    trace: Seq<ArEnvelope<N>>,
    outs: Seq<N>,
    n: nat,
)
    requires
        reading.is_accurate(),
        full_level_is_fixed::<N>(),
        reading.bound >= 2real,
        0real <= slack <= 1real / 4real,
        3real * reading.error <= slack * (1real - reading.of(trace[0].attack_coeff)),
        0real <= arrival <= 1real,
        forall|b: N| #[trigger]
            evaluates(lit(ONE).minus(lit(IDLE_THRESHOLD)), b) ==> reading.of(b) == arrival,
        ArEnvelope::runs(trace, outs),
        0 < n < trace.len(),
        trace[0].state == EnvState::Attack,
        in_unit(trace[0].attack_coeff),
        0real <= reading.of(trace[0].level) <= 1real,
        0real <= reading.of(trace[0].attack_coeff) <= 1real,
        attack_curve(reading.of(trace[0].level), reading.of(trace[0].attack_coeff), n) - slack
            > arrival,
    ensures
        evaluates(lit(ONE), trace[n as int].level),
{
    lemma_compound_error_is_bounded(
        reading.of(trace[0].attack_coeff),
        3real * reading.error,
        n,
        slack,
    );
    law_attack_follows_curve(reading, trace, outs, n);
    let k = n - 1;
    assert(trace[k].advanced(trace[k + 1], outs[k]));
    law_attack_holds(trace, outs, k);
    if !evaluates(lit(ONE), trace[n as int].level) {
        let (start, c) = (reading.of(trace[0].level), reading.of(trace[0].attack_coeff));
        lemma_power_is_share(c, n);
        assert(0real <= (1real - start) * power_of(c, n)) by (nonlinear_arith)
            requires
                0real <= 1real - start,
                0real <= power_of(c, n),
        ;
        assert(reading.covers(reading.of(trace[n as int].level)));
    }
}

/// A duration is the time to the threshold, in exact arithmetic: the coefficient of
/// a duration of `n` samples to the power of `n` is the exponential of the negated
/// number of time constants, however long the duration.
pub proof fn law_duration_spans_time_constants(growth: Growth, time_constants: real, n: nat)
    requires
        growth.is_exponential(),
        0 < n,
    ensures
        power_of(growth.at((0real - time_constants) / n as real), n) == growth.at(
            0real - time_constants,
        ),
{
    let m = n as real;
    let x = (0real - time_constants) / m;
    lemma_power_of_growth(growth, x, n);
    assert(m * x == 0real - time_constants) by (nonlinear_arith)
        requires
            x == (0real - time_constants) / m,
            m > 0real,
    ;
}

/// Whatever was done to an envelope since its initial state, in whatever order:
/// its next sample lies in [0.0, 1.0], and if it is silent, it outputs 0.0 and
/// stays as it is.
pub proof fn law_every_output_is_bounded<N: Scalar>(
    history: Seq<ArEnvelope<N>>,
    i: int,
    post: ArEnvelope<N>,
    out: N,
)
    requires
        unit_is_closed::<N>(),
        decay_falls::<N>(),
        ArEnvelope::is_history(history),
        0 <= i < history.len(),
        history[i].advanced(post, out),
    ensures
        in_unit(out),
        history[i].state == EnvState::Idle ==> post == history[i] && evaluates(lit(ZERO), out),
{
    lemma_history_is_bounded(history, i);
    law_sample_is_bounded(history[i], post, out);
}

proof fn lemma_history_is_bounded<N: Scalar>(history: Seq<ArEnvelope<N>>, i: int)
    requires
        unit_is_closed::<N>(),
        decay_falls::<N>(),
        ArEnvelope::is_history(history),
        0 <= i < history.len(),
    ensures
        history[i].is_bounded(),
    decreases i,
{
    if i == 0 {
        law_cleared_is_bounded(history[0]);
    } else {
        let pre = history[i - 1];
        let post = history[i];
        lemma_history_is_bounded(history, i - 1);
        assert(pre.leads_to(post));
        if post.is_cleared() {
            law_cleared_is_bounded(post);
        } else if exists|ms: N, sample_rate: N|
            post == (ArEnvelope { attack_coeff: post.attack_coeff, ..pre }) && #[trigger] evaluates(
                decay_coefficient(ms, sample_rate),
                post.attack_coeff,
            ) {
            let (ms, sample_rate) = choose|ms: N, sample_rate: N|
                post == (ArEnvelope { attack_coeff: post.attack_coeff, ..pre })
                    && #[trigger] evaluates(
                    decay_coefficient(ms, sample_rate),
                    post.attack_coeff,
                );
            law_times_are_bounded(pre, ms, sample_rate, post.attack_coeff);
        } else if exists|ms: N, sample_rate: N|
            post == (ArEnvelope { release_coeff: post.release_coeff, ..pre })
                && #[trigger] evaluates(
                decay_coefficient(ms, sample_rate),
                post.release_coeff,
            ) {
            let (ms, sample_rate) = choose|ms: N, sample_rate: N|
                post == (ArEnvelope { release_coeff: post.release_coeff, ..pre })
                    && #[trigger] evaluates(
                    decay_coefficient(ms, sample_rate),
                    post.release_coeff,
                );
            law_times_are_bounded(pre, ms, sample_rate, post.release_coeff);
        } else if exists|level: N| #[trigger]
            pre.triggered(post, level) && (is_number(level) || level == pre.level) {
            let level = choose|level: N| #[trigger]
                pre.triggered(post, level) && (is_number(level) || level == pre.level);
            law_note_begin_is_bounded(pre, post, level);
        } else if pre.released(post) {
            law_note_end_is_bounded(pre, post);
        } else {
            let out = choose|out: N| #[trigger] pre.advanced(post, out);
            law_sample_is_bounded(pre, post, out);
        }
    }
}

/// With repeatable arithmetic envelopes that agree hand out the same level, and
/// agree after it.
pub proof fn law_envelope_is_repeatable<N: Scalar>(
    pre: ArEnvelope<N>,
    pre2: ArEnvelope<N>,
    post: ArEnvelope<N>,
    out: N,
    post2: ArEnvelope<N>,
    out2: N,
)
    requires
        repeatable::<N>(),
        pre.agrees_with(pre2),
        pre.advanced(post, out),
        pre2.advanced(post2, out2),
    ensures
        post.agrees_with(post2),
        out == out2,
{
    match pre.state {
        EnvState::Idle => {
            law_formula_has_one_value(lit(ZERO), out, out2);
        },
        EnvState::Attack => {
            let bound_formula = lit(ONE).minus(lit(IDLE_THRESHOLD));
            let (risen, bound, arrived) = choose|risen: N, bound: N, arrived: bool|
                {
                    &&& #[trigger] call_ensures(N::is_at_least, (risen, bound), arrived)
                    &&& evaluates(pre.risen_level(), risen)
                    &&& evaluates(bound_formula, bound)
                    &&& if arrived {
                        evaluates(lit(ONE), post.level)
                    } else {
                        post.level == risen
                    }
                };
            let (risen2, bound2, arrived2) = choose|risen: N, bound: N, arrived: bool|
                {
                    &&& #[trigger] call_ensures(N::is_at_least, (risen, bound), arrived)
                    &&& evaluates(pre2.risen_level(), risen)
                    &&& evaluates(bound_formula, bound)
                    &&& if arrived {
                        evaluates(lit(ONE), post2.level)
                    } else {
                        post2.level == risen
                    }
                };
            law_formula_has_one_value(pre.risen_level(), risen, risen2);
            law_formula_has_one_value(bound_formula, bound, bound2);
            assert(arrived == arrived2);
            if arrived {
                law_formula_has_one_value(lit(ONE), post.level, post2.level);
            }
        },
        EnvState::Release => {
            let (fallen, threshold, silent) = choose|fallen: N, threshold: N, silent: bool|
                {
                    &&& #[trigger] call_ensures(N::is_at_most, (fallen, threshold), silent)
                    &&& evaluates(pre.fallen_level(), fallen)
                    &&& evaluates(lit(IDLE_THRESHOLD), threshold)
                    &&& if silent {
                        post.state == EnvState::Idle && evaluates(lit(ZERO), post.level)
                    } else {
                        post.state == EnvState::Release && post.level == fallen
                    }
                };
            let (fallen2, threshold2, silent2) = choose|fallen: N, threshold: N, silent: bool|
                {
                    &&& #[trigger] call_ensures(N::is_at_most, (fallen, threshold), silent)
                    &&& evaluates(pre2.fallen_level(), fallen)
                    &&& evaluates(lit(IDLE_THRESHOLD), threshold)
                    &&& if silent {
                        post2.state == EnvState::Idle && evaluates(lit(ZERO), post2.level)
                    } else {
                        post2.state == EnvState::Release && post2.level == fallen
                    }
                };
            law_formula_has_one_value(pre.fallen_level(), fallen, fallen2);
            law_formula_has_one_value(lit(IDLE_THRESHOLD), threshold, threshold2);
            assert(silent == silent2);
            if silent {
                law_formula_has_one_value(lit(ZERO), post.level, post2.level);
            }
        },
    }
}

/// With repeatable arithmetic envelopes that agree also agree after the end of
/// the note.
pub proof fn law_release_is_repeatable<N: Scalar>(
    pre: ArEnvelope<N>,
    pre2: ArEnvelope<N>,
    post: ArEnvelope<N>,
    post2: ArEnvelope<N>,
)
    requires
        repeatable::<N>(),
        pre.agrees_with(pre2),
        pre.release_coeff == pre2.release_coeff,
        pre.released(post),
        pre2.released(post2),
    ensures
        post.agrees_with(post2),
{
    assert forall|x: N, y: N| #[trigger]
        evaluates(lit(IDLE_THRESHOLD), x) && #[trigger] evaluates(
            lit(IDLE_THRESHOLD),
            y,
        ) implies x == y by {
        law_formula_has_one_value(lit(IDLE_THRESHOLD), x, y);
    }
    if evaluates(lit(ZERO), post.level) && evaluates(lit(ZERO), post2.level) {
        law_formula_has_one_value(lit(ZERO), post.level, post2.level);
    }
}

} // verus!
