//! Click-free parameter ramps.

use vstd::prelude::*;

use crate::formula::{count, evaluates, law_formula_has_one_value, lit, val, Formula};
use crate::reading::{is_within, Reading};
use crate::scalar::{repeatable, Scalar, ZERO};

verus! {

/// A linear parameter smoother that ramps from a current value to a target
/// over a number of samples. Used to avoid discontinuities when a parameter
/// (a velocity, say) changes abruptly at a note boundary.
///
/// On the final sample of a ramp the value snaps exactly to the target, so
/// that rounding in the repeated addition leaves no trace.
pub struct LinearSmoother<N> {
    /// The value last handed out.
    pub current: N,
    /// Where the ramp ends.
    pub target: N,
    /// Step per sample, fixed when the ramp begins.
    pub increment: N,
    /// Samples left in the ramp; 0 means that there is none.
    pub remaining_samples: u32,
}

impl<N: Scalar> LinearSmoother<N> {
    /// The smoother rests at `value`: no ramp, no step.
    pub open spec fn rests_at(self, value: N) -> bool {
        &&& self.current == value
        &&& self.target == value
        &&& evaluates(lit(ZERO), self.increment)
        &&& self.remaining_samples == 0
    }

    /// The smoother is in its initial state: everything zero.
    pub open spec fn is_zeroed(self) -> bool {
        &&& evaluates(lit(ZERO), self.current)
        &&& evaluates(lit(ZERO), self.target)
        &&& evaluates(lit(ZERO), self.increment)
        &&& self.remaining_samples == 0
    }

    /// The step of a ramp that begins now: the distance to `target` divided
    /// evenly over the samples.
    pub open spec fn step_to(self, target: N, ramp_samples: u32) -> Formula<N> {
        val(target).minus(val(self.current)).over(count(ramp_samples as usize))
    }

    /// `post` is this smoother after it was sent to `target`: at rest there
    /// where the ramp has no samples, else at the start of the ramp.
    pub open spec fn retargeted(self, post: Self, target: N, ramp_samples: u32) -> bool {
        if ramp_samples == 0 {
            post.rests_at(target)
        } else {
            &&& post.current == self.current
            &&& post.target == target
            &&& evaluates(self.step_to(target, ramp_samples), post.increment)
            &&& post.remaining_samples == ramp_samples
        }
    }

    /// `post` is this smoother one sample later, having handed out `out`: at
    /// rest it stays as it is, on the last sample of a ramp it takes the target
    /// itself, and before that it moves by one step.
    pub open spec fn advanced(self, post: Self, out: N) -> bool {
        &&& out == post.current
        &&& post.target == self.target
        &&& post.increment == self.increment
        &&& if self.remaining_samples == 0 {
            post.current == self.current && post.remaining_samples == 0
        } else {
            &&& post.remaining_samples == self.remaining_samples - 1
            &&& if post.remaining_samples == 0 {
                post.current == self.target
            } else {
                evaluates(val(self.current).plus(val(self.increment)), post.current)
            }
        }
    }

    /// The two smoothers are the same in what they will hand out: value and
    /// samples left, and, while there are any, target and step.
    pub open spec fn agrees_with(self, other: Self) -> bool {
        &&& self.current == other.current
        &&& self.remaining_samples == other.remaining_samples
        &&& self.remaining_samples > 0 ==> self.target == other.target && self.increment
            == other.increment
    }

    /// `trace` lists the smoother before, between and after the samples `outs`.
    pub open spec fn runs(trace: Seq<Self>, outs: Seq<N>) -> bool {
        &&& trace.len() == outs.len() + 1
        &&& forall|i: int|
            0 <= i < outs.len() ==> trace[i].advanced(trace[i + 1], #[trigger] outs[i])
    }

    /// Jump immediately to `value` with no ramp. Used when starting from
    /// silence, where the attack of the envelope fades in by itself.
    pub fn set_immediate(&mut self, value: N)
        ensures
            final(self).rests_at(value),
    {
        self.current = value;
        self.target = value;
        self.increment = N::from_bits(ZERO);
        self.remaining_samples = 0;
    }

    /// Begin a linear ramp from the current value to `target` over
    /// `ramp_samples` samples. With no samples, behaves like `set_immediate`.
    pub fn set_target(&mut self, target: N, ramp_samples: u32)
        ensures
            old(self).retargeted(*final(self), target, ramp_samples),
    {
        proof {
            reveal_with_fuel(evaluates, 4);
        }
        if ramp_samples == 0 {
            self.set_immediate(target);
            return;
        }
        self.target = target;
        self.increment = target.minus(self.current).over(N::from_usize(ramp_samples as usize));
        self.remaining_samples = ramp_samples;
    }

    /// Advance by one sample and return the current value.
    pub fn next_sample(&mut self) -> (out: N)
        ensures
            old(self).advanced(*final(self), out),
    {
        proof {
            reveal_with_fuel(evaluates, 3);
        }
        if self.remaining_samples == 0 {
            return self.current;
        }
        self.remaining_samples = self.remaining_samples - 1;
        if self.remaining_samples == 0 {
            // Snap to the target on the final sample.
            self.current = self.target;
        } else {
            self.current = self.current.plus(self.increment);
        }
        self.current
    }

    /// Reset to zero.
    pub fn reset(&mut self)
        ensures
            final(self).is_zeroed(),
    {
        self.current = N::from_bits(ZERO);
        self.target = N::from_bits(ZERO);
        self.increment = N::from_bits(ZERO);
        self.remaining_samples = 0;
    }
}

impl<N: Scalar> Default for LinearSmoother<N> {
    fn default() -> (smoother: Self)
        ensures
            smoother.is_zeroed(),
    {
        LinearSmoother {
            current: N::from_bits(ZERO),
            target: N::from_bits(ZERO),
            increment: N::from_bits(ZERO),
            remaining_samples: 0,
        }
    }
}

/// A ramp ends exactly at its target, on its last sample and not before the
/// count has run out; from then on every sample is the target.
pub proof fn law_ramp_ends_at_target<N: Scalar>(
    start: LinearSmoother<N>,
    target: N,
    ramp_samples: u32,
    trace: Seq<LinearSmoother<N>>,
    outs: Seq<N>,
    i: int,
)
    requires
        LinearSmoother::runs(trace, outs),
        start.retargeted(trace[0], target, ramp_samples),
        0 <= i < trace.len(),
    ensures
        trace[i].target == target,
        trace[i].remaining_samples == if i < ramp_samples {
            ramp_samples - i
        } else {
            0
        },
        i >= ramp_samples ==> trace[i].current == target,
        i >= ramp_samples && i > 0 ==> outs[i - 1] == target,
    decreases i,
{
    if i > 0 {
        law_ramp_ends_at_target(start, target, ramp_samples, trace, outs, i - 1);
        assert(trace[i - 1].advanced(trace[i - 1 + 1], outs[i - 1]));
    }
}

/// At rest a smoother hands out the same value for ever.
pub proof fn law_rest_is_constant<N: Scalar>(
    value: N,
    trace: Seq<LinearSmoother<N>>,
    outs: Seq<N>,
    i: int,
)
    requires
        LinearSmoother::runs(trace, outs),
        trace[0].rests_at(value),
        0 <= i < trace.len(),
    ensures
        trace[i].rests_at(value),
        i < outs.len() ==> outs[i] == value,
    decreases i,
{
    if i > 0 {
        law_rest_is_constant(value, trace, outs, i - 1);
        assert(trace[i - 1].advanced(trace[i - 1 + 1], outs[i - 1]));
    }
    if i < outs.len() {
        assert(trace[i].advanced(trace[i + 1], outs[i]));
    }
}

/// Every sample strictly inside a ramp is the one before it plus the step.
pub proof fn law_ramp_steps_evenly<N: Scalar>(
    start: LinearSmoother<N>,
    target: N,
    ramp_samples: u32,
    trace: Seq<LinearSmoother<N>>,
    outs: Seq<N>,
    i: int,
)
    requires
        LinearSmoother::runs(trace, outs),
        start.retargeted(trace[0], target, ramp_samples),
        0 <= i < outs.len(),
        i + 1 < ramp_samples,
    ensures
        trace[i].increment == trace[0].increment,
        evaluates(start.step_to(target, ramp_samples), trace[i].increment),
        evaluates(
            val(
                if i == 0 {
                    start.current
                } else {
                    outs[i - 1]
                },
            ).plus(val(trace[i].increment)),
            outs[i],
        ),
    decreases i,
{
    assert(trace[i].advanced(trace[i + 1], outs[i]));
    law_ramp_ends_at_target(start, target, ramp_samples, trace, outs, i);
    if i > 0 {
        law_ramp_steps_evenly(start, target, ramp_samples, trace, outs, i - 1);
        assert(trace[i - 1].advanced(trace[i - 1 + 1], outs[i - 1]));
    }
}

/// A ramp follows the straight line between its ends: before its last sample the
/// value after `i` samples is on the line, but for three errors of rounding per
/// sample.
pub proof fn law_ramp_follows_line<N: Scalar>(
    reading: Reading<N>,
    start: LinearSmoother<N>,
    target: N,
    ramp_samples: u32,
    trace: Seq<LinearSmoother<N>>,
    outs: Seq<N>,
    i: nat,
)
    requires
        reading.is_accurate(),
        reading.bound >= 4real,
        ramp_samples as real <= reading.bound,
        forall|n: N| #[trigger]
            evaluates(count(ramp_samples as usize), n) ==> reading.of(n) == ramp_samples as real,
        3real * (ramp_samples as real * reading.error) <= 1real,
        0real <= reading.of(start.current) <= 1real,
        0real <= reading.of(target) <= 1real,
        LinearSmoother::runs(trace, outs),
        start.retargeted(trace[0], target, ramp_samples),
        i < trace.len(),
        i < ramp_samples,
    ensures
        is_within(
            reading.of(trace[i as int].current),
            reading.of(start.current) + i as real * ((reading.of(target) - reading.of(
                start.current,
            )) / ramp_samples as real),
            3real * (i as real * reading.error),
        ),
    decreases i,
{
    let (c, u, n) = (reading.of(start.current), reading.error, ramp_samples as real);
    let slope = (reading.of(target) - c) / n;
    if i == 0 {
        assert(0real * slope == 0real) by (nonlinear_arith);
        assert(0real * u == 0real) by (nonlinear_arith);
    } else {
        let k = (i - 1) as nat;
        law_ramp_follows_line(reading, start, target, ramp_samples, trace, outs, k);
        law_ramp_ends_at_target(start, target, ramp_samples, trace, outs, k as int);
        assert(trace[k as int].advanced(trace[k as int + 1], outs[k as int]));
        lemma_ramp_keeps_step(trace, outs, k as int);
        assert(0real <= k as real * u && k as real * u + u <= n * u) by (nonlinear_arith)
            requires
                0real <= k as real,
                k as real + 1real <= n,
                0real <= u,
        ;
        lemma_step_is_close(reading, start, target, ramp_samples, trace[0].increment);
        let (x, y) = choose|x: N, y: N| #[trigger]
            call_ensures(N::plus, (x, y), trace[i as int].current) && evaluates(
                val(trace[k as int].current),
                x,
            ) && evaluates(val(trace[0].increment), y);
        assert(i as real == k as real + 1real);
        assert((k as real + 1real) * slope == k as real * slope + slope) by (nonlinear_arith);
        assert((k as real + 1real) * u == k as real * u + u) by (nonlinear_arith);
        lemma_line_is_bounded(c, reading.of(target), k as real, n);
    }
}

/// The step stays what it is for the length of the ramp.
proof fn lemma_ramp_keeps_step<N: Scalar>(trace: Seq<LinearSmoother<N>>, outs: Seq<N>, i: int)
    requires
        LinearSmoother::runs(trace, outs),
        0 <= i < trace.len(),
    ensures
        trace[i].increment == trace[0].increment,
    decreases i,
{
    if i > 0 {
        lemma_ramp_keeps_step(trace, outs, i - 1);
        assert(trace[i - 1].advanced(trace[i - 1 + 1], outs[i - 1]));
    }
}

/// The step is off by two errors of rounding.
proof fn lemma_step_is_close<N: Scalar>(
    reading: Reading<N>,
    start: LinearSmoother<N>,
    target: N,
    ramp_samples: u32,
    step: N,
)
    requires
        reading.is_accurate(),
        reading.bound >= 4real,
        0 < ramp_samples,
        ramp_samples as real <= reading.bound,
        forall|n: N| #[trigger]
            evaluates(count(ramp_samples as usize), n) ==> reading.of(n) == ramp_samples as real,
        reading.error <= 1real,
        0real <= reading.of(start.current) <= 1real,
        0real <= reading.of(target) <= 1real,
        evaluates(start.step_to(target, ramp_samples), step),
    ensures
        is_within(
            reading.of(step),
            (reading.of(target) - reading.of(start.current)) / ramp_samples as real,
            2real * reading.error,
        ),
{
    let (u, n) = (reading.error, ramp_samples as real);
    let distance = reading.of(target) - reading.of(start.current);
    let (d, m) = choose|d: N, m: N| #[trigger]
        call_ensures(N::over, (d, m), step) && evaluates(
            val(target).minus(val(start.current)),
            d,
        ) && evaluates(count(ramp_samples as usize), m);
    let (x, y) = choose|x: N, y: N| #[trigger]
        call_ensures(N::minus, (x, y), d) && evaluates(val(target), x) && evaluates(
            val(start.current),
            y,
        );
    let vd = reading.of(d);
    assert(is_within(vd, distance, u));
    assert(distance / n - u <= vd / n <= distance / n + u && 0real - 2real <= vd / n <= 2real)
        by (nonlinear_arith)
        requires
            distance - u <= vd <= distance + u,
            0real - 1real <= distance <= 1real,
            0real <= u <= 1real,
            1real <= n,
    ;
    assert(reading.of(m) == n);
}

/// A point on the line between two numbers of [0.0, 1.0] lies in [0.0, 1.0].
pub proof fn lemma_line_is_bounded(start: real, end: real, k: real, n: real)
    requires
        0real <= start <= 1real,
        0real <= end <= 1real,
        0real <= k <= n,
        1real <= n,
    ensures
        0real <= start + k * ((end - start) / n) <= 1real,
        0real - 1real <= (end - start) / n <= 1real,
{
    let slope = (end - start) / n;
    assert(slope * n == end - start) by (nonlinear_arith)
        requires
            slope == (end - start) / n,
            1real <= n,
    ;
    assert(0real - 1real <= slope <= 1real) by (nonlinear_arith)
        requires
            slope * n == end - start,
            0real - 1real <= end - start <= 1real,
            1real <= n,
    ;
    if slope >= 0real {
        assert(0real <= k * slope <= slope * n) by (nonlinear_arith)
            requires
                0real <= slope,
                0real <= k <= n,
        ;
    } else {
        assert(slope * n <= k * slope <= 0real) by (nonlinear_arith)
            requires
                slope <= 0real,
                0real <= k <= n,
        ;
    }
}

/// With repeatable arithmetic smoothers that agree hand out the same value, and
/// agree after it.
pub proof fn law_smoothing_is_repeatable<N: Scalar>(
    pre: LinearSmoother<N>,
    pre2: LinearSmoother<N>,
    post: LinearSmoother<N>,
    out: N,
    post2: LinearSmoother<N>,
    out2: N,
)
    requires
        repeatable::<N>(),
        pre.agrees_with(pre2),
        pre.advanced(post, out),
        pre2.advanced(post2, out2),
    ensures
        post.agrees_with(post2),
        out == out2,
{
    if pre.remaining_samples > 1 {
        law_formula_has_one_value(
            val(pre.current).plus(val(pre.increment)),
            post.current,
            post2.current,
        );
    }
}

/// With repeatable arithmetic smoothers that agree also agree once they are sent
/// to the same target.
pub proof fn law_retargeting_is_repeatable<N: Scalar>(
    pre: LinearSmoother<N>,
    pre2: LinearSmoother<N>,
    target: N,
    ramp_samples: u32,
    post: LinearSmoother<N>,
    post2: LinearSmoother<N>,
)
    requires
        repeatable::<N>(),
        pre.current == pre2.current,
        pre.retargeted(post, target, ramp_samples),
        pre2.retargeted(post2, target, ramp_samples),
    ensures
        post.agrees_with(post2),
{
    if ramp_samples > 0 {
        law_formula_has_one_value(
            pre.step_to(target, ramp_samples),
            post.increment,
            post2.increment,
        );
    }
}

} // verus!
