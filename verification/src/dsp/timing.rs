//! How long the phases of the envelope last.

use vstd::prelude::*;

use crate::dsp::envelope::{
    attack_curve, decay_coefficient, full_level_is_fixed, law_attack_arrives_in_time,
    law_release_ends_in_time, law_release_lasts_its_time, ArEnvelope, EnvState, IDLE_THRESHOLD,
    MS_PER_SECOND, NUM_TC,
};
use crate::formula::{
    evaluates, law_formula_has_one_value, lemma_over_carries_over, lemma_times_carries_over, lit,
    val, Formula,
};
use crate::reading::{
    is_within, lemma_power_keeps_order, power_of, Growth, Reading,
};
use crate::scalar::{in_unit, repeatable, Scalar, ONE};

verus! {

/// The exponential of a number from -80 to 0 follows the curve, but for a share of
/// `tolerance`. IEEE arithmetic does not promise it.
pub open spec fn decay_follows<N: Scalar>(
    reading: Reading<N>,
    growth: Growth,
    tolerance: real,
) -> bool {
    &&& growth.is_exponential()
    &&& 0real <= tolerance <= 1real
    &&& forall|x: N, p: N| #[trigger]
        call_ensures(N::exponential, (x,), p) && 0real - 80real <= reading.of(x) <= 0real
            ==> is_within(
            reading.of(p),
            growth.at(reading.of(x)),
            tolerance * growth.at(reading.of(x)),
        )
}

/// `samples` is a time of `ms` milliseconds at a sample rate: `ms * rate / 1000`,
/// and the arithmetic is good for it.
pub open spec fn is_time<N: Scalar>(
    reading: Reading<N>,
    share: real,
    floor: real,
    time_constants: real,
    ms: N,
    sample_rate: N,
    samples: real,
) -> bool {
    &&& reading.is_relative(share, floor)
    &&& 1real <= reading.of(ms)
    &&& 0real < reading.of(sample_rate)
    &&& 1000real * samples == reading.of(ms) * reading.of(sample_rate)
    &&& 1real <= (1real - 3real * share) * samples
    &&& 0real < time_constants <= 40real
    &&& 2000real * samples <= reading.bound
    &&& reading.of(sample_rate) <= reading.bound
    &&& reading.of(ms) <= reading.bound
    &&& 2real * (floor * samples) <= time_constants
    &&& forall|x: N| #[trigger] evaluates(lit(ONE), x) ==> reading.of(x) == 1real
    &&& forall|x: N| #[trigger] evaluates(lit(MS_PER_SECOND), x) ==> reading.of(x) == 1000real
    &&& forall|x: N| #[trigger] evaluates(lit(NUM_TC), x) ==> reading.of(x) == time_constants
}

/// The number of samples comes out within three shares.
proof fn lemma_samples<N: Scalar>(
    reading: Reading<N>,
    share: real,
    floor: real,
    time_constants: real,
    ms: N,
    sample_rate: N,
    samples: real,
    n: N,
)
    requires
        is_time(reading, share, floor, time_constants, ms, sample_rate, samples),
        evaluates(
            val(ms).greater(lit(ONE)).times(val(sample_rate)).over(lit(MS_PER_SECOND)).greater(
                lit(ONE),
            ),
            n,
        ),
    ensures
        is_within(reading.of(n), samples, 3real * share * samples),
{
    let held: Formula<N> = val(ms).greater(lit(ONE));
    let total = held.times(val(sample_rate));
    let quotient = total.over(lit(MS_PER_SECOND));
    let (q, one) = choose|q: N, one: N| #[trigger]
        call_ensures(N::greater, (q, one), n) && evaluates(quotient, q) && evaluates(
            lit(ONE),
            one,
        );
    let (t, k) = choose|t: N, k: N| #[trigger]
        call_ensures(N::over, (t, k), q) && evaluates(total, t) && evaluates(
            lit(MS_PER_SECOND),
            k,
        );
    let (h, rate) = choose|h: N, rate: N| #[trigger]
        call_ensures(N::times, (h, rate), t) && evaluates(held, h) && evaluates(
            val(sample_rate),
            rate,
        );
    let (x, one2) = choose|x: N, one2: N| #[trigger]
        call_ensures(N::greater, (x, one2), h) && evaluates(val(ms), x) && evaluates(
            lit(ONE),
            one2,
        );
    assert(reading.of(h) == reading.of(ms));
    let (vt, vq) = (reading.of(t), reading.of(q));
    let product = 1000real * samples;
    assert(1real <= samples) by (nonlinear_arith)
        requires
            1real <= (1real - 3real * share) * samples,
            0real <= share <= 1real / 12real,
    ;
    assert(is_within(vt, product, share * product));
    assert(product - product / 12real <= vt <= product + product / 12real) by (nonlinear_arith)
        requires
            product - share * product <= vt <= product + share * product,
            0real <= share <= 1real / 12real,
            0real <= product,
    ;
    let exact = vt / 1000real;
    assert(is_within(vq, exact, share * exact));
    assert(share * product == 1000real * (share * samples)) by (nonlinear_arith)
        requires
            product == 1000real * samples,
    ;
    assert(samples - share * samples <= exact <= samples + share * samples);
    assert(samples - 3real * share * samples <= vq <= samples + 3real * share * samples)
        by (nonlinear_arith)
        requires
            exact - share * exact <= vq <= exact + share * exact,
            samples - share * samples <= exact <= samples + share * samples,
            0real <= share <= 1real / 12real,
            0real <= samples,
    {
        assert(share * exact <= share * (samples + share * samples));
        assert(share * (share * samples) <= share * samples);
        assert(share * (samples + share * samples) == share * samples + share * (share
            * samples));
        assert(3real * share * samples == 3real * (share * samples));
    }
    assert((1real - 3real * share) * samples == samples - 3real * share * samples)
        by (nonlinear_arith);
    assert(3real * share * samples <= samples) by (nonlinear_arith)
        requires
            0real <= share <= 1real / 12real,
            0real <= samples,
    ;
}

/// The coefficient of a time is that of its samples: the exponential of the negated
/// number of time constants over `ms * sample_rate / 1000`, but for six shares of
/// the exponent and the tolerance of the exponential.
pub proof fn law_coefficient_is_that_of_its_time<N: Scalar>(
    reading: Reading<N>,
    growth: Growth,
    share: real,
    floor: real,
    tolerance: real,
    time_constants: real,
    ms: N,
    sample_rate: N,
    samples: real,
    coeff: N,
)
    requires
        is_time(reading, share, floor, time_constants, ms, sample_rate, samples),
        decay_follows(reading, growth, tolerance),
        reading.bound >= 80real,
        evaluates(decay_coefficient(ms, sample_rate), coeff),
    ensures
        (1real - tolerance) * growth.at(
            0real - (1real + 6real * share) * (time_constants / samples),
        ) <= reading.of(coeff) <= (1real + tolerance) * growth.at(
            0real - (1real - 6real * share) * (time_constants / samples),
        ),
{
    let count: Formula<N> = val(ms).greater(lit(ONE)).times(val(sample_rate)).over(
        lit(MS_PER_SECOND),
    ).greater(lit(ONE));
    let quotient = lit(NUM_TC).negated().over(count);
    let q = choose|q: N| #[trigger]
        call_ensures(N::exponential, (q,), coeff) && evaluates(quotient, q);
    let (tc, n) = choose|tc: N, n: N| #[trigger]
        call_ensures(N::over, (tc, n), q) && evaluates(lit(NUM_TC).negated(), tc) && evaluates(
            count,
            n,
        );
    let t = choose|t: N| #[trigger]
        call_ensures(N::negated, (t,), tc) && evaluates(lit(NUM_TC), t);
    lemma_samples(reading, share, floor, time_constants, ms, sample_rate, samples, n);
    let (vn, vq) = (reading.of(n), reading.of(q));
    let tcs = time_constants;
    assert(reading.of(tc) == 0real - tcs);
    assert(1real <= samples) by (nonlinear_arith)
        requires
            1real <= (1real - 3real * share) * samples,
            0real <= share <= 1real / 12real,
    ;
    let rate = tcs / samples;
    assert(rate * samples == tcs && 0real < rate <= 40real) by (nonlinear_arith)
        requires
            rate == tcs / samples,
            1real <= samples,
            0real < tcs <= 40real,
    ;
    let spread = 3real * share;
    assert(3real * share * samples == spread * samples);
    assert(samples - samples / 4real <= vn <= samples + samples / 4real) by (nonlinear_arith)
        requires
            samples - spread * samples <= vn <= samples + spread * samples,
            0real <= spread <= 1real / 4real,
            0real <= samples,
    ;
    // The exact quotient by the computed number of samples.
    let exact = tcs / vn;
    assert(exact * vn == tcs && 0real < exact) by (nonlinear_arith)
        requires
            exact == tcs / vn,
            0real < vn,
            0real < tcs,
    ;
    assert((0real - tcs) / vn == 0real - exact) by (nonlinear_arith)
        requires
            exact == tcs / vn,
            0real < vn,
    ;
    assert(rate - spread * rate <= exact <= rate + 4real * share * rate) by (nonlinear_arith)
        requires
            exact * vn == tcs,
            rate * samples == tcs,
            samples - spread * samples <= vn <= samples + spread * samples,
            spread == 3real * share,
            0real <= share <= 1real / 12real,
            1real <= samples,
            0real < rate,
            0real < exact,
            0real < vn,
    {
        // exact * vn == rate * samples
        if exact > rate + 4real * share * rate {
            let more = 1real + 4real * share;
            assert(exact > more * rate);
            assert(exact * vn > (more * rate) * vn);
            let least = (1real - spread) * samples;
            assert(vn >= least);
            assert((more * rate) * vn >= (more * rate) * least);
            assert((more * rate) * least == (more * (1real - spread)) * (rate * samples));
            assert(more * (1real - spread) >= 1real);
            assert((more * (1real - spread)) * (rate * samples) >= rate * samples);
        }
        if exact < rate - spread * rate {
            let less = 1real - spread;
            assert(exact < less * rate);
            assert(exact * vn < (less * rate) * vn);
            let most = (1real + spread) * samples;
            assert(vn <= most);
            assert((less * rate) * vn <= (less * rate) * most);
            assert((less * rate) * most == (less * (1real + spread)) * (rate * samples));
            assert(less * (1real + spread) <= 1real);
            assert((less * (1real + spread)) * (rate * samples) <= rate * samples);
        }
    }
    assert(floor <= exact <= 80real) by (nonlinear_arith)
        requires
            rate - spread * rate <= exact <= rate + 4real * share * rate,
            spread == 3real * share,
            0real <= share <= 1real / 12real,
            0real < rate <= 40real,
            rate * samples == tcs,
            2real * (floor * samples) <= tcs,
            1real <= samples,
    {
        assert(2real * floor <= rate) by (nonlinear_arith)
            requires
                rate * samples == tcs,
                2real * (floor * samples) <= tcs,
                1real <= samples,
        ;
        assert(spread * rate <= rate / 4real);
        assert(share * rate <= rate / 12real);
    }
    assert(is_within(vq, 0real - exact, share * exact));
    let (low, high) = (
        0real - (1real + 6real * share) * rate,
        0real - (1real - 6real * share) * rate,
    );
    assert(low <= vq <= high && vq <= 0real && 0real - 80real <= vq) by (nonlinear_arith)
        requires
            0real - exact - share * exact <= vq <= 0real - exact + share * exact,
            rate - spread * rate <= exact <= rate + 4real * share * rate,
            spread == 3real * share,
            0real <= share <= 1real / 12real,
            0real < rate <= 40real,
            0real < exact,
            low == 0real - (1real + 6real * share) * rate,
            high == 0real - (1real - 6real * share) * rate,
    {
        assert(share * exact <= share * (rate + 4real * share * rate));
        assert(share * (rate + 4real * share * rate) == share * rate + 4real * (share * (share
            * rate)));
        assert(4real * (share * (share * rate)) <= share * rate);
        assert(share * exact <= 2real * (share * rate));
        assert(share * exact <= exact);
        assert(share * rate <= rate / 12real);
    }
    assert(growth.at(low) <= growth.at(vq)) by {
        if low < vq {
        }
    }
    assert(growth.at(vq) <= growth.at(high)) by {
        if vq < high {
        }
    }
    let (c, g) = (reading.of(coeff), growth.at(vq));
    assert((1real - tolerance) * growth.at(low) <= c) by (nonlinear_arith)
        requires
            growth.at(low) <= g,
            g - tolerance * g <= c,
            0real <= tolerance <= 1real,
    ;
    assert(c <= (1real + tolerance) * growth.at(high)) by (nonlinear_arith)
        requires
            g <= growth.at(high),
            c <= g + tolerance * g,
            0real <= tolerance <= 1real,
    ;
}

/// The arithmetic is good for a release from here on: products are off by no more
/// than a share of themselves, and `threshold` is where a release ends.
pub open spec fn is_good_for_release<N: Scalar>(
    reading: Reading<N>,
    share: real,
    floor: real,
    threshold: real,
    env: ArEnvelope<N>,
) -> bool {
    &&& reading.is_accurate()
    &&& reading.is_decisive()
    &&& reading.is_proportionate(share, floor)
    &&& floor <= threshold <= 1real
    &&& forall|t: N| #[trigger] evaluates(lit(IDLE_THRESHOLD), t) ==> reading.of(t) == threshold
    &&& 0real <= reading.of(env.level) <= 1real
    &&& 0real <= reading.of(env.release_coeff)
    &&& reading.of(env.release_coeff) * (1real + share) <= 1real
    &&& floor <= reading.of(env.level) * reading.of(env.release_coeff)
    &&& floor <= threshold * reading.of(env.release_coeff)
}

/// A release lasts as long as its time says: it is over after `k` samples where the
/// exact curve of the time, with the rounding on top, is below the threshold, and
/// not over where the exact curve, less the rounding, is above it. `wide` reads
/// numbers as `reading` does, up to a bound that the time is within.
pub proof fn law_release_takes_its_time<N: Scalar>(
    reading: Reading<N>,
    wide: Reading<N>,
    growth: Growth,
    share: real,
    floor: real,
    tolerance: real,
    threshold: real,
    time_constants: real,
    release_ms: N,
    sample_rate: N,
    samples: real,
    trace: Seq<ArEnvelope<N>>,
    outs: Seq<N>,
    k: nat,
)
    requires
        reading.value == wide.value,
        is_time(wide, share, floor, time_constants, release_ms, sample_rate, samples),
        decay_follows(wide, growth, tolerance),
        wide.bound >= 80real,
        is_good_for_release(reading, share, floor, threshold, trace[0]),
        ArEnvelope::runs(trace, outs),
        0 < k < trace.len(),
        trace[0].state == EnvState::Release,
        evaluates(decay_coefficient(release_ms, sample_rate), trace[0].release_coeff),
    ensures
        reading.of(trace[0].level) * power_of(
            (1real + tolerance) * growth.at(
                0real - (1real - 6real * share) * (time_constants / samples),
            ) * (1real + share),
            k,
        ) < threshold ==> trace[k as int].state == EnvState::Idle,
        reading.of(trace[0].level) * power_of(
            (1real - tolerance) * growth.at(
                0real - (1real + 6real * share) * (time_constants / samples),
            ) * (1real - share),
            k,
        ) > threshold ==> trace[k as int].state == EnvState::Release,
{
    let (level, c) = (reading.of(trace[0].level), reading.of(trace[0].release_coeff));
    law_coefficient_is_that_of_its_time(
        wide,
        growth,
        share,
        floor,
        tolerance,
        time_constants,
        release_ms,
        sample_rate,
        samples,
        trace[0].release_coeff,
    );
    assert(wide.of(trace[0].release_coeff) == c);
    let high = (1real + tolerance) * growth.at(
        0real - (1real - 6real * share) * (time_constants / samples),
    );
    let low = (1real - tolerance) * growth.at(
        0real - (1real + 6real * share) * (time_constants / samples),
    );
    let at_low = growth.at(0real - (1real + 6real * share) * (time_constants / samples));
    assert(0real <= low) by (nonlinear_arith)
        requires
            low == (1real - tolerance) * at_low,
            0real <= tolerance <= 1real,
            0real < at_low,
    ;
    assert(0real <= c * (1real + share) <= high * (1real + share)) by (nonlinear_arith)
        requires
            0real <= c <= high,
            0real <= share,
    ;
    assert(0real <= low * (1real - share) <= c * (1real - share)) by (nonlinear_arith)
        requires
            0real <= low <= c,
            0real <= share <= 1real,
    ;
    lemma_power_keeps_order(c * (1real + share), high * (1real + share), k);
    lemma_power_keeps_order(low * (1real - share), c * (1real - share), k);
    let (p, q) = (power_of(c * (1real + share), k), power_of(high * (1real + share), k));
    assert(level * p <= level * q) by (nonlinear_arith)
        requires
            0real <= level,
            p <= q,
    ;
    let (v, w) = (power_of(low * (1real - share), k), power_of(c * (1real - share), k));
    assert(level * v <= level * w) by (nonlinear_arith)
        requires
            0real <= level,
            v <= w,
    ;
    if level * q < threshold {
        law_release_ends_in_time(reading, share, floor, threshold, trace, outs, k);
    }
    if level * v > threshold {
        law_release_lasts_its_time(reading, share, floor, threshold, trace, outs, k);
    }
}

/// An attack takes no longer than its time says: the level is 1.0 after `k` samples
/// where the exact curve of the time, less the rounding, is above the point of
/// arrival.
pub proof fn law_attack_takes_its_time<N: Scalar>(
    reading: Reading<N>,
    wide: Reading<N>,
    growth: Growth,
    share: real,
    floor: real,
    tolerance: real,
    arrival: real,
    slack: real,
    time_constants: real,
    attack_ms: N,
    sample_rate: N,
    samples: real,
    high: real,
    trace: Seq<ArEnvelope<N>>,
    outs: Seq<N>,
    k: nat,
)
    requires
        reading.value == wide.value,
        is_time(wide, share, floor, time_constants, attack_ms, sample_rate, samples),
        decay_follows(wide, growth, tolerance),
        wide.bound >= 80real,
        high == (1real + tolerance) * growth.at(
            0real - (1real - 6real * share) * (time_constants / samples),
        ),
        reading.is_accurate(),
        full_level_is_fixed::<N>(),
        reading.bound >= 2real,
        0real <= slack <= 1real / 4real,
        3real * reading.error <= slack * (1real - high),
        high <= 1real,
        0real <= arrival <= 1real,
        forall|b: N| #[trigger]
            evaluates(lit(ONE).minus(lit(IDLE_THRESHOLD)), b) ==> reading.of(b) == arrival,
        ArEnvelope::runs(trace, outs),
        0 < k < trace.len(),
        trace[0].state == EnvState::Attack,
        in_unit(trace[0].attack_coeff),
        0real <= reading.of(trace[0].level) <= 1real,
        0real <= reading.of(trace[0].attack_coeff),
        evaluates(decay_coefficient(attack_ms, sample_rate), trace[0].attack_coeff),
    ensures
        attack_curve(reading.of(trace[0].level), high, k) - slack > arrival ==> evaluates(
            lit(ONE),
            trace[k as int].level,
        ),
{
    let (level, c) = (reading.of(trace[0].level), reading.of(trace[0].attack_coeff));
    law_coefficient_is_that_of_its_time(
        wide,
        growth,
        share,
        floor,
        tolerance,
        time_constants,
        attack_ms,
        sample_rate,
        samples,
        trace[0].attack_coeff,
    );
    assert(wide.of(trace[0].attack_coeff) == c);
    assert(slack * (1real - high) <= slack * (1real - c)) by (nonlinear_arith)
        requires
            0real <= slack,
            c <= high,
    ;
    lemma_power_keeps_order(c, high, k);
    let (p, q) = (power_of(c, k), power_of(high, k));
    assert((1real - level) * p <= (1real - level) * q) by (nonlinear_arith)
        requires
            level <= 1real,
            p <= q,
    ;
    if attack_curve(level, high, k) - slack > arrival {
        law_attack_arrives_in_time(reading, arrival, slack, trace, outs, k);
    }
}

/// Times below 1 ms count as 1 ms: all times of which 1 is the greater give the
/// same coefficient, that of 1 ms itself.
pub proof fn law_short_times_count_alike<N: Scalar>(
    ms: N,
    one: N,
    sample_rate: N,
    coeff: N,
    coeff2: N,
)
    requires
        repeatable::<N>(),
        evaluates(lit(ONE), one),
        forall|m: N| #[trigger] call_ensures(N::greater, (ms, one), m) ==> m == one,
        forall|m: N| #[trigger] call_ensures(N::greater, (one, one), m) ==> m == one,
        evaluates(decay_coefficient(ms, sample_rate), coeff),
        evaluates(decay_coefficient(one, sample_rate), coeff2),
    ensures
        coeff == coeff2,
{
    let (a, b) = (
        lemma_coefficient_of_held(ms, one, sample_rate, coeff),
        lemma_coefficient_of_held(one, one, sample_rate, coeff2),
    );
    law_formula_has_one_value(a, coeff, coeff2);
}

/// The coefficient of a time that is held to 1 ms.
proof fn lemma_coefficient_of_held<N: Scalar>(ms: N, one: N, sample_rate: N, coeff: N) -> (f:
    Formula<N>)
    requires
        repeatable::<N>(),
        evaluates(lit(ONE), one),
        forall|m: N| #[trigger] call_ensures(N::greater, (ms, one), m) ==> m == one,
        evaluates(decay_coefficient(ms, sample_rate), coeff),
    ensures
        f == lit(NUM_TC).negated().over(
            val(one).times(val(sample_rate)).over(lit(MS_PER_SECOND)).greater(lit(ONE)),
        ).exponential(),
        evaluates(f, coeff),
{
    let held: Formula<N> = val(ms).greater(lit(ONE));
    let rate: Formula<N> = val(sample_rate);
    let thousand: Formula<N> = lit(MS_PER_SECOND);
    assert forall|r: N| #[trigger] evaluates(held, r) implies evaluates(val(one), r) by {
        let (x, y) = choose|x: N, y: N| #[trigger]
            call_ensures(N::greater, (x, y), r) && evaluates(val(ms), x) && evaluates(
                lit(ONE),
                y,
            );
        law_formula_has_one_value(lit(ONE), y, one);
    }
    lemma_times_carries_over(held, val(one), rate, rate);
    lemma_over_carries_over(held.times(rate), val(one).times(rate), thousand, thousand);
    let count = held.times(rate).over(thousand).greater(lit(ONE));
    let count2 = val(one).times(rate).over(thousand).greater(lit(ONE));
    assert forall|r: N| #[trigger] evaluates(count, r) implies evaluates(count2, r) by {
        let (x, y) = choose|x: N, y: N| #[trigger]
            call_ensures(N::greater, (x, y), r) && evaluates(
                held.times(rate).over(thousand),
                x,
            ) && evaluates(lit(ONE), y);
        assert(call_ensures(N::greater, (x, y), r) && evaluates(
            val(one).times(rate).over(thousand),
            x,
        ));
    }
    let tc: Formula<N> = lit(NUM_TC).negated();
    lemma_over_carries_over(tc, tc, count, count2);
    let q = choose|q: N| #[trigger]
        call_ensures(N::exponential, (q,), coeff) && evaluates(tc.over(count), q);
    assert(evaluates(tc.over(count2), q));
    let f = tc.over(count2).exponential();
    assert(evaluates(f, coeff));
    f
}

} // verus!
