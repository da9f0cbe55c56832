//! The parameters: what the user controls.

use vstd::prelude::*;

use crate::dsp::svf::{MAX_CUTOFF_HZ, MIN_CUTOFF_HZ};
use crate::formula::{evaluates, lit};
use crate::scalar::{Scalar, ONE, ZERO};

verus! {

/// The range of a parameter.
#[derive(Clone, Copy)]
pub enum FloatRange<N> {
    /// Even over the whole range.
    Linear { min: N, max: N },
    /// Spread by a power of two: a negative skew spreads the low end, where
    /// differences are heard most.
    Skewed { min: N, max: N, skew: N },
}

/// A parameter with a real value.
#[derive(Clone, Copy)]
pub struct FloatParam<N> {
    pub name: &'static str,
    pub default_value: N,
    /// The value that is in force.
    pub value: N,
    pub range: FloatRange<N>,
    /// Length in milliseconds of the ramp to a new value, or `None` where the
    /// value is read at block or note boundaries.
    pub smoothing_ms: Option<N>,
    pub unit: &'static str,
    pub step_size: N,
    /// Shown and entered as a whole percentage.
    pub is_percentage: bool,
}

/// A parameter with a whole value.
#[derive(Clone, Copy)]
pub struct IntParam {
    pub name: &'static str,
    pub default_value: i32,
    /// The value that is in force.
    pub value: i32,
    pub min: i32,
    pub max: i32,
}

/// Lowest fine-tune: the binary32 encoding of -100 cents, a semitone down.
pub const FINE_TUNE_MIN: u32 = 0xc2c8_0000;

/// Highest fine-tune: the binary32 encoding of 100 cents, a semitone up.
pub const FINE_TUNE_MAX: u32 = 0x42c8_0000;

/// Default attack: the binary32 encoding of 10 milliseconds.
pub const ATTACK_DEFAULT: u32 = 0x4120_0000;

/// Longest attack: the binary32 encoding of 5000 milliseconds.
pub const ATTACK_MAX: u32 = 0x459c_4000;

/// Default release: the binary32 encoding of 300 milliseconds.
pub const RELEASE_DEFAULT: u32 = 0x4396_0000;

/// Longest release: the binary32 encoding of 10000 milliseconds.
pub const RELEASE_MAX: u32 = 0x461c_4000;

/// Highest start phase: the binary32 encoding of 360 degrees.
pub const FULL_CIRCLE: u32 = 0x43b4_0000;

/// Lowest output gain: the binary32 encoding of -24 dB.
pub const OUTPUT_GAIN_MIN: u32 = 0xc1c0_0000;

/// Highest output gain: the binary32 encoding of 12 dB.
pub const OUTPUT_GAIN_MAX: u32 = 0x4140_0000;

/// Length of the ramps of smoothed parameters: the binary32 encoding of 20
/// milliseconds.
pub const SMOOTHING_MS: u32 = 0x41a0_0000;

/// Skew of times and frequencies: the binary32 encoding of -2.
pub const LOW_END_SKEW: u32 = 0xc000_0000;

/// The binary32 encoding of 0.1.
pub const TENTH: u32 = 0x3dcc_cccd;

/// The binary32 encoding of 0.01.
pub const HUNDREDTH: u32 = 0x3c23_d70a;

impl<N: Scalar> FloatRange<N> {
    /// The range is even from `lo` to `hi` (binary32 encodings).
    pub open spec fn is_linear(self, lo: u32, hi: u32) -> bool {
        match self {
            FloatRange::Linear { min, max } => evaluates(lit(lo), min) && evaluates(lit(hi), max),
            FloatRange::Skewed { .. } => false,
        }
    }

    /// The range goes from `lo` to `hi` (binary32 encodings), with its low end
    /// spread.
    pub open spec fn is_skewed(self, lo: u32, hi: u32) -> bool {
        match self {
            FloatRange::Linear { .. } => false,
            FloatRange::Skewed { min, max, skew } => {
                &&& evaluates(lit(lo), min)
                &&& evaluates(lit(hi), max)
                &&& evaluates(lit(LOW_END_SKEW), skew)
            },
        }
    }

    /// The even range from `lo` to `hi` (binary32 encodings).
    fn linear(lo: u32, hi: u32) -> (range: Self)
        ensures
            range.is_linear(lo, hi),
    {
        FloatRange::Linear { min: N::from_bits(lo), max: N::from_bits(hi) }
    }

    /// The range from `lo` to `hi` (binary32 encodings) with its low end spread.
    fn skewed(lo: u32, hi: u32) -> (range: Self)
        ensures
            range.is_skewed(lo, hi),
    {
        FloatRange::Skewed {
            min: N::from_bits(lo),
            max: N::from_bits(hi),
            skew: N::from_bits(LOW_END_SKEW),
        }
    }
}

impl<N: Scalar> FloatParam<N> {
    /// Name, unit and step of the parameter are these, and it stands at its
    /// default.
    pub open spec fn is_set(self, name: &str, default_value: N, unit: &str, step: u32) -> bool {
        &&& self.name@ == name@
        &&& self.default_value == default_value
        &&& self.value == default_value
        &&& self.unit@ == unit@
        &&& evaluates(lit(step), self.step_size)
    }

    /// The value ramps over the smoothing time.
    pub open spec fn is_smoothed(self) -> bool {
        match self.smoothing_ms {
            Some(ms) => evaluates(lit(SMOOTHING_MS), ms),
            None => false,
        }
    }

    /// A parameter that stands at its default and does not ramp.
    fn new(
        name: &'static str,
        default_value: N,
        range: FloatRange<N>,
        unit: &'static str,
        step: u32,
    ) -> (param: Self)
        ensures
            param.is_set(name, default_value, unit, step),
            param.range == range,
            param.smoothing_ms is None,
            !param.is_percentage,
    {
        FloatParam {
            name,
            default_value,
            value: default_value,
            range,
            smoothing_ms: None,
            unit,
            step_size: N::from_bits(step),
            is_percentage: false,
        }
    }

    /// A parameter from 0 to 1 that stands at its default, ramps and is shown as
    /// a percentage.
    fn percentage(name: &'static str, default_value: N) -> (param: Self)
        ensures
            param.is_amount(name, default_value),
    {
        FloatParam {
            smoothing_ms: Some(N::from_bits(SMOOTHING_MS)),
            is_percentage: true,
            ..FloatParam::new(name, default_value, FloatRange::linear(ZERO, ONE), " %", HUNDREDTH)
        }
    }

    /// The parameter is a smoothed amount from 0 to 1, shown as a percentage.
    pub open spec fn is_amount(self, name: &str, default_value: N) -> bool {
        &&& self.is_set(name, default_value, " %", HUNDREDTH)
        &&& self.range.is_linear(ZERO, ONE)
        &&& self.is_smoothed()
        &&& self.is_percentage
    }
}

/// All parameters of the synthesizer.
///
/// Sound state does not belong here: this is only what the user controls.
#[derive(Clone, Copy)]
pub struct SineOneParams<N> {
    /// Pitch offset in cents.
    pub fine_tune: FloatParam<N>,
    /// Attack time in milliseconds, read when a note begins.
    pub attack: FloatParam<N>,
    /// Release time in milliseconds, read when a note ends.
    pub release: FloatParam<N>,
    /// Start phase of the oscillator in degrees, read when a note begins.
    pub start_phase: FloatParam<N>,
    /// Amount of the wavefolder; 0 is bypass.
    pub fold: FloatParam<N>,
    /// How far the cutoff of the lowpass gate follows the envelope; 0 is bypass.
    pub lpg: FloatParam<N>,
    /// Cutoff frequency in Hz of the open gate.
    pub lpg_cutoff: FloatParam<N>,
    /// Resonance of the lowpass gate.
    pub lpg_resonance: FloatParam<N>,
    /// Number of voices; 1 is monophonic.
    pub voices: IntParam,
    /// Output gain in dB.
    pub output_gain: FloatParam<N>,
}

/// The fine-tune: a semitone either way, in whole cents, smoothed, at 0.
pub open spec fn is_fine_tune<N: Scalar>(param: FloatParam<N>) -> bool {
    &&& evaluates(lit(ZERO), param.value)
    &&& param.is_set("Fine Tune", param.value, " ct", ONE)
    &&& param.range.is_linear(FINE_TUNE_MIN, FINE_TUNE_MAX)
    &&& param.is_smoothed()
    &&& !param.is_percentage
}

/// The attack: 1 to 5000 milliseconds, low end spread, at 10.
pub open spec fn is_attack<N: Scalar>(param: FloatParam<N>) -> bool {
    &&& evaluates(lit(ATTACK_DEFAULT), param.value)
    &&& param.is_set("Attack", param.value, " ms", TENTH)
    &&& param.range.is_skewed(ONE, ATTACK_MAX)
    &&& param.smoothing_ms is None
    &&& !param.is_percentage
}

/// The release: 1 to 10000 milliseconds, low end spread, at 300.
pub open spec fn is_release<N: Scalar>(param: FloatParam<N>) -> bool {
    &&& evaluates(lit(RELEASE_DEFAULT), param.value)
    &&& param.is_set("Release", param.value, " ms", TENTH)
    &&& param.range.is_skewed(ONE, RELEASE_MAX)
    &&& param.smoothing_ms is None
    &&& !param.is_percentage
}

/// The start phase: 0 to 360 whole degrees, at `degrees`.
pub open spec fn is_start_phase<N: Scalar>(param: FloatParam<N>, degrees: N) -> bool {
    &&& param.is_set("Start Phase", degrees, " °", ONE)
    &&& param.range.is_linear(ZERO, FULL_CIRCLE)
    &&& param.smoothing_ms is None
    &&& !param.is_percentage
}

/// The cutoff of the open gate: 20 Hz to 20 kHz, low end spread, smoothed, at
/// `hz`.
pub open spec fn is_lpg_cutoff<N: Scalar>(param: FloatParam<N>, hz: N) -> bool {
    &&& param.is_set("LPG Cutoff", hz, " Hz", ONE)
    &&& param.range.is_skewed(MIN_CUTOFF_HZ, MAX_CUTOFF_HZ)
    &&& param.is_smoothed()
    &&& !param.is_percentage
}

/// The voices: 1 to 8, at `count`.
pub open spec fn is_voices(param: IntParam, count: i32) -> bool {
    &&& param.name@ == "Voices"@
    &&& param.default_value == count
    &&& param.value == count
    &&& param.min == 1
    &&& param.max == 8
}

/// The output gain: -24 to 12 dB, at `db`.
pub open spec fn is_output_gain<N: Scalar>(param: FloatParam<N>, db: N) -> bool {
    &&& param.is_set("Output Gain", db, " dB", TENTH)
    &&& param.range.is_linear(OUTPUT_GAIN_MIN, OUTPUT_GAIN_MAX)
    &&& param.smoothing_ms is None
    &&& !param.is_percentage
}

impl<N: Scalar> SineOneParams<N> {
    /// Every parameter is described as it should be and stands at its default.
    pub open spec fn is_default(self) -> bool {
        &&& is_fine_tune(self.fine_tune)
        &&& is_attack(self.attack)
        &&& is_release(self.release)
        &&& is_start_phase(self.start_phase, self.start_phase.value)
        &&& evaluates(lit(ZERO), self.start_phase.value)
        &&& self.fold.is_amount("Fold", self.fold.value)
        &&& evaluates(lit(ZERO), self.fold.value)
        &&& self.lpg.is_amount("LPG", self.lpg.value)
        &&& evaluates(lit(ZERO), self.lpg.value)
        &&& is_lpg_cutoff(self.lpg_cutoff, self.lpg_cutoff.value)
        &&& evaluates(lit(MAX_CUTOFF_HZ), self.lpg_cutoff.value)
        &&& self.lpg_resonance.is_amount("LPG Resonance", self.lpg_resonance.value)
        &&& evaluates(lit(ZERO), self.lpg_resonance.value)
        &&& is_voices(self.voices, 1)
        &&& is_output_gain(self.output_gain, self.output_gain.value)
        &&& evaluates(lit(ZERO), self.output_gain.value)
    }

    fn build_voices(default_count: i32) -> (param: IntParam)
        ensures
            is_voices(param, default_count),
    {
        IntParam {
            name: "Voices",
            default_value: default_count,
            value: default_count,
            min: 1,
            max: 8,
        }
    }

    fn build_output_gain(default_db: N) -> (param: FloatParam<N>)
        ensures
            is_output_gain(param, default_db),
    {
        FloatParam::new(
            "Output Gain",
            default_db,
            FloatRange::linear(OUTPUT_GAIN_MIN, OUTPUT_GAIN_MAX),
            " dB",
            TENTH,
        )
    }

    fn build_fold(default_value: N) -> (param: FloatParam<N>)
        ensures
            param.is_amount("Fold", default_value),
    {
        FloatParam::percentage("Fold", default_value)
    }

    fn build_lpg(default_value: N) -> (param: FloatParam<N>)
        ensures
            param.is_amount("LPG", default_value),
    {
        FloatParam::percentage("LPG", default_value)
    }

    fn build_lpg_cutoff(default_hz: N) -> (param: FloatParam<N>)
        ensures
            is_lpg_cutoff(param, default_hz),
    {
        FloatParam {
            smoothing_ms: Some(N::from_bits(SMOOTHING_MS)),
            ..FloatParam::new(
                "LPG Cutoff",
                default_hz,
                FloatRange::skewed(MIN_CUTOFF_HZ, MAX_CUTOFF_HZ),
                " Hz",
                ONE,
            )
        }
    }

    fn build_lpg_resonance(default_value: N) -> (param: FloatParam<N>)
        ensures
            param.is_amount("LPG Resonance", default_value),
    {
        FloatParam::percentage("LPG Resonance", default_value)
    }

    fn build_start_phase(default_degrees: N) -> (param: FloatParam<N>)
        ensures
            is_start_phase(param, default_degrees),
    {
        FloatParam::new(
            "Start Phase",
            default_degrees,
            FloatRange::linear(ZERO, FULL_CIRCLE),
            " °",
            ONE,
        )
    }

    /// The defaults, with another start phase.
    pub fn with_start_phase(degrees: N) -> (params: Self)
        ensures
            is_start_phase(params.start_phase, degrees),
            exists|defaults: Self| #[trigger]
                defaults.is_default() && params == (SineOneParams {
                    start_phase: params.start_phase,
                    ..defaults
                }),
    {
        let mut params = SineOneParams::default();
        params.start_phase = Self::build_start_phase(degrees);
        params
    }

    /// The defaults, with another number of voices.
    pub fn with_voices(voice_count: i32) -> (params: Self)
        ensures
            is_voices(params.voices, voice_count),
            exists|defaults: Self| #[trigger]
                defaults.is_default() && params == (SineOneParams {
                    voices: params.voices,
                    ..defaults
                }),
    {
        let mut params = SineOneParams::default();
        params.voices = Self::build_voices(voice_count);
        params
    }

    /// The defaults, with another output gain.
    pub fn with_output_gain(db: N) -> (params: Self)
        ensures
            is_output_gain(params.output_gain, db),
            exists|defaults: Self| #[trigger]
                defaults.is_default() && params == (SineOneParams {
                    output_gain: params.output_gain,
                    ..defaults
                }),
    {
        let mut params = SineOneParams::default();
        params.output_gain = Self::build_output_gain(db);
        params
    }

    /// The defaults, with another depth of the lowpass gate.
    pub fn with_lpg(depth: N) -> (params: Self)
        ensures
            params.lpg.is_amount("LPG", depth),
            exists|defaults: Self| #[trigger]
                defaults.is_default() && params == (SineOneParams { lpg: params.lpg, ..defaults }),
    {
        let mut params = SineOneParams::default();
        params.lpg = Self::build_lpg(depth);
        params
    }

    /// The defaults, with another cutoff of the lowpass gate.
    pub fn with_lpg_cutoff(hz: N) -> (params: Self)
        ensures
            is_lpg_cutoff(params.lpg_cutoff, hz),
            exists|defaults: Self| #[trigger]
                defaults.is_default() && params == (SineOneParams {
                    lpg_cutoff: params.lpg_cutoff,
                    ..defaults
                }),
    {
        let mut params = SineOneParams::default();
        params.lpg_cutoff = Self::build_lpg_cutoff(hz);
        params
    }

    /// The defaults, with another resonance of the lowpass gate.
    pub fn with_lpg_resonance(res: N) -> (params: Self)
        ensures
            params.lpg_resonance.is_amount("LPG Resonance", res),
            exists|defaults: Self| #[trigger]
                defaults.is_default() && params == (SineOneParams {
                    lpg_resonance: params.lpg_resonance,
                    ..defaults
                }),
    {
        let mut params = SineOneParams::default();
        params.lpg_resonance = Self::build_lpg_resonance(res);
        params
    }
}

impl<N: Scalar> Default for SineOneParams<N> {
    fn default() -> (params: Self)
        ensures
            params.is_default(),
    {
        SineOneParams {
            fine_tune: FloatParam {
                smoothing_ms: Some(N::from_bits(SMOOTHING_MS)),
                ..FloatParam::new(
                    "Fine Tune",
                    N::from_bits(ZERO),
                    FloatRange::linear(FINE_TUNE_MIN, FINE_TUNE_MAX),
                    " ct",
                    ONE,
                )
            },
            attack: FloatParam::new(
                "Attack",
                N::from_bits(ATTACK_DEFAULT),
                FloatRange::skewed(ONE, ATTACK_MAX),
                " ms",
                TENTH,
            ),
            release: FloatParam::new(
                "Release",
                N::from_bits(RELEASE_DEFAULT),
                FloatRange::skewed(ONE, RELEASE_MAX),
                " ms",
                TENTH,
            ),
            start_phase: Self::build_start_phase(N::from_bits(ZERO)),
            fold: Self::build_fold(N::from_bits(ZERO)),
            lpg: Self::build_lpg(N::from_bits(ZERO)),
            lpg_cutoff: Self::build_lpg_cutoff(N::from_bits(MAX_CUTOFF_HZ)),
            lpg_resonance: Self::build_lpg_resonance(N::from_bits(ZERO)),
            voices: Self::build_voices(1),
            output_gain: Self::build_output_gain(N::from_bits(ZERO)),
        }
    }
}

} // verus!
