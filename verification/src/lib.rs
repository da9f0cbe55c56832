//! A polyphonic sine-wave synthesizer: voices with an attack/release envelope,
//! a wavefolder, a lowpass gate and constant-power panning, allocated to notes
//! by age.

pub mod agreement;
pub mod blocks;
pub mod controls;
pub mod dsp;
pub mod formula;
pub mod laws;
pub mod loudness;
pub mod notes;
pub mod params;
pub mod plugin;
pub mod reading;
pub mod scalar;
pub mod splits;
