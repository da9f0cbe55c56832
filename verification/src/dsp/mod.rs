//! The audio arithmetic, one unit per module.

pub mod chain;
pub mod envelope;
pub mod onset;
pub mod oscillator;
pub mod pan;
pub mod smoother;
pub mod svf;
pub mod timing;
pub mod wavefold;
pub mod voice;
