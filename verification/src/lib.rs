//! Signal conditioning for the MAX4466 amplified microphone.
//!
//! The MAX4466 outputs an analog signal centred on VCC / 2. The driver
//! calibrates that zero point by averaging readings at rest, measures the
//! peak-to-peak amplitude over a time window, and can smooth the readings
//! (EMA, median, moving average), gate out ambient noise and map amplitudes
//! to other scales. This crate holds all of that logic; the ADC reads and the
//! timing between them belong to the caller.

pub mod driver;
pub mod filter_ema;
pub mod filter_median;
pub mod filters;
pub mod gate;
pub mod mapping;

use vstd::prelude::*;

verus! {

/// One measurement of the microphone.
#[derive(Clone, Copy, Debug)]
pub struct MicData {
    /// Peak-to-peak amplitude over the reading window, in ADC units.
    pub amplitude: u16,
    /// Last raw reading of the window.
    pub raw: u16,
}

/// Errors of the MAX4466 driver.
#[derive(Debug, PartialEq)]
pub enum Max4466Error {
    /// The ADC could not be read (the value is replaced by the zero point).
    AdcRead,
}

} // verus!
