//! Host-testable signal processing and command handling for the firmware.

use vstd::prelude::*;

pub mod controls;
pub mod dsp;
pub mod protocol;

verus! {

/// Audio sample rate of the I2S output, in hertz.
pub const SAMPLE_RATE: u32 = 48_000;

} // verus!
