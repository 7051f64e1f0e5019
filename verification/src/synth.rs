//! The integer side of a one-voice synthesizer: choosing the waveform. The
//! oscillator itself works in floating point and stays with the caller.
use vstd::prelude::*;

verus! {

pub const SINE: u8 = 0;
pub const SQUARE: u8 = 1;
pub const SAWTOOTH: u8 = 2;
pub const TRIANGLE: u8 = 3;

/// The waveform after asking for `requested`: codes beyond the four known
/// shapes are ignored.
pub fn select_waveform(current: u8, requested: u8) -> (w: u8)
    ensures
        w == (if requested <= TRIANGLE { requested } else { current }),
        current <= TRIANGLE ==> w <= TRIANGLE,
{
    if requested <= TRIANGLE { requested } else { current }
}

} // verus!
