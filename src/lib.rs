//! Control core of a step-sequenced drum machine: the protocol shared with
//! the audio engine, the sample-accurate step sequencer and the laws of its
//! schedule, preset data with its text form, the recall of a preset into
//! live state and engine messages, and MIDI mapping.
//!
//! Continuous quantities are fixed-point integers: tempo in thousandths of
//! a beat per minute, swing and controls in millionths, time within a block
//! in ticks of `1 / 20_000_000` sample.
pub mod protocol;
pub mod sequencer;
pub mod schedule;
pub mod bars;
pub mod presets;
pub mod text;
pub mod midi;
pub mod recall;
pub mod fields;
pub mod codec;

use vstd::prelude::*;

verus! {

} // verus!
