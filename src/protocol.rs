//! Records and identifiers exchanged with the audio rendering engine.
use vstd::prelude::*;

verus! {

pub const FF_ABI_VERSION_MAJOR: u32 = 1;

pub const FF_ABI_VERSION_MINOR: u32 = 0;

pub const FF_PARAM_TRACK_BASE: u32 = 0x1000;

pub const FF_PARAM_TRACK_STRIDE: u32 = 0x10;

pub const FF_PARAM_SLOT_GAIN: u32 = 1;

pub const FF_PARAM_SLOT_PAN: u32 = 2;

pub const FF_PARAM_SLOT_FILTER_CUTOFF: u32 = 3;

pub const FF_PARAM_SLOT_ENVELOPE_DECAY: u32 = 4;

pub const FF_PARAM_SLOT_PITCH: u32 = 5;

pub const FF_PARAM_SLOT_CHOKE_GROUP: u32 = 6;

pub const FF_EVENT_TYPE_NOTE_ON: u32 = 1;

pub const FF_EVENT_TYPE_NOTE_OFF: u32 = 2;

pub const FF_EVENT_TYPE_TRIGGER: u32 = 3;

pub const FF_EVENT_TYPE_TRANSPORT_START: u32 = 4;

pub const FF_EVENT_TYPE_TRANSPORT_STOP: u32 = 5;

/// Number of tracks addressable by parameter identifiers.
pub const FF_PARAM_TRACK_COUNT: u32 = 8;

/// Fixed-point denominator of a normalized parameter value: a value `v`
/// stands for `v / 2032`. Since 2032 = 127 * 16, both a 7-bit level
/// (`level / 127`) and a choke band (`band / 16`) are represented exactly.
pub const FF_NORMALIZED_ONE: u32 = 2032;

/// The identifier of `slot` on `track`, when both are in range.
pub open spec fn track_parameter_id(track_index: int, slot: int) -> Option<u32> {
    if 0 <= track_index < FF_PARAM_TRACK_COUNT && FF_PARAM_SLOT_GAIN <= slot
        <= FF_PARAM_SLOT_CHOKE_GROUP {
        Some((FF_PARAM_TRACK_BASE + track_index * FF_PARAM_TRACK_STRIDE + slot) as u32)
    } else {
        None
    }
}

/// Derives the engine parameter identifier for a track slot; `None` for a
/// track outside `0..8` or a slot outside the known set.
pub fn ff_track_parameter_id(track_index: u8, parameter_slot: u32) -> (r: Option<u32>)
    ensures
        r == track_parameter_id(track_index as int, parameter_slot as int),
{
    if track_index as u32 >= FF_PARAM_TRACK_COUNT {
        return None;
    }
    if parameter_slot < FF_PARAM_SLOT_GAIN || parameter_slot > FF_PARAM_SLOT_CHOKE_GROUP {
        return None;
    }
    Some(FF_PARAM_TRACK_BASE + (track_index as u32) * FF_PARAM_TRACK_STRIDE + parameter_slot)
}

/// Identifiers exist exactly for tracks `0..8` and the six known slots;
/// track 0's gain is `0x1001` and track 7's choke group is `0x1076`.
pub proof fn lemma_parameter_ids(track_index: int, slot: int)
    ensures
        track_parameter_id(track_index, slot) is Some <==> (0 <= track_index < 8 && 1 <= slot <= 6),
        track_parameter_id(0, FF_PARAM_SLOT_GAIN as int) == Some(0x1001u32),
        track_parameter_id(7, FF_PARAM_SLOT_CHOKE_GROUP as int) == Some(0x1076u32),
        track_parameter_id(8, FF_PARAM_SLOT_GAIN as int) is None,
{
}

/// A parameter change for the engine. `normalized_value` is in units of
/// `1 / FF_NORMALIZED_ONE` and lies in `0..=FF_NORMALIZED_ONE`.
#[derive(Clone, Copy, Debug, PartialEq, Eq, Structural)]
pub struct FfParameterUpdate {
    pub parameter_id: u32,
    pub normalized_value: u32,
    pub ramp_samples: u32,
    pub reserved: u32,
}

} // verus!
