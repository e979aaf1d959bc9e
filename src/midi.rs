//! MIDI input: message parsing, note-to-pad mapping and control-change learn.
use crate::protocol::{
    ff_track_parameter_id, track_parameter_id, FF_PARAM_SLOT_ENVELOPE_DECAY,
    FF_PARAM_SLOT_FILTER_CUTOFF, FF_PARAM_SLOT_GAIN,
};
use crate::text::{decimal, push_decimal};
use vstd::prelude::*;
use vstd::string::StringExecFns;

verus! {

/// Number of MIDI note numbers, `0..=0x7F`.
pub const MIDI_NOTE_COUNT: usize = 128;

#[derive(Clone, Debug, PartialEq, Eq)]
pub struct MidiBinding {
    pub cc: u8,
    pub parameter_id: String,
}

#[derive(Clone, Copy, Debug, PartialEq, Eq, Structural)]
pub enum LearnTarget {
    TrackGain(u8),
    TrackFilterCutoff(u8),
    TrackEnvelopeDecay(u8),
}

/// The textual parameter name of a learn target.
pub open spec fn learn_parameter_name(target: LearnTarget) -> Seq<char> {
    match target {
        LearnTarget::TrackGain(t) => "engine.track."@ + decimal(t as nat) + ".gain"@,
        LearnTarget::TrackFilterCutoff(t) => "engine.track."@ + decimal(t as nat)
            + ".filter_cutoff"@,
        LearnTarget::TrackEnvelopeDecay(t) => "engine.track."@ + decimal(t as nat)
            + ".envelope_decay"@,
    }
}

/// The engine parameter identifier of a learn target.
pub open spec fn learn_parameter_numeric_id(target: LearnTarget) -> Option<u32> {
    match target {
        LearnTarget::TrackGain(t) => track_parameter_id(t as int, FF_PARAM_SLOT_GAIN as int),
        LearnTarget::TrackFilterCutoff(t) => track_parameter_id(
            t as int,
            FF_PARAM_SLOT_FILTER_CUTOFF as int,
        ),
        LearnTarget::TrackEnvelopeDecay(t) => track_parameter_id(
            t as int,
            FF_PARAM_SLOT_ENVELOPE_DECAY as int,
        ),
    }
}

impl LearnTarget {
    /// The parameter name, such as `engine.track.2.gain`.
    pub fn parameter_id(self) -> (r: String)
        ensures
            r@ == learn_parameter_name(self),
    {
        let mut s = String::from_str("engine.track.");
        match self {
            LearnTarget::TrackGain(t) => {
                push_decimal(&mut s, t as u64);
                s.append(".gain");
            },
            LearnTarget::TrackFilterCutoff(t) => {
                push_decimal(&mut s, t as u64);
                s.append(".filter_cutoff");
            },
            LearnTarget::TrackEnvelopeDecay(t) => {
                push_decimal(&mut s, t as u64);
                s.append(".envelope_decay");
            },
        }
        s
    }

    /// The engine parameter identifier, or `None` for a track out of range.
    pub fn parameter_numeric_id(self) -> (r: Option<u32>)
        ensures
            r == learn_parameter_numeric_id(self),
    {
        match self {
            LearnTarget::TrackGain(t) => ff_track_parameter_id(t, FF_PARAM_SLOT_GAIN),
            LearnTarget::TrackFilterCutoff(t) => ff_track_parameter_id(
                t,
                FF_PARAM_SLOT_FILTER_CUTOFF,
            ),
            LearnTarget::TrackEnvelopeDecay(t) => ff_track_parameter_id(
                t,
                FF_PARAM_SLOT_ENVELOPE_DECAY,
            ),
        }
    }
}

#[derive(Clone, Copy, Debug, PartialEq, Eq, Structural)]
pub enum MidiMessage {
    NoteOn { channel: u8, note: u8, velocity: u8 },
    NoteOff { channel: u8, note: u8, velocity: u8 },
    ControlChange { channel: u8, controller: u8, value: u8 },
}

#[derive(Clone, Copy, Debug, PartialEq, Eq, Structural)]
pub struct PadTrigger {
    pub track_index: u8,
    pub velocity: u8,
}

pub open spec fn is_data_byte(value: u8) -> bool {
    value <= 0x7F
}

/// Whether a byte can carry MIDI data (its top bit is clear).
pub fn is_midi_data_byte(value: u8) -> (r: bool)
    ensures
        r == is_data_byte(value),
{
    value <= 0x7F
}

/// The message that a three-byte MIDI packet carries. A note-on of
/// velocity 0 is a note-off.
pub open spec fn parsed_message(bytes: Seq<u8>) -> Option<MidiMessage> {
    if bytes.len() < 3 || !is_data_byte(bytes[1]) || !is_data_byte(bytes[2]) {
        None
    } else {
        let kind = bytes[0] / 16;
        let channel = (bytes[0] % 16) as u8;
        let data1 = bytes[1];
        let data2 = bytes[2];
        if kind == 0x8 || (kind == 0x9 && data2 == 0) {
            Some(MidiMessage::NoteOff { channel, note: data1, velocity: data2 })
        } else if kind == 0x9 {
            Some(MidiMessage::NoteOn { channel, note: data1, velocity: data2 })
        } else if kind == 0xB {
            Some(MidiMessage::ControlChange { channel, controller: data1, value: data2 })
        } else {
            None
        }
    }
}

/// Parses a note-on, note-off or control-change message from its first
/// three bytes; anything else, or data bytes with the top bit set, is `None`.
pub fn parse_midi_message(bytes: &[u8]) -> (r: Option<MidiMessage>)
    ensures
        r == parsed_message(bytes@),
{
    if bytes.len() < 3 {
        return None;
    }
    let status = bytes[0];
    let data1 = bytes[1];
    let data2 = bytes[2];
    if !is_midi_data_byte(data1) || !is_midi_data_byte(data2) {
        return None;
    }
    let kind = status / 16;
    let channel = status % 16;
    if kind == 0x8 || (kind == 0x9 && data2 == 0) {
        Some(MidiMessage::NoteOff { channel, note: data1, velocity: data2 })
    } else if kind == 0x9 {
        Some(MidiMessage::NoteOn { channel, note: data1, velocity: data2 })
    } else if kind == 0xB {
        Some(MidiMessage::ControlChange { channel, controller: data1, value: data2 })
    } else {
        None
    }
}

/// Maps MIDI notes to pad tracks.
#[derive(Clone, Debug, PartialEq, Eq)]
pub struct NoteMap {
    note_to_track: [Option<u8>; 128],
    track_count: u8,
}

impl View for NoteMap {
    type V = Seq<Option<u8>>;

    /// The track bound to each note.
    closed spec fn view(&self) -> Seq<Option<u8>> {
        self.note_to_track@
    }
}

impl NoteMap {
    pub closed spec fn spec_track_count(&self) -> u8 {
        self.track_count
    }

    /// An empty map for `track_count` tracks (at least one).
    pub fn new(track_count: u8) -> (r: Self)
        ensures
            r.spec_track_count() == (if track_count < 1 {
                1
            } else {
                track_count
            }),
            forall|n: int| 0 <= n < MIDI_NOTE_COUNT ==> #[trigger] r@[n] is None,
    {
        NoteMap {
            note_to_track: [None; 128],
            track_count: if track_count < 1 {
                1
            } else {
                track_count
            },
        }
    }

    /// Binds a note to a track; fails and changes nothing for a note above
    /// `0x7F` or a track outside the map.
    pub fn bind_note(&mut self, note: u8, track_index: u8) -> (r: bool)
        ensures
            r == (is_data_byte(note) && track_index < old(self).spec_track_count()),
            final(self).spec_track_count() == old(self).spec_track_count(),
            final(self)@ == (if r {
                old(self)@.update(note as int, Some(track_index))
            } else {
                old(self)@
            }),
    {
        if !is_midi_data_byte(note) || track_index >= self.track_count {
            return false;
        }
        self.note_to_track[note as usize] = Some(track_index);
        true
    }

    /// The track bound to a note; `None` for an unbound note or one above
    /// `0x7F`.
    pub fn resolve_track(&self, note: u8) -> (r: Option<u8>)
        ensures
            r == (if is_data_byte(note) {
                self@[note as int]
            } else {
                None
            }),
    {
        if !is_midi_data_byte(note) {
            return None;
        }
        self.note_to_track[note as usize]
    }
}

impl Default for NoteMap {
    fn default() -> (r: Self)
        ensures
            r.spec_track_count() == 8,
            forall|n: int| 0 <= n < MIDI_NOTE_COUNT ==> #[trigger] r@[n] is None,
    {
        NoteMap::new(8)
    }
}

/// The pad hit that a note-on plays, if its note is bound and its velocity
/// is not 0.
pub fn note_on_to_pad_trigger(note_map: &NoteMap, note: u8, velocity: u8) -> (r: Option<
    PadTrigger,
>)
    ensures
        r == (if velocity == 0 || !is_data_byte(note) {
            None
        } else {
            match note_map@[note as int] {
                Some(t) => Some(PadTrigger { track_index: t, velocity }),
                None => None,
            }
        }),
{
    if velocity == 0 {
        return None;
    }
    match note_map.resolve_track(note) {
        Some(track_index) => Some(PadTrigger { track_index, velocity }),
        None => None,
    }
}

/// No two bindings share a controller number.
pub open spec fn unique_controllers(bindings: Seq<MidiBinding>) -> bool {
    forall|i: int, j: int|
        0 <= i < bindings.len() && 0 <= j < bindings.len() && i != j ==> #[trigger] bindings[i].cc
            != #[trigger] bindings[j].cc
}

pub open spec fn bound_at(bindings: Seq<MidiBinding>, cc: u8, i: int) -> bool {
    0 <= i < bindings.len() && bindings[i].cc == cc
}

/// The parameter bound to each controller number.
pub open spec fn binding_map(bindings: Seq<MidiBinding>) -> Map<u8, Seq<char>> {
    Map::new(
        |cc: u8| exists|i: int| bound_at(bindings, cc, i),
        |cc: u8| bindings[choose|i: int| bound_at(bindings, cc, i)].parameter_id@,
    )
}

proof fn lemma_binding_at(bindings: Seq<MidiBinding>, cc: u8, i: int)
    requires
        unique_controllers(bindings),
        bound_at(bindings, cc, i),
    ensures
        binding_map(bindings).contains_key(cc),
        binding_map(bindings)[cc] == bindings[i].parameter_id@,
{
    let k = choose|k: int| bound_at(bindings, cc, k);
    assert(bound_at(bindings, cc, k));
    if k != i {
        assert(bindings[k].cc != bindings[i].cc);
    }
}

/// Controller-change bindings and the learn mode that creates them.
#[derive(Debug)]
pub struct MappingProfile {
    bindings: Vec<MidiBinding>,
    learn_target: Option<LearnTarget>,
}

impl View for MappingProfile {
    type V = Map<u8, Seq<char>>;

    closed spec fn view(&self) -> Map<u8, Seq<char>> {
        binding_map(self.bindings@)
    }
}

impl MappingProfile {
    pub closed spec fn wf(&self) -> bool {
        unique_controllers(self.bindings@)
    }

    pub closed spec fn spec_learn_target(&self) -> Option<LearnTarget> {
        self.learn_target
    }

    /// Binds a controller to a parameter, replacing any earlier binding of
    /// that controller.
    pub fn bind_cc(&mut self, cc: u8, parameter_id: &str)
        requires
            old(self).wf(),
        ensures
            final(self).wf(),
            final(self)@ == old(self)@.insert(cc, parameter_id@),
            final(self).spec_learn_target() == old(self).spec_learn_target(),
    {
        let ghost old_bindings = self.bindings@;
        let mut i: usize = 0;
        while i < self.bindings.len() && self.bindings[i].cc != cc
            invariant
                i <= self.bindings@.len(),
                self.bindings@ == old_bindings,
                self.learn_target == old(self).learn_target,
                unique_controllers(old_bindings),
                forall|j: int| 0 <= j < i ==> self.bindings@[j].cc != cc,
            decreases self.bindings@.len() - i,
        {
            i = i + 1;
        }
        let entry = MidiBinding { cc, parameter_id: String::from_str(parameter_id) };
        if i < self.bindings.len() {
            self.bindings.set(i, entry);
        } else {
            self.bindings.push(entry);
        }
        let ghost new_bindings = self.bindings@;
        assert(unique_controllers(new_bindings));
        let ghost m = binding_map(old_bindings).insert(cc, parameter_id@);
        let ghost n = binding_map(new_bindings);
        assert forall|c: u8|
            #[trigger] n.contains_key(c) == m.contains_key(c) && (n.contains_key(c) ==> n[c]
                == m[c]) by {
            if c == cc {
                lemma_binding_at(new_bindings, c, i as int);
            } else if exists|k: int| bound_at(old_bindings, c, k) {
                let k = choose|k: int| bound_at(old_bindings, c, k);
                lemma_binding_at(old_bindings, c, k);
                assert(bound_at(new_bindings, c, k));
                lemma_binding_at(new_bindings, c, k);
            } else {
                assert forall|k: int| !bound_at(new_bindings, c, k) by {
                    if bound_at(new_bindings, c, k) {
                        assert(bound_at(old_bindings, c, k));
                    }
                }
            }
        }
        assert(n =~= m);
    }

    /// The parameter bound to a controller, if any.
    pub fn resolve_cc(&self, cc: u8) -> (r: Option<&str>)
        requires
            self.wf(),
        ensures
            r is Some == self@.contains_key(cc),
            r matches Some(p) ==> p@ == self@[cc],
    {
        let mut i: usize = 0;
        while i < self.bindings.len()
            invariant
                i <= self.bindings@.len(),
                unique_controllers(self.bindings@),
                forall|j: int| 0 <= j < i ==> self.bindings@[j].cc != cc,
            decreases self.bindings@.len() - i,
        {
            if self.bindings[i].cc == cc {
                proof {
                    lemma_binding_at(self.bindings@, cc, i as int);
                }
                return Some(self.bindings[i].parameter_id.as_str());
            }
            i = i + 1;
        }
        None
    }

    /// Enters learn mode: the next control change binds to `target`.
    pub fn begin_learn(&mut self, target: LearnTarget)
        requires
            old(self).wf(),
        ensures
            final(self).wf(),
            final(self)@ == old(self)@,
            final(self).spec_learn_target() == Some(target),
    {
        self.learn_target = Some(target);
    }

    /// Leaves learn mode without binding anything.
    pub fn cancel_learn(&mut self)
        requires
            old(self).wf(),
        ensures
            final(self).wf(),
            final(self)@ == old(self)@,
            final(self).spec_learn_target() is None,
    {
        self.learn_target = None;
    }

    pub fn active_learn_target(&self) -> (r: Option<LearnTarget>)
        ensures
            r == self.spec_learn_target(),
    {
        self.learn_target
    }

    /// In learn mode, binds the controller of a control-change message to
    /// the learn target, leaves learn mode and returns the new binding.
    /// Any other message, or no learn mode, changes nothing.
    pub fn handle_message_for_learn(&mut self, message: MidiMessage) -> (r: Option<MidiBinding>)
        requires
            old(self).wf(),
        ensures
            final(self).wf(),
            match (old(self).spec_learn_target(), message) {
                (Some(target), MidiMessage::ControlChange { controller, .. }) => {
                    &&& r matches Some(b) && b.cc == controller && b.parameter_id@
                        == learn_parameter_name(target)
                    &&& final(self)@ == old(self)@.insert(controller, learn_parameter_name(target))
                    &&& final(self).spec_learn_target() is None
                },
                _ => {
                    &&& r is None
                    &&& final(self)@ == old(self)@
                    &&& final(self).spec_learn_target() == old(self).spec_learn_target()
                },
            },
    {
        let target = match self.learn_target {
            Some(t) => t,
            None => {
                return None;
            },
        };
        match message {
            MidiMessage::ControlChange { controller, .. } => {
                let parameter_id = target.parameter_id();
                self.bind_cc(controller, parameter_id.as_str());
                self.learn_target = None;
                Some(MidiBinding { cc: controller, parameter_id })
            },
            _ => None,
        }
    }
}

impl Default for MappingProfile {
    fn default() -> (r: Self)
        ensures
            r.wf(),
            r@ == Map::<u8, Seq<char>>::empty(),
            r.spec_learn_target() is None,
    {
        let r = MappingProfile { bindings: Vec::new(), learn_target: None };
        assert(r@ =~= Map::<u8, Seq<char>>::empty());
        r
    }
}

} // verus!
