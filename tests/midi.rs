use stepcore::midi::{
    note_on_to_pad_trigger, parse_midi_message, LearnTarget, MappingProfile, MidiMessage, NoteMap,
};

#[test]
fn bind_cc_replaces_existing_mapping() {
    let mut profile = MappingProfile::default();
    profile.bind_cc(74, "filter.cutoff");
    profile.bind_cc(74, "filter.drive");

    assert_eq!(profile.resolve_cc(74), Some("filter.drive"));
}

#[test]
fn bind_cc_keeps_other_controllers() {
    let mut profile = MappingProfile::default();
    profile.bind_cc(10, "a");
    profile.bind_cc(11, "b");
    profile.bind_cc(10, "c");
    assert_eq!(profile.resolve_cc(10), Some("c"));
    assert_eq!(profile.resolve_cc(11), Some("b"));
    assert_eq!(profile.resolve_cc(12), None);
}

#[test]
fn note_map_binds_notes_to_tracks() {
    let mut note_map = NoteMap::new(8);
    assert!(note_map.bind_note(36, 0));
    assert!(note_map.bind_note(43, 7));
    assert_eq!(note_map.resolve_track(36), Some(0));
    assert_eq!(note_map.resolve_track(43), Some(7));
}

#[test]
fn note_map_rejects_out_of_range_tracks() {
    let mut note_map = NoteMap::new(8);
    assert!(!note_map.bind_note(48, 8));
}

#[test]
fn note_map_rejects_out_of_range_notes() {
    let mut note_map = NoteMap::new(8);
    assert!(!note_map.bind_note(200, 0));
    assert_eq!(note_map.resolve_track(200), None);
}

#[test]
fn note_map_with_zero_tracks_keeps_one() {
    let mut note_map = NoteMap::new(0);
    assert!(note_map.bind_note(60, 0));
    assert!(!note_map.bind_note(61, 1));
    assert_eq!(note_map.resolve_track(61), None);
}

#[test]
fn parse_note_on_and_control_change_messages() {
    assert_eq!(
        parse_midi_message(&[0x90, 36, 127]),
        Some(MidiMessage::NoteOn {
            channel: 0,
            note: 36,
            velocity: 127,
        })
    );
    assert_eq!(
        parse_midi_message(&[0xB3, 74, 99]),
        Some(MidiMessage::ControlChange {
            channel: 3,
            controller: 74,
            value: 99,
        })
    );
}

#[test]
fn parse_note_off_forms_and_unknown_status() {
    assert_eq!(
        parse_midi_message(&[0x85, 40, 10]),
        Some(MidiMessage::NoteOff {
            channel: 5,
            note: 40,
            velocity: 10,
        })
    );
    assert_eq!(
        parse_midi_message(&[0x9F, 40, 0]),
        Some(MidiMessage::NoteOff {
            channel: 15,
            note: 40,
            velocity: 0,
        })
    );
    assert_eq!(parse_midi_message(&[0xE0, 1, 2]), None);
    assert_eq!(parse_midi_message(&[0x90, 36]), None);
}

#[test]
fn parse_rejects_invalid_data_bytes() {
    assert_eq!(parse_midi_message(&[0x90, 200, 127]), None);
    assert_eq!(parse_midi_message(&[0xB0, 74, 200]), None);
}

#[test]
fn map_note_on_to_pad_trigger() {
    let mut note_map = NoteMap::new(8);
    assert!(note_map.bind_note(38, 2));

    let trigger = note_on_to_pad_trigger(&note_map, 38, 100).expect("trigger should exist");
    assert_eq!(trigger.track_index, 2);
    assert_eq!(trigger.velocity, 100);
    assert_eq!(note_on_to_pad_trigger(&note_map, 38, 0), None);
}

#[test]
fn midi_learn_binds_first_control_change() {
    let mut profile = MappingProfile::default();
    profile.begin_learn(LearnTarget::TrackGain(2));

    let learned = profile
        .handle_message_for_learn(MidiMessage::ControlChange {
            channel: 0,
            controller: 21,
            value: 80,
        })
        .expect("learn should produce binding");

    assert_eq!(learned.cc, 21);
    assert_eq!(learned.parameter_id, "engine.track.2.gain");
    assert_eq!(profile.resolve_cc(21), Some("engine.track.2.gain"));
    assert_eq!(profile.active_learn_target(), None);
}

#[test]
fn midi_learn_ignores_non_control_messages() {
    let mut profile = MappingProfile::default();
    profile.begin_learn(LearnTarget::TrackFilterCutoff(1));

    assert_eq!(
        profile.handle_message_for_learn(MidiMessage::NoteOn {
            channel: 0,
            note: 36,
            velocity: 100,
        }),
        None
    );
    assert_eq!(
        profile.active_learn_target(),
        Some(LearnTarget::TrackFilterCutoff(1))
    );
}

#[test]
fn midi_learn_cancel_leaves_bindings() {
    let mut profile = MappingProfile::default();
    profile.begin_learn(LearnTarget::TrackGain(0));
    profile.cancel_learn();
    assert_eq!(profile.active_learn_target(), None);
    assert_eq!(
        profile.handle_message_for_learn(MidiMessage::ControlChange {
            channel: 0,
            controller: 5,
            value: 1,
        }),
        None
    );
    assert_eq!(profile.resolve_cc(5), None);
}

#[test]
fn learn_target_maps_to_expected_parameter_ids() {
    assert_eq!(
        LearnTarget::TrackGain(0).parameter_id(),
        "engine.track.0.gain"
    );
    assert_eq!(
        LearnTarget::TrackFilterCutoff(3).parameter_id(),
        "engine.track.3.filter_cutoff"
    );
    assert_eq!(
        LearnTarget::TrackEnvelopeDecay(7).parameter_id(),
        "engine.track.7.envelope_decay"
    );
    assert_eq!(
        LearnTarget::TrackGain(255).parameter_id(),
        "engine.track.255.gain"
    );
}

#[test]
fn learn_target_maps_to_expected_numeric_ids() {
    assert_eq!(
        LearnTarget::TrackGain(0).parameter_numeric_id(),
        Some(0x1001)
    );
    assert_eq!(
        LearnTarget::TrackFilterCutoff(3).parameter_numeric_id(),
        Some(0x1033)
    );
    assert_eq!(
        LearnTarget::TrackEnvelopeDecay(7).parameter_numeric_id(),
        Some(0x1074)
    );
    assert_eq!(LearnTarget::TrackGain(8).parameter_numeric_id(), None);
}
