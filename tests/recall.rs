use stepcore::presets::{Kit, Pattern as PresetPattern, PatternStep, Project, TrackAssignment, TrackControls};
use stepcore::protocol::{
    ff_track_parameter_id, FF_NORMALIZED_ONE, FF_PARAM_SLOT_CHOKE_GROUP, FF_PARAM_SLOT_GAIN,
    FF_PARAM_SLOT_PAN,
};
use stepcore::recall::{engine_recall_from_project, recall_state_from_project, render_recall_events};

fn one_kit_project(name: &str) -> Project {
    Project {
        name: name.to_string(),
        kits: vec![Kit::default()],
        active_kit: Some(0),
        patterns: vec![PresetPattern::default()],
        active_pattern: Some(0),
    }
}

fn unit(value: u32) -> f32 {
    value as f32 / FF_NORMALIZED_ONE as f32
}

#[test]
fn recall_state_maps_project_data_to_runtime_shape() {
    let mut project = one_kit_project("phase2-map");
    project.kits[0].add_assignment(TrackAssignment {
        track_index: 4,
        sample_id: "hihat-open".to_string(),
    });
    project.kits[0].set_track_controls(
        4,
        TrackControls {
            gain: 750_000,
            pan: -500_000,
            filter_cutoff: 350_000,
            envelope_decay: 650_000,
            pitch_semitones: 12_000_000,
            choke_group: Some(2),
        },
    );
    project.patterns[0].set_swing(250_000);
    project.patterns[0].set_step(
        4,
        0,
        PatternStep {
            active: true,
            velocity: 118,
        },
    );

    let recall = recall_state_from_project(&project, 48_000).expect("recall should map");
    let track = recall.track_recall(4).expect("track 4 should exist");
    assert_eq!(track.sample_id.as_deref(), Some("hihat-open"));
    assert_eq!(track.choke_group, Some(2));
    assert!(track.gain_normalized > 90);
    assert!(track.pan_normalized < 64);
    assert!(track.pitch_normalized > 90);
}

#[test]
fn recall_normalizes_controls_exactly() {
    let mut project = one_kit_project("levels");
    project.kits[0].set_track_controls(
        1,
        TrackControls {
            gain: 750_000,
            pan: -500_000,
            filter_cutoff: 2_000_000,
            envelope_decay: -1,
            pitch_semitones: 12_000_000,
            choke_group: None,
        },
    );
    let recall = recall_state_from_project(&project, 48_000).expect("recall should map");
    let track = recall.track_recall(1).expect("track 1 should exist");
    assert_eq!(track.gain_normalized, 95);
    assert_eq!(track.pan_normalized, 32);
    assert_eq!(track.filter_cutoff_normalized, 127);
    assert_eq!(track.envelope_decay_normalized, 0);
    assert_eq!(track.pitch_normalized, 95);
    assert!(recall.track_recall(8).is_none());
    assert_eq!(recall.sequencer().swing(), 0);
}

#[test]
fn recall_copies_pattern_and_swing() {
    let mut project = one_kit_project("pattern");
    project.patterns[0].set_swing(300_000);
    project.patterns[0].set_step(6, 9, PatternStep { active: true, velocity: 77 });
    let recall = recall_state_from_project(&project, 44_100).expect("recall should map");
    assert_eq!(recall.sequencer().swing(), 300_000);
    assert_eq!(recall.sequencer().sample_rate_hz(), 44_100);
    let cell = recall.sequencer().pattern().step(6, 9).expect("cell exists");
    assert!(cell.active);
    assert_eq!(cell.velocity, 77);
}

#[test]
fn recall_reports_selection_errors() {
    let mut project = one_kit_project("errors");
    project.kits.clear();
    project.active_kit = None;
    assert_eq!(
        recall_state_from_project(&project, 48_000).err(),
        Some("project has no kits".to_string())
    );
    project.kits.push(Kit::default());
    project.active_kit = Some(3);
    assert_eq!(
        recall_state_from_project(&project, 48_000).err(),
        Some("active kit out of range: 3".to_string())
    );
    project.active_kit = None;
    project.patterns.clear();
    project.active_pattern = None;
    assert_eq!(
        recall_state_from_project(&project, 48_000).err(),
        Some("project has no patterns".to_string())
    );
    project.patterns.push(PresetPattern::default());
    project.active_pattern = Some(12);
    assert_eq!(
        recall_state_from_project(&project, 48_000).err(),
        Some("active pattern out of range: 12".to_string())
    );
    project.active_pattern = None;
    assert!(recall_state_from_project(&project, 48_000).is_ok());
}

#[test]
fn recall_reports_stray_tracks() {
    let mut project = one_kit_project("stray");
    project.kits[0].tracks.push(TrackAssignment {
        track_index: 9,
        sample_id: "x".to_string(),
    });
    project.kits[0].set_track_controls(11, TrackControls::default());
    assert_eq!(
        engine_recall_from_project(&project, 48_000).err(),
        Some("kit track assignment out of range: 9".to_string())
    );
    project.kits[0].tracks.clear();
    assert_eq!(
        engine_recall_from_project(&project, 48_000).err(),
        Some("kit control track out of range: 11".to_string())
    );
}

#[test]
fn recall_state_maps_to_engine_recall_payload() {
    let mut project = one_kit_project("phase2-engine-recall");
    project.kits[0].add_assignment(TrackAssignment {
        track_index: 2,
        sample_id: "snare-01".to_string(),
    });
    project.kits[0].set_track_controls(
        2,
        TrackControls {
            gain: 500_000,
            pan: -250_000,
            filter_cutoff: 700_000,
            envelope_decay: 900_000,
            pitch_semitones: -12_000_000,
            choke_group: Some(3),
        },
    );

    let recall = engine_recall_from_project(&project, 48_000).expect("recall should map");
    assert_eq!(
        recall.sample_assignments[0].sample_id, "snare-01",
        "sample assignment should be preserved"
    );
    assert_eq!(recall.sample_assignments[0].track_index, 2);

    let gain_id = ff_track_parameter_id(2, FF_PARAM_SLOT_GAIN).expect("id should exist");
    let pan_id = ff_track_parameter_id(2, FF_PARAM_SLOT_PAN).expect("id should exist");
    let choke_id =
        ff_track_parameter_id(2, FF_PARAM_SLOT_CHOKE_GROUP).expect("id should exist");

    let gain_update = recall
        .parameter_updates
        .iter()
        .find(|update| update.parameter_id == gain_id)
        .expect("gain parameter update should exist");
    assert!(unit(gain_update.normalized_value) > 0.45 && unit(gain_update.normalized_value) < 0.55);

    let pan_update = recall
        .parameter_updates
        .iter()
        .find(|update| update.parameter_id == pan_id)
        .expect("pan parameter update should exist");
    assert!(unit(pan_update.normalized_value) < 0.5);

    let choke_update = recall
        .parameter_updates
        .iter()
        .find(|update| update.parameter_id == choke_id)
        .expect("choke parameter update should exist");
    assert!((unit(choke_update.normalized_value) - 0.25).abs() < 0.0001);
}

#[test]
fn engine_recall_lists_every_track_and_slot_in_order() {
    let mut project = one_kit_project("order");
    project.kits[0].add_assignment(TrackAssignment { track_index: 5, sample_id: "b".to_string() });
    project.kits[0].add_assignment(TrackAssignment { track_index: 1, sample_id: "a".to_string() });
    project.kits[0].set_track_controls(7, TrackControls { choke_group: Some(200), ..TrackControls::default() });
    let recall = engine_recall_from_project(&project, 48_000).expect("recall should map");
    let tracks: Vec<u8> = recall.sample_assignments.iter().map(|a| a.track_index).collect();
    assert_eq!(tracks, vec![1, 5]);
    assert_eq!(recall.parameter_updates.len(), 48);
    for (i, update) in recall.parameter_updates.iter().enumerate() {
        assert_eq!(update.parameter_id, 0x1000 + (i as u32 / 6) * 0x10 + (i as u32 % 6) + 1);
        assert_eq!(update.ramp_samples, 0);
    }
    let last = recall.parameter_updates[47];
    assert_eq!(last.parameter_id, 0x1076);
    assert_eq!(last.normalized_value, FF_NORMALIZED_ONE);
    assert_eq!(recall.parameter_updates[42].normalized_value, FF_NORMALIZED_ONE);
    assert_eq!(recall.parameter_updates[0].normalized_value, 0);
    assert_eq!(recall.parameter_updates[5].normalized_value, 0);
}

#[test]
fn rendered_events_follow_the_block_schedule() {
    let mut project = one_kit_project("render");
    project.kits[0].set_track_controls(0, TrackControls { choke_group: Some(1), ..TrackControls::default() });
    project.patterns[0].set_step(0, 0, PatternStep { active: true, velocity: 120 });
    project.patterns[0].set_step(0, 4, PatternStep { active: true, velocity: 100 });
    let events = render_recall_events(&project, 48_000, &[480, 960, 2048, 4096, 16384, 96_000])
        .expect("render");
    let stamps: Vec<(u8, u64)> = events.iter().map(|e| (e.step_index, e.timeline_sample)).collect();
    assert_eq!(stamps, vec![(0, 0), (4, 24_000), (0, 96_000)]);
    assert!(events.iter().all(|e| e.choke_group == Some(1)));
}
