use stepcore::codec::{
    load_kit_from_text, load_pattern_from_text, load_project_from_text, save_kit_to_text,
    save_pattern_to_text, save_project_to_text,
};
use stepcore::presets::{Kit, Pattern, PatternStep, Project, TrackAssignment, TrackControls};
use stepcore::recall::{engine_recall_from_project, render_recall_events};

#[test]
fn duplicate_track_assignment_is_rejected() {
    let mut kit = Kit::default();
    assert!(kit.add_assignment(TrackAssignment {
        track_index: 0,
        sample_id: "kick.01".to_string(),
    }));
    assert!(!kit.add_assignment(TrackAssignment {
        track_index: 0,
        sample_id: "kick.02".to_string(),
    }));
}

#[test]
fn set_track_controls_replaces_existing_entry() {
    let mut kit = Kit::default();
    kit.set_track_controls(2, TrackControls::default());
    kit.set_track_controls(5, TrackControls::default());
    kit.set_track_controls(2, TrackControls { gain: 10, ..TrackControls::default() });
    assert_eq!(kit.controls.len(), 2);
    assert_eq!(kit.track_controls(2).map(|c| c.gain), Some(10));
    assert_eq!(kit.track_controls(5).map(|c| c.gain), Some(1_000_000));
    assert_eq!(kit.track_controls(6), None);
}

#[test]
fn track_controls_roundtrip_in_kit() {
    let mut kit = Kit::default();
    kit.set_track_controls(
        3,
        TrackControls {
            gain: 800_000,
            pan: -250_000,
            filter_cutoff: 400_000,
            envelope_decay: 700_000,
            pitch_semitones: 3_000_000,
            choke_group: Some(1),
        },
    );

    let encoded = save_kit_to_text(&kit);
    let decoded = load_kit_from_text(&encoded).expect("kit decode");
    assert_eq!(kit, decoded);
}

#[test]
fn kit_text_has_the_expected_lines() {
    let mut kit = Kit::default();
    kit.name = "Kit é".to_string();
    assert!(kit.add_assignment(TrackAssignment { track_index: 1, sample_id: "ab".to_string() }));
    kit.set_track_controls(
        1,
        TrackControls {
            gain: 1_500_000,
            pan: -250_000,
            filter_cutoff: 0,
            envelope_decay: 7,
            pitch_semitones: -24_000_000,
            choke_group: None,
        },
    );
    let text = save_kit_to_text(&kit);
    assert_eq!(
        text,
        "FF_KIT_V1\nname=4B697420C3A9\ntrack|1|6162\ncontrol|1|1.500000|-0.250000|0.000000|0.000007|-24.000000|-1"
    );
    assert_eq!(load_kit_from_text(&text).expect("kit decode"), kit);
}

#[test]
fn kit_text_errors_are_reported() {
    assert!(load_kit_from_text("").is_err());
    assert!(load_kit_from_text("FF_PATTERN_V1").is_err());
    assert!(load_kit_from_text("FF_KIT_V1\nbogus").is_err());
    assert!(load_kit_from_text("FF_KIT_V1\ntrack|0|61\ntrack|0|62").is_err());
    assert!(load_kit_from_text("FF_KIT_V1\ntrack|0|6").is_err());
    assert!(load_kit_from_text("FF_KIT_V1\ntrack|0|FF").is_err());
    assert!(load_kit_from_text("FF_KIT_V1\ncontrol|0|1.0|0.000000|0.000000|0.000000|0.000000|-1").is_err());
    let kit = load_kit_from_text("FF_KIT_V1\ncontrol|3|1.000000|0.000000|0.000000|0.000000|0.000000|-1\ncontrol|3|0.500000|0.000000|0.000000|0.000000|0.000000|4\nname=6B")
        .expect("kit decode");
    assert_eq!(kit.name, "k");
    assert_eq!(kit.controls.len(), 1);
    assert_eq!(kit.controls[0].controls.gain, 500_000);
    assert_eq!(kit.controls[0].controls.choke_group, Some(4));
}

#[test]
fn pattern_steps_and_swing_are_mutable() {
    let mut pattern = Pattern::default();
    assert!(pattern.set_step(
        2,
        4,
        PatternStep {
            active: true,
            velocity: 127,
        },
    ));
    pattern.set_swing(300_000);

    let encoded = save_pattern_to_text(&pattern);
    let decoded = load_pattern_from_text(&encoded).expect("pattern decode");
    assert_eq!(pattern, decoded);
}

#[test]
fn pattern_swing_is_clamped_and_steps_checked() {
    let mut pattern = Pattern::default();
    pattern.set_swing(900_000);
    assert_eq!(pattern.swing, 450_000);
    assert!(!pattern.set_step(8, 0, PatternStep { active: true, velocity: 1 }));
    assert_eq!(pattern.step(0, 16), None);
    let text = save_pattern_to_text(&pattern);
    assert!(text.starts_with("FF_PATTERN_V1\nname=7061747465726E\nswing=0.450000\nstep|0|0|0|100\n"));
    assert!(load_pattern_from_text("FF_PATTERN_V1\nstep|8|0|1|100").is_err());
    assert!(load_pattern_from_text("FF_PATTERN_V1\nstep|0|0|2|100").is_err());
    let loose = load_pattern_from_text("FF_PATTERN_V1\nswing=0.900000\nstep|7|15|1|9").expect("pattern decode");
    assert_eq!(loose.swing, 450_000);
    assert_eq!(loose.step(7, 15), Some(PatternStep { active: true, velocity: 9 }));
}

#[test]
fn active_indexes_must_exist() {
    let mut project = Project {
        name: "demo".to_string(),
        kits: vec![Kit::default()],
        active_kit: None,
        patterns: vec![Pattern::default()],
        active_pattern: None,
    };

    assert!(project.set_active_kit(0));
    assert!(!project.set_active_kit(3));
    assert!(project.set_active_pattern(0));
    assert!(!project.set_active_pattern(2));
}

#[test]
fn project_text_roundtrip_is_deterministic() {
    let mut project = Project {
        name: "phase2".to_string(),
        kits: vec![Kit::default()],
        active_kit: Some(0),
        patterns: vec![Pattern::default()],
        active_pattern: Some(0),
    };

    project.kits[0].name = "kit-a".to_string();
    project.kits[0].add_assignment(TrackAssignment {
        track_index: 0,
        sample_id: "kick.01".to_string(),
    });
    project.kits[0].set_track_controls(
        0,
        TrackControls {
            gain: 1_200_000,
            pan: 100_000,
            filter_cutoff: 600_000,
            envelope_decay: 800_000,
            pitch_semitones: -2_000_000,
            choke_group: Some(1),
        },
    );
    project.patterns[0].name = "main".to_string();
    project.patterns[0].set_swing(200_000);
    project.patterns[0].set_step(
        0,
        0,
        PatternStep {
            active: true,
            velocity: 120,
        },
    );

    let encoded_1 = save_project_to_text(&project);
    let decoded = load_project_from_text(&encoded_1).expect("project decode");
    let encoded_2 = save_project_to_text(&decoded);

    assert_eq!(project, decoded);
    assert_eq!(encoded_1, encoded_2);
}

#[test]
fn project_text_selections_and_errors() {
    let project = Project {
        name: String::new(),
        kits: vec![Kit::default(), Kit::default()],
        active_kit: None,
        patterns: vec![],
        active_pattern: None,
    };
    let text = save_project_to_text(&project);
    assert_eq!(
        text,
        "FF_PROJECT_V1\nname=\nactive_kit=-1\nactive_pattern=-1\nBEGIN_KIT\nname=\nEND_KIT\nBEGIN_KIT\nname=\nEND_KIT"
    );
    assert_eq!(load_project_from_text(&text).expect("project decode"), project);
    assert!(load_project_from_text("FF_PROJECT_V1\nactive_kit=0").is_err());
    assert!(load_project_from_text("FF_PROJECT_V1\nBEGIN_KIT\nname=").is_err());
    assert!(load_project_from_text("FF_PROJECT_V1\nBEGIN_PATTERN\nswing=x\nEND_PATTERN").is_err());
    assert!(load_project_from_text("FF_KIT_V1").is_err());
    let reordered = load_project_from_text("FF_PROJECT_V1\nBEGIN_KIT\nEND_KIT\nactive_kit=0\nname=41\nactive_pattern=-7")
        .expect("project decode");
    assert_eq!(reordered.name, "A");
    assert_eq!(reordered.active_kit, Some(0));
    assert_eq!(reordered.active_pattern, None);
}

fn deterministic_project(name: &str) -> Project {
    Project {
        name: name.to_string(),
        kits: vec![Kit::default()],
        active_kit: Some(0),
        patterns: vec![Pattern::default()],
        active_pattern: Some(0),
    }
}

#[test]
fn saved_and_loaded_project_produce_identical_event_streams() {
    let mut project = deterministic_project("phase2-deterministic");

    project.kits[0].add_assignment(TrackAssignment {
        track_index: 0,
        sample_id: "kick-01".to_string(),
    });
    project.kits[0].set_track_controls(
        0,
        TrackControls {
            gain: 1_000_000,
            pan: 0,
            filter_cutoff: 500_000,
            envelope_decay: 700_000,
            pitch_semitones: 0,
            choke_group: Some(1),
        },
    );
    project.patterns[0].set_swing(200_000);
    project.patterns[0].set_step(
        0,
        0,
        PatternStep {
            active: true,
            velocity: 120,
        },
    );
    project.patterns[0].set_step(
        0,
        4,
        PatternStep {
            active: true,
            velocity: 100,
        },
    );

    let blocks = [480u32, 960u32, 2048u32, 4096u32, 16384u32];
    let saved_events =
        render_recall_events(&project, 48_000, &blocks).expect("render saved");

    let serialized = save_project_to_text(&project);
    let loaded = load_project_from_text(&serialized).expect("load serialized project");
    let loaded_events = render_recall_events(&loaded, 48_000, &blocks).expect("render loaded");

    assert_eq!(saved_events, loaded_events);
}

#[test]
fn saved_and_loaded_project_produce_identical_engine_recall() {
    let mut project = deterministic_project("phase2-recall-deterministic");

    project.kits[0].add_assignment(TrackAssignment {
        track_index: 1,
        sample_id: "hat-closed".to_string(),
    });
    project.kits[0].set_track_controls(
        1,
        TrackControls {
            gain: 800_000,
            pan: 0,
            filter_cutoff: 450_000,
            envelope_decay: 500_000,
            pitch_semitones: 2_000_000,
            choke_group: Some(1),
        },
    );

    let recalled = engine_recall_from_project(&project, 48_000).expect("render saved");
    let serialized = save_project_to_text(&project);
    let loaded = load_project_from_text(&serialized).expect("load serialized project");
    let restored = engine_recall_from_project(&loaded, 48_000).expect("render loaded");

    assert_eq!(recalled, restored);
}
