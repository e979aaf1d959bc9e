use stepcore::sequencer::{
    Pattern, Sequencer, Step, Transport, DEFAULT_BPM, MAX_BPM, MAX_SWING, MIN_BPM,
    STEPS_PER_PATTERN, TICKS_PER_SAMPLE, TRACK_COUNT,
};

#[test]
fn pattern_supports_eight_tracks_and_sixteen_steps() {
    let mut pattern = Pattern::default();
    assert!(pattern.set_step(
        TRACK_COUNT - 1,
        STEPS_PER_PATTERN - 1,
        Step {
            active: true,
            velocity: 127,
        },
    ));
    assert!(
        pattern
            .step(TRACK_COUNT - 1, STEPS_PER_PATTERN - 1)
            .expect("step should exist")
            .active
    );
    assert!(!pattern.set_step(
        TRACK_COUNT,
        0,
        Step {
            active: true,
            velocity: 100,
        },
    ));
}

#[test]
fn pattern_rejects_out_of_range_step_without_writing() {
    let mut pattern = Pattern::default();
    let before = pattern.clone();
    assert!(!pattern.set_step(0, STEPS_PER_PATTERN, Step { active: true, velocity: 1 }));
    assert_eq!(pattern, before);
    assert_eq!(pattern.step(0, STEPS_PER_PATTERN), None);
    assert_eq!(pattern.step(0, 0), Some(Step { active: false, velocity: 100 }));
}

#[test]
fn transport_clamps_tempo() {
    let mut transport = Transport::default();
    transport.set_bpm(9_999_000);
    assert_eq!(transport.bpm(), MAX_BPM);
    transport.set_bpm(1_000);
    assert_eq!(transport.bpm(), MIN_BPM);
    transport.set_bpm(DEFAULT_BPM);
    assert_eq!(transport.bpm(), DEFAULT_BPM);
}

#[test]
fn one_step_at_48k_and_120_bpm_is_6000_samples() {
    let sequencer = Sequencer::new(48_000);
    assert_eq!(sequencer.pending_ticks(), 6_000 * TICKS_PER_SAMPLE);
}

#[test]
fn sequencer_emits_step_zero_immediately_on_start() {
    let mut sequencer = Sequencer::new(48_000);
    assert!(sequencer.pattern_mut().set_step(
        0,
        0,
        Step {
            active: true,
            velocity: 120,
        },
    ));
    sequencer.start();

    let events = sequencer.process_block(128);
    assert_eq!(events.len(), 1);
    assert_eq!(events[0].track_index, 0);
    assert_eq!(events[0].step_index, 0);
    assert_eq!(events[0].choke_group, None);
    assert_eq!(events[0].block_offset, 0);
}

#[test]
fn empty_block_and_stopped_sequencer_emit_nothing() {
    let mut sequencer = Sequencer::new(48_000);
    assert!(sequencer.pattern_mut().set_step(0, 0, Step { active: true, velocity: 1 }));
    assert!(sequencer.process_block(96_000).is_empty());
    assert_eq!(sequencer.timeline_sample(), 0);
    sequencer.start();
    assert!(sequencer.process_block(0).is_empty());
    assert_eq!(sequencer.process_block(1).len(), 1);
    sequencer.stop();
    assert!(sequencer.process_block(96_000).is_empty());
    assert_eq!(sequencer.timeline_sample(), 1);
}

#[test]
fn sequencer_emits_multi_track_step_events() {
    let mut sequencer = Sequencer::new(48_000);
    assert!(sequencer.pattern_mut().set_step(
        1,
        5,
        Step {
            active: true,
            velocity: 90,
        },
    ));
    assert!(sequencer.pattern_mut().set_step(
        3,
        5,
        Step {
            active: true,
            velocity: 110,
        },
    ));

    sequencer.start();
    let events = sequencer.process_block(30_000);
    let step_five_events: Vec<_> = events
        .iter()
        .filter(|event| event.step_index == 5)
        .collect();
    assert_eq!(step_five_events.len(), 2);
    assert!(step_five_events.iter().any(|event| event.track_index == 1));
    assert!(step_five_events.iter().any(|event| event.track_index == 3));
}

#[test]
fn step_boundaries_fall_on_exact_offsets() {
    let mut sequencer = Sequencer::new(48_000);
    for step in 0..STEPS_PER_PATTERN {
        assert!(sequencer.pattern_mut().set_step(0, step, Step { active: true, velocity: 1 }));
    }
    sequencer.start();
    let events = sequencer.process_block(20_000);
    let offsets: Vec<u32> = events.iter().map(|event| event.block_offset).collect();
    assert_eq!(offsets, vec![0, 6_000, 12_000, 18_000]);
    let later = sequencer.process_block(5_000);
    assert_eq!(later.len(), 1);
    assert_eq!(later[0].block_offset, 4_000);
    assert_eq!(later[0].timeline_sample, 24_000);
    assert_eq!(later[0].step_index, 4);
}

#[test]
fn sequencer_wraps_after_sixteen_steps() {
    let mut sequencer = Sequencer::new(48_000);
    assert!(sequencer.pattern_mut().set_step(
        2,
        0,
        Step {
            active: true,
            velocity: 127,
        },
    ));
    sequencer.start();

    let first_bar = sequencer.process_block(96_000);
    let second_bar = sequencer.process_block(96_000);

    assert!(first_bar
        .iter()
        .any(|event| event.step_index == 0 && event.track_index == 2));
    assert!(second_bar
        .iter()
        .any(|event| event.step_index == 0 && event.track_index == 2));
    assert_eq!(second_bar.len(), 1);
    assert_eq!(sequencer.current_step(), 0);
}

#[test]
fn swing_delays_offbeat_steps() {
    let mut sequencer = Sequencer::new(48_000);
    sequencer.set_swing(400_000);
    assert!(sequencer.pattern_mut().set_step(
        0,
        1,
        Step {
            active: true,
            velocity: 110,
        },
    ));
    sequencer.start();

    let events = sequencer.process_block(9_000);
    let offbeat = events
        .iter()
        .find(|event| event.step_index == 1)
        .expect("step 1 event should exist");
    assert_eq!(offbeat.block_offset, 8_400);
}

#[test]
fn swing_is_clamped() {
    let mut sequencer = Sequencer::new(48_000);
    sequencer.set_swing(1_000_000);
    assert_eq!(sequencer.swing(), MAX_SWING);
}

#[test]
fn tempo_drop_never_delays_the_pending_step() {
    let mut sequencer = Sequencer::new(48_000);
    sequencer.start();
    sequencer.process_block(1_000);
    let before = sequencer.pending_ticks();
    sequencer.set_tempo_bpm(60_000);
    assert_eq!(sequencer.pending_ticks(), before);
    sequencer.set_tempo_bpm(240_000);
    assert_eq!(sequencer.pending_ticks(), 3_000 * TICKS_PER_SAMPLE);
    assert_eq!(sequencer.transport().bpm(), 240_000);
}

#[test]
fn reset_rewinds_clock() {
    let mut sequencer = Sequencer::new(48_000);
    sequencer.start();
    sequencer.process_block(13_000);
    assert_eq!(sequencer.current_step(), 2);
    sequencer.reset();
    assert_eq!(sequencer.current_step(), 0);
    assert_eq!(sequencer.timeline_sample(), 0);
    assert_eq!(sequencer.pending_ticks(), 6_000 * TICKS_PER_SAMPLE);
    assert!(sequencer.transport().is_playing());
}

#[test]
fn choke_group_is_carried_in_step_events() {
    let mut sequencer = Sequencer::new(48_000);
    assert!(sequencer.set_track_choke_group(3, Some(1)));
    assert!(sequencer.pattern_mut().set_step(
        3,
        0,
        Step {
            active: true,
            velocity: 127,
        },
    ));
    sequencer.start();

    let events = sequencer.process_block(64);
    let event = events
        .iter()
        .find(|value| value.track_index == 3)
        .expect("track 3 event should exist");
    assert_eq!(event.choke_group, Some(1));
}

#[test]
fn choke_group_follows_every_trigger_until_changed() {
    let mut sequencer = Sequencer::new(48_000);
    assert!(sequencer.set_track_choke_group(3, Some(1)));
    assert!(!sequencer.set_track_choke_group(TRACK_COUNT, Some(2)));
    for step in 0..STEPS_PER_PATTERN {
        assert!(sequencer.pattern_mut().set_step(3, step, Step { active: true, velocity: 9 }));
    }
    sequencer.start();
    let events = sequencer.process_block(96_000);
    assert_eq!(events.len(), 17);
    assert!(events.iter().all(|event| event.choke_group == Some(1)));
    assert!(sequencer.set_track_choke_group(3, None));
    let later = sequencer.process_block(6_000);
    assert_eq!(later.len(), 1);
    assert_eq!(later[0].choke_group, None);
}
