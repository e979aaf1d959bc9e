//! Recall of a stored project into live sequencer state and into the
//! parameter messages that reproduce it on the engine.
use crate::presets::{
    Kit, Pattern as PresetPattern, PatternStep, Project, TrackAssignment, TrackControlAssignment,
    TrackControls,
};
use crate::protocol::{
    ff_track_parameter_id, track_parameter_id, FfParameterUpdate, FF_NORMALIZED_ONE,
    FF_PARAM_SLOT_CHOKE_GROUP, FF_PARAM_SLOT_ENVELOPE_DECAY, FF_PARAM_SLOT_FILTER_CUTOFF,
    FF_PARAM_SLOT_GAIN, FF_PARAM_SLOT_PAN, FF_PARAM_SLOT_PITCH,
};
use crate::sequencer::{
    initial_state, interval_ticks, run_blocks, total_frames, Sequencer, SequencerState, Step, StepTriggerEvent, MAX_SWING,
    PATTERN_CELLS, STEPS_PER_PATTERN, TRACK_COUNT,
};
use crate::text::{decimal, push_decimal};
use vstd::math::min;
use vstd::prelude::*;
use vstd::string::StringExecFns;

verus! {

/// Highest 7-bit level.
pub const LEVEL_MAX: u8 = 127;

/// Highest choke group the engine distinguishes.
pub const CHOKE_GROUP_MAX: u8 = 15;

/// Engine value of one level step: `FF_NORMALIZED_ONE / 127`.
pub const LEVEL_UNIT: u32 = 16;

/// Engine value of one choke band: `FF_NORMALIZED_ONE / 16`.
pub const CHOKE_BAND_UNIT: u32 = 127;

/// Pitch range, in millionths of a semitone, on either side of zero.
pub const PITCH_RANGE: i32 = 24_000_000;

#[derive(Clone, Debug, PartialEq, Eq)]
pub struct TrackRecall {
    pub sample_id: Option<String>,
    pub choke_group: Option<u8>,
    pub gain_normalized: u8,
    pub pan_normalized: u8,
    pub filter_cutoff_normalized: u8,
    pub envelope_decay_normalized: u8,
    pub pitch_normalized: u8,
}

impl Default for TrackRecall {
    fn default() -> (r: Self)
        ensures
            r == (TrackRecall {
                sample_id: None,
                choke_group: None,
                gain_normalized: 0,
                pan_normalized: 0,
                filter_cutoff_normalized: 0,
                envelope_decay_normalized: 0,
                pitch_normalized: 0,
            }),
    {
        TrackRecall {
            sample_id: None,
            choke_group: None,
            gain_normalized: 0,
            pan_normalized: 0,
            filter_cutoff_normalized: 0,
            envelope_decay_normalized: 0,
            pitch_normalized: 0,
        }
    }
}

#[derive(Clone, Debug, PartialEq, Eq)]
pub struct TrackSampleAssignment {
    pub track_index: u8,
    pub sample_id: String,
}

#[derive(Clone, Debug, PartialEq, Eq)]
pub struct EngineRecall {
    pub sample_assignments: Vec<TrackSampleAssignment>,
    pub parameter_updates: Vec<FfParameterUpdate>,
}

pub open spec fn clamp(v: int, lo: int, hi: int) -> int {
    if v < lo {
        lo
    } else if v > hi {
        hi
    } else {
        v
    }
}

/// A control in `[0, 1]` (millionths, clamped) as a level `0..=127`,
/// rounded to nearest.
pub open spec fn unit_level(value: int) -> int {
    (clamp(value, 0, 1_000_000) * 127 + 500_000) / 1_000_000
}

/// A pan in `[-1, 1]` (millionths, clamped) as a level `0..=127`, centre
/// near 64, rounded to nearest.
pub open spec fn pan_level(value: int) -> int {
    ((clamp(value, -1_000_000, 1_000_000) + 1_000_000) * 127 + 1_000_000) / 2_000_000
}

/// A pitch in `[-24, 24]` semitones (millionths, clamped) as a level
/// `0..=127`, rounded to nearest.
pub open spec fn pitch_level(value: int) -> int {
    ((clamp(value, -24_000_000, 24_000_000) + 24_000_000) * 127 + 24_000_000) / 48_000_000
}

fn normalize_unit(value: i32) -> (r: u8)
    ensures
        r == unit_level(value as int),
{
    let c: i64 = if value < 0 {
        0
    } else if value > 1_000_000 {
        1_000_000
    } else {
        value as i64
    };
    ((c * 127 + 500_000) / 1_000_000) as u8
}

fn normalize_pan(value: i32) -> (r: u8)
    ensures
        r == pan_level(value as int),
{
    let c: i64 = if value < -1_000_000 {
        -1_000_000
    } else if value > 1_000_000 {
        1_000_000
    } else {
        value as i64
    };
    (((c + 1_000_000) * 127 + 1_000_000) / 2_000_000) as u8
}

fn normalize_pitch(value: i32) -> (r: u8)
    ensures
        r == pitch_level(value as int),
{
    let c: i64 = if value < -PITCH_RANGE {
        -24_000_000
    } else if value > PITCH_RANGE {
        24_000_000
    } else {
        value as i64
    };
    (((c + 24_000_000) * 127 + 24_000_000) / 48_000_000) as u8
}

/// A level `0..=127` as an engine value, `level / 127`.
pub open spec fn level_value(level: int) -> int {
    level * LEVEL_UNIT
}

/// A choke annotation as an engine value: no group is 0, group `g` is
/// `(min(g, 15) + 1) / 16`.
pub open spec fn choke_value(choke_group: Option<u8>) -> int {
    match choke_group {
        Some(g) => (min(g as int, CHOKE_GROUP_MAX as int) + 1) * CHOKE_BAND_UNIT,
        None => 0,
    }
}

fn normalized_from_u7(level: u8) -> (r: u32)
    ensures
        r == level_value(level as int),
{
    level as u32 * LEVEL_UNIT
}

fn normalize_choke_group_for_engine(choke_group: Option<u8>) -> (r: u32)
    ensures
        r == choke_value(choke_group),
        r <= FF_NORMALIZED_ONE,
{
    match choke_group {
        Some(g) => {
            let band: u32 = if g > CHOKE_GROUP_MAX {
                CHOKE_GROUP_MAX as u32
            } else {
                g as u32
            };
            (band + 1) * CHOKE_BAND_UNIT
        },
        None => 0,
    }
}

/// The sample of the last assignment to track `t`, if any.
pub open spec fn last_sample(tracks: Seq<TrackAssignment>, t: int) -> Option<String>
    decreases tracks.len(),
{
    if tracks.len() == 0 {
        None
    } else if tracks.last().track_index == t {
        Some(tracks.last().sample_id)
    } else {
        last_sample(tracks.drop_last(), t)
    }
}

/// The controls of the last entry for track `t`, if any.
pub open spec fn last_controls(controls: Seq<TrackControlAssignment>, t: int) -> Option<
    TrackControls,
>
    decreases controls.len(),
{
    if controls.len() == 0 {
        None
    } else if controls.last().track_index == t {
        Some(controls.last().controls)
    } else {
        last_controls(controls.drop_last(), t)
    }
}

/// The track of the first assignment that names a track out of range.
pub open spec fn first_stray_assignment(tracks: Seq<TrackAssignment>) -> Option<u8>
    decreases tracks.len(),
{
    if tracks.len() == 0 {
        None
    } else {
        match first_stray_assignment(tracks.drop_last()) {
            Some(t) => Some(t),
            None => if tracks.last().track_index >= TRACK_COUNT {
                Some(tracks.last().track_index)
            } else {
                None
            },
        }
    }
}

/// The track of the first control entry that names a track out of range.
pub open spec fn first_stray_control(controls: Seq<TrackControlAssignment>) -> Option<u8>
    decreases controls.len(),
{
    if controls.len() == 0 {
        None
    } else {
        match first_stray_control(controls.drop_last()) {
            Some(t) => Some(t),
            None => if controls.last().track_index >= TRACK_COUNT {
                Some(controls.last().track_index)
            } else {
                None
            },
        }
    }
}

/// The normalized recall of track `t` of a kit.
pub open spec fn recalled_track(kit: Kit, t: int) -> TrackRecall {
    let sample_id = last_sample(kit.tracks@, t);
    match last_controls(kit.controls@, t) {
        Some(c) => TrackRecall {
            sample_id,
            choke_group: c.choke_group,
            gain_normalized: unit_level(c.gain as int) as u8,
            pan_normalized: pan_level(c.pan as int) as u8,
            filter_cutoff_normalized: unit_level(c.filter_cutoff as int) as u8,
            envelope_decay_normalized: unit_level(c.envelope_decay as int) as u8,
            pitch_normalized: pitch_level(c.pitch_semitones as int) as u8,
        },
        None => TrackRecall {
            sample_id,
            choke_group: None,
            gain_normalized: 0,
            pan_normalized: 0,
            filter_cutoff_normalized: 0,
            envelope_decay_normalized: 0,
            pitch_normalized: 0,
        },
    }
}

/// The chosen entry of a list: the explicit selection, else the first entry
/// of a non-empty list.
pub open spec fn chosen_index(selection: Option<usize>, len: int) -> Option<int> {
    match selection {
        Some(i) => Some(i as int),
        None => if len > 0 {
            Some(0)
        } else {
            None
        },
    }
}

pub open spec fn active_kit_of(p: Project) -> Kit {
    p.kits@[chosen_index(p.active_kit, p.kits@.len() as int)->Some_0]
}

pub open spec fn active_pattern_of(p: Project) -> PresetPattern {
    p.patterns@[chosen_index(p.active_pattern, p.patterns@.len() as int)->Some_0]
}

/// Why a project cannot be recalled, if it cannot.
pub open spec fn recall_error(p: Project) -> Option<Seq<char>> {
    let kit = chosen_index(p.active_kit, p.kits@.len() as int);
    let pattern = chosen_index(p.active_pattern, p.patterns@.len() as int);
    if kit is None {
        Some("project has no kits"@)
    } else if kit->Some_0 >= p.kits@.len() {
        Some("active kit out of range: "@ + decimal(kit->Some_0 as nat))
    } else if pattern is None {
        Some("project has no patterns"@)
    } else if pattern->Some_0 >= p.patterns@.len() {
        Some("active pattern out of range: "@ + decimal(pattern->Some_0 as nat))
    } else if first_stray_assignment(active_kit_of(p).tracks@) is Some {
        Some(
            "kit track assignment out of range: "@ + decimal(
                first_stray_assignment(active_kit_of(p).tracks@)->Some_0 as nat,
            ),
        )
    } else if first_stray_control(active_kit_of(p).controls@) is Some {
        Some(
            "kit control track out of range: "@ + decimal(
                first_stray_control(active_kit_of(p).controls@)->Some_0 as nat,
            ),
        )
    } else {
        None
    }
}

/// The grid of a stored pattern as sequencer steps.
pub open spec fn pattern_cells(pattern: PresetPattern) -> Seq<Step> {
    pattern.steps@.map_values(|c: PatternStep| Step { active: c.active, velocity: c.velocity })
}

/// The sequencer that a kit and a pattern recall at a sample rate.
pub open spec fn recalled_sequencer(kit: Kit, pattern: PresetPattern, sample_rate_hz: int) -> SequencerState {
    let init = initial_state(sample_rate_hz);
    let swing = min(pattern.swing as int, MAX_SWING as int);
    SequencerState {
        swing,
        pending_ticks: min(
            init.pending_ticks,
            interval_ticks(init.sample_rate_hz, init.bpm, swing, 0),
        ),
        pattern: pattern_cells(pattern),
        choke_groups: Seq::new(
            TRACK_COUNT as nat,
            |t: int|
                match last_controls(kit.controls@, t) {
                    Some(c) => c.choke_group,
                    None => None,
                },
        ),
        ..init
    }
}

/// Live state recalled from a project: the sequencer and one normalized
/// recall per track.
#[derive(Debug)]
pub struct RecallState {
    sequencer: Sequencer,
    track_recall: Vec<TrackRecall>,
}

impl RecallState {
    pub closed spec fn wf(&self) -> bool {
        &&& self.sequencer.wf()
        &&& self.track_recall@.len() == TRACK_COUNT
    }

    pub closed spec fn spec_sequencer(&self) -> SequencerState {
        self.sequencer@
    }

    pub closed spec fn spec_tracks(&self) -> Seq<TrackRecall> {
        self.track_recall@
    }

    /// Whether this is the recall of project `p` at `sample_rate_hz`.
    pub open spec fn recalls(&self, p: Project, sample_rate_hz: int) -> bool {
        &&& self.spec_sequencer() == recalled_sequencer(
            active_kit_of(p),
            active_pattern_of(p),
            sample_rate_hz,
        )
        &&& self.spec_tracks() == Seq::new(
            TRACK_COUNT as nat,
            |t: int| recalled_track(active_kit_of(p), t),
        )
    }

    pub fn sequencer(&self) -> (r: &Sequencer)
        requires
            self.wf(),
        ensures
            r.wf(),
            r@ == self.spec_sequencer(),
    {
        &self.sequencer
    }

    /// The sequencer, to drive it in place.
    pub fn sequencer_mut(&mut self) -> (r: &mut Sequencer)
        requires
            old(self).wf(),
        ensures
            r.wf(),
            r@ == old(self).spec_sequencer(),
            final(r).wf() ==> final(self).wf(),
            final(self).spec_sequencer() == final(r)@,
            final(self).spec_tracks() == old(self).spec_tracks(),
    {
        &mut self.sequencer
    }

    /// The recall of a track, or `None` for a track out of range.
    pub fn track_recall(&self, track_index: usize) -> (r: Option<&TrackRecall>)
        requires
            self.wf(),
        ensures
            r == (if track_index < TRACK_COUNT {
                Some(&self.spec_tracks()[track_index as int])
            } else {
                None
            }),
    {
        if track_index < self.track_recall.len() {
            Some(&self.track_recall[track_index])
        } else {
            None
        }
    }
}

proof fn lemma_stray_assignment_prefix(s: Seq<TrackAssignment>, k: int)
    requires
        0 <= k <= s.len(),
        first_stray_assignment(s.take(k)) is Some,
    ensures
        first_stray_assignment(s) == first_stray_assignment(s.take(k)),
    decreases s.len() - k,
{
    if k == s.len() {
        assert(s.take(k) =~= s);
    } else {
        assert(s.take(k + 1).drop_last() =~= s.take(k));
        lemma_stray_assignment_prefix(s, k + 1);
    }
}

proof fn lemma_stray_control_prefix(s: Seq<TrackControlAssignment>, k: int)
    requires
        0 <= k <= s.len(),
        first_stray_control(s.take(k)) is Some,
    ensures
        first_stray_control(s) == first_stray_control(s.take(k)),
    decreases s.len() - k,
{
    if k == s.len() {
        assert(s.take(k) =~= s);
    } else {
        assert(s.take(k + 1).drop_last() =~= s.take(k));
        lemma_stray_control_prefix(s, k + 1);
    }
}

fn choose_index(selection: Option<usize>, len: usize) -> (r: Option<usize>)
    ensures
        match r {
            Some(i) => chosen_index(selection, len as int) == Some(i as int),
            None => chosen_index(selection, len as int) is None,
        },
{
    match selection {
        Some(i) => Some(i),
        None => if len > 0 {
            Some(0)
        } else {
            None
        },
    }
}

fn numbered_message(prefix: &str, n: u64) -> (r: String)
    ensures
        r@ == prefix@ + decimal(n as nat),
{
    let mut m = String::from_str(prefix);
    push_decimal(&mut m, n);
    m
}

/// The sample of the last assignment to each track, or the track of the
/// first assignment out of range.
fn collect_samples(tracks: &Vec<TrackAssignment>) -> (r: Result<Vec<Option<String>>, u8>)
    ensures
        match r {
            Ok(samples) => {
                &&& first_stray_assignment(tracks@) is None
                &&& samples@.len() == TRACK_COUNT
                &&& forall|t: int| 0 <= t < TRACK_COUNT ==> #[trigger] samples@[t] == last_sample(tracks@, t)
            },
            Err(t) => first_stray_assignment(tracks@) == Some(t),
        },
{
    let mut samples: Vec<Option<String>> = Vec::new();
    let mut t: usize = 0;
    while t < TRACK_COUNT
        invariant
            t <= TRACK_COUNT,
            samples@.len() == t,
            forall|j: int| 0 <= j < t ==> #[trigger] samples@[j] is None,
        decreases TRACK_COUNT - t,
    {
        samples.push(None);
        t = t + 1;
    }
    let mut i: usize = 0;
    while i < tracks.len()
        invariant
            i <= tracks@.len(),
            samples@.len() == TRACK_COUNT,
            first_stray_assignment(tracks@.take(i as int)) is None,
            forall|t: int| 0 <= t < TRACK_COUNT ==> #[trigger] samples@[t] == last_sample(tracks@.take(i as int), t),
        decreases tracks@.len() - i,
    {
        let ghost before = tracks@.take(i as int);
        let ghost after = tracks@.take(i as int + 1);
        assert(after.drop_last() =~= before);
        assert(after.last() == tracks@[i as int]);
        let track_index = tracks[i].track_index;
        if track_index as usize >= TRACK_COUNT {
            proof {
                lemma_stray_assignment_prefix(tracks@, i as int + 1);
            }
            return Err(track_index);
        }
        samples.set(track_index as usize, Some(tracks[i].sample_id.clone()));
        i = i + 1;
    }
    assert(tracks@.take(tracks@.len() as int) =~= tracks@);
    Ok(samples)
}

/// The controls of the last entry for each track, or the track of the first
/// entry out of range.
fn collect_controls(controls: &Vec<TrackControlAssignment>) -> (r: Result<Vec<Option<TrackControls>>, u8>)
    ensures
        match r {
            Ok(found) => {
                &&& first_stray_control(controls@) is None
                &&& found@.len() == TRACK_COUNT
                &&& forall|t: int| 0 <= t < TRACK_COUNT ==> #[trigger] found@[t] == last_controls(controls@, t)
            },
            Err(t) => first_stray_control(controls@) == Some(t),
        },
{
    let mut found: Vec<Option<TrackControls>> = Vec::new();
    let mut t: usize = 0;
    while t < TRACK_COUNT
        invariant
            t <= TRACK_COUNT,
            found@.len() == t,
            forall|j: int| 0 <= j < t ==> #[trigger] found@[j] is None,
        decreases TRACK_COUNT - t,
    {
        found.push(None);
        t = t + 1;
    }
    let mut i: usize = 0;
    while i < controls.len()
        invariant
            i <= controls@.len(),
            found@.len() == TRACK_COUNT,
            first_stray_control(controls@.take(i as int)) is None,
            forall|t: int| 0 <= t < TRACK_COUNT ==> #[trigger] found@[t] == last_controls(controls@.take(i as int), t),
        decreases controls@.len() - i,
    {
        let ghost before = controls@.take(i as int);
        let ghost after = controls@.take(i as int + 1);
        assert(after.drop_last() =~= before);
        assert(after.last() == controls@[i as int]);
        let track_index = controls[i].track_index;
        if track_index as usize >= TRACK_COUNT {
            proof {
                lemma_stray_control_prefix(controls@, i as int + 1);
            }
            return Err(track_index);
        }
        found.set(track_index as usize, Some(controls[i].controls));
        i = i + 1;
    }
    assert(controls@.take(controls@.len() as int) =~= controls@);
    Ok(found)
}

/// Copies every cell of a stored pattern into the sequencer's grid.
fn load_cells(sequencer: &mut Sequencer, pattern: &PresetPattern)
    requires
        old(sequencer).wf(),
    ensures
        final(sequencer).wf(),
        final(sequencer)@ == (SequencerState { pattern: pattern_cells(*pattern), ..old(sequencer)@ }),
{
    let mut k: usize = 0;
    while k < PATTERN_CELLS
        invariant
            k <= PATTERN_CELLS,
            sequencer.wf(),
            sequencer@.pattern.len() == PATTERN_CELLS,
            sequencer@ == (SequencerState { pattern: sequencer@.pattern, ..old(sequencer)@ }),
            forall|j: int| 0 <= j < k ==> #[trigger] sequencer@.pattern[j] == pattern_cells(*pattern)[j],
        decreases PATTERN_CELLS - k,
    {
        let cell = pattern.steps[k];
        let track_index = k / STEPS_PER_PATTERN;
        let step_index = k % STEPS_PER_PATTERN;
        assert(track_index * 16 + step_index == k);
        let placed = sequencer.pattern_mut().set_step(
            track_index,
            step_index,
            Step { active: cell.active, velocity: cell.velocity },
        );
        assert(placed);
        k = k + 1;
    }
    assert(sequencer@.pattern =~= pattern_cells(*pattern));
}

/// Annotates each track that has controls with their choke group.
fn apply_choke_groups(sequencer: &mut Sequencer, controls: &Vec<Option<TrackControls>>)
    requires
        old(sequencer).wf(),
        controls@.len() == TRACK_COUNT,
        forall|t: int| 0 <= t < TRACK_COUNT ==> #[trigger] old(sequencer)@.choke_groups[t] is None,
    ensures
        final(sequencer).wf(),
        final(sequencer)@ == (SequencerState {
            choke_groups: Seq::new(
                TRACK_COUNT as nat,
                |t: int|
                    match controls@[t] {
                        Some(c) => c.choke_group,
                        None => None,
                    },
            ),
            ..old(sequencer)@
        }),
{
    let mut t: usize = 0;
    while t < TRACK_COUNT
        invariant
            t <= TRACK_COUNT,
            controls@.len() == TRACK_COUNT,
            sequencer.wf(),
            sequencer@ == (SequencerState { choke_groups: sequencer@.choke_groups, ..old(sequencer)@ }),
            forall|j: int|
                0 <= j < TRACK_COUNT ==> #[trigger] sequencer@.choke_groups[j] == (if j < t {
                    match controls@[j] {
                        Some(c) => c.choke_group,
                        None => None,
                    }
                } else {
                    None
                }),
        decreases TRACK_COUNT - t,
    {
        match controls[t] {
            Some(c) => {
                sequencer.set_track_choke_group(t, c.choke_group);
            },
            None => {},
        }
        t = t + 1;
    }
    assert(sequencer@.choke_groups =~= Seq::new(
        TRACK_COUNT as nat,
        |t: int|
            match controls@[t] {
                Some(c) => c.choke_group,
                None => None,
            },
    ));
}

/// The normalized recall of one track from its sample and controls.
fn track_recall_of(sample_id: &Option<String>, controls: Option<TrackControls>) -> (r: TrackRecall)
    ensures
        r == (match controls {
            Some(c) => TrackRecall {
                sample_id: *sample_id,
                choke_group: c.choke_group,
                gain_normalized: unit_level(c.gain as int) as u8,
                pan_normalized: pan_level(c.pan as int) as u8,
                filter_cutoff_normalized: unit_level(c.filter_cutoff as int) as u8,
                envelope_decay_normalized: unit_level(c.envelope_decay as int) as u8,
                pitch_normalized: pitch_level(c.pitch_semitones as int) as u8,
            },
            None => TrackRecall {
                sample_id: *sample_id,
                choke_group: None,
                gain_normalized: 0,
                pan_normalized: 0,
                filter_cutoff_normalized: 0,
                envelope_decay_normalized: 0,
                pitch_normalized: 0,
            },
        }),
{
    let sample_id = match sample_id {
        Some(id) => Some(id.clone()),
        None => None,
    };
    match controls {
        Some(c) => TrackRecall {
            sample_id,
            choke_group: c.choke_group,
            gain_normalized: normalize_unit(c.gain),
            pan_normalized: normalize_pan(c.pan),
            filter_cutoff_normalized: normalize_unit(c.filter_cutoff),
            envelope_decay_normalized: normalize_unit(c.envelope_decay),
            pitch_normalized: normalize_pitch(c.pitch_semitones),
        },
        None => TrackRecall {
            sample_id,
            choke_group: None,
            gain_normalized: 0,
            pan_normalized: 0,
            filter_cutoff_normalized: 0,
            envelope_decay_normalized: 0,
            pitch_normalized: 0,
        },
    }
}

/// Builds the live state of a project: a fresh sequencer at `sample_rate_hz`
/// holding the active pattern's swing and grid and the active kit's choke
/// groups, and the normalized recall of every track. The active kit and
/// pattern default to the first when unset; an empty list, a selection out
/// of range or a kit entry naming a track out of range is an error.
pub fn recall_state_from_project(project: &Project, sample_rate_hz: u32) -> (r: Result<RecallState, String>)
    ensures
        match recall_error(*project) {
            Some(message) => r matches Err(e) && e@ == message,
            None => r matches Ok(state) && state.wf() && state.recalls(*project, sample_rate_hz as int),
        },
{
    let kit_index = match choose_index(project.active_kit, project.kits.len()) {
        Some(i) => i,
        None => {
            return Err(String::from_str("project has no kits"));
        },
    };
    if kit_index >= project.kits.len() {
        return Err(numbered_message("active kit out of range: ", kit_index as u64));
    }
    let pattern_index = match choose_index(project.active_pattern, project.patterns.len()) {
        Some(i) => i,
        None => {
            return Err(String::from_str("project has no patterns"));
        },
    };
    if pattern_index >= project.patterns.len() {
        return Err(numbered_message("active pattern out of range: ", pattern_index as u64));
    }
    let kit = &project.kits[kit_index];
    let pattern = &project.patterns[pattern_index];
    assert(*kit == active_kit_of(*project));
    assert(*pattern == active_pattern_of(*project));
    let samples = match collect_samples(&kit.tracks) {
        Ok(samples) => samples,
        Err(t) => {
            return Err(numbered_message("kit track assignment out of range: ", t as u64));
        },
    };
    let controls = match collect_controls(&kit.controls) {
        Ok(found) => found,
        Err(t) => {
            return Err(numbered_message("kit control track out of range: ", t as u64));
        },
    };
    let mut sequencer = Sequencer::new(sample_rate_hz);
    sequencer.set_swing(pattern.swing);
    load_cells(&mut sequencer, pattern);
    apply_choke_groups(&mut sequencer, &controls);
    assert(sequencer@.choke_groups =~= recalled_sequencer(
        *kit,
        *pattern,
        sample_rate_hz as int,
    ).choke_groups);
    assert(sequencer@ == recalled_sequencer(*kit, *pattern, sample_rate_hz as int));
    let mut track_recall: Vec<TrackRecall> = Vec::new();
    let mut t: usize = 0;
    while t < TRACK_COUNT
        invariant
            t <= TRACK_COUNT,
            samples@.len() == TRACK_COUNT,
            controls@.len() == TRACK_COUNT,
            forall|j: int| 0 <= j < TRACK_COUNT ==> #[trigger] samples@[j] == last_sample(kit.tracks@, j),
            forall|j: int| 0 <= j < TRACK_COUNT ==> #[trigger] controls@[j] == last_controls(kit.controls@, j),
            track_recall@.len() == t,
            forall|j: int| 0 <= j < t ==> #[trigger] track_recall@[j] == recalled_track(*kit, j),
        decreases TRACK_COUNT - t,
    {
        track_recall.push(track_recall_of(&samples[t], controls[t]));
        t = t + 1;
    }
    let state = RecallState { sequencer, track_recall };
    assert(state.spec_tracks() =~= Seq::new(TRACK_COUNT as nat, |j: int| recalled_track(*kit, j)));
    Ok(state)
}

/// The update of `slot` on track `t` to `value`, capped at 1.
pub open spec fn parameter_update(t: int, slot: u32, value: int) -> FfParameterUpdate {
    FfParameterUpdate {
        parameter_id: track_parameter_id(t, slot as int)->Some_0,
        normalized_value: min(value, FF_NORMALIZED_ONE as int) as u32,
        ramp_samples: 0,
        reserved: 0,
    }
}

/// The six parameter updates of one track, by slot.
pub open spec fn track_updates(t: int, tr: TrackRecall) -> Seq<FfParameterUpdate> {
    seq![
        parameter_update(t, FF_PARAM_SLOT_GAIN, level_value(tr.gain_normalized as int)),
        parameter_update(t, FF_PARAM_SLOT_PAN, level_value(tr.pan_normalized as int)),
        parameter_update(t, FF_PARAM_SLOT_FILTER_CUTOFF, level_value(tr.filter_cutoff_normalized as int)),
        parameter_update(t, FF_PARAM_SLOT_ENVELOPE_DECAY, level_value(tr.envelope_decay_normalized as int)),
        parameter_update(t, FF_PARAM_SLOT_PITCH, level_value(tr.pitch_normalized as int)),
        parameter_update(t, FF_PARAM_SLOT_CHOKE_GROUP, choke_value(tr.choke_group)),
    ]
}

/// The parameter updates of the first `n` tracks, by track.
pub open spec fn engine_updates(tracks: Seq<TrackRecall>, n: int) -> Seq<FfParameterUpdate>
    decreases n,
{
    if n <= 0 {
        Seq::empty()
    } else {
        engine_updates(tracks, n - 1) + track_updates(n - 1, tracks[n - 1])
    }
}

/// The sample assignments of the first `n` tracks that have a sample, by
/// track.
pub open spec fn engine_assignments(tracks: Seq<TrackRecall>, n: int) -> Seq<TrackSampleAssignment>
    decreases n,
{
    if n <= 0 {
        Seq::empty()
    } else {
        let prefix = engine_assignments(tracks, n - 1);
        match tracks[n - 1].sample_id {
            Some(id) => prefix.push(TrackSampleAssignment { track_index: (n - 1) as u8, sample_id: id }),
            None => prefix,
        }
    }
}

fn push_parameter_update(
    output: &mut Vec<FfParameterUpdate>,
    track_index: u8,
    parameter_slot: u32,
    normalized_value: u32,
)
    ensures
        final(output)@ == old(output)@ + (if track_parameter_id(track_index as int, parameter_slot as int) is Some {
            seq![parameter_update(track_index as int, parameter_slot, normalized_value as int)]
        } else {
            Seq::empty()
        }),
{
    match ff_track_parameter_id(track_index, parameter_slot) {
        Some(parameter_id) => {
            let value = if normalized_value > FF_NORMALIZED_ONE {
                FF_NORMALIZED_ONE
            } else {
                normalized_value
            };
            output.push(FfParameterUpdate { parameter_id, normalized_value: value, ramp_samples: 0, reserved: 0 });
            assert(output@ =~= old(output)@ + seq![parameter_update(track_index as int, parameter_slot, normalized_value as int)]);
        },
        None => {
            assert(output@ =~= old(output)@ + Seq::<FfParameterUpdate>::empty());
        },
    }
}

impl RecallState {
    /// The messages that reproduce this state on the engine: each track's
    /// sample assignment, by track, and six parameter updates per track,
    /// by track and slot.
    pub fn to_engine_recall(&self) -> (r: EngineRecall)
        requires
            self.wf(),
        ensures
            r.sample_assignments@ == engine_assignments(self.spec_tracks(), TRACK_COUNT as int),
            r.parameter_updates@ == engine_updates(self.spec_tracks(), TRACK_COUNT as int),
    {
        let mut sample_assignments: Vec<TrackSampleAssignment> = Vec::new();
        let mut parameter_updates: Vec<FfParameterUpdate> = Vec::new();
        let mut t: usize = 0;
        while t < TRACK_COUNT
            invariant
                t <= TRACK_COUNT,
                self.wf(),
                sample_assignments@ == engine_assignments(self.spec_tracks(), t as int),
                parameter_updates@ == engine_updates(self.spec_tracks(), t as int),
            decreases TRACK_COUNT - t,
        {
            let track = &self.track_recall[t];
            let track_index = t as u8;
            match &track.sample_id {
                Some(id) => {
                    sample_assignments.push(TrackSampleAssignment { track_index, sample_id: id.clone() });
                },
                None => {},
            }
            let ghost before = parameter_updates@;
            push_parameter_update(&mut parameter_updates, track_index, FF_PARAM_SLOT_GAIN, normalized_from_u7(track.gain_normalized));
            push_parameter_update(&mut parameter_updates, track_index, FF_PARAM_SLOT_PAN, normalized_from_u7(track.pan_normalized));
            push_parameter_update(&mut parameter_updates, track_index, FF_PARAM_SLOT_FILTER_CUTOFF, normalized_from_u7(track.filter_cutoff_normalized));
            push_parameter_update(&mut parameter_updates, track_index, FF_PARAM_SLOT_ENVELOPE_DECAY, normalized_from_u7(track.envelope_decay_normalized));
            push_parameter_update(&mut parameter_updates, track_index, FF_PARAM_SLOT_PITCH, normalized_from_u7(track.pitch_normalized));
            push_parameter_update(&mut parameter_updates, track_index, FF_PARAM_SLOT_CHOKE_GROUP, normalize_choke_group_for_engine(track.choke_group));
            assert(parameter_updates@ =~= before + track_updates(t as int, self.spec_tracks()[t as int]));
            t = t + 1;
        }
        EngineRecall { sample_assignments, parameter_updates }
    }
}

/// The engine messages that recall a project: see `recall_state_from_project`
/// and `RecallState::to_engine_recall`.
pub fn engine_recall_from_project(project: &Project, sample_rate_hz: u32) -> (r: Result<EngineRecall, String>)
    ensures
        match recall_error(*project) {
            Some(message) => r matches Err(e) && e@ == message,
            None => r matches Ok(recall) && {
                let tracks = Seq::new(TRACK_COUNT as nat, |t: int| recalled_track(active_kit_of(*project), t));
                &&& recall.sample_assignments@ == engine_assignments(tracks, TRACK_COUNT as int)
                &&& recall.parameter_updates@ == engine_updates(tracks, TRACK_COUNT as int)
            },
        },
{
    let recall = recall_state_from_project(project, sample_rate_hz)?;
    Ok(recall.to_engine_recall())
}

/// A stopped sequencer state once started.
pub open spec fn started(s: SequencerState) -> SequencerState {
    SequencerState { playing: true, armed: true, ..s }
}

/// Recalls a project, starts its sequencer and runs it over a schedule of
/// blocks, returning every trigger emitted in order.
pub fn render_recall_events(project: &Project, sample_rate_hz: u32, blocks: &[u32]) -> (r: Result<Vec<StepTriggerEvent>, String>)
    requires
        total_frames(blocks@) <= u64::MAX,
    ensures
        match recall_error(*project) {
            Some(message) => r matches Err(e) && e@ == message,
            None => r matches Ok(events) && events@ == run_blocks(
                started(recalled_sequencer(active_kit_of(*project), active_pattern_of(*project), sample_rate_hz as int)),
                blocks@,
            ).1,
        },
{
    let mut recall = recall_state_from_project(project, sample_rate_hz)?;
    let ghost s0 = started(recall.spec_sequencer());
    let sequencer = recall.sequencer_mut();
    sequencer.start();
    assert(sequencer@ == s0);
    let mut events: Vec<StepTriggerEvent> = Vec::new();
    let mut i: usize = 0;
    while i < blocks.len()
        invariant
            i <= blocks@.len(),
            sequencer.wf(),
            sequencer@.playing,
            total_frames(blocks@) <= u64::MAX,
            sequencer@.timeline_sample == total_frames(blocks@.take(i as int)),
            (sequencer@, events@) == run_blocks(s0, blocks@.take(i as int)),
        decreases blocks@.len() - i,
    {
        proof {
            lemma_total_frames_prefix(blocks@, i as int + 1);
            assert(blocks@.take(i as int + 1).drop_last() =~= blocks@.take(i as int));
        }
        let mut block = sequencer.process_block(blocks[i]);
        events.append(&mut block);
        i = i + 1;
    }
    assert(blocks@.take(blocks@.len() as int) =~= blocks@);
    Ok(events)
}

proof fn lemma_total_frames_prefix(blocks: Seq<u32>, k: int)
    requires
        0 <= k <= blocks.len(),
    ensures
        total_frames(blocks.take(k)) <= total_frames(blocks),
    decreases blocks.len() - k,
{
    if k == blocks.len() {
        assert(blocks.take(k) =~= blocks);
    } else {
        lemma_total_frames_prefix(blocks, k + 1);
        assert(blocks.take(k + 1).drop_last() =~= blocks.take(k));
    }
}

} // verus!
