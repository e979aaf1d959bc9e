//! Preset data: kits, patterns and projects as stored by the user.
//!
//! Continuous controls are held in millionths (`1_000_000` stands for 1.0,
//! a pitch of `12_000_000` for twelve semitones).
use crate::sequencer::{in_grid, cell_index, MAX_SWING, STEPS_PER_PATTERN, TRACK_COUNT, DEFAULT_VELOCITY};
use vstd::prelude::*;

verus! {

/// The control value standing for 1.0.
pub const CONTROL_ONE: i32 = 1_000_000;

#[derive(Clone, Debug, PartialEq, Eq)]
pub struct TrackAssignment {
    pub track_index: u8,
    pub sample_id: String,
}

#[derive(Clone, Copy, Debug, PartialEq, Eq, Structural)]
pub struct TrackControls {
    pub gain: i32,
    pub pan: i32,
    pub filter_cutoff: i32,
    pub envelope_decay: i32,
    pub pitch_semitones: i32,
    pub choke_group: Option<u8>,
}

impl Default for TrackControls {
    fn default() -> (r: Self)
        ensures
            r == (TrackControls {
                gain: CONTROL_ONE,
                pan: 0,
                filter_cutoff: CONTROL_ONE,
                envelope_decay: CONTROL_ONE,
                pitch_semitones: 0,
                choke_group: None,
            }),
    {
        TrackControls {
            gain: CONTROL_ONE,
            pan: 0,
            filter_cutoff: CONTROL_ONE,
            envelope_decay: CONTROL_ONE,
            pitch_semitones: 0,
            choke_group: None,
        }
    }
}

#[derive(Clone, Copy, Debug, PartialEq, Eq, Structural)]
pub struct TrackControlAssignment {
    pub track_index: u8,
    pub controls: TrackControls,
}

#[derive(Clone, Debug, PartialEq, Eq)]
pub struct Kit {
    pub name: String,
    pub tracks: Vec<TrackAssignment>,
    pub controls: Vec<TrackControlAssignment>,
}

/// Whether some assignment in `tracks` targets `track_index`.
pub open spec fn has_assignment(tracks: Seq<TrackAssignment>, track_index: u8) -> bool {
    exists|i: int| 0 <= i < tracks.len() && (#[trigger] tracks[i]).track_index == track_index
}

/// The position of the first control entry of `track_index`, if any.
pub open spec fn control_position(controls: Seq<TrackControlAssignment>, track_index: u8) -> Option<
    int,
> {
    if exists|i: int|
        0 <= i < controls.len() && (#[trigger] controls[i]).track_index == track_index {
        Some(
            choose|i: int|
                0 <= i < controls.len() && (#[trigger] controls[i]).track_index == track_index
                    && forall|j: int| 0 <= j < i ==> controls[j].track_index != track_index,
        )
    } else {
        None
    }
}

proof fn lemma_control_position(controls: Seq<TrackControlAssignment>, track_index: u8, i: int)
    requires
        0 <= i < controls.len(),
        controls[i].track_index == track_index,
        forall|j: int| 0 <= j < i ==> controls[j].track_index != track_index,
    ensures
        control_position(controls, track_index) == Some(i),
{
    let k = choose|k: int|
        0 <= k < controls.len() && (#[trigger] controls[k]).track_index == track_index
            && forall|j: int| 0 <= j < k ==> controls[j].track_index != track_index;
    assert(controls[i].track_index == track_index);
    if k < i {
        assert(controls[k].track_index != track_index);
    }
    if i < k {
        assert(controls[i].track_index != track_index);
    }
}

impl Kit {
    /// Adds a sample assignment unless the track already has one.
    pub fn add_assignment(&mut self, assignment: TrackAssignment) -> (r: bool)
        ensures
            r == !has_assignment(old(self).tracks@, assignment.track_index),
            r ==> final(self).tracks@ == old(self).tracks@.push(assignment),
            !r ==> final(self).tracks@ == old(self).tracks@,
            final(self).name == old(self).name,
            final(self).controls@ == old(self).controls@,
    {
        let mut i: usize = 0;
        while i < self.tracks.len()
            invariant
                i <= self.tracks@.len(),
                *self == *old(self),
                forall|j: int| 0 <= j < i ==> self.tracks@[j].track_index != assignment.track_index,
            decreases self.tracks@.len() - i,
        {
            if self.tracks[i].track_index == assignment.track_index {
                return false;
            }
            i = i + 1;
        }
        self.tracks.push(assignment);
        true
    }

    /// Sets the controls of a track, replacing its first entry or appending
    /// a new one.
    pub fn set_track_controls(&mut self, track_index: u8, controls: TrackControls)
        ensures
            final(self).controls@ == (match control_position(old(self).controls@, track_index) {
                Some(i) => old(self).controls@.update(
                    i,
                    TrackControlAssignment { track_index, controls },
                ),
                None => old(self).controls@.push(TrackControlAssignment { track_index, controls }),
            }),
            final(self).name == old(self).name,
            final(self).tracks@ == old(self).tracks@,
    {
        let entry = TrackControlAssignment { track_index, controls };
        let mut i: usize = 0;
        while i < self.controls.len() && self.controls[i].track_index != track_index
            invariant
                i <= self.controls@.len(),
                *self == *old(self),
                forall|j: int| 0 <= j < i ==> self.controls@[j].track_index != track_index,
            decreases self.controls@.len() - i,
        {
            i = i + 1;
        }
        if i < self.controls.len() {
            proof {
                lemma_control_position(self.controls@, track_index, i as int);
            }
            self.controls.set(i, entry);
        } else {
            self.controls.push(entry);
        }
    }

    /// The controls of the first entry for a track, if any.
    pub fn track_controls(&self, track_index: u8) -> (r: Option<TrackControls>)
        ensures
            r == (match control_position(self.controls@, track_index) {
                Some(i) => Some(self.controls@[i].controls),
                None => None,
            }),
    {
        let mut i: usize = 0;
        while i < self.controls.len()
            invariant
                i <= self.controls@.len(),
                forall|j: int| 0 <= j < i ==> self.controls@[j].track_index != track_index,
            decreases self.controls@.len() - i,
        {
            if self.controls[i].track_index == track_index {
                proof {
                    lemma_control_position(self.controls@, track_index, i as int);
                }
                return Some(self.controls[i].controls);
            }
            i = i + 1;
        }
        None
    }
}

impl Default for Kit {
    fn default() -> (r: Self)
        ensures
            r.name@.len() == 0,
            r.tracks@.len() == 0,
            r.controls@.len() == 0,
    {
        Kit { name: String::new(), tracks: Vec::new(), controls: Vec::new() }
    }
}

#[derive(Clone, Copy, Debug, PartialEq, Eq, Structural)]
pub struct PatternStep {
    pub active: bool,
    pub velocity: u8,
}

impl Default for PatternStep {
    fn default() -> (r: Self)
        ensures
            r == (PatternStep { active: false, velocity: DEFAULT_VELOCITY }),
    {
        PatternStep { active: false, velocity: DEFAULT_VELOCITY }
    }
}

/// A stored pattern. `steps` is the 8-track by 16-step grid stored flat by
/// `track * 16 + step`; `swing` is in millionths.
#[derive(Clone, Debug, PartialEq, Eq)]
pub struct Pattern {
    pub name: String,
    pub swing: u32,
    pub steps: [PatternStep; 128],
}

impl Pattern {
    /// Writes one cell; fails and changes nothing when either index is out
    /// of range.
    pub fn set_step(&mut self, track_index: usize, step_index: usize, step: PatternStep) -> (r:
        bool)
        ensures
            r == in_grid(track_index as int, step_index as int),
            r ==> final(self).steps@ == old(self).steps@.update(
                cell_index(track_index as int, step_index as int),
                step,
            ),
            !r ==> final(self).steps@ == old(self).steps@,
            final(self).name == old(self).name,
            final(self).swing == old(self).swing,
    {
        if track_index >= TRACK_COUNT || step_index >= STEPS_PER_PATTERN {
            return false;
        }
        self.steps[track_index * STEPS_PER_PATTERN + step_index] = step;
        true
    }

    /// Reads one cell, or `None` when either index is out of range.
    pub fn step(&self, track_index: usize, step_index: usize) -> (r: Option<PatternStep>)
        ensures
            r == (if in_grid(track_index as int, step_index as int) {
                Some(self.steps@[cell_index(track_index as int, step_index as int)])
            } else {
                None
            }),
    {
        if track_index >= TRACK_COUNT || step_index >= STEPS_PER_PATTERN {
            return None;
        }
        Some(self.steps[track_index * STEPS_PER_PATTERN + step_index])
    }

    /// Sets the swing, clamped to at most `MAX_SWING`.
    pub fn set_swing(&mut self, swing: u32)
        ensures
            final(self).swing == (if swing > MAX_SWING {
                MAX_SWING
            } else {
                swing
            }),
            final(self).name == old(self).name,
            final(self).steps == old(self).steps,
    {
        self.swing = if swing > MAX_SWING {
            MAX_SWING
        } else {
            swing
        };
    }
}

impl Default for Pattern {
    fn default() -> (r: Self)
        ensures
            r.name@ == "pattern"@,
            r.swing == 0,
            forall|i: int|
                0 <= i < 128 ==> #[trigger] r.steps@[i] == (PatternStep {
                    active: false,
                    velocity: DEFAULT_VELOCITY,
                }),
    {
        Pattern {
            name: String::from_str("pattern"),
            swing: 0,
            steps: [PatternStep { active: false, velocity: DEFAULT_VELOCITY }; 128],
        }
    }
}

#[derive(Clone, Debug, PartialEq, Eq)]
pub struct Project {
    pub name: String,
    pub kits: Vec<Kit>,
    pub active_kit: Option<usize>,
    pub patterns: Vec<Pattern>,
    pub active_pattern: Option<usize>,
}

impl Project {
    /// Selects a kit; fails and changes nothing for an index out of range.
    pub fn set_active_kit(&mut self, index: usize) -> (r: bool)
        ensures
            r == (index < old(self).kits@.len()),
            final(self).active_kit == (if r {
                Some(index)
            } else {
                old(self).active_kit
            }),
            final(self).name == old(self).name,
            final(self).kits@ == old(self).kits@,
            final(self).patterns@ == old(self).patterns@,
            final(self).active_pattern == old(self).active_pattern,
    {
        if index >= self.kits.len() {
            return false;
        }
        self.active_kit = Some(index);
        true
    }

    /// Selects a pattern; fails and changes nothing for an index out of
    /// range.
    pub fn set_active_pattern(&mut self, index: usize) -> (r: bool)
        ensures
            r == (index < old(self).patterns@.len()),
            final(self).active_pattern == (if r {
                Some(index)
            } else {
                old(self).active_pattern
            }),
            final(self).name == old(self).name,
            final(self).kits@ == old(self).kits@,
            final(self).patterns@ == old(self).patterns@,
            final(self).active_kit == old(self).active_kit,
    {
        if index >= self.patterns.len() {
            return false;
        }
        self.active_pattern = Some(index);
        true
    }
}

impl Default for Project {
    fn default() -> (r: Self)
        ensures
            r.name@.len() == 0,
            r.kits@.len() == 0,
            r.patterns@.len() == 0,
            r.active_kit is None,
            r.active_pattern is None,
    {
        Project {
            name: String::new(),
            kits: Vec::new(),
            active_kit: None,
            patterns: Vec::new(),
            active_pattern: None,
        }
    }
}

/// A kit as values: name, sample assignments as `(track, sample)` and
/// control entries.
pub struct KitView {
    pub name: Seq<char>,
    pub tracks: Seq<(u8, Seq<char>)>,
    pub controls: Seq<TrackControlAssignment>,
}

impl View for Kit {
    type V = KitView;

    open spec fn view(&self) -> KitView {
        KitView {
            name: self.name@,
            tracks: self.tracks@.map_values(|a: TrackAssignment| (a.track_index, a.sample_id@)),
            controls: self.controls@,
        }
    }
}

pub struct PatternView {
    pub name: Seq<char>,
    pub swing: u32,
    pub steps: Seq<PatternStep>,
}

impl View for Pattern {
    type V = PatternView;

    open spec fn view(&self) -> PatternView {
        PatternView { name: self.name@, swing: self.swing, steps: self.steps@ }
    }
}

pub struct ProjectView {
    pub name: Seq<char>,
    pub kits: Seq<KitView>,
    pub active_kit: Option<usize>,
    pub patterns: Seq<PatternView>,
    pub active_pattern: Option<usize>,
}

impl View for Project {
    type V = ProjectView;

    open spec fn view(&self) -> ProjectView {
        ProjectView {
            name: self.name@,
            kits: self.kits@.map_values(|k: Kit| k@),
            active_kit: self.active_kit,
            patterns: self.patterns@.map_values(|p: Pattern| p@),
            active_pattern: self.active_pattern,
        }
    }
}

} // verus!
