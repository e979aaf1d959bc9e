//! Sample-accurate step sequencer: pattern grid, transport and the clock that
//! turns audio blocks into step-trigger events.
//!
//! Time inside a block is kept in ticks, `TICKS_PER_SAMPLE` to a sample, so
//! that fractional step lengths carry over exactly from one block to the next.
use vstd::math::min;
use vstd::prelude::*;

verus! {

pub const TRACK_COUNT: usize = 8;

pub const STEPS_PER_PATTERN: usize = 16;

/// Number of cells in a pattern grid, `TRACK_COUNT * STEPS_PER_PATTERN`.
pub const PATTERN_CELLS: usize = 128;

/// Tempo is held in thousandths of a beat per minute.
pub const DEFAULT_BPM: u32 = 120_000;

pub const MIN_BPM: u32 = 20_000;

pub const MAX_BPM: u32 = 300_000;

/// Swing is held in millionths: `SWING_ONE` stands for a swing of 1.
pub const SWING_ONE: u32 = 1_000_000;

pub const MAX_SWING: u32 = 450_000;

/// Sub-sample resolution of the clock. At the fastest tempo one millionth of
/// swing still moves a step boundary by at least one tick.
pub const TICKS_PER_SAMPLE: u64 = 20_000_000;

/// `TICKS_PER_SAMPLE * 60 / 4 / 1000`: ticks in one step at one sample per
/// second and one thousandth of a beat per minute, per swing unit.
pub const STEP_TICK_FACTOR: u64 = 300_000;

pub const DEFAULT_VELOCITY: u8 = 100;

#[derive(Clone, Copy, Debug, PartialEq, Eq, Structural)]
pub struct Step {
    pub active: bool,
    pub velocity: u8,
}

impl Default for Step {
    fn default() -> (r: Self)
        ensures
            r == (Step { active: false, velocity: DEFAULT_VELOCITY }),
    {
        Step { active: false, velocity: DEFAULT_VELOCITY }
    }
}

/// Index of a grid cell in the flat pattern layout.
pub open spec fn cell_index(track_index: int, step_index: int) -> int {
    track_index * STEPS_PER_PATTERN + step_index
}

pub open spec fn in_grid(track_index: int, step_index: int) -> bool {
    0 <= track_index < TRACK_COUNT && 0 <= step_index < STEPS_PER_PATTERN
}

/// The 8-track by 16-step grid, stored flat by `track * 16 + step`.
#[derive(Clone, Copy, Debug, PartialEq, Eq)]
pub struct Pattern {
    cells: [Step; 128],
}

impl View for Pattern {
    type V = Seq<Step>;

    closed spec fn view(&self) -> Seq<Step> {
        self.cells@
    }
}

impl Pattern {
    pub open spec fn spec_step(&self, track_index: int, step_index: int) -> Step {
        self@[cell_index(track_index, step_index)]
    }

    /// Writes one cell; fails and leaves the grid untouched when either index
    /// is out of range.
    pub fn set_step(&mut self, track_index: usize, step_index: usize, step: Step) -> (r: bool)
        ensures
            r == in_grid(track_index as int, step_index as int),
            r ==> final(self)@ == old(self)@.update(
                cell_index(track_index as int, step_index as int),
                step,
            ),
            !r ==> *final(self) == *old(self),
    {
        if track_index >= TRACK_COUNT || step_index >= STEPS_PER_PATTERN {
            return false;
        }
        self.cells[track_index * STEPS_PER_PATTERN + step_index] = step;
        true
    }

    /// Reads one cell, or `None` when either index is out of range.
    pub fn step(&self, track_index: usize, step_index: usize) -> (r: Option<Step>)
        ensures
            r == (if in_grid(track_index as int, step_index as int) {
                Some(self.spec_step(track_index as int, step_index as int))
            } else {
                None
            }),
    {
        if track_index >= TRACK_COUNT || step_index >= STEPS_PER_PATTERN {
            return None;
        }
        Some(self.cells[track_index * STEPS_PER_PATTERN + step_index])
    }
}

impl Default for Pattern {
    fn default() -> (r: Self)
        ensures
            forall|i: int|
                0 <= i < PATTERN_CELLS ==> #[trigger] r@[i] == (Step {
                    active: false,
                    velocity: DEFAULT_VELOCITY,
                }),
    {
        Pattern { cells: [Step { active: false, velocity: DEFAULT_VELOCITY }; 128] }
    }
}

/// Clamps a tempo into `MIN_BPM..=MAX_BPM`.
pub open spec fn clamp_bpm(bpm: int) -> int {
    if bpm < MIN_BPM {
        MIN_BPM as int
    } else if bpm > MAX_BPM {
        MAX_BPM as int
    } else {
        bpm
    }
}

#[derive(Clone, Copy, Debug, PartialEq, Eq, Structural)]
pub struct Transport {
    bpm: u32,
    is_playing: bool,
}

impl Transport {
    pub closed spec fn spec_bpm(&self) -> u32 {
        self.bpm
    }

    pub closed spec fn spec_is_playing(&self) -> bool {
        self.is_playing
    }

    pub open spec fn wf(&self) -> bool {
        MIN_BPM <= self.spec_bpm() <= MAX_BPM
    }

    /// Tempo in thousandths of a beat per minute.
    pub fn bpm(&self) -> (r: u32)
        ensures
            r == self.spec_bpm(),
    {
        self.bpm
    }

    pub fn is_playing(&self) -> (r: bool)
        ensures
            r == self.spec_is_playing(),
    {
        self.is_playing
    }

    /// Sets the tempo, clamped into `MIN_BPM..=MAX_BPM`.
    pub fn set_bpm(&mut self, bpm: u32)
        ensures
            final(self).spec_bpm() == clamp_bpm(bpm as int),
            final(self).spec_is_playing() == old(self).spec_is_playing(),
    {
        self.bpm = if bpm < MIN_BPM {
            MIN_BPM
        } else if bpm > MAX_BPM {
            MAX_BPM
        } else {
            bpm
        };
    }

    pub fn start(&mut self)
        ensures
            final(self).spec_bpm() == old(self).spec_bpm(),
            final(self).spec_is_playing(),
    {
        self.is_playing = true;
    }

    pub fn stop(&mut self)
        ensures
            final(self).spec_bpm() == old(self).spec_bpm(),
            !final(self).spec_is_playing(),
    {
        self.is_playing = false;
    }
}

impl Default for Transport {
    fn default() -> (r: Self)
        ensures
            r.spec_bpm() == DEFAULT_BPM,
            !r.spec_is_playing(),
    {
        Transport { bpm: DEFAULT_BPM, is_playing: false }
    }
}

#[derive(Clone, Copy, Debug, PartialEq, Eq, Structural)]
pub struct StepTriggerEvent {
    pub track_index: u8,
    pub step_index: u8,
    pub velocity: u8,
    pub choke_group: Option<u8>,
    pub timeline_sample: u64,
    pub block_offset: u32,
}

/// Per-track performance annotations carried on every trigger of the track.
#[derive(Clone, Copy, Debug, PartialEq, Eq, Structural)]
pub struct TrackPerformance {
    pub choke_group: Option<u8>,
}

impl Default for TrackPerformance {
    fn default() -> (r: Self)
        ensures
            r.choke_group is None,
    {
        TrackPerformance { choke_group: None }
    }
}

/// The abstract state of a sequencer.
pub struct SequencerState {
    pub sample_rate_hz: int,
    /// Thousandths of a beat per minute.
    pub bpm: int,
    /// Millionths.
    pub swing: int,
    pub playing: bool,
    /// The grid cells, by `cell_index`.
    pub pattern: Seq<Step>,
    pub choke_groups: Seq<Option<u8>>,
    pub current_step: int,
    /// Ticks until the next step boundary.
    pub pending_ticks: int,
    pub timeline_sample: int,
    /// Whether the next non-empty block first emits the current step.
    pub armed: bool,
}

/// Ticks from the boundary of `step_index` to the next one: the step length
/// `sample_rate * 60 / bpm / 4`, lengthened by the swing on even steps and
/// shortened by it on odd steps.
pub open spec fn interval_ticks(rate: int, bpm: int, swing: int, step_index: int) -> int {
    if step_index % 2 == 0 {
        rate * STEP_TICK_FACTOR * (SWING_ONE + swing) / bpm
    } else {
        rate * STEP_TICK_FACTOR * (SWING_ONE - swing) / bpm
    }
}

/// Ticks in one step without swing.
pub open spec fn unswung_interval_ticks(rate: int, bpm: int) -> int {
    rate * STEP_TICK_FACTOR * SWING_ONE / bpm
}

/// A tick count rounded half up to whole samples.
pub open spec fn round_to_sample(ticks: int) -> int {
    (ticks + TICKS_PER_SAMPLE / 2) / TICKS_PER_SAMPLE as int
}

pub open spec fn next_step(step_index: int) -> int {
    (step_index + 1) % (STEPS_PER_PATTERN as int)
}

impl SequencerState {
    /// Sample rate, tempo and swing are in range.
    pub open spec fn clock_ok(&self) -> bool {
        &&& 1 <= self.sample_rate_hz <= u32::MAX
        &&& MIN_BPM <= self.bpm <= MAX_BPM
        &&& 0 <= self.swing <= MAX_SWING
    }

    pub open spec fn wf(&self) -> bool {
        &&& self.clock_ok()
        &&& self.pattern.len() == PATTERN_CELLS
        &&& self.choke_groups.len() == TRACK_COUNT
        &&& 0 <= self.current_step < STEPS_PER_PATTERN
        &&& 0 < self.pending_ticks <= self.interval(self.current_step)
        &&& 0 <= self.timeline_sample <= u64::MAX
    }

    pub open spec fn cell(&self, track_index: int, step_index: int) -> Step {
        self.pattern[cell_index(track_index, step_index)]
    }

    pub open spec fn interval(&self, step_index: int) -> int {
        interval_ticks(self.sample_rate_hz, self.bpm, self.swing, step_index)
    }

    /// The trigger of `track_index` for `step_index`.
    pub open spec fn trigger(
        &self,
        track_index: int,
        step_index: int,
        block_offset: int,
        timeline: int,
    ) -> StepTriggerEvent {
        StepTriggerEvent {
            track_index: track_index as u8,
            step_index: step_index as u8,
            velocity: self.cell(track_index, step_index).velocity,
            choke_group: self.choke_groups[track_index],
            timeline_sample: timeline as u64,
            block_offset: block_offset as u32,
        }
    }

    /// Triggers of the active cells of `step_index` on the first `n` tracks,
    /// by ascending track.
    pub open spec fn tick_events_upto(
        &self,
        step_index: int,
        block_offset: int,
        timeline: int,
        n: int,
    ) -> Seq<StepTriggerEvent>
        decreases n,
    {
        if n <= 0 {
            Seq::empty()
        } else {
            let prefix = self.tick_events_upto(step_index, block_offset, timeline, n - 1);
            if self.cell(n - 1, step_index).active {
                prefix.push(self.trigger(n - 1, step_index, block_offset, timeline))
            } else {
                prefix
            }
        }
    }

    /// Triggers emitted when `step_index` sounds.
    pub open spec fn tick_events(&self, step_index: int, block_offset: int, timeline: int) -> Seq<
        StepTriggerEvent,
    > {
        self.tick_events_upto(step_index, block_offset, timeline, TRACK_COUNT as int)
    }

    /// Triggers of the boundaries reached within `remaining` ticks, starting
    /// at `step_index` with `pending` ticks to its next boundary and
    /// `consumed` ticks already spent in the block.
    pub open spec fn block_events(
        &self,
        step_index: int,
        pending: int,
        remaining: int,
        consumed: int,
    ) -> Seq<StepTriggerEvent>
        decreases remaining,
    {
        if 0 < pending <= remaining {
            let next = next_step(step_index);
            let at = consumed + pending;
            let offset = round_to_sample(at);
            self.tick_events(next, offset, self.timeline_sample + offset) + self.block_events(
                next,
                self.interval(next),
                remaining - pending,
                at,
            )
        } else {
            Seq::empty()
        }
    }

    /// The step and the ticks to its next boundary once `remaining` ticks
    /// have elapsed.
    pub open spec fn block_end(&self, step_index: int, pending: int, remaining: int) -> (int, int)
        decreases remaining,
    {
        if 0 < pending <= remaining {
            let next = next_step(step_index);
            self.block_end(next, self.interval(next), remaining - pending)
        } else {
            (step_index, pending - remaining)
        }
    }

    /// The state once an armed start has been served: step 0 has sounded
    /// and its full interval lies ahead.
    pub open spec fn disarmed(&self) -> SequencerState {
        if self.armed {
            SequencerState {
                armed: false,
                current_step: 0,
                pending_ticks: self.interval(0),
                ..*self
            }
        } else {
            *self
        }
    }

    /// The state after a block of `frames` samples and the triggers it emits.
    pub open spec fn after_block(&self, frames: int) -> (SequencerState, Seq<StepTriggerEvent>) {
        if frames == 0 || !self.playing {
            (*self, Seq::empty())
        } else {
            let s = self.disarmed();
            let first = if self.armed {
                s.tick_events(s.current_step, 0, s.timeline_sample)
            } else {
                Seq::empty()
            };
            let total = frames * TICKS_PER_SAMPLE;
            let end = s.block_end(s.current_step, s.pending_ticks, total);
            (
                SequencerState {
                    current_step: end.0,
                    pending_ticks: end.1,
                    timeline_sample: s.timeline_sample + frames,
                    ..s
                },
                first + s.block_events(s.current_step, s.pending_ticks, total, 0),
            )
        }
    }
}

/// Total number of samples in a schedule of blocks.
pub open spec fn total_frames(blocks: Seq<u32>) -> int
    decreases blocks.len(),
{
    if blocks.len() == 0 {
        0
    } else {
        total_frames(blocks.drop_last()) + blocks.last()
    }
}

/// The state after running a schedule of blocks from `s`, and the triggers
/// emitted, in order.
pub open spec fn run_blocks(s: SequencerState, blocks: Seq<u32>) -> (SequencerState, Seq<StepTriggerEvent>)
    decreases blocks.len(),
{
    if blocks.len() == 0 {
        (s, Seq::empty())
    } else {
        let before = run_blocks(s, blocks.drop_last());
        let after = before.0.after_block(blocks.last() as int);
        (after.0, before.1 + after.1)
    }
}

/// Bounds of a step length on the admissible clock settings.
pub(crate) proof fn lemma_interval_bounds(rate: int, bpm: int, swing: int, step_index: int)
    requires
        1 <= rate <= u32::MAX,
        MIN_BPM <= bpm <= MAX_BPM,
        0 <= swing <= MAX_SWING,
    ensures
        1 <= interval_ticks(rate, bpm, swing, step_index),
        interval_ticks(rate, bpm, swing, step_index) * 20_000 <= rate * STEP_TICK_FACTOR * (
        SWING_ONE + MAX_SWING),
        interval_ticks(rate, bpm, swing, step_index) <= 100_000_000_000_000_000,
{
    let f = if step_index % 2 == 0 {
        SWING_ONE + swing
    } else {
        SWING_ONE - swing
    };
    let n = rate * STEP_TICK_FACTOR * f;
    assert(550_000 <= f <= 1_450_000);
    assert(n >= 165_000_000_000) by (nonlinear_arith)
        requires
            n == rate * STEP_TICK_FACTOR * f,
            rate >= 1,
            f >= 550_000,
    ;
    assert(n <= rate * STEP_TICK_FACTOR * (SWING_ONE + MAX_SWING)) by (nonlinear_arith)
        requires
            n == rate * STEP_TICK_FACTOR * f,
            rate >= 1,
            f <= 1_450_000,
    ;
    assert(n / bpm >= 1) by (nonlinear_arith)
        requires
            n >= bpm,
            bpm > 0,
    ;
    assert((n / bpm) * 20_000 <= n) by (nonlinear_arith)
        requires
            bpm >= 20_000,
            n >= 0,
    ;
    assert(rate * STEP_TICK_FACTOR * (SWING_ONE + MAX_SWING) <= 1_868_310_773_325_000_000_000)
        by (nonlinear_arith)
        requires
            rate <= u32::MAX,
    ;
}

/// Computes `interval_ticks` on machine integers.
fn step_interval_ticks(rate: u32, bpm: u32, swing: u32, step_index: usize) -> (r: u64)
    requires
        1 <= rate,
        MIN_BPM <= bpm <= MAX_BPM,
        swing <= MAX_SWING,
    ensures
        r == interval_ticks(rate as int, bpm as int, swing as int, step_index as int),
        r >= 1,
{
    proof {
        lemma_interval_bounds(rate as int, bpm as int, swing as int, step_index as int);
    }
    let factor: u128 = if step_index % 2 == 0 {
        (SWING_ONE + swing) as u128
    } else {
        (SWING_ONE - swing) as u128
    };
    assert((rate as u128) * (STEP_TICK_FACTOR as u128) * factor <= 1_868_310_773_325_000_000_000)
        by (nonlinear_arith)
        requires
            rate <= u32::MAX,
            factor <= 1_450_000,
    ;
    let n: u128 = (rate as u128) * (STEP_TICK_FACTOR as u128) * factor;
    (n / (bpm as u128)) as u64
}

/// The step sequencer: transport, pattern, per-track annotations and the
/// sample clock.
#[derive(Debug)]
pub struct Sequencer {
    sample_rate_hz: u32,
    transport: Transport,
    pattern: Pattern,
    swing: u32,
    track_performance: [TrackPerformance; 8],
    current_step: usize,
    pending_ticks: u64,
    timeline_sample: u64,
    emit_step_on_next_process: bool,
}

impl View for Sequencer {
    type V = SequencerState;

    closed spec fn view(&self) -> SequencerState {
        SequencerState {
            sample_rate_hz: self.sample_rate_hz as int,
            bpm: self.transport.spec_bpm() as int,
            swing: self.swing as int,
            playing: self.transport.spec_is_playing(),
            pattern: self.pattern@,
            choke_groups: self.track_performance@.map_values(|p: TrackPerformance| p.choke_group),
            current_step: self.current_step as int,
            pending_ticks: self.pending_ticks as int,
            timeline_sample: self.timeline_sample as int,
            armed: self.emit_step_on_next_process,
        }
    }
}

/// The state of a sequencer freshly made for `sample_rate_hz`.
pub open spec fn initial_state(sample_rate_hz: int) -> SequencerState {
    let rate = if sample_rate_hz < 1 {
        1
    } else {
        sample_rate_hz
    };
    SequencerState {
        sample_rate_hz: rate,
        bpm: DEFAULT_BPM as int,
        swing: 0,
        playing: false,
        pattern: Seq::new(PATTERN_CELLS as nat, |i: int| Step { active: false, velocity: DEFAULT_VELOCITY }),
        choke_groups: Seq::new(TRACK_COUNT as nat, |i: int| None),
        current_step: 0,
        pending_ticks: interval_ticks(rate, DEFAULT_BPM as int, 0, 0),
        timeline_sample: 0,
        armed: false,
    }
}

impl Sequencer {
    pub open spec fn wf(&self) -> bool {
        self@.wf()
    }

    pub closed spec fn pattern_value(&self) -> Pattern {
        self.pattern
    }

    /// A stopped sequencer at step 0 with an empty pattern, the default tempo
    /// and no swing; a sample rate of 0 is taken as 1.
    pub fn new(sample_rate_hz: u32) -> (r: Self)
        ensures
            r.wf(),
            r@ == initial_state(sample_rate_hz as int),
    {
        let rate = if sample_rate_hz < 1 {
            1
        } else {
            sample_rate_hz
        };
        let transport = Transport::default();
        let pending = step_interval_ticks(rate, transport.bpm(), 0, 0);
        let r = Sequencer {
            sample_rate_hz: rate,
            transport,
            pattern: Pattern::default(),
            swing: 0,
            track_performance: [TrackPerformance { choke_group: None }; 8],
            current_step: 0,
            pending_ticks: pending,
            timeline_sample: 0,
            emit_step_on_next_process: false,
        };
        assert(r@.choke_groups =~= Seq::new(TRACK_COUNT as nat, |i: int| None));
        assert(r@.pattern =~= initial_state(sample_rate_hz as int).pattern);
        r
    }

    pub fn transport(&self) -> (r: Transport)
        ensures
            r.spec_bpm() == self@.bpm,
            r.spec_is_playing() == self@.playing,
    {
        self.transport
    }

    pub fn sample_rate_hz(&self) -> (r: u32)
        ensures
            r == self@.sample_rate_hz,
    {
        self.sample_rate_hz
    }

    pub fn current_step(&self) -> (r: usize)
        ensures
            r == self@.current_step,
    {
        self.current_step
    }

    pub fn timeline_sample(&self) -> (r: u64)
        ensures
            r == self@.timeline_sample,
    {
        self.timeline_sample
    }

    /// Ticks left until the next step boundary.
    pub fn pending_ticks(&self) -> (r: u64)
        ensures
            r == self@.pending_ticks,
    {
        self.pending_ticks
    }

    fn step_interval(&self, step_index: usize) -> (r: u64)
        requires
            self@.clock_ok(),
        ensures
            r == self@.interval(step_index as int),
            r >= 1,
    {
        step_interval_ticks(self.sample_rate_hz, self.transport.bpm(), self.swing, step_index)
    }

    /// Sets the tempo (clamped into `MIN_BPM..=MAX_BPM`). The boundary in
    /// flight may come sooner under the new tempo, never later.
    pub fn set_tempo_bpm(&mut self, bpm: u32)
        requires
            old(self).wf(),
        ensures
            final(self).wf(),
            final(self)@ == (SequencerState {
                bpm: clamp_bpm(bpm as int),
                pending_ticks: min(
                    old(self)@.pending_ticks,
                    interval_ticks(
                        old(self)@.sample_rate_hz,
                        clamp_bpm(bpm as int),
                        old(self)@.swing,
                        old(self)@.current_step,
                    ),
                ),
                ..old(self)@
            }),
    {
        self.transport.set_bpm(bpm);
        let interval = self.step_interval(self.current_step);
        if interval < self.pending_ticks {
            self.pending_ticks = interval;
        }
    }

    /// Sets the swing (clamped to at most `MAX_SWING`). The boundary in
    /// flight may come sooner under the new swing, never later.
    pub fn set_swing(&mut self, swing: u32)
        requires
            old(self).wf(),
        ensures
            final(self).wf(),
            final(self)@ == (SequencerState {
                swing: min(swing as int, MAX_SWING as int),
                pending_ticks: min(
                    old(self)@.pending_ticks,
                    interval_ticks(
                        old(self)@.sample_rate_hz,
                        old(self)@.bpm,
                        min(swing as int, MAX_SWING as int),
                        old(self)@.current_step,
                    ),
                ),
                ..old(self)@
            }),
    {
        self.swing = if swing > MAX_SWING {
            MAX_SWING
        } else {
            swing
        };
        let interval = self.step_interval(self.current_step);
        if interval < self.pending_ticks {
            self.pending_ticks = interval;
        }
    }

    /// Swing in millionths.
    pub fn swing(&self) -> (r: u32)
        ensures
            r == self@.swing,
    {
        self.swing
    }

    /// Sets the choke-group annotation of a track; fails and changes nothing
    /// for a track out of range.
    pub fn set_track_choke_group(&mut self, track_index: usize, choke_group: Option<u8>) -> (r:
        bool)
        requires
            old(self).wf(),
        ensures
            final(self).wf(),
            r == (track_index < TRACK_COUNT),
            r ==> final(self)@ == (SequencerState {
                choke_groups: old(self)@.choke_groups.update(track_index as int, choke_group),
                ..old(self)@
            }),
            !r ==> final(self)@ == old(self)@,
    {
        if track_index >= TRACK_COUNT {
            return false;
        }
        self.track_performance[track_index] = TrackPerformance { choke_group };
        assert(self@.choke_groups =~= old(self)@.choke_groups.update(
            track_index as int,
            choke_group,
        ));
        true
    }

    /// Starts playback; the next non-empty block first emits step 0 at its
    /// first sample. Does nothing while already playing.
    pub fn start(&mut self)
        requires
            old(self).wf(),
        ensures
            final(self).wf(),
            final(self)@ == (if old(self)@.playing {
                old(self)@
            } else {
                SequencerState { playing: true, armed: true, ..old(self)@ }
            }),
    {
        if !self.transport.is_playing() {
            self.transport.start();
            self.emit_step_on_next_process = true;
        }
    }

    /// Stops playback and cancels a pending start emission.
    pub fn stop(&mut self)
        requires
            old(self).wf(),
        ensures
            final(self).wf(),
            final(self)@ == (SequencerState { playing: false, armed: false, ..old(self)@ }),
    {
        self.transport.stop();
        self.emit_step_on_next_process = false;
    }

    /// Rewinds to step 0 and sample 0 with a full first interval.
    pub fn reset(&mut self)
        requires
            old(self).wf(),
        ensures
            final(self).wf(),
            final(self)@ == (SequencerState {
                current_step: 0,
                timeline_sample: 0,
                pending_ticks: old(self)@.interval(0),
                armed: false,
                ..old(self)@
            }),
    {
        self.current_step = 0;
        self.timeline_sample = 0;
        self.pending_ticks = self.step_interval(0);
        self.emit_step_on_next_process = false;
    }

    pub fn pattern(&self) -> (r: &Pattern)
        ensures
            r@ == self@.pattern,
    {
        &self.pattern
    }

    /// The pattern, for editing in place.
    pub fn pattern_mut(&mut self) -> (r: &mut Pattern)
        requires
            old(self).wf(),
        ensures
            *r == old(self).pattern_value(),
            r@ == old(self)@.pattern,
            final(self)@ == (SequencerState { pattern: final(r)@, ..old(self)@ }),
    {
        &mut self.pattern
    }

    /// Appends the triggers of the active cells of `step_index`, by
    /// ascending track.
    fn collect_step_events(
        &self,
        step_index: usize,
        block_offset: u32,
        timeline_sample: u64,
        output: &mut Vec<StepTriggerEvent>,
    )
        requires
            self.wf(),
            step_index < STEPS_PER_PATTERN,
        ensures
            final(output)@ == old(output)@ + self@.tick_events(
                step_index as int,
                block_offset as int,
                timeline_sample as int,
            ),
    {
        let ghost start = output@;
        let mut track_index: usize = 0;
        while track_index < TRACK_COUNT
            invariant
                self.wf(),
                step_index < STEPS_PER_PATTERN,
                track_index <= TRACK_COUNT,
                output@ == start + self@.tick_events_upto(
                    step_index as int,
                    block_offset as int,
                    timeline_sample as int,
                    track_index as int,
                ),
            decreases TRACK_COUNT - track_index,
        {
            let step = self.pattern.cells[track_index * STEPS_PER_PATTERN + step_index];
            if step.active {
                let event = StepTriggerEvent {
                    track_index: track_index as u8,
                    step_index: step_index as u8,
                    velocity: step.velocity,
                    choke_group: self.track_performance[track_index].choke_group,
                    timeline_sample,
                    block_offset,
                };
                assert(event == self@.trigger(
                    track_index as int,
                    step_index as int,
                    block_offset as int,
                    timeline_sample as int,
                ));
                output.push(event);
            }
            track_index = track_index + 1;
            assert(output@ =~= start + self@.tick_events_upto(
                step_index as int,
                block_offset as int,
                timeline_sample as int,
                track_index as int,
            ));
        }
    }

    /// Advances the clock by `frames` samples and returns the triggers of
    /// every step boundary reached, in time order and by ascending track
    /// within a boundary. Does nothing for an empty block or while stopped.
    pub fn process_block(&mut self, frames: u32) -> (r: Vec<StepTriggerEvent>)
        requires
            old(self).wf(),
            old(self)@.timeline_sample + frames <= u64::MAX,
        ensures
            final(self).wf(),
            (final(self)@, r@) == old(self)@.after_block(frames as int),
    {
        if frames == 0 || !self.transport.is_playing() {
            return Vec::new();
        }
        let mut events: Vec<StepTriggerEvent> = Vec::new();
        if self.emit_step_on_next_process {
            self.emit_step_on_next_process = false;
            self.current_step = 0;
            self.pending_ticks = self.step_interval(0);
            assert(self@ == old(self)@.disarmed());
            self.collect_step_events(self.current_step, 0, self.timeline_sample, &mut events);
        }
        let ghost s = self@;
        assert(s == old(self)@.disarmed());
        let total: u64 = frames as u64 * TICKS_PER_SAMPLE;
        let mut remaining: u64 = total;
        let mut consumed: u64 = 0;
        let mut step_index: usize = self.current_step;
        let mut pending: u64 = self.pending_ticks;
        let ghost first = events@;
        while remaining > 0
            invariant
                self@ == s,
                s.wf(),
                s.timeline_sample + frames <= u64::MAX,
                total == frames * TICKS_PER_SAMPLE,
                consumed + remaining <= total,
                step_index < STEPS_PER_PATTERN,
                0 < pending <= s.interval(step_index as int),
                events@ + s.block_events(
                    step_index as int,
                    pending as int,
                    remaining as int,
                    consumed as int,
                ) == first + s.block_events(s.current_step, s.pending_ticks, total as int, 0),
                s.block_end(step_index as int, pending as int, remaining as int) == s.block_end(
                    s.current_step,
                    s.pending_ticks,
                    total as int,
                ),
            decreases remaining,
        {
            if pending <= remaining {
                let ghost before = events@;
                let ghost rest = s.block_events(
                    step_index as int,
                    pending as int,
                    remaining as int,
                    consumed as int,
                );
                consumed = consumed + pending;
                remaining = remaining - pending;
                let offset: u32 = ((consumed + TICKS_PER_SAMPLE / 2) / TICKS_PER_SAMPLE) as u32;
                step_index = (step_index + 1) % STEPS_PER_PATTERN;
                self.collect_step_events(
                    step_index,
                    offset,
                    self.timeline_sample + offset as u64,
                    &mut events,
                );
                pending = self.step_interval(step_index);
                assert(rest == s.tick_events(
                    step_index as int,
                    offset as int,
                    s.timeline_sample + offset,
                ) + s.block_events(
                    step_index as int,
                    pending as int,
                    remaining as int,
                    consumed as int,
                ));
                assert(events@ + s.block_events(
                    step_index as int,
                    pending as int,
                    remaining as int,
                    consumed as int,
                ) =~= before + rest);
            } else {
                pending = pending - remaining;
                remaining = 0;
            }
        }
        self.current_step = step_index;
        self.pending_ticks = pending;
        self.timeline_sample = self.timeline_sample + frames as u64;
        assert(events@ =~= old(self)@.after_block(frames as int).1);
        events
    }
}

} // verus!
