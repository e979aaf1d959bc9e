//! Laws of the step schedule, proved over the sequencer's abstract state.
use crate::sequencer::{
    next_step, round_to_sample, StepTriggerEvent, STEPS_PER_PATTERN, TICKS_PER_SAMPLE,    SequencerState, TRACK_COUNT,    lemma_interval_bounds,    interval_ticks, unswung_interval_ticks, MAX_BPM, MAX_SWING, MIN_BPM, STEP_TICK_FACTOR, SWING_ONE,
};
use vstd::arithmetic::div_mod::{lemma_div_is_ordered, lemma_div_plus_one, lemma_div_minus_one};
use vstd::prelude::*;

verus! {

/// Every step lasts at least one tick: the step clock always advances.
pub proof fn lemma_step_length_positive(rate: int, bpm: int, swing: int, step_index: int)
    requires
        1 <= rate <= u32::MAX,
        MIN_BPM <= bpm <= MAX_BPM,
        0 <= swing <= MAX_SWING,
    ensures
        unswung_interval_ticks(rate, bpm) > 0,
        interval_ticks(rate, bpm, swing, step_index) > 0,
{
    lemma_interval_bounds(rate, bpm, swing, step_index);
    lemma_interval_bounds(rate, bpm, 0, step_index);
    lemma_swing_shapes_steps(rate, bpm, 0, step_index);
}

/// With a positive swing an even step is strictly longer and an odd step
/// strictly shorter than an unswung step; with no swing every step has the
/// unswung length.
pub proof fn lemma_swing_shapes_steps(rate: int, bpm: int, swing: int, step_index: int)
    requires
        1 <= rate <= u32::MAX,
        MIN_BPM <= bpm <= MAX_BPM,
        0 <= swing <= MAX_SWING,
    ensures
        swing == 0 ==> interval_ticks(rate, bpm, swing, step_index) == unswung_interval_ticks(
            rate,
            bpm,
        ),
        swing > 0 && step_index % 2 == 0 ==> interval_ticks(rate, bpm, swing, step_index)
            > unswung_interval_ticks(rate, bpm),
        swing > 0 && step_index % 2 != 0 ==> interval_ticks(rate, bpm, swing, step_index)
            < unswung_interval_ticks(rate, bpm),
{
    let a = rate * STEP_TICK_FACTOR * SWING_ONE;
    let d = rate * STEP_TICK_FACTOR * swing;
    assert(rate * STEP_TICK_FACTOR * (SWING_ONE + swing) == a + d) by (nonlinear_arith)
        requires
            a == rate * STEP_TICK_FACTOR * SWING_ONE,
            d == rate * STEP_TICK_FACTOR * swing,
    ;
    assert(rate * STEP_TICK_FACTOR * (SWING_ONE - swing) == a - d) by (nonlinear_arith)
        requires
            a == rate * STEP_TICK_FACTOR * SWING_ONE,
            d == rate * STEP_TICK_FACTOR * swing,
    ;
    if swing > 0 {
        assert(d >= bpm) by (nonlinear_arith)
            requires
                d == rate * STEP_TICK_FACTOR * swing,
                rate >= 1,
                swing >= 1,
                bpm <= MAX_BPM,
        ;
        lemma_div_is_ordered(a + bpm, a + d, bpm);
        lemma_div_plus_one(a, bpm);
        lemma_div_is_ordered(a - d, a - bpm, bpm);
        lemma_div_minus_one(a, bpm);
    }
}

/// The triggers of one step: one per active track among the first `n`, by
/// strictly ascending track, all stamped with that step, offset and time.
pub proof fn lemma_tick_events(
    s: SequencerState,
    step_index: int,
    block_offset: int,
    timeline: int,
    n: int,
)
    requires
        0 <= n <= TRACK_COUNT,
    ensures
        ({
            let ev = s.tick_events_upto(step_index, block_offset, timeline, n);
            &&& ev.len() <= n
            &&& forall|i: int|
                0 <= i < ev.len() ==> {
                    &&& #[trigger] ev[i] == s.trigger(
                        ev[i].track_index as int,
                        step_index,
                        block_offset,
                        timeline,
                    )
                    &&& ev[i].track_index < n
                    &&& s.cell(ev[i].track_index as int, step_index).active
                }
            &&& forall|i: int, j: int|
                0 <= i < j < ev.len() ==> #[trigger] ev[i].track_index < #[trigger] ev[j].track_index
            &&& forall|t: int|
                0 <= t < n && #[trigger] s.cell(t, step_index).active ==> exists|i: int|
                    0 <= i < ev.len() && #[trigger] ev[i].track_index == t
        }),
    decreases n,
{
    if n > 0 {
        lemma_tick_events(s, step_index, block_offset, timeline, n - 1);
        let prev = s.tick_events_upto(step_index, block_offset, timeline, n - 1);
        let ev = s.tick_events_upto(step_index, block_offset, timeline, n);
        if s.cell(n - 1, step_index).active {
            assert(ev[prev.len() as int].track_index == n - 1);
            assert forall|t: int|
                0 <= t < n && #[trigger] s.cell(t, step_index).active implies exists|
                i: int,
            | 0 <= i < ev.len() && #[trigger] ev[i].track_index == t by {
                if t < n - 1 {
                    let i = choose|i: int| 0 <= i < prev.len() && #[trigger] prev[i].track_index == t;
                    assert(ev[i] == prev[i]);
                } else {
                    assert(ev[prev.len() as int].track_index == t);
                }
            }
        }
    }
}

/// After a start, the next non-empty block opens with the triggers of every
/// active track of step 0, at block offset 0 and the current timeline sample.
pub proof fn lemma_start_emits_step_zero(s: SequencerState, frames: int)
    requires
        s.wf(),
        s.playing,
        s.armed,
        frames > 0,
    ensures
        ({
            let ev = s.after_block(frames).1;
            let first = s.disarmed().tick_events(0, 0, s.timeline_sample);
            &&& first.len() <= ev.len()
            &&& ev.subrange(0, first.len() as int) == first
            &&& forall|i: int|
                0 <= i < first.len() ==> {
                    &&& (#[trigger] ev[i]).step_index == 0
                    &&& ev[i].block_offset == 0
                    &&& ev[i].timeline_sample == s.timeline_sample
                    &&& s.cell(ev[i].track_index as int, 0).active
                }
            &&& forall|t: int|
                0 <= t < TRACK_COUNT && #[trigger] s.cell(t, 0).active ==> exists|i: int|
                    0 <= i < first.len() && #[trigger] ev[i].track_index == t
        }),
{
    let d = s.disarmed();
    let ev = s.after_block(frames).1;
    let first = d.tick_events(0, 0, s.timeline_sample);
    lemma_tick_events(d, 0, 0, s.timeline_sample, TRACK_COUNT as int);
    assert(ev.subrange(0, first.len() as int) =~= first);
    assert forall|t: int|
        0 <= t < TRACK_COUNT && #[trigger] s.cell(t, 0).active implies exists|i: int|
        0 <= i < first.len() && #[trigger] ev[i].track_index == t by {
        assert(d.cell(t, 0).active);
        let i = choose|i: int| 0 <= i < first.len() && #[trigger] first[i].track_index == t;
        assert(ev[i] == first[i]);
    }
}

/// What every trigger of a block carries: a track in range, an active cell
/// of the pattern, that cell's velocity and the track's choke group.
pub open spec fn is_pattern_trigger(s: SequencerState, e: StepTriggerEvent) -> bool {
    &&& e.track_index < TRACK_COUNT
    &&& e.step_index < STEPS_PER_PATTERN
    &&& s.cell(e.track_index as int, e.step_index as int).active
    &&& e.velocity == s.cell(e.track_index as int, e.step_index as int).velocity
    &&& e.choke_group == s.choke_groups[e.track_index as int]
}

proof fn lemma_tick_events_are_triggers(s: SequencerState, step_index: int, block_offset: int, timeline: int)
    requires
        0 <= step_index < STEPS_PER_PATTERN,
    ensures
        forall|i: int|
            0 <= i < s.tick_events(step_index, block_offset, timeline).len() ==> is_pattern_trigger(
                s,
                #[trigger] s.tick_events(step_index, block_offset, timeline)[i],
            ),
{
    lemma_tick_events(s, step_index, block_offset, timeline, TRACK_COUNT as int);
}

proof fn lemma_block_events_are_triggers(s: SequencerState, step_index: int, pending: int, remaining: int, consumed: int)
    requires
        0 <= step_index < STEPS_PER_PATTERN,
    ensures
        forall|i: int|
            0 <= i < s.block_events(step_index, pending, remaining, consumed).len()
                ==> is_pattern_trigger(s, #[trigger] s.block_events(step_index, pending, remaining, consumed)[i]),
    decreases remaining,
{
    if 0 < pending <= remaining {
        let next = next_step(step_index);
        let at = consumed + pending;
        let offset = round_to_sample(at);
        let head = s.tick_events(next, offset, s.timeline_sample + offset);
        let tail = s.block_events(next, s.interval(next), remaining - pending, at);
        lemma_tick_events_are_triggers(s, next, offset, s.timeline_sample + offset);
        lemma_block_events_are_triggers(s, next, s.interval(next), remaining - pending, at);
        assert forall|i: int| 0 <= i < (head + tail).len() implies is_pattern_trigger(s, #[trigger] (head + tail)[i]) by {
            if i < head.len() {
                assert((head + tail)[i] == head[i]);
            } else {
                assert((head + tail)[i] == tail[i - head.len()]);
            }
        }
    }
}

/// Every trigger of a block comes from an active cell and carries that
/// cell's velocity and its track's current choke group; a block changes
/// neither the pattern nor any choke group.
pub proof fn lemma_block_triggers_follow_annotations(s: SequencerState, frames: int)
    requires
        s.wf(),
        frames >= 0,
    ensures
        s.after_block(frames).0.choke_groups == s.choke_groups,
        s.after_block(frames).0.pattern == s.pattern,
        forall|i: int|
            0 <= i < s.after_block(frames).1.len() ==> is_pattern_trigger(s, #[trigger] s.after_block(frames).1[i]),
{
    if frames != 0 && s.playing {
        let d = s.disarmed();
        let first = if s.armed {
            d.tick_events(d.current_step, 0, d.timeline_sample)
        } else {
            Seq::empty()
        };
        let rest = d.block_events(d.current_step, d.pending_ticks, frames * TICKS_PER_SAMPLE, 0);
        if s.armed {
            lemma_tick_events_are_triggers(d, d.current_step, 0, d.timeline_sample);
        }
        lemma_block_events_are_triggers(d, d.current_step, d.pending_ticks, frames * TICKS_PER_SAMPLE, 0);
        let ev = s.after_block(frames).1;
        assert(ev == first + rest);
        assert forall|i: int| 0 <= i < ev.len() implies is_pattern_trigger(s, #[trigger] ev[i]) by {
            if i < first.len() {
                assert(ev[i] == first[i]);
                assert(is_pattern_trigger(d, first[i]));
            } else {
                assert(ev[i] == rest[i - first.len()]);
                assert(is_pattern_trigger(d, rest[i - first.len()]));
            }
        }
    }
}

/// `a` comes strictly before `b`: earlier on the timeline, or at the same
/// sample on a lower track.
pub open spec fn precedes(a: StepTriggerEvent, b: StepTriggerEvent) -> bool {
    a.timeline_sample < b.timeline_sample || (a.timeline_sample == b.timeline_sample
        && a.track_index < b.track_index)
}

pub open spec fn strictly_ordered(ev: Seq<StepTriggerEvent>) -> bool {
    forall|i: int, j: int| 0 <= i < j < ev.len() ==> precedes(#[trigger] ev[i], #[trigger] ev[j])
}

/// Every step lasts at least one whole sample.
pub open spec fn steps_span_a_sample(s: SequencerState) -> bool {
    s.interval(0) >= TICKS_PER_SAMPLE && s.interval(1) >= TICKS_PER_SAMPLE
}

proof fn lemma_round_monotone(x: int, y: int)
    requires
        0 <= x <= y,
    ensures
        round_to_sample(x) <= round_to_sample(y),
{
    lemma_div_is_ordered(x + TICKS_PER_SAMPLE / 2, y + TICKS_PER_SAMPLE / 2, TICKS_PER_SAMPLE as int);
}

proof fn lemma_round_advances(x: int, d: int)
    requires
        0 <= x,
        d >= TICKS_PER_SAMPLE,
    ensures
        round_to_sample(x + d) >= round_to_sample(x) + 1,
{
    lemma_round_monotone(x + TICKS_PER_SAMPLE, x + d);
    lemma_div_plus_one(x + TICKS_PER_SAMPLE / 2, TICKS_PER_SAMPLE as int);
    assert(x + TICKS_PER_SAMPLE + TICKS_PER_SAMPLE / 2 == TICKS_PER_SAMPLE + (x + TICKS_PER_SAMPLE / 2));
}

proof fn lemma_concat_ordered(a: Seq<StepTriggerEvent>, b: Seq<StepTriggerEvent>)
    requires
        strictly_ordered(a),
        strictly_ordered(b),
        forall|i: int, j: int| 0 <= i < a.len() && 0 <= j < b.len() ==> precedes(#[trigger] a[i], #[trigger] b[j]),
    ensures
        strictly_ordered(a + b),
{
    let c = a + b;
    assert forall|i: int, j: int| 0 <= i < j < c.len() implies precedes(#[trigger] c[i], #[trigger] c[j]) by {
        if j < a.len() {
            assert(c[i] == a[i] && c[j] == a[j]);
        } else if i >= a.len() {
            assert(c[i] == b[i - a.len()] && c[j] == b[j - a.len()]);
        } else {
            assert(c[i] == a[i] && c[j] == b[j - a.len()]);
        }
    }
}

proof fn lemma_tick_ordered(s: SequencerState, step_index: int, block_offset: int, timeline: int)
    requires
        0 <= step_index < STEPS_PER_PATTERN,
    ensures
        strictly_ordered(s.tick_events(step_index, block_offset, timeline)),
        forall|i: int|
            0 <= i < s.tick_events(step_index, block_offset, timeline).len() ==> (#[trigger] s.tick_events(
                step_index,
                block_offset,
                timeline,
            )[i]).timeline_sample == timeline as u64,
{
    lemma_tick_events(s, step_index, block_offset, timeline, TRACK_COUNT as int);
}

proof fn lemma_block_ordered(
    s: SequencerState,
    step_index: int,
    pending: int,
    remaining: int,
    consumed: int,
    low: int,
)
    requires
        s.wf(),
        steps_span_a_sample(s),
        0 <= step_index < STEPS_PER_PATTERN,
        0 < pending,
        0 <= consumed,
        0 <= remaining,
        low < round_to_sample(consumed + pending),
        s.timeline_sample + round_to_sample(consumed + remaining) <= u64::MAX,
    ensures
        strictly_ordered(s.block_events(step_index, pending, remaining, consumed)),
        forall|i: int|
            0 <= i < s.block_events(step_index, pending, remaining, consumed).len() ==> ({
                let t = (#[trigger] s.block_events(step_index, pending, remaining, consumed)[i]).timeline_sample;
                &&& s.timeline_sample + low < t
                &&& t <= s.timeline_sample + round_to_sample(consumed + remaining)
            }),
    decreases remaining,
{
    if 0 < pending <= remaining {
        let next = next_step(step_index);
        let at = consumed + pending;
        let offset = round_to_sample(at);
        let head = s.tick_events(next, offset, s.timeline_sample + offset);
        let tail = s.block_events(next, s.interval(next), remaining - pending, at);
        assert(s.interval(next) == s.interval(0) || s.interval(next) == s.interval(1));
        lemma_round_monotone(at, consumed + remaining);
        lemma_round_advances(at, s.interval(next));
        lemma_tick_ordered(s, next, offset, s.timeline_sample + offset);
        lemma_block_ordered(s, next, s.interval(next), remaining - pending, at, offset);
        assert((s.timeline_sample + offset) as u64 == s.timeline_sample + offset);
        lemma_concat_ordered(head, tail);
        let ev = head + tail;
        assert forall|i: int| 0 <= i < ev.len() implies {
            let t = (#[trigger] ev[i]).timeline_sample;
            &&& s.timeline_sample + low < t
            &&& t <= s.timeline_sample + round_to_sample(consumed + remaining)
        } by {
            if i < head.len() {
                assert(ev[i] == head[i]);
            } else {
                assert(ev[i] == tail[i - head.len()]);
            }
        }
    }
}

/// Where every step lasts at least one sample, the triggers of a block are
/// strictly ordered by timeline sample and then by track, so no two share
/// a track, a step and a timeline sample.
pub proof fn lemma_block_triggers_distinct(s: SequencerState, frames: int)
    requires
        s.wf(),
        steps_span_a_sample(s),
        0 <= frames,
        s.timeline_sample + frames <= u64::MAX,
    ensures
        strictly_ordered(s.after_block(frames).1),
        forall|i: int, j: int|
            0 <= i < j < s.after_block(frames).1.len() ==> !({
                let a = #[trigger] s.after_block(frames).1[i];
                let b = #[trigger] s.after_block(frames).1[j];
                a.track_index == b.track_index && a.step_index == b.step_index && a.timeline_sample
                    == b.timeline_sample
            }),
{
    if frames != 0 && s.playing {
        let d = s.disarmed();
        let total = frames * TICKS_PER_SAMPLE;
        assert(round_to_sample(total) == frames) by {
            assert((frames * TICKS_PER_SAMPLE + TICKS_PER_SAMPLE / 2) / TICKS_PER_SAMPLE as int == frames) by (nonlinear_arith)
                requires frames >= 1;
        }
        let first = if s.armed {
            d.tick_events(d.current_step, 0, d.timeline_sample)
        } else {
            Seq::empty()
        };
        let rest = d.block_events(d.current_step, d.pending_ticks, total, 0);
        let low: int = if s.armed { 0 } else { -1 };
        if s.armed {
            lemma_round_advances(0, d.pending_ticks);
            lemma_tick_ordered(d, d.current_step, 0, d.timeline_sample);
        } else {
            lemma_round_monotone(0, d.pending_ticks);
        }
        lemma_block_ordered(d, d.current_step, d.pending_ticks, total, 0, low);
        lemma_concat_ordered(first, rest);
        assert(s.after_block(frames).1 == first + rest);
    }
}

} // verus!
