//! Whole bars: over any schedule of blocks that spans whole bars the step
//! clock comes back to where it started, having entered every step once
//! per bar.
use crate::sequencer::{
    lemma_interval_bounds, next_step, run_blocks, total_frames, SequencerState, STEPS_PER_PATTERN,
    TICKS_PER_SAMPLE,
};
use vstd::prelude::*;

verus! {

/// The length of one bar of sixteen steps, in ticks.
pub open spec fn bar_ticks(s: SequencerState) -> int {
    8 * (s.interval(0) + s.interval(1))
}

/// The steps entered, in order, while `remaining` ticks elapse from
/// `step_index` with `pending` ticks to its next boundary.
pub open spec fn crossed_steps(s: SequencerState, step_index: int, pending: int, remaining: int) -> Seq<int>
    decreases remaining,
{
    if 0 < pending <= remaining {
        let next = next_step(step_index);
        seq![next] + crossed_steps(s, next, s.interval(next), remaining - pending)
    } else {
        Seq::empty()
    }
}

/// The steps entered by boundary crossings during one block.
pub open spec fn block_crossings(s: SequencerState, frames: int) -> Seq<int> {
    if frames == 0 || !s.playing {
        Seq::empty()
    } else {
        let d = s.disarmed();
        crossed_steps(d, d.current_step, d.pending_ticks, frames * TICKS_PER_SAMPLE)
    }
}

/// The steps entered by boundary crossings over a schedule of blocks.
pub open spec fn run_crossings(s: SequencerState, blocks: Seq<u32>) -> Seq<int>
    decreases blocks.len(),
{
    if blocks.len() == 0 {
        Seq::empty()
    } else {
        run_crossings(s, blocks.drop_last()) + block_crossings(
            run_blocks(s, blocks.drop_last()).0,
            blocks.last() as int,
        )
    }
}

/// How many times `step_index` occurs in `steps`.
pub open spec fn visits(steps: Seq<int>, step_index: int) -> nat
    decreases steps.len(),
{
    if steps.len() == 0 {
        0
    } else {
        visits(steps.drop_last(), step_index) + if steps.last() == step_index {
            1nat
        } else {
            0nat
        }
    }
}

/// Same clock settings: the same step lengths.
pub open spec fn same_clock(s: SequencerState, t: SequencerState) -> bool {
    s.sample_rate_hz == t.sample_rate_hz && s.bpm == t.bpm && s.swing == t.swing
}

proof fn lemma_same_clock(s: SequencerState, t: SequencerState, step_index: int, pending: int, remaining: int)
    requires
        same_clock(s, t),
    ensures
        s.block_end(step_index, pending, remaining) == t.block_end(step_index, pending, remaining),
        crossed_steps(s, step_index, pending, remaining) == crossed_steps(t, step_index, pending, remaining),
    decreases remaining,
{
    if 0 < pending <= remaining {
        let next = next_step(step_index);
        lemma_same_clock(s, t, next, s.interval(next), remaining - pending);
    }
}

/// Elapsing `r1` then `r2` ticks enters the same steps and ends in the same
/// place as elapsing `r1 + r2` at once.
proof fn lemma_split(s: SequencerState, step_index: int, pending: int, r1: int, r2: int)
    requires
        s.clock_ok(),
        0 < pending,
        0 <= r1,
        0 <= r2,
    ensures
        ({
            let e = s.block_end(step_index, pending, r1);
            &&& 0 < e.1
            &&& s.block_end(step_index, pending, r1 + r2) == s.block_end(e.0, e.1, r2)
            &&& crossed_steps(s, step_index, pending, r1 + r2) == crossed_steps(s, step_index, pending, r1)
                + crossed_steps(s, e.0, e.1, r2)
        }),
    decreases r1,
{
    if pending <= r1 {
        let next = next_step(step_index);
        lemma_interval_bounds(s.sample_rate_hz, s.bpm, s.swing, next);
        lemma_split(s, next, s.interval(next), r1 - pending, r2);
        assert((r1 + r2) - pending == (r1 - pending) + r2);
        assert(crossed_steps(s, step_index, pending, r1 + r2) =~= crossed_steps(s, step_index, pending, r1)
            + crossed_steps(s, s.block_end(step_index, pending, r1).0, s.block_end(step_index, pending, r1).1, r2));
    } else {
        assert(crossed_steps(s, step_index, pending, r1) =~= Seq::<int>::empty());
        assert(crossed_steps(s, step_index, pending, r1 + r2) =~= Seq::<int>::empty() + crossed_steps(s, step_index, pending - r1, r2));
    }
}

/// Ticks from the start until the `k`-th boundary, `k >= 1`, starting at
/// `step_index` with `pending` ticks to its next boundary.
pub open spec fn arrival(s: SequencerState, step_index: int, pending: int, k: int) -> int
    decreases k,
{
    if k <= 1 {
        pending
    } else {
        arrival(s, step_index, pending, k - 1) + s.interval((step_index + k - 1) % 16)
    }
}

/// The `k` steps entered after `step_index`, in order.
pub open spec fn steps_after(step_index: int, k: int) -> Seq<int> {
    Seq::new(k as nat, |j: int| (step_index + 1 + j) % 16)
}

proof fn lemma_arrival_shift(s: SequencerState, step_index: int, pending: int, k: int)
    requires
        2 <= k,
        0 <= step_index < STEPS_PER_PATTERN,
    ensures
        arrival(s, step_index, pending, k) - pending == arrival(
            s,
            next_step(step_index),
            s.interval(next_step(step_index)),
            k - 1,
        ),
    decreases k,
{
    let n = next_step(step_index);
    if k > 2 {
        lemma_arrival_shift(s, step_index, pending, k - 1);
        assert((n + (k - 1) - 1) % 16 == (step_index + k - 1) % 16);
        assert(arrival(s, step_index, pending, k) == arrival(s, step_index, pending, k - 1) + s.interval((step_index + k - 1) % 16));
        assert(arrival(s, n, s.interval(n), k - 1) == arrival(s, n, s.interval(n), k - 2) + s.interval((n + (k - 1) - 1) % 16));
    } else {
        assert((step_index + 1) % 16 == n);
        assert(arrival(s, step_index, pending, 1) == pending);
        assert(arrival(s, n, s.interval(n), 1) == s.interval(n));
    }
}

proof fn lemma_arrival_pairs(s: SequencerState, step_index: int, pending: int, k: int)
    requires
        1 <= k,
        0 <= step_index < STEPS_PER_PATTERN,
    ensures
        arrival(s, step_index, pending, k + 2) == arrival(s, step_index, pending, k) + s.interval(0)
            + s.interval(1),
{
    let a = (step_index + k) % 16;
    let b = (step_index + k + 1) % 16;
    assert(a % 2 != b % 2);
    assert(s.interval(a) + s.interval(b) == s.interval(0) + s.interval(1));
    assert(arrival(s, step_index, pending, k + 1) == arrival(s, step_index, pending, k) + s.interval(a));
    assert(arrival(s, step_index, pending, k + 2) == arrival(s, step_index, pending, k + 1) + s.interval(b));
}

/// Reaching the `k`-th boundary and `extra` ticks beyond it, short of the
/// next, enters exactly the next `k` steps.
proof fn lemma_walk(s: SequencerState, step_index: int, pending: int, k: int, extra: int)
    requires
        s.clock_ok(),
        1 <= k,
        0 <= step_index < STEPS_PER_PATTERN,
        0 < pending,
        0 <= extra < s.interval((step_index + k) % 16),
    ensures
        crossed_steps(s, step_index, pending, arrival(s, step_index, pending, k) + extra)
            == steps_after(step_index, k),
        s.block_end(step_index, pending, arrival(s, step_index, pending, k) + extra) == (
            (step_index + k) % 16,
            s.interval((step_index + k) % 16) - extra,
        ),
    decreases k,
{
    let n = next_step(step_index);
    let r = arrival(s, step_index, pending, k) + extra;
    lemma_interval_bounds(s.sample_rate_hz, s.bpm, s.swing, n);
    if k == 1 {
        assert(n == (step_index + 1) % 16);
        assert(arrival(s, step_index, pending, 1) == pending);
        assert(s.block_end(n, s.interval(n), r - pending) == (n, s.interval(n) - extra));
        assert(crossed_steps(s, n, s.interval(n), r - pending) =~= Seq::<int>::empty());
        assert(crossed_steps(s, step_index, pending, r) =~= steps_after(step_index, k));
    } else {
        lemma_arrival_shift(s, step_index, pending, k);
        assert((n + (k - 1)) % 16 == (step_index + k) % 16);
        lemma_walk(s, n, s.interval(n), k - 1, extra);
        assert(r - pending == arrival(s, n, s.interval(n), k - 1) + extra);
        assert forall|j: int| 0 <= j < k - 1 implies #[trigger] steps_after(n, k - 1)[j] == steps_after(step_index, k)[j + 1] by {
            assert((n + 1 + j) % 16 == (step_index + 1 + (j + 1)) % 16);
        }
        assert(crossed_steps(s, step_index, pending, r) =~= steps_after(step_index, k));
    }
}

/// One bar from a boundary-consistent position enters the sixteen steps
/// that follow, in order, and ends where it began.
proof fn lemma_one_bar(s: SequencerState, step_index: int, pending: int)
    requires
        s.clock_ok(),
        0 <= step_index < STEPS_PER_PATTERN,
        0 < pending <= s.interval(step_index),
    ensures
        crossed_steps(s, step_index, pending, bar_ticks(s)) == steps_after(step_index, 16),
        s.block_end(step_index, pending, bar_ticks(s)) == (step_index, pending),
{
    lemma_arrival_pairs(s, step_index, pending, 2);
    lemma_arrival_pairs(s, step_index, pending, 4);
    lemma_arrival_pairs(s, step_index, pending, 6);
    lemma_arrival_pairs(s, step_index, pending, 8);
    lemma_arrival_pairs(s, step_index, pending, 10);
    lemma_arrival_pairs(s, step_index, pending, 12);
    lemma_arrival_pairs(s, step_index, pending, 14);
    let c1 = (step_index + 1) % 16;
    assert(arrival(s, step_index, pending, 1) == pending);
    assert(arrival(s, step_index, pending, 2) == pending + s.interval(c1));
    assert(s.interval(step_index) + s.interval(c1) == s.interval(0) + s.interval(1)) by {
        assert(step_index % 2 != c1 % 2);
    }
    let extra = s.interval(step_index) - pending;
    assert(arrival(s, step_index, pending, 16) + extra == bar_ticks(s));
    assert((step_index + 16) % 16 == step_index);
    lemma_walk(s, step_index, pending, 16, extra);
}

/// The steps entered over `n` bars from `step_index`.
pub open spec fn bar_steps(step_index: int, n: nat) -> Seq<int>
    decreases n,
{
    if n == 0 {
        Seq::empty()
    } else {
        bar_steps(step_index, (n - 1) as nat) + steps_after(step_index, 16)
    }
}

proof fn lemma_bars(s: SequencerState, step_index: int, pending: int, n: nat)
    requires
        s.clock_ok(),
        0 <= step_index < STEPS_PER_PATTERN,
        0 < pending <= s.interval(step_index),
    ensures
        crossed_steps(s, step_index, pending, n * bar_ticks(s)) == bar_steps(step_index, n),
        s.block_end(step_index, pending, n * bar_ticks(s)) == (step_index, pending),
    decreases n,
{
    lemma_interval_bounds(s.sample_rate_hz, s.bpm, s.swing, 0);
    lemma_interval_bounds(s.sample_rate_hz, s.bpm, s.swing, 1);
    if n == 0 {
        assert(n * bar_ticks(s) == 0);
        assert(crossed_steps(s, step_index, pending, 0) =~= Seq::<int>::empty());
        assert(bar_steps(step_index, n) =~= Seq::<int>::empty());
    } else {
        let m = (n - 1) as nat;
        lemma_bars(s, step_index, pending, m);
        assert(n * bar_ticks(s) == m * bar_ticks(s) + bar_ticks(s)) by (nonlinear_arith)
            requires
                n == m + 1,
        ;
        assert(m * bar_ticks(s) >= 0) by (nonlinear_arith)
            requires
                bar_ticks(s) >= 0,
        ;
        lemma_split(s, step_index, pending, m * bar_ticks(s), bar_ticks(s));
        lemma_one_bar(s, step_index, pending);
        assert(bar_steps(step_index, n) == bar_steps(step_index, m) + steps_after(step_index, 16));
    }
}

proof fn lemma_visits_concat(a: Seq<int>, b: Seq<int>, step_index: int)
    ensures
        visits(a + b, step_index) == visits(a, step_index) + visits(b, step_index),
    decreases b.len(),
{
    if b.len() == 0 {
        assert(a + b =~= a);
    } else {
        lemma_visits_concat(a, b.drop_last(), step_index);
        assert((a + b).drop_last() =~= a + b.drop_last());
    }
}

proof fn lemma_visits_steps_after(c: int, m: int, i: int)
    requires
        0 <= c < STEPS_PER_PATTERN,
        0 <= i < STEPS_PER_PATTERN,
        0 <= m <= 16,
    ensures
        visits(steps_after(c, m), i) == if (i - c - 1 + 16) % 16 < m {
            1nat
        } else {
            0nat
        },
    decreases m,
{
    if m == 0 {
        assert(steps_after(c, 0) =~= Seq::<int>::empty());
    } else {
        lemma_visits_steps_after(c, m - 1, i);
        assert(steps_after(c, m).drop_last() =~= steps_after(c, m - 1));
        assert(steps_after(c, m).last() == (c + m) % 16);
        assert(((c + m) % 16 == i) == ((i - c - 1 + 16) % 16 == m - 1));
    }
}

proof fn lemma_visits_bars(c: int, n: nat, i: int)
    requires
        0 <= c < STEPS_PER_PATTERN,
        0 <= i < STEPS_PER_PATTERN,
    ensures
        visits(bar_steps(c, n), i) == n,
    decreases n,
{
    if n > 0 {
        lemma_visits_bars(c, (n - 1) as nat, i);
        lemma_visits_concat(bar_steps(c, (n - 1) as nat), steps_after(c, 16), i);
        lemma_visits_steps_after(c, 16, i);
    }
}

/// Running a schedule of blocks on a playing sequencer equals letting their
/// total length elapse at once.
proof fn lemma_run(s: SequencerState, blocks: Seq<u32>)
    requires
        s.wf(),
        s.playing,
        !s.armed,
    ensures
        ({
            let r = run_blocks(s, blocks).0;
            let e = s.block_end(s.current_step, s.pending_ticks, total_frames(blocks) * TICKS_PER_SAMPLE);
            &&& r == SequencerState {
                current_step: e.0,
                pending_ticks: e.1,
                timeline_sample: s.timeline_sample + total_frames(blocks),
                ..s
            }
            &&& run_crossings(s, blocks) == crossed_steps(
                s,
                s.current_step,
                s.pending_ticks,
                total_frames(blocks) * TICKS_PER_SAMPLE,
            )
        }),
    decreases blocks.len(),
{
    if blocks.len() == 0 {
        assert(crossed_steps(s, s.current_step, s.pending_ticks, 0) =~= Seq::<int>::empty());
    } else {
        let prefix = blocks.drop_last();
        let f = blocks.last() as int;
        lemma_run(s, prefix);
        lemma_total_frames_nonneg(prefix);
        let r1 = run_blocks(s, prefix).0;
        let t1 = total_frames(prefix) * TICKS_PER_SAMPLE;
        lemma_split(s, s.current_step, s.pending_ticks, t1, f * TICKS_PER_SAMPLE);
        let e1 = s.block_end(s.current_step, s.pending_ticks, t1);
        assert(same_clock(r1, s));
        lemma_same_clock(r1, s, e1.0, e1.1, f * TICKS_PER_SAMPLE);
        if f == 0 {
            assert(crossed_steps(s, e1.0, e1.1, 0) =~= Seq::<int>::empty());
            assert(run_crossings(s, blocks) =~= run_crossings(s, prefix));
        } else {
            assert(r1.disarmed() == r1);
        }
    }
}

proof fn lemma_total_frames_nonneg(blocks: Seq<u32>)
    ensures
        total_frames(blocks) >= 0,
    decreases blocks.len(),
{
    if blocks.len() > 0 {
        lemma_total_frames_nonneg(blocks.drop_last());
    }
}

/// Over any schedule of blocks that spans exactly `n` bars, a playing
/// sequencer returns to the step (and the position within it) where it
/// started, and enters every step exactly `n` times.
pub proof fn lemma_whole_bars(s: SequencerState, blocks: Seq<u32>, n: nat)
    requires
        s.wf(),
        s.playing,
        !s.armed,
        total_frames(blocks) * TICKS_PER_SAMPLE == n * bar_ticks(s),
    ensures
        run_blocks(s, blocks).0.current_step == s.current_step,
        run_blocks(s, blocks).0.pending_ticks == s.pending_ticks,
        forall|i: int| 0 <= i < STEPS_PER_PATTERN ==> #[trigger] visits(run_crossings(s, blocks), i) == n,
{
    lemma_run(s, blocks);
    lemma_bars(s, s.current_step, s.pending_ticks, n);
    assert forall|i: int| 0 <= i < STEPS_PER_PATTERN implies #[trigger] visits(run_crossings(s, blocks), i) == n by {
        lemma_visits_bars(s.current_step, n, i);
    }
}

} // verus!
